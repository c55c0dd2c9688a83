//! Lists in an arena.
use vstd::prelude::*;

use oxc_allocator::{Allocator, Vec as ArenaVec};

use crate::attachments::{AttachedComment, CommentAttachmentHost};

verus! {

/// The number of elements that a list in an arena has room for, whatever its history.
pub const ARENA_LIMIT: usize = 0x400_0000;

/// `oxc_allocator::Allocator`, an arena.
#[verifier::external_type_specification]
#[verifier::external_body]
pub struct ExAllocator(Allocator);

/// `oxc_allocator::Vec`, a list in an arena.
#[verifier::external_type_specification]
#[verifier::external_body]
#[verifier::reject_recursive_types(T)]
pub struct ExArenaVec<'alloc, T>(ArenaVec<'alloc, T>);

/// The hosts that a list in an arena holds, in order.
pub uninterp spec fn hosts_in(list: ArenaVec<'_, CommentAttachmentHost>) -> Seq<
    CommentAttachmentHost,
>;

/// The comments that a list in an arena holds, in order.
pub uninterp spec fn comments_in(list: ArenaVec<'_, AttachedComment>) -> Seq<AttachedComment>;

/// `oxc_allocator::Vec::new_in`: a list of nothing.
#[verifier::external_body]
pub(crate) fn no_hosts<'a>(allocator: &'a Allocator) -> (hosts: ArenaVec<'a, CommentAttachmentHost>)
    ensures
        hosts_in(hosts) == Seq::<CommentAttachmentHost>::empty(),
{
    ArenaVec::new_in(&allocator)
}

/// `oxc_allocator::Vec::push`: the host becomes the last of the list. It panics where the list
/// would have to grow beyond four gigabytes, which it does by doubling.
#[verifier::external_body]
pub(crate) fn push_host(hosts: &mut ArenaVec<'_, CommentAttachmentHost>, host: CommentAttachmentHost)
    requires
        hosts_in(*old(hosts)).len() < ARENA_LIMIT,
    ensures
        hosts_in(*final(hosts)) == hosts_in(*old(hosts)).push(host),
{
    hosts.push(host);
}

/// `oxc_allocator::Vec::from_iter_in`: the comments in order. It panics where they need more
/// than four gigabytes.
#[verifier::external_body]
pub(crate) fn in_arena<'a>(comments: Vec<AttachedComment>, allocator: &'a Allocator) -> (list: ArenaVec<
    'a,
    AttachedComment,
>)
    requires
        comments@.len() <= ARENA_LIMIT,
    ensures
        comments_in(list) == comments@,
{
    ArenaVec::from_iter_in(comments, &allocator)
}

} // verus!
