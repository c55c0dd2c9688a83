//! Short lists of comments.
use vstd::prelude::*;

use smallvec::SmallVec;

use crate::comment::Comment;
use crate::order::{law_sort_by_permutes, lemma_insert_by_at, sort_by};

verus! {

/// A list of comments. Most anchors own a single comment, which is stored in place.
#[verifier::external_body]
pub struct CommentList {
    items: SmallVec<[Comment; 1]>,
}

/// The comments that the `smallvec::SmallVec` of a list holds, in order.
pub uninterp spec fn listed(list: CommentList) -> Seq<Comment>;

impl View for CommentList {
    type V = Seq<Comment>;

    open spec fn view(&self) -> Seq<Comment> {
        listed(*self)
    }
}

impl CommentList {
    /// `smallvec::SmallVec::new`: a list of nothing.
    #[verifier::external_body]
    pub(crate) fn new() -> (list: CommentList)
        ensures
            listed(list) == Seq::<Comment>::empty(),
    {
        CommentList { items: SmallVec::new() }
    }

    /// `smallvec::SmallVec::push`: the comment becomes the last of the list.
    #[verifier::external_body]
    pub(crate) fn push(&mut self, comment: Comment)
        ensures
            listed(*final(self)) == listed(*old(self)).push(comment),
    {
        self.items.push(comment);
    }

    /// `smallvec::SmallVec::pop`: takes the last comment off the list, where there is one.
    #[verifier::external_body]
    pub(crate) fn pop(&mut self) -> (last: Option<Comment>)
        ensures
            listed(*old(self)).len() == 0 ==> last is None && listed(*final(self)) == listed(
                *old(self),
            ),
            listed(*old(self)).len() > 0 ==> last == Some(listed(*old(self)).last()) && listed(
                *final(self),
            ) == listed(*old(self)).drop_last(),
    {
        self.items.pop()
    }

    /// `smallvec::SmallVec::insert`: the comment comes to stand at `index`, and those from
    /// there on move up by one. An index behind the end makes it panic.
    #[verifier::external_body]
    pub(crate) fn insert(&mut self, index: usize, comment: Comment)
        requires
            index <= listed(*old(self)).len(),
        ensures
            listed(*final(self)) == listed(*old(self)).insert(index as int, comment),
    {
        self.items.insert(index, comment);
    }

    /// `smallvec::SmallVec::as_slice`: the comments of the list, in order.
    #[verifier::external_body]
    pub(crate) fn as_slice(&self) -> (items: &[Comment])
        ensures
            items@ == listed(*self),
    {
        self.items.as_slice()
    }

    /// The comments of the list.
    pub fn items(&self) -> (items: &[Comment])
        ensures
            items@ == self@,
    {
        self.as_slice()
    }

    /// Is the list without comments?
    pub fn is_empty(&self) -> (b: bool)
        ensures
            b == (self@.len() == 0),
    {
        self.as_slice().len() == 0
    }

    /// Moves the comments of another list to the end of this one.
    pub fn append(&mut self, other: &CommentList)
        ensures
            final(self)@ == old(self)@ + other@,
    {
        let items: &[Comment] = other.as_slice();
        let mut i: usize = 0;
        assert(old(self)@ + items@.take(0) =~= old(self)@);
        while i < items.len()
            invariant
                i <= items@.len(),
                items@ == other@,
                self@ == old(self)@ + items@.take(i as int),
            decreases items@.len() - i,
        {
            self.push(items[i]);
            assert(items@.take(i + 1) =~= items@.take(i as int).push(items@[i as int]));
            assert(self@ =~= old(self)@ + items@.take(i + 1));
            i = i + 1;
        }
        assert(items@.take(items@.len() as int) =~= items@);
    }

    /// The list in the order in which its comments start.
    pub fn sorted_by_start(&self) -> (list: CommentList)
        ensures
            list@ == by_start(self@),
    {
        let items: &[Comment] = self.as_slice();
        let mut list: CommentList = CommentList::new();
        let mut i: usize = 0;
        assert(items@.take(0) =~= seq![]);
        while i < items.len()
            invariant
                i <= items@.len(),
                items@ == self@,
                list@ == by_start(items@.take(i as int)),
            decreases items@.len() - i,
        {
            let comment: Comment = items[i];
            let ghost sorted = list@;
            proof {
                law_sort_by_permutes(items@.take(i as int), start_le());
            }
            let placed: &[Comment] = list.as_slice();
            let mut at: usize = placed.len();
            while at > 0 && comment.span.start < placed[at - 1].span.start
                invariant
                    at <= placed@.len(),
                    placed@ == sorted,
                    forall|k: int|
                        at <= k < sorted.len() ==> !start_le()(#[trigger] sorted[k], comment),
                decreases at,
            {
                at = at - 1;
            }
            list.insert(at, comment);
            proof {
                lemma_insert_by_at(sorted, comment, start_le(), at as int);
                assert(items@.take(i + 1).drop_last() =~= items@.take(i as int));
            }
            i = i + 1;
        }
        assert(items@.take(items@.len() as int) =~= items@);
        list
    }
}

/// One comment starts no later than the other.
pub open spec fn start_le() -> spec_fn(Comment, Comment) -> bool {
    |a: Comment, b: Comment| a.span.start <= b.span.start
}

/// The comments in the order in which they start.
pub open spec fn by_start(comments: Seq<Comment>) -> Seq<Comment> {
    sort_by(comments, start_le())
}

} // verus!
