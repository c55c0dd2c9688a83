//! What the parts of the printer, of its store and of a program are taken for.
use vstd::prelude::*;

use crate::attacher::Attacher;
use crate::attachments::{covers, CommentAttachmentHost};
use crate::comment::{Comment, CommentPosition, Span};
use crate::list::{by_start, start_le};
use crate::operands::Page;
use crate::order::{law_sort_by_is_stable, law_sort_by_orders, law_sort_by_permutes};
use crate::pending::{
    contents, groups_ok, lemma_contents_pending, lemma_pending_element, pending, CommentGroup,
};
use crate::printer::{all_printable, printable, Codegen};
use crate::spots::{at_char, law_boundaries_are_characters};
use crate::text::viewed;
use crate::tree::{in_source_order, touches_comment};

verus! {

/// What a printer has printed, how it lays out white space, what it cuts comments out of, and
/// what is still to be printed.
pub proof fn law_printer(codegen: Codegen<'_>)
    ensures
        codegen.output().text == codegen.code@,
        codegen.output().pending_space == codegen.print_next_indent_as_space,
        codegen.layout().minify == codegen.options.minify,
        codegen.layout().indent == codegen.indent,
        codegen.settings().layout() == codegen.layout(),
        codegen.settings().options == codegen.options,
        codegen.settings().indent == codegen.indent,
        codegen.settings().source_text == codegen.source(),
        codegen.settings().has_property_key_annotations == codegen.has_property_key_annotations,
        codegen.settings().suppress_normal_comments == codegen.suppress_normal_comments,
        codegen.source() is Some <==> codegen.source_text is Some,
        codegen.source_text matches Some(text) ==> codegen.source() == Some(text@),
        codegen.page() == (Page { output: codegen.output(), comments: codegen.comments@ }),
        codegen.comments@ == pending(codegen.comments.groups@),
{
}

/// What an attacher chooses hosts from, and the choices that it has made.
pub proof fn law_attacher(attacher: Attacher<'_>)
    ensures
        attacher.scene().text == attacher.source_text@,
        attacher.scene().nodes == attacher.nodes@,
        attacher.scene().comments == attacher.comments@,
        attacher.progress().assigned == attacher.assignments@,
        attacher.progress().cursor == attacher.cursor,
{
}

/// What is pending is what the groups hold, on either side.
pub proof fn law_pending_comments(groups: Seq<CommentGroup>, c: Comment)
    ensures
        pending(groups).contains(c) <==> exists|g: int|
            0 <= g < groups.len() && ((#[trigger] groups[g]).leading@.contains(c)
                || groups[g].trailing@.contains(c)),
        pending(groups).len() == 0 <==> forall|g: int|
            0 <= g < groups.len() ==> (#[trigger] groups[g]).leading@.len() == 0
                && groups[g].trailing@.len() == 0,
{
    let all = pending(groups);
    if all.contains(c) {
        let i = choose|i: int| 0 <= i < all.len() && all[i] == c;
        lemma_pending_element(groups, i);
        let g = choose|g: int| 0 <= g < groups.len() && contents(#[trigger] groups[g]).contains(c);
        let own = contents(groups[g]);
        let k = choose|k: int| 0 <= k < own.len() && own[k] == c;
        if k < groups[g].leading@.len() {
            assert(groups[g].leading@[k] == c);
        } else {
            assert(groups[g].trailing@[k - groups[g].leading@.len()] == c);
        }
    }
    if exists|g: int|
        0 <= g < groups.len() && ((#[trigger] groups[g]).leading@.contains(c)
            || groups[g].trailing@.contains(c)) {
        let g = choose|g: int|
            0 <= g < groups.len() && ((#[trigger] groups[g]).leading@.contains(c)
                || groups[g].trailing@.contains(c));
        lemma_either_side(groups[g], c);
        lemma_contents_pending(groups, g, c);
    }
    if all.len() > 0 {
        lemma_pending_element(groups, 0);
        let g = choose|g: int|
            0 <= g < groups.len() && contents(#[trigger] groups[g]).contains(all[0]);
        assert(contents(groups[g]).len() > 0);
    }
    if exists|g: int|
        0 <= g < groups.len() && !((#[trigger] groups[g]).leading@.len() == 0
            && groups[g].trailing@.len() == 0) {
        let g = choose|g: int|
            0 <= g < groups.len() && !((#[trigger] groups[g]).leading@.len() == 0
                && groups[g].trailing@.len() == 0);
        let first = contents(groups[g])[0];
        assert(contents(groups[g]).contains(first));
        lemma_contents_pending(groups, g, first);
    }
}

/// A group holds what one of its sides holds.
proof fn lemma_either_side(group: CommentGroup, c: Comment)
    requires
        group.leading@.contains(c) || group.trailing@.contains(c),
    ensures
        contents(group).contains(c),
{
    if group.leading@.contains(c) {
        let k = choose|k: int| 0 <= k < group.leading@.len() && group.leading@[k] == c;
        assert(contents(group)[k] == c);
    } else {
        let k = choose|k: int| 0 <= k < group.trailing@.len() && group.trailing@[k] == c;
        assert(contents(group)[group.leading@.len() + k] == c);
    }
}

/// In a store, every comment lies in the group of its boundary, on its own side, and no boundary
/// has two groups.
pub proof fn law_filed_comments(groups: Seq<CommentGroup>, g: int, h: int, k: int)
    requires
        groups_ok(groups),
        0 <= g < groups.len(),
        0 <= h < groups.len(),
    ensures
        g < h ==> groups[g].anchor < groups[h].anchor,
        0 <= k < groups[g].leading@.len() ==> groups[g].leading@[k].attached_to == groups[g].anchor
            && groups[g].leading@[k].position == CommentPosition::Leading,
        0 <= k < groups[g].trailing@.len() ==> groups[g].trailing@[k].attached_to
            == groups[g].anchor && groups[g].trailing@[k].position == CommentPosition::Trailing,
{
    assert(crate::pending::filed(groups[g]));
}

/// Comments in the order of the source are the same comments, each starting no later than the
/// next; those that start together keep the order they had.
pub proof fn law_order_of_the_source(comments: Seq<Comment>, i: int, j: int, start: u32)
    ensures
        by_start(comments).to_multiset() == comments.to_multiset(),
        0 <= i < j < comments.len() ==> by_start(comments)[i].span.start <= by_start(
            comments,
        )[j].span.start,
        by_start(comments).filter(|c: Comment| c.span.start == start) == comments.filter(
            |c: Comment| c.span.start == start,
        ),
{
    law_sort_by_permutes(comments, start_le());
    law_sort_by_orders(comments, start_le());
    law_sort_by_is_stable(comments, start_le(), |c: Comment| c.span.start == start);
    if 0 <= i < j < comments.len() {
        assert(start_le()(by_start(comments)[i], by_start(comments)[j]));
    }
}

/// Does comment `i` start no later than the next?
pub open spec fn in_step(comments: Seq<Comment>, i: int) -> bool {
    comments[i].span.start <= comments[i + 1].span.start
}

/// The comments of a program come in the order of the source where each starts no later than
/// the next.
pub proof fn law_comments_in_source_order(comments: Seq<Comment>)
    ensures
        in_source_order(comments) <==> forall|i: int|
            0 <= i < comments.len() - 1 ==> #[trigger] in_step(comments, i),
{
    if forall|i: int| 0 <= i < comments.len() - 1 ==> #[trigger] in_step(comments, i) {
        assert forall|i: int, j: int| 0 <= i < j < comments.len() implies (
        #[trigger] comments[i]).span.start <= (#[trigger] comments[j]).span.start by {
            lemma_steps(comments, i, j);
        }
    }
}

/// Steps that do not go back lead no way back.
proof fn lemma_steps(comments: Seq<Comment>, i: int, j: int)
    requires
        0 <= i <= j < comments.len(),
        forall|k: int| 0 <= k < comments.len() - 1 ==> #[trigger] in_step(comments, k),
    ensures
        comments[i].span.start <= comments[j].span.start,
    decreases j,
{
    if i < j {
        lemma_steps(comments, i, j - 1);
        assert(in_step(comments, j - 1));
    }
}

/// A span is touched by a comment that starts in it, or that belongs to a boundary in it, its
/// end included, and by no other.
pub proof fn law_touching(comments: Seq<Comment>, span: Span)
    ensures
        touches_comment(comments, span) <==> exists|c: Comment| #[trigger]
            comments.contains(c) && ((span.start <= c.span.start && c.span.start < span.end) || (
            span.start <= c.attached_to && c.attached_to <= span.end)),
{
    if touches_comment(comments, span) {
        let i = choose|i: int|
            0 <= i < comments.len() && (span.start <= (#[trigger] comments[i]).span.start < span.end
                || span.start <= comments[i].attached_to <= span.end);
        assert(comments.contains(comments[i]));
    }
    if exists|c: Comment| #[trigger]
        comments.contains(c) && ((span.start <= c.span.start && c.span.start < span.end) || (
        span.start <= c.attached_to && c.attached_to <= span.end)) {
        let c = choose|c: Comment| #[trigger]
            comments.contains(c) && ((span.start <= c.span.start && c.span.start < span.end) || (
            span.start <= c.attached_to && c.attached_to <= span.end));
        let i = choose|i: int| 0 <= i < comments.len() && comments[i] == c;
        assert(comments[i] == c);
    }
}

/// A comment can be printed where it starts and ends with characters of the source, or where
/// there is no source to cut it out of.
pub proof fn law_printable(source: Option<Seq<char>>, comments: Seq<Comment>, c: Comment)
    ensures
        printable(source, c) <==> match source {
            Some(text) => c.span.start <= c.span.end && at_char(text, c.span.start as int)
                && at_char(text, c.span.end as int),
            None => true,
        },
        all_printable(source, comments) <==> forall|i: int|
            0 <= i < comments.len() ==> printable(source, #[trigger] comments[i]),
{
    if let Some(text) = source {
        law_boundaries_are_characters(text, c.span.start as int, c.span.end as int);
    }
}

/// Hosts that cover comments share them out: each comment is in the part of one host, and of
/// one only.
pub proof fn law_hosts_share_comments_out(
    hosts: Seq<CommentAttachmentHost>,
    total: int,
    r: int,
) -> (j: int)
    requires
        covers(hosts, total),
        0 <= r < total,
    ensures
        0 <= j < hosts.len(),
        hosts[j].start <= r < hosts[j].start + hosts[j].len,
        forall|k: int|
            0 <= k < hosts.len() && (#[trigger] hosts[k]).start <= r < hosts[k].start + hosts[k].len
                ==> k == j,
{
    let j = lemma_part_of(hosts, total, r, hosts.len() as int);
    assert forall|m: int| 0 < m < hosts.len() implies #[trigger] follows(hosts, m) by {
        assert(hosts[m].start == hosts[m - 1].start + hosts[m - 1].len);
    }
    assert forall|k: int|
        0 <= k < hosts.len() && (#[trigger] hosts[k]).start <= r < hosts[k].start
            + hosts[k].len implies k == j by {
        if k < j {
            lemma_parts_ascend(hosts, k, j);
        }
        if j < k {
            lemma_parts_ascend(hosts, j, k);
        }
    }
    j
}

/// The part of one of the first hosts that a comment is in.
proof fn lemma_part_of(
    hosts: Seq<CommentAttachmentHost>,
    total: int,
    r: int,
    n: int,
) -> (j: int)
    requires
        covers(hosts, total),
        0 < n <= hosts.len(),
        0 <= r < hosts[n - 1].start + hosts[n - 1].len,
    ensures
        0 <= j < n,
        hosts[j].start <= r < hosts[j].start + hosts[j].len,
    decreases n,
{
    assert(hosts[n - 1].len > 0);
    if hosts[n - 1].start <= r {
        n - 1
    } else {
        lemma_part_of(hosts, total, r, n - 1)
    }
}

/// Does the part of host `j` start where that of the host before it ends?
pub open spec fn follows(hosts: Seq<CommentAttachmentHost>, j: int) -> bool {
    hosts[j].start == hosts[j - 1].start + hosts[j - 1].len
}

/// The parts of hosts come one behind the other.
proof fn lemma_parts_ascend(hosts: Seq<CommentAttachmentHost>, j: int, k: int)
    requires
        forall|m: int| 0 < m < hosts.len() ==> #[trigger] follows(hosts, m),
        0 <= j < k < hosts.len(),
    ensures
        hosts[j].start + hosts[j].len <= hosts[k].start,
    decreases k,
{
    assert(follows(hosts, k));
    if j < k - 1 {
        lemma_parts_ascend(hosts, j, k - 1);
    }
}

/// The characters of a text that is at hand.
pub proof fn law_viewed(text: Option<&str>)
    ensures
        text is None ==> viewed(text) is None,
        text matches Some(t) ==> viewed(text) == Some(t@),
{
}

} // verus!
