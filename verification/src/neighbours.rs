//! The host of a comment, told by the line breaks between it and the nodes next to it.
use vstd::prelude::*;

use crate::attachments::{lemma_pure_hosts, pure_candidates_ok, scene_of, Program};
use crate::comment::{Comment, CommentContent, Span};
use crate::place::{
    below, first_reaching, law_hosts_are_told_one_by_one, lemma_below_span, nested, starts_nested,
};
use crate::scene::{
    child_le, children, law_annotation_without_effect_trails, law_children, law_deepest_ending,
    lemma_children, lemma_overridden_sound, lemma_walk_keeps, lemma_walk_sound, Assignment,
    AttachedCommentPosition, Gap, Progress, Scene,
};
use crate::spots::{
    at_char, breaks_between, law_boundaries_are_characters, law_breaks_lie_in_between,
};
use crate::tree::{
    enters, in_source_order, law_outline_is_a_forest, law_outline_nests, lemma_outline_entered,
    links_ok, outline, touches_comment, touching, tree_ok, well_nested, NodeEvent, NodeRecord,
    NO_NODE,
};

verus! {

/// Are two offsets of a text, in either order, on one line?
pub open spec fn on_one_line(text: Seq<char>, a: u32, b: u32) -> bool {
    &&& at_char(text, a as int)
    &&& at_char(text, b as int)
    &&& a <= b ==> !breaks_between(text, a as int, b as int)
    &&& b <= a ==> !breaks_between(text, b as int, a as int)
}

/// Does a comment start within a node? The root takes in what comes before it.
pub open spec fn starts_in(nodes: Seq<NodeRecord>, x: int, comment: Comment) -> bool {
    &&& x > 0 ==> nodes[x].span.start <= comment.span.start
    &&& comment.span.start < nodes[x].span.end
}

/// Is node `x`, the root or a node below it, the innermost of all nodes that the comment starts
/// in?
pub open spec fn innermost(nodes: Seq<NodeRecord>, x: int, comment: Comment) -> bool {
    &&& 0 <= x < nodes.len()
    &&& x == 0 || below(nodes, x, 0)
    &&& starts_in(nodes, x, comment)
    &&& forall|y: int|
        0 <= y < nodes.len() && #[trigger] starts_in(nodes, y, comment) ==> y == x || below(
            nodes,
            x,
            y,
        )
}

/// Does node `a` come before node `b` in the source? Of two that start together the shorter
/// does; of two with one span the one that the traversal reaches first.
pub open spec fn earlier(nodes: Seq<NodeRecord>, a: int, b: int) -> bool {
    let s = nodes[a].span;
    let t = nodes[b].span;
    ||| s.start < t.start
    ||| s.start == t.start && s.end < t.end
    ||| s.start == t.start && s.end == t.end && a < b
}

/// Is `p` the last child of `x` that does not start behind the start of the comment?
pub open spec fn child_before(nodes: Seq<NodeRecord>, x: int, p: int, comment: Comment) -> bool {
    &&& 0 <= p < nodes.len()
    &&& nodes[p].parent == x
    &&& nodes[p].span.start <= comment.span.start
    &&& forall|y: int|
        0 <= y < nodes.len() && y != p && (#[trigger] nodes[y]).parent == x && nodes[y].span.start
            <= comment.span.start ==> earlier(nodes, y, p)
}

/// Is `n` the first child of `x` that starts behind the start of the comment?
pub open spec fn child_behind(nodes: Seq<NodeRecord>, x: int, n: int, comment: Comment) -> bool {
    &&& 0 <= n < nodes.len()
    &&& nodes[n].parent == x
    &&& comment.span.start < nodes[n].span.start
    &&& forall|y: int|
        0 <= y < nodes.len() && y != n && (#[trigger] nodes[y]).parent == x && comment.span.start
            < nodes[y].span.start ==> earlier(nodes, n, y)
}

/// Does no child of `x` start at or before the start of the comment?
pub open spec fn none_before(nodes: Seq<NodeRecord>, x: int, comment: Comment) -> bool {
    forall|y: int|
        0 <= y < nodes.len() && (#[trigger] nodes[y]).parent == x ==> comment.span.start
            < nodes[y].span.start
}

/// Does no child of `x` start behind the start of the comment?
pub open spec fn none_behind(nodes: Seq<NodeRecord>, x: int, comment: Comment) -> bool {
    forall|y: int|
        0 <= y < nodes.len() && (#[trigger] nodes[y]).parent == x ==> nodes[y].span.start
            <= comment.span.start
}

/// A program as a parser leaves it: its nodes lie inside each other, its comments come in the
/// order of the source, and comment `i` is not an annotation without effect.
pub open spec fn ordinary(scene: Scene, i: int) -> bool {
    &&& tree_ok(scene.nodes)
    &&& nested(scene.nodes)
    &&& starts_nested(scene.nodes)
    &&& in_source_order(scene.comments)
    &&& scene.pure_hosts_ok()
    &&& 0 <= i < scene.comments.len()
    &&& scene.comments[i].content != CommentContent::PureNotApplied
}

/// Being on one line is having no line break in between.
pub proof fn law_one_line(scene: Scene, a: u32, b: u32)
    ensures
        scene.same_line(a, b) <==> on_one_line(scene.text, a, b),
{
    let low = if a <= b {
        a as int
    } else {
        b as int
    };
    let high = if a <= b {
        b as int
    } else {
        a as int
    };
    law_boundaries_are_characters(scene.text, low, high);
    if at_char(scene.text, low) && at_char(scene.text, high) {
        law_breaks_lie_in_between(scene.text, low, high);
    }
}

/// A node comes behind all nodes that it is below.
proof fn lemma_below_comes_later(nodes: Seq<NodeRecord>, d: int, x: int)
    requires
        below(nodes, d, x),
    ensures
        0 <= x < d,
    decreases d,
{
    let parent = nodes[d].parent as int;
    if parent != x {
        lemma_below_comes_later(nodes, parent, x);
    }
}

/// Of two nodes that a node is below, one is below the other.
proof fn lemma_chain(nodes: Seq<NodeRecord>, d: int, a: int, b: int)
    requires
        below(nodes, d, a),
        below(nodes, d, b),
    ensures
        a == b || below(nodes, a, b) || below(nodes, b, a),
    decreases d,
{
    let parent = nodes[d].parent as int;
    if parent != a && parent != b {
        lemma_chain(nodes, parent, a, b);
    }
}

/// Children that do not reach behind an offset are passed over.
proof fn lemma_passed_over(nodes: Seq<NodeRecord>, kids: Seq<usize>, offset: u32, k: int)
    requires
        0 <= k <= kids.len(),
        forall|j: int|
            0 <= j < k ==> nodes[#[trigger] kids[j] as int].span.start <= offset
                && nodes[kids[j] as int].span.end <= offset,
    ensures
        first_reaching(nodes, kids, offset, 0) == first_reaching(nodes, kids, offset, k),
    decreases k,
{
    if k > 0 {
        lemma_passed_over(nodes, kids, offset, k - 1);
        assert(nodes[kids[k - 1] as int].span.end <= offset);
    }
}

/// No node is below another child of its own parent, or below itself.
proof fn lemma_not_below_sibling(nodes: Seq<NodeRecord>, a: int, b: int)
    requires
        tree_ok(nodes),
        0 <= a < nodes.len(),
        0 <= b < nodes.len(),
        nodes[a].parent == nodes[b].parent,
    ensures
        !below(nodes, a, b),
{
    assert(links_ok(nodes, b));
    if below(nodes, a, b) {
        let parent = nodes[a].parent as int;
        if parent != b {
            lemma_below_comes_later(nodes, parent, b);
        }
    }
}

/// The search for the place of a comment goes from a node down to the child that the comment
/// starts in.
proof fn lemma_goes_down(scene: Scene, x: int, d: int, comment: Comment)
    requires
        tree_ok(scene.nodes),
        innermost(scene.nodes, x, comment),
        0 < d < scene.nodes.len(),
        d == x || below(scene.nodes, x, d),
        starts_in(scene.nodes, d, comment),
        scene.nodes[d].parent != NO_NODE,
    ensures
        scene.place(scene.nodes[d].parent as int, comment) == scene.place(d, comment),
{
    let nodes = scene.nodes;
    let offset = comment.span.start;
    assert(links_ok(nodes, d));
    let parent = nodes[d].parent as int;
    let kids = children(nodes, parent);
    law_children(nodes, parent);
    lemma_children(nodes, parent);
    assert(nodes[d].parent == parent);
    assert(kids.contains(d as usize));
    let k = choose|k: int| 0 <= k < kids.len() && kids[k] == d as usize;
    assert forall|j: int| 0 <= j < k implies nodes[#[trigger] kids[j] as int].span.start <= offset
        && nodes[kids[j] as int].span.end <= offset by {
        let y = kids[j] as int;
        assert(child_le(nodes)(kids[j], kids[k]));
        assert(nodes[y].parent == parent);
        assert(y != d);
        if offset < nodes[y].span.end {
            assert(starts_in(nodes, y, comment));
            lemma_not_below_sibling(nodes, d, y);
            lemma_not_below_sibling(nodes, y, d);
            if d != x && y != x {
                lemma_chain(nodes, x, d, y);
            }
            assert(false);
        }
    }
    lemma_passed_over(nodes, kids, offset, k);
}

/// What a node is below, its parent is, or is below.
proof fn lemma_below_parent(nodes: Seq<NodeRecord>, x: int, d: int)
    requires
        d == x || below(nodes, x, d),
        0 <= nodes[d].parent < d,
    ensures
        below(nodes, x, nodes[d].parent as int),
    decreases x,
{
    if d != x {
        let parent = nodes[x].parent as int;
        lemma_below_parent(nodes, parent, d);
    }
}

/// The search for the place of a comment comes by every node between the root and the
/// innermost one that the comment starts in.
proof fn lemma_comes_by(scene: Scene, x: int, d: int, comment: Comment)
    requires
        tree_ok(scene.nodes),
        nested(scene.nodes),
        starts_nested(scene.nodes),
        innermost(scene.nodes, x, comment),
        0 <= d < scene.nodes.len(),
        d == x || below(scene.nodes, x, d),
        starts_in(scene.nodes, d, comment),
        d == 0 || below(scene.nodes, d, 0),
    ensures
        scene.place(0, comment) == scene.place(d, comment),
    decreases d,
{
    let nodes = scene.nodes;
    if d > 0 {
        let parent = nodes[d].parent as int;
        lemma_goes_down(scene, x, d, comment);
        lemma_below_parent(nodes, x, d);
        assert(starts_in(nodes, parent, comment));
        lemma_comes_by(scene, x, parent, comment);
    }
}

/// The host of a comment is chosen in the gap between two children of the innermost node that
/// the comment starts in: `k` of them come before it.
proof fn lemma_gap(scene: Scene, i: int, x: int) -> (k: int)
    requires
        ordinary(scene, i),
        innermost(scene.nodes, x, scene.comments[i]),
    ensures
        ({
            let comment = scene.comments[i];
            let kids = children(scene.nodes, x);
            &&& 0 <= k <= kids.len()
            &&& forall|j: int|
                0 <= j < k ==> scene.nodes[#[trigger] kids[j] as int].span.start
                    <= comment.span.start
            &&& forall|j: int|
                k <= j < kids.len() ==> comment.span.start
                    < scene.nodes[#[trigger] kids[j] as int].span.start
            &&& scene.assignments()[i] == scene.choose_host(scene.gap(x, k), comment)
        }),
{
    let nodes = scene.nodes;
    let comment = scene.comments[i];
    let offset = comment.span.start;
    let kids = children(nodes, x);
    law_hosts_are_told_one_by_one(scene, i);
    assert(links_ok(nodes, 0));
    if x > 0 {
        assert(comment.span.start < nodes[0].span.end) by {
            lemma_below_span(nodes, x, 0);
        }
        assert(starts_in(nodes, 0, comment));
    }
    lemma_comes_by(scene, x, x, comment);
    law_children(nodes, x);
    lemma_children(nodes, x);
    let k = first_reaching(nodes, kids, offset, 0);
    lemma_first_reaching_is_first(nodes, kids, offset, 0);
    assert forall|j: int| 0 <= j < kids.len() implies !starts_in(
        nodes,
        #[trigger] kids[j] as int,
        comment,
    ) by {
        let y = kids[j] as int;
        if starts_in(nodes, y, comment) {
            lemma_below_comes_later(nodes, x, y);
        }
    }
    if k < kids.len() {
        assert(!starts_in(nodes, kids[k] as int, comment));
    }
    assert forall|j: int| k <= j < kids.len() implies comment.span.start
        < nodes[#[trigger] kids[j] as int].span.start by {
        if k < j {
            assert(child_le(nodes)(kids[k], kids[j]));
        }
    }
    k
}

/// The search for the first child that reaches behind an offset passes over none that does.
proof fn lemma_first_reaching_is_first(
    nodes: Seq<NodeRecord>,
    kids: Seq<usize>,
    offset: u32,
    k: int,
)
    requires
        0 <= k <= kids.len(),
    ensures
        ({
            let r = first_reaching(nodes, kids, offset, k);
            &&& k <= r <= kids.len()
            &&& r < kids.len() ==> offset < nodes[kids[r] as int].span.start || offset
                < nodes[kids[r] as int].span.end
            &&& forall|j: int|
                k <= j < r ==> nodes[#[trigger] kids[j] as int].span.start <= offset
                    && nodes[kids[j] as int].span.end <= offset
        }),
    decreases kids.len() - k,
{
    if k < kids.len() {
        lemma_first_reaching_is_first(nodes, kids, offset, k + 1);
    }
}

/// The child right before the gap is the last one that does not start behind the comment.
proof fn lemma_child_before(nodes: Seq<NodeRecord>, x: int, k: int, p: int, comment: Comment)
    requires
        tree_ok(nodes),
        0 <= x < nodes.len(),
        0 <= k <= children(nodes, x).len(),
        forall|j: int|
            0 <= j < k ==> nodes[#[trigger] children(nodes, x)[j] as int].span.start
                <= comment.span.start,
        forall|j: int|
            k <= j < children(nodes, x).len() ==> comment.span.start < nodes[#[trigger] children(
                nodes,
                x,
            )[j] as int].span.start,
        child_before(nodes, x, p, comment),
    ensures
        k > 0,
        children(nodes, x)[k - 1] == p as usize,
{
    let kids = children(nodes, x);
    law_children(nodes, x);
    lemma_children(nodes, x);
    assert(nodes[p].parent == x);
    assert(kids.contains(p as usize));
    let m = choose|m: int| 0 <= m < kids.len() && kids[m] == p as usize;
    let y = kids[k - 1] as int;
    if m < k - 1 {
        assert(child_le(nodes)(kids[m], kids[k - 1]));
        assert(nodes[y].parent == x);
        assert(earlier(nodes, y, p));
    }
}

/// The child right behind the gap is the first one that starts behind the comment.
proof fn lemma_child_behind(nodes: Seq<NodeRecord>, x: int, k: int, n: int, comment: Comment)
    requires
        tree_ok(nodes),
        0 <= x < nodes.len(),
        0 <= k <= children(nodes, x).len(),
        forall|j: int|
            0 <= j < k ==> nodes[#[trigger] children(nodes, x)[j] as int].span.start
                <= comment.span.start,
        forall|j: int|
            k <= j < children(nodes, x).len() ==> comment.span.start < nodes[#[trigger] children(
                nodes,
                x,
            )[j] as int].span.start,
        child_behind(nodes, x, n, comment),
    ensures
        k < children(nodes, x).len(),
        children(nodes, x)[k] == n as usize,
{
    let kids = children(nodes, x);
    law_children(nodes, x);
    lemma_children(nodes, x);
    assert(nodes[n].parent == x);
    assert(kids.contains(n as usize));
    let m = choose|m: int| 0 <= m < kids.len() && kids[m] == n as usize;
    let y = kids[k] as int;
    if k < m {
        assert(child_le(nodes)(kids[k], kids[m]));
        assert(nodes[y].parent == x);
        assert(earlier(nodes, n, y));
    }
}

/// Without a child before the comment the gap is the first, without one behind it the last.
proof fn lemma_outer_gap(nodes: Seq<NodeRecord>, x: int, k: int, comment: Comment)
    requires
        tree_ok(nodes),
        0 <= x < nodes.len(),
        0 <= k <= children(nodes, x).len(),
        forall|j: int|
            0 <= j < k ==> nodes[#[trigger] children(nodes, x)[j] as int].span.start
                <= comment.span.start,
        forall|j: int|
            k <= j < children(nodes, x).len() ==> comment.span.start < nodes[#[trigger] children(
                nodes,
                x,
            )[j] as int].span.start,
    ensures
        none_before(nodes, x, comment) ==> k == 0,
        none_behind(nodes, x, comment) ==> k == children(nodes, x).len(),
{
    let kids = children(nodes, x);
    lemma_children(nodes, x);
    if k > 0 {
        assert(nodes[kids[k - 1] as int].parent == x);
    }
    if k < kids.len() {
        assert(nodes[kids[k] as int].parent == x);
    }
}

/// Between two children, a comment goes to the previous one exactly where that is on its line
/// and the next is not; otherwise it goes to the next, also where neither is on its line. What
/// the comment says, and which line breaks it is said to have around it, has no bearing. Only
/// a comment that goes to the previous child gets a line break behind it.
pub proof fn law_between_two_children(scene: Scene, i: int, x: int, p: int, n: int)
    requires
        ordinary(scene, i),
        innermost(scene.nodes, x, scene.comments[i]),
        child_before(scene.nodes, x, p, scene.comments[i]),
        child_behind(scene.nodes, x, n, scene.comments[i]),
    ensures
        ({
            let comment = scene.comments[i];
            let got = scene.assignments()[i];
            let previous_near = on_one_line(
                scene.text,
                scene.nodes[p].span.end,
                comment.span.start,
            );
            let next_near = on_one_line(scene.text, comment.span.end, scene.nodes[n].span.start);
            &&& previous_near && !next_near ==> got.host == p && got.position
                == AttachedCommentPosition::After
            &&& !(previous_near && !next_near) ==> got.host == n && got.position
                == AttachedCommentPosition::Before
            &&& got.same_line <==> previous_near || next_near
            &&& got.force_newline_after <==> previous_near && !next_near
        }),
{
    let comment = scene.comments[i];
    let k = lemma_gap(scene, i, x);
    lemma_child_before(scene.nodes, x, k, p, comment);
    lemma_child_behind(scene.nodes, x, k, n, comment);
    law_one_line(scene, scene.nodes[p].span.end, comment.span.start);
    law_one_line(scene, comment.span.end, scene.nodes[n].span.start);
}

/// Before all children of a node, a comment goes to the first of them.
pub proof fn law_before_the_first_child(scene: Scene, i: int, x: int, n: int)
    requires
        ordinary(scene, i),
        innermost(scene.nodes, x, scene.comments[i]),
        none_before(scene.nodes, x, scene.comments[i]),
        child_behind(scene.nodes, x, n, scene.comments[i]),
    ensures
        ({
            let got = scene.assignments()[i];
            &&& got.host == n
            &&& got.position == AttachedCommentPosition::Before
            &&& got.same_line <==> on_one_line(
                scene.text,
                scene.comments[i].span.end,
                scene.nodes[n].span.start,
            )
            &&& !got.force_newline_after
        }),
{
    let comment = scene.comments[i];
    let k = lemma_gap(scene, i, x);
    lemma_outer_gap(scene.nodes, x, k, comment);
    lemma_child_behind(scene.nodes, x, k, n, comment);
    law_one_line(scene, comment.span.end, scene.nodes[n].span.start);
}

/// Behind all children of a node, a comment goes to the last of them.
pub proof fn law_behind_the_last_child(scene: Scene, i: int, x: int, p: int)
    requires
        ordinary(scene, i),
        innermost(scene.nodes, x, scene.comments[i]),
        child_before(scene.nodes, x, p, scene.comments[i]),
        none_behind(scene.nodes, x, scene.comments[i]),
    ensures
        ({
            let got = scene.assignments()[i];
            &&& got.host == p
            &&& got.position == AttachedCommentPosition::After
            &&& got.same_line <==> on_one_line(
                scene.text,
                scene.nodes[p].span.end,
                scene.comments[i].span.start,
            )
            &&& !got.force_newline_after
        }),
{
    let comment = scene.comments[i];
    let k = lemma_gap(scene, i, x);
    lemma_outer_gap(scene.nodes, x, k, comment);
    lemma_child_before(scene.nodes, x, k, p, comment);
    law_one_line(scene, scene.nodes[p].span.end, comment.span.start);
}

/// In a node without children, a comment stays inside.
pub proof fn law_in_a_node_without_children(scene: Scene, i: int, x: int)
    requires
        ordinary(scene, i),
        innermost(scene.nodes, x, scene.comments[i]),
        forall|y: int| 0 <= y < scene.nodes.len() ==> (#[trigger] scene.nodes[y]).parent != x,
    ensures
        ({
            let got = scene.assignments()[i];
            &&& got.host == x
            &&& got.position == AttachedCommentPosition::Inside
            &&& !got.same_line
            &&& !got.force_newline_after
        }),
{
    let comment = scene.comments[i];
    let k = lemma_gap(scene, i, x);
    lemma_outer_gap(scene.nodes, x, k, comment);
}

/// A comment behind the end of the root is put inside the root.
pub proof fn law_behind_the_root(scene: Scene, i: int)
    requires
        ordinary(scene, i),
        scene.nodes.len() > 0,
        scene.nodes[0].span.end <= scene.comments[i].span.start,
    ensures
        ({
            let got = scene.assignments()[i];
            &&& got.host == 0
            &&& got.position == AttachedCommentPosition::Inside
            &&& !got.same_line
            &&& !got.force_newline_after
        }),
{
    law_hosts_are_told_one_by_one(scene, i);
}

/// An annotation without effect goes behind the deepest of the nodes that end where it
/// belongs; of several, the one that starts last; of several, the last. Where no node ends
/// there, it goes behind the root.
pub proof fn law_annotation_without_effect(scene: Scene, i: int, h: int)
    requires
        scene.nodes.len() > 0,
        tree_ok(scene.nodes),
        0 <= i < scene.comments.len(),
        scene.comments[i].content == CommentContent::PureNotApplied,
        0 <= h < scene.nodes.len(),
        (scene.nodes[h].span.end == scene.comments[i].attached_to && forall|j: int|
            0 <= j < scene.nodes.len() && j != h && (#[trigger] scene.nodes[j]).span.end
                == scene.comments[i].attached_to ==> scene.nodes[j].depth < scene.nodes[h].depth
                || (scene.nodes[j].depth == scene.nodes[h].depth && (scene.nodes[j].span.start
                < scene.nodes[h].span.start || (scene.nodes[j].span.start
                == scene.nodes[h].span.start && j < h)))) || (h == 0 && forall|j: int|
            0 <= j < scene.nodes.len() ==> (#[trigger] scene.nodes[j]).span.end
                != scene.comments[i].attached_to),
    ensures
        ({
            let got = scene.assignments()[i];
            &&& got.host == h
            &&& got.position == AttachedCommentPosition::After
            &&& got.same_line <==> on_one_line(
                scene.text,
                scene.nodes[h].span.end,
                scene.comments[i].span.start,
            )
            &&& !got.force_newline_after
        }),
{
    let comment = scene.comments[i];
    law_annotation_without_effect_trails(scene, i);
    law_deepest_ending(scene.nodes, comment.attached_to, scene.nodes.len() as int);
    law_one_line(scene, scene.nodes[h].span.end, comment.span.start);
}

/// Is this the choice for a comment in a gap? Between two children, the comment goes behind the
/// previous one where only that is on its line, and before the next otherwise; next to one
/// child, it goes to that one; without a child, it stays inside the node.
pub open spec fn is_choice(text: Seq<char>, gap: Gap, comment: Comment, got: Assignment) -> bool {
    let previous_near = on_one_line(text, gap.previous_end, comment.span.start);
    let next_near = on_one_line(text, comment.span.end, gap.next_start);
    let behind = gap.previous is Some && (gap.next is None || previous_near && !next_near);
    let before = gap.next is Some && !behind;
    &&& behind ==> got.host == gap.previous->Some_0 as u32 && got.position
        == AttachedCommentPosition::After && got.same_line == previous_near
    &&& before ==> got.host == gap.next->Some_0 as u32 && got.position
        == AttachedCommentPosition::Before && got.same_line == next_near
    &&& !behind && !before ==> got.host == gap.host as u32 && got.position
        == AttachedCommentPosition::Inside && !got.same_line
    &&& got.force_newline_after <==> behind && gap.next is Some
}

/// Has comment `i` got its host on the way from `p` to `q`, or kept what it had?
pub open spec fn gone_through(scene: Scene, p: Progress, q: Progress, gap: Gap, i: int) -> bool {
    if p.cursor <= i < q.cursor && p.assigned[i].host == NO_NODE {
        scene.comments[i].span.start < gap.next_start && is_choice(
            scene.text,
            gap,
            scene.comments[i],
            q.assigned[i],
        )
    } else {
        q.assigned[i] == p.assigned[i]
    }
}

/// Going through a gap gives a host to each comment, from the first that has not been looked at
/// on, that has none and starts before the end of the gap, and stops at the first that has none
/// and does not. All other choices stay as they are.
pub proof fn law_going_through_a_gap(scene: Scene, p: Progress, gap: Gap)
    requires
        p.assigned.len() >= scene.comments.len(),
        0 <= p.cursor,
    ensures
        ({
            let q = scene.fill(p, gap);
            let n = scene.comments.len();
            &&& q.assigned.len() == p.assigned.len()
            &&& p.cursor <= q.cursor
            &&& q.cursor < n ==> p.assigned[q.cursor].host == NO_NODE && gap.next_start
                <= scene.comments[q.cursor].span.start
            &&& p.cursor <= n ==> q.cursor <= n
            &&& forall|i: int|
                0 <= i < p.assigned.len() ==> #[trigger] gone_through(scene, p, q, gap, i)
        }),
    decreases scene.comments.len() - p.cursor,
{
    let q = scene.fill(p, gap);
    if p.cursor < scene.comments.len() {
        let comment = scene.comments[p.cursor];
        if p.assigned[p.cursor].host != NO_NODE {
            let next = Progress { cursor: p.cursor + 1, ..p };
            law_going_through_a_gap(scene, next, gap);
            assert(q == scene.fill(next, gap));
            assert forall|i: int| 0 <= i < p.assigned.len() implies #[trigger] gone_through(
                scene,
                p,
                q,
                gap,
                i,
            ) by {
                assert(gone_through(scene, next, q, gap, i));
            }
        } else if comment.span.start < gap.next_start {
            let choice = scene.choose_host(gap, comment);
            let next = Progress {
                assigned: p.assigned.update(p.cursor, choice),
                cursor: p.cursor + 1,
            };
            law_one_line(scene, gap.previous_end, comment.span.start);
            law_one_line(scene, comment.span.end, gap.next_start);
            assert(is_choice(scene.text, gap, comment, choice));
            law_going_through_a_gap(scene, next, gap);
            assert(q == scene.fill(next, gap));
            assert forall|i: int| 0 <= i < p.assigned.len() implies #[trigger] gone_through(
                scene,
                p,
                q,
                gap,
                i,
            ) by {
                assert(gone_through(scene, next, q, gap, i));
                if i == p.cursor {
                    assert(q.assigned[i] == next.assigned[i]);
                } else {
                    assert(next.assigned[i] == p.assigned[i]);
                }
            }
        }
    }
}

/// Annotations without effect are given their hosts whatever was chosen for them before; all
/// other choices stay.
pub proof fn law_annotations_without_effect_come_first(scene: Scene, p: Progress, i: int)
    requires
        0 <= i < scene.comments.len() <= p.assigned.len(),
    ensures
        ({
            let q = scene.overridden(p);
            let fresh = scene.overridden(scene.untouched());
            &&& q.cursor == p.cursor
            &&& q.assigned.len() == p.assigned.len()
            &&& scene.comments[i].content == CommentContent::PureNotApplied ==> q.assigned[i]
                == fresh.assigned[i]
            &&& scene.comments[i].content != CommentContent::PureNotApplied ==> q.assigned[i]
                == p.assigned[i] && fresh.assigned[i].host == NO_NODE
        }),
{
}

/// A choice that has been made stays as it is to the end, but for annotations without effect; a
/// comment for which none is made in the end goes inside the root.
pub proof fn law_choices_made_stay(scene: Scene, p: Progress, i: int)
    requires
        tree_ok(scene.nodes),
        scene.pure_hosts_ok(),
        scene.sound(p),
        0 <= i < scene.comments.len(),
    ensures
        ({
            let got = scene.completed(p);
            &&& got.len() == scene.comments.len()
            &&& scene.comments[i].content != CommentContent::PureNotApplied && p.assigned[i].host
                != NO_NODE ==> got[i] == p.assigned[i]
            &&& scene.nodes.len() == 0 && p.assigned[i].host == NO_NODE ==> got[i].host == 0
                && got[i].position == AttachedCommentPosition::Inside
            &&& scene.nodes.len() > 0 ==> got[i].host < scene.nodes.len()
        }),
{
    let start = scene.overridden(p);
    lemma_overridden_sound(scene, p);
    if scene.nodes.len() > 0 {
        lemma_walk_sound(scene, start, 0);
        let q = scene.walk(start, 0);
        assert(q.assigned[i].host == NO_NODE || q.assigned[i].host < scene.nodes.len());
        if start.assigned[i].host != NO_NODE {
            lemma_walk_keeps(scene, start, 0, i);
        }
    } else {
        assert(p.assigned[i].host == NO_NODE || p.assigned[i].host < scene.nodes.len());
    }
}

/// The hosts of the comments of a program are chosen from its text, its comments and the nodes of
/// a traversal, without what lies below nodes that no comment touches.
pub proof fn law_scene_of_a_program(program: Program<'_>, events: Seq<NodeEvent>, span: Span)
    ensures
        scene_of(program, events).text == program.source_text@,
        scene_of(program, events).comments == program.comments@,
        scene_of(program, events).nodes == outline(touching(program.comments@), events).nodes,
        touching(program.comments@)(span) == touches_comment(program.comments@, span),
{
}

/// A program whose comments come in the order of the source and whose nodes lie inside each other
/// is as a parser leaves it.
pub proof fn law_programs_are_ordinary(program: Program<'_>, events: Seq<NodeEvent>, i: int)
    requires
        in_source_order(program.comments@),
        0 < enters(events) <= NO_NODE,
        pure_candidates_ok(program.comments@, events),
        well_nested(events),
        0 <= i < program.comments@.len(),
        program.comments@[i].content != CommentContent::PureNotApplied,
    ensures
        ordinary(scene_of(program, events), i),
{
    let scene = scene_of(program, events);
    let wanted = touching(scene.comments);
    law_outline_is_a_forest(wanted, events);
    lemma_outline_entered(wanted, events);
    lemma_pure_hosts(scene, events);
    assert forall|j: int|
        0 <= j < scene.nodes.len() && (#[trigger] scene.nodes[j]).parent != NO_NODE implies
        scene.nodes[j].span.start <= scene.nodes[scene.nodes[j].parent as int].span.end
        && scene.nodes[j].span.end <= scene.nodes[scene.nodes[j].parent as int].span.end
        && scene.nodes[scene.nodes[j].parent as int].span.start <= scene.nodes[j].span.start by {
        law_outline_nests(wanted, events, j);
    }
}

} // verus!
