//! Where a comment belongs, told from the comment and the nodes alone.
use vstd::prelude::*;

use crate::attachments::{lemma_pure_hosts, pure_candidates_ok, scene_of, Program};
use crate::comment::{Comment, CommentContent};
use crate::scene::{
    children, lemma_children, lemma_deepest_ending, lemma_fill_sound, lemma_start_sound,
    lemma_walk_sound, Assignment, Gap, Progress, Scene,
};
use crate::tree::{
    enters, in_source_order, law_outline_is_a_forest, law_outline_nests, lemma_outline_entered,
    links_ok, touches_comment, touching, tree_ok, well_nested, NodeEvent, NodeRecord, NO_NODE,
};

verus! {

/// No node reaches behind the end of its parent.
pub open spec fn nested(nodes: Seq<NodeRecord>) -> bool {
    forall|i: int|
        0 <= i < nodes.len() && (#[trigger] nodes[i]).parent != NO_NODE ==> nodes[i].span.start
            <= nodes[nodes[i].parent as int].span.end && nodes[i].span.end
            <= nodes[nodes[i].parent as int].span.end
}

/// From child `k` on, the first that starts or ends behind `offset`.
pub open spec fn first_reaching(
    nodes: Seq<NodeRecord>,
    kids: Seq<usize>,
    offset: u32,
    k: int,
) -> int
    decreases kids.len() - k,
{
    if k < 0 || k >= kids.len() {
        kids.len() as int
    } else if offset < nodes[kids[k] as int].span.start || offset
        < nodes[kids[k] as int].span.end {
        k
    } else {
        first_reaching(nodes, kids, offset, k + 1)
    }
}

impl Scene {
    /// The host of a comment that starts before the end of a node: that of the child in which
    /// the comment starts, if there is one; otherwise the one chosen in the gap that the
    /// comment lies in.
    pub open spec fn place(self, node: int, comment: Comment) -> Assignment
        decreases self.nodes.len() - node,
    {
        let kids = children(self.nodes, node);
        let k = first_reaching(self.nodes, kids, comment.span.start, 0);
        if 0 <= k < kids.len() && node < kids[k] < self.nodes.len()
            && self.nodes[kids[k] as int].span.start <= comment.span.start {
            self.place(kids[k] as int, comment)
        } else {
            self.choose_host(self.gap(node, k), comment)
        }
    }

    /// The host of a comment.
    pub open spec fn host_of(self, comment: Comment) -> Assignment {
        if comment.content == CommentContent::PureNotApplied {
            self.preassigned(comment)
        } else if comment.span.start < self.nodes[0].span.end {
            self.place(0, comment)
        } else {
            Assignment::inside_root()
        }
    }

    /// Is the comment one of those that the walk over the nodes gives a host?
    pub open spec fn walked(self, i: int) -> bool {
        self.preassigned(self.comments[i]).host == NO_NODE
    }

    /// Of the comments that the walk gives hosts, those before the cursor start before `high`,
    /// and the others do not start before `low` and have no host; the rest have the hosts they
    /// started with.
    pub open spec fn settled(self, p: Progress, low: int, high: int) -> bool {
        &&& self.sound(p)
        &&& forall|i: int|
            0 <= i < p.cursor && #[trigger] self.walked(i) ==> self.comments[i].span.start < high
        &&& forall|i: int|
            p.cursor <= i < self.comments.len() && #[trigger] self.walked(i) ==> low
                <= self.comments[i].span.start && p.assigned[i].host == NO_NODE
        &&& forall|i: int|
            0 <= i < self.comments.len() && !#[trigger] self.walked(i) ==> p.assigned[i]
                == self.preassigned(self.comments[i])
    }

    /// From `p` to `q`, no choice changed but those of the comments in between.
    pub open spec fn kept(self, p: Progress, q: Progress) -> bool {
        &&& p.cursor <= q.cursor
        &&& forall|i: int|
            0 <= i < self.comments.len() && !(p.cursor <= i < q.cursor && self.walked(i))
                ==> #[trigger] q.assigned[i] == p.assigned[i]
    }

    /// From `p` to `q`, the comments in between got the hosts that `place` tells, and no other
    /// choice changed.
    pub open spec fn placed(self, p: Progress, q: Progress, node: int) -> bool {
        &&& self.kept(p, q)
        &&& forall|i: int|
            p.cursor <= i < q.cursor && #[trigger] self.walked(i) ==> q.assigned[i] == self.place(
                node,
                self.comments[i],
            )
    }
}

/// The larger of two numbers.
pub open spec fn larger(a: int, b: int) -> int {
    if a >= b {
        a
    } else {
        b
    }
}

/// Filling a gap gives its host to every comment up to the end of the gap.
proof fn lemma_fill_placed(scene: Scene, p: Progress, gap: Gap, low: int, high: int)
    requires
        scene.nodes.len() <= NO_NODE,
        in_source_order(scene.comments),
        scene.settled(p, low, high),
        gap.host < scene.nodes.len(),
        gap.previous matches Some(i) ==> i < scene.nodes.len(),
        gap.next matches Some(i) ==> i < scene.nodes.len(),
    ensures
        ({
            let q = scene.fill(p, gap);
            let end = gap.next_start as int;
            &&& scene.settled(q, larger(low, end), larger(high, end))
            &&& scene.kept(p, q)
            &&& forall|i: int|
                p.cursor <= i < q.cursor && #[trigger] scene.walked(i) ==> q.assigned[i]
                    == scene.choose_host(gap, scene.comments[i]) && low
                    <= scene.comments[i].span.start < end
        }),
    decreases scene.comments.len() - p.cursor,
{
    lemma_fill_sound(scene, p, gap);
    let end = gap.next_start as int;
    if p.cursor >= scene.comments.len() {
    } else if p.assigned[p.cursor].host != NO_NODE {
        assert(!scene.walked(p.cursor));
        lemma_fill_placed(scene, Progress { cursor: p.cursor + 1, ..p }, gap, low, high);
    } else if scene.comments[p.cursor].span.start >= end {
        assert(scene.walked(p.cursor));
        assert forall|i: int|
            p.cursor <= i < scene.comments.len() && #[trigger] scene.walked(i) implies larger(
            low,
            end,
        ) <= scene.comments[i].span.start by {
            if i > p.cursor {
                assert(scene.comments[p.cursor].span.start <= scene.comments[i].span.start);
            }
        }
    } else {
        assert(scene.walked(p.cursor));
        let choice = scene.choose_host(gap, scene.comments[p.cursor]);
        let next = Progress {
            assigned: p.assigned.update(p.cursor, choice),
            cursor: p.cursor + 1,
        };
        assert(scene.fill(p, gap) == scene.fill(next, gap));
        lemma_fill_placed(scene, next, gap, low, larger(high, end));
        let q = scene.fill(p, gap);
        assert forall|i: int| p.cursor <= i < q.cursor && #[trigger] scene.walked(i) implies
            q.assigned[i] == scene.choose_host(gap, scene.comments[i]) && low
            <= scene.comments[i].span.start < end by {
            if i == p.cursor {
                assert(q.assigned[i] == next.assigned[i]);
            }
        }
    }
}

/// How far the first `k` children reach, or `bound` where that is farther.
pub open spec fn reach(nodes: Seq<NodeRecord>, kids: Seq<usize>, k: int, bound: int) -> int
    decreases k,
{
    if k <= 0 {
        bound
    } else {
        let span = nodes[kids[k - 1] as int].span;
        larger(larger(reach(nodes, kids, k - 1, bound), span.start as int), span.end as int)
    }
}

/// Children that a comment lies behind are passed over in the search for its place.
proof fn lemma_first_reaching(
    nodes: Seq<NodeRecord>,
    kids: Seq<usize>,
    offset: u32,
    k: int,
    bound: int,
)
    requires
        0 <= k <= kids.len(),
        reach(nodes, kids, k, bound) <= offset,
    ensures
        first_reaching(nodes, kids, offset, 0) == first_reaching(nodes, kids, offset, k),
        bound <= offset,
    decreases k,
{
    if k > 0 {
        lemma_first_reaching(nodes, kids, offset, k - 1, bound);
    }
}

/// Children do not reach behind the end of their parent.
proof fn lemma_reach(nodes: Seq<NodeRecord>, node: int, k: int, bound: int)
    requires
        tree_ok(nodes),
        nested(nodes),
        0 <= node < nodes.len(),
        0 <= k <= children(nodes, node).len(),
    ensures
        reach(nodes, children(nodes, node), k, bound) <= larger(
            bound,
            nodes[node].span.end as int,
        ),
        reach(nodes, children(nodes, node), k, bound) >= bound,
    decreases k,
{
    if k > 0 {
        lemma_reach(nodes, node, k - 1, bound);
        lemma_children(nodes, node);
        let kid = children(nodes, node)[k - 1] as int;
        assert(nodes[kid].parent == node);
    }
}

/// What is placed in two stages is placed.
proof fn lemma_placed_chain(scene: Scene, p: Progress, q: Progress, r: Progress, node: int)
    requires
        scene.sound(r),
        scene.placed(p, q, node),
        scene.placed(q, r, node),
        0 <= p.cursor,
    ensures
        scene.placed(p, r, node),
{
    assert forall|i: int|
        0 <= i < scene.comments.len() && !(p.cursor <= i < r.cursor && scene.walked(i)) implies
        #[trigger] r.assigned[i] == p.assigned[i] by {
        assert(r.assigned[i] == q.assigned[i]);
        assert(q.assigned[i] == p.assigned[i]);
    }
    assert forall|i: int| p.cursor <= i < r.cursor && #[trigger] scene.walked(i) implies
        r.assigned[i] == scene.place(node, scene.comments[i]) by {
        if i < q.cursor {
            assert(r.assigned[i] == q.assigned[i]);
        }
    }
}

/// Walking a node places every comment that starts before its end.
proof fn lemma_walk_placed(scene: Scene, p: Progress, node: int, bound: int)
    requires
        tree_ok(scene.nodes),
        nested(scene.nodes),
        in_source_order(scene.comments),
        scene.settled(p, bound, bound),
        0 <= node < scene.nodes.len(),
    ensures
        ({
            let q = scene.walk(p, node);
            let end = larger(bound, scene.nodes[node].span.end as int);
            &&& scene.settled(q, end, end)
            &&& scene.placed(p, q, node)
        }),
    decreases scene.nodes.len() - node, children(scene.nodes, node).len() + 1,
{
    let kids = children(scene.nodes, node);
    let n = kids.len() as int;
    let node_end = scene.nodes[node].span.end as int;
    lemma_walk_sound(scene, p, node);
    if p.cursor >= scene.comments.len() || scene.comments[p.cursor].span.start >= node_end {
        assert forall|i: int|
            p.cursor <= i < scene.comments.len() && #[trigger] scene.walked(i) implies larger(
            bound,
            node_end,
        ) <= scene.comments[i].span.start by {
            if i > p.cursor {
                assert(scene.comments[p.cursor].span.start <= scene.comments[i].span.start);
            }
        }
    } else {
        lemma_children(scene.nodes, node);
        lemma_walk_children_placed(scene, p, node, n, bound);
        lemma_reach(scene.nodes, node, n, bound);
        let low = reach(scene.nodes, kids, n, bound);
        let q = scene.walk_children(p, node, n);
        let r = scene.fill(q, scene.gap(node, n));
        lemma_fill_placed(scene, q, scene.gap(node, n), low, low);
        assert forall|i: int| q.cursor <= i < r.cursor && #[trigger] scene.walked(i) implies
            r.assigned[i] == scene.place(node, scene.comments[i]) by {
            lemma_first_reaching(scene.nodes, kids, scene.comments[i].span.start, n, bound);
        }
        lemma_placed_chain(scene, p, q, r, node);
    }
}

/// Walking the children of a node places every comment that starts before the end of one.
proof fn lemma_walk_children_placed(scene: Scene, p: Progress, node: int, k: int, bound: int)
    requires
        tree_ok(scene.nodes),
        nested(scene.nodes),
        in_source_order(scene.comments),
        scene.settled(p, bound, bound),
        0 <= node < scene.nodes.len(),
        0 <= k <= children(scene.nodes, node).len(),
    ensures
        ({
            let q = scene.walk_children(p, node, k);
            let end = reach(scene.nodes, children(scene.nodes, node), k, bound);
            &&& scene.settled(q, end, end)
            &&& scene.placed(p, q, node)
        }),
    decreases scene.nodes.len() - node, k,
{
    if k > 0 {
        let kids = children(scene.nodes, node);
        let gap = scene.gap(node, k - 1);
        let child = kids[k - 1] as int;
        let span = scene.nodes[child].span;
        lemma_children(scene.nodes, node);
        lemma_walk_children_placed(scene, p, node, k - 1, bound);
        let low = reach(scene.nodes, kids, k - 1, bound);
        let q = scene.walk_children(p, node, k - 1);
        let r = scene.fill(q, gap);
        lemma_fill_placed(scene, q, gap, low, low);
        assert forall|i: int| q.cursor <= i < r.cursor && #[trigger] scene.walked(i) implies
            r.assigned[i] == scene.place(node, scene.comments[i]) by {
            lemma_first_reaching(scene.nodes, kids, scene.comments[i].span.start, k - 1, bound);
        }
        lemma_placed_chain(scene, p, q, r, node);
        let middle = larger(low, span.start as int);
        let t = scene.walk(r, child);
        lemma_walk_placed(scene, r, child, middle);
        assert forall|i: int| r.cursor <= i < t.cursor && #[trigger] scene.walked(i) implies
            t.assigned[i] == scene.place(node, scene.comments[i]) by {
            assert(middle <= scene.comments[i].span.start);
            assert(scene.comments[i].span.start < larger(middle, span.end as int));
            lemma_first_reaching(scene.nodes, kids, scene.comments[i].span.start, k - 1, bound);
        }
        lemma_placed_chain(scene, p, r, t, node);
    }
}

/// The host of a comment is told by the comment and the nodes alone: no other comment has a
/// say in it.
pub proof fn law_hosts_are_told_one_by_one(scene: Scene, i: int)
    requires
        scene.nodes.len() > 0,
        tree_ok(scene.nodes),
        nested(scene.nodes),
        in_source_order(scene.comments),
        scene.pure_hosts_ok(),
        0 <= i < scene.comments.len(),
    ensures
        scene.assignments()[i] == scene.host_of(scene.comments[i]),
{
    let p = scene.start();
    let q = scene.walk(p, 0);
    lemma_start_sound(scene);
    assert forall|j: int|
        0 <= j < scene.comments.len() && !#[trigger] scene.walked(j) implies p.assigned[j]
        == scene.preassigned(scene.comments[j]) by {}
    assert(scene.settled(p, 0, 0)) by {
        assert forall|j: int|
            p.cursor <= j < scene.comments.len() && #[trigger] scene.walked(j) implies 0
            <= scene.comments[j].span.start && p.assigned[j].host == NO_NODE by {}
    }
    lemma_walk_placed(scene, p, 0, 0);
    lemma_preassigned(scene, scene.comments[i]);
    if scene.walked(i) {
        if i < q.cursor {
            assert(q.assigned[i] == scene.place(0, scene.comments[i]));
        } else {
            assert(q.assigned[i].host == NO_NODE);
        }
    } else {
        assert(q.assigned[i] == p.assigned[i]);
    }
}

/// Only annotations of one kind have a host from their content.
proof fn lemma_preassigned(scene: Scene, comment: Comment)
    requires
        tree_ok(scene.nodes),
        scene.nodes.len() > 0,
    ensures
        scene.preassigned(comment).host == NO_NODE <==> comment.content
            != CommentContent::PureNotApplied,
{
    lemma_deepest_ending(scene.nodes, comment.attached_to, scene.nodes.len() as int);
}

/// Is node `x` one of those that node `d` lies in?
pub open spec fn below(nodes: Seq<NodeRecord>, d: int, x: int) -> bool
    decreases d,
{
    let parent = nodes[d].parent as int;
    &&& 0 <= parent < d
    &&& parent == x || below(nodes, parent, x)
}

/// No node starts before its parent.
pub open spec fn starts_nested(nodes: Seq<NodeRecord>) -> bool {
    forall|i: int|
        0 <= i < nodes.len() && (#[trigger] nodes[i]).parent != NO_NODE
            ==> nodes[nodes[i].parent as int].span.start <= nodes[i].span.start
}

/// A child that the search stops at reaches behind the offset.
pub proof fn lemma_first_reaching_stops(
    nodes: Seq<NodeRecord>,
    kids: Seq<usize>,
    offset: u32,
    k: int,
)
    requires
        0 <= k <= kids.len(),
    ensures
        ({
            let r = first_reaching(nodes, kids, offset, k);
            &&& k <= r <= kids.len()
            &&& r < kids.len() ==> offset < nodes[kids[r] as int].span.start || offset
                < nodes[kids[r] as int].span.end
        }),
    decreases kids.len() - k,
{
    if k < kids.len() {
        lemma_first_reaching_stops(nodes, kids, offset, k + 1);
    }
}

/// The place of a comment in a node that it starts in does not lie below a node that no
/// comment touches.
proof fn lemma_place_not_below(scene: Scene, node: int, i: int, x: int)
    requires
        tree_ok(scene.nodes),
        0 <= i < scene.comments.len(),
        0 <= node < scene.nodes.len(),
        0 <= x < scene.nodes.len(),
        scene.nodes[node].span.start <= scene.comments[i].span.start < scene.nodes[node].span.end,
        !touches_comment(scene.comments, scene.nodes[x].span),
        !below(scene.nodes, node, x),
    ensures
        !below(scene.nodes, scene.place(node, scene.comments[i]).host as int, x),
    decreases scene.nodes.len() - node,
{
    let comment = scene.comments[i];
    let kids = children(scene.nodes, node);
    let k = first_reaching(scene.nodes, kids, comment.span.start, 0);
    lemma_first_reaching_stops(scene.nodes, kids, comment.span.start, 0);
    lemma_children(scene.nodes, node);
    assert(node != x);
    if k < kids.len() {
        assert(!below(scene.nodes, kids[k] as int, x));
    }
    if k > 0 {
        assert(!below(scene.nodes, kids[k - 1] as int, x));
    }
    if k < kids.len() && scene.nodes[kids[k] as int].span.start <= comment.span.start {
        lemma_place_not_below(scene, kids[k] as int, i, x);
    }
}

/// A node lies within the span of every node that it is below.
pub proof fn lemma_below_span(nodes: Seq<NodeRecord>, d: int, x: int)
    requires
        tree_ok(nodes),
        nested(nodes),
        starts_nested(nodes),
        0 <= d < nodes.len(),
        below(nodes, d, x),
    ensures
        nodes[x].span.start <= nodes[d].span.start,
        nodes[d].span.end <= nodes[x].span.end,
    decreases d,
{
    let parent = nodes[d].parent as int;
    assert(links_ok(nodes, d));
    if parent != x {
        lemma_below_span(nodes, parent, x);
    }
}

/// A node that no comment touches has no host of a comment below it, so the nodes below it
/// need not be recorded.
pub proof fn law_nothing_below_untouched_nodes(scene: Scene, x: int, i: int)
    requires
        tree_ok(scene.nodes),
        nested(scene.nodes),
        starts_nested(scene.nodes),
        in_source_order(scene.comments),
        scene.pure_hosts_ok(),
        0 <= x < scene.nodes.len(),
        0 <= i < scene.comments.len(),
        scene.nodes[0].span.start <= scene.comments[i].span.start,
        !touches_comment(scene.comments, scene.nodes[x].span),
    ensures
        !below(scene.nodes, scene.assignments()[i].host as int, x),
{
    let comment = scene.comments[i];
    law_hosts_are_told_one_by_one(scene, i);
    assert(links_ok(scene.nodes, 0));
    assert(!below(scene.nodes, 0, x));
    if comment.content == CommentContent::PureNotApplied {
        let n = scene.nodes.len() as int;
        lemma_deepest_ending(scene.nodes, comment.attached_to, n);
        let d = scene.pure_host(comment.attached_to);
        if below(scene.nodes, d, x) {
            lemma_below_span(scene.nodes, d, x);
            assert(scene.nodes[d].span.end == comment.attached_to);
            assert(scene.nodes[x].span.start <= scene.comments[i].attached_to
                <= scene.nodes[x].span.end);
        }
    } else if comment.span.start < scene.nodes[0].span.end {
        lemma_place_not_below(scene, 0, i, x);
    }
}

/// In a program whose comments come in the order of the source and whose nodes lie inside each
/// other, the host of each comment is told by the comment and the nodes alone.
pub proof fn law_program_tells_each_host(program: Program<'_>, events: Seq<NodeEvent>, i: int)
    requires
        in_source_order(program.comments@),
        0 < enters(events) <= NO_NODE,
        pure_candidates_ok(program.comments@, events),
        well_nested(events),
        0 <= i < program.comments@.len(),
    ensures
        scene_of(program, events).assignments()[i] == scene_of(program, events).host_of(
            program.comments@[i],
        ),
{
    let scene = scene_of(program, events);
    let wanted = touching(scene.comments);
    law_outline_is_a_forest(wanted, events);
    lemma_outline_entered(wanted, events);
    lemma_pure_hosts(scene, events);
    assert forall|j: int|
        0 <= j < scene.nodes.len() && (#[trigger] scene.nodes[j]).parent != NO_NODE implies
        scene.nodes[j].span.start <= scene.nodes[scene.nodes[j].parent as int].span.end
        && scene.nodes[j].span.end <= scene.nodes[scene.nodes[j].parent as int].span.end by {
        law_outline_nests(wanted, events, j);
    }
    law_hosts_are_told_one_by_one(scene, i);
}

} // verus!
