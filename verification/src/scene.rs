//! The choice of a host node for every comment.
use vstd::prelude::*;

use crate::comment::{Comment, CommentContent};
use crate::order::{law_sort_by_orders, law_sort_by_permutes, ordered_by, sort_by};
use crate::text::{has_line_break, on_boundaries, text_between};
use crate::tree::{links_ok, tree_ok, NodeRecord, NO_NODE};

verus! {

/// Where a comment stands relative to its host.
#[derive(Clone, Copy, Debug, PartialEq, Eq, Structural)]
pub enum AttachedCommentPosition {
    /// Before the host.
    Before,
    /// After the host.
    After,
    /// Inside the host, which has no child next to the comment.
    Inside,
}

/// The host chosen for a comment.
#[derive(Clone, Copy, Debug, PartialEq, Eq, Structural)]
pub struct Assignment {
    /// Index of the host, or `NO_NODE`.
    pub host: u32,
    /// Where the comment stands relative to the host.
    pub position: AttachedCommentPosition,
    /// Is there no line break between the comment and the host?
    pub same_line: bool,
    /// Must a line break follow when the comment is printed?
    pub force_newline_after: bool,
}

impl Assignment {
    /// No host chosen yet.
    #[verifier::allow_in_spec]
    pub fn unassigned() -> Assignment
        returns
            (Assignment {
                host: NO_NODE,
                position: AttachedCommentPosition::Before,
                same_line: false,
                force_newline_after: false,
            }),
    {
        Assignment {
            host: NO_NODE,
            position: AttachedCommentPosition::Before,
            same_line: false,
            force_newline_after: false,
        }
    }

    /// Inside the root, which takes what no other node does.
    #[verifier::allow_in_spec]
    pub fn inside_root() -> Assignment
        returns
            (Assignment {
                host: 0,
                position: AttachedCommentPosition::Inside,
                same_line: false,
                force_newline_after: false,
            }),
    {
        Assignment {
            host: 0,
            position: AttachedCommentPosition::Inside,
            same_line: false,
            force_newline_after: false,
        }
    }
}

/// A stretch of a node's source between two neighbouring children, or between the node's
/// border and a child.
pub struct Gap {
    /// The node.
    pub host: usize,
    /// The child before the gap.
    pub previous: Option<usize>,
    /// Where the gap starts.
    pub previous_end: u32,
    /// The child behind the gap.
    pub next: Option<usize>,
    /// Where the gap ends.
    pub next_start: u32,
}

/// How far the comments have been given hosts.
#[verifier::ext_equal]
pub struct Progress {
    /// The choice made for each comment.
    pub assigned: Seq<Assignment>,
    /// The first comment that has not been looked at.
    pub cursor: int,
}

/// The order of a node's children in the source; a tie is broken by the traversal.
pub open spec fn child_le(nodes: Seq<NodeRecord>) -> spec_fn(usize, usize) -> bool {
    |a: usize, b: usize|
        {
            let x = nodes[a as int].span;
            let y = nodes[b as int].span;
            x.start < y.start || (x.start == y.start && (x.end < y.end || (x.end == y.end && a <= b)))
        }
}

/// The nodes on the chain of siblings that starts at `first`.
pub open spec fn siblings(nodes: Seq<NodeRecord>, first: u32) -> Seq<usize>
    decreases first,
{
    if first >= nodes.len() {
        seq![]
    } else {
        let next = nodes[first as int].next_sibling;
        seq![first as usize] + (if next < first {
            siblings(nodes, next)
        } else {
            seq![]
        })
    }
}

/// The children of a node, as they come in the source.
pub open spec fn children(nodes: Seq<NodeRecord>, node: int) -> Seq<usize> {
    sort_by(siblings(nodes, nodes[node].first_child), child_le(nodes))
}

/// Among the first `n` nodes, the one that ends at `anchor` and is deepest; of several, the
/// smallest; of several, the last.
pub open spec fn deepest_ending(nodes: Seq<NodeRecord>, anchor: u32, n: int) -> Option<int>
    decreases n,
{
    if n <= 0 {
        None
    } else {
        let node = nodes[n - 1];
        match deepest_ending(nodes, anchor, n - 1) {
            None => if node.span.end == anchor {
                Some(n - 1)
            } else {
                None
            },
            Some(best) => if node.span.end == anchor && (node.depth > nodes[best].depth || (
            node.depth == nodes[best].depth && node.span.end - node.span.start
                <= nodes[best].span.end - nodes[best].span.start)) {
                Some(n - 1)
            } else {
                Some(best)
            },
        }
    }
}

/// What the choice of hosts is made from: the source text, the nodes and the comments.
pub struct Scene {
    pub text: Seq<char>,
    pub nodes: Seq<NodeRecord>,
    pub comments: Seq<Comment>,
}

impl Scene {
    /// Is there no line break between two offsets of the source?
    pub open spec fn same_line(self, a: u32, b: u32) -> bool {
        let low = if a <= b {
            a as int
        } else {
            b as int
        };
        let high = if a <= b {
            b as int
        } else {
            a as int
        };
        on_boundaries(self.text, low, high) && !has_line_break(text_between(self.text, low, high))
    }

    /// The host of a comment in a gap. Between two children, the one on the comment's line
    /// takes it, the next before the previous; where neither is on its line, the next does.
    pub open spec fn choose_host(self, gap: Gap, comment: Comment) -> Assignment {
        match (gap.previous, gap.next) {
            (Some(previous), Some(next)) => {
                if self.same_line(comment.span.end, gap.next_start) {
                    Assignment {
                        host: next as u32,
                        position: AttachedCommentPosition::Before,
                        same_line: true,
                        force_newline_after: false,
                    }
                } else if self.same_line(gap.previous_end, comment.span.start) {
                    Assignment {
                        host: previous as u32,
                        position: AttachedCommentPosition::After,
                        same_line: true,
                        force_newline_after: true,
                    }
                } else {
                    Assignment {
                        host: next as u32,
                        position: AttachedCommentPosition::Before,
                        same_line: false,
                        force_newline_after: false,
                    }
                }
            },
            (None, Some(next)) => Assignment {
                host: next as u32,
                position: AttachedCommentPosition::Before,
                same_line: self.same_line(comment.span.end, gap.next_start),
                force_newline_after: false,
            },
            (Some(previous), None) => Assignment {
                host: previous as u32,
                position: AttachedCommentPosition::After,
                same_line: self.same_line(gap.previous_end, comment.span.start),
                force_newline_after: false,
            },
            (None, None) => Assignment {
                host: gap.host as u32,
                position: AttachedCommentPosition::Inside,
                same_line: false,
                force_newline_after: false,
            },
        }
    }

    /// The gap before child `k` of a node, or, behind the last child, up to the node's end.
    pub open spec fn gap(self, node: int, k: int) -> Gap {
        let kids = children(self.nodes, node);
        Gap {
            host: node as usize,
            previous: if k > 0 {
                Some(kids[k - 1])
            } else {
                None
            },
            previous_end: if k > 0 {
                self.nodes[kids[k - 1] as int].span.end
            } else {
                self.nodes[node].span.start
            },
            next: if k < kids.len() {
                Some(kids[k])
            } else {
                None
            },
            next_start: if k < kids.len() {
                self.nodes[kids[k] as int].span.start
            } else {
                self.nodes[node].span.end
            },
        }
    }

    /// The node that a `PureNotApplied` annotation at `anchor` trails.
    pub open spec fn pure_host(self, anchor: u32) -> int {
        match deepest_ending(self.nodes, anchor, self.nodes.len() as int) {
            Some(i) => i,
            None => 0,
        }
    }

    /// The host that a comment has from its content alone, before the nodes are walked.
    pub open spec fn preassigned(self, comment: Comment) -> Assignment {
        if comment.content == CommentContent::PureNotApplied {
            let host = self.pure_host(comment.attached_to);
            Assignment {
                host: host as u32,
                position: AttachedCommentPosition::After,
                same_line: self.same_line(self.nodes[host].span.end, comment.span.start),
                force_newline_after: false,
            }
        } else {
            Assignment::unassigned()
        }
    }

    /// The choices as they stand, but for comments that have a host from their content.
    pub open spec fn overridden(self, p: Progress) -> Progress {
        Progress {
            assigned: Seq::new(
                p.assigned.len(),
                |i: int|
                    if i < self.comments.len() && self.comments[i].content
                        == CommentContent::PureNotApplied {
                        self.preassigned(self.comments[i])
                    } else {
                        p.assigned[i]
                    },
            ),
            cursor: p.cursor,
        }
    }

    /// Every comment with the host it has from its content, none looked at.
    pub open spec fn start(self) -> Progress {
        Progress {
            assigned: Seq::new(self.comments.len(), |i: int| self.preassigned(self.comments[i])),
            cursor: 0,
        }
    }

    /// The comments that start before the gap ends are given their hosts in it.
    pub open spec fn fill(self, p: Progress, gap: Gap) -> Progress
        decreases self.comments.len() - p.cursor,
    {
        if p.cursor < 0 || p.cursor >= self.comments.len() {
            p
        } else if p.assigned[p.cursor].host != NO_NODE {
            self.fill(Progress { cursor: p.cursor + 1, ..p }, gap)
        } else if self.comments[p.cursor].span.start >= gap.next_start {
            p
        } else {
            self.fill(
                Progress {
                    assigned: p.assigned.update(
                        p.cursor,
                        self.choose_host(gap, self.comments[p.cursor]),
                    ),
                    cursor: p.cursor + 1,
                },
                gap,
            )
        }
    }

    /// A node is passed over when the next comment lies behind it; otherwise its gaps and its
    /// children are gone through in turn.
    pub open spec fn walk(self, p: Progress, node: int) -> Progress
        decreases self.nodes.len() - node, children(self.nodes, node).len() + 1,
    {
        if p.cursor >= self.comments.len() || self.comments[p.cursor].span.start
            >= self.nodes[node].span.end {
            p
        } else {
            let n = children(self.nodes, node).len() as int;
            self.fill(self.walk_children(p, node, n), self.gap(node, n))
        }
    }

    /// The first `k` children of a node, each with the gap before it.
    pub open spec fn walk_children(self, p: Progress, node: int, k: int) -> Progress
        decreases self.nodes.len() - node, k,
    {
        let kids = children(self.nodes, node);
        if k <= 0 || k > kids.len() {
            p
        } else {
            let before = self.fill(
                self.walk_children(p, node, k - 1),
                self.gap(node, k - 1),
            );
            let child = kids[k - 1] as int;
            if node < child < self.nodes.len() {
                self.walk(before, child)
            } else {
                before
            }
        }
    }

    /// What is left over goes into the root.
    pub open spec fn finish(self, p: Progress) -> Seq<Assignment> {
        Seq::new(
            self.comments.len(),
            |i: int|
                if i >= p.cursor && p.assigned[i].host == NO_NODE {
                    Assignment::inside_root()
                } else {
                    p.assigned[i]
                },
        )
    }

    /// The host of every comment, when some choices have been made already.
    pub open spec fn completed(self, p: Progress) -> Seq<Assignment> {
        if self.nodes.len() == 0 {
            self.finish(self.overridden(p))
        } else {
            self.finish(self.walk(self.overridden(p), 0))
        }
    }

    /// No choice made.
    pub open spec fn untouched(self) -> Progress {
        Progress {
            assigned: Seq::new(self.comments.len(), |i: int| Assignment::unassigned()),
            cursor: 0,
        }
    }

    /// The host of every comment.
    pub open spec fn assignments(self) -> Seq<Assignment> {
        if self.nodes.len() == 0 {
            self.finish(self.start())
        } else {
            self.finish(self.walk(self.start(), 0))
        }
    }

    /// The nodes that `PureNotApplied` annotations choose among can be measured, and there is
    /// a node to choose.
    pub open spec fn pure_hosts_ok(self) -> bool {
        forall|i: int|
            0 <= i < self.comments.len() && (#[trigger] self.comments[i]).content
                == CommentContent::PureNotApplied ==> self.nodes.len() > 0 && forall|j: int|
                0 <= j < self.nodes.len() && (#[trigger] self.nodes[j]).span.end
                    == self.comments[i].attached_to ==> self.nodes[j].span.start
                    <= self.nodes[j].span.end
    }

    /// Hosts are nodes, and everything before the cursor has one.
    pub open spec fn sound(self, p: Progress) -> bool {
        &&& p.assigned.len() == self.comments.len()
        &&& 0 <= p.cursor <= self.comments.len()
        &&& forall|i: int|
            0 <= i < p.assigned.len() ==> (#[trigger] p.assigned[i]).host == NO_NODE
                || p.assigned[i].host < self.nodes.len()
        &&& forall|i: int| 0 <= i < p.cursor ==> (#[trigger] p.assigned[i]).host != NO_NODE
    }
}

/// The chain of siblings goes down in the numbering, so it is finite and free of repetition,
/// and it stays among the children of one parent.
pub proof fn lemma_siblings(nodes: Seq<NodeRecord>, first: u32)
    requires
        tree_ok(nodes),
        first < nodes.len(),
        nodes[first as int].parent != NO_NODE,
    ensures
        siblings(nodes, first).len() > 0,
        forall|k: int|
            0 <= k < siblings(nodes, first).len() ==> {
                &&& (#[trigger] siblings(nodes, first)[k]) <= first
                &&& nodes[siblings(nodes, first)[k] as int].parent == nodes[first as int].parent
            },
    decreases first,
{
    let next = nodes[first as int].next_sibling;
    assert(links_ok(nodes, first as int));
    let all = siblings(nodes, first);
    if next < first {
        lemma_siblings(nodes, next);
        let rest = siblings(nodes, next);
        assert forall|k: int| 0 <= k < all.len() implies {
            &&& (#[trigger] all[k]) <= first
            &&& nodes[all[k] as int].parent == nodes[first as int].parent
        } by {
            if k > 0 {
                assert(all[k] == rest[k - 1]);
            }
        }
    }
}

/// The children of a node are nodes that come after it and have it for a parent.
pub proof fn lemma_children(nodes: Seq<NodeRecord>, node: int)
    requires
        tree_ok(nodes),
        0 <= node < nodes.len(),
    ensures
        forall|k: int|
            0 <= k < children(nodes, node).len() ==> {
                &&& node < (#[trigger] children(nodes, node)[k]) < nodes.len()
                &&& nodes[children(nodes, node)[k] as int].parent == node
            },
        children(nodes, node).len() == siblings(nodes, nodes[node].first_child).len(),
{
    let first = nodes[node].first_child;
    assert(links_ok(nodes, node));
    let unsorted = siblings(nodes, first);
    let kids = children(nodes, node);
    law_sort_by_permutes(unsorted, child_le(nodes));
    if first < nodes.len() {
        lemma_siblings(nodes, first);
    }
    assert forall|k: int| 0 <= k < kids.len() implies {
        &&& node < (#[trigger] kids[k]) < nodes.len()
        &&& nodes[kids[k] as int].parent == node
    } by {
        broadcast use vstd::seq_lib::group_to_multiset_ensures;

        assert(kids.to_multiset().count(kids[k]) > 0);
        assert(unsorted.contains(kids[k]));
        let u = choose|u: int| 0 <= u < unsorted.len() && unsorted[u] == kids[k];
        assert(links_ok(nodes, unsorted[u] as int));
    }
}

/// A choice made in a gap of a node is a node.
proof fn lemma_choice_is_node(scene: Scene, gap: Gap, comment: Comment)
    requires
        scene.nodes.len() <= NO_NODE,
        gap.host < scene.nodes.len(),
        gap.previous matches Some(p) ==> p < scene.nodes.len(),
        gap.next matches Some(n) ==> n < scene.nodes.len(),
    ensures
        scene.choose_host(gap, comment).host < scene.nodes.len(),
{
}

/// Filling a gap keeps the choices sound and goes forward.
pub proof fn lemma_fill_sound(scene: Scene, p: Progress, gap: Gap)
    requires
        scene.nodes.len() <= NO_NODE,
        scene.sound(p),
        gap.host < scene.nodes.len(),
        gap.previous matches Some(i) ==> i < scene.nodes.len(),
        gap.next matches Some(i) ==> i < scene.nodes.len(),
    ensures
        scene.sound(scene.fill(p, gap)),
        scene.fill(p, gap).cursor >= p.cursor,
    decreases scene.comments.len() - p.cursor,
{
    if p.cursor >= scene.comments.len() {
    } else if p.assigned[p.cursor].host != NO_NODE {
        lemma_fill_sound(scene, Progress { cursor: p.cursor + 1, ..p }, gap);
    } else if scene.comments[p.cursor].span.start >= gap.next_start {
    } else {
        let choice = scene.choose_host(gap, scene.comments[p.cursor]);
        lemma_choice_is_node(scene, gap, scene.comments[p.cursor]);
        let q = Progress { assigned: p.assigned.update(p.cursor, choice), cursor: p.cursor + 1 };
        lemma_fill_sound(scene, q, gap);
    }
}

/// Walking a node keeps the choices sound.
pub proof fn lemma_walk_sound(scene: Scene, p: Progress, node: int)
    requires
        tree_ok(scene.nodes),
        scene.sound(p),
        0 <= node < scene.nodes.len(),
    ensures
        scene.sound(scene.walk(p, node)),
        scene.walk(p, node).cursor >= p.cursor,
    decreases scene.nodes.len() - node, children(scene.nodes, node).len() + 1,
{
    let n = children(scene.nodes, node).len() as int;
    if p.cursor >= scene.comments.len() || scene.comments[p.cursor].span.start
        >= scene.nodes[node].span.end {
    } else {
        lemma_children(scene.nodes, node);
        lemma_walk_children_sound(scene, p, node, n);
        lemma_fill_sound(scene, scene.walk_children(p, node, n), scene.gap(node, n));
    }
}

/// Walking the children of a node keeps the choices sound.
pub proof fn lemma_walk_children_sound(scene: Scene, p: Progress, node: int, k: int)
    requires
        tree_ok(scene.nodes),
        scene.sound(p),
        0 <= node < scene.nodes.len(),
        0 <= k <= children(scene.nodes, node).len(),
    ensures
        scene.sound(scene.walk_children(p, node, k)),
        scene.walk_children(p, node, k).cursor >= p.cursor,
    decreases scene.nodes.len() - node, k,
{
    if k > 0 {
        let kids = children(scene.nodes, node);
        lemma_children(scene.nodes, node);
        lemma_walk_children_sound(scene, p, node, k - 1);
        let before = scene.walk_children(p, node, k - 1);
        lemma_fill_sound(scene, before, scene.gap(node, k - 1));
        let filled = scene.fill(before, scene.gap(node, k - 1));
        lemma_walk_sound(scene, filled, kids[k - 1] as int);
    }
}

/// The deepest node ending at an anchor is a node that ends there.
pub proof fn lemma_deepest_ending(nodes: Seq<NodeRecord>, anchor: u32, n: int)
    requires
        0 <= n <= nodes.len(),
    ensures
        deepest_ending(nodes, anchor, n) matches Some(i) ==> 0 <= i < n && nodes[i].span.end
            == anchor,
    decreases n,
{
    if n > 0 {
        lemma_deepest_ending(nodes, anchor, n - 1);
    }
}

/// The host that a comment has from its content is a node.
proof fn lemma_preassigned_is_node(scene: Scene, comment: Comment)
    requires
        scene.nodes.len() <= NO_NODE,
        comment.content == CommentContent::PureNotApplied ==> scene.nodes.len() > 0,
    ensures
        scene.preassigned(comment).host == NO_NODE || scene.preassigned(comment).host
            < scene.nodes.len(),
        comment.content == CommentContent::PureNotApplied ==> scene.preassigned(comment).host
            < scene.nodes.len(),
{
    lemma_deepest_ending(scene.nodes, comment.attached_to, scene.nodes.len() as int);
}

/// Choices stay sound when comments are given the hosts they have from their content.
pub proof fn lemma_overridden_sound(scene: Scene, p: Progress)
    requires
        scene.nodes.len() <= NO_NODE,
        scene.pure_hosts_ok(),
        scene.sound(p),
    ensures
        scene.sound(scene.overridden(p)),
{
    let q = scene.overridden(p);
    assert forall|i: int| 0 <= i < q.assigned.len() implies ((#[trigger] q.assigned[i]).host
        == NO_NODE || q.assigned[i].host < scene.nodes.len()) && (i < p.cursor
        ==> q.assigned[i].host != NO_NODE) by {
        let comment = scene.comments[i];
        if comment.content == CommentContent::PureNotApplied {
            lemma_preassigned_is_node(scene, comment);
        } else {
            assert(q.assigned[i] == p.assigned[i]);
        }
    }
}

/// Where no choice has been made, the hosts that comments have from their content are what the
/// walk over the nodes starts from.
pub proof fn lemma_overridden_untouched(scene: Scene)
    ensures
        scene.overridden(scene.untouched()) == scene.start(),
        scene.completed(scene.untouched()) == scene.assignments(),
{
    assert(scene.overridden(scene.untouched()).assigned =~= scene.start().assigned);
}

/// The hosts that comments have from their content are nodes.
pub proof fn lemma_start_sound(scene: Scene)
    requires
        tree_ok(scene.nodes),
        scene.pure_hosts_ok(),
    ensures
        scene.sound(scene.start()),
{
    lemma_overridden_sound(scene, scene.untouched());
    lemma_overridden_untouched(scene);
}

/// The chain of siblings holds every earlier child of the same parent, each once.
proof fn lemma_siblings_complete(nodes: Seq<NodeRecord>, first: u32, j: int)
    requires
        tree_ok(nodes),
        first < nodes.len(),
        nodes[first as int].parent != NO_NODE,
        0 <= j <= first,
        nodes[j].parent == nodes[first as int].parent,
    ensures
        siblings(nodes, first).contains(j as usize),
        siblings(nodes, first).no_duplicates(),
    decreases first,
{
    let next = nodes[first as int].next_sibling;
    let all = siblings(nodes, first);
    assert(links_ok(nodes, first as int));
    if next != NO_NODE {
        let rest = siblings(nodes, next);
        lemma_siblings(nodes, next);
        assert(all =~= seq![first as usize] + rest);
        lemma_siblings_complete(nodes, next, next as int);
        if j < first {
            lemma_siblings_complete(nodes, next, j);
            let k = choose|k: int| 0 <= k < rest.len() && rest[k] == j as usize;
            assert(all[k + 1] == j as usize);
        } else {
            assert(all[0] == j as usize);
        }
    } else {
        assert(all[0] == j as usize);
    }
}

/// The children of a node are the nodes that have it for a parent, each once, in the order of
/// the source.
pub proof fn law_children(nodes: Seq<NodeRecord>, node: int)
    requires
        tree_ok(nodes),
        0 <= node < nodes.len(),
    ensures
        forall|j: int|
            0 <= j < nodes.len() ==> ((#[trigger] nodes[j]).parent == node <==> children(
                nodes,
                node,
            ).contains(j as usize)),
        children(nodes, node).no_duplicates(),
        ordered_by(children(nodes, node), child_le(nodes)),
{
    broadcast use vstd::seq_lib::group_to_multiset_ensures;

    let first = nodes[node].first_child;
    let unsorted = siblings(nodes, first);
    let kids = children(nodes, node);
    assert(links_ok(nodes, node));
    lemma_children(nodes, node);
    law_sort_by_permutes(unsorted, child_le(nodes));
    law_sort_by_orders(unsorted, child_le(nodes));
    if first != NO_NODE {
        lemma_siblings_complete(nodes, first, first as int);
    } else {
        assert(unsorted =~= seq![]);
    }
    unsorted.lemma_multiset_has_no_duplicates();
    kids.lemma_multiset_has_no_duplicates_conv();
    assert forall|j: int| 0 <= j < nodes.len() implies ((#[trigger] nodes[j]).parent == node
        <==> kids.contains(j as usize)) by {
        if nodes[j].parent == node {
            assert(links_ok(nodes, j));
            lemma_siblings_complete(nodes, first, j);
            assert(unsorted.to_multiset().count(j as usize) > 0);
            assert(kids.to_multiset().count(j as usize) > 0);
        }
        if kids.contains(j as usize) {
            let k = choose|k: int| 0 <= k < kids.len() && kids[k] == j as usize;
            assert(nodes[kids[k] as int].parent == node);
        }
    }
}

/// The node that a `PureNotApplied` annotation trails ends where the annotation belongs, and
/// of all nodes that do it is the deepest; of several, the smallest; of several, the last.
pub proof fn law_deepest_ending(nodes: Seq<NodeRecord>, anchor: u32, n: int)
    requires
        0 <= n <= nodes.len(),
    ensures
        deepest_ending(nodes, anchor, n) is None <==> forall|j: int|
            0 <= j < n ==> (#[trigger] nodes[j]).span.end != anchor,
        deepest_ending(nodes, anchor, n) matches Some(b) ==> {
            &&& 0 <= b < n
            &&& nodes[b].span.end == anchor
            &&& forall|j: int|
                0 <= j < n && (#[trigger] nodes[j]).span.end == anchor ==> nodes[j].depth
                    < nodes[b].depth || (nodes[j].depth == nodes[b].depth && (nodes[j].span.start
                    < nodes[b].span.start || (nodes[j].span.start == nodes[b].span.start && j
                    <= b)))
        },
    decreases n,
{
    if n > 0 {
        law_deepest_ending(nodes, anchor, n - 1);
    }
}

/// Every comment is given a node for a host.
pub proof fn law_hosts_are_nodes(scene: Scene)
    requires
        scene.nodes.len() > 0,
        tree_ok(scene.nodes),
        scene.pure_hosts_ok(),
    ensures
        scene.assignments().len() == scene.comments.len(),
        forall|i: int|
            0 <= i < scene.comments.len() ==> (#[trigger] scene.assignments()[i]).host
                < scene.nodes.len(),
{
    lemma_start_sound(scene);
    lemma_walk_sound(scene, scene.start(), 0);
    let q = scene.walk(scene.start(), 0);
    assert forall|i: int| 0 <= i < scene.comments.len() implies (
    #[trigger] scene.assignments()[i]).host < scene.nodes.len() by {
        assert(q.assigned[i].host == NO_NODE || q.assigned[i].host < scene.nodes.len());
    }
}

/// Filling a gap leaves a comment that has a host with it.
proof fn lemma_fill_keeps(scene: Scene, p: Progress, gap: Gap, i: int)
    requires
        0 <= i < p.assigned.len(),
        p.assigned.len() == scene.comments.len(),
        p.assigned[i].host != NO_NODE,
    ensures
        scene.fill(p, gap).assigned.len() == p.assigned.len(),
        scene.fill(p, gap).assigned[i] == p.assigned[i],
    decreases scene.comments.len() - p.cursor,
{
    if p.cursor < 0 || p.cursor >= scene.comments.len() {
    } else if p.assigned[p.cursor].host != NO_NODE {
        lemma_fill_keeps(scene, Progress { cursor: p.cursor + 1, ..p }, gap, i);
    } else if scene.comments[p.cursor].span.start >= gap.next_start {
    } else {
        let choice = scene.choose_host(gap, scene.comments[p.cursor]);
        let q = Progress { assigned: p.assigned.update(p.cursor, choice), cursor: p.cursor + 1 };
        lemma_fill_keeps(scene, q, gap, i);
    }
}

/// Walking a node leaves a comment that has a host with it.
pub proof fn lemma_walk_keeps(scene: Scene, p: Progress, node: int, i: int)
    requires
        0 <= i < p.assigned.len(),
        p.assigned.len() == scene.comments.len(),
        p.assigned[i].host != NO_NODE,
    ensures
        scene.walk(p, node).assigned.len() == p.assigned.len(),
        scene.walk(p, node).assigned[i] == p.assigned[i],
    decreases scene.nodes.len() - node, children(scene.nodes, node).len() + 1,
{
    if p.cursor >= scene.comments.len() || scene.comments[p.cursor].span.start
        >= scene.nodes[node].span.end {
    } else {
        let n = children(scene.nodes, node).len() as int;
        lemma_walk_children_keeps(scene, p, node, n, i);
        lemma_fill_keeps(scene, scene.walk_children(p, node, n), scene.gap(node, n), i);
    }
}

/// Walking the children of a node leaves a comment that has a host with it.
proof fn lemma_walk_children_keeps(scene: Scene, p: Progress, node: int, k: int, i: int)
    requires
        0 <= i < p.assigned.len(),
        p.assigned.len() == scene.comments.len(),
        p.assigned[i].host != NO_NODE,
    ensures
        scene.walk_children(p, node, k).assigned.len() == p.assigned.len(),
        scene.walk_children(p, node, k).assigned[i] == p.assigned[i],
    decreases scene.nodes.len() - node, k,
{
    let kids = children(scene.nodes, node);
    if 0 < k <= kids.len() {
        lemma_walk_children_keeps(scene, p, node, k - 1, i);
        let before = scene.walk_children(p, node, k - 1);
        lemma_fill_keeps(scene, before, scene.gap(node, k - 1), i);
        let filled = scene.fill(before, scene.gap(node, k - 1));
        let child = kids[k - 1] as int;
        if node < child < scene.nodes.len() {
            lemma_walk_keeps(scene, filled, child, i);
        }
    }
}

/// A `PureNotApplied` annotation trails its node whatever lies around it: the walk over the
/// nodes does not touch it.
pub proof fn law_annotation_without_effect_trails(scene: Scene, i: int)
    requires
        scene.nodes.len() > 0,
        tree_ok(scene.nodes),
        0 <= i < scene.comments.len(),
        scene.comments[i].content == CommentContent::PureNotApplied,
    ensures
        scene.assignments()[i] == scene.preassigned(scene.comments[i]),
        scene.assignments()[i].position == AttachedCommentPosition::After,
        scene.assignments()[i].host == scene.pure_host(scene.comments[i].attached_to),
{
    lemma_deepest_ending(
        scene.nodes,
        scene.comments[i].attached_to,
        scene.nodes.len() as int,
    );
    lemma_walk_keeps(scene, scene.start(), 0, i);
}

} // verus!
