//! Leaving out what lies below nodes that no comment touches changes nothing.
use vstd::prelude::*;

use crate::attachments::{lemma_pure_hosts, pure_candidates_ok, scene_of, Program};
use crate::comment::{Comment, CommentContent, Span};
use crate::place::{
    below, first_reaching, law_hosts_are_told_one_by_one, lemma_below_span,
    lemma_first_reaching_stops, nested, starts_nested,
};
use crate::scene::{
    child_le, children, deepest_ending, law_children, law_deepest_ending, lemma_children,
    Assignment, Scene,
};
use crate::tree::{
    enters, in_source_order, law_outline_is_a_forest, law_outline_nests, lemma_outline_entered,
    links_ok, outline, touches_comment, touching, tree_ok, well_nested, NodeEvent, NodeInfo,
    NodeRecord, Outline, NO_NODE,
};

verus! {

/// Every span.
pub open spec fn everywhere() -> spec_fn(Span) -> bool {
    |span: Span| true
}

/// For each node that is recorded when others are left out, its number when none is.
pub open spec fn numbers(wanted: spec_fn(Span) -> bool, events: Seq<NodeEvent>) -> Seq<int>
    decreases events.len(),
{
    if events.len() == 0 {
        seq![]
    } else {
        let rest = events.drop_last();
        let before = numbers(wanted, rest);
        if events.last() is Enter && outline(wanted, rest).skipped == 0 {
            before.push(outline(everywhere(), rest).nodes.len() as int)
        } else {
            before
        }
    }
}

/// Do two records stand for one node?
pub open spec fn same_node(a: NodeRecord, b: NodeRecord) -> bool {
    a.address == b.address && a.kind == b.kind && a.span == b.span && a.depth == b.depth
}

/// The parent of a node is the same in both outlines.
pub open spec fn same_parent(p: Outline, f: Outline, m: Seq<int>, q: int) -> bool {
    if p.nodes[q].parent == NO_NODE {
        f.nodes[m[q]].parent == NO_NODE
    } else {
        &&& p.nodes[q].parent < m.len()
        &&& f.nodes[m[q]].parent == m[p.nodes[q].parent as int]
    }
}

/// Does node `j` of the full outline lie below a node that is not wanted?
pub open spec fn hidden(
    wanted: spec_fn(Span) -> bool,
    p: Outline,
    f: Outline,
    m: Seq<int>,
    j: int,
) -> bool {
    exists|u: int|
        0 <= u < m.len() && !wanted(p.nodes[u].span) && below(f.nodes, j, #[trigger] m[u])
}

/// Outline `p` is outline `f` without what lies below nodes that are not wanted; `m` tells the
/// numbers of its nodes in `f`.
pub open spec fn embeds(
    wanted: spec_fn(Span) -> bool,
    p: Outline,
    f: Outline,
    m: Seq<int>,
) -> bool {
    &&& m.len() == p.nodes.len()
    &&& forall|q: int|
        0 <= q < m.len() ==> 0 <= #[trigger] m[q] < f.nodes.len() && same_node(
            p.nodes[q],
            f.nodes[m[q]],
        ) && same_parent(p, f, m, q)
    &&& forall|a: int, b: int| 0 <= a < b < m.len() ==> #[trigger] m[a] < #[trigger] m[b]
    &&& forall|q: int|
        0 <= q < p.nodes.len() && (#[trigger] p.nodes[q]).parent != NO_NODE ==> wanted(
            p.nodes[p.nodes[q].parent as int].span,
        )
    &&& forall|j: int|
        0 <= j < f.nodes.len() ==> m.contains(j) || #[trigger] hidden(wanted, p, f, m, j)
}

/// The open nodes of the two outlines, up to where something is left out.
pub open spec fn same_stack(
    wanted: spec_fn(Span) -> bool,
    p: Outline,
    f: Outline,
    m: Seq<int>,
) -> bool {
    &&& f.stack.len() == p.stack.len() + p.skipped
    &&& forall|k: int|
        0 <= k < p.stack.len() ==> (#[trigger] p.stack[k]) < m.len() && f.stack[k]
            == m[p.stack[k] as int] && wanted(p.nodes[p.stack[k] as int].span)
    &&& p.skipped > 0 ==> exists|u: int|
        0 <= u < m.len() && f.stack[p.stack.len() as int] == #[trigger] m[u] && !wanted(
            p.nodes[u].span,
        )
    &&& forall|k: int|
        p.stack.len() < k < f.stack.len() ==> hidden(
            wanted,
            p,
            f,
            m,
            #[trigger] f.stack[k] as int,
        )
}

/// Where the parents of the first nodes are the same, so is what lies below what.
proof fn lemma_below_same(a: Seq<NodeRecord>, b: Seq<NodeRecord>, d: int, x: int)
    requires
        0 <= d < a.len() <= b.len(),
        forall|i: int| 0 <= i < a.len() ==> (#[trigger] b[i]).parent == a[i].parent,
    ensures
        below(a, d, x) == below(b, d, x),
    decreases d,
{
    assert(b[d].parent == a[d].parent);
    let parent = a[d].parent as int;
    if 0 <= parent < d {
        lemma_below_same(a, b, parent, x);
    }
}

/// What is hidden stays hidden when nodes are added.
proof fn lemma_hidden_stays(
    wanted: spec_fn(Span) -> bool,
    p: Outline,
    f: Outline,
    m: Seq<int>,
    p2: Outline,
    f2: Outline,
    m2: Seq<int>,
    j: int,
)
    requires
        hidden(wanted, p, f, m, j),
        0 <= j < f.nodes.len() <= f2.nodes.len(),
        m.len() <= m2.len(),
        m.len() <= p.nodes.len() <= p2.nodes.len(),
        forall|q: int| 0 <= q < m.len() ==> #[trigger] m2[q] == m[q],
        forall|q: int| 0 <= q < p.nodes.len() ==> (#[trigger] p2.nodes[q]).span == p.nodes[q].span,
        forall|i: int|
            0 <= i < f.nodes.len() ==> (#[trigger] f2.nodes[i]).parent == f.nodes[i].parent,
    ensures
        hidden(wanted, p2, f2, m2, j),
{
    let u = choose|u: int|
        0 <= u < m.len() && !wanted(p.nodes[u].span) && below(f.nodes, j, #[trigger] m[u]);
    lemma_below_same(f.nodes, f2.nodes, j, m[u]);
    assert(m2[u] == m[u]);
    assert(p2.nodes[u].span == p.nodes[u].span);
}

/// Entering a node that is recorded in both outlines.
proof fn lemma_enter_both(
    wanted: spec_fn(Span) -> bool,
    p: Outline,
    f: Outline,
    m: Seq<int>,
    node: NodeInfo,
)
    requires
        p.wf(),
        f.wf(),
        f.nodes.len() < NO_NODE,
        p.nodes.len() <= f.nodes.len(),
        p.skipped == 0,
        f.skipped == 0,
        embeds(wanted, p, f, m),
        same_stack(wanted, p, f, m),
    ensures
        ({
            let p2 = p.after(NodeEvent::Enter(node), wanted);
            let f2 = f.after(NodeEvent::Enter(node), everywhere());
            let m2 = m.push(f.nodes.len() as int);
            embeds(wanted, p2, f2, m2) && same_stack(wanted, p2, f2, m2)
        }),
{
    let p2 = p.after(NodeEvent::Enter(node), wanted);
    let f2 = f.after(NodeEvent::Enter(node), everywhere());
    let m2 = m.push(f.nodes.len() as int);
    let new = p.nodes.len() as int;
    if p.stack.len() > 0 {
        let top = p.stack.len() - 1;
        assert(p.stack[top] < m.len());
        assert(f.stack[top] == m[p.stack[top] as int]);
    }
    assert forall|q: int| 0 <= q < m2.len() implies 0 <= #[trigger] m2[q] < f2.nodes.len()
        && same_node(p2.nodes[q], f2.nodes[m2[q]]) && same_parent(p2, f2, m2, q) by {
        if q < new {
            assert(m2[q] == m[q]);
            assert(same_node(p.nodes[q], f.nodes[m[q]]));
            assert(same_parent(p, f, m, q));
            if p.nodes[q].parent != NO_NODE {
                assert(m2[p.nodes[q].parent as int] == m[p.nodes[q].parent as int]);
            }
        } else if p.stack.len() > 0 {
            assert(m2[p.stack.last() as int] == m[p.stack.last() as int]);
        }
    }
    assert forall|q: int|
        0 <= q < p2.nodes.len() && (#[trigger] p2.nodes[q]).parent != NO_NODE implies wanted(
        p2.nodes[p2.nodes[q].parent as int].span,
    ) by {
        if q < new {
            assert(p.nodes[q].parent == p2.nodes[q].parent);
            assert(links_ok(p.nodes, q));
        }
    }
    assert forall|j: int| 0 <= j < f2.nodes.len() implies m2.contains(j) || #[trigger] hidden(
        wanted,
        p2,
        f2,
        m2,
        j,
    ) by {
        if j == f.nodes.len() {
            assert(m2[new] == j);
        } else if m.contains(j) {
            let q = choose|q: int| 0 <= q < m.len() && m[q] == j;
            assert(m2[q] == j);
        } else {
            assert(hidden(wanted, p, f, m, j));
            lemma_hidden_stays(wanted, p, f, m, p2, f2, m2, j);
        }
    }
    assert forall|k: int| 0 <= k < p2.stack.len() implies (#[trigger] p2.stack[k]) < m2.len()
        && f2.stack[k] == m2[p2.stack[k] as int] && wanted(
        p2.nodes[p2.stack[k] as int].span,
    ) by {
        if k < p.stack.len() {
            assert(p.stack[k] < m.len());
            assert(p2.stack[k] == p.stack[k]);
            assert(f2.stack[k] == f.stack[k]);
        }
    }
    if p2.skipped > 0 {
        assert(f2.stack[p2.stack.len() as int] == m2[new]);
        assert(p2.nodes[new].span == node.span);
    }
}

/// Entering a node that is left out of one outline.
proof fn lemma_enter_hidden(
    wanted: spec_fn(Span) -> bool,
    p: Outline,
    f: Outline,
    m: Seq<int>,
    node: NodeInfo,
)
    requires
        p.wf(),
        f.wf(),
        f.nodes.len() < NO_NODE,
        p.skipped > 0,
        f.skipped == 0,
        embeds(wanted, p, f, m),
        same_stack(wanted, p, f, m),
    ensures
        ({
            let p2 = p.after(NodeEvent::Enter(node), wanted);
            let f2 = f.after(NodeEvent::Enter(node), everywhere());
            embeds(wanted, p2, f2, m) && same_stack(wanted, p2, f2, m)
        }),
{
    let p2 = p.after(NodeEvent::Enter(node), wanted);
    let f2 = f.after(NodeEvent::Enter(node), everywhere());
    let top = f.stack.len() - 1;
    let new = f.nodes.len() as int;
    let parent = f.stack[top] as int;
    assert(f.stack.last() == f.stack[top]);
    assert(parent < f.nodes.len());
    assert(f2.nodes[new].parent == parent);
    assert forall|q: int| 0 <= q < m.len() implies 0 <= #[trigger] m[q] < f2.nodes.len()
        && same_node(p2.nodes[q], f2.nodes[m[q]]) && same_parent(p2, f2, m, q) by {
        assert(same_node(p.nodes[q], f.nodes[m[q]]));
        assert(same_parent(p, f, m, q));
    }
    assert(hidden(wanted, p2, f2, m, new)) by {
        if top == p.stack.len() {
            let u = choose|u: int|
                0 <= u < m.len() && f.stack[p.stack.len() as int] == #[trigger] m[u] && !wanted(
                    p.nodes[u].span,
                );
            assert(below(f2.nodes, new, m[u]));
        } else {
            assert(hidden(wanted, p, f, m, parent));
            let u = choose|u: int|
                0 <= u < m.len() && !wanted(p.nodes[u].span) && below(
                    f.nodes,
                    parent,
                    #[trigger] m[u],
                );
            lemma_below_same(f.nodes, f2.nodes, parent, m[u]);
            assert(below(f2.nodes, new, m[u]));
        }
    }
    assert forall|j: int| 0 <= j < f2.nodes.len() implies m.contains(j) || #[trigger] hidden(
        wanted,
        p2,
        f2,
        m,
        j,
    ) by {
        if j < new && !m.contains(j) {
            assert(hidden(wanted, p, f, m, j));
            lemma_hidden_stays(wanted, p, f, m, p2, f2, m, j);
        }
    }
    assert forall|k: int| p2.stack.len() < k < f2.stack.len() implies hidden(
        wanted,
        p2,
        f2,
        m,
        #[trigger] f2.stack[k] as int,
    ) by {
        if k < f.stack.len() {
            assert(f2.stack[k] == f.stack[k]);
            assert(f.stack[k] < f.nodes.len());
            lemma_hidden_stays(wanted, p, f, m, p2, f2, m, f.stack[k] as int);
        }
    }
    assert(f2.stack[p.stack.len() as int] == f.stack[p.stack.len() as int]);
}

/// Leaving a node.
proof fn lemma_leave_both(wanted: spec_fn(Span) -> bool, p: Outline, f: Outline, m: Seq<int>)
    requires
        f.skipped == 0,
        embeds(wanted, p, f, m),
        same_stack(wanted, p, f, m),
    ensures
        ({
            let p2 = p.after(NodeEvent::Leave, wanted);
            let f2 = f.after(NodeEvent::Leave, everywhere());
            embeds(wanted, p2, f2, m) && same_stack(wanted, p2, f2, m)
        }),
{
    let p2 = p.after(NodeEvent::Leave, wanted);
    let f2 = f.after(NodeEvent::Leave, everywhere());
    assert forall|j: int| 0 <= j < f2.nodes.len() implies m.contains(j) || #[trigger] hidden(
        wanted,
        p2,
        f2,
        m,
        j,
    ) by {
        assert(m.contains(j) || hidden(wanted, p, f, m, j));
    }
    assert forall|q: int| 0 <= q < m.len() implies 0 <= #[trigger] m[q] < f2.nodes.len()
        && same_node(p2.nodes[q], f2.nodes[m[q]]) && same_parent(p2, f2, m, q) by {
        assert(same_parent(p, f, m, q));
    }
    assert forall|k: int| 0 <= k < p2.stack.len() implies (#[trigger] p2.stack[k]) < m.len()
        && f2.stack[k] == m[p2.stack[k] as int] && wanted(
        p2.nodes[p2.stack[k] as int].span,
    ) by {
        assert(p.stack[k] == p2.stack[k]);
    }
    assert forall|k: int| p2.stack.len() < k < f2.stack.len() implies hidden(
        wanted,
        p2,
        f2,
        m,
        #[trigger] f2.stack[k] as int,
    ) by {
        assert(f.stack[k] == f2.stack[k]);
        assert(hidden(wanted, p, f, m, f.stack[k] as int));
    }
    if p2.skipped > 0 {
        let u = choose|u: int|
            0 <= u < m.len() && f.stack[p.stack.len() as int] == #[trigger] m[u] && !wanted(
                p.nodes[u].span,
            );
        assert(f2.stack[p2.stack.len() as int] == m[u]);
    }
}

/// The outline without what lies below unwanted nodes is part of the full one.
proof fn lemma_embeds(wanted: spec_fn(Span) -> bool, events: Seq<NodeEvent>)
    requires
        enters(events) <= NO_NODE,
    ensures
        embeds(
            wanted,
            outline(wanted, events),
            outline(everywhere(), events),
            numbers(wanted, events),
        ),
        same_stack(
            wanted,
            outline(wanted, events),
            outline(everywhere(), events),
            numbers(wanted, events),
        ),
        outline(everywhere(), events).skipped == 0,
        outline(everywhere(), events).nodes.len() == enters(events),
    decreases events.len(),
{
    if events.len() > 0 {
        let rest = events.drop_last();
        let p = outline(wanted, rest);
        let f = outline(everywhere(), rest);
        let m = numbers(wanted, rest);
        lemma_embeds(wanted, rest);
        law_outline_is_a_forest(wanted, rest);
        law_outline_is_a_forest(everywhere(), rest);
        match events.last() {
            NodeEvent::Enter(node) => {
                if p.skipped == 0 {
                    lemma_enter_both(wanted, p, f, m, node);
                } else {
                    lemma_enter_hidden(wanted, p, f, m, node);
                }
            },
            NodeEvent::Leave => {
                lemma_leave_both(wanted, p, f, m);
            },
        }
    }
}

/// A recorded node does not lie below an unwanted one.
proof fn lemma_not_below_unwanted(
    wanted: spec_fn(Span) -> bool,
    p: Outline,
    f: Outline,
    m: Seq<int>,
    q: int,
    u: int,
)
    requires
        tree_ok(p.nodes),
        tree_ok(f.nodes),
        embeds(wanted, p, f, m),
        0 <= q < m.len(),
        0 <= u < m.len(),
        !wanted(p.nodes[u].span),
    ensures
        !below(f.nodes, m[q], m[u]),
    decreases q,
{
    assert(0 <= m[q] < f.nodes.len() && same_parent(p, f, m, q));
    assert(links_ok(p.nodes, q));
    if p.nodes[q].parent != NO_NODE {
        let r = p.nodes[q].parent as int;
        assert(wanted(p.nodes[r].span));
        lemma_not_below_unwanted(wanted, p, f, m, r, u);
        if r < u {
            assert(m[r] < m[u]);
        } else if u < r {
            assert(m[u] < m[r]);
        }
    }
}

/// Numbers of one outline as those of the other.
pub open spec fn renumbered(m: Seq<int>, kids: Seq<usize>) -> Seq<usize> {
    Seq::new(kids.len(), |k: int| m[kids[k] as int] as usize)
}

/// A wanted node has the same children in both outlines.
proof fn lemma_children_same(
    wanted: spec_fn(Span) -> bool,
    p: Outline,
    f: Outline,
    m: Seq<int>,
    q: int,
)
    requires
        tree_ok(p.nodes),
        tree_ok(f.nodes),
        embeds(wanted, p, f, m),
        0 <= q < m.len(),
        wanted(p.nodes[q].span),
    ensures
        children(f.nodes, m[q]) == renumbered(m, children(p.nodes, q)),
        forall|k: int|
            0 <= k < children(p.nodes, q).len() ==> 0 <= (#[trigger] children(p.nodes, q)[k])
                < m.len(),
{
    broadcast use vstd::seq_lib::group_to_multiset_ensures;

    let kids = children(p.nodes, q);
    let ours = renumbered(m, kids);
    let theirs = children(f.nodes, m[q]);
    let le = child_le(f.nodes);
    law_children(p.nodes, q);
    law_children(f.nodes, m[q]);
    lemma_children(p.nodes, q);
    lemma_children(f.nodes, m[q]);
    assert forall|k: int| 0 <= k < kids.len() implies ours[k] == m[kids[k] as int] && 0
        <= kids[k] < m.len() && f.nodes[ours[k] as int].span == p.nodes[kids[k] as int].span
        && f.nodes[ours[k] as int].parent == m[q] by {
        let c = kids[k] as int;
        assert(p.nodes[c].parent == q);
        assert(0 <= m[c] < f.nodes.len());
        assert(same_node(p.nodes[c], f.nodes[m[c]]));
        assert(same_parent(p, f, m, c));
    }
    assert(vstd::relations::sorted_by(ours, le)) by {
        assert forall|i: int, j: int| 0 <= i < j < ours.len() implies #[trigger] le(
            ours[i],
            ours[j],
        ) by {
            assert(child_le(p.nodes)(kids[i], kids[j]));
            if kids[i] < kids[j] {
                assert(m[kids[i] as int] < m[kids[j] as int]);
            }
        }
    }
    assert(vstd::relations::sorted_by(theirs, le)) by {
        assert forall|i: int, j: int| 0 <= i < j < theirs.len() implies #[trigger] le(
            theirs[i],
            theirs[j],
        ) by {}
    }
    assert(ours.no_duplicates()) by {
        assert forall|i: int, j: int|
            0 <= i < ours.len() && 0 <= j < ours.len() && i != j implies ours[i] != ours[j] by {
            assert(kids[i] != kids[j]);
            if kids[i] < kids[j] {
                assert(m[kids[i] as int] < m[kids[j] as int]);
            } else {
                assert(m[kids[j] as int] < m[kids[i] as int]);
            }
        }
    }
    assert forall|x: usize| ours.contains(x) == theirs.contains(x) by {
        if ours.contains(x) {
            let k = choose|k: int| 0 <= k < ours.len() && ours[k] == x;
            assert(f.nodes[ours[k] as int].parent == m[q]);
        }
        if theirs.contains(x) {
            let k = choose|k: int| 0 <= k < theirs.len() && theirs[k] == x;
            let j = x as int;
            assert(f.nodes[theirs[k] as int].parent == m[q]);
            assert(m.contains(j)) by {
                if !m.contains(j) {
                    assert(hidden(wanted, p, f, m, j));
                    let u = choose|u: int|
                        0 <= u < m.len() && !wanted(p.nodes[u].span) && below(
                            f.nodes,
                            j,
                            #[trigger] m[u],
                        );
                    lemma_not_below_unwanted(wanted, p, f, m, q, u);
                    if q < u {
                        assert(m[q] < m[u]);
                    } else if u < q {
                        assert(m[u] < m[q]);
                    }
                }
            }
            let c = choose|c: int| 0 <= c < m.len() && m[c] == j;
            assert(same_parent(p, f, m, c));
            let r = p.nodes[c].parent as int;
            if r < q {
                assert(m[r] < m[q]);
            } else if q < r {
                assert(m[q] < m[r]);
            }
            assert(p.nodes[c].parent == q);
            assert(kids.contains(c as usize));
            let i = choose|i: int| 0 <= i < kids.len() && kids[i] == c as usize;
            assert(ours[i] == x);
        }
    }
    ours.lemma_multiset_has_no_duplicates();
    theirs.lemma_multiset_has_no_duplicates();
    assert(ours.to_multiset() =~= theirs.to_multiset()) by {
        assert forall|x: usize| #[trigger] ours.to_multiset().count(x)
            == theirs.to_multiset().count(x) by {
            assert(ours.contains(x) == theirs.contains(x));
            assert(ours.contains(x) <==> ours.to_multiset().count(x) > 0);
            assert(theirs.contains(x) <==> theirs.to_multiset().count(x) > 0);
        }
    }
    vstd::seq_lib::lemma_sorted_unique(ours, theirs, le);
}

/// The search among children stops at the same one.
proof fn lemma_first_reaching_same(
    a: Seq<NodeRecord>,
    b: Seq<NodeRecord>,
    kids: Seq<usize>,
    others: Seq<usize>,
    offset: u32,
    k: int,
)
    requires
        0 <= k <= kids.len() == others.len(),
        forall|i: int|
            0 <= i < kids.len() ==> a[#[trigger] kids[i] as int].span == b[others[i] as int].span,
    ensures
        first_reaching(a, kids, offset, k) == first_reaching(b, others, offset, k),
    decreases kids.len() - k,
{
    if k < kids.len() {
        assert(a[kids[k] as int].span == b[others[k] as int].span);
        lemma_first_reaching_same(a, b, kids, others, offset, k + 1);
    }
}

/// An assignment with the number of its host in the full outline.
pub open spec fn moved(m: Seq<int>, a: Assignment) -> Assignment {
    Assignment { host: m[a.host as int] as u32, ..a }
}

/// In a wanted node a comment has the same place in both outlines.
proof fn lemma_place_same(
    text: Seq<char>,
    comments: Seq<Comment>,
    p: Outline,
    f: Outline,
    m: Seq<int>,
    q: int,
    i: int,
)
    requires
        tree_ok(p.nodes),
        tree_ok(f.nodes),
        embeds(touching(comments), p, f, m),
        0 <= q < m.len(),
        touches_comment(comments, p.nodes[q].span),
        0 <= i < comments.len(),
    ensures
        ({
            let ours = Scene { text, nodes: p.nodes, comments };
            let full = Scene { text, nodes: f.nodes, comments };
            &&& 0 <= ours.place(q, comments[i]).host < m.len()
            &&& full.place(m[q], comments[i]) == moved(m, ours.place(q, comments[i]))
        }),
    decreases p.nodes.len() - q,
{
    let ours = Scene { text, nodes: p.nodes, comments };
    let full = Scene { text, nodes: f.nodes, comments };
    let c = comments[i];
    let kids = children(p.nodes, q);
    let others = children(f.nodes, m[q]);
    lemma_children_same(touching(comments), p, f, m, q);
    lemma_children(p.nodes, q);
    lemma_children(f.nodes, m[q]);
    assert(same_node(p.nodes[q], f.nodes[m[q]]));
    assert forall|k: int| 0 <= k < kids.len() implies p.nodes[#[trigger] kids[k] as int].span
        == f.nodes[others[k] as int].span && others[k] == m[kids[k] as int] by {
        let d = kids[k] as int;
        assert(0 <= m[d] < f.nodes.len());
        assert(same_node(p.nodes[d], f.nodes[m[d]]));
    }
    lemma_first_reaching_same(p.nodes, f.nodes, kids, others, c.span.start, 0);
    lemma_first_reaching_stops(p.nodes, kids, c.span.start, 0);
    let k = first_reaching(p.nodes, kids, c.span.start, 0);
    if k < kids.len() && p.nodes[kids[k] as int].span.start <= c.span.start {
        let d = kids[k] as int;
        assert(touches_comment(comments, p.nodes[d].span)) by {
            assert(p.nodes[d].span.start <= comments[i].span.start < p.nodes[d].span.end);
        }
        lemma_place_same(text, comments, p, f, m, d, i);
        assert(ours.place(q, c) == ours.place(d, c));
        assert(full.place(m[q], c) == full.place(m[d], c));
    } else {
        let a = ours.gap(q, k);
        let b = full.gap(m[q], k);
        assert(ours.place(q, c) == ours.choose_host(a, c));
        assert(full.place(m[q], c) == full.choose_host(b, c));
        assert(a.next_start == b.next_start);
        assert(a.previous_end == b.previous_end);
        if k < kids.len() {
            assert(others[k] == m[kids[k] as int]);
        }
        if k > 0 {
            assert(others[k - 1] == m[kids[k - 1] as int]);
        }
    }
}

/// The node that an annotation without effect trails is the same in both outlines.
proof fn lemma_deepest_same(
    comments: Seq<Comment>,
    p: Outline,
    f: Outline,
    m: Seq<int>,
    i: int,
)
    requires
        tree_ok(p.nodes),
        tree_ok(f.nodes),
        nested(f.nodes),
        starts_nested(f.nodes),
        embeds(touching(comments), p, f, m),
        0 <= i < comments.len(),
        forall|j: int|
            0 <= j < f.nodes.len() && (#[trigger] f.nodes[j]).span.end == comments[i].attached_to
                ==> f.nodes[j].span.start <= f.nodes[j].span.end,
    ensures
        ({
            let anchor = comments[i].attached_to;
            let a = deepest_ending(p.nodes, anchor, p.nodes.len() as int);
            let b = deepest_ending(f.nodes, anchor, f.nodes.len() as int);
            match a {
                Some(x) => 0 <= x < m.len() && b == Some(m[x]),
                None => b is None,
            }
        }),
{
    let anchor = comments[i].attached_to;
    let n = p.nodes.len() as int;
    let k = f.nodes.len() as int;
    law_deepest_ending(p.nodes, anchor, n);
    law_deepest_ending(f.nodes, anchor, k);
    let a = deepest_ending(p.nodes, anchor, n);
    let b = deepest_ending(f.nodes, anchor, k);
    assert forall|j: int| 0 <= j < k && (#[trigger] f.nodes[j]).span.end == anchor implies exists|
        q: int,
    |
        0 <= q < m.len() && #[trigger] m[q] == j && p.nodes[q].span.end == anchor by {
        if !m.contains(j) {
            assert(hidden(touching(comments), p, f, m, j));
            let u = choose|u: int|
                0 <= u < m.len() && !touching(comments)(p.nodes[u].span) && below(
                    f.nodes,
                    j,
                    #[trigger] m[u],
                );
            lemma_below_span(f.nodes, j, m[u]);
            assert(same_node(p.nodes[u], f.nodes[m[u]]));
            assert(p.nodes[u].span.start <= comments[i].attached_to <= p.nodes[u].span.end);
        }
        let q = choose|q: int| 0 <= q < m.len() && m[q] == j;
        assert(same_node(p.nodes[q], f.nodes[m[q]]));
    }
    match a {
        Some(x) => {
            assert(same_node(p.nodes[x], f.nodes[m[x]]));
            assert(f.nodes[m[x]].span.end == anchor);
            assert(b is Some);
            let y = b->0;
            assert(f.nodes[y].span.end == anchor);
            let q = choose|q: int|
                0 <= q < m.len() && #[trigger] m[q] == y && p.nodes[q].span.end == anchor;
            assert(same_node(p.nodes[q], f.nodes[m[q]]));
            if q < x {
                assert(m[q] < m[x]);
            } else if x < q {
                assert(m[x] < m[q]);
            }
        },
        None => {
            if b is Some {
                let y = b->0;
                assert(f.nodes[y].span.end == anchor);
            }
        },
    }
}

/// The first node is the root of both outlines.
proof fn lemma_root_same(wanted: spec_fn(Span) -> bool, events: Seq<NodeEvent>)
    requires
        enters(events) <= NO_NODE,
        enters(events) > 0,
    ensures
        numbers(wanted, events).len() > 0,
        numbers(wanted, events)[0] == 0,
    decreases events.len(),
{
    let rest = events.drop_last();
    lemma_embeds(wanted, events);
    lemma_embeds(wanted, rest);
    law_outline_is_a_forest(wanted, rest);
    law_outline_is_a_forest(wanted, events);
    if enters(rest) > 0 {
        lemma_root_same(wanted, rest);
    }
}

/// Leaving out what lies below nodes that no comment touches changes nothing: every comment
/// gets the node that it would get if all nodes were recorded, and the same place beside it.
pub proof fn law_leaving_nodes_out_changes_nothing(
    program: Program<'_>,
    events: Seq<NodeEvent>,
    i: int,
)
    requires
        in_source_order(program.comments@),
        0 < enters(events) <= NO_NODE,
        pure_candidates_ok(program.comments@, events),
        well_nested(events),
        0 <= i < program.comments@.len(),
        outline(everywhere(), events).nodes[0].span.start <= program.comments@[i].span.start,
    ensures
        ({
            let ours = scene_of(program, events);
            let full = Scene {
                text: ours.text,
                nodes: outline(everywhere(), events).nodes,
                comments: ours.comments,
            };
            let a = ours.assignments()[i];
            let b = full.assignments()[i];
            &&& same_node(ours.nodes[a.host as int], full.nodes[b.host as int])
            &&& a.position == b.position
            &&& a.same_line == b.same_line
            &&& a.force_newline_after == b.force_newline_after
        }),
{
    let ours = scene_of(program, events);
    let comments = ours.comments;
    let wanted = touching(comments);
    let p = outline(wanted, events);
    let f = outline(everywhere(), events);
    let m = numbers(wanted, events);
    let full = Scene { text: ours.text, nodes: f.nodes, comments };
    let c = comments[i];
    lemma_embeds(wanted, events);
    lemma_root_same(wanted, events);
    lemma_scene_ready(wanted, ours, events);
    lemma_scene_ready(everywhere(), full, events);
    law_hosts_are_told_one_by_one(ours, i);
    law_hosts_are_told_one_by_one(full, i);
    assert(same_node(p.nodes[0], f.nodes[m[0]]));
    if c.content == CommentContent::PureNotApplied {
        lemma_deepest_same(comments, p, f, m, i);
        law_deepest_ending(p.nodes, c.attached_to, p.nodes.len() as int);
        let x = ours.pure_host(c.attached_to);
        assert(same_node(p.nodes[x], f.nodes[m[x]]));
        assert(full.pure_host(c.attached_to) == m[x]);
    } else if c.span.start < p.nodes[0].span.end {
        assert(touches_comment(comments, p.nodes[0].span)) by {
            assert(p.nodes[0].span.start <= comments[i].span.start < p.nodes[0].span.end);
        }
        lemma_place_same(ours.text, comments, p, f, m, 0, i);
        let x = ours.place(0, c).host as int;
        assert(same_node(p.nodes[x], f.nodes[m[x]]));
    }
}

/// The nodes of a well-nested traversal are fit for the choice of hosts.
proof fn lemma_scene_ready(wanted: spec_fn(Span) -> bool, scene: Scene, events: Seq<NodeEvent>)
    requires
        0 < enters(events) <= NO_NODE,
        pure_candidates_ok(scene.comments, events),
        well_nested(events),
        scene.nodes == outline(wanted, events).nodes,
    ensures
        scene.nodes.len() > 0,
        tree_ok(scene.nodes),
        nested(scene.nodes),
        starts_nested(scene.nodes),
        scene.pure_hosts_ok(),
{
    law_outline_is_a_forest(wanted, events);
    lemma_outline_entered(wanted, events);
    lemma_pure_hosts(scene, events);
    assert forall|j: int|
        0 <= j < scene.nodes.len() && (#[trigger] scene.nodes[j]).parent != NO_NODE implies {
        let parent = scene.nodes[scene.nodes[j].parent as int];
        &&& parent.span.start <= scene.nodes[j].span.start <= parent.span.end
        &&& scene.nodes[j].span.end <= parent.span.end
    } by {
        law_outline_nests(wanted, events, j);
    }
}

} // verus!
