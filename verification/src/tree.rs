//! The syntax nodes that comments can be attached to, recorded in the order of a traversal.
use vstd::prelude::*;

use crate::comment::{Comment, Span};

verus! {

/// Stands for the index of a node that does not exist.
pub const NO_NODE: u32 = 0xFFFF_FFFF;

/// The address recorded for the root, which moves once it has been parsed.
pub const ROOT_ADDRESS: usize = 0;

/// One syntax node, linked to its parent, to the latest of its children, and to the sibling
/// recorded before it.
#[derive(Clone, Copy, Debug, PartialEq, Eq, Structural)]
pub struct NodeRecord {
    /// Where the node lives, or `ROOT_ADDRESS`.
    pub address: usize,
    /// The node's syntactic type.
    pub kind: u8,
    /// Index of the enclosing node.
    pub parent: u32,
    /// The source range of the node.
    pub span: Span,
    /// Number of enclosing nodes.
    pub depth: u32,
    /// Index of the child recorded last.
    pub first_child: u32,
    /// Index of the sibling recorded right before this node.
    pub next_sibling: u32,
}

/// What a traversal says of a node when it reaches it.
#[derive(Clone, Copy, Debug, PartialEq, Eq, Structural)]
pub struct NodeInfo {
    /// Where the node lives.
    pub address: usize,
    /// The node's syntactic type.
    pub kind: u8,
    /// The source range of the node.
    pub span: Span,
}

/// A step of a traversal. Between a node's `Enter` and its `Leave` come those of its children.
#[derive(Clone, Copy, Debug, PartialEq, Eq, Structural)]
pub enum NodeEvent {
    /// The traversal reaches a node.
    Enter(NodeInfo),
    /// The traversal is done with the node it entered last and has not left.
    Leave,
}

/// The links of node `i` agree with those of the other nodes: its parent comes before it, its
/// first child is its latest, and its next sibling is the latest of the earlier children of
/// its parent.
pub open spec fn links_ok(nodes: Seq<NodeRecord>, i: int) -> bool {
    let node = nodes[i];
    &&& node.parent != NO_NODE ==> {
        &&& node.parent < i
        &&& nodes[node.parent as int].first_child != NO_NODE
        &&& i <= nodes[node.parent as int].first_child
        &&& node.depth == nodes[node.parent as int].depth + 1
    }
    &&& node.first_child != NO_NODE ==> {
        &&& i < node.first_child < nodes.len()
        &&& nodes[node.first_child as int].parent == i
    }
    &&& node.next_sibling != NO_NODE ==> {
        &&& node.parent != NO_NODE
        &&& node.next_sibling < i
        &&& nodes[node.next_sibling as int].parent == node.parent
    }
    &&& forall|j: int|
        0 <= j < i && node.parent != NO_NODE && (#[trigger] nodes[j]).parent == node.parent
            ==> node.next_sibling != NO_NODE && j <= node.next_sibling
}

/// The records form a forest, each tree numbered in preorder of its traversal.
pub open spec fn tree_ok(nodes: Seq<NodeRecord>) -> bool {
    &&& nodes.len() <= NO_NODE
    &&& forall|i: int| 0 <= i < nodes.len() ==> #[trigger] links_ok(nodes, i)
}

/// The nodes recorded so far, the chain of nodes that are open, and how deep the traversal is
/// below a node whose children are left out.
#[verifier::ext_equal]
pub struct Outline {
    pub nodes: Seq<NodeRecord>,
    pub stack: Seq<u32>,
    pub skipped: nat,
}

impl Outline {
    /// Nothing recorded yet.
    pub open spec fn empty() -> Outline {
        Outline { nodes: seq![], stack: seq![], skipped: 0 }
    }

    /// The index of the innermost open node.
    pub open spec fn parent(self) -> u32 {
        if self.stack.len() == 0 {
            NO_NODE
        } else {
            self.stack.last()
        }
    }

    /// The record of a node that is reached now.
    pub open spec fn record(self, node: NodeInfo) -> NodeRecord {
        NodeRecord {
            address: if self.stack.len() == 0 {
                ROOT_ADDRESS
            } else {
                node.address
            },
            kind: node.kind,
            parent: self.parent(),
            span: node.span,
            depth: self.stack.len() as u32,
            first_child: NO_NODE,
            next_sibling: if self.stack.len() == 0 {
                NO_NODE
            } else {
                self.nodes[self.stack.last() as int].first_child
            },
        }
    }

    /// The nodes so far, with the innermost open one linked to a child that comes next.
    pub open spec fn linked(self) -> Seq<NodeRecord> {
        if self.stack.len() == 0 {
            self.nodes
        } else {
            let p = self.stack.last() as int;
            self.nodes.update(
                p,
                NodeRecord { first_child: self.nodes.len() as u32, ..self.nodes[p] },
            )
        }
    }

    /// A node is recorded and opened.
    pub open spec fn entered(self, node: NodeInfo) -> Outline {
        Outline {
            nodes: self.linked().push(self.record(node)),
            stack: self.stack.push(self.nodes.len() as u32),
            skipped: self.skipped,
        }
    }

    /// The innermost open node is closed.
    pub open spec fn left(self) -> Outline {
        Outline {
            nodes: self.nodes,
            stack: if self.stack.len() == 0 {
                self.stack
            } else {
                self.stack.drop_last()
            },
            skipped: self.skipped,
        }
    }

    /// One step of a traversal. A node that is not wanted is recorded, its children are not.
    pub open spec fn after(self, event: NodeEvent, wanted: spec_fn(Span) -> bool) -> Outline {
        match event {
            NodeEvent::Enter(node) => {
                if self.skipped > 0 {
                    Outline { skipped: self.skipped + 1, ..self }
                } else if wanted(node.span) {
                    self.entered(node)
                } else {
                    Outline { skipped: 1, ..self.entered(node).left() }
                }
            },
            NodeEvent::Leave => {
                if self.skipped > 0 {
                    Outline { skipped: (self.skipped - 1) as nat, ..self }
                } else {
                    self.left()
                }
            },
        }
    }

    /// The links agree, and the open nodes are a chain from a root down.
    pub open spec fn wf(self) -> bool {
        &&& tree_ok(self.nodes)
        &&& self.stack.len() <= self.nodes.len()
        &&& forall|k: int|
            0 <= k < self.stack.len() ==> {
                &&& (#[trigger] self.stack[k]) < self.nodes.len()
                &&& self.nodes[self.stack[k] as int].depth == k
            }
    }
}

/// The outline that a traversal's steps leave behind, without what lies below nodes that are
/// not wanted.
pub open spec fn outline(wanted: spec_fn(Span) -> bool, events: Seq<NodeEvent>) -> Outline
    decreases events.len(),
{
    if events.len() == 0 {
        Outline::empty()
    } else {
        outline(wanted, events.drop_last()).after(events.last(), wanted)
    }
}

/// The spans that a comment touches.
pub open spec fn touching(comments: Seq<Comment>) -> spec_fn(Span) -> bool {
    |span: Span| touches_comment(comments, span)
}

/// The outline that a traversal's steps leave behind, without what lies below nodes that no
/// comment touches.
pub open spec fn outline_of(comments: Seq<Comment>, events: Seq<NodeEvent>) -> Outline {
    outline(touching(comments), events)
}

/// The number of nodes that the steps of a traversal enter.
pub open spec fn enters(events: Seq<NodeEvent>) -> nat
    decreases events.len(),
{
    if events.len() == 0 {
        0
    } else {
        enters(events.drop_last()) + (if events.last() is Enter {
            1nat
        } else {
            0nat
        })
    }
}

/// Is the record that of the node which the event enters?
pub open spec fn entered_as(event: NodeEvent, record: NodeRecord) -> bool {
    match event {
        NodeEvent::Enter(node) => record.span == node.span && record.kind == node.kind,
        NodeEvent::Leave => false,
    }
}

/// Every record is that of a node which one of the events enters.
pub open spec fn all_entered(nodes: Seq<NodeRecord>, events: Seq<NodeEvent>) -> bool {
    forall|j: int|
        0 <= j < nodes.len() ==> exists|e: int|
            0 <= e < events.len() && entered_as(#[trigger] events[e], #[trigger] nodes[j])
}

/// Does a comment start inside the span, or belong to a source boundary that lies in it, its
/// end included?
pub open spec fn touches_comment(comments: Seq<Comment>, span: Span) -> bool {
    ||| exists|i: int|
        0 <= i < comments.len() && span.start <= (#[trigger] comments[i]).span.start < span.end
    ||| exists|i: int|
        0 <= i < comments.len() && span.start <= (#[trigger] comments[i]).attached_to <= span.end
}

/// The comments come in the order in which they start.
pub open spec fn in_source_order(comments: Seq<Comment>) -> bool {
    forall|i: int, j: int|
        0 <= i < j < comments.len() ==> (#[trigger] comments[i]).span.start <= (
        #[trigger] comments[j]).span.start
}

/// `anchors` are the boundaries that own a comment, each once, in ascending order.
pub open spec fn anchors_of(anchors: Seq<u32>, comments: Seq<Comment>) -> bool {
    &&& forall|i: int, j: int|
        0 <= i < j < anchors.len() ==> #[trigger] anchors[i] < #[trigger] anchors[j]
    &&& forall|i: int|
        0 <= i < anchors.len() ==> exists|k: int|
            0 <= k < comments.len() && (#[trigger] comments[k]).attached_to == #[trigger] anchors[i]
    &&& forall|k: int|
        0 <= k < comments.len() ==> anchors.contains((#[trigger] comments[k]).attached_to)
}

/// Entering a node keeps the links in agreement.
proof fn lemma_entered_wf(o: Outline, node: NodeInfo)
    requires
        o.wf(),
        o.nodes.len() < NO_NODE,
    ensures
        o.entered(node).wf(),
{
    let after = o.entered(node);
    let new = o.nodes.len() as int;
    assert forall|i: int| 0 <= i < after.nodes.len() implies #[trigger] links_ok(after.nodes, i) by {
        if i < new {
            assert(links_ok(o.nodes, i));
            if o.nodes[i].parent != NO_NODE {
                assert(links_ok(o.nodes, o.nodes[i].parent as int));
            }
        } else if o.stack.len() > 0 {
            let p = o.stack.last() as int;
            assert(o.stack[o.stack.len() - 1] == p);
            assert(links_ok(o.nodes, p));
            assert forall|j: int| 0 <= j < i && (#[trigger] after.nodes[j]).parent == p implies
                after.nodes[i].next_sibling != NO_NODE && j <= after.nodes[i].next_sibling by {
                assert(links_ok(o.nodes, j));
                assert(o.nodes[j].parent == p);
            }
        }
    }
    assert forall|k: int| 0 <= k < after.stack.len() implies {
        &&& (#[trigger] after.stack[k]) < after.nodes.len()
        &&& after.nodes[after.stack[k] as int].depth == k
    } by {
        if k < o.stack.len() {
            assert(o.stack[k] < o.nodes.len());
        }
    }
}

/// Records the nodes that a traversal reaches, as far as comments can belong to them.
pub struct Collector<'c> {
    /// The comments to be attached.
    pub comments: &'c [Comment],
    /// The boundaries that own a comment, ascending.
    pub anchors: Vec<u32>,
    /// The nodes recorded so far.
    pub nodes: Vec<NodeRecord>,
    /// The indices of the nodes that are open, outermost first.
    pub stack: Vec<u32>,
    /// How deep the traversal is below a node whose children are left out.
    pub skipped: usize,
}

impl<'c> Collector<'c> {
    /// The collector's state as an outline.
    pub open spec fn outline(&self) -> Outline {
        Outline { nodes: self.nodes@, stack: self.stack@, skipped: self.skipped as nat }
    }

    /// The records are consistent and the anchors are those of the comments.
    pub open spec fn wf(&self) -> bool {
        &&& self.outline().wf()
        &&& anchors_of(self.anchors@, self.comments@)
    }

    /// A collector that has seen no node yet.
    pub fn new(comments: &'c [Comment]) -> (collector: Collector<'c>)
        ensures
            collector.wf(),
            collector.comments@ == comments@,
            collector.outline() == Outline::empty(),
    {
        let mut anchors: Vec<u32> = Vec::new();
        let mut i: usize = 0;
        while i < comments.len()
            invariant
                i <= comments.len(),
                anchors_of(anchors@, comments@.take(i as int)),
            decreases comments.len() - i,
        {
            let anchor: u32 = comments[i].attached_to;
            let at: usize = first_at_least(&anchors, anchor);
            let ghost before = anchors@;
            let ghost seen = comments@.take(i as int);
            let ghost now = comments@.take(i + 1);
            if at == anchors.len() || anchors[at] != anchor {
                anchors.insert(at, anchor);
            }
            proof {
                assert(now[i as int] == comments@[i as int]);
                assert(anchors@[at as int] == anchor);
                assert forall|a: int| 0 <= a < anchors@.len() implies exists|k: int|
                    0 <= k < now.len() && (#[trigger] now[k]).attached_to
                        == #[trigger] anchors@[a] by {
                    if anchors@[a] == anchor {
                        assert(now[i as int].attached_to == anchor);
                    } else {
                        let old_a = if anchors@.len() == before.len() || a < at {
                            a
                        } else {
                            a - 1
                        };
                        assert(before[old_a] == anchors@[a]);
                        let k = choose|k: int|
                            0 <= k < seen.len() && (#[trigger] seen[k]).attached_to
                                == before[old_a];
                        assert(now[k] == seen[k]);
                    }
                }
                assert forall|k: int| 0 <= k < now.len() implies anchors@.contains(
                    (#[trigger] now[k]).attached_to,
                ) by {
                    if k < i {
                        assert(seen[k] == now[k]);
                        let a = choose|a: int|
                            0 <= a < before.len() && before[a] == seen[k].attached_to;
                        if anchors@.len() == before.len() || a < at {
                            assert(anchors@[a] == before[a]);
                        } else {
                            assert(anchors@[a + 1] == before[a]);
                        }
                    }
                }
            }
            i = i + 1;
        }
        assert(comments@.take(comments@.len() as int) =~= comments@);
        Collector { comments, anchors, nodes: Vec::new(), stack: Vec::new(), skipped: 0 }
    }

    /// Can a comment belong to a node with this span, or to a node below it?
    pub fn intersects_comment(&self, span: Span) -> (found: bool)
        requires
            anchors_of(self.anchors@, self.comments@),
        ensures
            found ==> touches_comment(self.comments@, span),
            in_source_order(self.comments@) ==> found == touches_comment(self.comments@, span),
    {
        let i: usize = first_starting_at(self.comments, span.start);
        if i < self.comments.len() && self.comments[i].span.start < span.end {
            return true;
        }
        let a: usize = first_at_least(&self.anchors, span.start);
        let found: bool = a < self.anchors.len() && self.anchors[a] <= span.end;
        proof {
            if in_source_order(self.comments@) {
                assert forall|k: int| 0 <= k < self.comments@.len() implies !(span.start <= (
                #[trigger] self.comments@[k]).span.start < span.end) by {
                    if k > i {
                        assert(self.comments@[i as int].span.start <= self.comments@[k].span.start);
                    }
                }
            }
            if found {
                let k = choose|k: int|
                    0 <= k < self.comments@.len() && (#[trigger] self.comments@[k]).attached_to
                        == self.anchors@[a as int];
                assert(span.start <= self.comments@[k].attached_to <= span.end);
            } else {
                assert forall|k: int| 0 <= k < self.comments@.len() implies !(span.start <= (
                #[trigger] self.comments@[k]).attached_to <= span.end) by {
                    let b = choose|b: int|
                        0 <= b < self.anchors@.len() && self.anchors@[b]
                            == self.comments@[k].attached_to;
                    if b > a {
                        assert(self.anchors@[a as int] < self.anchors@[b]);
                    }
                }
            }
        }
        found
    }

    /// Records a node below the innermost open one, and opens it.
    pub fn enter_node(&mut self, node: NodeInfo)
        requires
            old(self).nodes.len() < NO_NODE,
            old(self).stack.len() <= u32::MAX,
            old(self).stack@.len() > 0 ==> old(self).stack@.last() < old(self).nodes@.len(),
        ensures
            old(self).wf() ==> final(self).wf(),
            final(self).outline() == old(self).outline().entered(node),
            final(self).comments@ == old(self).comments@,
            final(self).anchors@ == old(self).anchors@,
    {
        proof {
            if self.wf() {
                lemma_entered_wf(self.outline(), node);
            }
        }
        let index: u32 = self.nodes.len() as u32;
        let depth: u32 = self.stack.len() as u32;
        let mut parent: u32 = NO_NODE;
        let mut next_sibling: u32 = NO_NODE;
        let mut address: usize = ROOT_ADDRESS;
        if self.stack.len() > 0 {
            parent = self.stack[self.stack.len() - 1];
            address = node.address;
            assert(self.stack@[self.stack@.len() - 1] == parent);
            let mut record: NodeRecord = self.nodes[parent as usize];
            next_sibling = record.first_child;
            record.first_child = index;
            self.nodes.set(parent as usize, record);
        }
        self.nodes.push(
            NodeRecord {
                address,
                kind: node.kind,
                parent,
                span: node.span,
                depth,
                first_child: NO_NODE,
                next_sibling,
            },
        );
        self.stack.push(index);
        assert(self.outline() =~= old(self).outline().entered(node));
    }

    /// Closes the innermost open node, if there is one.
    pub fn leave_node(&mut self)
        ensures
            old(self).wf() ==> final(self).wf(),
            final(self).outline() == old(self).outline().left(),
            final(self).comments@ == old(self).comments@,
            final(self).anchors@ == old(self).anchors@,
    {
        let _ = self.stack.pop();
        assert(self.outline() =~= old(self).outline().left());
        proof {
            if old(self).wf() {
                lemma_left_wf(old(self).outline());
            }
        }
    }

    /// Follows one step of a traversal: a node that no comment can belong to is recorded
    /// without its children.
    pub fn follow(&mut self, event: NodeEvent)
        requires
            old(self).wf(),
            event is Enter ==> old(self).nodes.len() < NO_NODE,
            old(self).skipped < usize::MAX,
        ensures
            final(self).wf(),
            in_source_order(old(self).comments@) ==> final(self).outline()
                == old(self).outline().after(event, touching(old(self).comments@)),
            final(self).comments@ == old(self).comments@,
            final(self).nodes.len() <= old(self).nodes.len() + (if event is Enter {
                1int
            } else {
                0int
            }),
            final(self).nodes.len() >= old(self).nodes.len(),
            event is Enter && old(self).skipped == 0 ==> final(self).nodes.len()
                == old(self).nodes.len() + 1,
            event is Leave ==> final(self).skipped <= old(self).skipped,
            forall|j: int|
                0 <= j < old(self).nodes@.len() ==> (#[trigger] final(self).nodes@[j]).span
                    == old(self).nodes@[j].span && final(self).nodes@[j].kind
                    == old(self).nodes@[j].kind,
            forall|j: int|
                old(self).nodes@.len() <= j < final(self).nodes@.len() ==> entered_as(
                    event,
                    #[trigger] final(self).nodes@[j],
                ),
            final(self).skipped <= old(self).skipped + 1,
    {
        match event {
            NodeEvent::Enter(node) => {
                assert(self.stack@.len() > 0 ==> self.stack@[self.stack@.len() - 1]
                    < self.nodes@.len());
                if self.skipped > 0 {
                    self.skipped = self.skipped + 1;
                } else if self.intersects_comment(node.span) {
                    self.enter_node(node);
                } else {
                    self.enter_node(node);
                    self.leave_node();
                    self.skipped = 1;
                }
            },
            NodeEvent::Leave => {
                if self.skipped > 0 {
                    self.skipped = self.skipped - 1;
                } else {
                    self.leave_node();
                }
            },
        }
    }

    /// The collector that has followed a whole traversal.
    pub fn collect(comments: &'c [Comment], events: &[NodeEvent]) -> (collector: Collector<'c>)
        requires
            enters(events@) <= NO_NODE,
        ensures
            collector.wf(),
            collector.comments@ == comments@,
            in_source_order(comments@) ==> collector.outline() == outline_of(comments@, events@),
            collector.nodes.len() > 0 <==> enters(events@) > 0,
            collector.nodes.len() <= enters(events@),
            all_entered(collector.nodes@, events@),
    {
        let mut collector: Collector<'c> = Collector::new(comments);
        let mut i: usize = 0;
        while i < events.len()
            invariant
                i <= events.len(),
                collector.wf(),
                collector.comments@ == comments@,
                in_source_order(comments@) ==> collector.outline() == outline_of(
                    comments@,
                    events@.take(i as int),
                ),
                collector.nodes.len() <= enters(events@.take(i as int)),
                enters(events@.take(i as int)) > 0 ==> collector.nodes.len() > 0,
                collector.nodes.len() == 0 ==> collector.skipped == 0,
                collector.skipped <= i,
                all_entered(collector.nodes@, events@.take(i as int)),
                enters(events@) <= NO_NODE,
            decreases events.len() - i,
        {
            proof {
                assert(events@.take(i + 1).drop_last() =~= events@.take(i as int));
                lemma_enters_monotone(events@, i + 1);
            }
            let ghost before = collector.nodes@;
            let ghost seen = events@.take(i as int);
            let ghost now = events@.take(i + 1);
            collector.follow(events[i]);
            assert forall|j: int| 0 <= j < collector.nodes@.len() implies exists|e: int|
                0 <= e < now.len() && entered_as(
                    #[trigger] now[e],
                    #[trigger] collector.nodes@[j],
                ) by {
                if j < before.len() {
                    let e = choose|e: int|
                        0 <= e < seen.len() && entered_as(#[trigger] seen[e], before[j]);
                    assert(now[e] == seen[e]);
                    assert(entered_as(now[e], collector.nodes@[j]));
                } else {
                    assert(entered_as(now[i as int], collector.nodes@[j]));
                }
            }
            i = i + 1;
        }
        assert(events@.take(events@.len() as int) =~= events@);
        collector
    }
}

/// A prefix of a traversal enters no more nodes than the whole.
proof fn lemma_enters_monotone(events: Seq<NodeEvent>, n: int)
    requires
        0 <= n <= events.len(),
    ensures
        enters(events.take(n)) <= enters(events),
    decreases events.len(),
{
    if n == events.len() {
        assert(events.take(n) =~= events);
    } else {
        lemma_enters_monotone(events.drop_last(), n);
        assert(events.drop_last().take(n) =~= events.take(n));
    }
}

/// The index of the first anchor that is not below `bound`.
fn first_at_least(anchors: &Vec<u32>, bound: u32) -> (at: usize)
    requires
        forall|i: int, j: int|
            0 <= i < j < anchors@.len() ==> #[trigger] anchors@[i] < #[trigger] anchors@[j],
    ensures
        at <= anchors.len(),
        forall|i: int| 0 <= i < at ==> #[trigger] anchors@[i] < bound,
        forall|i: int| at <= i < anchors@.len() ==> bound <= #[trigger] anchors@[i],
{
    let mut low: usize = 0;
    let mut high: usize = anchors.len();
    while low < high
        invariant
            low <= high <= anchors.len(),
            forall|i: int, j: int|
                0 <= i < j < anchors@.len() ==> #[trigger] anchors@[i] < #[trigger] anchors@[j],
            forall|i: int| 0 <= i < low ==> #[trigger] anchors@[i] < bound,
            forall|i: int| high <= i < anchors@.len() ==> bound <= #[trigger] anchors@[i],
        decreases high - low,
    {
        let mid: usize = low + (high - low) / 2;
        if anchors[mid] < bound {
            low = mid + 1;
        } else {
            high = mid;
        }
    }
    low
}

/// The index of the first comment that does not start before `bound`.
fn first_starting_at(comments: &[Comment], bound: u32) -> (at: usize)
    ensures
        at <= comments.len(),
        in_source_order(comments@) ==> {
            &&& forall|i: int| 0 <= i < at ==> (#[trigger] comments@[i]).span.start < bound
            &&& forall|i: int|
                at <= i < comments@.len() ==> bound <= (#[trigger] comments@[i]).span.start
        },
        at < comments.len() ==> bound <= comments@[at as int].span.start,
{
    let mut low: usize = 0;
    let mut high: usize = comments.len();
    while low < high
        invariant
            low <= high <= comments.len(),
            in_source_order(comments@) ==> {
                &&& forall|i: int| 0 <= i < low ==> (#[trigger] comments@[i]).span.start < bound
                &&& forall|i: int|
                    high <= i < comments@.len() ==> bound <= (#[trigger] comments@[i]).span.start
            },
            high < comments.len() ==> bound <= comments@[high as int].span.start,
        decreases high - low,
    {
        let mid: usize = low + (high - low) / 2;
        if comments[mid].span.start < bound {
            low = mid + 1;
        } else {
            high = mid;
        }
    }
    low
}

/// Closing a node keeps the links in agreement.
proof fn lemma_left_wf(o: Outline)
    requires
        o.wf(),
    ensures
        o.left().wf(),
{
    let after = o.left();
    assert forall|k: int| 0 <= k < after.stack.len() implies {
        &&& (#[trigger] after.stack[k]) < after.nodes.len()
        &&& after.nodes[after.stack[k] as int].depth == k
    } by {
        assert(o.stack[k] == after.stack[k]);
    }
}

/// Whatever the traversal, its nodes are recorded as a forest, no more of them than it enters.
pub proof fn law_outline_is_a_forest(wanted: spec_fn(Span) -> bool, events: Seq<NodeEvent>)
    requires
        enters(events) <= NO_NODE,
    ensures
        outline(wanted, events).wf(),
        outline(wanted, events).nodes.len() <= enters(events),
        outline(wanted, events).nodes.len() > 0 <==> enters(events) > 0,
    decreases events.len(),
{
    if events.len() > 0 {
        let rest = events.drop_last();
        let before = outline(wanted, rest);
        law_outline_is_a_forest(wanted, rest);
        lemma_skipped_below_a_node(wanted, rest);
        match events.last() {
            NodeEvent::Enter(node) => {
                if before.skipped == 0 {
                    lemma_entered_wf(before, node);
                    lemma_left_wf(before.entered(node));
                }
            },
            NodeEvent::Leave => {
                lemma_left_wf(before);
            },
        }
    }
}

/// Something is left out only below a node that was recorded.
proof fn lemma_skipped_below_a_node(wanted: spec_fn(Span) -> bool, events: Seq<NodeEvent>)
    ensures
        outline(wanted, events).skipped > 0 ==> outline(wanted, events).nodes.len() > 0,
    decreases events.len(),
{
    if events.len() > 0 {
        lemma_skipped_below_a_node(wanted, events.drop_last());
    }
}

/// Every node of the outline is one that the traversal enters.
pub proof fn lemma_outline_entered(wanted: spec_fn(Span) -> bool, events: Seq<NodeEvent>)
    requires
        enters(events) <= NO_NODE,
    ensures
        all_entered(outline(wanted, events).nodes, events),
    decreases events.len(),
{
    if events.len() > 0 {
        let rest = events.drop_last();
        let before = outline(wanted, rest).nodes;
        let nodes = outline(wanted, events).nodes;
        lemma_outline_entered(wanted, rest);
        law_outline_is_a_forest(wanted, rest);
        assert forall|j: int| 0 <= j < nodes.len() implies exists|e: int|
            0 <= e < events.len() && entered_as(#[trigger] events[e], #[trigger] nodes[j]) by {
            if j < before.len() {
                let e = choose|e: int|
                    0 <= e < rest.len() && entered_as(#[trigger] rest[e], before[j]);
                assert(events[e] == rest[e]);
                assert(entered_as(events[e], nodes[j]));
            } else {
                assert(entered_as(events[events.len() - 1], nodes[j]));
            }
        }
    }
}

/// The spans of the nodes that a traversal has entered and not left, outermost first.
pub open spec fn open_spans(events: Seq<NodeEvent>) -> Seq<Span>
    decreases events.len(),
{
    if events.len() == 0 {
        seq![]
    } else {
        let before = open_spans(events.drop_last());
        match events.last() {
            NodeEvent::Enter(node) => before.push(node.span),
            NodeEvent::Leave => if before.len() == 0 {
                before
            } else {
                before.drop_last()
            },
        }
    }
}

/// Does every node that the traversal enters lie within the one that is open around it?
pub open spec fn well_nested(events: Seq<NodeEvent>) -> bool
    decreases events.len(),
{
    if events.len() == 0 {
        true
    } else {
        &&& well_nested(events.drop_last())
        &&& match events.last() {
            NodeEvent::Enter(node) => {
                let around = open_spans(events.drop_last());
                around.len() > 0 ==> around.last().start <= node.span.start <= around.last().end
                    && node.span.end <= around.last().end
            },
            NodeEvent::Leave => true,
        }
    }
}

/// The open nodes of the outline are those of the traversal, up to where something is left
/// out.
proof fn lemma_open_spans(wanted: spec_fn(Span) -> bool, events: Seq<NodeEvent>)
    requires
        enters(events) <= NO_NODE,
    ensures
        ({
            let o = outline(wanted, events);
            let spans = open_spans(events);
            &&& spans.len() == o.stack.len() + o.skipped
            &&& forall|k: int|
                0 <= k < o.stack.len() ==> #[trigger] spans[k] == o.nodes[o.stack[k] as int].span
        }),
    decreases events.len(),
{
    if events.len() > 0 {
        let rest = events.drop_last();
        let before = outline(wanted, rest);
        let o = outline(wanted, events);
        let spans = open_spans(events);
        let earlier = open_spans(rest);
        lemma_open_spans(wanted, rest);
        law_outline_is_a_forest(wanted, rest);
        assert forall|k: int| 0 <= k < o.stack.len() implies #[trigger] spans[k]
            == o.nodes[o.stack[k] as int].span by {
            if k < before.stack.len() {
                assert(earlier[k] == before.nodes[before.stack[k] as int].span);
                assert(before.stack[k] < before.nodes.len());
            }
        }
    }
}

/// The nodes of a well-nested traversal are recorded with each inside its parent.
pub proof fn law_outline_nests(wanted: spec_fn(Span) -> bool, events: Seq<NodeEvent>, i: int)
    requires
        enters(events) <= NO_NODE,
        well_nested(events),
        0 <= i < outline(wanted, events).nodes.len(),
        outline(wanted, events).nodes[i].parent != NO_NODE,
    ensures
        ({
            let nodes = outline(wanted, events).nodes;
            let parent = nodes[nodes[i].parent as int];
            &&& parent.span.start <= nodes[i].span.start <= parent.span.end
            &&& nodes[i].span.end <= parent.span.end
        }),
    decreases events.len(),
{
    if events.len() > 0 {
        let rest = events.drop_last();
        let before = outline(wanted, rest);
        law_outline_is_a_forest(wanted, rest);
        lemma_open_spans(wanted, rest);
        if i < before.nodes.len() {
            assert(links_ok(before.nodes, i));
            law_outline_nests(wanted, rest, i);
        } else {
            assert(before.stack.len() > 0);
            let top = before.stack.len() - 1;
            assert(open_spans(rest)[top] == before.nodes[before.stack[top] as int].span);
        }
    }
}

} // verus!
