//! Gives every comment its host node.
use vstd::prelude::*;

use crate::comment::{Comment, CommentContent};
use crate::order::{lemma_insert_by_at, sort_by};
use crate::scene::{
    child_le, children, deepest_ending, lemma_children, lemma_fill_sound, lemma_overridden_sound, lemma_overridden_untouched,
    lemma_walk_sound, siblings, Assignment, AttachedCommentPosition, Gap, Progress, Scene,
};
use crate::text::{contains_line_break, get_range};
use crate::tree::{links_ok, tree_ok, NodeRecord, NO_NODE};

verus! {

/// Walks the nodes and the comments side by side.
pub struct Attacher<'a> {
    /// The source text.
    pub source_text: &'a str,
    /// The nodes.
    pub nodes: &'a [NodeRecord],
    /// The comments.
    pub comments: &'a [Comment],
    /// The host chosen for each comment.
    pub assignments: Vec<Assignment>,
    /// The children of the nodes that are being walked, innermost last.
    pub scratch: Vec<usize>,
    /// The first comment that has not been looked at.
    pub cursor: usize,
}

impl<'a> Attacher<'a> {
    /// What the hosts are chosen from.
    pub open spec fn scene(&self) -> Scene {
        Scene { text: self.source_text@, nodes: self.nodes@, comments: self.comments@ }
    }

    /// The choices made so far.
    pub open spec fn progress(&self) -> Progress {
        Progress { assigned: self.assignments@, cursor: self.cursor as int }
    }

    /// The nodes are a forest and the choices are nodes of it.
    pub open spec fn wf(&self) -> bool {
        &&& tree_ok(self.nodes@)
        &&& self.scene().sound(self.progress())
    }

    /// An attacher that has made no choice.
    pub fn new(
        source_text: &'a str,
        nodes: &'a [NodeRecord],
        comments: &'a [Comment],
    ) -> (attacher: Attacher<'a>)
        ensures
            tree_ok(nodes@) ==> attacher.wf(),
            attacher.scene() == (Scene { text: source_text@, nodes: nodes@, comments: comments@ }),
            attacher.progress() == attacher.scene().untouched(),
            attacher.scratch@.len() == 0,
    {
        let assignments: Vec<Assignment> = vec![Assignment::unassigned(); comments.len()];
        let attacher = Attacher {
            source_text,
            nodes,
            comments,
            assignments,
            scratch: Vec::new(),
            cursor: 0,
        };
        assert(attacher.assignments@ =~= Seq::new(
            comments@.len(),
            |i: int| Assignment::unassigned(),
        ));
        attacher
    }

    /// Chooses a host for every comment.
    pub fn attach(self) -> (assignments: Vec<Assignment>)
        requires
            self.wf(),
            self.scene().pure_hosts_ok(),
        ensures
            assignments@ == self.scene().completed(self.progress()),
            self.progress() == self.scene().untouched() ==> assignments@
                == self.scene().assignments(),
            forall|i: int|
                0 <= i < assignments@.len() ==> (#[trigger] assignments@[i]).host
                    < self.nodes@.len() || assignments@[i].host == 0,
    {
        let mut this = self;
        let ghost scene = this.scene();
        let ghost start = scene.overridden(this.progress());
        proof {
            lemma_overridden_untouched(scene);
            lemma_overridden_sound(scene, this.progress());
        }
        this.attach_pure_not_applied();
        if this.nodes.len() > 0 {
            proof {
                lemma_walk_sound(scene, start, 0);
            }
            this.walk_at(0);
        }
        let ghost walked = this.progress();
        while this.cursor < this.comments.len()
            invariant
                this.scene() == scene,
                scene.sound(walked),
                walked.cursor <= this.cursor <= this.comments.len(),
                this.assignments@.len() == scene.comments.len(),
                forall|i: int|
                    0 <= i < this.cursor ==> this.assignments@[i] == scene.finish(walked)[i],
                forall|i: int|
                    this.cursor <= i < scene.comments.len() ==> this.assignments@[i]
                        == walked.assigned[i],
            decreases this.comments.len() - this.cursor,
        {
            if this.assignments[this.cursor].host == NO_NODE {
                this.assignments.set(this.cursor, Assignment::inside_root());
            }
            this.cursor = this.cursor + 1;
        }
        assert(this.assignments@ =~= scene.finish(walked));
        this.assignments
    }

    /// A `PureNotApplied` annotation trails the deepest node that ends where the annotation
    /// belongs, e.g. `foo` in `foo /* PURE */ = call()`. All other comments are left as they
    /// are.
    pub fn attach_pure_not_applied(&mut self)
        requires
            old(self).nodes@.len() <= NO_NODE,
            old(self).assignments@.len() >= old(self).comments@.len(),
            old(self).scene().pure_hosts_ok(),
        ensures
            final(self).scene() == old(self).scene(),
            final(self).progress() == old(self).scene().overridden(old(self).progress()),
            final(self).scratch@ == old(self).scratch@,
            old(self).wf() ==> final(self).wf(),
    {
        let ghost scene = self.scene();
        let ghost before = self.progress();
        let ghost after = scene.overridden(before);
        let mut i: usize = 0;
        while i < self.comments.len()
            invariant
                i <= self.comments.len(),
                self.scene() == scene,
                self.scratch@ == old(self).scratch@,
                scene.nodes.len() <= NO_NODE,
                scene.pure_hosts_ok(),
                after == scene.overridden(before),
                self.cursor == before.cursor,
                self.assignments@.len() == before.assigned.len() >= scene.comments.len(),
                forall|k: int| 0 <= k < i ==> self.assignments@[k] == after.assigned[k],
                forall|k: int|
                    i <= k < before.assigned.len() ==> self.assignments@[k] == before.assigned[k],
            decreases self.comments.len() - i,
        {
            let comment: Comment = self.comments[i];
            if comment.content == CommentContent::PureNotApplied {
                assert(scene.comments[i as int] == comment);
                let host: usize = self.pure_host(comment.attached_to);
                let same_line: bool = self.same_line(
                    self.nodes[host].span.end,
                    comment.span.start,
                );
                self.assignments.set(
                    i,
                    Assignment {
                        host: host as u32,
                        position: AttachedCommentPosition::After,
                        same_line,
                        force_newline_after: false,
                    },
                );
            }
            i = i + 1;
        }
        proof {
            assert(self.assignments@ =~= after.assigned);
            if old(self).wf() {
                lemma_overridden_sound(scene, before);
            }
        }
    }

    /// The deepest node that ends at `anchor`; of several, the smallest; of several, the last.
    /// The root, where none ends there.
    fn pure_host(&self, anchor: u32) -> (host: usize)
        requires
            self.nodes@.len() > 0,
            self.nodes@.len() <= NO_NODE,
            forall|j: int|
                0 <= j < self.nodes@.len() && (#[trigger] self.nodes@[j]).span.end == anchor
                    ==> self.nodes@[j].span.start <= self.nodes@[j].span.end,
        ensures
            host == self.scene().pure_host(anchor),
            host < self.nodes@.len(),
    {
        let mut best: Option<usize> = None;
        let mut j: usize = 0;
        while j < self.nodes.len()
            invariant
                j <= self.nodes@.len(),
                forall|k: int|
                    0 <= k < self.nodes@.len() && (#[trigger] self.nodes@[k]).span.end == anchor
                        ==> self.nodes@[k].span.start <= self.nodes@[k].span.end,
                match best {
                    Some(b) => b < j && self.nodes@[b as int].span.end == anchor && deepest_ending(
                        self.nodes@,
                        anchor,
                        j as int,
                    ) == Some(b as int),
                    None => deepest_ending(self.nodes@, anchor, j as int) is None,
                },
            decreases self.nodes@.len() - j,
        {
            let node: NodeRecord = self.nodes[j];
            if node.span.end == anchor {
                assert(self.nodes@[j as int] == node);
                let better: bool = match best {
                    None => true,
                    Some(b) => {
                        let other: NodeRecord = self.nodes[b];
                        assert(self.nodes@[b as int] == other);
                        node.depth > other.depth || (node.depth == other.depth && node.span.size()
                            <= other.span.size())
                    },
                };
                if better {
                    best = Some(j);
                }
            }
            j = j + 1;
        }
        match best {
            Some(b) => b,
            None => 0,
        }
    }

    /// Walks a node: its gaps take the comments in them, its children are walked in turn.
    pub fn walk_at(&mut self, node_index: usize)
        requires
            old(self).wf(),
            node_index < old(self).nodes@.len(),
        ensures
            final(self).wf(),
            final(self).scene() == old(self).scene(),
            final(self).progress() == old(self).scene().walk(
                old(self).progress(),
                node_index as int,
            ),
            final(self).scratch@ == old(self).scratch@,
        decreases old(self).nodes@.len() - node_index,
    {
        let ghost scene = self.scene();
        let ghost start = self.progress();
        let ghost base = self.scratch@;
        if self.cursor >= self.comments.len() {
            return;
        }
        let node: NodeRecord = self.nodes[node_index];
        if self.comments[self.cursor].span.start >= node.span.end {
            return;
        }
        let ghost unsorted = siblings(scene.nodes, node.first_child);
        let ghost kids = children(scene.nodes, node_index as int);
        proof {
            lemma_children(scene.nodes, node_index as int);
            assert(links_ok(scene.nodes, node_index as int));
        }
        let checkpoint: usize = self.scratch.len();
        let mut child: u32 = node.first_child;
        let ghost mut taken: Seq<usize> = seq![];
        while child != NO_NODE
            invariant
                self.scene() == scene,
                self.progress() == start,
                tree_ok(scene.nodes),
                self.scratch@ == base + taken,
                child != NO_NODE ==> child < scene.nodes.len()
                    && scene.nodes[child as int].parent != NO_NODE,
                taken + siblings(scene.nodes, child) == unsorted,
                forall|k: int| 0 <= k < taken.len() ==> taken[k] < scene.nodes.len(),
            decreases
                if child == NO_NODE {
                    0int
                } else {
                    child + 1
                },
        {
            proof {
                assert(links_ok(scene.nodes, child as int));
                let next = scene.nodes[child as int].next_sibling;
                if next == NO_NODE {
                    assert(siblings(scene.nodes, next) =~= seq![]);
                }
                assert(taken.push(child as usize) + siblings(scene.nodes, next) =~= unsorted);
                taken = taken.push(child as usize);
            }
            self.scratch.push(child as usize);
            child = self.nodes[child as usize].next_sibling;
        }
        assert(siblings(scene.nodes, child) =~= seq![]);
        assert(taken =~= unsorted);
        self.sort_scratch_children(checkpoint);
        assert(self.scratch@ =~= base + kids) by {
            assert((base + taken).skip(checkpoint as int) =~= unsorted);
            assert((base + taken).take(checkpoint as int) =~= base);
        }
        let mut previous: Option<usize> = None;
        let mut previous_end: u32 = node.span.start;
        let child_count: usize = self.scratch.len() - checkpoint;
        let mut offset: usize = 0;
        while offset < child_count
            invariant
                offset <= child_count,
                child_count == kids.len(),
                checkpoint == base.len(),
                checkpoint + child_count == self.scratch.len(),
                kids == children(scene.nodes, node_index as int),
                node_index < scene.nodes.len(),
                node == scene.nodes[node_index as int],
                self.scratch@ == base + kids,
                self.scene() == scene,
                self.wf(),
                scene.nodes == old(self).nodes@,
                self.progress() == scene.walk_children(start, node_index as int, offset as int),
                previous == scene.gap(node_index as int, offset as int).previous,
                previous_end == scene.gap(node_index as int, offset as int).previous_end,
            decreases child_count - offset,
        {
            let child: usize = self.scratch[checkpoint + offset];
            proof {
                lemma_children(scene.nodes, node_index as int);
                assert(child == kids[offset as int]);
            }
            let child_start: u32 = self.nodes[child].span.start;
            self.consume_between(node_index, previous, previous_end, Some(child), child_start);
            self.walk_at(child);
            previous = Some(child);
            previous_end = self.nodes[child].span.end;
            offset = offset + 1;
        }
        proof {
            lemma_children(scene.nodes, node_index as int);
        }
        self.consume_between(node_index, previous, previous_end, None, node.span.end);
        self.scratch.truncate(checkpoint);
        assert(self.scratch@ =~= base);
    }

    /// Gives the comments of one gap their hosts.
    pub fn consume_between(
        &mut self,
        host: usize,
        previous: Option<usize>,
        previous_end: u32,
        next: Option<usize>,
        next_start: u32,
    )
        requires
            old(self).assignments@.len() >= old(self).comments@.len(),
            previous is None && next is None ==> host <= u32::MAX,
            previous matches Some(i) ==> i <= u32::MAX,
            next matches Some(i) ==> i <= u32::MAX,
        ensures
            final(self).scene() == old(self).scene(),
            final(self).progress() == old(self).scene().fill(
                old(self).progress(),
                (Gap { host, previous, previous_end, next, next_start }),
            ),
            final(self).scratch@ == old(self).scratch@,
            old(self).wf() && host < old(self).nodes@.len() && (previous matches Some(i) ==> i
                < old(self).nodes@.len()) && (next matches Some(i) ==> i < old(self).nodes@.len())
                ==> final(self).wf(),
    {
        let ghost scene = self.scene();
        let ghost gap = Gap { host, previous, previous_end, next, next_start };
        let ghost start = self.progress();
        let ghost ready = old(self).wf() && host < scene.nodes.len() && (previous matches Some(i)
            ==> i < scene.nodes.len()) && (next matches Some(i) ==> i < scene.nodes.len());
        proof {
            if ready {
                lemma_fill_sound(scene, start, gap);
            }
        }
        while self.cursor < self.comments.len()
            invariant
                self.scene() == scene,
                self.scratch@ == old(self).scratch@,
                scene == old(self).scene(),
                start == old(self).progress(),
                ready == (old(self).wf() && host < scene.nodes.len() && (
                previous matches Some(i) ==> i < scene.nodes.len()) && (next matches Some(i) ==> i
                    < scene.nodes.len())),
                ready ==> scene.sound(scene.fill(start, gap)),
                scene.fill(self.progress(), gap) == scene.fill(start, gap),
                self.assignments@.len() >= scene.comments.len(),
                gap == (Gap { host, previous, previous_end, next, next_start }),
                previous is None && next is None ==> host <= u32::MAX,
                previous matches Some(i) ==> i <= u32::MAX,
                next matches Some(i) ==> i <= u32::MAX,
            decreases self.comments.len() - self.cursor,
        {
            if self.assignments[self.cursor].host != NO_NODE {
                self.cursor = self.cursor + 1;
                continue;
            }
            let comment: Comment = self.comments[self.cursor];
            if comment.span.start >= next_start {
                return;
            }
            let assignment: Assignment = match (previous, next) {
                (Some(previous), Some(next)) => {
                    if self.same_line(comment.span.end, next_start) {
                        Assignment {
                            host: next as u32,
                            position: AttachedCommentPosition::Before,
                            same_line: true,
                            force_newline_after: false,
                        }
                    } else if self.same_line(previous_end, comment.span.start) {
                        Assignment {
                            host: previous as u32,
                            position: AttachedCommentPosition::After,
                            same_line: true,
                            force_newline_after: true,
                        }
                    } else {
                        Assignment {
                            host: next as u32,
                            position: AttachedCommentPosition::Before,
                            same_line: false,
                            force_newline_after: false,
                        }
                    }
                },
                (None, Some(next)) => Assignment {
                    host: next as u32,
                    position: AttachedCommentPosition::Before,
                    same_line: self.same_line(comment.span.end, next_start),
                    force_newline_after: false,
                },
                (Some(previous), None) => Assignment {
                    host: previous as u32,
                    position: AttachedCommentPosition::After,
                    same_line: self.same_line(previous_end, comment.span.start),
                    force_newline_after: false,
                },
                (None, None) => Assignment {
                    host: host as u32,
                    position: AttachedCommentPosition::Inside,
                    same_line: false,
                    force_newline_after: false,
                },
            };
            assert(assignment == scene.choose_host(gap, comment));
            self.assignments.set(self.cursor, assignment);
            self.cursor = self.cursor + 1;
        }
    }

    /// Is there no line break between two offsets of the source?
    pub fn same_line(&self, a: u32, b: u32) -> (same: bool)
        ensures
            same == self.scene().same_line(a, b),
    {
        let start: usize = if a <= b {
            a as usize
        } else {
            b as usize
        };
        let end: usize = if a <= b {
            b as usize
        } else {
            a as usize
        };
        match get_range(self.source_text, start, end) {
            Some(text) => !contains_line_break(text),
            None => false,
        }
    }

    /// Puts the children that were collected from `start` on in the order of the source.
    pub fn sort_scratch_children(&mut self, start: usize)
        requires
            forall|k: int|
                start <= k < old(self).scratch@.len() ==> old(self).scratch@[k]
                    < old(self).nodes@.len(),
        ensures
            final(self).scene() == old(self).scene(),
            final(self).progress() == old(self).progress(),
            final(self).scratch@ == (if start <= old(self).scratch@.len() {
                old(self).scratch@.take(start as int) + sort_by(
                    old(self).scratch@.skip(start as int),
                    child_le(old(self).nodes@),
                )
            } else {
                old(self).scratch@
            }),
    {
        if start > self.scratch.len() {
            return;
        }
        let ghost scene = self.scene();
        let ghost before = self.scratch@;
        let ghost base = before.take(start as int);
        let ghost unsorted = before.skip(start as int);
        let ghost le = child_le(scene.nodes);
        assert(unsorted.take(0) =~= seq![]);
        assert(before =~= base + sort_by(unsorted.take(0), le) + unsorted.skip(0));
        let mut index: usize = start;
        while index < self.scratch.len()
            invariant
                start <= index <= self.scratch@.len(),
                self.scene() == scene,
                self.progress() == old(self).progress(),
                le == child_le(scene.nodes),
                self.scratch@.len() == before.len(),
                base == before.take(start as int),
                unsorted == before.skip(start as int),
                self.scratch@ == base + sort_by(unsorted.take(index - start), le) + unsorted.skip(
                    index - start,
                ),
                sort_by(unsorted.take(index - start), le).len() == index - start,
                forall|k: int|
                    start <= k < self.scratch@.len() ==> #[trigger] self.scratch@[k]
                        < scene.nodes.len(),
            decreases self.scratch@.len() - index,
        {
            let ghost now = self.scratch@;
            let ghost n = index - start;
            let ghost sorted = sort_by(unsorted.take(n), le);
            let ghost rest = unsorted.skip(n + 1);
            let child: usize = self.scratch[index];
            assert(child == unsorted[n]);
            assert forall|k: int| 0 <= k < sorted.len() implies #[trigger] sorted[k]
                < scene.nodes.len() by {
                assert(now[start + k] == sorted[k]);
            }
            assert forall|k: int| 0 <= k < rest.len() implies #[trigger] rest[k]
                < scene.nodes.len() by {
                assert(now[index + 1 + k] == rest[k]);
            }
            let child_node: NodeRecord = self.nodes[child];
            let mut insertion: usize = index;
            while insertion > start
                invariant
                    start <= insertion <= index < self.scratch@.len(),
                    self.scene() == scene,
                    self.progress() == old(self).progress(),
                    child < scene.nodes.len(),
                    child_node == scene.nodes[child as int],
                    le == child_le(scene.nodes),
                    n == index - start,
                    sorted.len() == n,
                    base.len() == start,
                    self.scratch@.len() == base.len() + sorted.len() + 1 + rest.len(),
                    forall|k: int|
                        0 <= k < sorted.len() ==> #[trigger] sorted[k] < scene.nodes.len(),
                    forall|k: int| 0 <= k < start ==> self.scratch@[k] == base[k],
                    forall|k: int|
                        0 <= k < insertion - start ==> self.scratch@[start + k] == #[trigger] sorted[k],
                    forall|k: int|
                        insertion - start <= k < n ==> self.scratch@[start + k + 1]
                            == #[trigger] sorted[k],
                    forall|k: int|
                        0 <= k < rest.len() ==> self.scratch@[index + 1 + k] == #[trigger] rest[k],
                    forall|k: int| insertion - start <= k < n ==> !le(#[trigger] sorted[k], child),
                ensures
                    insertion > start ==> le(sorted[insertion - start - 1], child),
                decreases insertion,
            {
                let previous: usize = self.scratch[insertion - 1];
                assert(previous == sorted[insertion - start - 1]);
                let previous_node: NodeRecord = self.nodes[previous];
                if previous_node.span.start < child_node.span.start || (previous_node.span.start
                    == child_node.span.start && (previous_node.span.end < child_node.span.end || (
                previous_node.span.end == child_node.span.end && previous <= child))) {
                    break;
                }
                self.scratch.set(insertion, previous);
                insertion = insertion - 1;
            }
            self.scratch.set(insertion, child);
            proof {
                let at = insertion - start;
                lemma_insert_by_at(sorted, child, le, at);
                assert(unsorted.take(n + 1).drop_last() =~= unsorted.take(n));
                assert(sort_by(unsorted.take(n + 1), le) == sorted.insert(at, child));
                assert(self.scratch@ =~= base + sorted.insert(at, child) + rest);
                assert forall|k: int| start <= k < self.scratch@.len() implies
                    #[trigger] self.scratch@[k] < scene.nodes.len() by {
                    let m = k - start;
                    if m < at {
                        assert(self.scratch@[k] == sorted[m]);
                    } else if at < m <= n {
                        assert(self.scratch@[k] == sorted[m - 1]);
                    } else if m > n {
                        assert(self.scratch@[k] == rest[m - n - 1]);
                    }
                }
            }
            index = index + 1;
        }
        assert(unsorted.take(unsorted.len() as int) =~= unsorted);
        assert(unsorted.skip(unsorted.len() as int) =~= seq![]);
        assert(self.scratch@ =~= base + sort_by(unsorted, le));
    }
}

} // verus!
