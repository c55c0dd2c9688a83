//! What the attachments of a program say of each of its comments.
use vstd::prelude::*;

use crate::arena::{comments_in, hosts_in};
use crate::attachments::{
    host_entries, host_entry, hosted, hosted_below, lays_out, lemma_hosted_below_len,
    lemma_hosted_below_monotone, pure_candidates_ok, scene_of, AttachedComment,
    CommentAttachmentHost, CommentAttachments, Program,
};
use crate::comment::{Comment, CommentContent};
use crate::neighbours::{
    child_before, child_behind, innermost, law_between_two_children, law_programs_are_ordinary,
    on_one_line,
};
use crate::pruning::everywhere;
use crate::scene::{law_hosts_are_nodes, Assignment, AttachedCommentPosition, Scene};
use crate::tree::{
    entered_as, enters, in_source_order, law_outline_is_a_forest, open_spans, outline, tree_ok, well_nested,
    NodeEvent, NodeRecord, NO_NODE, ROOT_ADDRESS,
};

verus! {

/// Is the entry that of a node?
pub open spec fn describes(
    entry: CommentAttachmentHost,
    nodes: Seq<NodeRecord>,
    node: int,
) -> bool {
    &&& entry.address == nodes[node].address
    &&& entry.kind == nodes[node].kind
    &&& entry.span_start == nodes[node].span.start
    &&& entry.node_id is None
    &&& nodes[node].parent == NO_NODE ==> entry.parent_kind is None
    &&& nodes[node].parent != NO_NODE ==> entry.parent_kind
        == Some(nodes[nodes[node].parent as int].kind)
}

/// Is this the comment, with the place that it was given? A comment that was to get a line
/// break behind it says that it has one; everything else is as it was.
pub open spec fn places(got: AttachedComment, comment: Comment, assignment: Assignment) -> bool {
    &&& got.position == assignment.position
    &&& got.same_line == assignment.same_line
    &&& got.comment.span == comment.span
    &&& got.comment.attached_to == comment.attached_to
    &&& got.comment.kind == comment.kind
    &&& got.comment.position == comment.position
    &&& got.comment.content == comment.content
    &&& got.comment.newlines.leading == comment.newlines.leading
    &&& got.comment.newlines.trailing == (comment.newlines.trailing
        || assignment.force_newline_after)
}

/// A hosted comment stands behind those of its host that come before it in the source.
proof fn lemma_hosted_at(comments: Seq<Comment>, assigned: Seq<Assignment>, i: int, n: int)
    requires
        0 <= i < n,
    ensures
        ({
            let own = hosted(comments, assigned, assigned[i].host as int, n);
            let rank = hosted(comments, assigned, assigned[i].host as int, i).len() as int;
            &&& rank < own.len()
            &&& places(own[rank], comments[i], assigned[i])
        }),
    decreases n,
{
    if i < n - 1 {
        lemma_hosted_at(comments, assigned, i, n - 1);
    }
}

/// Comments of one host keep their order.
proof fn lemma_ranks_ascend(
    comments: Seq<Comment>,
    assigned: Seq<Assignment>,
    host: int,
    i: int,
    k: int,
)
    requires
        0 <= i < k,
        assigned[i].host == host,
    ensures
        hosted(comments, assigned, host, i).len() < hosted(comments, assigned, host, k).len(),
    decreases k,
{
    if i < k - 1 {
        lemma_ranks_ascend(comments, assigned, host, i, k - 1);
    }
}

/// The comments of a node stand behind those of the nodes before it.
proof fn lemma_below_at(
    comments: Seq<Comment>,
    assigned: Seq<Assignment>,
    h: int,
    k: int,
    n: int,
    rank: int,
)
    requires
        0 <= h < k,
        0 <= rank < hosted(comments, assigned, h, n).len(),
    ensures
        ({
            let all = hosted_below(comments, assigned, k, n);
            let r = hosted_below(comments, assigned, h, n).len() + rank;
            &&& r < all.len()
            &&& all[r] == hosted(comments, assigned, h, n)[rank]
        }),
    decreases k,
{
    if h < k - 1 {
        lemma_below_at(comments, assigned, h, k - 1, n, rank);
    }
}

/// A node that hosts a comment has an entry.
proof fn lemma_entry_at(
    nodes: Seq<NodeRecord>,
    comments: Seq<Comment>,
    assigned: Seq<Assignment>,
    h: int,
    k: int,
) -> (j: int)
    requires
        0 <= h < k,
        hosted(comments, assigned, h, comments.len() as int).len() > 0,
    ensures
        0 <= j < host_entries(nodes, comments, assigned, k).len(),
        host_entries(nodes, comments, assigned, k)[j] == host_entry(
            nodes,
            h,
            hosted_below(comments, assigned, h, comments.len() as int).len() as int,
            hosted(comments, assigned, h, comments.len() as int).len() as int,
        ),
    decreases k,
{
    if h < k - 1 {
        lemma_entry_at(nodes, comments, assigned, h, k - 1)
    } else {
        host_entries(nodes, comments, assigned, k - 1).len() as int
    }
}

/// Every comment is found in the part of its host, with the place that was chosen for it; of
/// two comments of one host, the one that comes first in the source comes first there.
pub proof fn law_comments_are_found_at_their_hosts(
    scene: Scene,
    attachments: CommentAttachments<'_>,
    i: int,
    k: int,
) -> (found: (int, int, int))
    requires
        tree_ok(scene.nodes),
        scene.nodes.len() > 0,
        scene.pure_hosts_ok(),
        scene.comments.len() <= u32::MAX,
        lays_out(attachments, scene.nodes, scene.comments, scene.assignments()),
        0 <= i <= k < scene.comments.len(),
        scene.assignments()[i].host == scene.assignments()[k].host,
    ensures
        ({
            let (j, r, s) = found;
            let hosts = hosts_in(attachments.hosts);
            let all = comments_in(attachments.comments);
            &&& 0 <= j < hosts.len()
            &&& describes(hosts[j], scene.nodes, scene.assignments()[i].host as int)
            &&& hosts[j].start <= r <= s < hosts[j].start + hosts[j].len <= all.len()
            &&& i < k ==> r < s
            &&& places(all[r], scene.comments[i], scene.assignments()[i])
            &&& places(all[s], scene.comments[k], scene.assignments()[k])
        }),
{
    let comments = scene.comments;
    let assigned = scene.assignments();
    let n = comments.len() as int;
    let h = assigned[i].host as int;
    let count = scene.nodes.len() as int;
    law_hosts_are_nodes(scene);
    assert(assigned[i].host < count);
    lemma_hosted_at(comments, assigned, i, n);
    lemma_hosted_at(comments, assigned, k, n);
    if i < k {
        lemma_ranks_ascend(comments, assigned, h, i, k);
    }
    let first = hosted(comments, assigned, h, i).len() as int;
    let second = hosted(comments, assigned, h, k).len() as int;
    lemma_below_at(comments, assigned, h, count, n, first);
    lemma_below_at(comments, assigned, h, count, n, second);
    let j = lemma_entry_at(scene.nodes, comments, assigned, h, count);
    lemma_hosted_below_len(comments, assigned, count, n);
    lemma_hosted_below_monotone(comments, assigned, h + 1, count, n);
    let start = hosted_below(comments, assigned, h, n).len() as int;
    (j, start + first, start + second)
}

/// In the attachments of a program, a comment between two children of the innermost node around it
/// stands behind the previous child exactly where that is on its line and the next is not, and
/// then says that a line break follows; otherwise it stands before the next child. Whether it is
/// on the line of its host is told by the line breaks of the source.
pub proof fn law_attached_between_two_children(
    program: Program<'_>,
    events: Seq<NodeEvent>,
    attachments: CommentAttachments<'_>,
    i: int,
    x: int,
    p: int,
    n: int,
) -> (found: (int, int))
    requires
        in_source_order(program.comments@),
        0 < enters(events) <= NO_NODE,
        pure_candidates_ok(program.comments@, events),
        well_nested(events),
        program.comments@.len() <= u32::MAX,
        lays_out(
            attachments,
            scene_of(program, events).nodes,
            program.comments@,
            scene_of(program, events).assignments(),
        ),
        0 <= i < program.comments@.len(),
        program.comments@[i].content != CommentContent::PureNotApplied,
        innermost(scene_of(program, events).nodes, x, program.comments@[i]),
        child_before(scene_of(program, events).nodes, x, p, program.comments@[i]),
        child_behind(scene_of(program, events).nodes, x, n, program.comments@[i]),
    ensures
        ({
            let (j, r) = found;
            let text = program.source_text@;
            let nodes = scene_of(program, events).nodes;
            let comment = program.comments@[i];
            let host = hosts_in(attachments.hosts)[j];
            let got = comments_in(attachments.comments)[r];
            let previous_near = on_one_line(text, nodes[p].span.end, comment.span.start);
            let next_near = on_one_line(text, comment.span.end, nodes[n].span.start);
            let behind = previous_near && !next_near;
            &&& 0 <= j < hosts_in(attachments.hosts).len()
            &&& host.start <= r < host.start + host.len <= comments_in(attachments.comments).len()
            &&& got.comment.span == comment.span
            &&& got.comment.content == comment.content
            &&& behind ==> describes(host, nodes, p) && got.position
                == AttachedCommentPosition::After
            &&& !behind ==> describes(host, nodes, n) && got.position
                == AttachedCommentPosition::Before
            &&& got.same_line <==> previous_near || next_near
            &&& got.comment.newlines.trailing <==> comment.newlines.trailing || behind
        }),
{
    let scene = scene_of(program, events);
    law_programs_are_ordinary(program, events, i);
    law_between_two_children(scene, i, x, p, n);
    let (j, r, s) = law_comments_are_found_at_their_hosts(scene, attachments, i, i);
    (j, r)
}

/// A record is that of a node which an event enters where it has the span and the kind of that
/// node.
pub proof fn law_entered(event: NodeEvent, record: NodeRecord)
    ensures
        entered_as(event, record) <==> match event {
            NodeEvent::Enter(node) => record.span == node.span && record.kind == node.kind,
            NodeEvent::Leave => false,
        },
{
}

/// Every node that a traversal enters is recorded, in the order in which it is entered, with
/// the number of nodes around it, and below the last node before it that lies around it.
pub proof fn law_nodes_are_recorded(events: Seq<NodeEvent>, e: int)
    requires
        enters(events) <= NO_NODE,
        0 <= e < events.len(),
        events[e] is Enter,
    ensures
        ({
            let nodes = outline(everywhere(), events).nodes;
            let j = enters(events.take(e)) as int;
            let depth = open_spans(events.take(e)).len();
            let info = events[e]->Enter_0;
            &&& nodes.len() == enters(events)
            &&& j < nodes.len()
            &&& nodes[j].span == info.span
            &&& nodes[j].kind == info.kind
            &&& nodes[j].depth == depth
            &&& depth == 0 ==> nodes[j].parent == NO_NODE && nodes[j].address == ROOT_ADDRESS
            &&& depth > 0 ==> {
                &&& nodes[j].address == info.address
                &&& nodes[j].parent < j
                &&& nodes[nodes[j].parent as int].depth == depth - 1
                &&& forall|m: int|
                    nodes[j].parent < m < j ==> (#[trigger] nodes[m]).depth >= depth
            }
        }),
    decreases events.len(),
{
    let all = everywhere();
    let rest = events.drop_last();
    lemma_open_nodes(rest);
    law_outline_is_a_forest(all, rest);
    if e < rest.len() {
        law_nodes_are_recorded(rest, e);
        assert(rest.take(e) =~= events.take(e));
        lemma_open_nodes(events);
        let before = outline(all, rest).nodes;
        let nodes = outline(all, events).nodes;
        assert forall|m: int| 0 <= m < before.len() implies (#[trigger] nodes[m]).depth
            == before[m].depth by {}
    } else {
        assert(rest =~= events.take(e));
    }
}

/// The open nodes are those around the next one, each the last of its depth, and everything
/// that is entered is recorded.
proof fn lemma_open_nodes(events: Seq<NodeEvent>)
    requires
        enters(events) <= NO_NODE,
    ensures
        ({
            let o = outline(everywhere(), events);
            &&& o.skipped == 0
            &&& o.nodes.len() == enters(events)
            &&& o.stack.len() == open_spans(events).len()
            &&& forall|k: int, m: int|
                #![trigger o.stack[k], o.nodes[m]]
                0 <= k < o.stack.len() && o.stack[k] < m < o.nodes.len() ==> o.nodes[m].depth > k
        }),
    decreases events.len(),
{
    if events.len() > 0 {
        let rest = events.drop_last();
        lemma_open_nodes(rest);
        law_outline_is_a_forest(everywhere(), rest);
        law_outline_is_a_forest(everywhere(), events);
    }
}

} // verus!
