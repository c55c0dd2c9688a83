//! Comments grouped by the nodes that host them.
use vstd::prelude::*;

use oxc_allocator::{Allocator, Vec as ArenaVec};

use crate::arena::{comments_in, hosts_in, in_arena, no_hosts, push_host, ARENA_LIMIT};
use crate::attacher::Attacher;
use crate::comment::{Comment, CommentContent, CommentKind, CommentNewlines, CommentPosition, Span};
use crate::scene::{law_hosts_are_nodes, Assignment, AttachedCommentPosition, Scene};
use crate::tree::{
    all_entered, entered_as, enters, in_source_order, links_ok, outline_of, tree_ok, Collector,
    NodeEvent, NodeRecord, NO_NODE,
};

verus! {

/// A parsed program: its text and the comments in it.
pub struct Program<'a> {
    /// The source text.
    pub source_text: &'a str,
    /// The comments, in the order of the source.
    pub comments: &'a [Comment],
}

/// A comment with its place relative to its host.
#[derive(Clone, Copy, Debug, PartialEq, Eq, Structural)]
pub struct AttachedComment {
    /// The comment.
    pub comment: Comment,
    /// Where it stands relative to its host.
    pub position: AttachedCommentPosition,
    /// Is there no line break between it and its host?
    pub same_line: bool,
}

/// A node that hosts comments, and which of the attached comments are its.
#[derive(Clone, Copy, Debug, PartialEq, Eq, Structural)]
pub struct CommentAttachmentHost {
    /// Where the node lives.
    pub address: usize,
    /// The node's number in a later analysis; none is known yet.
    pub node_id: Option<u32>,
    /// The node's syntactic type.
    pub kind: u8,
    /// The syntactic type of the enclosing node.
    pub parent_kind: Option<u8>,
    /// Where the node starts.
    pub span_start: u32,
    /// The first of its comments.
    pub start: u32,
    /// The number of its comments.
    pub len: u32,
}

/// All comments of a program, host by host.
pub struct CommentAttachments<'a> {
    /// The nodes that host a comment, in the order of the traversal.
    pub hosts: ArenaVec<'a, CommentAttachmentHost>,
    /// The comments of the first host, then those of the second, and so on.
    pub comments: ArenaVec<'a, AttachedComment>,
}

impl<'a> CommentAttachments<'a> {
    /// Attachments of no comments.
    pub fn new_in(allocator: &'a Allocator) -> (attachments: CommentAttachments<'a>)
        ensures
            hosts_in(attachments.hosts) == Seq::<CommentAttachmentHost>::empty(),
            comments_in(attachments.comments) == Seq::<AttachedComment>::empty(),
    {
        CommentAttachments {
            hosts: no_hosts(allocator),
            comments: in_arena(Vec::new(), allocator),
        }
    }
}

/// A comment as its assignment places it.
pub open spec fn attached(comment: Comment, assignment: Assignment) -> AttachedComment {
    AttachedComment {
        comment: if assignment.force_newline_after {
            comment.with_newline_after(true)
        } else {
            comment
        },
        position: assignment.position,
        same_line: assignment.same_line,
    }
}

/// The comments among the first `n` that node `host` hosts, in the order of the source.
pub open spec fn hosted(
    comments: Seq<Comment>,
    assigned: Seq<Assignment>,
    host: int,
    n: int,
) -> Seq<AttachedComment>
    decreases n,
{
    if n <= 0 {
        seq![]
    } else if assigned[n - 1].host == host {
        hosted(comments, assigned, host, n - 1).push(attached(comments[n - 1], assigned[n - 1]))
    } else {
        hosted(comments, assigned, host, n - 1)
    }
}

/// The comments of the first `k` nodes, node by node.
pub open spec fn hosted_below(
    comments: Seq<Comment>,
    assigned: Seq<Assignment>,
    k: int,
    n: int,
) -> Seq<AttachedComment>
    decreases k,
{
    if k <= 0 {
        seq![]
    } else {
        hosted_below(comments, assigned, k - 1, n) + hosted(comments, assigned, k - 1, n)
    }
}

/// The entry of a node that hosts `len` comments, the first of them at `start`.
pub open spec fn host_entry(
    nodes: Seq<NodeRecord>,
    node: int,
    start: int,
    len: int,
) -> CommentAttachmentHost {
    CommentAttachmentHost {
        address: nodes[node].address,
        node_id: None,
        kind: nodes[node].kind,
        parent_kind: if nodes[node].parent == NO_NODE {
            None
        } else {
            Some(nodes[nodes[node].parent as int].kind)
        },
        span_start: nodes[node].span.start,
        start: start as u32,
        len: len as u32,
    }
}

/// The entries of those among the first `k` nodes that host a comment.
pub open spec fn host_entries(
    nodes: Seq<NodeRecord>,
    comments: Seq<Comment>,
    assigned: Seq<Assignment>,
    k: int,
) -> Seq<CommentAttachmentHost>
    decreases k,
{
    if k <= 0 {
        seq![]
    } else {
        let n = comments.len() as int;
        let own = hosted(comments, assigned, k - 1, n).len() as int;
        let rest = host_entries(nodes, comments, assigned, k - 1);
        if own == 0 {
            rest
        } else {
            rest.push(
                host_entry(
                    nodes,
                    k - 1,
                    hosted_below(comments, assigned, k - 1, n).len() as int,
                    own,
                ),
            )
        }
    }
}

/// The attachments lay out the assignments host by host.
pub open spec fn lays_out(
    attachments: CommentAttachments<'_>,
    nodes: Seq<NodeRecord>,
    comments: Seq<Comment>,
    assigned: Seq<Assignment>,
) -> bool {
    let k = nodes.len() as int;
    &&& comments_in(attachments.comments) == hosted_below(comments, assigned, k, comments.len() as int)
    &&& hosts_in(attachments.hosts) == host_entries(nodes, comments, assigned, k)
}

/// A node hosts no more of `n` comments than there are.
pub proof fn lemma_hosted_len(comments: Seq<Comment>, assigned: Seq<Assignment>, host: int, n: int)
    requires
        0 <= n,
    ensures
        hosted(comments, assigned, host, n).len() <= n,
    decreases n,
{
    if n > 0 {
        lemma_hosted_len(comments, assigned, host, n - 1);
    }
}

/// Each further comment belongs to one node.
proof fn lemma_hosted_below_step(
    comments: Seq<Comment>,
    assigned: Seq<Assignment>,
    k: int,
    n: int,
)
    requires
        0 <= k,
        0 <= n,
    ensures
        hosted_below(comments, assigned, k, n + 1).len() == hosted_below(
            comments,
            assigned,
            k,
            n,
        ).len() + (if assigned[n].host < k {
            1int
        } else {
            0int
        }),
    decreases k,
{
    if k > 0 {
        lemma_hosted_below_step(comments, assigned, k - 1, n);
    }
}

/// The first `k` nodes host no more than there is, and all of it where all hosts are among
/// them.
pub proof fn lemma_hosted_below_len(
    comments: Seq<Comment>,
    assigned: Seq<Assignment>,
    k: int,
    n: int,
)
    requires
        0 <= k,
        0 <= n <= assigned.len(),
    ensures
        hosted_below(comments, assigned, k, n).len() <= n,
        (forall|i: int| 0 <= i < n ==> (#[trigger] assigned[i]).host < k) ==> hosted_below(
            comments,
            assigned,
            k,
            n,
        ).len() == n,
    decreases n,
{
    if n > 0 {
        lemma_hosted_below_len(comments, assigned, k, n - 1);
        lemma_hosted_below_step(comments, assigned, k, n - 1);
    } else {
        lemma_nothing_hosted(comments, assigned, k);
    }
}

/// Of no comments, none is hosted.
proof fn lemma_nothing_hosted(comments: Seq<Comment>, assigned: Seq<Assignment>, k: int)
    requires
        0 <= k,
    ensures
        hosted_below(comments, assigned, k, 0).len() == 0,
    decreases k,
{
    if k > 0 {
        lemma_nothing_hosted(comments, assigned, k - 1);
    }
}

/// More nodes host at least as much.
pub proof fn lemma_hosted_below_monotone(
    comments: Seq<Comment>,
    assigned: Seq<Assignment>,
    j: int,
    k: int,
    n: int,
)
    requires
        0 <= j <= k,
    ensures
        hosted_below(comments, assigned, j, n).len() <= hosted_below(comments, assigned, k, n).len(),
    decreases k,
{
    if j < k {
        lemma_hosted_below_monotone(comments, assigned, j, k - 1, n);
    }
}

/// A node has hosted at most as many of the first comments as of all of them.
proof fn lemma_hosted_monotone(
    comments: Seq<Comment>,
    assigned: Seq<Assignment>,
    host: int,
    m: int,
    n: int,
)
    requires
        0 <= m <= n,
    ensures
        hosted(comments, assigned, host, m).len() <= hosted(comments, assigned, host, n).len(),
        m < n && assigned[m].host == host ==> hosted(comments, assigned, host, m).len() < hosted(
            comments,
            assigned,
            host,
            n,
        ).len(),
    decreases n,
{
    if m < n {
        if m < n - 1 {
            lemma_hosted_monotone(comments, assigned, host, m, n - 1);
        }
    }
}

/// When the comments of each node lie where that node's part starts, the whole is laid out
/// node by node.
proof fn lemma_layout(
    sorted: Seq<AttachedComment>,
    comments: Seq<Comment>,
    assigned: Seq<Assignment>,
    k: int,
    n: int,
)
    requires
        0 <= k,
        hosted_below(comments, assigned, k, n).len() <= sorted.len(),
        forall|h: int, r: int|
            0 <= h < k && 0 <= r < hosted(comments, assigned, h, n).len()
                ==> #[trigger] sorted[hosted_below(comments, assigned, h, n).len() + r]
                == hosted(comments, assigned, h, n)[r],
    ensures
        sorted.take(hosted_below(comments, assigned, k, n).len() as int) == hosted_below(
            comments,
            assigned,
            k,
            n,
        ),
    decreases k,
{
    if k > 0 {
        lemma_layout(sorted, comments, assigned, k - 1, n);
        let below = hosted_below(comments, assigned, k - 1, n);
        let own = hosted(comments, assigned, k - 1, n);
        let all = hosted_below(comments, assigned, k, n);
        assert forall|p: int| 0 <= p < all.len() implies sorted.take(all.len() as int)[p]
            == all[p] by {
            if p < below.len() {
                assert(sorted.take(below.len() as int)[p] == below[p]);
            } else {
                let r = p - below.len();
                assert(sorted[below.len() + r] == own[r]);
            }
        }
        assert(sorted.take(all.len() as int) =~= all);
    }
}

/// Groups the comments by their hosts: counts them, adds up where each host's part starts, and
/// puts every comment into its place.
pub fn group_by_host<'a>(
    allocator: &'a Allocator,
    nodes: &[NodeRecord],
    comments: &[Comment],
    assignments: &Vec<Assignment>,
) -> (attachments: CommentAttachments<'a>)
    requires
        tree_ok(nodes@),
        nodes@.len() < NO_NODE,
        comments@.len() <= ARENA_LIMIT,
        assignments@.len() == comments@.len(),
        forall|i: int|
            0 <= i < assignments@.len() ==> (#[trigger] assignments@[i]).host < nodes@.len(),
    ensures
        lays_out(attachments, nodes@, comments@, assignments@),
{
    let ghost cs = comments@;
    let ghost asg = assignments@;
    let ghost total = comments@.len() as int;
    let node_count: usize = nodes.len();
    let mut offsets: Vec<u32> = vec![0u32; node_count + 1];
    let mut i: usize = 0;
    while i < assignments.len()
        invariant
            i <= assignments@.len(),
            node_count == nodes@.len(),
            offsets@.len() == node_count + 1,
            offsets@[0] == 0,
            total == assignments@.len() <= u32::MAX,
            cs == comments@,
            asg == assignments@,
            forall|h: int|
                0 <= h < node_count ==> #[trigger] offsets@[h + 1] == hosted(
                    cs,
                    asg,
                    h,
                    i as int,
                ).len(),
            forall|k: int|
                0 <= k < assignments@.len() ==> (#[trigger] assignments@[k]).host < nodes@.len(),
        decreases assignments@.len() - i,
    {
        let host: usize = assignments[i].host as usize;
        proof {
            lemma_hosted_len(cs, asg, host as int, i as int);
            assert(offsets@[host as int + 1] == hosted(cs, asg, host as int, i as int).len());
        }
        let ghost before = offsets@;
        let count: u32 = offsets[host + 1] + 1;
        offsets.set(host + 1, count);
        assert forall|h: int| 0 <= h < node_count implies #[trigger] offsets@[h + 1] == hosted(
            cs,
            asg,
            h,
            i + 1,
        ).len() by {
            assert(before[h + 1] == hosted(cs, asg, h, i as int).len());
        }
        i = i + 1;
    }
    let mut k: usize = 0;
    while k < node_count
        invariant
            k <= node_count,
            node_count == nodes@.len(),
            offsets@.len() == node_count + 1,
            total == asg.len() <= u32::MAX,
            forall|h: int|
                0 <= h <= k ==> #[trigger] offsets@[h] == hosted_below(cs, asg, h, total).len(),
            forall|h: int|
                k <= h < node_count ==> #[trigger] offsets@[h + 1] == hosted(
                    cs,
                    asg,
                    h,
                    total,
                ).len(),
        decreases node_count - k,
    {
        proof {
            lemma_hosted_below_len(cs, asg, k + 1, total);
            assert(offsets@[k as int + 1] == hosted(cs, asg, k as int, total).len());
            assert(offsets@[k as int] == hosted_below(cs, asg, k as int, total).len());
        }
        let ghost before = offsets@;
        let sum: u32 = offsets[k + 1] + offsets[k];
        offsets.set(k + 1, sum);
        assert forall|h: int| k + 1 <= h < node_count implies #[trigger] offsets@[h + 1] == hosted(
            cs,
            asg,
            h,
            total,
        ).len() by {
            assert(before[h + 1] == hosted(cs, asg, h, total).len());
        }
        k = k + 1;
    }
    let mut write_offsets: Vec<u32> = Vec::new();
    let mut w: usize = 0;
    while w < node_count
        invariant
            w <= node_count,
            offsets@.len() == node_count + 1,
            write_offsets@ == offsets@.take(w as int),
        decreases node_count - w,
    {
        write_offsets.push(offsets[w]);
        w = w + 1;
    }
    let filler = AttachedComment {
        comment: Comment {
            span: Span { start: 0, end: 0 },
            attached_to: 0,
            kind: CommentKind::Line,
            position: CommentPosition::Leading,
            newlines: CommentNewlines { leading: false, trailing: false },
            content: CommentContent::Plain,
        },
        position: AttachedCommentPosition::Before,
        same_line: false,
    };
    let mut sorted: Vec<AttachedComment> = vec![filler; comments.len()];
    let mut c: usize = 0;
    while c < comments.len()
        invariant
            c <= comments@.len(),
            cs == comments@,
            asg == assignments@,
            total == comments@.len() == assignments@.len() <= u32::MAX,
            node_count == nodes@.len(),
            sorted@.len() == total,
            write_offsets@.len() == node_count,
            forall|h: int|
                0 <= h < node_count ==> #[trigger] write_offsets@[h] == hosted_below(
                    cs,
                    asg,
                    h,
                    total,
                ).len() + hosted(cs, asg, h, c as int).len(),
            forall|h: int, r: int|
                0 <= h < node_count && 0 <= r < hosted(cs, asg, h, c as int).len()
                    ==> #[trigger] sorted@[hosted_below(cs, asg, h, total).len() + r]
                    == hosted(cs, asg, h, c as int)[r],
            forall|m: int|
                0 <= m < assignments@.len() ==> (#[trigger] assignments@[m]).host < nodes@.len(),
        decreases comments@.len() - c,
    {
        let assignment: Assignment = assignments[c];
        let mut comment: Comment = comments[c];
        if assignment.force_newline_after {
            comment.set_followed_by_newline(true);
        }
        let host: usize = assignment.host as usize;
        let target: u32 = write_offsets[host];
        let ghost before = sorted@;
        let ghost offsets_before = write_offsets@;
        proof {
            assert(write_offsets@[host as int] == target);
            lemma_hosted_monotone(cs, asg, host as int, c as int, total);
            lemma_hosted_below_monotone(cs, asg, host + 1, node_count as int, total);
            lemma_hosted_below_len(cs, asg, node_count as int, total);
        }
        let placed = AttachedComment {
            comment,
            position: assignment.position,
            same_line: assignment.same_line,
        };
        sorted.set(target as usize, placed);
        write_offsets.set(host, target + 1);
        proof {
            assert(placed == attached(cs[c as int], asg[c as int]));
            assert forall|h: int, r: int|
                0 <= h < node_count && 0 <= r < hosted(cs, asg, h, c + 1).len() implies
                #[trigger] sorted@[hosted_below(cs, asg, h, total).len() + r] == hosted(
                cs,
                asg,
                h,
                c + 1,
            )[r] by {
                let start = hosted_below(cs, asg, h, total).len();
                lemma_hosted_monotone(cs, asg, h, c + 1, total);
                lemma_hosted_below_monotone(cs, asg, h + 1, node_count as int, total);
                lemma_hosted_below_len(cs, asg, node_count as int, total);
                if h != host {
                    lemma_hosted_monotone(cs, asg, host as int, c + 1, total);
                    if h < host {
                        lemma_hosted_below_monotone(cs, asg, h + 1, host as int, total);
                    } else {
                        lemma_hosted_below_monotone(cs, asg, host + 1, h, total);
                    }
                    assert(start + r != target);
                    assert(before[start + r] == hosted(cs, asg, h, c as int)[r]);
                } else if r < hosted(cs, asg, h, c as int).len() {
                    assert(before[start + r] == hosted(cs, asg, h, c as int)[r]);
                }
            }
            assert forall|h: int| 0 <= h < node_count implies #[trigger] write_offsets@[h]
                == hosted_below(cs, asg, h, total).len() + hosted(cs, asg, h, c + 1).len() by {
                assert(offsets_before[h] == hosted_below(cs, asg, h, total).len() + hosted(
                    cs,
                    asg,
                    h,
                    c as int,
                ).len());
            }
        }
        c = c + 1;
    }
    proof {
        lemma_hosted_below_len(cs, asg, node_count as int, total);
        lemma_layout(sorted@, cs, asg, node_count as int, total);
        assert(sorted@.take(total) =~= sorted@);
    }
    let mut hosts: ArenaVec<'a, CommentAttachmentHost> = no_hosts(allocator);
    let mut index: usize = 0;
    while index < node_count
        invariant
            index <= node_count,
            node_count == nodes@.len(),
            tree_ok(nodes@),
            offsets@.len() == node_count + 1,
            total == cs.len(),
            forall|h: int|
                0 <= h <= node_count ==> #[trigger] offsets@[h] == hosted_below(
                    cs,
                    asg,
                    h,
                    total,
                ).len(),
            hosts_in(hosts) == host_entries(nodes@, cs, asg, index as int),
            asg.len() == cs.len() <= ARENA_LIMIT,
        decreases node_count - index,
    {
        let node: NodeRecord = nodes[index];
        proof {
            assert(offsets@[index as int] == hosted_below(cs, asg, index as int, total).len());
            assert(offsets@[index as int + 1] == hosted_below(cs, asg, index + 1, total).len());
            assert(links_ok(nodes@, index as int));
        }
        let len: u32 = offsets[index + 1] - offsets[index];
        if len != 0 {
            let parent_kind: Option<u8> = if node.parent != NO_NODE {
                Some(nodes[node.parent as usize].kind)
            } else {
                None
            };
            let host = CommentAttachmentHost {
                address: node.address,
                node_id: None,
                kind: node.kind,
                parent_kind,
                span_start: node.span.start,
                start: offsets[index],
                len,
            };
            proof {
                lemma_entries_len(nodes@, cs, asg, index as int);
                lemma_hosted_below_len(cs, asg, index + 1, total);
            }
            push_host(&mut hosts, host);
        }
        index = index + 1;
    }
    CommentAttachments { hosts, comments: in_arena(sorted, allocator) }
}

/// There are no more hosts than hosted comments.
proof fn lemma_entries_len(
    nodes: Seq<NodeRecord>,
    comments: Seq<Comment>,
    assigned: Seq<Assignment>,
    k: int,
)
    ensures
        host_entries(nodes, comments, assigned, k).len() <= hosted_below(
            comments,
            assigned,
            k,
            comments.len() as int,
        ).len(),
    decreases k,
{
    if k > 0 {
        lemma_entries_len(nodes, comments, assigned, k - 1);
    }
}

/// What the hosts of a program's comments are chosen from, for a traversal of the program.
pub open spec fn scene_of(program: Program<'_>, events: Seq<NodeEvent>) -> Scene {
    Scene {
        text: program.source_text@,
        nodes: outline_of(program.comments@, events).nodes,
        comments: program.comments@,
    }
}

/// Can every node that a `PureNotApplied` annotation may trail be measured?
pub open spec fn pure_candidates_ok(comments: Seq<Comment>, events: Seq<NodeEvent>) -> bool {
    forall|i: int, e: int|
        0 <= i < comments.len() && 0 <= e < events.len() && (#[trigger] comments[i]).content
            == CommentContent::PureNotApplied ==> match #[trigger] events[e] {
            NodeEvent::Enter(node) => node.span.end == comments[i].attached_to ==> node.span.start
                <= node.span.end,
            NodeEvent::Leave => true,
        }
}

/// Nodes that a traversal enters can be measured where its nodes can.
pub proof fn lemma_pure_hosts(scene: Scene, events: Seq<NodeEvent>)
    requires
        scene.nodes.len() > 0,
        all_entered(scene.nodes, events),
        pure_candidates_ok(scene.comments, events),
    ensures
        scene.pure_hosts_ok(),
{
    assert forall|i: int, j: int|
        0 <= i < scene.comments.len() && 0 <= j < scene.nodes.len() && (
        #[trigger] scene.comments[i]).content == CommentContent::PureNotApplied && (
        #[trigger] scene.nodes[j]).span.end == scene.comments[i].attached_to implies
        scene.nodes[j].span.start <= scene.nodes[j].span.end by {
        let e = choose|e: int|
            0 <= e < events.len() && entered_as(#[trigger] events[e], scene.nodes[j]);
        assert(entered_as(events[e], scene.nodes[j]));
    }
}

/// Assigns every comment of a program to one of the syntax nodes that a traversal of the
/// program enters. The comments are expected in the order of the source; in whatever order
/// they come, each is attached once, to a node of the traversal. A list in an arena has room for
/// no more than `ARENA_LIMIT` of them.
pub fn attach_comments<'a>(
    allocator: &'a Allocator,
    program: &Program<'_>,
    events: &[NodeEvent],
) -> (attachments: CommentAttachments<'a>)
    requires
        program.comments@.len() <= ARENA_LIMIT,
        program.comments@.len() > 0 ==> 0 < enters(events@) < NO_NODE,
        pure_candidates_ok(program.comments@, events@),
    ensures
        comments_in(attachments.comments).len() == program.comments@.len(),
        covers(hosts_in(attachments.hosts), program.comments@.len() as int),
        in_source_order(program.comments@) ==> lays_out(
            attachments,
            scene_of(*program, events@).nodes,
            program.comments@,
            scene_of(*program, events@).assignments(),
        ),
        exists|nodes: Seq<NodeRecord>|
            tree_ok(nodes) && all_entered(nodes, events@) && #[trigger] lays_out(
                attachments,
                nodes,
                program.comments@,
                (Scene {
                    text: program.source_text@,
                    nodes,
                    comments: program.comments@,
                }).assignments(),
            ),
{
    if program.comments.len() == 0 {
        let attachments: CommentAttachments<'a> = CommentAttachments::new_in(allocator);
        proof {
            let scene = scene_of(*program, events@);
            lemma_no_entries(
                scene.nodes,
                scene.comments,
                scene.assignments(),
                scene.nodes.len() as int,
            );
            let none = Seq::<NodeRecord>::empty();
            let bare = Scene { text: program.source_text@, nodes: none, comments: scene.comments };
            lemma_no_entries(none, scene.comments, bare.assignments(), 0);
            assert(lays_out(attachments, none, program.comments@, bare.assignments()));
            assert(lays_out(attachments, scene.nodes, program.comments@, scene.assignments()));
        }
        return attachments;
    }
    let collector = Collector::collect(program.comments, events);
    let nodes: &[NodeRecord] = collector.nodes.as_slice();
    let ghost scene = Scene {
        text: program.source_text@,
        nodes: nodes@,
        comments: program.comments@,
    };
    proof {
        lemma_pure_hosts(scene, events@);
    }
    let assignments: Vec<Assignment> = Attacher::new(
        program.source_text,
        nodes,
        program.comments,
    ).attach();
    let attachments: CommentAttachments<'a> = group_by_host(
        allocator,
        nodes,
        program.comments,
        &assignments,
    );
    proof {
        law_every_comment_is_attached_once(scene, attachments);
    }
    attachments
}

/// Where there is no comment, no node hosts one.
proof fn lemma_no_entries(
    nodes: Seq<NodeRecord>,
    comments: Seq<Comment>,
    assigned: Seq<Assignment>,
    k: int,
)
    requires
        0 <= k,
        comments.len() == 0,
    ensures
        hosted_below(comments, assigned, k, 0) == Seq::<AttachedComment>::empty(),
        host_entries(nodes, comments, assigned, k) == Seq::<CommentAttachmentHost>::empty(),
    decreases k,
{
    if k > 0 {
        lemma_no_entries(nodes, comments, assigned, k - 1);
    }
}

/// One more comment is one more hosted, where its host is among the first nodes.
proof fn lemma_hosted_below_multiset(
    comments: Seq<Comment>,
    assigned: Seq<Assignment>,
    k: int,
    n: int,
)
    requires
        0 <= k,
        0 <= n,
    ensures
        hosted_below(comments, assigned, k, n + 1).to_multiset() == (if assigned[n].host < k {
            hosted_below(comments, assigned, k, n).to_multiset().insert(
                attached(comments[n], assigned[n]),
            )
        } else {
            hosted_below(comments, assigned, k, n).to_multiset()
        }),
    decreases k,
{
    broadcast use vstd::seq_lib::group_to_multiset_ensures;

    if k > 0 {
        lemma_hosted_below_multiset(comments, assigned, k - 1, n);
        vstd::seq_lib::lemma_multiset_commutative(
            hosted_below(comments, assigned, k - 1, n),
            hosted(comments, assigned, k - 1, n),
        );
        vstd::seq_lib::lemma_multiset_commutative(
            hosted_below(comments, assigned, k - 1, n + 1),
            hosted(comments, assigned, k - 1, n + 1),
        );
        assert(hosted_below(comments, assigned, k, n + 1).to_multiset() =~= (if assigned[n].host
            < k {
            hosted_below(comments, assigned, k, n).to_multiset().insert(
                attached(comments[n], assigned[n]),
            )
        } else {
            hosted_below(comments, assigned, k, n).to_multiset()
        }));
    }
}

/// The first `n` comments as their assignments place them, in the order of the source.
pub open spec fn all_attached(
    comments: Seq<Comment>,
    assigned: Seq<Assignment>,
    n: nat,
) -> Seq<AttachedComment> {
    Seq::new(n, |i: int| attached(comments[i], assigned[i]))
}

/// Laid out host by host, the comments are those of the source.
proof fn lemma_all_hosted(comments: Seq<Comment>, assigned: Seq<Assignment>, k: int, n: nat)
    requires
        0 <= k,
        n <= assigned.len(),
        forall|i: int| 0 <= i < n ==> (#[trigger] assigned[i]).host < k,
    ensures
        hosted_below(comments, assigned, k, n as int).to_multiset() == all_attached(
            comments,
            assigned,
            n,
        ).to_multiset(),
    decreases n,
{
    broadcast use vstd::seq_lib::group_to_multiset_ensures;

    if n == 0 {
        lemma_nothing_hosted(comments, assigned, k);
        assert(hosted_below(comments, assigned, k, 0) =~= all_attached(comments, assigned, 0));
    } else {
        let m = (n - 1) as nat;
        lemma_all_hosted(comments, assigned, k, m);
        lemma_hosted_below_multiset(comments, assigned, k, n - 1);
        assert(all_attached(comments, assigned, n) =~= all_attached(comments, assigned, m).push(
            attached(comments[n - 1], assigned[n - 1]),
        ));
    }
}

/// The entries of hosts cover the comments one after the other.
proof fn lemma_entries_cover(
    nodes: Seq<NodeRecord>,
    comments: Seq<Comment>,
    assigned: Seq<Assignment>,
    k: int,
)
    requires
        0 <= k,
        comments.len() <= u32::MAX,
        assigned.len() == comments.len(),
    ensures
        covers(
            host_entries(nodes, comments, assigned, k),
            hosted_below(comments, assigned, k, comments.len() as int).len() as int,
        ),
    decreases k,
{
    if k > 0 {
        lemma_entries_cover(nodes, comments, assigned, k - 1);
        lemma_hosted_below_len(comments, assigned, k, comments.len() as int);
        lemma_hosted_below_len(comments, assigned, k - 1, comments.len() as int);
    }
}

/// The hosts have a part each of the first `total` comments: none is empty, and each starts
/// where the one before it ends.
pub open spec fn covers(hosts: Seq<CommentAttachmentHost>, total: int) -> bool {
    &&& forall|j: int| 0 <= j < hosts.len() ==> (#[trigger] hosts[j]).len > 0
    &&& forall|j: int|
        0 <= j < hosts.len() ==> (#[trigger] hosts[j]).start == (if j == 0 {
            0
        } else {
            hosts[j - 1].start + hosts[j - 1].len
        })
    &&& total == (if hosts.len() == 0 {
        0
    } else {
        hosts.last().start + hosts.last().len
    })
}

/// Every comment of a program is attached, and attached once: what the hosts hold, one after
/// the other, are the comments of the source, each as its assignment places it.
pub proof fn law_every_comment_is_attached_once(scene: Scene, attachments: CommentAttachments<'_>)
    requires
        tree_ok(scene.nodes),
        scene.nodes.len() > 0,
        scene.pure_hosts_ok(),
        scene.comments.len() <= u32::MAX,
        lays_out(attachments, scene.nodes, scene.comments, scene.assignments()),
    ensures
        comments_in(attachments.comments).to_multiset() == all_attached(
            scene.comments,
            scene.assignments(),
            scene.comments.len(),
        ).to_multiset(),
        comments_in(attachments.comments).len() == scene.comments.len(),
        covers(hosts_in(attachments.hosts), scene.comments.len() as int),
{
    let k = scene.nodes.len() as int;
    let assigned = scene.assignments();
    law_hosts_are_nodes(scene);
    lemma_all_hosted(scene.comments, assigned, k, scene.comments.len());
    lemma_hosted_below_len(scene.comments, assigned, k, scene.comments.len() as int);
    lemma_entries_cover(scene.nodes, scene.comments, assigned, k);
}

} // verus!
