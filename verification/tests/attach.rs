//! Comments and the nodes that host them.
use comment_weave::attachments::{attach_comments, CommentAttachments, Program};
use comment_weave::comment::{
    Comment, CommentContent, CommentKind, CommentNewlines, CommentPosition, Span,
};
use comment_weave::attacher::Attacher;
use comment_weave::scene::{Assignment, AttachedCommentPosition};
use comment_weave::tree::{Collector, NodeEvent, NodeInfo, NO_NODE, ROOT_ADDRESS};
use oxc_allocator::Allocator;

fn span_of(source: &str, part: &str) -> Span {
    let start = source.find(part).unwrap();
    Span { start: start as u32, end: (start + part.len()) as u32 }
}

fn comment_at(source: &str, part: &str, attached_to: u32) -> Comment {
    Comment {
        span: span_of(source, part),
        attached_to,
        kind: if part.starts_with("//") { CommentKind::Line } else { CommentKind::SingleLineBlock },
        position: CommentPosition::Leading,
        newlines: CommentNewlines { leading: false, trailing: false },
        content: CommentContent::Plain,
    }
}

/// A node as the traversal reaches it: its address is ten times its kind.
fn enter(kind: u8, span: Span) -> NodeEvent {
    NodeEvent::Enter(NodeInfo { address: kind as usize * 10, kind, span })
}

fn whole(source: &str) -> Span {
    Span { start: 0, end: source.len() as u32 }
}

/// What the hosts hold: the host's kind, the comment's text, its position, whether it is on
/// the host's line, and whether a line break follows it.
fn summary(
    source: &str,
    attachments: &CommentAttachments<'_>,
) -> Vec<(u8, String, AttachedCommentPosition, bool, bool)> {
    let mut out = Vec::new();
    for host in attachments.hosts.iter() {
        for i in host.start..host.start + host.len {
            let attached = attachments.comments[i as usize];
            let span = attached.comment.span;
            out.push((
                host.kind,
                source[span.start as usize..span.end as usize].to_string(),
                attached.position,
                attached.same_line,
                attached.comment.followed_by_newline(),
            ));
        }
    }
    out
}

/// Attaches one comment of a program that has two statements.
fn between(source: &str, comment: &str) -> (u8, AttachedCommentPosition, bool, bool) {
    let allocator = Allocator::default();
    let comments = [comment_at(source, comment, span_of(source, "b;").start)];
    let program = Program { source_text: source, comments: &comments };
    let events = [
        enter(1, whole(source)),
        enter(2, span_of(source, "a;")),
        NodeEvent::Leave,
        enter(3, span_of(source, "b;")),
        NodeEvent::Leave,
        NodeEvent::Leave,
    ];
    let attachments = attach_comments(&allocator, &program, &events);
    let all = summary(source, &attachments);
    assert_eq!(all.len(), 1);
    (all[0].0, all[0].2, all[0].3, all[0].4)
}

#[test]
fn nothing_to_attach() {
    let allocator = Allocator::default();
    let program = Program { source_text: "a;", comments: &[] };
    let attachments = attach_comments(&allocator, &program, &[]);
    assert!(attachments.hosts.is_empty());
    assert!(attachments.comments.is_empty());
}

#[test]
fn a_comment_between_two_nodes_goes_to_the_one_on_its_line() {
    assert_eq!(
        between("a; // x\nb;", "// x"),
        (2, AttachedCommentPosition::After, true, true)
    );
    assert_eq!(
        between("a;\n/* x */ b;", "/* x */"),
        (3, AttachedCommentPosition::Before, true, false)
    );
    // On the line of both, the next one takes it.
    assert_eq!(
        between("a; /* x */ b;", "/* x */"),
        (3, AttachedCommentPosition::Before, true, false)
    );
    // On the line of neither, the next one takes it too.
    assert_eq!(
        between("a;\n// x\nb;", "// x"),
        (3, AttachedCommentPosition::Before, false, false)
    );
}

#[test]
fn every_line_terminator_ends_a_line() {
    for end in ["\n", "\r", "\r\n", "\u{2028}", "\u{2029}"] {
        let source = format!("a; /* x */{end}b;");
        assert_eq!(
            between(&source, "/* x */"),
            (2, AttachedCommentPosition::After, true, true)
        );
    }
    // Neither of these does.
    for space in ["\u{b}", "\u{c}", "\u{85}"] {
        let source = format!("a; /* x */{space}b;");
        assert_eq!(
            between(&source, "/* x */"),
            (3, AttachedCommentPosition::Before, true, false)
        );
    }
}

#[test]
fn comments_before_the_first_and_after_the_last_child() {
    assert_eq!(
        between("// x\na; b;", "// x"),
        (2, AttachedCommentPosition::Before, false, false)
    );
    assert_eq!(
        between("/* x */ a; b;", "/* x */"),
        (2, AttachedCommentPosition::Before, true, false)
    );
    assert_eq!(
        between("a; b; // x", "// x"),
        (3, AttachedCommentPosition::After, true, false)
    );
    assert_eq!(
        between("a; b;\n// x", "// x"),
        (3, AttachedCommentPosition::After, false, false)
    );
}

#[test]
fn a_comment_in_an_empty_node_is_inside_it() {
    let source = "{ /* x */ }";
    let allocator = Allocator::default();
    let comments = [comment_at(source, "/* x */", 10)];
    let program = Program { source_text: source, comments: &comments };
    let events =
        [enter(1, whole(source)), enter(2, whole(source)), NodeEvent::Leave, NodeEvent::Leave];
    let attachments = attach_comments(&allocator, &program, &events);
    assert_eq!(attachments.hosts.len(), 1);
    let host = attachments.hosts[0];
    assert_eq!(host.kind, 2);
    assert_eq!(host.address, 20);
    assert_eq!(host.parent_kind, Some(1));
    assert_eq!(host.span_start, 0);
    assert_eq!(host.node_id, None);
    assert_eq!(attachments.comments[0].position, AttachedCommentPosition::Inside);
    assert!(!attachments.comments[0].same_line);
}

#[test]
fn a_comment_behind_the_root_is_inside_the_root() {
    let source = "a; // x";
    let allocator = Allocator::default();
    let comments = [comment_at(source, "// x", 7)];
    let program = Program { source_text: source, comments: &comments };
    let root = Span { start: 0, end: 2 };
    let events = [enter(1, root), enter(2, root), NodeEvent::Leave, NodeEvent::Leave];
    let attachments = attach_comments(&allocator, &program, &events);
    let host = attachments.hosts[0];
    assert_eq!(host.kind, 1);
    // The root moves once it has been parsed, so its own address is not kept.
    assert_eq!(host.address, ROOT_ADDRESS);
    assert_eq!(host.parent_kind, None);
    assert_eq!(attachments.comments[0].position, AttachedCommentPosition::Inside);
}

#[test]
fn an_annotation_without_effect_trails_the_deepest_node() {
    let source = "foo /* @__PURE__ */ = call()";
    let allocator = Allocator::default();
    let mut comment = comment_at(source, "/* @__PURE__ */", 3);
    comment.content = CommentContent::PureNotApplied;
    let comments = [comment];
    let program = Program { source_text: source, comments: &comments };
    let foo = span_of(source, "foo");
    let events = [
        enter(1, whole(source)),
        enter(2, whole(source)),
        enter(3, foo),
        enter(4, foo),
        NodeEvent::Leave,
        NodeEvent::Leave,
        enter(5, span_of(source, "call()")),
        NodeEvent::Leave,
        NodeEvent::Leave,
        NodeEvent::Leave,
    ];
    let attachments = attach_comments(&allocator, &program, &events);
    assert_eq!(
        summary(source, &attachments),
        vec![(4, "/* @__PURE__ */".to_string(), AttachedCommentPosition::After, true, false)]
    );
    // Without a node that ends there, the root takes it.
    let mut elsewhere = comments;
    elsewhere[0].attached_to = 2;
    let program = Program { source_text: source, comments: &elsewhere };
    let attachments = attach_comments(&allocator, &program, &events);
    assert_eq!(attachments.hosts[0].kind, 1);
}

#[test]
fn of_equally_deep_nodes_the_smallest_is_trailed() {
    let source = "abc";
    let allocator = Allocator::default();
    let mut comment = comment_at(source, "c", 3);
    comment.content = CommentContent::PureNotApplied;
    let comments = [comment];
    let program = Program { source_text: source, comments: &comments };
    let events = [
        enter(1, Span { start: 0, end: 4 }),
        enter(2, Span { start: 2, end: 3 }),
        NodeEvent::Leave,
        enter(3, Span { start: 1, end: 3 }),
        NodeEvent::Leave,
        NodeEvent::Leave,
    ];
    assert_eq!(attach_comments(&allocator, &program, &events).hosts[0].kind, 2);
    // Of equally small ones the last is.
    let events = [
        enter(1, Span { start: 0, end: 4 }),
        enter(2, Span { start: 2, end: 3 }),
        NodeEvent::Leave,
        enter(3, Span { start: 2, end: 3 }),
        NodeEvent::Leave,
        NodeEvent::Leave,
    ];
    assert_eq!(attach_comments(&allocator, &program, &events).hosts[0].kind, 3);
}

#[test]
fn children_are_taken_in_the_order_of_the_source() {
    let source = "a; /* x */ b;";
    let allocator = Allocator::default();
    let comments = [comment_at(source, "/* x */", 11)];
    let program = Program { source_text: source, comments: &comments };
    // The traversal reaches the later child first.
    let events = [
        enter(1, whole(source)),
        enter(3, span_of(source, "b;")),
        NodeEvent::Leave,
        enter(2, span_of(source, "a;")),
        NodeEvent::Leave,
        NodeEvent::Leave,
    ];
    let attachments = attach_comments(&allocator, &program, &events);
    assert_eq!(
        summary(source, &attachments),
        vec![(3, "/* x */".to_string(), AttachedCommentPosition::Before, true, false)]
    );
}

#[test]
fn hosts_cover_the_comments_one_after_the_other() {
    let source = "// 1\na; // 2\n// 3\nb; // 4";
    let allocator = Allocator::default();
    let comments = [
        comment_at(source, "// 1", 5),
        comment_at(source, "// 2", 18),
        comment_at(source, "// 3", 18),
        comment_at(source, "// 4", 25),
    ];
    let program = Program { source_text: source, comments: &comments };
    let events = [
        enter(1, whole(source)),
        enter(2, span_of(source, "a;")),
        NodeEvent::Leave,
        enter(3, span_of(source, "b;")),
        NodeEvent::Leave,
        NodeEvent::Leave,
    ];
    let attachments = attach_comments(&allocator, &program, &events);
    assert_eq!(
        summary(source, &attachments),
        vec![
            (2, "// 1".to_string(), AttachedCommentPosition::Before, false, false),
            (2, "// 2".to_string(), AttachedCommentPosition::After, true, true),
            (3, "// 3".to_string(), AttachedCommentPosition::Before, false, false),
            (3, "// 4".to_string(), AttachedCommentPosition::After, true, false),
        ]
    );
    assert_eq!(attachments.hosts[0].start, 0);
    assert_eq!(attachments.hosts[0].len, 2);
    assert_eq!(attachments.hosts[1].start, 2);
    assert_eq!(attachments.hosts[1].len, 2);
}

#[test]
fn comments_out_of_order_are_attached_once_each() {
    let source = "// 1\na; // 2\n// 3\nb; // 4";
    let allocator = Allocator::default();
    let comments = [
        comment_at(source, "// 4", 25),
        comment_at(source, "// 1", 5),
        comment_at(source, "// 3", 18),
        comment_at(source, "// 2", 18),
    ];
    let program = Program { source_text: source, comments: &comments };
    let events = [
        enter(1, whole(source)),
        enter(2, span_of(source, "a;")),
        NodeEvent::Leave,
        enter(3, span_of(source, "b;")),
        NodeEvent::Leave,
        NodeEvent::Leave,
    ];
    let attachments = attach_comments(&allocator, &program, &events);
    let mut starts: Vec<u32> = attachments.comments.iter().map(|c| c.comment.span.start).collect();
    starts.sort();
    assert_eq!(starts, vec![0, 8, 13, 21]);
}

#[test]
fn nodes_below_an_untouched_node_are_left_out() {
    let source = "a(b); // x";
    let comments = [comment_at(source, "// x", 10)];
    let events = [
        enter(1, whole(source)),
        enter(2, span_of(source, "a(b);")),
        enter(3, span_of(source, "b")),
        NodeEvent::Leave,
        NodeEvent::Leave,
        NodeEvent::Leave,
    ];
    let collector = Collector::collect(&comments, &events);
    let kinds: Vec<u8> = collector.nodes.iter().map(|n| n.kind).collect();
    assert_eq!(kinds, vec![1, 2]);
    assert_eq!(collector.nodes[0].parent, NO_NODE);
    assert_eq!(collector.nodes[0].first_child, 1);
    assert_eq!(collector.nodes[1].parent, 0);
    assert_eq!(collector.nodes[1].depth, 1);
    // A comment that belongs to the end of the node keeps its children in.
    let comments = [comment_at(source, "// x", 5)];
    let collector = Collector::collect(&comments, &events);
    let kinds: Vec<u8> = collector.nodes.iter().map(|n| n.kind).collect();
    assert_eq!(kinds, vec![1, 2, 3]);
    assert_eq!(collector.nodes[2].parent, 1);
}

#[test]
fn anchors_are_sorted_and_distinct() {
    let source = "// 1\na; // 2\n// 3\nb; // 4";
    let comments = [
        comment_at(source, "// 1", 18),
        comment_at(source, "// 2", 5),
        comment_at(source, "// 3", 18),
    ];
    let collector = Collector::new(&comments);
    assert_eq!(collector.anchors, vec![5, 18]);
    assert!(collector.intersects_comment(Span { start: 17, end: 18 }));
    assert!(collector.intersects_comment(Span { start: 0, end: 1 }));
    assert!(!collector.intersects_comment(Span { start: 1, end: 4 }));
}

#[test]
fn leaving_nodes_out_changes_nothing() {
    // `f(a, b); // x` with the call's arguments below it, and the same without them.
    let source = "f(a, b); // x\ng(); // y";
    let comments = [comment_at(source, "// x", 14), comment_at(source, "// y", 23)];
    let call = span_of(source, "f(a, b);");
    let next = span_of(source, "g();");
    let with = [
        enter(1, whole(source)),
        enter(2, call),
        enter(4, span_of(source, "a")),
        NodeEvent::Leave,
        enter(5, span_of(source, "b")),
        NodeEvent::Leave,
        NodeEvent::Leave,
        enter(3, next),
        NodeEvent::Leave,
        NodeEvent::Leave,
    ];
    let without = [
        enter(1, whole(source)),
        enter(2, call),
        NodeEvent::Leave,
        enter(3, next),
        NodeEvent::Leave,
        NodeEvent::Leave,
    ];
    let allocator = Allocator::default();
    let program = Program { source_text: source, comments: &comments };
    let a = summary(source, &attach_comments(&allocator, &program, &with));
    let b = summary(source, &attach_comments(&allocator, &program, &without));
    assert_eq!(a, b);
    assert_eq!(
        a,
        vec![
            (2, "// x".to_string(), AttachedCommentPosition::After, true, true),
            (3, "// y".to_string(), AttachedCommentPosition::After, true, false),
        ]
    );
}

#[test]
fn other_comments_have_no_say_in_the_host() {
    let source = "// 1\na; // 2\n// 3\nb; // 4";
    let events = [
        enter(1, whole(source)),
        enter(2, span_of(source, "a;")),
        NodeEvent::Leave,
        enter(3, span_of(source, "b;")),
        NodeEvent::Leave,
        NodeEvent::Leave,
    ];
    let all = [
        comment_at(source, "// 1", 5),
        comment_at(source, "// 2", 18),
        comment_at(source, "// 3", 18),
        comment_at(source, "// 4", 25),
    ];
    let allocator = Allocator::default();
    let program = Program { source_text: source, comments: &all };
    let together = summary(source, &attach_comments(&allocator, &program, &events));
    for i in 0..all.len() {
        let one = [all[i]];
        let program = Program { source_text: source, comments: &one };
        let alone = summary(source, &attach_comments(&allocator, &program, &events));
        assert_eq!(alone, vec![together[i].clone()]);
    }
}

fn chosen(host: u32, position: AttachedCommentPosition, same_line: bool, force: bool) -> Assignment {
    Assignment { host, position, same_line, force_newline_after: force }
}

#[test]
fn a_gap_needs_no_nodes() {
    let comments = [comment_at("a /*c*/ b", "/*c*/", 8)];
    let mut attacher = Attacher::new("a /*c*/ b", &[], &comments);
    attacher.consume_between(0, Some(1), 1, Some(2), 8);
    assert_eq!(attacher.cursor, 1);
    assert_eq!(
        attacher.assignments,
        vec![chosen(2, AttachedCommentPosition::Before, true, false)]
    );

    let source = "a /*x*/\n/*y*/\n/*z*/ b";
    let comments = [
        comment_at(source, "/*x*/", 20),
        comment_at(source, "/*y*/", 20),
        comment_at(source, "/*z*/", 20),
    ];
    let mut attacher = Attacher::new(source, &[], &comments);
    attacher.consume_between(0, Some(1), 1, Some(2), 20);
    assert_eq!(attacher.cursor, 3);
    assert_eq!(
        attacher.assignments,
        vec![
            chosen(1, AttachedCommentPosition::After, true, true),
            chosen(2, AttachedCommentPosition::Before, false, false),
            chosen(2, AttachedCommentPosition::Before, true, false),
        ]
    );
}

#[test]
fn annotations_without_effect_override_earlier_choices() {
    let source = "a /*x*/ /*y*/";
    let mut pure = comment_at(source, "/*x*/", 1);
    pure.content = CommentContent::PureNotApplied;
    let comments = [pure, comment_at(source, "/*y*/", 13)];
    let events = [
        enter(1, whole(source)),
        enter(2, span_of(source, "a")),
        NodeEvent::Leave,
        NodeEvent::Leave,
    ];
    let collector = Collector::collect(&comments, &events);
    let mut attacher = Attacher::new(source, &collector.nodes, &comments);
    let earlier = chosen(0, AttachedCommentPosition::Inside, false, false);
    attacher.assignments = vec![earlier, earlier];
    attacher.cursor = 2;
    attacher.attach_pure_not_applied();
    assert_eq!(attacher.cursor, 2);
    assert_eq!(
        attacher.assignments,
        vec![chosen(1, AttachedCommentPosition::After, true, false), earlier]
    );
}
