//! Legal comments at the end of the output.
use comment_weave::attachments::Program;
use comment_weave::comment::{
    Comment, CommentContent, CommentKind, CommentNewlines, CommentPosition, Span,
};
use comment_weave::legal::distinct_legal_comments;
use comment_weave::options::{CodegenOptions, CommentOptions, LegalComment};
use comment_weave::printer::Codegen;

fn legal_at(source: &str, part: &str, nth: usize) -> Comment {
    let start = source.match_indices(part).nth(nth).unwrap().0;
    Comment {
        span: Span { start: start as u32, end: (start + part.len()) as u32 },
        attached_to: 0,
        kind: if part.starts_with("//") {
            CommentKind::Line
        } else if part.contains('\n') {
            CommentKind::MultiLineBlock
        } else {
            CommentKind::SingleLineBlock
        },
        position: CommentPosition::Leading,
        newlines: CommentNewlines { leading: false, trailing: false },
        content: CommentContent::Legal,
    }
}

const SOURCE: &str =
    "//! a\n/*! b */ //! a\n/*!\n * c\n */ /* n */\n    /*!\n     * c\n     */ /*! </script> */";

fn comments() -> Vec<Comment> {
    let mut plain = legal_at(SOURCE, "/* n */", 0);
    plain.content = CommentContent::Plain;
    let mut behind = legal_at(SOURCE, "/*! b */", 0);
    behind.position = CommentPosition::Trailing;
    vec![
        legal_at(SOURCE, "//! a", 0),
        legal_at(SOURCE, "/*! b */", 0),
        legal_at(SOURCE, "//! a", 1),
        legal_at(SOURCE, "/*!\n * c\n */", 0),
        plain,
        behind,
        legal_at(SOURCE, "/*!\n     * c\n     */", 0),
        legal_at(SOURCE, "/*! </script> */", 0),
    ]
}

fn with(legal: LegalComment) -> (String, Vec<u32>) {
    let all = comments();
    let options = CodegenOptions {
        minify: false,
        comments: CommentOptions { normal: true, jsdoc: true, annotation: true, legal },
    };
    let mut codegen = Codegen::new(options, Some(SOURCE));
    codegen.indent = 1;
    codegen.print_str("x");
    codegen.print_next_indent_as_space = true;
    let program = Program { source_text: SOURCE, comments: &all };
    let handed_out = codegen.handle_eof_linked_or_external_comments(&program);
    (codegen.code, handed_out.iter().map(|c| c.span.start).collect())
}

/// Where the distinct comments start.
fn distinct() -> Vec<u32> {
    let all = comments();
    vec![
        all[0].span.start,
        all[1].span.start,
        all[3].span.start,
        all[7].span.start,
    ]
}

#[test]
fn repeated_legal_comments_are_dropped() {
    let kept = distinct_legal_comments(SOURCE, &comments());
    let starts: Vec<u32> = kept.iter().map(|c| c.span.start).collect();
    assert_eq!(starts, distinct());
    // Indentation does not make a difference, anything else does.
    let source = "/*!\n c */ /*!\n c*/ /*!\n\tc */";
    let all = [
        legal_at(source, "/*!\n c */", 0),
        legal_at(source, "/*!\n c*/", 0),
        legal_at(source, "/*!\n\tc */", 0),
    ];
    let kept = distinct_legal_comments(source, &all);
    assert_eq!(kept, vec![all[0], all[1]]);
}

#[test]
fn omitted_and_inline_legal_comments_are_not_moved() {
    assert_eq!(with(LegalComment::Omit), ("x".to_string(), vec![]));
    assert_eq!(with(LegalComment::Inline), ("x".to_string(), vec![]));
}

#[test]
fn legal_comments_at_the_end() {
    let (text, handed_out) = with(LegalComment::Eof);
    assert_eq!(
        text,
        "x\n//! a\n/*! b */\n/*!\n\t* c\n\t*/\n/*! <\\/script> */\n"
    );
    assert!(handed_out.is_empty());
}

#[test]
fn linked_legal_comments_leave_a_link() {
    let (text, handed_out) = with(LegalComment::Linked("a.LEGAL.txt".to_string()));
    assert_eq!(text, "x\n/*! For license information please see a.LEGAL.txt */");
    assert_eq!(handed_out, distinct());
}

#[test]
fn external_legal_comments_are_handed_out() {
    assert_eq!(with(LegalComment::External), ("x".to_string(), distinct()));
}

#[test]
fn without_legal_comments_nothing_is_added() {
    for legal in [
        LegalComment::Eof,
        LegalComment::External,
        LegalComment::Linked("a".to_string()),
    ] {
        let options = CodegenOptions {
            minify: false,
            comments: CommentOptions { normal: true, jsdoc: true, annotation: true, legal },
        };
        let mut codegen = Codegen::new(options, Some("/* n */"));
        let mut plain = legal_at("/* n */", "/* n */", 0);
        plain.content = CommentContent::Plain;
        let all = [plain];
        let program = Program { source_text: "/* n */", comments: &all };
        assert!(codegen.handle_eof_linked_or_external_comments(&program).is_empty());
        assert_eq!(codegen.code, "");
    }
}
