//! Comments as they are printed.
use comment_weave::comment::{
    Comment, CommentContent, CommentKind, CommentNewlines, CommentPosition, Span,
};
use comment_weave::expression::{is_pife_function, Expression};
use comment_weave::options::{CodegenOptions, CommentOptions, LegalComment};
use comment_weave::printer::Codegen;
use comment_weave::selection::{is_html_comment, preserve_when_orphaned, AnnotationKind};

fn everything() -> CodegenOptions {
    CodegenOptions {
        minify: false,
        comments: CommentOptions {
            normal: true,
            jsdoc: true,
            annotation: true,
            legal: LegalComment::Inline,
        },
    }
}

/// A leading comment of the source without line breaks around it.
fn comment_at(source: &str, part: &str, attached_to: u32, content: CommentContent) -> Comment {
    let start = source.find(part).unwrap();
    let line = part.starts_with("//") || part.starts_with("<!--") || part.starts_with("-->");
    Comment {
        span: Span { start: start as u32, end: (start + part.len()) as u32 },
        attached_to,
        kind: if line {
            CommentKind::Line
        } else if part.contains(['\n', '\r', '\u{2028}', '\u{2029}']) {
            CommentKind::MultiLineBlock
        } else {
            CommentKind::SingleLineBlock
        },
        position: CommentPosition::Leading,
        newlines: CommentNewlines { leading: false, trailing: false },
        content,
    }
}

fn normal(source: &str, part: &str, attached_to: u32) -> Comment {
    comment_at(source, part, attached_to, CommentContent::Plain)
}

fn trailing(mut comment: Comment) -> Comment {
    comment.position = CommentPosition::Trailing;
    comment
}

fn on_own_line(mut comment: Comment) -> Comment {
    comment.newlines = CommentNewlines { leading: true, trailing: true };
    comment
}

fn printer<'a>(source: &'a str, comments: &[Comment]) -> Codegen<'a> {
    let mut codegen = Codegen::new(everything(), Some(source));
    codegen.build_comments(comments);
    codegen
}

/// What is printed, with `_` for a space that is still to come.
fn printed(codegen: &Codegen<'_>) -> String {
    let mut out = codegen.code.clone();
    if codegen.print_next_indent_as_space {
        out.push('_');
    }
    out
}

#[test]
fn a_block_is_followed_by_a_space_and_a_line_comment_by_a_line_break() {
    let source = "/* a */ // b";
    let mut codegen = printer(source, &[normal(source, "/* a */", 8), normal(source, "// b", 9)]);
    codegen.print_leading_comments(8);
    assert_eq!(printed(&codegen), "/* a */_");
    codegen.print_leading_comments(9);
    assert_eq!(printed(&codegen), "/* a */ // b\n");
    // Each comment is printed once.
    codegen.print_leading_comments(8);
    codegen.print_leading_comments(9);
    assert_eq!(printed(&codegen), "/* a */ // b\n");
}

#[test]
fn a_block_that_had_a_line_break_behind_it_keeps_it() {
    let source = "/* a */\nx";
    let mut comment = normal(source, "/* a */", 8);
    comment.set_followed_by_newline(true);
    let mut codegen = printer(source, &[comment]);
    codegen.print_leading_comments(8);
    assert_eq!(printed(&codegen), "/* a */\n");
}

#[test]
fn indentation_comes_at_the_start_of_a_line_only() {
    let source = "/* a */ x";
    let comments = [normal(source, "/* a */", 8)];
    let mut codegen = printer(source, &comments);
    codegen.indent = 2;
    codegen.print_leading_comments(8);
    assert_eq!(printed(&codegen), "\t\t/* a */_");

    let mut codegen = printer(source, &comments);
    codegen.indent = 2;
    codegen.print_str("a ?? ");
    codegen.print_leading_comments(8);
    assert_eq!(printed(&codegen), "a ?? /* a */_");

    let mut codegen = printer(source, &comments);
    codegen.indent = 2;
    codegen.print_str("a;\n");
    codegen.print_leading_comments(8);
    assert_eq!(printed(&codegen), "a;\n\t\t/* a */_");
}

#[test]
fn a_comment_on_its_own_line_gets_one() {
    let source = "x;\n/* a */\ny";
    let comments = [on_own_line(normal(source, "/* a */", 11))];
    let mut codegen = printer(source, &comments);
    codegen.indent = 1;
    codegen.print_str("x;");
    codegen.print_leading_comments(11);
    assert_eq!(printed(&codegen), "x;\n\t/* a */\n");

    let mut codegen = printer(source, &comments);
    codegen.indent = 1;
    codegen.print_str("x;\n");
    codegen.print_leading_comments(11);
    assert_eq!(printed(&codegen), "x;\n\t/* a */\n");

    let mut codegen = printer(source, &comments);
    codegen.indent = 1;
    codegen.print_str("x;\n\t");
    codegen.print_leading_comments(11);
    assert_eq!(printed(&codegen), "x;\n\t/* a */\n");

    let mut codegen = printer(source, &comments);
    codegen.indent = 1;
    codegen.print_leading_comments(11);
    assert_eq!(printed(&codegen), "/* a */\n");
}

#[test]
fn comments_of_a_group_are_kept_apart() {
    let source = "/* a */ /* b */ /*! c */ /* d */";
    let mut codegen = printer(
        source,
        &[
            normal(source, "/* a */", 40),
            normal(source, "/* b */", 40),
            comment_at(source, "/*! c */", 40, CommentContent::Legal),
            on_own_line(normal(source, "/* d */", 40)),
        ],
    );
    codegen.indent = 1;
    codegen.print_str("x");
    codegen.print_leading_comments(40);
    assert_eq!(printed(&codegen), "x/* a */ /* b */\n/*! c */\n\t/* d */\n");
}

#[test]
fn nothing_is_spent_on_space_when_it_is_saved() {
    let source = "/* a */ /* b */\n/*\n  * c\n  */";
    let mut options = everything();
    options.minify = true;
    let mut codegen = Codegen::new(options, Some(source));
    codegen.indent = 3;
    codegen.build_comments(&[
        normal(source, "/* a */", 40),
        normal(source, "/* b */", 40),
        normal(source, "/*\n  * c\n  */", 40),
    ]);
    codegen.print_leading_comments(40);
    assert_eq!(printed(&codegen), "/* a *//* b *//*\n* c\n*/_");
}

#[test]
fn a_long_block_is_indented_anew() {
    let source = "/*\n      * a\n  */ x";
    let comments = [normal(source, "/*\n      * a\n  */", 20)];
    let mut codegen = printer(source, &comments);
    codegen.indent = 1;
    codegen.print_leading_comments(20);
    assert_eq!(printed(&codegen), "\t/*\n\t* a\n\t*/_");
}

#[test]
fn lines_end_at_every_line_terminator() {
    for end in ["\n", "\r", "\r\n", "\u{2028}", "\u{2029}"] {
        let source = format!("/* a{end}\u{3000}\u{a0} b*/");
        let mut codegen = printer(&source, &[normal(&source, &source, 40)]);
        codegen.print_leading_comments(40);
        assert_eq!(printed(&codegen), "/* a\nb*/_");
    }
    // Two breaks leave an empty line, and one at the end opens none.
    let source = "/* a\n\r\n*/";
    let mut codegen = printer(source, &[normal(source, source, 40)]);
    codegen.print_leading_comments(40);
    assert_eq!(printed(&codegen), "/* a\n\n*/_");
}

#[test]
fn the_pending_space_stands_in_for_the_first_indentation() {
    let source = "/* a */ /* b\n*/";
    let mut codegen =
        printer(source, &[normal(source, "/* a */", 40), normal(source, "/* b\n*/", 41)]);
    codegen.indent = 2;
    codegen.print_leading_comments(40);
    codegen.print_leading_comments(41);
    assert_eq!(printed(&codegen), "\t\t/* a */ /* b\n\t\t*/_");
    codegen.print_indent();
    assert_eq!(printed(&codegen), "\t\t/* a */ /* b\n\t\t*/ ");
    codegen.print_indent();
    assert_eq!(printed(&codegen), "\t\t/* a */ /* b\n\t\t*/ \t\t");
}

#[test]
fn a_script_element_is_not_closed() {
    let source = "/* </script> </SCRIPT </scrip </</scRipt */";
    let mut codegen = printer(source, &[normal(source, source, 60)]);
    codegen.print_leading_comments(60);
    assert_eq!(printed(&codegen), "/* <\\/script> <\\/SCRIPT </scrip </<\\/scRipt */_");
    // What has been escaped stays as it is.
    let once = codegen.code.clone();
    let mut codegen = printer(&once, &[normal(&once, &once, 60)]);
    codegen.print_leading_comments(60);
    assert_eq!(codegen.code, once);
}

#[test]
fn without_the_source_nothing_but_space_is_printed() {
    let source = "/* a */ // b";
    let mut codegen = Codegen::new(everything(), None);
    codegen.build_comments(&[normal(source, "/* a */", 8), normal(source, "// b", 8)]);
    codegen.print_leading_comments(8);
    assert_eq!(printed(&codegen), " \n");
}

#[test]
fn options_choose_the_comments() {
    let source = "/* n *//** j *//* @vite-ignore *//*! l *//* @__PURE__ *//** @license */";
    let all = [
        normal(source, "/* n */", 80),
        comment_at(source, "/** j */", 80, CommentContent::Jsdoc),
        comment_at(source, "/* @vite-ignore */", 80, CommentContent::Vite),
        comment_at(source, "/*! l */", 80, CommentContent::Legal),
        comment_at(source, "/* @__PURE__ */", 80, CommentContent::Pure),
        comment_at(source, "/** @license */", 80, CommentContent::JsdocLegal),
    ];
    let with = |normal: bool, jsdoc: bool, annotation: bool, legal: LegalComment| {
        let options = CodegenOptions {
            minify: true,
            comments: CommentOptions { normal, jsdoc, annotation, legal },
        };
        let mut codegen = Codegen::new(options, Some(source));
        codegen.build_comments(&all);
        codegen.print_all_remaining_comments();
        codegen.code
    };
    assert_eq!(with(true, false, false, LegalComment::Omit), "/* n */\n");
    // A legal comment starts a line of its own.
    assert_eq!(with(false, true, false, LegalComment::Omit), "/** j */\n/** @license */\n");
    assert_eq!(with(false, false, true, LegalComment::Omit), "/* @vite-ignore *//* @__PURE__ */\n");
    assert_eq!(with(false, false, false, LegalComment::Inline), "/*! l */\n/** @license */\n");
    assert_eq!(with(false, false, false, LegalComment::Omit), "");
    assert_eq!(with(false, false, false, LegalComment::Eof), "");
    // Only leading annotations steer tree shaking, and only leading comments are legal.
    let mut codegen = Codegen::new(everything(), Some(source));
    codegen.build_comments(&[trailing(all[4]), trailing(all[3])]);
    assert!(!codegen.has_remaining_comments_in_span(Span { start: 0, end: 100 }));
}

#[test]
fn disabled_options_leave_the_printer_as_it_is() {
    let source = "/* a */";
    let options = CodegenOptions { minify: false, comments: CommentOptions::disabled() };
    assert!(options.comments.is_disabled());
    assert!(!everything().comments.is_disabled());
    let mut codegen = printer(source, &[normal(source, "/* a */", 7)]);
    codegen.options = options;
    codegen.build_comments(&[]);
    assert!(codegen.has_comment(7));
    codegen.options = everything();
    codegen.build_comments(&[]);
    assert!(!codegen.has_comment(7));
}

#[test]
fn has_comment_passes_over_tree_shaking_annotations() {
    let source = "/* @__PURE__ */ /* a */";
    let pure = comment_at(source, "/* @__PURE__ */", 8, CommentContent::Pure);
    assert!(!printer(source, &[pure]).has_comment(8));
    let codegen = printer(source, &[pure, normal(source, "/* a */", 8)]);
    assert!(codegen.has_comment(8));
    assert!(!codegen.has_comment(7));
    let codegen = printer(source, &[trailing(normal(source, "/* a */", 8))]);
    assert!(codegen.has_comment(8));
}

#[test]
fn canonical_annotations() {
    assert_eq!(AnnotationKind::Pure.canonical(false), "/* @__PURE__ */ ");
    assert_eq!(AnnotationKind::Pure.canonical(true), "/* @__PURE__ */\n");
    assert_eq!(AnnotationKind::NoSideEffects.canonical(false), "/* @__NO_SIDE_EFFECTS__ */ ");
    assert_eq!(AnnotationKind::NoSideEffects.canonical(true), "/* @__NO_SIDE_EFFECTS__ */\n");
}

#[test]
fn an_annotation_is_printed_in_the_words_of_the_source() {
    let source = "/* #__PURE__ */ f()";
    let pure = comment_at(source, "/* #__PURE__ */", 16, CommentContent::Pure);
    let mut codegen = printer(source, &[pure]);
    codegen.print_annotation_comment(16, AnnotationKind::Pure, false);
    assert_eq!(printed(&codegen), "/* #__PURE__ */ ");
    // It is spent now.
    codegen.print_annotation_comment(16, AnnotationKind::Pure, false);
    assert_eq!(printed(&codegen), "/* #__PURE__ */ /* @__PURE__ */ ");

    let mut codegen = printer(source, &[pure]);
    codegen.print_annotation_comment(16, AnnotationKind::Pure, true);
    assert_eq!(printed(&codegen), "/* #__PURE__ */\n");
}

#[test]
fn an_annotation_at_another_boundary_stays_there() {
    let source = "/* #__PURE__ */ f()";
    let pure = comment_at(source, "/* #__PURE__ */", 16, CommentContent::Pure);
    for start in [15, 17, 19] {
        let mut codegen = printer(source, &[pure]);
        codegen.print_annotation_comment(start, AnnotationKind::Pure, false);
        assert_eq!(printed(&codegen), "/* @__PURE__ */ ");
        assert!(codegen.has_remaining_comments_in_span(Span { start: 16, end: 16 }));
    }
}

#[test]
fn of_two_kinds_at_one_boundary_one_is_printed() {
    let source = "/* @__PURE__ */ /* @__NO_SIDE_EFFECTS__ */ f()";
    let comments = [
        comment_at(source, "/* @__PURE__ */", 43, CommentContent::Pure),
        comment_at(source, "/* @__NO_SIDE_EFFECTS__ */", 43, CommentContent::NoSideEffects),
    ];
    let mut codegen = printer(source, &comments);
    codegen.print_annotation_comment(43, AnnotationKind::Pure, false);
    assert_eq!(printed(&codegen), "/* @__PURE__ */ ");
    assert!(codegen.has_remaining_comments_in_span(Span { start: 43, end: 43 }));
    codegen.print_annotation_comment(43, AnnotationKind::NoSideEffects, true);
    assert_eq!(printed(&codegen), "/* @__PURE__ */ /* @__NO_SIDE_EFFECTS__ */\n");
    assert!(!codegen.has_remaining_comments_in_span(Span { start: 43, end: 43 }));
}

#[test]
fn an_annotation_falls_back_to_the_canonical_words() {
    let source = "/* #__PURE__ */ f()";
    let pure = comment_at(source, "/* #__PURE__ */", 16, CommentContent::Pure);
    // None before the node.
    let mut codegen = printer(source, &[pure]);
    codegen.print_annotation_comment(15, AnnotationKind::Pure, false);
    assert_eq!(printed(&codegen), "/* @__PURE__ */ ");
    // The other kind.
    let mut codegen = printer(source, &[pure]);
    codegen.print_annotation_comment(16, AnnotationKind::NoSideEffects, true);
    assert_eq!(printed(&codegen), "/* @__NO_SIDE_EFFECTS__ */\n");
    // A line comment where the line cannot be broken.
    let source = "// #__PURE__\nf()";
    let pure = comment_at(source, "// #__PURE__", 13, CommentContent::Pure);
    let mut codegen = printer(source, &[pure]);
    codegen.print_annotation_comment(13, AnnotationKind::Pure, false);
    assert_eq!(printed(&codegen), "/* @__PURE__ */ ");
    codegen.print_annotation_comment(13, AnnotationKind::Pure, true);
    assert_eq!(printed(&codegen), "/* @__PURE__ */ // #__PURE__\n");
    // No source.
    let mut codegen = Codegen::new(everything(), None);
    codegen.build_comments(&[pure]);
    codegen.print_annotation_comment(13, AnnotationKind::Pure, true);
    assert_eq!(printed(&codegen), "/* @__PURE__ */\n");
}

#[test]
fn comments_beside_an_annotation_are_printed_with_it() {
    let source = "/* a */ /* #__PURE__ */ // b\nf()";
    let comments = [
        normal(source, "/* a */", 29),
        comment_at(source, "/* #__PURE__ */", 29, CommentContent::Pure),
        normal(source, "// b", 29),
    ];
    let mut codegen = printer(source, &comments);
    codegen.print_annotation_comment(29, AnnotationKind::Pure, false);
    assert_eq!(printed(&codegen), "/* a */ /* #__PURE__ */ ");
    assert!(codegen.has_comment(29));
    let mut codegen = printer(source, &comments);
    codegen.print_annotation_comment(29, AnnotationKind::Pure, true);
    assert_eq!(printed(&codegen), "/* a */ /* #__PURE__ */ // b\n");
    assert!(!codegen.has_comment(29));
}

#[test]
fn comments_at_a_boundary_come_in_the_order_of_the_source() {
    let source = "x /* a */ /* b */ y";
    let comments = [
        normal(source, "/* b */", 18),
        trailing(normal(source, "/* a */", 18)),
        comment_at(source, "x", 18, CommentContent::Pure),
    ];
    let mut codegen = printer(source, &comments);
    let list = codegen.get_comments(18).unwrap();
    let starts: Vec<u32> = list.items().iter().map(|c| c.span.start).collect();
    assert_eq!(starts, vec![2, 10]);
    assert!(codegen.get_comments(18).is_none());

    let mut codegen = printer(source, &comments);
    codegen.print_comments_at(18);
    assert_eq!(printed(&codegen), "/* a */ /* b */_");
    // The annotation is left.
    assert!(codegen.has_remaining_comments_in_span(Span { start: 18, end: 18 }));
}

#[test]
fn attached_comments_leave_those_with_places_of_their_own() {
    let source = "/* n *//** j *//* @vite-ignore *//* @__PURE__ *//* @__KEY__ *//* p *//*! l */";
    let comments = [
        normal(source, "/* n */", 80),
        comment_at(source, "/** j */", 80, CommentContent::Jsdoc),
        comment_at(source, "/* @vite-ignore */", 80, CommentContent::Vite),
        comment_at(source, "/* @__PURE__ */", 80, CommentContent::Pure),
        comment_at(source, "/* @__KEY__ */", 80, CommentContent::PropertyKey),
        comment_at(source, "/* p */", 80, CommentContent::PureNotApplied),
        comment_at(source, "/*! l */", 80, CommentContent::Legal),
    ];
    let mut codegen = printer(source, &comments);
    assert!(codegen.has_attached_comments_at(80));
    codegen.print_attached_comments_at(80);
    assert_eq!(printed(&codegen), "/** j */ /* @vite-ignore */ ");
    assert!(!codegen.has_attached_comments_at(80));
    codegen.print_attached_comments_at(80);
    assert_eq!(printed(&codegen), "/** j */ /* @vite-ignore */ ");
    codegen.print_normal_comments_at(80);
    assert_eq!(printed(&codegen), "/** j */ /* @vite-ignore */ /* n */ ");
}

#[test]
fn normal_comments_are_left_to_other_places() {
    let source = "/* n */ x";
    for suppress in [false, true] {
        let mut codegen = printer(source, &[normal(source, "/* n */", 8)]);
        codegen.suppress_normal_comments = suppress;
        assert!(!codegen.has_attached_comments_at(8));
        codegen.print_attached_comments_at(8);
        assert_eq!(printed(&codegen), "");
        assert!(codegen.has_comment(8));
    }
}

#[test]
fn a_line_break_takes_no_space_behind_it() {
    let source = "// n\nx";
    let mut codegen = printer(source, &[normal(source, "// n", 5)]);
    codegen.print_normal_comments_at(5);
    assert_eq!(printed(&codegen), "// n\n");
}

#[test]
fn trailing_normal_comments_come_behind_a_space() {
    let source = "x /* a */ /** j */";
    let mut codegen = printer(
        source,
        &[
            trailing(normal(source, "/* a */", 1)),
            trailing(comment_at(source, "/** j */", 1, CommentContent::Vite)),
        ],
    );
    codegen.print_str("x");
    codegen.print_trailing_normal_comments_at(1);
    assert_eq!(printed(&codegen), "x /* a */");
    codegen.print_trailing_normal_comments_at(1);
    assert_eq!(printed(&codegen), "x /* a */");
    codegen.print_trailing_attached_comments_at(1);
    assert_eq!(printed(&codegen), "x /* a */ /** j */");
}

#[test]
fn trailing_comments_in_the_html_style_are_left() {
    let source = "x /* a */ <!-- h\n--> i\n// b";
    let a = trailing(normal(source, "/* a */", 1));
    let h = trailing(normal(source, "<!-- h", 1));
    let i = trailing(normal(source, "--> i", 1));
    let b = trailing(normal(source, "// b", 1));
    assert!(is_html_comment(h, Some(source)));
    assert!(is_html_comment(i, Some(source)));
    assert!(!is_html_comment(b, Some(source)));
    assert!(!is_html_comment(a, Some(source)));
    assert!(!is_html_comment(h, None));

    let mut codegen = printer(source, &[a, h, i, b]);
    codegen.print_str("x");
    codegen.print_trailing_attached_comments_at(1);
    assert_eq!(printed(&codegen), "x /* a */ // b\n");
    assert!(codegen.has_comment(1));

    let mut codegen = printer(source, &[h, i]);
    codegen.print_str("x");
    codegen.print_trailing_attached_comments_at(1);
    assert_eq!(printed(&codegen), "x");
}

fn span(start: u32, end: u32) -> Span {
    Span { start, end }
}

fn parenthesized(start: u32, end: u32, inner: Expression) -> Expression {
    Expression::Parenthesized { span: span(start, end), expression: Box::new(inner) }
}

#[test]
fn a_function_to_be_compiled_at_once_is_seen_through_parentheses() {
    let arrow = |pife: bool| Expression::ArrowFunction { span: span(1, 9), pife };
    let function = |pife: bool| Expression::Function { span: span(1, 9), pife };
    assert!(is_pife_function(&arrow(true)));
    assert!(!is_pife_function(&arrow(false)));
    assert!(is_pife_function(&function(true)));
    assert!(!is_pife_function(&function(false)));
    assert!(is_pife_function(&parenthesized(0, 10, parenthesized(0, 10, function(true)))));
    assert!(!is_pife_function(&parenthesized(0, 10, arrow(false))));
    assert!(!is_pife_function(&Expression::Object { span: span(0, 2) }));
    assert!(!is_pife_function(&Expression::Other { span: span(0, 2) }));
}

#[test]
fn comments_are_found_at_each_parenthesis() {
    let source = "/* a */ (/* b */ x)";
    let comments = [normal(source, "/* a */", 8), normal(source, "/* b */", 17)];
    let expression = parenthesized(8, 19, Expression::Other { span: span(17, 18) });
    let mut codegen = printer(source, &comments);
    codegen.print_leading_comments_before_expression(&expression);
    assert_eq!(printed(&codegen), "/* a */ /* b */ ");

    // Normal comments alone have no meaning of their own; beside a jsdoc they come with it.
    let mut codegen = printer(source, &comments);
    codegen.print_attached_comments_before_expression(&expression);
    assert_eq!(printed(&codegen), "");
    let documented = [comment_at(source, "/* a */", 17, CommentContent::Jsdoc), comments[1]];
    let mut codegen = printer(source, &documented);
    codegen.print_attached_comments_before_expression(&expression);
    assert_eq!(printed(&codegen), "/* a */ /* b */ ");

    // Normal comments are not for places that statements have been moved into.
    let mut codegen = printer(source, &comments);
    codegen.print_annotation_comments_before_expression(&expression);
    assert_eq!(printed(&codegen), "");
    let annotations = [
        comment_at(source, "/* a */", 8, CommentContent::Webpack),
        comment_at(source, "/* b */", 17, CommentContent::Turbopack),
    ];
    let mut codegen = printer(source, &annotations);
    codegen.print_annotation_comments_before_expression(&expression);
    assert_eq!(printed(&codegen), "/* a */ /* b */ ");
}

#[test]
fn an_object_prints_its_own_attached_comments() {
    let source = "/* a */ (/* b */ {})";
    let comments = [
        comment_at(source, "/* a */", 8, CommentContent::Jsdoc),
        comment_at(source, "/* b */", 17, CommentContent::Jsdoc),
    ];
    let expression = parenthesized(8, 20, Expression::Object { span: span(17, 19) });
    let mut codegen = printer(source, &comments);
    codegen.print_attached_comments_before_expression(&expression);
    assert_eq!(printed(&codegen), "/* a */ ");
    let mut codegen = printer(source, &comments);
    codegen.print_leading_comments_before_expression(&expression);
    assert_eq!(printed(&codegen), "/* a */ /* b */ ");
}

#[test]
fn a_function_in_its_own_parentheses_keeps_its_comments() {
    let source = "/* a */ () => {}";
    let comments = [normal(source, "/* a */", 8)];
    let function = Expression::ArrowFunction { span: span(8, 16), pife: true };
    let mut codegen = printer(source, &comments);
    codegen.print_leading_comments_before_expression(&function);
    codegen.print_attached_comments_before_expression(&function);
    codegen.print_annotation_comments_before_expression(&function);
    assert_eq!(printed(&codegen), "");
    assert!(codegen.has_comment(8));
}

#[test]
fn the_next_token_is_indented_behind_a_line_comment() {
    let source = "// a\nx";
    let comments = [normal(source, "// a", 5)];
    let mut codegen = printer(source, &comments);
    codegen.indent = 1;
    codegen.print_str("y ||");
    codegen.print_leading_comments_anchored_to_self(5);
    assert_eq!(printed(&codegen), "y ||// a\n\t");

    let mut codegen = printer(source, &comments);
    codegen.indent = 1;
    codegen.print_leading_comments_before_expression(&Expression::Other { span: span(5, 6) });
    assert_eq!(printed(&codegen), "\t// a\n\t");
}

#[test]
fn a_property_key_annotation_brings_its_neighbours() {
    let source = "/* a */ /* @__KEY__ */ 'x'";
    let a = normal(source, "/* a */", 23);
    let key = comment_at(source, "/* @__KEY__ */", 23, CommentContent::PropertyKey);
    let mut codegen = printer(source, &[a, key]);
    assert!(codegen.has_property_key_annotations);
    codegen.print_property_key_annotation(22);
    assert_eq!(printed(&codegen), "");
    codegen.print_property_key_annotation(23);
    assert_eq!(printed(&codegen), "/* a */ /* @__KEY__ */ ");

    let mut codegen = printer(source, &[a]);
    assert!(!codegen.has_property_key_annotations);
    codegen.print_property_key_annotation(23);
    assert_eq!(printed(&codegen), "");

    let mut codegen = printer(source, &[a, key]);
    codegen.has_property_key_annotations = false;
    codegen.print_property_key_annotation(23);
    assert_eq!(printed(&codegen), "");
}

#[test]
fn orphans_that_keep_their_meaning_are_printed_in_order() {
    let source = "/*! b */ /* v8 ignore file */ /* n */ /*! a */";
    let late = comment_at(source, "/*! b */", 60, CommentContent::Legal);
    let file = comment_at(source, "/* v8 ignore file */", 50, CommentContent::CoverageIgnoreFile);
    let plain = normal(source, "/* n */", 50);
    let beyond = comment_at(source, "/*! a */", 70, CommentContent::Legal);
    assert!(preserve_when_orphaned(late));
    assert!(preserve_when_orphaned(file));
    assert!(!preserve_when_orphaned(plain));
    let mut codegen = printer(source, &[late, file, plain, beyond]);
    assert!(!codegen.has_orphan_comments_before(50));
    assert!(codegen.has_orphan_comments_before(51));
    assert!(codegen.has_orphan_comments_before(70));
    codegen.print_orphan_comments_before(70);
    assert_eq!(printed(&codegen), "/*! b */ /* v8 ignore file */\n");
    assert!(!codegen.has_orphan_comments_before(70));
    assert!(codegen.has_orphan_comments_before(71));
    assert!(codegen.has_comment(50));
    codegen.print_orphan_comments_before(0);
    assert_eq!(printed(&codegen), "/*! b */ /* v8 ignore file */\n");
}

#[test]
fn comments_strictly_between_two_boundaries() {
    let source = "/* a */ /* b */ /* c */ /* @__PURE__ */";
    let comments = [
        normal(source, "/* a */", 10),
        normal(source, "/* b */", 12),
        trailing(normal(source, "/* c */", 11)),
        comment_at(source, "/* @__PURE__ */", 11, CommentContent::Pure),
    ];
    let mut codegen = printer(source, &comments);
    assert!(codegen.has_comments_in_range(10, 12));
    assert!(codegen.has_comments_in_range(9, 11));
    assert!(!codegen.has_comments_in_range(12, 20));
    assert!(!codegen.has_comments_in_range(12, 10));
    assert!(!codegen.has_comments_in_range(11, 11));
    assert!(!codegen.has_comments_in_range(u32::MAX, u32::MAX));
    assert!(codegen.print_comments_in_range(9, 13));
    assert_eq!(printed(&codegen), "/* a */ /* b */ /* c */_");
    assert!(!codegen.print_comments_in_range(9, 13));
    // What steers tree shaking is there still.
    assert!(codegen.has_comments_in_range(9, 13));
}

#[test]
fn what_is_left_in_a_span_is_printed() {
    let source = "/* b */ /* a */ /* c */";
    let comments = [
        normal(source, "/* a */", 10),
        normal(source, "/* b */", 12),
        normal(source, "/* c */", 13),
    ];
    let mut codegen = printer(source, &comments);
    codegen.print_str("{");
    assert!(codegen.has_remaining_comments_in_span(span(12, 12)));
    assert!(!codegen.has_remaining_comments_in_span(span(11, 11)));
    assert!(!codegen.has_remaining_comments_in_span(span(12, 10)));
    codegen.print_remaining_comments_in_span(span(10, 12));
    assert_eq!(printed(&codegen), "{ /* b */ /* a */\n");
    codegen.print_remaining_comments_in_span(span(10, 12));
    assert_eq!(printed(&codegen), "{ /* b */ /* a */\n");
    codegen.print_all_remaining_comments();
    assert_eq!(printed(&codegen), "{ /* b */ /* a */\n/* c */\n");
    codegen.print_all_remaining_comments();
    assert_eq!(printed(&codegen), "{ /* b */ /* a */\n/* c */\n");
}

#[test]
fn what_is_left_and_stood_on_its_own_line_needs_no_space() {
    let source = "x\n/* a */";
    let mut codegen = printer(source, &[on_own_line(normal(source, "/* a */", 9))]);
    codegen.print_str("x");
    codegen.print_all_remaining_comments();
    assert_eq!(printed(&codegen), "x\n/* a */\n");
}

#[test]
fn comments_in_an_expression_get_lines_of_their_own() {
    let source = "/* b */ /* a */";
    let comments = [normal(source, "/* b */", 20), trailing(normal(source, "/* a */", 20))];
    let mut codegen = printer(source, &comments);
    codegen.indent = 1;
    codegen.print_str("x");
    assert!(codegen.print_expr_comments(20));
    assert_eq!(printed(&codegen), "x\n\t/* b */\n\t/* a */\n");
    assert!(!codegen.print_expr_comments(20));
    assert_eq!(printed(&codegen), "x\n\t/* b */\n\t/* a */\n");
}

#[test]
fn the_last_byte_is_that_of_the_last_character() {
    let mut codegen = Codegen::new(everything(), None);
    assert_eq!(codegen.last_byte(), None);
    codegen.print_str("x\n");
    assert_eq!(codegen.last_byte(), Some(b'\n'));
    codegen.print_str("\u{10a}");
    assert_eq!(codegen.last_byte(), Some(0x8a));
    assert!(!codegen.consume_pending_indent_space());
    codegen.print_next_indent_as_space = true;
    assert!(codegen.consume_pending_indent_space());
    assert_eq!(codegen.last_byte(), Some(b' '));
}
