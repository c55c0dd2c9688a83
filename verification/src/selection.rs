//! Which comments a place of the output asks for.
use vstd::prelude::*;

use crate::comment::{Comment, CommentContent};
use crate::options::CodegenOptions;
use crate::pending::{lemma_filter_elements, some_of};
use crate::questions::asked_for;
use crate::text::{get_range, on_boundaries, source_text, starts_with, text_between, viewed};

verus! {

/// Which annotation a place of the output expects.
///
/// `@__PURE__` on a call or `new`, and `@__NO_SIDE_EFFECTS__` on a function, are not
/// interchangeable: tree shakers honour each on its own kind of node only.
#[derive(Clone, Copy, Debug, PartialEq, Eq, Structural)]
pub enum AnnotationKind {
    /// `@__PURE__`
    Pure,
    /// `@__NO_SIDE_EFFECTS__`
    NoSideEffects,
}

impl AnnotationKind {
    /// Is the comment an annotation of this kind?
    #[verifier::allow_in_spec]
    pub fn matches(self, comment: &Comment) -> bool
        returns
            (match self {
                AnnotationKind::Pure => comment.is_pure(),
                AnnotationKind::NoSideEffects => comment.is_no_side_effects(),
            }),
    {
        match self {
            AnnotationKind::Pure => comment.is_pure(),
            AnnotationKind::NoSideEffects => comment.is_no_side_effects(),
        }
    }

    /// The words of the annotation in a block comment, with a line break or a space behind it.
    pub open spec fn canonical_text(self, newline_after: bool) -> Seq<char> {
        match (self, newline_after) {
            (AnnotationKind::Pure, false) => "/* @__PURE__ */ "@,
            (AnnotationKind::Pure, true) => "/* @__PURE__ */\n"@,
            (AnnotationKind::NoSideEffects, false) => "/* @__NO_SIDE_EFFECTS__ */ "@,
            (AnnotationKind::NoSideEffects, true) => "/* @__NO_SIDE_EFFECTS__ */\n"@,
        }
    }

    /// What is printed where the words of the source are not at hand: with a line break behind
    /// it before a statement, with a space inside an expression.
    pub fn canonical(self, newline_after: bool) -> (text: &'static str)
        ensures
            text@ == self.canonical_text(newline_after),
    {
        match (self, newline_after) {
            (AnnotationKind::Pure, false) => "/* @__PURE__ */ ",
            (AnnotationKind::Pure, true) => "/* @__PURE__ */\n",
            (AnnotationKind::NoSideEffects, false) => "/* @__NO_SIDE_EFFECTS__ */ ",
            (AnnotationKind::NoSideEffects, true) => "/* @__NO_SIDE_EFFECTS__ */\n",
        }
    }
}

/// The comments that the options let through. Annotations that steer tree shaking count only
/// where they lead.
pub open spec fn retained(options: CodegenOptions) -> spec_fn(Comment) -> bool {
    |c: Comment|
        if c.is_semantic() {
            c.is_leading() && options.print_annotation_comment()
        } else {
            ||| c.is_legal() && options.print_legal_comment()
            ||| c.is_jsdoc() && options.print_jsdoc_comment()
            ||| c.is_annotation() && options.print_annotation_comment()
            ||| c.is_normal() && options.print_normal_comment()
        }
}

/// Do the options let the comment through?
pub fn is_retained(options: &CodegenOptions, comment: Comment) -> (b: bool)
    ensures
        b == retained(*options)(comment),
        b == asked_for(*options, comment),
{
    if comment.is_pure() || comment.is_no_side_effects() {
        return comment.is_leading() && options.print_annotation_comment();
    }
    (comment.is_legal() && options.print_legal_comment()) || (comment.is_jsdoc()
        && options.print_jsdoc_comment()) || (comment.is_annotation()
        && options.print_annotation_comment()) || (comment.is_normal()
        && options.print_normal_comment())
}

/// Property-key annotations.
pub open spec fn property_key() -> spec_fn(Comment) -> bool {
    |c: Comment| c.is_property_key_annotation()
}

/// Comments without a special meaning.
pub open spec fn normal() -> spec_fn(Comment) -> bool {
    |c: Comment| c.is_normal()
}

/// Line comments.
pub open spec fn line() -> spec_fn(Comment) -> bool {
    |c: Comment| c.is_line()
}

/// Annotations of one kind that can stand where the line may be broken or not.
pub open spec fn claimed(kind: AnnotationKind, newline_after: bool) -> spec_fn(Comment) -> bool {
    |c: Comment| kind.matches(&c) && (newline_after || !c.is_line())
}

/// Comments that are printed with an annotation of one kind: all that can stand there but for
/// tree-shaking annotations of the other kind.
pub open spec fn beside(kind: AnnotationKind, newline_after: bool) -> spec_fn(Comment) -> bool {
    |c: Comment| (newline_after || !c.is_line()) && (kind.matches(&c) || !c.is_semantic())
}

/// Comments with a meaning of their own at a node: annotations and jsdoc. Normal comments are
/// left to the printers of the syntax around them. Tree-shaking annotations, with or without
/// effect, and property keys have places of their own.
pub open spec fn attached() -> spec_fn(Comment) -> bool {
    |c: Comment|
        {
            ||| c.is_jsdoc()
            ||| c.is_annotation() && c.content != CommentContent::PureNotApplied
                && !c.is_semantic() && !c.is_property_key_annotation()
        }
}

/// Is the comment one of those?
pub fn is_attached(comment: &Comment) -> (b: bool)
    ensures
        b == attached()(*comment),
{
    comment.is_jsdoc() || (comment.is_annotation() && comment.content
        != CommentContent::PureNotApplied && !comment.is_pure() && !comment.is_no_side_effects()
        && !comment.is_property_key_annotation())
}

/// Annotations that have no place of their own.
pub open spec fn stray_annotation() -> spec_fn(Comment) -> bool {
    |c: Comment| c.is_annotation() && !c.is_semantic() && !c.is_property_key_annotation()
}

/// Is the comment one of those?
pub fn is_stray_annotation(comment: &Comment) -> (b: bool)
    ensures
        b == stray_annotation()(*comment),
{
    comment.is_annotation() && !comment.is_pure() && !comment.is_no_side_effects()
        && !comment.is_property_key_annotation()
}

/// Comments that keep their meaning where the node that they stood at is gone.
pub open spec fn lasting() -> spec_fn(Comment) -> bool {
    |c: Comment| c.is_legal() || c.is_coverage_ignore_file()
}

/// Does the comment keep its meaning where the node that it stood at is gone?
pub fn preserve_when_orphaned(comment: Comment) -> (b: bool)
    ensures
        b == lasting()(comment),
{
    comment.is_legal() || comment.is_coverage_ignore_file()
}

/// Line comments in the HTML style: `<!--` or `-->`.
pub open spec fn html(source: Option<Seq<char>>) -> spec_fn(Comment) -> bool {
    |c: Comment|
        c.is_line() && (match source {
            Some(text) => {
                let body = text_between(text, c.span.start as int, c.span.end as int);
                on_boundaries(text, c.span.start as int, c.span.end as int) && (
                "<!--"@.is_prefix_of(body) || "-->"@.is_prefix_of(body))
            },
            None => false,
        })
}

/// Is the comment in the HTML style?
pub fn is_html_comment(comment: Comment, source: Option<&str>) -> (b: bool)
    requires
        comment.is_line() ==> (source matches Some(text) ==> on_boundaries(
            text@,
            comment.span.start as int,
            comment.span.end as int,
        )),
    ensures
        b == html(viewed(source))(comment),
{
    if !comment.is_line() {
        return false;
    }
    match source {
        Some(text) => {
            let body: &str = source_text(comment.span, text);
            starts_with(body, "<!--") || starts_with(body, "-->")
        },
        None => false,
    }
}

/// Is the comment one that can be cut out of the source, and in the HTML style?
pub fn is_known_html(comment: Comment, source: Option<&str>) -> (b: bool)
    ensures
        b == html(viewed(source))(comment),
{
    match source {
        Some(text) => {
            let start: usize = comment.span.start as usize;
            let end: usize = comment.span.end as usize;
            get_range(text, start, end).is_some() && is_html_comment(comment, source)
        },
        None => false,
    }
}

/// Comments that are worth printing behind a token, all HTML-style ones left out.
pub open spec fn worth_trailing(source: Option<Seq<char>>) -> spec_fn(Comment) -> bool {
    |c: Comment|
        !html(source)(c) && (c.is_normal() || c.is_jsdoc() || (c.is_annotation()
            && !c.is_property_key_annotation()))
}

/// A filtered sequence holds a comment with a property where the whole holds one that passes
/// the filter and has the property.
pub proof fn lemma_some_of_filter(
    s: Seq<Comment>,
    q: spec_fn(Comment) -> bool,
    p: spec_fn(Comment) -> bool,
    both: spec_fn(Comment) -> bool,
)
    requires
        forall|c: Comment| #[trigger] both(c) == (q(c) && p(c)),
    ensures
        some_of(s.filter(q), p) <==> some_of(s, both),
{
    if some_of(s, both) {
        let i = choose|i: int| 0 <= i < s.len() && both(#[trigger] s[i]);
        s.lemma_filter_contains(q, i);
        let k = choose|k: int| 0 <= k < s.filter(q).len() && s.filter(q)[k] == s[i];
        assert(p(s.filter(q)[k]));
    }
    if some_of(s.filter(q), p) {
        let k = choose|k: int| 0 <= k < s.filter(q).len() && p(#[trigger] s.filter(q)[k]);
        lemma_filter_elements(s, q);
        assert(s.contains(s.filter(q)[k]));
        let i = choose|i: int| 0 <= i < s.len() && s[i] == s.filter(q)[k];
        assert(both(s[i]));
    }
}

} // verus!
