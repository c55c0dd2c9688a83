//! What the questions that are asked of comments come to, content by content.
use vstd::prelude::*;

use crate::comment::{Comment, CommentContent, CommentKind, CommentPosition};
use crate::operands::opening;
use crate::options::CodegenOptions;
use crate::order::{law_sort_by_orders, law_sort_by_permutes, sort_by};
use crate::pending::{
    any, at, except, is_nearest, leading, lemma_filter_some, lemma_store_le_total, semantic,
    some_of, store_le, trailing, within,
};
use crate::selection::{
    attached, beside, claimed, html, lasting, line, normal, property_key, retained,
    stray_annotation, worth_trailing, AnnotationKind,
};
use crate::spots::{law_cuts_hold_characters, offset_of};
use crate::text::{on_boundaries, text_between};

verus! {

/// Does the comment lead?
pub open spec fn leads(c: Comment) -> bool {
    c.position == CommentPosition::Leading
}

/// What the questions about the form and the side of a comment come to.
pub proof fn law_form_and_side(c: Comment)
    ensures
        c.is_line() <==> c.kind == CommentKind::Line,
        c.is_multiline_block() <==> c.kind == CommentKind::MultiLineBlock,
        c.is_leading() <==> leads(c),
        c.preceded_by_newline() <==> c.newlines.leading,
        c.followed_by_newline() <==> c.newlines.trailing,
{
}

/// Which contents make a comment normal, an annotation, a jsdoc or a legal comment.
pub proof fn law_contents(c: Comment)
    ensures
        match c.content {
            CommentContent::Plain => c.is_normal() && !c.is_annotation() && !c.is_jsdoc()
                && !c.is_legal(),
            CommentContent::Legal => !c.is_normal() && !c.is_annotation() && !c.is_jsdoc() && (
            c.is_legal() <==> leads(c)),
            CommentContent::Jsdoc => !c.is_normal() && !c.is_annotation() && !c.is_legal() && (
            c.is_jsdoc() <==> leads(c)),
            CommentContent::JsdocLegal => !c.is_normal() && !c.is_annotation() && (c.is_legal()
                <==> leads(c)) && (c.is_jsdoc() <==> leads(c)),
            CommentContent::Pure
            | CommentContent::PureNotApplied
            | CommentContent::NoSideEffects
            | CommentContent::Webpack
            | CommentContent::Vite
            | CommentContent::CoverageIgnore
            | CommentContent::Turbopack
            | CommentContent::CoverageIgnoreFile
            | CommentContent::PropertyKey => c.is_annotation() && !c.is_normal() && !c.is_jsdoc()
                && !c.is_legal(),
        },
        c.is_pure() <==> c.content == CommentContent::Pure,
        c.is_no_side_effects() <==> c.content == CommentContent::NoSideEffects,
        c.is_semantic() <==> c.content == CommentContent::Pure || c.content
            == CommentContent::NoSideEffects,
        c.is_property_key_annotation() <==> c.content == CommentContent::PropertyKey && leads(c),
        c.is_coverage_ignore_file() <==> c.content == CommentContent::CoverageIgnoreFile && leads(
            c,
        ),
{
}

/// Stating whether a line break comes behind a comment changes nothing else of it.
pub proof fn law_newline_after(c: Comment, followed: bool)
    ensures
        ({
            let d = c.with_newline_after(followed);
            &&& d.newlines.trailing == followed
            &&& d.newlines.leading == c.newlines.leading
            &&& d.span == c.span
            &&& d.attached_to == c.attached_to
            &&& d.kind == c.kind
            &&& d.position == c.position
            &&& d.content == c.content
        }),
{
}

/// Do the options ask for the comment? Its form and the line breaks around it have no say.
pub open spec fn asked_for(options: CodegenOptions, c: Comment) -> bool {
    let wanted = options.comments;
    match c.content {
        CommentContent::Plain => wanted.normal,
        CommentContent::Legal => leads(c) && wanted.legal is Inline,
        CommentContent::Jsdoc => leads(c) && wanted.jsdoc,
        CommentContent::JsdocLegal => leads(c) && (wanted.jsdoc || wanted.legal is Inline),
        CommentContent::Pure | CommentContent::NoSideEffects => leads(c) && wanted.annotation,
        CommentContent::PureNotApplied
        | CommentContent::Webpack
        | CommentContent::Vite
        | CommentContent::CoverageIgnore
        | CommentContent::Turbopack
        | CommentContent::CoverageIgnoreFile
        | CommentContent::PropertyKey => wanted.annotation,
    }
}

/// A comment is filed for printing exactly where the options ask for it, and as often as it
/// occurs. With all options on, every leading comment is.
pub proof fn law_filed_as_asked(options: CodegenOptions, comments: Seq<Comment>, c: Comment)
    ensures
        ({
            let filed = sort_by(comments.filter(retained(options)), store_le());
            let everything = options.comments.normal && options.comments.jsdoc
                && options.comments.annotation && options.comments.legal is Inline;
            &&& filed.to_multiset().count(c) == (if asked_for(options, c) {
                comments.to_multiset().count(c)
            } else {
                0
            })
            &&& filed.contains(c) <==> comments.contains(c) && asked_for(options, c)
            &&& everything && leads(c) && comments.contains(c) ==> filed.contains(c)
        }),
{
    broadcast use vstd::seq_lib::group_to_multiset_ensures;

    let kept = comments.filter(retained(options));
    assert(retained(options)(c) == asked_for(options, c));
    law_sort_by_permutes(kept, store_le());
    lemma_filter_count(comments, retained(options), c);
    let filed = sort_by(kept, store_le());
    assert(filed.contains(c) <==> filed.to_multiset().count(c) > 0);
    assert(comments.contains(c) <==> comments.to_multiset().count(c) > 0);
}

/// A filter keeps an element as often as it occurs, or not at all.
proof fn lemma_filter_count(s: Seq<Comment>, p: spec_fn(Comment) -> bool, c: Comment)
    ensures
        s.filter(p).to_multiset().count(c) == (if p(c) {
            s.to_multiset().count(c)
        } else {
            0
        }),
    decreases s.len(),
{
    broadcast use vstd::seq_lib::group_to_multiset_ensures;

    reveal(Seq::filter);
    if s.len() > 0 {
        lemma_filter_count(s.drop_last(), p, c);
        assert(s =~= s.drop_last().push(s.last()));
    }
}

/// No option at all is the one case in which nothing is filed anew.
pub proof fn law_nothing_asked_for(options: CodegenOptions, c: Comment)
    ensures
        options.comments.none_printed() <==> !options.comments.normal && !options.comments.jsdoc
            && !options.comments.annotation && options.comments.legal is Omit,
        options.comments.none_printed() ==> !asked_for(options, c),
        options.print_normal_comment() <==> options.comments.normal,
        options.print_jsdoc_comment() <==> options.comments.jsdoc,
        options.print_annotation_comment() <==> options.comments.annotation,
        options.print_legal_comment() <==> options.comments.legal is Inline,
{
}

/// Comments are filed by boundary, then leading before trailing, then by where they start.
pub proof fn law_filing_order(comments: Seq<Comment>, i: int, j: int)
    requires
        0 <= i < j < comments.len(),
    ensures
        ({
            let a = sort_by(comments, store_le())[i];
            let b = sort_by(comments, store_le())[j];
            &&& a.attached_to <= b.attached_to
            &&& a.attached_to == b.attached_to && leads(b) ==> leads(a)
            &&& a.attached_to == b.attached_to && a.position == b.position ==> a.span.start
                <= b.span.start
        }),
{
    lemma_store_le_total();
    law_sort_by_permutes(comments, store_le());
    law_sort_by_orders(comments, store_le());
    assert(store_le()(sort_by(comments, store_le())[i], sort_by(comments, store_le())[j]));
}

/// What it is to be a comment of a boundary, of one side, or of some boundaries.
pub proof fn law_places_of_comments(
    anchor: u32,
    first: int,
    last: int,
    starts: Seq<u32>,
    p: spec_fn(Comment) -> bool,
    c: Comment,
)
    ensures
        any()(c),
        except(p)(c) <==> !p(c),
        at(anchor, p)(c) <==> c.attached_to == anchor && p(c),
        leading(p)(c) <==> leads(c) && p(c),
        trailing(p)(c) <==> c.position == CommentPosition::Trailing && p(c),
        within(first, last, p)(c) <==> first <= c.attached_to <= last && p(c),
        opening(starts, p)(c) <==> leads(c) && p(c) && exists|k: int|
            0 <= k < starts.len() && #[trigger] starts[k] == c.attached_to,
{
    if opening(starts, p)(c) {
        let k = choose|k: int| 0 <= k < starts.len() && starts[k] == c.attached_to;
        assert(starts[k] == c.attached_to);
    }
}

/// What it is for a comment to be among some.
pub proof fn law_some_of(comments: Seq<Comment>, p: spec_fn(Comment) -> bool)
    ensures
        some_of(comments, p) <==> comments.filter(p).len() > 0,
        some_of(comments, p) <==> exists|c: Comment| #[trigger] comments.contains(c) && p(c),
{
    lemma_filter_some(comments, p);
    if some_of(comments, p) {
        let i = choose|i: int| 0 <= i < comments.len() && p(#[trigger] comments[i]);
        assert(comments.contains(comments[i]));
    }
    if exists|c: Comment| #[trigger] comments.contains(c) && p(c) {
        let c = choose|c: Comment| #[trigger] comments.contains(c) && p(c);
        let i = choose|i: int| 0 <= i < comments.len() && comments[i] == c;
        assert(p(comments[i]));
    }
}

/// The nearest boundary is the last one, at or before a boundary, that owns such a comment;
/// there is one exactly where such a comment lies at or before that boundary.
pub proof fn law_nearest(
    comments: Seq<Comment>,
    anchor: u32,
    p: spec_fn(Comment) -> bool,
    nearest: Option<u32>,
    i: int,
)
    requires
        is_nearest(comments, anchor, p, nearest),
    ensures
        0 <= i < comments.len() && p(comments[i]) && comments[i].attached_to <= anchor
            ==> nearest is Some && comments[i].attached_to <= nearest->Some_0,
        nearest is Some ==> nearest->Some_0 <= anchor && exists|k: int|
            0 <= k < comments.len() && p(#[trigger] comments[k]) && comments[k].attached_to
                == nearest->Some_0,
{
    if let Some(a) = nearest {
        let k = choose|k: int| 0 <= k < comments.len() && at(a, p)(#[trigger] comments[k]);
        assert(p(comments[k]));
    }
}

/// Which comments have a meaning of their own at a node: leading jsdoc and tools' annotations,
/// but for those that steer tree shaking and leading property keys.
pub proof fn law_attached(c: Comment)
    ensures
        attached()(c) <==> match c.content {
            CommentContent::Jsdoc | CommentContent::JsdocLegal => leads(c),
            CommentContent::Webpack
            | CommentContent::Vite
            | CommentContent::CoverageIgnore
            | CommentContent::Turbopack
            | CommentContent::CoverageIgnoreFile => true,
            CommentContent::PropertyKey => !leads(c),
            CommentContent::Plain
            | CommentContent::Legal
            | CommentContent::Pure
            | CommentContent::PureNotApplied
            | CommentContent::NoSideEffects => false,
        },
{
}

/// Which annotations have no place of their own: all but those that steer tree shaking and
/// leading property keys.
pub proof fn law_stray_annotations(c: Comment)
    ensures
        stray_annotation()(c) <==> match c.content {
            CommentContent::PureNotApplied
            | CommentContent::Webpack
            | CommentContent::Vite
            | CommentContent::CoverageIgnore
            | CommentContent::Turbopack
            | CommentContent::CoverageIgnoreFile => true,
            CommentContent::PropertyKey => !leads(c),
            CommentContent::Plain
            | CommentContent::Legal
            | CommentContent::Jsdoc
            | CommentContent::JsdocLegal
            | CommentContent::Pure
            | CommentContent::NoSideEffects => false,
        },
{
}

/// Which comments outlive their nodes: leading ones that are legal or speak of the whole file.
pub proof fn law_lasting(c: Comment)
    ensures
        lasting()(c) <==> leads(c) && (c.content == CommentContent::Legal || c.content
            == CommentContent::JsdocLegal || c.content == CommentContent::CoverageIgnoreFile),
{
}

/// The other comments that places ask for.
pub proof fn law_plain_questions(c: Comment)
    ensures
        normal()(c) <==> c.content == CommentContent::Plain,
        line()(c) <==> c.kind == CommentKind::Line,
        property_key()(c) <==> c.content == CommentContent::PropertyKey && leads(c),
        semantic()(c) <==> c.content == CommentContent::Pure || c.content
            == CommentContent::NoSideEffects,
{
}

/// Which comments stand for an annotation, and which are printed with one. A line comment does
/// neither where the line cannot be broken.
pub proof fn law_annotations(kind: AnnotationKind, newline_after: bool, c: Comment)
    ensures
        kind.matches(&c) <==> c.content == (match kind {
            AnnotationKind::Pure => CommentContent::Pure,
            AnnotationKind::NoSideEffects => CommentContent::NoSideEffects,
        }),
        claimed(kind, newline_after)(c) <==> kind.matches(&c) && (c.kind == CommentKind::Line
            ==> newline_after),
        beside(kind, newline_after)(c) <==> (c.content == CommentContent::Pure ==> kind
            == AnnotationKind::Pure) && (c.content == CommentContent::NoSideEffects ==> kind
            == AnnotationKind::NoSideEffects) && (c.kind == CommentKind::Line ==> newline_after),
{
}

/// The words of an annotation where the source has none.
pub proof fn law_canonical_words(kind: AnnotationKind, newline_after: bool)
    ensures
        ({
            let words = match kind {
                AnnotationKind::Pure => "/* @__PURE__ */"@,
                AnnotationKind::NoSideEffects => "/* @__NO_SIDE_EFFECTS__ */"@,
            };
            kind.canonical_text(newline_after) == words.push(
                if newline_after {
                    '\n'
                } else {
                    ' '
                },
            )
        }),
{
    reveal_strlit("/* @__PURE__ */");
    reveal_strlit("/* @__PURE__ */ ");
    reveal_strlit("/* @__PURE__ */\n");
    reveal_strlit("/* @__NO_SIDE_EFFECTS__ */");
    reveal_strlit("/* @__NO_SIDE_EFFECTS__ */ ");
    reveal_strlit("/* @__NO_SIDE_EFFECTS__ */\n");
    assert("/* @__PURE__ */ "@ =~= "/* @__PURE__ */"@.push(' '));
    assert("/* @__PURE__ */\n"@ =~= "/* @__PURE__ */"@.push('\n'));
    assert("/* @__NO_SIDE_EFFECTS__ */ "@ =~= "/* @__NO_SIDE_EFFECTS__ */"@.push(' '));
    assert("/* @__NO_SIDE_EFFECTS__ */\n"@ =~= "/* @__NO_SIDE_EFFECTS__ */"@.push('\n'));
}

/// Do the characters of a text from `k` on start with `<!--` or `-->`?
pub open spec fn html_mark_at(text: Seq<char>, k: int) -> bool {
    ||| k + 4 <= text.len() && text[k] == '<' && text[k + 1] == '!' && text[k + 2] == '-' && text[k
        + 3] == '-'
    ||| k + 3 <= text.len() && text[k] == '-' && text[k + 1] == '-' && text[k + 2] == '>'
}

/// A comment is in the HTML style where it is a line comment and the source has one of the
/// two marks where it starts. `i` and `j` are the characters at which it starts and ends.
pub proof fn law_html(text: Seq<char>, c: Comment, i: int, j: int)
    requires
        0 <= i <= j <= text.len(),
        c.span.start == offset_of(text, i),
        c.span.end == offset_of(text, j),
    ensures
        html(Some(text))(c) <==> c.kind == CommentKind::Line && html_mark_at(text.take(j), i),
        !html(None)(c),
{
    law_cuts_hold_characters(text, i, j);
    let body = text_between(text, c.span.start as int, c.span.end as int);
    assert(body == text.subrange(i, j));
    reveal_strlit("<!--");
    reveal_strlit("-->");
    if body.len() >= 4 {
        assert(body.subrange(0, 4)[0] == text[i]);
    }
    assert("<!--"@.is_prefix_of(body) <==> body.len() >= 4 && body[0] == '<' && body[1] == '!'
        && body[2] == '-' && body[3] == '-') by {
        if body.len() >= 4 && body[0] == '<' && body[1] == '!' && body[2] == '-' && body[3] == '-' {
            assert("<!--"@ =~= body.subrange(0, 4));
        }
        if "<!--"@.is_prefix_of(body) {
            assert(forall|k: int| 0 <= k < 4 ==> body.subrange(0, 4)[k] == "<!--"@[k]);
            assert(body[0] == body.subrange(0, 4)[0]);
            assert(body[1] == body.subrange(0, 4)[1]);
            assert(body[2] == body.subrange(0, 4)[2]);
            assert(body[3] == body.subrange(0, 4)[3]);
        }
    }
    assert("-->"@.is_prefix_of(body) <==> body.len() >= 3 && body[0] == '-' && body[1] == '-'
        && body[2] == '>') by {
        if body.len() >= 3 && body[0] == '-' && body[1] == '-' && body[2] == '>' {
            assert("-->"@ =~= body.subrange(0, 3));
        }
        if "-->"@.is_prefix_of(body) {
            assert(body[0] == body.subrange(0, 3)[0]);
            assert(body[1] == body.subrange(0, 3)[1]);
            assert(body[2] == body.subrange(0, 3)[2]);
        }
    }
}

/// Of the comments behind a token, those worth printing are the ones, not in the HTML style,
/// that are normal or annotations, whatever their form; trailing jsdoc and legal comments are
/// not, nor are leading property keys.
pub proof fn law_worth_trailing(source: Option<Seq<char>>, c: Comment)
    ensures
        worth_trailing(source)(c) <==> !html(source)(c) && match c.content {
            CommentContent::Plain => true,
            CommentContent::Legal => false,
            CommentContent::Jsdoc | CommentContent::JsdocLegal => leads(c),
            CommentContent::PropertyKey => !leads(c),
            CommentContent::Pure
            | CommentContent::PureNotApplied
            | CommentContent::NoSideEffects
            | CommentContent::Webpack
            | CommentContent::Vite
            | CommentContent::CoverageIgnore
            | CommentContent::Turbopack
            | CommentContent::CoverageIgnoreFile => true,
        },
        c.kind != CommentKind::Line ==> !html(source)(c),
        source matches Some(text) ==> !on_boundaries(
            text,
            c.span.start as int,
            c.span.end as int,
        ) ==> !html(source)(c),
{
}

} // verus!
