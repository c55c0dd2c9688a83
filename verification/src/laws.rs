//! What holds of taking and printing comments, whatever the place.
use vstd::prelude::*;

use crate::codegen::{closed_off, lemma_filter_twice, lemma_printable_sorted};
use crate::comment::Comment;
use crate::legal::{distinct_legal, legal_text, lemma_says_more, says};
use crate::list::{by_start, start_le};
use crate::operands::{opening, Page};
use crate::order::{
    law_sort_by_orders, law_sort_by_permutes, lemma_sort_by_elements, ordered_by, sort_by,
};
use crate::pending::{
    at, except, leading, lemma_filter_all, lemma_filter_elements, lemma_filter_none,
    lemma_filter_some, some_of, store_le,
};
use crate::printer::{all_printable, printable, Layout, Output};
use crate::selection::{beside, claimed, lemma_some_of_filter, AnnotationKind};
use crate::text::{closes_script_at, escaped, escaped_to, lines_of, text_between, trimmed};

verus! {

/// Taking comments splits those that are pending: each is either taken or left, and none is
/// lost or doubled. So a comment is printed at most once.
pub proof fn law_taken_or_left(pending: Seq<Comment>, p: spec_fn(Comment) -> bool)
    ensures
        by_start(pending.filter(p)).to_multiset().add(
            pending.filter(except(p)).to_multiset(),
        ) == pending.to_multiset(),
{
    law_sort_by_permutes(pending.filter(p), start_le());
    lemma_filter_split(pending, p);
}

/// A filter and its opposite share out the comments.
proof fn lemma_filter_split(s: Seq<Comment>, p: spec_fn(Comment) -> bool)
    ensures
        s.filter(p).to_multiset().add(s.filter(except(p)).to_multiset()) == s.to_multiset(),
    decreases s.len(),
{
    broadcast use vstd::seq_lib::group_to_multiset_ensures;

    reveal(Seq::filter);
    if s.len() == 0 {
        assert(s.filter(p).to_multiset().add(s.filter(except(p)).to_multiset())
            =~= s.to_multiset());
    } else {
        let rest = s.drop_last();
        lemma_filter_split(rest, p);
        assert(s =~= rest.push(s.last()));
        assert(s.filter(p).to_multiset().add(s.filter(except(p)).to_multiset())
            =~= s.to_multiset());
    }
}

/// Once taken, a comment is not found again: a second look at the same place finds nothing.
pub proof fn law_taken_is_gone(pending: Seq<Comment>, p: spec_fn(Comment) -> bool)
    ensures
        !some_of(pending.filter(except(p)), p),
        pending.filter(except(p)).filter(p) == Seq::<Comment>::empty(),
{
    let left = pending.filter(except(p));
    lemma_filter_elements(pending, except(p));
    assert forall|i: int| 0 <= i < left.len() implies !p(#[trigger] left[i]) by {}
    lemma_filter_none(left, p);
}

/// Asking whether there is a comment at a place tells whether taking from there yields one.
pub proof fn law_found_is_taken(pending: Seq<Comment>, p: spec_fn(Comment) -> bool)
    ensures
        some_of(pending, p) <==> by_start(pending.filter(p)).len() > 0,
{
    lemma_filter_some(pending, p);
    law_sort_by_permutes(pending.filter(p), start_le());
}

/// What is taken together comes in the order of the source.
pub proof fn law_taken_in_source_order(taken: Seq<Comment>)
    ensures
        ordered_by(by_start(taken), start_le()),
{
    law_sort_by_orders(taken, start_le());
}

/// Comments that are taken from two places are the same in whichever order the places come.
pub proof fn law_places_commute(
    pending: Seq<Comment>,
    p: spec_fn(Comment) -> bool,
    q: spec_fn(Comment) -> bool,
)
    ensures
        pending.filter(except(p)).filter(except(q)) == pending.filter(except(q)).filter(
            except(p),
        ),
{
    let neither = |c: Comment| !p(c) && !q(c);
    lemma_filter_twice(pending, except(p), except(q), neither);
    lemma_filter_twice(pending, except(q), except(p), neither);
}

/// What is printed for an annotation holds one of that very kind and none of the other kind:
/// those stay where they are.
pub proof fn law_annotation_is_of_its_kind(
    pending: Seq<Comment>,
    start: u32,
    kind: AnnotationKind,
    newline_after: bool,
)
    ensures
        ({
            let q = at(start, leading(beside(kind, newline_after)));
            let claims = claimed(kind, newline_after);
            &&& forall|i: int|
                0 <= i < pending.filter(q).len() && (#[trigger] pending.filter(q)[i]).is_semantic()
                    ==> kind.matches(&pending.filter(q)[i])
            &&& some_of(pending, at(start, leading(claims))) ==> some_of(pending.filter(q), claims)
            &&& forall|i: int|
                0 <= i < pending.len() && (#[trigger] pending[i]).is_semantic() && !kind.matches(
                    &pending[i],
                ) ==> pending.filter(except(q)).contains(pending[i])
        }),
{
    let q = at(start, leading(beside(kind, newline_after)));
    let claims = claimed(kind, newline_after);
    lemma_filter_elements(pending, q);
    lemma_some_of_filter(pending, q, claims, at(start, leading(claims)));
    assert forall|i: int|
        0 <= i < pending.len() && (#[trigger] pending[i]).is_semantic() && !kind.matches(
            &pending[i],
        ) implies pending.filter(except(q)).contains(pending[i]) by {
        pending.lemma_filter_contains(except(q), i);
    }
}

/// Only a comment at the node's own boundary can stand for its annotation: one at any other
/// boundary stays pending.
pub proof fn law_annotation_is_taken_from_its_boundary(
    pending: Seq<Comment>,
    start: u32,
    kind: AnnotationKind,
    newline_after: bool,
    i: int,
)
    requires
        0 <= i < pending.len(),
        pending[i].attached_to != start,
    ensures
        pending.filter(except(at(start, leading(beside(kind, newline_after))))).contains(
            pending[i],
        ),
{
    pending.lemma_filter_contains(
        except(at(start, leading(beside(kind, newline_after)))),
        i,
    );
}

/// A comment cannot be claimed for both kinds of annotation.
pub proof fn law_annotation_kinds_are_apart(comment: Comment)
    ensures
        !(AnnotationKind::Pure.matches(&comment) && AnnotationKind::NoSideEffects.matches(&comment)),
{
}

/// Printing comments before an expression takes the leading comments of all its parentheses,
/// as far as they are asked for, and no others.
pub proof fn law_openings_are_cleared(
    page: Page,
    layout: Layout,
    source: Option<Seq<char>>,
    starts: Seq<u32>,
    p: spec_fn(Comment) -> bool,
)
    ensures
        page.groups(layout, source, starts, p).comments == page.comments.filter(
            except(opening(starts, p)),
        ),
    decreases starts.len(),
{
    if starts.len() == 0 {
        lemma_filter_all(page.comments, except(opening(starts, p)));
    } else {
        let rest = starts.drop_first();
        let next = page.group(layout, source, starts[0], p);
        law_openings_are_cleared(next, layout, source, rest, p);
        let first = at(starts[0], leading(p));
        assert forall|c: Comment| #[trigger] except(opening(starts, p))(c) == (except(first)(c)
            && except(opening(rest, p))(c)) by {
            if starts.contains(c.attached_to) {
                let k = choose|k: int| 0 <= k < starts.len() && starts[k] == c.attached_to;
                if k > 0 {
                    assert(rest[k - 1] == c.attached_to);
                }
            }
            if rest.contains(c.attached_to) {
                let k = choose|k: int| 0 <= k < rest.len() && rest[k] == c.attached_to;
                assert(starts[k + 1] == c.attached_to);
            }
            if c.attached_to == starts[0] {
                assert(starts.contains(c.attached_to));
            }
        }
        lemma_filter_twice(
            page.comments,
            except(first),
            except(opening(rest, p)),
            except(opening(starts, p)),
        );
    }
}

/// Where all comments can be cut out of the source, so can those that are filed from them, and
/// those that are taken from any place.
pub proof fn law_printable_everywhere(
    source: Option<Seq<char>>,
    comments: Seq<Comment>,
    p: spec_fn(Comment) -> bool,
)
    requires
        all_printable(source, comments),
    ensures
        all_printable(source, comments.filter(p)),
        all_printable(source, sort_by(comments.filter(p), store_le())),
        all_printable(source, by_start(comments.filter(p))),
{
    let kept = comments.filter(p);
    lemma_filter_elements(comments, p);
    assert forall|i: int| 0 <= i < kept.len() implies printable(source, #[trigger] kept[i]) by {
        assert(comments.contains(kept[i]));
    }
    let filed = sort_by(kept, store_le());
    lemma_sort_by_elements(kept, store_le());
    assert forall|i: int| 0 <= i < filed.len() implies printable(source, #[trigger] filed[i]) by {
        assert(kept.contains(filed[i]));
    }
    lemma_printable_sorted(source, kept);
}

/// Does the second output continue the first?
pub open spec fn continues(before: Output, after: Output) -> bool {
    before.text.is_prefix_of(after.text)
}

/// Continuing is transitive.
proof fn lemma_continues(a: Output, b: Output, c: Output)
    requires
        continues(a, b),
        continues(b, c),
    ensures
        continues(a, c),
{
    assert(a.text =~= c.text.subrange(0, a.text.len() as int)) by {
        assert forall|i: int| 0 <= i < a.text.len() implies a.text[i] == c.text[i] by {
            assert(a.text[i] == b.text.subrange(0, a.text.len() as int)[i]);
            assert(b.text[i] == c.text.subrange(0, b.text.len() as int)[i]);
        }
    }
}

/// Every step of printing continues the output.
proof fn lemma_steps_continue(out: Output, layout: Layout, text: Seq<char>)
    ensures
        continues(out, out),
        continues(out, out.str(text)),
        continues(out, out.newline()),
        continues(out, out.soft_space(layout)),
        continues(out, out.spaced()),
        continues(out, out.indented(layout)),
{
    assert(out.text =~= out.text.subrange(0, out.text.len() as int));
    assert(out.text =~= (out.text + text).subrange(0, out.text.len() as int));
    assert(out.text =~= out.text.push('\n').subrange(0, out.text.len() as int));
    assert(out.text =~= out.text.push(' ').subrange(0, out.text.len() as int));
    let tabs = Seq::new(layout.indent, |i: int| '\t');
    assert(out.text =~= (out.text + tabs).subrange(0, out.text.len() as int));
}

/// A block comment continues the output.
proof fn lemma_block_continues(out: Output, layout: Layout, lines: Seq<Seq<char>>)
    ensures
        continues(out, out.block_lines(layout, lines)),
    decreases lines.len(),
{
    if lines.len() == 0 {
        lemma_steps_continue(out, layout, seq![]);
    } else {
        let before = out.block_lines(layout, lines.drop_last());
        let line = lines.last();
        lemma_block_continues(out, layout, lines.drop_last());
        let begun = if "/*"@.is_prefix_of(line) {
            before
        } else {
            before.indented(layout)
        };
        let written = begun.str(escaped(trimmed(line)));
        lemma_steps_continue(before, layout, seq![]);
        lemma_steps_continue(begun, layout, escaped(trimmed(line)));
        lemma_steps_continue(written, layout, seq![]);
        lemma_continues(before, begun, written);
        lemma_continues(before, written, before.block_line(layout, line));
        lemma_continues(out, before, before.block_line(layout, line));
    }
}

/// A comment continues the output.
proof fn lemma_comment_continues(
    out: Output,
    layout: Layout,
    source: Option<Seq<char>>,
    comment: Comment,
)
    ensures
        continues(out, out.comment(layout, source, comment)),
{
    match source {
        None => {
            lemma_steps_continue(out, layout, seq![]);
        },
        Some(text) => {
            let body = text_between(text, comment.span.start as int, comment.span.end as int);
            lemma_steps_continue(out, layout, escaped(body));
            lemma_block_continues(out, layout, lines_of(body));
        },
    }
}

/// A run of comments continues the output.
proof fn lemma_run_continues(
    out: Output,
    layout: Layout,
    source: Option<Seq<char>>,
    comments: Seq<Comment>,
)
    ensures
        continues(out, out.comment_run(layout, source, comments)),
    decreases comments.len(),
{
    lemma_steps_continue(out, layout, seq![]);
    if comments.len() == 0 {
    } else if comments.len() == 1 {
        let begun = out.before_first(layout, comments[0]);
        lemma_steps_continue(out.newline(), layout, seq![]);
        lemma_continues(out, out.newline(), out.newline().indented(layout));
        lemma_comment_continues(begun, layout, source, comments[0]);
        lemma_continues(out, begun, begun.comment(layout, source, comments[0]));
    } else {
        let rest = comments.drop_last();
        let before = out.comment_run(layout, source, rest);
        let begun = before.before_next(layout, comments.last());
        lemma_run_continues(out, layout, source, rest);
        lemma_steps_continue(before, layout, seq![]);
        lemma_steps_continue(before.newline(), layout, seq![]);
        lemma_continues(before, before.newline(), before.newline().indented(layout));
        lemma_comment_continues(begun, layout, source, comments.last());
        lemma_continues(out, before, begun);
        lemma_continues(out, begun, begun.comment(layout, source, comments.last()));
    }
}

/// Printing comments leaves what has been printed as it is.
pub proof fn law_printing_only_adds(
    out: Output,
    layout: Layout,
    source: Option<Seq<char>>,
    comments: Seq<Comment>,
)
    ensures
        continues(out, out.comments(layout, source, comments)),
{
    let run = out.comment_run(layout, source, comments);
    lemma_run_continues(out, layout, source, comments);
    lemma_steps_continue(out, layout, seq![]);
    lemma_steps_continue(run, layout, seq![]);
    lemma_continues(out, run, run.newline());
}

/// The same holds of the places that print comments with other things around them.
pub proof fn law_every_place_only_adds(
    out: Output,
    layout: Layout,
    source: Option<Seq<char>>,
    comments: Seq<Comment>,
)
    ensures
        continues(out, out.group_glued(layout, source, comments)),
        continues(out, out.group_resumed(layout, source, comments)),
        continues(out, out.group_behind(layout, source, comments)),
        continues(out, out.left_over(layout, source, comments)),
        continues(out, out.spaced_comments(layout, source, comments)),
        continues(out, out.stacked_comments(layout, source, comments)),
        continues(out, out.listed_comments(layout, source, comments)),
{
    let group = out.comments(layout, source, comments);
    let spaced = out.soft_space(layout);
    let behind = spaced.comments(layout, source, comments);
    let closed = closed_off(comments);
    lemma_steps_continue(out, layout, seq![]);
    law_printing_only_adds(out, layout, source, comments);
    lemma_steps_continue(group, layout, seq![]);
    lemma_continues(out, group, group.spaced());
    lemma_continues(out, group, group.indented(layout));
    law_printing_only_adds(spaced, layout, source, comments);
    lemma_continues(out, spaced, behind);
    law_printing_only_adds(out, layout, source, closed);
    law_printing_only_adds(spaced, layout, source, closed);
    lemma_continues(out, spaced, spaced.comments(layout, source, closed));
    lemma_lists_continue(out, layout, source, comments);
}

/// Lists of comments continue the output.
proof fn lemma_lists_continue(
    out: Output,
    layout: Layout,
    source: Option<Seq<char>>,
    comments: Seq<Comment>,
)
    ensures
        continues(out, out.spaced_comments(layout, source, comments)),
        continues(out, out.stacked_comments(layout, source, comments)),
        continues(out, out.listed_comments(layout, source, comments)),
    decreases comments.len(),
{
    lemma_steps_continue(out, layout, seq![]);
    if comments.len() > 0 {
        let rest = comments.drop_last();
        let last = comments.last();
        lemma_lists_continue(out, layout, source, rest);
        let a = out.spaced_comments(layout, source, rest);
        lemma_steps_continue(a, layout, " "@);
        lemma_continues(out, a, a.str(" "@));
        lemma_comment_continues(a, layout, source, last);
        lemma_continues(out, a, a.comment(layout, source, last));
        lemma_comment_continues(a.str(" "@), layout, source, last);
        lemma_continues(out, a.str(" "@), a.str(" "@).comment(layout, source, last));
        let b = out.stacked_comments(layout, source, rest);
        let c = b.newline().indented(layout);
        lemma_steps_continue(b, layout, seq![]);
        lemma_steps_continue(b.newline(), layout, seq![]);
        lemma_continues(out, b, b.newline());
        lemma_continues(out, b.newline(), c);
        lemma_comment_continues(c, layout, source, last);
        lemma_continues(out, c, c.comment(layout, source, last));
        let d = out.listed_comments(layout, source, rest);
        let e = d.comment(layout, source, last);
        lemma_comment_continues(d, layout, source, last);
        lemma_continues(out, d, e);
        lemma_steps_continue(e, layout, seq![]);
        lemma_continues(out, e, e.newline());
    }
}

/// A group of comments is set off from what follows: by a line break where its last comment
/// needs or had one, otherwise by a space that is still to come.
pub proof fn law_group_is_set_off(
    out: Output,
    layout: Layout,
    source: Option<Seq<char>>,
    comments: Seq<Comment>,
)
    requires
        comments.len() > 0,
    ensures
        ({
            let after = out.comments(layout, source, comments);
            let breaks = comments.last().is_line() || comments.last().followed_by_newline();
            &&& breaks ==> after.ends('\n')
            &&& !breaks ==> after.pending_space
        }),
{
}

/// Behind comments inside an expression the next token needs no more space: none is pending,
/// unless space is saved.
pub proof fn law_next_token_is_glued(
    out: Output,
    layout: Layout,
    source: Option<Seq<char>>,
    comments: Seq<Comment>,
)
    requires
        comments.len() > 0,
        !layout.minify,
    ensures
        !out.group_resumed(layout, source, comments).pending_space,
{
}

/// Comments that have lost their nodes always end with a line break.
pub proof fn law_left_over_ends_line(
    out: Output,
    layout: Layout,
    source: Option<Seq<char>>,
    comments: Seq<Comment>,
)
    requires
        comments.len() > 0,
    ensures
        out.left_over(layout, source, comments).ends('\n'),
        out.comments(layout, source, closed_off(comments)).ends('\n'),
{
}

/// Each character of a text is found again in the escaped text.
pub proof fn lemma_escaped_keeps(text: Seq<char>, n: int, j: int)
    requires
        0 <= j < n <= text.len(),
    ensures
        escaped_to(text, j).len() < escaped_to(text, n).len(),
        escaped_to(text, n)[escaped_to(text, j).len() as int] == text[j],
        closes_script_at(text, j) ==> escaped_to(text, j).len() + 1 < escaped_to(text, n).len()
            && escaped_to(text, n)[escaped_to(text, j).len() as int + 1] == '\\',
    decreases n,
{
    if j < n - 1 {
        lemma_escaped_keeps(text, n - 1, j);
    }
}

/// Each character of an escaped text is one of the text, or a backslash that was put in.
proof fn lemma_escaped_from(text: Seq<char>, n: int, a: int) -> (j: int)
    requires
        0 <= n <= text.len(),
        0 <= a < escaped_to(text, n).len(),
    ensures
        0 <= j < n,
        escaped_to(text, j).len() == a || (escaped_to(text, j).len() + 1 == a
            && closes_script_at(text, j)),
    decreases n,
{
    let last = escaped_to(text, n - 1).len();
    if a < last {
        lemma_escaped_from(text, n - 1, a)
    } else {
        n - 1
    }
}

/// The next character of the text, where the escaped text goes on behind one that no tag
/// starts at.
proof fn lemma_escaped_step(text: Seq<char>, a: int, j: int)
    requires
        0 <= j < text.len(),
        escaped_to(text, j).len() == a,
        !closes_script_at(text, j),
        a + 1 < escaped(text).len(),
    ensures
        j + 1 < text.len(),
        escaped_to(text, j + 1).len() == a + 1,
        escaped(text)[a + 1] == text[j + 1],
{
    let n = text.len() as int;
    if j + 1 == n {
        assert(escaped_to(text, n).len() == a + 1);
    } else {
        lemma_escaped_keeps(text, n, j + 1);
    }
}

/// An escaped text does not close a script element.
pub proof fn law_escaped_text_closes_no_script(text: Seq<char>, a: int)
    ensures
        !closes_script_at(escaped(text), a),
{
    let e = escaped(text);
    let n = text.len() as int;
    if closes_script_at(e, a) {
        let j = lemma_escaped_from(text, n, a);
        lemma_escaped_keeps(text, n, j);
        if closes_script_at(text, j) {
            assert(false);
        }
        lemma_escaped_step(text, a, j);
        lemma_escaped_step(text, a + 1, j + 1);
        lemma_escaped_step(text, a + 2, j + 2);
        lemma_escaped_step(text, a + 3, j + 3);
        lemma_escaped_step(text, a + 4, j + 4);
        lemma_escaped_step(text, a + 5, j + 5);
        lemma_escaped_step(text, a + 6, j + 6);
        assert(closes_script_at(text, j));
    }
}

/// A text that closes no script element is left as it is, so escaping twice is escaping once.
pub proof fn law_escaping_settles(text: Seq<char>)
    ensures
        (forall|a: int| !#[trigger] closes_script_at(text, a)) ==> escaped(text) == text,
        escaped(escaped(text)) == escaped(text),
{
    if forall|a: int| !#[trigger] closes_script_at(text, a) {
        lemma_nothing_to_escape(text, text.len() as int);
        assert(text.take(text.len() as int) =~= text);
    }
    assert forall|a: int| !#[trigger] closes_script_at(escaped(text), a) by {
        law_escaped_text_closes_no_script(text, a);
    }
    lemma_nothing_to_escape(escaped(text), escaped(text).len() as int);
    assert(escaped(text).take(escaped(text).len() as int) =~= escaped(text));
}

/// Where no tag is closed, nothing is put in.
proof fn lemma_nothing_to_escape(text: Seq<char>, n: int)
    requires
        0 <= n <= text.len(),
        forall|a: int| !#[trigger] closes_script_at(text, a),
    ensures
        escaped_to(text, n) == text.take(n),
    decreases n,
{
    if n > 0 {
        lemma_nothing_to_escape(text, n - 1);
        assert(!closes_script_at(text, n - 1));
        assert(text.take(n - 1).push(text[n - 1]) =~= text.take(n));
    } else {
        assert(text.take(0) =~= seq![]);
    }
}

/// The distinct legal comments say all that the legal comments say, and nothing twice.
pub proof fn law_distinct_legal_comments(text: Seq<char>, comments: Seq<Comment>)
    ensures
        forall|words: Seq<char>| #[trigger]
            says(text, distinct_legal(text, comments), words) <==> says(text, comments, words),
        forall|i: int, j: int|
            0 <= i < j < distinct_legal(text, comments).len() ==> legal_text(
                text,
                #[trigger] distinct_legal(text, comments)[i],
            ) != legal_text(text, #[trigger] distinct_legal(text, comments)[j]),
        forall|i: int|
            0 <= i < distinct_legal(text, comments).len() ==> (#[trigger] distinct_legal(
                text,
                comments,
            )[i]).is_legal() && comments.contains(distinct_legal(text, comments)[i]),
    decreases comments.len(),
{
    let kept = distinct_legal(text, comments);
    if comments.len() > 0 {
        let rest = comments.drop_last();
        let last = comments.last();
        let before = distinct_legal(text, rest);
        law_distinct_legal_comments(text, rest);
        assert forall|words: Seq<char>| #[trigger] says(text, kept, words) <==> says(
            text,
            comments,
            words,
        ) by {
            lemma_says_more(text, comments, words);
            assert(says(text, before, words) <==> says(text, rest, words));
            if kept != before {
                assert(kept.drop_last() =~= before);
                lemma_says_more(text, kept, words);
            }
        }
        assert forall|i: int| 0 <= i < kept.len() implies (#[trigger] kept[i]).is_legal()
            && comments.contains(kept[i]) by {
            if i < before.len() {
                assert(kept[i] == before[i]);
                let k = choose|k: int| 0 <= k < rest.len() && rest[k] == before[i];
                assert(comments[k] == kept[i]);
            } else {
                assert(comments[comments.len() - 1] == kept[i]);
            }
        }
        assert forall|i: int, j: int| 0 <= i < j < kept.len() implies legal_text(
            text,
            #[trigger] kept[i],
        ) != legal_text(text, #[trigger] kept[j]) by {
            assert(kept[i] == before[i]);
            if j < before.len() {
                assert(kept[j] == before[j]);
            } else {
                assert(before[i].is_legal());
                assert(says(text, before, legal_text(text, before[i])));
            }
        }
    } else {
        assert forall|words: Seq<char>| #[trigger] says(text, kept, words) <==> says(
            text,
            comments,
            words,
        ) by {
            assert(kept =~= comments);
        }
    }
}

} // verus!
