//! When legal comments repeat each other, told by their lines.
use vstd::prelude::*;

use crate::comment::{Comment, CommentContent, CommentKind};
use crate::cuts::law_lines;
use crate::legal::{distinct_legal, handed_over, legal_text, says, tabbed, tabbed_line};
use crate::options::LegalComment;
use crate::questions::leads;
use crate::spots::{is_blank, law_trimming};
use crate::text::{lines_of, text_between, trimmed};
use crate::weaving::{closes_block, is_core, lemma_block_marks, opens_block};

verus! {

/// Is the comment one to be kept for legal reasons?
pub open spec fn is_licence(c: Comment) -> bool {
    leads(c) && (c.content == CommentContent::Legal || c.content == CommentContent::JsdocLegal)
}

/// The part of the source that is the comment.
pub open spec fn body_of(text: Seq<char>, c: Comment) -> Seq<char> {
    text_between(text, c.span.start as int, c.span.end as int)
}

/// Does no line but the last close the block comment?
pub open spec fn closes_at_its_end(lines: Seq<Seq<char>>) -> bool {
    forall|k: int| 0 <= k < lines.len() - 1 ==> !closes_block(#[trigger] lines[k])
}

/// Do two lines differ in nothing but the white space they start with?
pub open spec fn same_but_for_indentation(a: Seq<char>, b: Seq<char>) -> bool {
    &&& opens_block(a) == opens_block(b)
    &&& exists|core: Seq<char>| #[trigger] is_core(a, core) && is_core(b, core)
}

/// Do two texts differ in nothing but the white space that their lines start with?
pub open spec fn same_lines(a: Seq<Seq<char>>, b: Seq<Seq<char>>) -> bool {
    &&& a.len() == b.len()
    &&& forall|k: int|
        0 <= k < a.len() ==> same_but_for_indentation(#[trigger] a[k], #[trigger] b[k])
}

/// Do two comments say the same? Where both are blocks of several lines, the white space that
/// their lines start with does not count.
pub open spec fn repeats(text: Seq<char>, a: Comment, b: Comment) -> bool {
    if a.kind == CommentKind::MultiLineBlock && b.kind == CommentKind::MultiLineBlock {
        same_lines(lines_of(body_of(text, a)), lines_of(body_of(text, b)))
    } else {
        a.kind != CommentKind::MultiLineBlock && b.kind != CommentKind::MultiLineBlock && body_of(
            text,
            a,
        ) == body_of(text, b)
    }
}

/// Is the comment of the form that its kind says: without a line break in it, or a block of
/// several lines that is closed by the last of them?
pub open spec fn well_formed(text: Seq<char>, c: Comment) -> bool {
    let body = body_of(text, c);
    match c.kind {
        CommentKind::MultiLineBlock => lines_of(body).len() >= 2 && closes_at_its_end(
            lines_of(body),
        ),
        CommentKind::Line | CommentKind::SingleLineBlock => !body.contains('\n'),
    }
}

/// A core is the trimmed line.
proof fn lemma_core_is_trimmed(line: Seq<char>, core: Seq<char>)
    ensures
        is_core(line, core) <==> core == trimmed(line),
{
    let n = law_trimming(line);
    assert(trimmed(line) == line.skip(n));
    if is_core(line, core) {
        let m = choose|m: int|
            0 <= m <= line.len() && core == #[trigger] line.skip(m) && (forall|i: int|
                0 <= i < m ==> is_blank(#[trigger] line[i])) && (m < line.len() ==> !is_blank(
                line[m],
            ));
        if m < n {
            assert(is_blank(line[m]));
        }
        if n < m {
            assert(is_blank(line[n]));
        }
    }
}

/// How a line is told apart from others: its first and last characters show whether it opens
/// or closes the comment, and a line break comes last if at all.
proof fn lemma_tabbed_line(line: Seq<char>)
    requires
        !line.contains('\n'),
    ensures
        ({
            let piece = tabbed_line(line);
            &&& piece.len() > 0
            &&& piece[0] == '\t' <==> !opens_block(line)
            &&& piece[piece.len() - 1] == '\n' <==> !closes_block(line)
            &&& forall|i: int| 0 <= i < piece.len() - 1 ==> #[trigger] piece[i] != '\n'
            &&& trimmed(line) == piece.subrange(
                if opens_block(line) {
                    0
                } else {
                    1
                },
                if closes_block(line) {
                    piece.len() as int
                } else {
                    piece.len() - 1
                },
            )
        }),
{
    let piece = tabbed_line(line);
    let n = law_trimming(line);
    lemma_block_marks(line);
    let core = trimmed(line);
    if opens_block(line) {
        assert(!is_blank(line[0]));
        assert(n == 0) by {
            if n > 0 {
                assert(is_blank(line[0]));
            }
        }
        assert(core[0] == line[0]);
    }
    if closes_block(line) {
        let m = line.len() - 2;
        if n > m {
            assert(is_blank(line[m]));
        }
        assert(core[core.len() - 1] == line[line.len() - 1]);
    }
    assert forall|i: int| 0 <= i < core.len() implies #[trigger] core[i] != '\n' by {
        assert(core[i] == line[n + i]);
        assert(line.contains(line[n + i]));
    }
    assert(trimmed(line) =~= piece.subrange(
        if opens_block(line) {
            0
        } else {
            1
        },
        if closes_block(line) {
            piece.len() as int
        } else {
            piece.len() - 1
        },
    ));
}

/// Do the lines hold no line feed?
pub open spec fn free_of_breaks(lines: Seq<Seq<char>>) -> bool {
    forall|k: int| 0 <= k < lines.len() ==> !(#[trigger] lines[k]).contains('\n')
}

/// Where no line closes the comment, a line break comes last.
proof fn lemma_tabbed_ends(lines: Seq<Seq<char>>)
    requires
        free_of_breaks(lines),
        forall|k: int| 0 <= k < lines.len() ==> !closes_block(#[trigger] lines[k]),
    ensures
        tabbed(lines).len() > 0 <==> lines.len() > 0,
        lines.len() > 0 ==> tabbed(lines)[tabbed(lines).len() - 1] == '\n',
{
    if lines.len() > 0 {
        let last = lines[lines.len() - 1];
        lemma_tabbed_line(last);
        assert(!closes_block(last));
        let before = tabbed(lines.drop_last());
        let piece = tabbed_line(last);
        assert(tabbed(lines) == before + piece);
        assert((before + piece)[(before + piece).len() - 1] == piece[piece.len() - 1]);
    }
}

/// The last lines are alike, where the wholes are.
proof fn lemma_last_pieces(a: Seq<Seq<char>>, b: Seq<Seq<char>>)
    requires
        a.len() > 0,
        b.len() > 0,
        free_of_breaks(a),
        free_of_breaks(b),
        closes_at_its_end(a),
        closes_at_its_end(b),
        tabbed(a) == tabbed(b),
    ensures
        tabbed_line(a.last()).len() >= tabbed_line(b.last()).len(),
{
    let x = tabbed_line(a.last());
    let y = tabbed_line(b.last());
    let all = tabbed(a);
    assert(a[a.len() - 1] == a.last());
    assert(b[b.len() - 1] == b.last());
    lemma_tabbed_line(a.last());
    lemma_tabbed_line(b.last());
    let rest = a.drop_last();
    assert forall|k: int| 0 <= k < rest.len() implies !(#[trigger] rest[k]).contains('\n')
        && !closes_block(rest[k]) by {
        assert(rest[k] == a[k]);
    }
    lemma_tabbed_ends(rest);
    if x.len() < y.len() {
        let at = all.len() - x.len() - 1;
        assert(all == tabbed(rest) + x);
        assert(all == tabbed(b.drop_last()) + y);
        assert(at >= 0);
        assert(rest.len() > 0);
        assert(all[at] == tabbed(rest)[tabbed(rest).len() - 1]);
        assert(all[at] == y[y.len() - x.len() - 1]);
    }
}

/// Lines with one tab in place of their own indentation tell the lines, but for the white space
/// they start with.
proof fn lemma_tabbed_tells(a: Seq<Seq<char>>, b: Seq<Seq<char>>)
    requires
        free_of_breaks(a),
        free_of_breaks(b),
        closes_at_its_end(a),
        closes_at_its_end(b),
        tabbed(a) == tabbed(b),
    ensures
        same_lines(a, b),
    decreases a.len(),
{
    if a.len() == 0 || b.len() == 0 {
        if a.len() > 0 {
            assert(a[a.len() - 1] == a.last());
            lemma_tabbed_line(a.last());
        }
        if b.len() > 0 {
            assert(b[b.len() - 1] == b.last());
            lemma_tabbed_line(b.last());
        }
    } else {
        let x = tabbed_line(a.last());
        let y = tabbed_line(b.last());
        let s = a.drop_last();
        let t = b.drop_last();
        assert(a[a.len() - 1] == a.last());
        assert(b[b.len() - 1] == b.last());
        lemma_last_pieces(a, b);
        lemma_last_pieces(b, a);
        assert(x =~= tabbed(a).skip(tabbed(a).len() - x.len()));
        assert(y =~= tabbed(b).skip(tabbed(b).len() - y.len()));
        assert(tabbed(s) =~= tabbed(a).take(tabbed(a).len() - x.len()));
        assert(tabbed(t) =~= tabbed(b).take(tabbed(b).len() - y.len()));
        assert forall|k: int| 0 <= k < s.len() implies !(#[trigger] s[k]).contains('\n')
            && !closes_block(s[k]) by {
            assert(s[k] == a[k]);
        }
        assert forall|k: int| 0 <= k < t.len() implies !(#[trigger] t[k]).contains('\n')
            && !closes_block(t[k]) by {
            assert(t[k] == b[k]);
        }
        lemma_tabbed_tells(s, t);
        lemma_tabbed_line(a.last());
        lemma_tabbed_line(b.last());
        lemma_core_is_trimmed(a.last(), trimmed(a.last()));
        lemma_core_is_trimmed(b.last(), trimmed(a.last()));
        assert(same_but_for_indentation(a.last(), b.last()));
        assert forall|k: int| 0 <= k < a.len() implies same_but_for_indentation(
            #[trigger] a[k],
            #[trigger] b[k],
        ) by {
            if k < s.len() {
                assert(same_but_for_indentation(s[k], t[k]));
            }
        }
    }
}

/// Lines that differ only in the white space they start with come out the same.
proof fn lemma_same_lines_are_tabbed_alike(a: Seq<Seq<char>>, b: Seq<Seq<char>>)
    requires
        same_lines(a, b),
        free_of_breaks(a),
        free_of_breaks(b),
    ensures
        tabbed(a) == tabbed(b),
    decreases a.len(),
{
    if a.len() > 0 {
        let s = a.drop_last();
        let t = b.drop_last();
        assert forall|k: int| 0 <= k < s.len() implies same_but_for_indentation(
            #[trigger] s[k],
            #[trigger] t[k],
        ) by {
            assert(same_but_for_indentation(a[k], b[k]));
        }
        assert forall|k: int| 0 <= k < s.len() implies !(#[trigger] s[k]).contains('\n') by {
            assert(s[k] == a[k]);
        }
        assert forall|k: int| 0 <= k < t.len() implies !(#[trigger] t[k]).contains('\n') by {
            assert(t[k] == b[k]);
        }
        lemma_same_lines_are_tabbed_alike(s, t);
        let l = a[a.len() - 1];
        let m = b[b.len() - 1];
        assert(same_but_for_indentation(l, m));
        let core = choose|core: Seq<char>| #[trigger] is_core(l, core) && is_core(m, core);
        lemma_core_is_trimmed(l, core);
        lemma_core_is_trimmed(m, core);
        lemma_block_marks(l);
        lemma_block_marks(m);
        lemma_closes_with_core(l);
        lemma_closes_with_core(m);
    }
}

/// The trimmed line closes the comment where the line does.
proof fn lemma_closes_with_core(line: Seq<char>)
    ensures
        closes_block(line) <==> closes_block(trimmed(line)),
{
    let n = law_trimming(line);
    let core = trimmed(line);
    if closes_block(line) {
        if n > line.len() - 2 {
            assert(is_blank(line[line.len() - 2]));
        }
        assert(core[core.len() - 1] == line[line.len() - 1]);
        assert(core[core.len() - 2] == line[line.len() - 2]);
    }
    if closes_block(core) {
        assert(core[core.len() - 1] == line[line.len() - 1]);
        assert(core[core.len() - 2] == line[line.len() - 2]);
    }
}

/// The lines of a text hold no line feed.
proof fn lemma_lines_are_free_of_breaks(text: Seq<char>)
    ensures
        free_of_breaks(lines_of(text)),
{
    let lines = lines_of(text);
    let breaks = law_lines(text);
    assert forall|k: int| 0 <= k < lines.len() implies !(#[trigger] lines[k]).contains('\n') by {
        if lines[k].contains('\n') {
            let i = choose|i: int| 0 <= i < lines[k].len() && lines[k][i] == '\n';
            assert(!crate::spots::is_terminator(lines[k][i]));
        }
    }
}

/// Two comments of the forms that their kinds say are told apart by their words exactly where
/// they do not repeat each other: one-line comments by their text, longer blocks line by line,
/// but for the white space that the lines start with, and one from the other always.
pub proof fn law_repetition(text: Seq<char>, a: Comment, b: Comment)
    requires
        well_formed(text, a),
        well_formed(text, b),
    ensures
        legal_text(text, a) == legal_text(text, b) <==> repeats(text, a, b),
{
    let s = lines_of(body_of(text, a));
    let t = lines_of(body_of(text, b));
    lemma_lines_are_free_of_breaks(body_of(text, a));
    lemma_lines_are_free_of_breaks(body_of(text, b));
    if a.kind == CommentKind::MultiLineBlock && b.kind == CommentKind::MultiLineBlock {
        if tabbed(s) == tabbed(t) {
            lemma_tabbed_tells(s, t);
        }
        if same_lines(s, t) {
            lemma_same_lines_are_tabbed_alike(s, t);
        }
    } else if a.kind == CommentKind::MultiLineBlock {
        lemma_longer_block_has_break(s);
    } else if b.kind == CommentKind::MultiLineBlock {
        lemma_longer_block_has_break(t);
    }
}

/// The words of a block of several lines hold a line break.
proof fn lemma_longer_block_has_break(lines: Seq<Seq<char>>)
    requires
        lines.len() >= 2,
        free_of_breaks(lines),
        closes_at_its_end(lines),
    ensures
        tabbed(lines).contains('\n'),
{
    let rest = lines.drop_last();
    assert forall|k: int| 0 <= k < rest.len() implies !(#[trigger] rest[k]).contains('\n')
        && !closes_block(rest[k]) by {
        assert(rest[k] == lines[k]);
    }
    lemma_tabbed_ends(rest);
    let at = tabbed(rest).len() - 1;
    assert(tabbed(lines)[at] == '\n');
}

/// A legal comment that repeats no earlier one is among those that are kept, whatever its form.
pub proof fn law_new_licences_are_kept(text: Seq<char>, comments: Seq<Comment>, i: int)
    requires
        0 <= i < comments.len(),
        is_licence(comments[i]),
        well_formed(text, comments[i]),
        forall|j: int|
            0 <= j < i && is_licence(#[trigger] comments[j]) ==> well_formed(text, comments[j])
                && !repeats(text, comments[j], comments[i]),
    ensures
        distinct_legal(text, comments).contains(comments[i]),
    decreases comments.len(),
{
    let rest = comments.drop_last();
    let kept = distinct_legal(text, comments);
    if i < rest.len() {
        assert forall|j: int| 0 <= j < i && is_licence(#[trigger] rest[j]) implies well_formed(
            text,
            rest[j],
        ) && !repeats(text, rest[j], rest[i]) by {
            assert(rest[j] == comments[j]);
        }
        law_new_licences_are_kept(text, rest, i);
        let before = distinct_legal(text, rest);
        let k = choose|k: int| 0 <= k < before.len() && before[k] == rest[i];
        assert(kept[k] == comments[i]);
    } else {
        let words = legal_text(text, comments[i]);
        if says(text, rest, words) {
            let j = choose|j: int|
                0 <= j < rest.len() && (#[trigger] rest[j]).is_legal() && legal_text(text, rest[j])
                    == words;
            assert(rest[j] == comments[j]);
            law_repetition(text, comments[j], comments[i]);
        }
        assert(kept[kept.len() - 1] == comments[i]);
    }
}

/// A legal comment that repeats an earlier one is not kept again.
pub proof fn law_repeated_licences_are_dropped(
    text: Seq<char>,
    comments: Seq<Comment>,
    j: int,
    i: int,
)
    requires
        0 <= j < i < comments.len(),
        is_licence(comments[j]),
        is_licence(comments[i]),
        well_formed(text, comments[j]),
        well_formed(text, comments[i]),
        repeats(text, comments[j], comments[i]),
    ensures
        distinct_legal(text, comments.take(i + 1)) == distinct_legal(text, comments.take(i)),
{
    let rest = comments.take(i);
    assert(comments.take(i + 1).drop_last() =~= rest);
    law_repetition(text, comments[j], comments[i]);
    assert(rest[j] == comments[j]);
    assert(says(text, rest, legal_text(text, comments[i])));
}

/// The comments that are kept are legal comments, in the order of the source, none twice.
pub proof fn law_licences_keep_their_order(text: Seq<char>, comments: Seq<Comment>) -> (places: Seq<
    int,
>)
    ensures
        ({
            let kept = distinct_legal(text, comments);
            &&& places.len() == kept.len()
            &&& forall|k: int|
                0 <= k < places.len() ==> 0 <= #[trigger] places[k] < comments.len() && kept[k]
                    == comments[places[k]] && is_licence(kept[k])
            &&& forall|k: int, m: int|
                0 <= k < m < places.len() ==> #[trigger] places[k] < #[trigger] places[m]
        }),
    decreases comments.len(),
{
    if comments.len() == 0 {
        Seq::empty()
    } else {
        let rest = comments.drop_last();
        let before = law_licences_keep_their_order(text, rest);
        let last = comments.last();
        if last.is_legal() && !says(text, rest, legal_text(text, last)) {
            let places = before.push(comments.len() - 1);
            let kept = distinct_legal(text, comments);
            assert forall|k: int| 0 <= k < places.len() implies 0 <= #[trigger] places[k]
                < comments.len() && kept[k] == comments[places[k]] && is_licence(kept[k]) by {
                if k < before.len() {
                    assert(before[k] < rest.len());
                    assert(rest[before[k]] == comments[before[k]]);
                }
            }
            places
        } else {
            assert forall|k: int| 0 <= k < before.len() implies 0 <= #[trigger] before[k]
                < comments.len() && distinct_legal(text, comments)[k] == comments[before[k]]
                && is_licence(distinct_legal(text, comments)[k]) by {
                assert(rest[before[k]] == comments[before[k]]);
            }
            before
        }
    }
}

/// Legal comments are handed out where they are to be linked or kept elsewhere, and in no other
/// case.
pub proof fn law_licences_handed_out(legal: LegalComment, comments: Seq<Comment>)
    ensures
        match legal {
            LegalComment::Linked(_) | LegalComment::External => handed_over(legal, comments)
                == comments,
            LegalComment::Omit | LegalComment::Inline | LegalComment::Eof => handed_over(
                legal,
                comments,
            ).len() == 0,
        },
{
}

} // verus!
