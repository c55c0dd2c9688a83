//! How comments look at the places that put something around a group, or print comments one by
//! one.
use vstd::prelude::*;

use crate::codegen::closed_off;
use crate::comment::Comment;
use crate::options::LegalComment;
use crate::printer::{Layout, Output};
use crate::weaving::{
    ends_its_line, is_indent, joined, law_comment_is_written, law_indentation, lemma_woven_push,
    spare_behind, woven, writes,
};

verus! {

/// Within a line, the space that a group leaves pending is printed behind it, unless the group
/// has ended the line.
pub proof fn law_glued_group(
    out: Output,
    layout: Layout,
    source: Option<Seq<char>>,
    comments: Seq<Comment>,
)
    requires
        comments.len() > 0,
    ensures
        ({
            let group = out.comments(layout, source, comments);
            let after = out.group_glued(layout, source, comments);
            let at_line_start = group.text.len() > 0 && group.text[group.text.len() - 1] == '\n';
            &&& at_line_start ==> after == group
            &&& !at_line_start ==> after.text == group.text.push(' ') && !after.pending_space
            &&& ends_its_line(comments[comments.len() - 1]) ==> at_line_start
        }),
{
}

/// Inside an expression, the next token is indented where a group has ended a line, and set off
/// by a space otherwise.
pub proof fn law_resumed_group(
    out: Output,
    layout: Layout,
    source: Option<Seq<char>>,
    comments: Seq<Comment>,
) -> (gap: Seq<char>)
    requires
        comments.len() > 0,
    ensures
        ({
            let group = out.comments(layout, source, comments);
            let after = out.group_resumed(layout, source, comments);
            let at_line_start = group.text.len() > 0 && group.text[group.text.len() - 1] == '\n';
            &&& after.text == group.text + gap
            &&& at_line_start ==> is_indent(layout, group.pending_space, gap)
            &&& !at_line_start ==> gap == seq![' ']
            &&& ends_its_line(comments[comments.len() - 1]) ==> at_line_start
            &&& after.pending_space <==> at_line_start && group.pending_space && layout.minify
        }),
{
    let group = out.comments(layout, source, comments);
    if group.ends('\n') {
        law_indentation(group, layout)
    } else {
        assert(group.text + seq![' '] =~= group.text.push(' '));
        seq![' ']
    }
}

/// Behind a token, a group is set off from the token by a space, unless space is saved, and
/// leaves no space to come.
pub proof fn law_group_behind(
    out: Output,
    layout: Layout,
    source: Option<Seq<char>>,
    comments: Seq<Comment>,
)
    requires
        comments.len() > 0,
    ensures
        ({
            let token = Output {
                text: if layout.minify {
                    out.text
                } else {
                    out.text.push(' ')
                },
                pending_space: out.pending_space,
            };
            let after = out.group_behind(layout, source, comments);
            &&& after.text == token.comments(layout, source, comments).text
            &&& !after.pending_space
        }),
{
}

/// Comments that have lost their nodes are set off by a space from what stands before them on
/// their line, unless space is saved, and a line break is stated behind the last of them.
pub proof fn law_left_over_group(
    out: Output,
    layout: Layout,
    source: Option<Seq<char>>,
    comments: Seq<Comment>,
)
    requires
        comments.len() > 0,
    ensures
        ({
            let n = comments.len() as int;
            let closed = closed_off(comments);
            let at_line_start = out.text.len() > 0 && out.text[out.text.len() - 1] == '\n';
            let before = if at_line_start || comments[0].newlines.leading || layout.minify {
                out
            } else {
                Output { text: out.text.push(' '), pending_space: out.pending_space }
            };
            &&& out.left_over(layout, source, comments) == before.comments(layout, source, closed)
            &&& closed.len() == n
            &&& forall|k: int| 0 <= k < n - 1 ==> #[trigger] closed[k] == comments[k]
            &&& closed[n - 1].newlines.trailing
            &&& closed[n - 1].newlines.leading == comments[n - 1].newlines.leading
            &&& closed[n - 1].span == comments[n - 1].span
            &&& closed[n - 1].attached_to == comments[n - 1].attached_to
            &&& closed[n - 1].kind == comments[n - 1].kind
            &&& closed[n - 1].position == comments[n - 1].position
            &&& closed[n - 1].content == comments[n - 1].content
        }),
{
}

/// Is a spare space still at hand behind the first `k` comments of a row? Where each has a line
/// of its own, the first indentation uses it up.
pub open spec fn spare_in_row(
    layout: Layout,
    spare: bool,
    source: Option<Seq<char>>,
    comments: Seq<Comment>,
    own_lines: bool,
    k: int,
) -> bool
    decreases k,
{
    if k <= 0 {
        spare
    } else {
        spare_behind(
            layout,
            spare_in_row(layout, spare, source, comments, own_lines, k - 1) && (layout.minify
                || !own_lines),
            source,
            comments[k - 1],
        )
    }
}

/// Are these the texts of comments in a row?
pub open spec fn is_row(
    layout: Layout,
    spare: bool,
    source: Option<Seq<char>>,
    comments: Seq<Comment>,
    own_lines: bool,
    texts: Seq<Seq<char>>,
) -> bool {
    &&& texts.len() == comments.len()
    &&& forall|k: int|
        0 <= k < comments.len() ==> writes(
            layout,
            spare_in_row(layout, spare, source, comments, own_lines, k) && (layout.minify
                || !own_lines),
            source,
            comments[k],
            #[trigger] texts[k],
        )
}

/// Later comments of a row have no bearing on whether a spare space is at hand.
proof fn lemma_spare_in_row(
    layout: Layout,
    spare: bool,
    source: Option<Seq<char>>,
    comments: Seq<Comment>,
    own_lines: bool,
    k: int,
)
    requires
        0 <= k < comments.len(),
    ensures
        spare_in_row(layout, spare, source, comments.drop_last(), own_lines, k) == spare_in_row(
            layout,
            spare,
            source,
            comments,
            own_lines,
            k,
        ),
    decreases k,
{
    if k > 0 {
        lemma_spare_in_row(layout, spare, source, comments, own_lines, k - 1);
    }
}

/// No spare space comes up in a row.
proof fn lemma_no_spare(
    layout: Layout,
    source: Option<Seq<char>>,
    comments: Seq<Comment>,
    k: int,
)
    ensures
        !spare_in_row(layout, false, source, comments, false, k),
    decreases k,
{
    if k > 0 {
        lemma_no_spare(layout, source, comments, k - 1);
    }
}

/// One more comment at the end of a row.
proof fn lemma_row_grows(
    layout: Layout,
    spare: bool,
    source: Option<Seq<char>>,
    comments: Seq<Comment>,
    own_lines: bool,
    texts: Seq<Seq<char>>,
    piece: Seq<char>,
)
    requires
        comments.len() > 0,
        is_row(layout, spare, source, comments.drop_last(), own_lines, texts),
        writes(
            layout,
            spare_in_row(
                layout,
                spare,
                source,
                comments.drop_last(),
                own_lines,
                comments.len() - 1,
            ) && (layout.minify || !own_lines),
            source,
            comments.last(),
            piece,
        ),
    ensures
        is_row(layout, spare, source, comments, own_lines, texts.push(piece)),
        spare_in_row(
            layout,
            spare,
            source,
            comments.drop_last(),
            own_lines,
            comments.len() - 1,
        ) == spare_in_row(layout, spare, source, comments, own_lines, comments.len() - 1),
{
    let rest = comments.drop_last();
    lemma_spare_in_row(layout, spare, source, comments, own_lines, comments.len() - 1);
    assert forall|k: int| 0 <= k < comments.len() implies writes(
        layout,
        spare_in_row(layout, spare, source, comments, own_lines, k) && (layout.minify
            || !own_lines),
        source,
        comments[k],
        #[trigger] texts.push(piece)[k],
    ) by {
        lemma_spare_in_row(layout, spare, source, comments, own_lines, k);
        if k < rest.len() {
            assert(writes(
                layout,
                spare_in_row(layout, spare, source, rest, own_lines, k) && (layout.minify
                    || !own_lines),
                source,
                rest[k],
                texts[k],
            ));
        }
    }
}

/// Comments in a row have a space between them and nothing around them.
pub proof fn law_comments_in_a_row(
    out: Output,
    layout: Layout,
    source: Option<Seq<char>>,
    comments: Seq<Comment>,
) -> (parts: (Seq<Seq<char>>, Seq<Seq<char>>))
    ensures
        ({
            let (gaps, texts) = parts;
            let n = comments.len() as int;
            let spare = out.pending_space;
            let after = out.spaced_comments(layout, source, comments);
            &&& is_row(layout, spare, source, comments, false, texts)
            &&& gaps.len() == n
            &&& forall|k: int|
                0 <= k < n ==> #[trigger] gaps[k] == (if k == 0 {
                    seq![]
                } else {
                    seq![' ']
                })
            &&& after.text == out.text + woven(gaps, texts)
            &&& after.pending_space == spare_in_row(layout, spare, source, comments, false, n)
        }),
    decreases comments.len(),
{
    let none = Seq::<Seq<char>>::empty();
    if comments.len() == 0 {
        assert(out.text + woven(none, none) =~= out.text);
        (none, none)
    } else {
        let rest = comments.drop_last();
        let (gaps, texts) = law_comments_in_a_row(out, layout, source, rest);
        let before = out.spaced_comments(layout, source, rest);
        reveal_strlit(" ");
        assert(" "@ =~= seq![' ']);
        let gap: Seq<char> = if comments.len() == 1 {
            seq![]
        } else {
            seq![' ']
        };
        let at = if comments.len() == 1 {
            before
        } else {
            before.str(" "@)
        };
        assert(at.text =~= before.text + gap);
        let piece = law_comment_is_written(at, layout, source, comments.last());
        lemma_row_grows(layout, out.pending_space, source, comments, false, texts, piece);
        lemma_woven_push(gaps, texts, gap, piece);
        assert(out.text + (woven(gaps, texts) + gap + piece) =~= out.text + woven(gaps, texts) + gap
            + piece);
        (gaps.push(gap), texts.push(piece))
    }
}

/// Comments on lines of their own have a line break and an indentation before each.
pub proof fn law_comments_on_lines(
    out: Output,
    layout: Layout,
    source: Option<Seq<char>>,
    comments: Seq<Comment>,
) -> (parts: (Seq<Seq<char>>, Seq<Seq<char>>))
    ensures
        ({
            let (gaps, texts) = parts;
            let n = comments.len() as int;
            let spare = out.pending_space;
            let after = out.stacked_comments(layout, source, comments);
            &&& is_row(layout, spare, source, comments, true, texts)
            &&& gaps.len() == n
            &&& forall|k: int|
                0 <= k < n ==> (#[trigger] gaps[k]).len() > 0 && gaps[k][0] == '\n' && is_indent(
                    layout,
                    spare_in_row(layout, spare, source, comments, true, k),
                    gaps[k].skip(1),
                )
            &&& after.text == out.text + woven(gaps, texts)
            &&& after.pending_space == spare_in_row(layout, spare, source, comments, true, n)
        }),
    decreases comments.len(),
{
    let none = Seq::<Seq<char>>::empty();
    let spare = out.pending_space;
    if comments.len() == 0 {
        assert(out.text + woven(none, none) =~= out.text);
        (none, none)
    } else {
        let rest = comments.drop_last();
        let (gaps, texts) = law_comments_on_lines(out, layout, source, rest);
        let before = out.stacked_comments(layout, source, rest);
        let indent = law_indentation(before.newline(), layout);
        let gap = seq!['\n'] + indent;
        assert(gap.skip(1) =~= indent);
        assert(before.text.push('\n') + indent =~= before.text + gap);
        let at = before.newline().indented(layout);
        let piece = law_comment_is_written(at, layout, source, comments.last());
        lemma_row_grows(layout, spare, source, comments, true, texts, piece);
        lemma_woven_push(gaps, texts, gap, piece);
        assert(out.text + (woven(gaps, texts) + gap + piece) =~= out.text + woven(gaps, texts) + gap
            + piece);
        assert forall|k: int| 0 <= k < comments.len() implies (#[trigger] gaps.push(gap)[k]).len()
            > 0 && gaps.push(gap)[k][0] == '\n' && is_indent(
            layout,
            spare_in_row(layout, spare, source, comments, true, k),
            gaps.push(gap)[k].skip(1),
        ) by {
            lemma_spare_in_row(layout, spare, source, comments, true, k);
            if k < rest.len() {
                assert(is_indent(
                    layout,
                    spare_in_row(layout, spare, source, rest, true, k),
                    gaps[k].skip(1),
                ));
            }
        }
        (gaps.push(gap), texts.push(piece))
    }
}

/// Listed comments have a line break behind each.
pub proof fn law_comments_in_a_list(
    out: Output,
    layout: Layout,
    source: Option<Seq<char>>,
    comments: Seq<Comment>,
) -> (texts: Seq<Seq<char>>)
    ensures
        ({
            let after = out.listed_comments(layout, source, comments);
            let n = comments.len() as int;
            let spare = out.pending_space;
            let rows = Seq::new(texts.len(), |k: int| texts[k].push('\n'));
            &&& is_row(layout, spare, source, comments, false, texts)
            &&& after.text == out.text + joined(rows)
            &&& after.pending_space == spare_in_row(layout, spare, source, comments, false, n)
        }),
    decreases comments.len(),
{
    let none = Seq::<Seq<char>>::empty();
    if comments.len() == 0 {
        let rows = Seq::new(none.len(), |k: int| none[k].push('\n'));
        assert(rows =~= none);
        assert(out.text + joined(none) =~= out.text);
        none
    } else {
        let rest = comments.drop_last();
        let texts = law_comments_in_a_list(out, layout, source, rest);
        let rows = Seq::new(texts.len(), |k: int| texts[k].push('\n'));
        let before = out.listed_comments(layout, source, rest);
        let piece = law_comment_is_written(before, layout, source, comments.last());
        let more = texts.push(piece);
        let more_rows = Seq::new(more.len(), |k: int| more[k].push('\n'));
        assert(more_rows.drop_last() =~= rows);
        assert(more_rows.last() == piece.push('\n'));
        assert(out.text + joined(more_rows) =~= (out.text + joined(rows) + piece).push('\n'));
        lemma_row_grows(layout, out.pending_space, source, comments, false, texts, piece);
        more
    }
}

/// At the end of the output, legal comments stand in a list on a new line, where they are to be
/// moved there; where they are handed out, a link may stand for them. Where there are none,
/// nothing is added.
pub proof fn law_legal_end(
    out: Output,
    layout: Layout,
    source: Option<Seq<char>>,
    legal: LegalComment,
    comments: Seq<Comment>,
) -> (texts: Seq<Seq<char>>)
    ensures
        ({
            let after = out.legal_end(layout, source, legal, comments);
            let rows = Seq::new(texts.len(), |k: int| texts[k].push('\n'));
            if comments.len() == 0 {
                after == out
            } else {
                match legal {
                    LegalComment::Eof => {
                        &&& texts.len() == comments.len()
                        &&& forall|k: int|
                            0 <= k < comments.len() ==> writes(
                                layout,
                                false,
                                source,
                                comments[k],
                                #[trigger] texts[k],
                            )
                        &&& after.text == out.text.push('\n') + joined(rows)
                        &&& !after.pending_space
                    },
                    LegalComment::Linked(path) => {
                        &&& after.text == out.text.push('\n')
                            + "/*! For license information please see "@ + path@ + " */"@
                        &&& after.pending_space == out.pending_space
                    },
                    LegalComment::Omit | LegalComment::Inline | LegalComment::External => after
                        == out,
                }
            }
        }),
{
    let texts = law_comments_in_a_list(out.newline().cleared(), layout, source, comments);
    assert forall|k: int| 0 <= k <= comments.len() implies !#[trigger] spare_in_row(
        layout,
        false,
        source,
        comments,
        false,
        k,
    ) by {
        lemma_no_spare(layout, source, comments, k);
    }
    texts
}

} // verus!
