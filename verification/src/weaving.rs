//! What a group of comments looks like in the output: the texts of the comments in their order,
//! and the white space between them.
use vstd::prelude::*;

use crate::codegen::closed_off;
use crate::comment::{Comment, CommentContent, CommentKind};
use crate::printer::{Layout, Output};
use crate::questions::leads;
use crate::spots::{is_blank, law_trimming};
use crate::text::{escaped, lines_of, text_between, trimmed};

verus! {

/// Texts one behind the other.
pub open spec fn joined(parts: Seq<Seq<char>>) -> Seq<char>
    decreases parts.len(),
{
    if parts.len() == 0 {
        seq![]
    } else {
        joined(parts.drop_last()) + parts.last()
    }
}

/// Texts one behind the other, with a gap before each.
pub open spec fn woven(gaps: Seq<Seq<char>>, texts: Seq<Seq<char>>) -> Seq<char>
    decreases texts.len(),
{
    if texts.len() == 0 {
        seq![]
    } else {
        woven(gaps.drop_last(), texts.drop_last()) + gaps.last() + texts.last()
    }
}

/// Is this an indentation? It has a tab for each level, unless space is saved; where a spare
/// space is at hand, that stands for it.
pub open spec fn is_indent(layout: Layout, spare: bool, s: Seq<char>) -> bool {
    if layout.minify {
        s.len() == 0
    } else if spare {
        s.len() == 1 && s[0] == ' '
    } else {
        s.len() == layout.indent && forall|i: int| 0 <= i < s.len() ==> s[i] == '\t'
    }
}

/// Does the line open a block comment?
pub open spec fn opens_block(line: Seq<char>) -> bool {
    line.len() >= 2 && line[0] == '/' && line[1] == '*'
}

/// Does the line close a block comment?
pub open spec fn closes_block(line: Seq<char>) -> bool {
    line.len() >= 2 && line[line.len() - 2] == '*' && line[line.len() - 1] == '/'
}

/// Is `core` the line without the white space it starts with?
pub open spec fn is_core(line: Seq<char>, core: Seq<char>) -> bool {
    exists|n: int|
        0 <= n <= line.len() && core == #[trigger] line.skip(n) && (forall|i: int|
            0 <= i < n ==> is_blank(#[trigger] line[i])) && (n < line.len() ==> !is_blank(line[n]))
}

/// Is `piece` how a line of a block comment is written? Its own indentation gives way to that
/// of the output, unless it opens the comment, and a line break follows, unless it closes the
/// comment.
pub open spec fn writes_line(
    layout: Layout,
    spare: bool,
    line: Seq<char>,
    piece: Seq<char>,
) -> bool {
    exists|indent: Seq<char>, core: Seq<char>|
        #![trigger indent + escaped(core)]
        is_core(line, core) && (if opens_block(line) {
            indent.len() == 0
        } else {
            is_indent(layout, spare, indent)
        }) && piece == (if closes_block(line) {
            indent + escaped(core)
        } else {
            (indent + escaped(core)).push('\n')
        })
}

/// Do all of the lines open a block comment, so that none of them is indented?
pub open spec fn all_open(lines: Seq<Seq<char>>) -> bool {
    forall|k: int| 0 <= k < lines.len() ==> opens_block(#[trigger] lines[k])
}

/// Is `piece` how the lines of a block comment are written? A spare space stands for the first
/// indentation.
pub open spec fn writes_lines(
    layout: Layout,
    spare: bool,
    lines: Seq<Seq<char>>,
    piece: Seq<char>,
) -> bool {
    exists|pieces: Seq<Seq<char>>| #[trigger]
        joined(pieces) == piece && pieces.len() == lines.len() && forall|k: int|
            0 <= k < lines.len() ==> writes_line(
                layout,
                spare && all_open(lines.take(k)),
                lines[k],
                #[trigger] pieces[k],
            )
}

/// Is `piece` how a comment is written? A line comment and a block on one line are written as
/// they are in the source, a longer block line by line. Without the source, nothing is.
pub open spec fn writes(
    layout: Layout,
    spare: bool,
    source: Option<Seq<char>>,
    c: Comment,
    piece: Seq<char>,
) -> bool {
    match source {
        None => piece.len() == 0,
        Some(text) => {
            let body = text_between(text, c.span.start as int, c.span.end as int);
            match c.kind {
                CommentKind::Line | CommentKind::SingleLineBlock => piece == escaped(body),
                CommentKind::MultiLineBlock => writes_lines(layout, spare, lines_of(body), piece),
            }
        },
    }
}

/// Is a spare space still at hand behind the comment?
pub open spec fn spare_behind(
    layout: Layout,
    spare: bool,
    source: Option<Seq<char>>,
    c: Comment,
) -> bool {
    spare && match source {
        None => true,
        Some(text) => c.kind != CommentKind::MultiLineBlock || layout.minify || all_open(
            lines_of(text_between(text, c.span.start as int, c.span.end as int)),
        ),
    }
}

/// Is a spare space still at hand before comment `k` of a group? A comment within a line uses it
/// up where it comes first, and so does an indentation.
pub open spec fn spare_before(
    out: Output,
    layout: Layout,
    source: Option<Seq<char>>,
    comments: Seq<Comment>,
    k: int,
) -> bool
    decreases k,
{
    let text = out.text;
    if k <= 0 {
        out.pending_space && comments[0].newlines.leading && (layout.minify || text.len() == 0
            || text[text.len() - 1] == '\t')
    } else {
        spare_behind(
            layout,
            spare_before(out, layout, source, comments, k - 1),
            source,
            comments[k - 1],
        ) && (layout.minify || !comments[k].newlines.leading)
    }
}

/// Are these the gaps and the texts of a group?
pub open spec fn is_group(
    out: Output,
    layout: Layout,
    source: Option<Seq<char>>,
    comments: Seq<Comment>,
    gaps: Seq<Seq<char>>,
    texts: Seq<Seq<char>>,
) -> bool {
    &&& gaps.len() == comments.len()
    &&& texts.len() == comments.len()
    &&& comments.len() > 0 ==> may_open(out, layout, comments[0], gaps[0])
    &&& forall|k: int|
        0 < k < comments.len() ==> may_part(
            layout,
            spare_behind(
                layout,
                spare_before(out, layout, source, comments, k - 1),
                source,
                comments[k - 1],
            ),
            comments[k],
            #[trigger] gaps[k],
        )
    &&& forall|k: int|
        0 <= k < comments.len() ==> writes(
            layout,
            spare_before(out, layout, source, comments, k),
            source,
            comments[k],
            #[trigger] texts[k],
        )
}

/// Can this stand before the first comment of a group? A comment that had a line break before
/// it gets one, unless it is on a new line already. Any other gets the spare space, or an
/// indentation at the start of a line.
pub open spec fn may_open(out: Output, layout: Layout, c: Comment, gap: Seq<char>) -> bool {
    let text = out.text;
    if c.newlines.leading {
        if text.len() == 0 || text[text.len() - 1] == '\t' {
            gap.len() == 0
        } else if text[text.len() - 1] == '\n' {
            is_indent(layout, out.pending_space, gap)
        } else {
            gap.len() > 0 && gap[0] == '\n' && is_indent(layout, out.pending_space, gap.skip(1))
        }
    } else if out.pending_space {
        gap.len() == 1 && gap[0] == ' '
    } else if text.len() == 0 || text[text.len() - 1] == '\n' {
        is_indent(layout, false, gap)
    } else {
        gap.len() == 0
    }
}

/// Can this stand between a comment of a group and the one before it? A line break and an
/// indentation where the source had a line break; a line break before a legal comment; a space
/// otherwise, unless space is saved.
pub open spec fn may_part(layout: Layout, spare: bool, c: Comment, gap: Seq<char>) -> bool {
    if c.newlines.leading {
        gap.len() > 0 && gap[0] == '\n' && is_indent(layout, spare, gap.skip(1))
    } else if leads(c) && (c.content == CommentContent::Legal || c.content
        == CommentContent::JsdocLegal) {
        gap.len() == 1 && gap[0] == '\n'
    } else if layout.minify {
        gap.len() == 0
    } else {
        gap.len() == 1 && gap[0] == ' '
    }
}

/// Must a line break follow the comment?
pub open spec fn ends_its_line(c: Comment) -> bool {
    c.kind == CommentKind::Line || c.newlines.trailing
}

/// How white space is added to an output.
pub proof fn law_white_steps(out: Output, layout: Layout, text: Seq<char>, c: char)
    ensures
        out.newline().text == out.text.push('\n'),
        out.newline().pending_space == out.pending_space,
        out.str(text).text == out.text + text,
        out.str(text).pending_space == out.pending_space,
        layout.minify ==> out.soft_space(layout) == out,
        !layout.minify ==> out.soft_space(layout).text == out.text.push(' '),
        out.soft_space(layout).pending_space == out.pending_space,
        out.pending_space ==> out.spaced().text == out.text.push(' '),
        !out.pending_space ==> out.spaced().text == out.text,
        !out.spaced().pending_space,
        out.cleared().text == out.text,
        !out.cleared().pending_space,
        out.ends(c) <==> out.text.len() > 0 && out.text[out.text.len() - 1] == c,
{
}

/// An indentation takes the place of the pending space, if there is one, unless space is saved.
pub proof fn law_indentation(out: Output, layout: Layout) -> (gap: Seq<char>)
    ensures
        out.indented(layout).text == out.text + gap,
        is_indent(layout, out.pending_space, gap),
        out.indented(layout).pending_space <==> out.pending_space && layout.minify,
{
    if layout.minify {
        assert(out.text + Seq::<char>::empty() =~= out.text);
        Seq::<char>::empty()
    } else if out.pending_space {
        assert(out.text + seq![' '] =~= out.text.push(' '));
        seq![' ']
    } else {
        Seq::new(layout.indent, |i: int| '\t')
    }
}

/// A trimmed line is the line from its first character that is not white space.
proof fn lemma_trimmed_is_core(line: Seq<char>)
    ensures
        is_core(line, trimmed(line)),
{
    let n = law_trimming(line);
    assert(trimmed(line) == line.skip(n));
}

/// Opening and closing a block, by the characters.
pub proof fn lemma_block_marks(line: Seq<char>)
    ensures
        "/*"@.is_prefix_of(line) <==> opens_block(line),
        "*/"@.is_suffix_of(line) <==> closes_block(line),
{
    reveal_strlit("/*");
    reveal_strlit("*/");
    let n = line.len() as int;
    if opens_block(line) {
        assert("/*"@ =~= line.subrange(0, 2));
    }
    if "/*"@.is_prefix_of(line) {
        assert(line[0] == line.subrange(0, 2)[0]);
        assert(line[1] == line.subrange(0, 2)[1]);
    }
    if closes_block(line) {
        assert("*/"@ =~= line.subrange(n - 2, n));
    }
    if "*/"@.is_suffix_of(line) {
        assert(line[n - 2] == line.subrange(n - 2, n)[0]);
        assert(line[n - 1] == line.subrange(n - 2, n)[1]);
    }
}

/// A line of a block comment is added as it is to be written.
proof fn lemma_line_is_written(out: Output, layout: Layout, line: Seq<char>) -> (piece: Seq<char>)
    ensures
        out.block_line(layout, line).text == out.text + piece,
        out.block_line(layout, line).pending_space == (out.pending_space && (layout.minify
            || opens_block(line))),
        writes_line(layout, out.pending_space, line, piece),
{
    lemma_block_marks(line);
    lemma_trimmed_is_core(line);
    let core = trimmed(line);
    let indent = if opens_block(line) {
        Seq::<char>::empty()
    } else {
        law_indentation(out, layout)
    };
    let whole = indent + escaped(core);
    let piece = if closes_block(line) {
        whole
    } else {
        whole.push('\n')
    };
    assert(out.block_line(layout, line).text =~= out.text + piece);
    piece
}

/// Where space is saved, no indentation is written, and a spare space makes no difference.
proof fn lemma_saved_space(layout: Layout, line: Seq<char>, piece: Seq<char>, a: bool, b: bool)
    requires
        layout.minify,
        writes_line(layout, a, line, piece),
    ensures
        writes_line(layout, b, line, piece),
{
    let (indent, core) = choose|indent: Seq<char>, core: Seq<char>|
        #![trigger indent + escaped(core)]
        is_core(line, core) && (if opens_block(line) {
            indent.len() == 0
        } else {
            is_indent(layout, a, indent)
        }) && piece == (if closes_block(line) {
            indent + escaped(core)
        } else {
            (indent + escaped(core)).push('\n')
        });
    assert(is_core(line, core));
    assert(piece == (if closes_block(line) {
        indent + escaped(core)
    } else {
        (indent + escaped(core)).push('\n')
    }));
}

/// The lines of a block comment are added as they are to be written.
proof fn lemma_lines_are_written(out: Output, layout: Layout, lines: Seq<Seq<char>>) -> (pieces: Seq<
    Seq<char>,
>)
    ensures
        out.block_lines(layout, lines).text == out.text + joined(pieces),
        out.block_lines(layout, lines).pending_space == (out.pending_space && (layout.minify
            || all_open(lines))),
        pieces.len() == lines.len(),
        forall|k: int|
            0 <= k < lines.len() ==> writes_line(
                layout,
                out.pending_space && all_open(lines.take(k)),
                lines[k],
                #[trigger] pieces[k],
            ),
    decreases lines.len(),
{
    if lines.len() == 0 {
        let none = Seq::<Seq<char>>::empty();
        assert(out.text + joined(none) =~= out.text);
        none
    } else {
        let rest = lines.drop_last();
        let n = rest.len() as int;
        let first = lemma_lines_are_written(out, layout, rest);
        let before = out.block_lines(layout, rest);
        let piece = lemma_line_is_written(before, layout, lines.last());
        let pieces = first.push(piece);
        assert(pieces.drop_last() =~= first);
        assert(out.text + joined(pieces) =~= out.text + joined(first) + piece);
        assert(all_open(lines) <==> all_open(rest) && opens_block(lines.last())) by {
            if all_open(lines) {
                assert(opens_block(lines[n]));
                assert forall|k: int| 0 <= k < rest.len() implies opens_block(
                    #[trigger] rest[k],
                ) by {
                    assert(opens_block(lines[k]));
                }
            }
            if all_open(rest) && opens_block(lines.last()) {
                assert forall|k: int| 0 <= k < lines.len() implies opens_block(
                    #[trigger] lines[k],
                ) by {
                    if k < n {
                        assert(opens_block(rest[k]));
                    }
                }
            }
        }
        assert forall|k: int| 0 <= k < lines.len() implies writes_line(
            layout,
            out.pending_space && all_open(lines.take(k)),
            lines[k],
            #[trigger] pieces[k],
        ) by {
            if k < n {
                assert(rest[k] == lines[k]);
                assert(rest.take(k) =~= lines.take(k));
                assert(writes_line(
                    layout,
                    out.pending_space && all_open(rest.take(k)),
                    rest[k],
                    first[k],
                ));
            } else {
                assert(lines.take(n) =~= rest);
                if layout.minify {
                    lemma_saved_space(
                        layout,
                        lines.last(),
                        piece,
                        before.pending_space,
                        out.pending_space && all_open(rest),
                    );
                }
            }
        }
        pieces
    }
}

/// A comment is printed in the words of the source, and what was printed stays.
pub proof fn law_comment_is_written(
    out: Output,
    layout: Layout,
    source: Option<Seq<char>>,
    c: Comment,
) -> (piece: Seq<char>)
    ensures
        out.comment(layout, source, c).text == out.text + piece,
        writes(layout, out.pending_space, source, c, piece),
        out.comment(layout, source, c).pending_space == spare_behind(
            layout,
            out.pending_space,
            source,
            c,
        ),
{
    match source {
        None => {
            assert(out.text + Seq::<char>::empty() =~= out.text);
            Seq::<char>::empty()
        },
        Some(text) => {
            let body = text_between(text, c.span.start as int, c.span.end as int);
            match c.kind {
                CommentKind::Line | CommentKind::SingleLineBlock => escaped(body),
                CommentKind::MultiLineBlock => {
                    let pieces = lemma_lines_are_written(out, layout, lines_of(body));
                    joined(pieces)
                },
            }
        },
    }
}

/// What comes before the first comment of a group.
proof fn lemma_opening(
    out: Output,
    layout: Layout,
    source: Option<Seq<char>>,
    comments: Seq<Comment>,
) -> (gap: Seq<char>)
    ensures
        out.before_first(layout, comments[0]).text == out.text + gap,
        may_open(out, layout, comments[0], gap),
        out.before_first(layout, comments[0]).pending_space == spare_before(
            out,
            layout,
            source,
            comments,
            0,
        ),
{
    let none = Seq::<char>::empty();
    let c = comments[0];
    assert(out.text + none =~= out.text);
    if c.newlines.leading {
        if out.text.len() == 0 || out.ends('\t') {
            none
        } else if out.ends('\n') {
            law_indentation(out, layout)
        } else {
            let indent = law_indentation(out.newline(), layout);
            let gap = seq!['\n'] + indent;
            assert(out.text.push('\n') + indent =~= out.text + gap);
            assert(gap.skip(1) =~= indent);
            gap
        }
    } else if out.pending_space {
        assert(out.text + seq![' '] =~= out.text.push(' '));
        seq![' ']
    } else if out.text.len() == 0 || out.ends('\n') {
        law_indentation(out, layout)
    } else {
        none
    }
}

/// What comes between two comments of a group.
proof fn lemma_parting(out: Output, layout: Layout, c: Comment) -> (gap: Seq<char>)
    ensures
        out.before_next(layout, c).text == out.text + gap,
        may_part(layout, out.pending_space, c, gap),
        out.before_next(layout, c).pending_space == (out.pending_space && (layout.minify
            || !c.newlines.leading)),
{
    let none = Seq::<char>::empty();
    assert(out.text + none =~= out.text);
    assert(out.text + seq![' '] =~= out.text.push(' '));
    assert(out.text + seq!['\n'] =~= out.text.push('\n'));
    if c.newlines.leading {
        let indent = law_indentation(out.newline(), layout);
        let gap = seq!['\n'] + indent;
        assert(out.text.push('\n') + indent =~= out.text + gap);
        assert(gap.skip(1) =~= indent);
        gap
    } else if leads(c) && (c.content == CommentContent::Legal || c.content
        == CommentContent::JsdocLegal) {
        seq!['\n']
    } else if layout.minify {
        none
    } else {
        seq![' ']
    }
}

/// One more text, with a gap before it.
pub proof fn lemma_woven_push(
    gaps: Seq<Seq<char>>,
    texts: Seq<Seq<char>>,
    gap: Seq<char>,
    text: Seq<char>,
)
    requires
        gaps.len() == texts.len(),
    ensures
        woven(gaps.push(gap), texts.push(text)) == woven(gaps, texts) + gap + text,
{
    assert(gaps.push(gap).drop_last() =~= gaps);
    assert(texts.push(text).drop_last() =~= texts);
}

/// Later comments of a group have no bearing on whether a spare space is at hand.
proof fn lemma_spare_before(
    out: Output,
    layout: Layout,
    source: Option<Seq<char>>,
    comments: Seq<Comment>,
    k: int,
)
    requires
        0 <= k < comments.len() - 1,
    ensures
        spare_before(out, layout, source, comments.drop_last(), k) == spare_before(
            out,
            layout,
            source,
            comments,
            k,
        ),
    decreases k,
{
    if k > 0 {
        lemma_spare_before(out, layout, source, comments, k - 1);
    }
}

/// The gaps and the texts of a group, up to what comes behind the last comment.
proof fn lemma_run(
    out: Output,
    layout: Layout,
    source: Option<Seq<char>>,
    comments: Seq<Comment>,
) -> (parts: (Seq<Seq<char>>, Seq<Seq<char>>))
    requires
        comments.len() > 0,
    ensures
        ({
            let (gaps, texts) = parts;
            let run = out.comment_run(layout, source, comments);
            let n = comments.len() - 1;
            &&& is_group(out, layout, source, comments, gaps, texts)
            &&& run.text == out.text + woven(gaps, texts)
            &&& run.pending_space == spare_behind(
                layout,
                spare_before(out, layout, source, comments, n),
                source,
                comments[n],
            )
        }),
    decreases comments.len(),
{
    if comments.len() == 1 {
        let gap = lemma_opening(out, layout, source, comments);
        let begun = out.before_first(layout, comments[0]);
        let piece = law_comment_is_written(begun, layout, source, comments[0]);
        let none = Seq::<Seq<char>>::empty();
        lemma_woven_push(none, none, gap, piece);
        assert(out.text + (woven(none, none) + gap + piece) =~= out.text + gap + piece);
        (none.push(gap), none.push(piece))
    } else {
        let rest = comments.drop_last();
        let n = rest.len() as int;
        let (gaps, texts) = lemma_run(out, layout, source, rest);
        let before = out.comment_run(layout, source, rest);
        let gap = lemma_parting(before, layout, comments.last());
        let begun = before.before_next(layout, comments.last());
        let piece = law_comment_is_written(begun, layout, source, comments.last());
        lemma_woven_push(gaps, texts, gap, piece);
        assert(out.text + (woven(gaps, texts) + gap + piece) =~= out.text + woven(gaps, texts) + gap
            + piece);
        lemma_spare_before(out, layout, source, comments, n - 1);
        assert forall|k: int| 0 < k < comments.len() implies may_part(
            layout,
            spare_behind(
                layout,
                spare_before(out, layout, source, comments, k - 1),
                source,
                comments[k - 1],
            ),
            comments[k],
            #[trigger] gaps.push(gap)[k],
        ) by {
            if k < n {
                lemma_spare_before(out, layout, source, comments, k - 1);
                assert(may_part(
                    layout,
                    spare_behind(
                        layout,
                        spare_before(out, layout, source, rest, k - 1),
                        source,
                        rest[k - 1],
                    ),
                    rest[k],
                    gaps[k],
                ));
            }
        }
        assert forall|k: int| 0 <= k < comments.len() implies writes(
            layout,
            spare_before(out, layout, source, comments, k),
            source,
            comments[k],
            #[trigger] texts.push(piece)[k],
        ) by {
            if k < n {
                lemma_spare_before(out, layout, source, comments, k);
                assert(writes(
                    layout,
                    spare_before(out, layout, source, rest, k),
                    source,
                    rest[k],
                    texts[k],
                ));
            }
        }
        (gaps.push(gap), texts.push(piece))
    }
}

/// A group of comments is printed as the texts of the comments, in their order, with white
/// space between them: a line break and an indentation where the source had a line break, a
/// line break before other legal comments, a space before all others. Nothing else is added,
/// but for a line break behind a last comment that needs or had one; without that, a space is
/// still to come.
pub proof fn law_group_is_woven(
    out: Output,
    layout: Layout,
    source: Option<Seq<char>>,
    comments: Seq<Comment>,
) -> (parts: (Seq<Seq<char>>, Seq<Seq<char>>))
    requires
        comments.len() > 0,
    ensures
        ({
            let (gaps, texts) = parts;
            let after = out.comments(layout, source, comments);
            let n = comments.len() - 1;
            &&& is_group(out, layout, source, comments, gaps, texts)
            &&& ends_its_line(comments[n]) ==> after.text == (out.text + woven(gaps, texts)).push(
                '\n',
            ) && after.pending_space == spare_behind(
                layout,
                spare_before(out, layout, source, comments, n),
                source,
                comments[n],
            )
            &&& !ends_its_line(comments[n]) ==> after.text == out.text + woven(gaps, texts)
                && after.pending_space
        }),
{
    lemma_run(out, layout, source, comments)
}

/// No comments, no change.
pub proof fn law_no_comments(
    out: Output,
    layout: Layout,
    source: Option<Seq<char>>,
    comments: Seq<Comment>,
)
    requires
        comments.len() == 0,
    ensures
        out.comments(layout, source, comments) == out,
        out.group_glued(layout, source, comments) == out,
        out.group_resumed(layout, source, comments) == out,
        out.group_behind(layout, source, comments) == out,
        out.left_over(layout, source, comments) == out,
        out.spaced_comments(layout, source, comments) == out,
        out.stacked_comments(layout, source, comments) == out,
        out.listed_comments(layout, source, comments) == out,
        closed_off(comments) == comments,
{
}

/// Two outputs between which a run of comments does not tell apart.
proof fn lemma_same_run(
    a: Output,
    b: Output,
    layout: Layout,
    source: Option<Seq<char>>,
    s: Seq<Comment>,
    t: Seq<Comment>,
)
    requires
        s.len() == t.len() > 0,
        a.before_first(layout, s[0]) == b.before_first(layout, t[0]),
        s[0].kind == t[0].kind,
        s[0].span == t[0].span,
        forall|k: int| 0 < k < s.len() ==> s[k] == t[k],
    ensures
        a.comment_run(layout, source, s) == b.comment_run(layout, source, t),
    decreases s.len(),
{
    if s.len() > 1 {
        lemma_same_run(a, b, layout, source, s.drop_last(), t.drop_last());
        assert(s[s.len() - 1] == t[t.len() - 1]);
    }
}

/// The pending space is printed before a group that starts within a line, and once: the group
/// comes out as if the space had been there.
pub proof fn law_pending_space_comes_first(
    out: Output,
    layout: Layout,
    source: Option<Seq<char>>,
    comments: Seq<Comment>,
)
    requires
        comments.len() > 0,
        out.pending_space,
        !comments[0].newlines.leading,
    ensures
        out.comments(layout, source, comments) == (Output {
            text: out.text.push(' '),
            pending_space: false,
        }).comments(layout, source, comments),
{
    let b = Output { text: out.text.push(' '), pending_space: false };
    lemma_same_run(out, b, layout, source, comments, comments);
}

/// Where a group starts on a new line, the pending space stands for its indentation, and is
/// printed once.
pub proof fn law_pending_space_indents(
    out: Output,
    layout: Layout,
    source: Option<Seq<char>>,
    comments: Seq<Comment>,
    others: Seq<Comment>,
)
    requires
        comments.len() == others.len() > 0,
        out.pending_space,
        !layout.minify,
        out.text.len() > 0,
        out.text[out.text.len() - 1] != '\t',
        comments[0].newlines.leading,
        others[0] == (Comment {
            newlines: crate::comment::CommentNewlines {
                leading: false,
                trailing: comments[0].newlines.trailing,
            },
            ..comments[0]
        }),
        forall|k: int| 0 < k < comments.len() ==> comments[k] == others[k],
    ensures
        out.comments(layout, source, comments) == (Output {
            text: (if out.text[out.text.len() - 1] == '\n' {
                out.text
            } else {
                out.text.push('\n')
            }).push(' '),
            pending_space: false,
        }).comments(layout, source, others),
{
    let begun = if out.text[out.text.len() - 1] == '\n' {
        out.text
    } else {
        out.text.push('\n')
    };
    let b = Output { text: begun.push(' '), pending_space: false };
    lemma_same_run(out, b, layout, source, comments, others);
    assert(comments.last() == others.last() || comments.len() == 1);
}

} // verus!
