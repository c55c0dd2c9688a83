//! Source text: ranges of it, its lines, and the white space that lines start with.
use vstd::prelude::*;
use vstd::utf8::*;

use oxc_syntax::line_terminator::LineTerminatorSplitter;

use crate::comment::Span;

verus! {

/// Do `start` and `end`, as byte offsets, delimit a part of `text` that cuts no character?
pub open spec fn on_boundaries(text: Seq<char>, start: int, end: int) -> bool {
    &&& 0 <= start <= end <= encode_utf8(text).len()
    &&& is_char_boundary(encode_utf8(text), start)
    &&& is_char_boundary(encode_utf8(text), end)
}

/// The characters of a text, if it is at hand.
pub open spec fn viewed(text: Option<&str>) -> Option<Seq<char>> {
    match text {
        Some(t) => Some(t@),
        None => None,
    }
}

/// The part of `text` between two byte offsets.
pub open spec fn text_between(text: Seq<char>, start: int, end: int) -> Seq<char> {
    decode_utf8(encode_utf8(text).subrange(start, end))
}

/// LF, CR, LS or PS.
pub open spec fn ends_line(c: char) -> bool {
    c == '\n' || c == '\r' || c == '\u{2028}' || c == '\u{2029}'
}

/// `oxc_syntax::line_terminator::is_line_terminator`: it holds of the four characters that
/// end a line of ECMAScript source, LF, CR, LS and PS, and of no other.
pub assume_specification[ oxc_syntax::line_terminator::is_line_terminator ](c: char) -> (b: bool)
    ensures
        b == ends_line(c),
;

/// The number of characters before the first line terminator of `text`.
pub open spec fn line_len(text: Seq<char>) -> int
    decreases text.len(),
{
    if text.len() == 0 || ends_line(text[0]) {
        0
    } else {
        1 + line_len(text.drop_first())
    }
}

/// A line is a prefix of its text.
pub proof fn lemma_line_len(text: Seq<char>)
    ensures
        0 <= line_len(text) <= text.len(),
    decreases text.len(),
{
    if text.len() > 0 && !ends_line(text[0]) {
        lemma_line_len(text.drop_first());
    }
}

/// The number of characters of the line break that `text` starts with: CRLF is one break.
pub open spec fn break_len(text: Seq<char>) -> int {
    if text.len() >= 2 && text[0] == '\r' && text[1] == '\n' {
        2
    } else if text.len() >= 1 {
        1
    } else {
        0
    }
}

/// The lines of `text`, without their terminators. A terminator at the very end opens no
/// further line.
pub open spec fn lines_of(text: Seq<char>) -> Seq<Seq<char>>
    decreases text.len(),
{
    if text.len() == 0 {
        seq![]
    } else {
        let n = line_len(text);
        let rest = text.skip(n);
        proof {
            lemma_line_len(text);
        }
        seq![text.take(n)] + lines_of(rest.skip(break_len(rest)))
    }
}

/// `oxc_syntax::line_terminator::LineTerminatorSplitter`, run to its end: it yields the lines
/// of `text` in order, cut at LF, CR, CRLF taken as one, LS and PS, without the terminators,
/// and nothing behind a terminator that ends the text.
#[verifier::external_body]
pub(crate) fn split_lines<'a>(text: &'a str) -> (lines: Vec<&'a str>)
    ensures
        lines@.len() == lines_of(text@).len(),
        forall|i: int| 0 <= i < lines@.len() ==> (#[trigger] lines@[i])@ == lines_of(text@)[i],
{
    LineTerminatorSplitter::new(text).collect()
}

/// `oxc_span::Span::source_text`: the bytes of the text from the span's start up to its end.
/// It panics where the two offsets do not delimit whole characters of the text.
#[verifier::external_body]
pub(crate) fn source_text<'a>(span: Span, text: &'a str) -> (part: &'a str)
    requires
        on_boundaries(text@, span.start as int, span.end as int),
    ensures
        part@ == text_between(text@, span.start as int, span.end as int),
{
    oxc_span::Span::new(span.start, span.end).source_text(text)
}

/// The part of `text` between two byte offsets, where they delimit whole characters of it.
pub fn get_range<'a>(text: &'a str, start: usize, end: usize) -> (part: Option<&'a str>)
    ensures
        part is Some <==> on_boundaries(text@, start as int, end as int),
        part matches Some(p) ==> p@ == text_between(text@, start as int, end as int),
{
    if start > end || !text.is_char_boundary(start) || !text.is_char_boundary(end) {
        return None;
    }
    let ghost bytes = encode_utf8(text@);
    proof {
        encode_utf8_valid_utf8(text@);
        lemma_boundary_in_range(bytes, start as int);
        lemma_boundary_in_range(bytes, end as int);
    }
    let (_, tail) = text.split_at(start);
    let ghost tail_bytes = encode_utf8(tail@);
    proof {
        encode_utf8_valid_utf8(tail@);
        if end - start < tail_bytes.len() {
            is_char_boundary_iff_not_is_continuation_byte(bytes, end as int);
            is_char_boundary_iff_not_is_continuation_byte(tail_bytes, end - start);
            assert(tail_bytes[end - start] == bytes[end as int]);
        } else {
            is_char_boundary_start_end_of_seq(tail_bytes);
        }
    }
    let (part, _) = tail.split_at(end - start);
    proof {
        assert(encode_utf8(part@) =~= bytes.subrange(start as int, end as int));
        encode_utf8_decode_utf8(part@);
    }
    Some(part)
}

/// A character boundary lies within the sequence.
proof fn lemma_boundary_in_range(bytes: Seq<u8>, index: int)
    requires
        valid_utf8(bytes),
        is_char_boundary(bytes, index),
    ensures
        0 <= index <= bytes.len(),
{
}

/// Does the text hold a line terminator?
pub open spec fn has_line_break(text: Seq<char>) -> bool {
    exists|i: int| 0 <= i < text.len() && ends_line(#[trigger] text[i])
}

/// Looks for a line terminator in the text.
pub fn contains_line_break(text: &str) -> (found: bool)
    ensures
        found == has_line_break(text@),
{
    for c in it: text.chars()
        invariant
            it.seq() == text@,
            forall|i: int| 0 <= i < it.index() ==> !ends_line(#[trigger] text@[i]),
    {
        if oxc_syntax::line_terminator::is_line_terminator(c) {
            assert(ends_line(text@[it.index() as int]));
            return true;
        }
    }
    false
}

/// The characters with the Unicode property White_Space.
pub open spec fn is_white_space(c: char) -> bool {
    ||| '\u{9}' <= c <= '\u{d}'
    ||| c == ' '
    ||| c == '\u{85}'
    ||| c == '\u{a0}'
    ||| c == '\u{1680}'
    ||| '\u{2000}' <= c <= '\u{200a}'
    ||| c == '\u{2028}'
    ||| c == '\u{2029}'
    ||| c == '\u{202f}'
    ||| c == '\u{205f}'
    ||| c == '\u{3000}'
}

/// Tells white space from the rest.
fn white_space(c: char) -> (b: bool)
    ensures
        b == is_white_space(c),
{
    ('\u{9}' <= c && c <= '\u{d}') || c == ' ' || c == '\u{85}' || c == '\u{a0}' || c == '\u{1680}'
        || ('\u{2000}' <= c && c <= '\u{200a}') || c == '\u{2028}' || c == '\u{2029}' || c
        == '\u{202f}' || c == '\u{205f}' || c == '\u{3000}'
}

/// `text` from its first character that is not white space.
pub open spec fn trimmed(text: Seq<char>) -> Seq<char>
    decreases text.len(),
{
    if text.len() > 0 && is_white_space(text[0]) {
        trimmed(text.drop_first())
    } else {
        text
    }
}

/// The text as a vector of its characters.
pub fn chars_of(text: &str) -> (chars: Vec<char>)
    ensures
        chars@ == text@,
{
    let mut chars: Vec<char> = Vec::new();
    for c in it: text.chars()
        invariant
            it.seq() == text@,
            chars@ == text@.take(it.index() as int),
    {
        chars.push(c);
    }
    chars
}

/// The number of bytes that encode `c`.
fn encoded_len(c: char) -> (n: usize)
    ensures
        n == encode_scalar(c as u32).len(),
        1 <= n <= 4,
{
    let code: u32 = c as u32;
    proof {
        char_is_scalar(c);
    }
    if code <= 0x7F {
        1
    } else if code <= 0x7FF {
        2
    } else if code <= 0xFFFF {
        3
    } else {
        4
    }
}

/// A text is encoded character by character: the first `n` of them end on a boundary, and the
/// bytes behind it encode the rest.
pub proof fn lemma_encoded_prefix(text: Seq<char>, n: int)
    requires
        0 <= n <= text.len(),
    ensures
        encode_utf8(text) == encode_utf8(text.take(n)) + encode_utf8(text.skip(n)),
        is_char_boundary(encode_utf8(text), encode_utf8(text.take(n)).len() as int),
    decreases n,
{
    encode_utf8_valid_utf8(text);
    if n == 0 {
        assert(text.skip(0) =~= text);
        assert(encode_utf8(text.take(0)) =~= seq![]);
    } else {
        let rest = text.drop_first();
        lemma_encoded_prefix(rest, n - 1);
        encode_utf8_first_scalar(text);
        assert(text.take(n).drop_first() =~= rest.take(n - 1));
        assert(text.skip(n) =~= rest.skip(n - 1));
        assert(pop_first_scalar(encode_utf8(text)) =~= encode_utf8(rest));
        assert(encode_utf8(text) =~= encode_utf8(text.take(n)) + encode_utf8(text.skip(n)));
        encode_utf8_valid_utf8(rest);
        lemma_boundary_in_range(encode_utf8(rest), encode_utf8(rest.take(n - 1)).len() as int);
    }
}

/// One more character adds its own bytes.
pub proof fn lemma_encoded_push(text: Seq<char>, c: char)
    ensures
        encode_utf8(text.push(c)) == encode_utf8(text) + encode_scalar(c as u32),
{
    let all = text.push(c);
    lemma_encoded_prefix(all, text.len() as int);
    assert(all.take(text.len() as int) =~= text);
    assert(all.skip(text.len() as int) =~= seq![c]);
    assert(seq![c].drop_first() =~= seq![]);
    assert(encode_utf8(seq![c]) =~= encode_scalar(c as u32)) by {
        reveal_with_fuel(encode_utf8, 2);
    }
}

/// Dropping white space from the front, one character at a time.
proof fn lemma_trimmed_step(text: Seq<char>, n: int)
    requires
        0 <= n <= text.len(),
        forall|i: int| 0 <= i < n ==> is_white_space(#[trigger] text[i]),
    ensures
        trimmed(text) == trimmed(text.skip(n)),
    decreases n,
{
    if n == 0 {
        assert(text.skip(0) =~= text);
    } else {
        let rest = text.drop_first();
        assert forall|i: int| 0 <= i < n - 1 implies is_white_space(#[trigger] rest[i]) by {
            assert(is_white_space(text[i + 1]));
        }
        assert(is_white_space(text[0]));
        lemma_trimmed_step(rest, n - 1);
        assert(rest.skip(n - 1) =~= text.skip(n));
    }
}

/// The text without the white space it starts with.
pub fn trim_start<'a>(text: &'a str) -> (rest: &'a str)
    ensures
        rest@ == trimmed(text@),
{
    let size: usize = text.as_bytes().len();
    let mut width: usize = 0;
    let ghost mut n: int = 0;
    for c in it: text.chars()
        invariant
            it.seq() == text@,
            n == it.index(),
            0 <= n <= text@.len(),
            width == encode_utf8(text@.take(n)).len(),
            encode_utf8(text@).len() == size,
            forall|i: int| 0 <= i < n ==> is_white_space(#[trigger] text@[i]),
    {
        if !white_space(c) {
            proof {
                lemma_trimmed_step(text@, n);
                lemma_encoded_prefix(text@, n);
                assert(text@.skip(n)[0] == c);
            }
            let (_, rest) = text.split_at(width);
            proof {
                assert(encode_utf8(rest@) =~= encode_utf8(text@.skip(n)));
                encode_utf8_decode_utf8(rest@);
                encode_utf8_decode_utf8(text@.skip(n));
            }
            return rest;
        }
        proof {
            lemma_encoded_push(text@.take(n), c);
            assert(text@.take(n).push(c) =~= text@.take(n + 1));
            lemma_encoded_prefix(text@, n + 1);
            n = n + 1;
        }
        width = width + encoded_len(c);
    }
    proof {
        lemma_trimmed_step(text@, n);
        reveal_strlit("");
        assert(text@.skip(n) =~= ""@);
    }
    ""
}

/// Does the text start with the prefix?
pub fn starts_with(text: &str, prefix: &str) -> (b: bool)
    ensures
        b == prefix@.is_prefix_of(text@),
{
    let mut rest = text.chars();
    let ghost mut n: int = 0;
    for c in it: prefix.chars()
        invariant
            it.seq() == prefix@,
            n == it.index(),
            0 <= n <= prefix@.len(),
            n <= text@.len(),
            vstd::std_specs::iter::IteratorSpec::remaining(&rest) == text@.skip(n),
            forall|i: int| 0 <= i < n ==> prefix@[i] == text@[i],
    {
        match rest.next() {
            Some(d) => {
                assert(d == text@[n]);
                if c != d {
                    return false;
                }
            },
            None => {
                return false;
            },
        }
        proof {
            n = n + 1;
        }
    }
    true
}

/// Does the text end with the suffix?
pub fn ends_with(text: &str, suffix: &str) -> (b: bool)
    ensures
        b == suffix@.is_suffix_of(text@),
{
    let whole: Vec<char> = chars_of(text);
    let tail: Vec<char> = chars_of(suffix);
    if tail.len() > whole.len() {
        return false;
    }
    let shift: usize = whole.len() - tail.len();
    let mut i: usize = 0;
    while i < tail.len()
        invariant
            whole@ == text@,
            tail@ == suffix@,
            shift == whole.len() - tail.len(),
            i <= tail.len(),
            forall|k: int| 0 <= k < i ==> suffix@[k] == text@[shift + k],
        decreases tail.len() - i,
    {
        if tail[i] != whole[shift + i] {
            assert(suffix@[i as int] != text@.subrange(shift as int, text@.len() as int)[i as int]);
            return false;
        }
        i = i + 1;
    }
    assert(suffix@ =~= text@.subrange(shift as int, text@.len() as int));
    true
}

/// Does `</script`, in any letter case, start at `at`?
pub open spec fn closes_script_at(text: Seq<char>, at: int) -> bool {
    &&& 0 <= at
    &&& at + 8 <= text.len()
    &&& text[at] == '<'
    &&& text[at + 1] == '/'
    &&& text[at + 2] == 's' || text[at + 2] == 'S'
    &&& text[at + 3] == 'c' || text[at + 3] == 'C'
    &&& text[at + 4] == 'r' || text[at + 4] == 'R'
    &&& text[at + 5] == 'i' || text[at + 5] == 'I'
    &&& text[at + 6] == 'p' || text[at + 6] == 'P'
    &&& text[at + 7] == 't' || text[at + 7] == 'T'
}

/// The first `n` characters of `text` with a backslash behind the `<` of every `</script`.
pub open spec fn escaped_to(text: Seq<char>, n: int) -> Seq<char>
    decreases n,
{
    if n <= 0 {
        seq![]
    } else if closes_script_at(text, n - 1) {
        escaped_to(text, n - 1).push(text[n - 1]).push('\\')
    } else {
        escaped_to(text, n - 1).push(text[n - 1])
    }
}

/// `text` as it may stand inside a script element: no `</script` is left in it.
pub open spec fn escaped(text: Seq<char>) -> Seq<char> {
    escaped_to(text, text.len() as int)
}

/// Looks for `</script` at one place.
pub fn is_script_close_tag(text: &Vec<char>, at: usize) -> (b: bool)
    requires
        at <= text.len(),
    ensures
        b == closes_script_at(text@, at as int),
{
    text.len() - at >= 8 && text[at] == '<' && text[at + 1] == '/' && (text[at + 2] == 's' || text[at
        + 2] == 'S') && (text[at + 3] == 'c' || text[at + 3] == 'C') && (text[at + 4] == 'r'
        || text[at + 4] == 'R') && (text[at + 5] == 'i' || text[at + 5] == 'I') && (text[at + 6]
        == 'p' || text[at + 6] == 'P') && (text[at + 7] == 't' || text[at + 7] == 'T')
}

} // verus!
