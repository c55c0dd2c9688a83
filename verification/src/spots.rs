//! Places in a source text, told by its characters.
use vstd::prelude::*;
use vstd::utf8::*;

use crate::text::{
    ends_line, has_line_break, is_white_space, lemma_encoded_prefix, lemma_encoded_push,
    on_boundaries, text_between, trimmed,
};

verus! {

/// Where character `k` of a text starts, in bytes.
pub open spec fn offset_of(text: Seq<char>, k: int) -> int {
    encode_utf8(text.take(k)).len() as int
}

/// Does a character start, or the text end, at a byte offset?
pub open spec fn at_char(text: Seq<char>, offset: int) -> bool {
    exists|k: int| 0 <= k <= text.len() && #[trigger] offset_of(text, k) == offset
}

/// LF, CR, LS or PS, by their code points.
pub open spec fn is_terminator(c: char) -> bool {
    c as u32 == 0xA || c as u32 == 0xD || c as u32 == 0x2028 || c as u32 == 0x2029
}

/// Does one of the characters from byte `low` up to byte `high` end a line?
pub open spec fn breaks_between(text: Seq<char>, low: int, high: int) -> bool {
    exists|k: int|
        0 <= k < text.len() && low <= #[trigger] offset_of(text, k) < high && is_terminator(text[k])
}

/// White space, by its code points.
pub open spec fn is_blank(c: char) -> bool {
    let n = c as u32;
    ||| 0x9 <= n <= 0xD
    ||| n == 0x20
    ||| n == 0x85
    ||| n == 0xA0
    ||| n == 0x1680
    ||| 0x2000 <= n <= 0x200A
    ||| n == 0x2028
    ||| n == 0x2029
    ||| n == 0x202F
    ||| n == 0x205F
    ||| n == 0x3000
}

/// Each character takes at least one byte.
pub proof fn lemma_offsets_ascend(text: Seq<char>, i: int, j: int)
    requires
        0 <= i <= j <= text.len(),
    ensures
        offset_of(text, i) <= offset_of(text, j),
        i < j ==> offset_of(text, i) < offset_of(text, j),
    decreases j,
{
    if i < j {
        lemma_offsets_ascend(text, i, j - 1);
        lemma_encoded_push(text.take(j - 1), text[j - 1]);
        assert(text.take(j - 1).push(text[j - 1]) =~= text.take(j));
        char_is_scalar(text[j - 1]);
        assert(encode_scalar(text[j - 1] as u32).len() > 0);
    }
}

/// A text cut where characters start holds the characters in between.
pub proof fn law_cuts_hold_characters(text: Seq<char>, i: int, j: int)
    requires
        0 <= i <= j <= text.len(),
    ensures
        on_boundaries(text, offset_of(text, i), offset_of(text, j)),
        text_between(text, offset_of(text, i), offset_of(text, j)) == text.subrange(i, j),
{
    let a = offset_of(text, i);
    let b = offset_of(text, j);
    let bytes = encode_utf8(text);
    let head = text.take(j);
    lemma_offsets_ascend(text, i, j);
    lemma_encoded_prefix(text, i);
    lemma_encoded_prefix(text, j);
    lemma_encoded_prefix(head, i);
    assert(head.take(i) =~= text.take(i));
    assert(head.skip(i) =~= text.subrange(i, j));
    assert(bytes.subrange(a, b) =~= encode_utf8(text.subrange(i, j)));
    encode_utf8_decode_utf8(text.subrange(i, j));
}

/// A boundary in the bytes is where a character starts, or the end.
proof fn lemma_boundary_is_character(text: Seq<char>, offset: int)
    requires
        is_char_boundary(encode_utf8(text), offset),
    ensures
        at_char(text, offset),
    decreases text.len(),
{
    let bytes = encode_utf8(text);
    encode_utf8_valid_utf8(text);
    if offset == 0 {
        assert(text.take(0) =~= seq![]);
        assert(offset_of(text, 0) == 0);
    } else {
        assert(text.len() > 0) by {
            if text.len() == 0 {
                assert(bytes.len() == 0);
            }
        }
        let rest = text.drop_first();
        encode_utf8_first_scalar(text);
        assert(pop_first_scalar(bytes) =~= encode_utf8(rest));
        let width = encode_scalar(text[0] as u32).len() as int;
        lemma_boundary_is_character(rest, offset - width);
        let k = choose|k: int|
            0 <= k <= rest.len() && #[trigger] offset_of(rest, k) == offset - width;
        assert(text.take(k + 1).drop_first() =~= rest.take(k));
        assert(offset_of(text, k + 1) == offset);
    }
}

/// Two offsets delimit a part of a text exactly where both are starts of characters, or its
/// end, and come in order.
pub proof fn law_boundaries_are_characters(text: Seq<char>, a: int, b: int)
    ensures
        on_boundaries(text, a, b) <==> a <= b && at_char(text, a) && at_char(text, b),
{
    if on_boundaries(text, a, b) {
        lemma_boundary_is_character(text, a);
        lemma_boundary_is_character(text, b);
    }
    if a <= b && at_char(text, a) && at_char(text, b) {
        let i = choose|k: int| 0 <= k <= text.len() && #[trigger] offset_of(text, k) == a;
        let j = choose|k: int| 0 <= k <= text.len() && #[trigger] offset_of(text, k) == b;
        if j < i {
            lemma_offsets_ascend(text, j, i);
        }
        law_cuts_hold_characters(text, i, j);
    }
}

/// The part of a text between two offsets has a line break exactly where a character from the
/// one up to the other ends a line.
pub proof fn law_breaks_lie_in_between(text: Seq<char>, a: int, b: int)
    requires
        a <= b,
        at_char(text, a),
        at_char(text, b),
    ensures
        has_line_break(text_between(text, a, b)) <==> breaks_between(text, a, b),
{
    let i = choose|k: int| 0 <= k <= text.len() && #[trigger] offset_of(text, k) == a;
    let j = choose|k: int| 0 <= k <= text.len() && #[trigger] offset_of(text, k) == b;
    if j < i {
        lemma_offsets_ascend(text, j, i);
    }
    law_cuts_hold_characters(text, i, j);
    let part = text.subrange(i, j);
    if has_line_break(part) {
        let m = choose|m: int| 0 <= m < part.len() && ends_line(#[trigger] part[m]);
        lemma_offsets_ascend(text, i, i + m);
        lemma_offsets_ascend(text, i + m, j);
        assert(a <= offset_of(text, i + m) < b);
        assert(is_terminator(text[i + m]));
    }
    if breaks_between(text, a, b) {
        let k = choose|k: int|
            0 <= k < text.len() && a <= #[trigger] offset_of(text, k) < b && is_terminator(text[k]);
        if k < i {
            lemma_offsets_ascend(text, k, i);
        }
        if j <= k {
            lemma_offsets_ascend(text, j, k);
        }
        assert(part[k - i] == text[k]);
        law_white_space(text[k]);
        assert(ends_line(part[k - i]));
    }
}

/// The characters that end lines, and those that lines may be indented with.
pub proof fn law_white_space(c: char)
    ensures
        ends_line(c) <==> is_terminator(c),
        is_white_space(c) <==> is_blank(c),
{
}

/// Trimming takes away the white space that a text starts with, and nothing else.
pub proof fn law_trimming(text: Seq<char>) -> (n: int)
    ensures
        0 <= n <= text.len(),
        forall|i: int| 0 <= i < n ==> is_blank(#[trigger] text[i]),
        trimmed(text) == text.skip(n),
        n < text.len() ==> !is_blank(text[n]),
    decreases text.len(),
{
    if text.len() > 0 {
        law_white_space(text[0]);
    }
    if text.len() > 0 && is_white_space(text[0]) {
        let rest = text.drop_first();
        let m = law_trimming(rest);
        assert(rest.skip(m) =~= text.skip(m + 1));
        assert forall|i: int| 0 <= i < m + 1 implies is_blank(#[trigger] text[i]) by {
            if i > 0 {
                assert(is_blank(rest[i - 1]));
            }
        }
        if m < rest.len() {
            assert(rest[m] == text[m + 1]);
        }
        m + 1
    } else {
        assert(text.skip(0) =~= text);
        0
    }
}

} // verus!
