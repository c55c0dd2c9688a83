//! How a text is cut into lines, and what is put into it to keep it from ending a script.
use vstd::prelude::*;
use vstd::utf8::char_u32_cast;

use crate::laws::{law_escaped_text_closes_no_script, lemma_escaped_keeps};
use crate::spots::{is_terminator, law_white_space};
use crate::text::{
    break_len, closes_script_at, ends_line, escaped, escaped_to, lemma_line_len, line_len, lines_of,
};
use crate::weaving::woven;

verus! {

/// Is the character this lower-case letter, or the upper-case one that goes with it?
pub open spec fn is_letter(c: char, lower: char) -> bool {
    c == lower || c as u32 + 0x20 == lower as u32
}

/// Do the characters from `k` on start with `</script`, in any letter case?
pub open spec fn script_end_at(text: Seq<char>, k: int) -> bool {
    &&& 0 <= k <= text.len() - 8
    &&& text[k] == '<'
    &&& text[k + 1] == '/'
    &&& is_letter(text[k + 2], 's')
    &&& is_letter(text[k + 3], 'c')
    &&& is_letter(text[k + 4], 'r')
    &&& is_letter(text[k + 5], 'i')
    &&& is_letter(text[k + 6], 'p')
    &&& is_letter(text[k + 7], 't')
}

/// A letter is its lower-case or its upper-case form.
proof fn lemma_letter(c: char, lower: char, upper: char)
    requires
        upper as u32 + 0x20 == lower as u32,
    ensures
        is_letter(c, lower) <==> c == lower || c == upper,
{
    char_u32_cast(c, c as u32);
    char_u32_cast(upper, upper as u32);
}

/// The two ways to tell the tag agree.
proof fn lemma_script_end(text: Seq<char>, k: int)
    ensures
        closes_script_at(text, k) == script_end_at(text, k),
{
    if 0 <= k <= text.len() - 8 {
        lemma_letter(text[k + 2], 's', 'S');
        lemma_letter(text[k + 3], 'c', 'C');
        lemma_letter(text[k + 4], 'r', 'R');
        lemma_letter(text[k + 5], 'i', 'I');
        lemma_letter(text[k + 6], 'p', 'P');
        lemma_letter(text[k + 7], 't', 'T');
    }
}

/// Escaping adds a backslash behind the `<` of every `</script`, in any letter case, and
/// changes nothing else: `places` tells where the characters of the text come to stand.
pub proof fn law_escaping(text: Seq<char>) -> (places: Seq<int>)
    ensures
        places.len() == text.len() + 1,
        places[0] == 0,
        places[text.len() as int] == escaped(text).len(),
        forall|k: int|
            0 <= k < text.len() ==> {
                &&& 0 <= #[trigger] places[k] < escaped(text).len()
                &&& escaped(text)[places[k]] == text[k]
                &&& script_end_at(text, k) ==> places[k + 1] == places[k] + 2
                    && escaped(text)[places[k] + 1] == '\\'
                &&& !script_end_at(text, k) ==> places[k + 1] == places[k] + 1
            },
        forall|a: int| !#[trigger] script_end_at(escaped(text), a),
{
    let n = text.len() as int;
    let places = Seq::new(text.len() + 1, |k: int| escaped_to(text, k).len() as int);
    assert forall|k: int| 0 <= k < n implies {
        &&& 0 <= #[trigger] places[k] < escaped(text).len()
        &&& escaped(text)[places[k]] == text[k]
        &&& script_end_at(text, k) ==> places[k + 1] == places[k] + 2 && escaped(text)[places[k]
            + 1] == '\\'
        &&& !script_end_at(text, k) ==> places[k + 1] == places[k] + 1
    } by {
        lemma_escaped_keeps(text, n, k);
        lemma_script_end(text, k);
        assert(places[k + 1] == escaped_to(text, k + 1).len());
    }
    assert forall|a: int| !#[trigger] script_end_at(escaped(text), a) by {
        law_escaped_text_closes_no_script(text, a);
        lemma_script_end(escaped(text), a);
    }
    places
}

/// Is this one line break? CR and LF together are one.
pub open spec fn is_break(s: Seq<char>) -> bool {
    ||| s.len() == 1 && is_terminator(s[0])
    ||| s.len() == 2 && s[0] == '\r' && s[1] == '\n'
}

/// One more text before others, with a gap before it.
proof fn lemma_woven_front(
    gap: Seq<char>,
    text: Seq<char>,
    gaps: Seq<Seq<char>>,
    texts: Seq<Seq<char>>,
)
    requires
        gaps.len() == texts.len(),
    ensures
        woven(seq![gap] + gaps, seq![text] + texts) == gap + text + woven(gaps, texts),
    decreases texts.len(),
{
    let all_gaps = seq![gap] + gaps;
    let all_texts = seq![text] + texts;
    if texts.len() == 0 {
        assert(all_gaps.drop_last() =~= Seq::<Seq<char>>::empty());
        assert(all_texts.drop_last() =~= Seq::<Seq<char>>::empty());
        assert(woven(all_gaps.drop_last(), all_texts.drop_last()) =~= seq![]);
        assert(woven(all_gaps, all_texts) =~= gap + text + woven(gaps, texts));
    } else {
        lemma_woven_front(gap, text, gaps.drop_last(), texts.drop_last());
        assert(all_gaps.drop_last() =~= seq![gap] + gaps.drop_last());
        assert(all_texts.drop_last() =~= seq![text] + texts.drop_last());
        assert(woven(all_gaps, all_texts) =~= gap + text + woven(gaps, texts));
    }
}

/// The first line goes up to the first character that ends a line.
proof fn lemma_first_line(text: Seq<char>)
    ensures
        0 <= line_len(text) <= text.len(),
        forall|i: int| 0 <= i < line_len(text) ==> !ends_line(#[trigger] text[i]),
        line_len(text) < text.len() ==> ends_line(text[line_len(text)]),
    decreases text.len(),
{
    lemma_line_len(text);
    if text.len() > 0 && !ends_line(text[0]) {
        let rest = text.drop_first();
        lemma_first_line(rest);
        assert forall|i: int| 0 <= i < line_len(text) implies !ends_line(#[trigger] text[i]) by {
            if i > 0 {
                assert(!ends_line(rest[i - 1]));
            }
        }
        if line_len(text) < text.len() {
            assert(rest[line_len(rest)] == text[line_len(text)]);
        }
    }
}

/// A text is its lines with a line break behind each; only the last may have none, and then is
/// not empty. No line holds a line break, and CR and LF together are one.
pub proof fn law_lines(text: Seq<char>) -> (breaks: Seq<Seq<char>>)
    ensures
        ({
            let lines = lines_of(text);
            &&& breaks.len() == lines.len()
            &&& text == woven(lines, breaks)
            &&& forall|k: int, i: int|
                0 <= k < lines.len() && 0 <= i < lines[k].len() ==> !is_terminator(
                    #[trigger] lines[k][i],
                )
            &&& forall|k: int|
                0 <= k < lines.len() ==> is_break(#[trigger] breaks[k]) || (k == lines.len() - 1
                    && breaks[k].len() == 0 && lines[k].len() > 0)
            &&& forall|k: int|
                0 <= k < lines.len() - 1 && (#[trigger] breaks[k]) == seq!['\r']
                    && lines[k + 1].len() == 0 ==> breaks[k + 1][0] != '\n'
        }),
    decreases text.len(),
{
    if text.len() == 0 {
        let none = Seq::<Seq<char>>::empty();
        assert(text =~= woven(none, none));
        none
    } else {
        let n = line_len(text);
        let line = text.take(n);
        let rest = text.skip(n);
        let m = break_len(rest);
        let tail = rest.skip(m);
        lemma_first_line(text);
        let mark = rest.take(m);
        let more = law_lines(tail);
        let breaks = seq![mark] + more;
        let lines = lines_of(text);
        let others = lines_of(tail);
        assert(lines =~= seq![line] + others);
        lemma_woven_front(line, mark, others, more);
        assert(text =~= line + mark + tail);
        assert forall|k: int, i: int|
            0 <= k < lines.len() && 0 <= i < lines[k].len() implies !is_terminator(
            #[trigger] lines[k][i],
        ) by {
            if k > 0 {
                assert(!is_terminator(others[k - 1][i]));
            } else {
                assert(lines[0][i] == text[i]);
                assert(!ends_line(text[i]));
                law_white_space(text[i]);
            }
        }
        assert forall|k: int| 0 <= k < lines.len() implies is_break(#[trigger] breaks[k]) || (k
            == lines.len() - 1 && breaks[k].len() == 0 && lines[k].len() > 0) by {
            if k > 0 {
                assert(breaks[k] == more[k - 1]);
                assert(lines[k] == others[k - 1]);
            } else if rest.len() == 0 {
                assert(tail.len() == 0);
            }
        }
        assert forall|k: int|
            0 <= k < lines.len() - 1 && (#[trigger] breaks[k]) == seq!['\r'] && lines[k + 1].len()
                == 0 implies breaks[k + 1][0] != '\n' by {
            assert(breaks[k + 1] == more[k]);
            assert(lines[k + 1] == others[k]);
            if k > 0 {
                assert(breaks[k] == more[k - 1]);
            } else {
                assert(breaks[0] == mark);
                assert(mark.len() == 1);
                assert(mark[0] == '\r');
                assert(others[0] == tail.take(line_len(tail)));
                lemma_first_line(tail);
                lemma_woven_starts(others, more);
                assert(tail[0] == more[0][0]);
                assert(tail[0] == rest[1]);
            }
        }
        breaks
    }
}

/// Where the first gap is empty, the whole starts with the first text.
proof fn lemma_woven_starts(gaps: Seq<Seq<char>>, texts: Seq<Seq<char>>)
    requires
        gaps.len() == texts.len() > 0,
        gaps[0].len() == 0,
        texts[0].len() > 0,
    ensures
        woven(gaps, texts).len() > 0,
        woven(gaps, texts)[0] == texts[0][0],
{
    let g = gaps.drop_first();
    let t = texts.drop_first();
    lemma_woven_front(gaps[0], texts[0], g, t);
    assert(gaps =~= seq![gaps[0]] + g);
    assert(texts =~= seq![texts[0]] + t);
}

} // verus!
