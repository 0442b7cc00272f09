//! Whitespace: where it stands in a line, and the words between it.
//!
//! Whitespace is the characters with the Unicode property `White_Space`:
//! U+0009 to U+000D, U+0020, U+0085, U+00A0, U+1680, U+2000 to U+200A,
//! U+2028, U+2029, U+202F, U+205F and U+3000. They are recognised by their
//! UTF-8 encodings, which are one, two or three bytes long.

use vstd::prelude::*;
use vstd::string::*;
use vstd::utf8::*;
use crate::output::Output;
use crate::output::Segments;
use crate::text::lemma_boundary_by_byte;
use crate::text::lemma_boundary_in_suffix;
use crate::text::lemma_utf8_concat;
use crate::text::lemma_utf8_each_push;
use crate::text::substring;
use crate::text::utf8;
use crate::text::utf8_each;

verus! {

/// The three bytes encode U+1680, one of U+2000 to U+200A, U+2028, U+2029,
/// U+202F, U+205F or U+3000.
pub open spec fn is_wide_space(a: u8, b: u8, c: u8) -> bool {
    ||| a == 0xe1 && b == 0x9a && c == 0x80
    ||| a == 0xe2 && b == 0x80 && (0x80 <= c <= 0x8a || c == 0xa8 || c == 0xa9 || c == 0xaf)
    ||| a == 0xe2 && b == 0x81 && c == 0x9f
    ||| a == 0xe3 && b == 0x80 && c == 0x80
}

/// The characters with the Unicode property `White_Space`.
pub open spec fn is_space(c: char) -> bool {
    let v = c as u32;
    ||| 0x09 <= v <= 0x0d
    ||| v == 0x20
    ||| v == 0x85
    ||| v == 0xa0
    ||| v == 0x1680
    ||| 0x2000 <= v <= 0x200a
    ||| v == 0x2028
    ||| v == 0x2029
    ||| v == 0x202f
    ||| v == 0x205f
    ||| v == 0x3000
}

/// The number of bytes of the whitespace character whose encoding starts at
/// offset `i` of `h`; zero where none starts there.
pub open spec fn space_width(h: Seq<u8>, i: int) -> int {
    if i < 0 || i >= h.len() {
        0
    } else if 0x09 <= h[i] <= 0x0d || h[i] == 0x20 {
        1
    } else if i + 1 < h.len() && h[i] == 0xc2 && (h[i + 1] == 0x85 || h[i + 1] == 0xa0) {
        2
    } else if i + 2 < h.len() && is_wide_space(h[i], h[i + 1], h[i + 2]) {
        3
    } else {
        0
    }
}

/// The number of bytes of the whitespace character whose encoding ends just
/// before offset `e` of `h`; zero where none ends there.
pub open spec fn space_width_before(h: Seq<u8>, e: int) -> int {
    if space_width(h, e - 1) == 1 {
        1
    } else if space_width(h, e - 2) == 2 {
        2
    } else if space_width(h, e - 3) == 3 {
        3
    } else {
        0
    }
}

/// The first offset at or after `i` at which no whitespace starts.
pub open spec fn skip_spaces(h: Seq<u8>, i: int) -> int
    decreases h.len() - i,
{
    if space_width(h, i) > 0 {
        skip_spaces(h, i + space_width(h, i))
    } else {
        i
    }
}

/// The last offset at or before `e` before which no whitespace ends.
pub open spec fn skip_spaces_back(h: Seq<u8>, e: int) -> int
    decreases e,
{
    if space_width_before(h, e) > 0 {
        skip_spaces_back(h, e - space_width_before(h, e))
    } else {
        e
    }
}

/// The first offset at or after `i` at which whitespace starts or the line
/// ends.
pub open spec fn word_end(h: Seq<u8>, i: int) -> int
    decreases h.len() - i,
{
    if i < 0 || i >= h.len() || space_width(h, i) > 0 {
        i
    } else {
        word_end(h, i + 1)
    }
}

/// The spans of the words of `h` that start at or after offset `i`, in
/// order: the maximal runs of bytes that hold no whitespace.
pub open spec fn word_spans_from(h: Seq<u8>, i: int) -> Seq<(int, int)>
    decreases h.len() - i,
    via word_spans_from_decreases
{
    let s = skip_spaces(h, i);
    if i < 0 || s >= h.len() {
        Seq::empty()
    } else {
        seq![(s, word_end(h, s))] + word_spans_from(h, word_end(h, s))
    }
}

#[via_fn]
proof fn word_spans_from_decreases(h: Seq<u8>, i: int) {
    if i >= 0 {
        lemma_skip_spaces(h, i);
        let s = skip_spaces(h, i);
        if s < h.len() {
            lemma_word_end(h, s);
        }
    }
}

/// The spans of all the words of `h`.
pub open spec fn word_spans(h: Seq<u8>) -> Seq<(int, int)> {
    word_spans_from(h, 0)
}

/// The parts of `h` that the spans mark, in the spans' order.
pub open spec fn cut_out(h: Seq<u8>, spans: Seq<(int, int)>) -> Seq<Seq<u8>> {
    Seq::new(spans.len(), |k: int| h.subrange(spans[k].0, spans[k].1))
}

/// A scalar of one byte is encoded as itself.
proof fn lemma_one_byte_scalar(v: u32)
    by (bit_vector)
    requires
        has_width_1_encoding(v),
    ensures
        leading_byte_width_1(v) as u32 == v,
{
}

/// Of the scalars of two bytes, U+0085 and U+00A0 and no others are
/// encoded as whitespace of two bytes.
proof fn lemma_two_byte_scalar(v: u32)
    by (bit_vector)
    requires
        has_width_2_encoding(v),
    ensures
        0xc0 <= leading_byte_width_2(v) <= 0xdf,
        (leading_byte_width_2(v) == 0xc2 && last_continuation_byte(v) == 0x85) <==> v == 0x85,
        (leading_byte_width_2(v) == 0xc2 && last_continuation_byte(v) == 0xa0) <==> v == 0xa0,
{
}

/// Of the scalars of three bytes, the whitespace characters and no others
/// are encoded as whitespace of three bytes.
proof fn lemma_three_byte_scalar(v: u32)
    by (bit_vector)
    requires
        has_width_3_encoding(v),
    ensures
        0xe0 <= leading_byte_width_3(v) <= 0xef,
        is_wide_space(
            leading_byte_width_3(v),
            second_last_continuation_byte(v),
            last_continuation_byte(v),
        ) <==> (v == 0x1680 || 0x2000 <= v <= 0x200a || v == 0x2028 || v == 0x2029 || v == 0x202f
            || v == 0x205f || v == 0x3000),
{
}

/// The encoding of a scalar of four bytes starts with a byte that starts no
/// whitespace.
proof fn lemma_four_byte_scalar(v: u32)
    by (bit_vector)
    requires
        has_width_4_encoding(v),
    ensures
        0xf0 <= leading_byte_width_4(v),
{
}

/// Where the encoding of a character starts a text, the text starts with
/// whitespace exactly if the character has the property `White_Space`, and
/// the whitespace is as wide as the character's encoding.
pub proof fn lemma_space_width_of_char(c: char, rest: Seq<u8>)
    ensures
        space_width(utf8(seq![c]) + rest, 0) == (if is_space(c) {
            utf8(seq![c]).len() as int
        } else {
            0
        }),
{
    let v = c as u32;
    let one = seq![c];
    assert(utf8(one) =~= encode_scalar(v)) by {
        reveal_with_fuel(encode_utf8, 2);
        assert(one.drop_first() =~= Seq::<char>::empty());
    }
    let h = utf8(one) + rest;
    char_is_scalar(c);
    if has_width_1_encoding(v) {
        lemma_one_byte_scalar(v);
        assert(h[0] == leading_byte_width_1(v));
    } else if has_width_2_encoding(v) {
        lemma_two_byte_scalar(v);
        assert(h[0] == leading_byte_width_2(v));
        assert(h[1] == last_continuation_byte(v));
    } else if has_width_3_encoding(v) {
        lemma_three_byte_scalar(v);
        assert(h[0] == leading_byte_width_3(v));
        assert(h[1] == second_last_continuation_byte(v));
        assert(h[2] == last_continuation_byte(v));
    } else {
        lemma_four_byte_scalar(v);
        assert(h[0] == leading_byte_width_4(v));
    }
}

/// At the offset at which a character of a string starts, whitespace starts
/// exactly if the character has the property `White_Space`, and it is as
/// wide as the character's encoding.
pub proof fn lemma_space_width_at_char(before: Seq<char>, c: char, after: Seq<char>)
    ensures
        space_width(utf8(before + seq![c] + after), utf8(before).len() as int) == (if is_space(c) {
            utf8(seq![c]).len() as int
        } else {
            0
        }),
{
    let a = utf8(before);
    let g = utf8(seq![c]) + utf8(after);
    lemma_utf8_concat(before, seq![c]);
    lemma_utf8_concat(before + seq![c], after);
    assert(utf8(before + seq![c] + after) =~= a + g);
    lemma_space_width_of_char(c, utf8(after));
    let h = a + g;
    let i = a.len() as int;
    if i < h.len() {
        assert(h[i] == g[0]);
        if i + 1 < h.len() {
            assert(h[i + 1] == g[1]);
        }
        if i + 2 < h.len() {
            assert(h[i + 2] == g[2]);
        }
    }
}

/// Skipping whitespace moves forward, stays in the line, and stops where no
/// whitespace starts.
pub proof fn lemma_skip_spaces(h: Seq<u8>, i: int)
    requires
        0 <= i,
    ensures
        i <= skip_spaces(h, i),
        i <= h.len() ==> skip_spaces(h, i) <= h.len(),
        space_width(h, skip_spaces(h, i)) == 0,
    decreases h.len() - i,
{
    if space_width(h, i) > 0 {
        lemma_skip_spaces(h, i + space_width(h, i));
    }
}

/// A word that starts where no whitespace starts is not empty, ends in the
/// line, holds no start of whitespace, and ends where whitespace starts or
/// the line ends.
pub proof fn lemma_word_end(h: Seq<u8>, i: int)
    requires
        0 <= i <= h.len(),
    ensures
        i <= word_end(h, i) <= h.len(),
        i < h.len() && space_width(h, i) == 0 ==> i < word_end(h, i),
        word_end(h, i) == h.len() || space_width(h, word_end(h, i)) > 0,
        forall|j: int| i <= j < word_end(h, i) ==> space_width(h, j) == 0,
    decreases h.len() - i,
{
    if i < h.len() && space_width(h, i) == 0 {
        lemma_word_end(h, i + 1);
    }
}

/// The words found from offset `i` on are not empty, lie in the line at or
/// after `i`, hold no start of whitespace, and stand apart from each other.
pub proof fn lemma_word_spans_from(h: Seq<u8>, i: int)
    requires
        0 <= i <= h.len(),
    ensures
        forall|k: int|
            0 <= k < word_spans_from(h, i).len() ==> {
                &&& i <= (#[trigger] word_spans_from(h, i)[k]).0 < word_spans_from(h, i)[k].1
                    <= h.len()
                &&& forall|j: int|
                    word_spans_from(h, i)[k].0 <= j < word_spans_from(h, i)[k].1 ==> space_width(
                        h,
                        j,
                    ) == 0
            },
        forall|k: int|
            0 <= k < word_spans_from(h, i).len() - 1 ==> (#[trigger] word_spans_from(h, i)[k]).1
                < word_spans_from(h, i)[k + 1].0,
    decreases h.len() - i,
{
    lemma_skip_spaces(h, i);
    let s = skip_spaces(h, i);
    if s < h.len() {
        let e = word_end(h, s);
        lemma_word_end(h, s);
        lemma_word_spans_from(h, e);
        let rest = word_spans_from(h, e);
        let all = word_spans_from(h, i);
        assert(all =~= seq![(s, e)] + rest);
        assert forall|k: int| 0 <= k < all.len() implies {
            &&& i <= (#[trigger] all[k]).0 < all[k].1 <= h.len()
            &&& forall|j: int| all[k].0 <= j < all[k].1 ==> space_width(h, j) == 0
        } by {
            if k > 0 {
                assert(all[k] == rest[k - 1]);
            }
        }
        assert forall|k: int| 0 <= k < all.len() - 1 implies (#[trigger] all[k]).1 < all[k + 1].0 by {
            assert(all[k + 1] == rest[k]);
            if k > 0 {
                assert(all[k] == rest[k - 1]);
            } else {
                lemma_skip_spaces(h, e);
                assert(space_width(h, e) > 0);
            }
        }
    }
}

/// In valid UTF-8 the encoding of a whitespace character starts and ends on
/// character boundaries.
pub proof fn lemma_space_on_boundaries(h: Seq<u8>, i: int)
    requires
        valid_utf8(h),
        space_width(h, i) > 0,
    ensures
        is_char_boundary(h, i),
        is_char_boundary(h, i + space_width(h, i)),
{
    let w = space_width(h, i);
    lemma_boundary_by_byte(h, i);
    let g = h.subrange(i, h.len() as int);
    valid_utf8_split(h, i);
    assert(g[0] == h[i]);
    assert(length_of_first_scalar(g) == w);
    assert(is_char_boundary(g, w)) by {
        reveal_with_fuel(is_char_boundary, 2);
    }
    lemma_boundary_in_suffix(h, i, w);
}

/// The width of the whitespace character that starts at offset `i`.
fn space_at(h: &[u8], i: usize) -> (w: usize)
    ensures
        w == space_width(h@, i as int),
{
    let n: usize = h.len();
    if i >= n {
        return 0;
    }
    let a: u8 = h[i];
    if (0x09 <= a && a <= 0x0d) || a == 0x20 {
        1
    } else if n - i >= 2 && a == 0xc2 && (h[i + 1] == 0x85 || h[i + 1] == 0xa0) {
        2
    } else if n - i >= 3 && wide_space(a, h[i + 1], h[i + 2]) {
        3
    } else {
        0
    }
}

/// Whether three bytes encode one of the whitespace characters that take
/// three bytes.
fn wide_space(a: u8, b: u8, c: u8) -> (r: bool)
    ensures
        r == is_wide_space(a, b, c),
{
    (a == 0xe1 && b == 0x9a && c == 0x80) || (a == 0xe2 && b == 0x80 && ((0x80 <= c && c <= 0x8a)
        || c == 0xa8 || c == 0xa9 || c == 0xaf)) || (a == 0xe2 && b == 0x81 && c == 0x9f) || (a
        == 0xe3 && b == 0x80 && c == 0x80)
}

/// The width of the whitespace character that ends just before offset `e`.
fn space_before(h: &[u8], e: usize) -> (w: usize)
    ensures
        w == space_width_before(h@, e as int),
        w <= e,
{
    if e >= 1 && space_at(h, e - 1) == 1 {
        1
    } else if e >= 2 && space_at(h, e - 2) == 2 {
        2
    } else if e >= 3 && space_at(h, e - 3) == 3 {
        3
    } else {
        0
    }
}

/// The first offset at or after `i` at which no whitespace starts.
fn skip(h: &[u8], i: usize) -> (s: usize)
    requires
        i <= h@.len(),
    ensures
        s == skip_spaces(h@, i as int),
        i <= s <= h@.len(),
{
    let n: usize = h.len();
    let mut s: usize = i;
    loop
        invariant
            n == h@.len(),
            i <= s <= n,
            skip_spaces(h@, i as int) == skip_spaces(h@, s as int),
        decreases h@.len() - s,
    {
        let w: usize = space_at(h, s);
        if w == 0 {
            return s;
        }
        s += w;
    }
}

/// The first offset at or after `i` at which whitespace starts or the line
/// ends.
fn end_of_word(h: &[u8], i: usize) -> (e: usize)
    requires
        i <= h@.len(),
    ensures
        e == word_end(h@, i as int),
        i <= e <= h@.len(),
{
    let n: usize = h.len();
    let mut e: usize = i;
    while e < n && space_at(h, e) == 0
        invariant
            n == h@.len(),
            i <= e <= n,
            word_end(h@, i as int) == word_end(h@, e as int),
        decreases n - e,
    {
        e += 1;
    }
    e
}

/// A span held by executable code, as a pair of mathematical integers.
pub open spec fn span_view(s: (usize, usize)) -> (int, int) {
    (s.0 as int, s.1 as int)
}

/// The spans of the words of `input`, in order.
fn spans_of_words(input: &str) -> (spans: Vec<(usize, usize)>)
    ensures
        spans@.map_values(|s: (usize, usize)| span_view(s)) == word_spans(input.spec_bytes()),
        forall|k: int|
            0 <= k < spans@.len() ==> {
                &&& (#[trigger] spans@[k]).0 <= spans@[k].1 <= input.spec_bytes().len()
                &&& is_char_boundary(input.spec_bytes(), spans@[k].0 as int)
                &&& is_char_boundary(input.spec_bytes(), spans@[k].1 as int)
            },
        forall|j: int, k: int|
            0 <= j <= k < spans@.len() ==> (#[trigger] spans@[j]).0 <= (#[trigger] spans@[k]).1,
{
    let h = input.as_bytes();
    let n: usize = h.len();
    let mut spans: Vec<(usize, usize)> = Vec::new();
    let mut i: usize = 0;
    proof {
        encode_utf8_valid_utf8(input@);
        is_char_boundary_start_end_of_seq(h@);
        assert(spans@.map_values(|s: (usize, usize)| span_view(s)) + word_spans_from(h@, 0)
            =~= word_spans(h@));
    }
    loop
        invariant
            h@ == input.spec_bytes(),
            valid_utf8(h@),
            n == h@.len(),
            i <= n,
            is_char_boundary(h@, i as int),
            word_spans(h@) == spans@.map_values(|s: (usize, usize)| span_view(s))
                + word_spans_from(h@, i as int),
            forall|k: int|
                0 <= k < spans@.len() ==> {
                    &&& (#[trigger] spans@[k]).0 <= spans@[k].1 <= i
                    &&& is_char_boundary(h@, spans@[k].0 as int)
                    &&& is_char_boundary(h@, spans@[k].1 as int)
                },
            forall|j: int, k: int|
                0 <= j <= k < spans@.len() ==> (#[trigger] spans@[j]).0 <= (
                #[trigger] spans@[k]).1,
        decreases n - i,
    {
        let s: usize = skip(h, i);
        proof {
            lemma_skip_spaces(h@, i as int);
            lemma_skip_on_boundary(h@, i as int);
        }
        if s >= n {
            assert(word_spans_from(h@, i as int) =~= Seq::empty());
            assert(spans@.map_values(|s: (usize, usize)| span_view(s)) + Seq::empty()
                =~= spans@.map_values(|s: (usize, usize)| span_view(s)));
            return spans;
        }
        let e: usize = end_of_word(h, s);
        proof {
            lemma_word_end(h@, s as int);
            if e < n {
                lemma_space_on_boundaries(h@, e as int);
            } else {
                is_char_boundary_start_end_of_seq(h@);
            }
            let before = spans@.map_values(|s: (usize, usize)| span_view(s));
            assert(before + (seq![(s as int, e as int)] + word_spans_from(h@, e as int))
                =~= spans@.push((s, e)).map_values(|s: (usize, usize)| span_view(s))
                + word_spans_from(h@, e as int));
        }
        spans.push((s, e));
        i = e;
    }
}

/// Skipping whitespace from a character boundary ends on a character
/// boundary.
pub proof fn lemma_skip_on_boundary(h: Seq<u8>, i: int)
    requires
        valid_utf8(h),
        0 <= i,
        is_char_boundary(h, i),
    ensures
        is_char_boundary(h, skip_spaces(h, i)),
    decreases h.len() - i,
{
    if space_width(h, i) > 0 {
        lemma_space_on_boundaries(h, i);
        lemma_skip_on_boundary(h, i + space_width(h, i));
    }
}

/// The last `count` of the spans, or all of them where there are fewer, the
/// last one first.
pub open spec fn last_reversed(w: Seq<(int, int)>, count: int) -> Seq<(int, int)> {
    Seq::new(
        if count < w.len() {
            count as nat
        } else {
            w.len()
        },
        |k: int| w[w.len() - 1 - k],
    )
}

/// What splitting `h` at whitespace gives for a count.
///
/// Without a count the segments are the words of the line: runs of
/// whitespace separate them, and whitespace at either end of the line
/// belongs to none. A positive count `n` gives the first `n` words and,
/// where more words follow, one more segment that reaches from the next
/// word to the end of the last word. A negative count `-n` gives the last
/// `n` words one by one, the last word first. A count of zero leaves the
/// line whole, as a single string.
pub open spec fn words_result(number: Option<i64>, h: Seq<u8>) -> Segments {
    let w = word_spans(h);
    match number {
        None => Segments::Multiple(cut_out(h, w)),
        Some(x) => if x > 0 {
            if w.len() <= x {
                Segments::Multiple(cut_out(h, w))
            } else {
                Segments::Multiple(
                    cut_out(h, w.subrange(0, x as int)).push(
                        h.subrange(w[x as int].0, w.last().1),
                    ),
                )
            }
        } else if x < 0 {
            Segments::Multiple(cut_out(h, last_reversed(w, -x)))
        } else {
            Segments::Single(h)
        },
    }
}

/// Copies of the first `count` spans' parts of `input`, in order.
fn first_words(input: &str, spans: &Vec<(usize, usize)>, count: usize) -> (out: Vec<String>)
    requires
        count <= spans@.len(),
        forall|k: int|
            0 <= k < spans@.len() ==> {
                &&& (#[trigger] spans@[k]).0 <= spans@[k].1 <= input.spec_bytes().len()
                &&& is_char_boundary(input.spec_bytes(), spans@[k].0 as int)
                &&& is_char_boundary(input.spec_bytes(), spans@[k].1 as int)
            },
    ensures
        utf8_each(out@) == cut_out(
            input.spec_bytes(),
            spans@.map_values(|s: (usize, usize)| span_view(s)).subrange(0, count as int),
        ),
{
    let ghost w = spans@.map_values(|s: (usize, usize)| span_view(s));
    let mut out: Vec<String> = Vec::new();
    let mut k: usize = 0;
    while k < count
        invariant
            k <= count <= spans@.len(),
            w == spans@.map_values(|s: (usize, usize)| span_view(s)),
            forall|k: int|
                0 <= k < spans@.len() ==> {
                    &&& (#[trigger] spans@[k]).0 <= spans@[k].1 <= input.spec_bytes().len()
                    &&& is_char_boundary(input.spec_bytes(), spans@[k].0 as int)
                    &&& is_char_boundary(input.spec_bytes(), spans@[k].1 as int)
                },
            utf8_each(out@) == cut_out(input.spec_bytes(), w.subrange(0, k as int)),
        decreases count - k,
    {
        let span: (usize, usize) = spans[k];
        let part = substring(input, span.0, span.1);
        proof {
            lemma_utf8_each_push(out@, part);
            assert(cut_out(input.spec_bytes(), w.subrange(0, k as int)).push(utf8(part@))
                =~= cut_out(input.spec_bytes(), w.subrange(0, k + 1)));
        }
        out.push(part);
        k += 1;
    }
    out
}

/// Copies of the last `count` spans' parts of `input`, the last one first.
fn last_words(input: &str, spans: &Vec<(usize, usize)>, count: usize) -> (out: Vec<String>)
    requires
        count <= spans@.len(),
        forall|k: int|
            0 <= k < spans@.len() ==> {
                &&& (#[trigger] spans@[k]).0 <= spans@[k].1 <= input.spec_bytes().len()
                &&& is_char_boundary(input.spec_bytes(), spans@[k].0 as int)
                &&& is_char_boundary(input.spec_bytes(), spans@[k].1 as int)
            },
    ensures
        utf8_each(out@) == cut_out(
            input.spec_bytes(),
            last_reversed(spans@.map_values(|s: (usize, usize)| span_view(s)), count as int),
        ),
{
    let ghost w = spans@.map_values(|s: (usize, usize)| span_view(s));
    let total: usize = spans.len();
    let mut out: Vec<String> = Vec::new();
    let mut k: usize = 0;
    while k < count
        invariant
            k <= count <= total,
            total == spans@.len(),
            w == spans@.map_values(|s: (usize, usize)| span_view(s)),
            forall|k: int|
                0 <= k < spans@.len() ==> {
                    &&& (#[trigger] spans@[k]).0 <= spans@[k].1 <= input.spec_bytes().len()
                    &&& is_char_boundary(input.spec_bytes(), spans@[k].0 as int)
                    &&& is_char_boundary(input.spec_bytes(), spans@[k].1 as int)
                },
            utf8_each(out@) == cut_out(input.spec_bytes(), last_reversed(w, k as int)),
        decreases count - k,
    {
        let span: (usize, usize) = spans[total - 1 - k];
        let part = substring(input, span.0, span.1);
        proof {
            lemma_utf8_each_push(out@, part);
            assert(cut_out(input.spec_bytes(), last_reversed(w, k as int)).push(utf8(part@))
                =~= cut_out(input.spec_bytes(), last_reversed(w, k + 1)));
        }
        out.push(part);
        k += 1;
    }
    out
}

/// Splits `input` at whitespace, as [`words_result`] says.
pub fn split_at_whitespace(number: Option<i64>, input: &String) -> (r: Output)
    ensures
        r@ == words_result(number, utf8(input@)),
{
    let line: &str = input.as_str();
    let ghost h = line.spec_bytes();
    let ghost w = word_spans(h);
    match number {
        None => {
            let spans = spans_of_words(line);
            let out = first_words(line, &spans, spans.len());
            assert(w.subrange(0, w.len() as int) =~= w);
            Output::Multiple(out)
        },
        Some(x) => {
            if x > 0 {
                let spans = spans_of_words(line);
                let total: usize = spans.len();
                if total as u64 <= x as u64 {
                    let out = first_words(line, &spans, total);
                    assert(w.subrange(0, w.len() as int) =~= w);
                    Output::Multiple(out)
                } else {
                    let keep: usize = x as usize;
                    let mut out = first_words(line, &spans, keep);
                    let next: (usize, usize) = spans[keep];
                    let last: (usize, usize) = spans[total - 1];
                    let rest = substring(line, next.0, last.1);
                    proof {
                        lemma_utf8_each_push(out@, rest);
                    }
                    out.push(rest);
                    Output::Multiple(out)
                }
            } else if x < 0 {
                let spans = spans_of_words(line);
                let total: usize = spans.len();
                let fewer: u64 = (-(x + 1)) as u64;
                let count: usize = if fewer >= total as u64 {
                    total
                } else {
                    fewer as usize + 1
                };
                let out = last_words(line, &spans, count);
                assert(last_reversed(w, count as int) =~= last_reversed(w, -x));
                Output::Multiple(out)
            } else {
                Output::Single(input.clone())
            }
        },
    }
}

/// Skipping whitespace backwards moves backwards.
pub proof fn lemma_skip_spaces_back(h: Seq<u8>, e: int)
    ensures
        skip_spaces_back(h, e) <= e,
    decreases e,
{
    if space_width_before(h, e) > 0 {
        lemma_skip_spaces_back(h, e - space_width_before(h, e));
    }
}

/// The line without the whitespace at its start and at its end; empty where
/// the line holds nothing else.
pub open spec fn trim_spaces(h: Seq<u8>) -> Seq<u8> {
    let s = skip_spaces(h, 0);
    let e = skip_spaces_back(h, h.len() as int);
    if s < e {
        h.subrange(s, e)
    } else {
        Seq::empty()
    }
}

/// What is left of a line after trimming neither starts nor ends with
/// whitespace.
pub proof fn lemma_trim_spaces_is_trimmed(h: Seq<u8>)
    ensures
        space_width(trim_spaces(h), 0) == 0,
        space_width_before(trim_spaces(h), trim_spaces(h).len() as int) == 0,
{
    let s = skip_spaces(h, 0);
    let e = skip_spaces_back(h, h.len() as int);
    lemma_skip_spaces(h, 0);
    lemma_skip_spaces_back(h, h.len() as int);
    lemma_skip_spaces_back_stops(h, h.len() as int);
    let t = trim_spaces(h);
    if s < e {
        assert(forall|j: int| 0 <= j < t.len() ==> t[j] == h[s + j]);
        assert(space_width(t, 0) == 0);
        assert(space_width(t, t.len() - 1) != 1);
        assert(space_width(t, t.len() - 2) != 2);
        assert(space_width(t, t.len() - 3) != 3);
    }
}

/// Skipping whitespace backwards stops where no whitespace ends.
pub proof fn lemma_skip_spaces_back_stops(h: Seq<u8>, e: int)
    ensures
        space_width_before(h, skip_spaces_back(h, e)) == 0,
    decreases e,
{
    if space_width_before(h, e) > 0 {
        lemma_skip_spaces_back_stops(h, e - space_width_before(h, e));
    }
}

/// A copy of `input` without the whitespace at its start and at its end.
pub fn without_outer_spaces(input: &str) -> (r: String)
    ensures
        utf8(r@) == trim_spaces(input.spec_bytes()),
{
    let h = input.as_bytes();
    let n: usize = h.len();
    let s: usize = skip(h, 0);
    let mut e: usize = n;
    proof {
        encode_utf8_valid_utf8(input@);
        is_char_boundary_start_end_of_seq(h@);
        lemma_skip_on_boundary(h@, 0);
    }
    while s < e && space_before(h, e) > 0
        invariant
            h@ == input.spec_bytes(),
            valid_utf8(h@),
            n == h@.len(),
            e <= n,
            is_char_boundary(h@, e as int),
            skip_spaces_back(h@, n as int) == skip_spaces_back(h@, e as int),
        decreases e,
    {
        let w: usize = space_before(h, e);
        proof {
            lemma_space_on_boundaries(h@, e - w);
        }
        e -= w;
    }
    proof {
        lemma_skip_spaces_back(h@, e as int);
    }
    if s < e {
        substring(input, s, e)
    } else {
        let r = String::new();
        assert(utf8(r@) =~= Seq::empty());
        r
    }
}

} // verus!
