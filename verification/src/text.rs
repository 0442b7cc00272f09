//! The byte model of a line of text.
//!
//! A `String` is seen through its UTF-8 encoding, a `Seq<u8>`. Offsets are
//! positions in that sequence; a slice may only start and end where the
//! encoding of a character starts or ends.

use vstd::prelude::*;
use vstd::string::*;
use vstd::utf8::*;

verus! {

/// The UTF-8 encoding of a string's characters: the bytes that every offset
/// of this library points into.
pub open spec fn utf8(s: Seq<char>) -> Seq<u8> {
    encode_utf8(s)
}

/// The encodings of a list of strings, in order.
pub open spec fn utf8_each(v: Seq<String>) -> Seq<Seq<u8>> {
    Seq::new(v.len(), |i: int| utf8(v[i]@))
}

/// Encoding distributes over concatenation.
pub proof fn lemma_utf8_concat(a: Seq<char>, b: Seq<char>)
    ensures
        utf8(a + b) == utf8(a) + utf8(b),
    decreases a.len(),
{
    if a.len() == 0 {
        assert(a + b =~= b);
        assert(utf8(a) + utf8(b) =~= utf8(b));
    } else {
        lemma_utf8_concat(a.drop_first(), b);
        assert((a + b).drop_first() =~= a.drop_first() + b);
        assert((a + b)[0] == a[0]);
        assert(utf8(a + b) =~= utf8(a) + utf8(b));
    }
}

/// Two strings with the same encoding are the same string.
pub proof fn lemma_utf8_injective(a: Seq<char>, b: Seq<char>)
    requires
        utf8(a) == utf8(b),
    ensures
        a == b,
{
    encode_utf8_decode_utf8(a);
    encode_utf8_decode_utf8(b);
}

/// In valid UTF-8 a position is a character boundary exactly when it is the
/// end of the text or holds a byte that is no continuation byte.
pub proof fn lemma_boundary_by_byte(h: Seq<u8>, i: int)
    requires
        valid_utf8(h),
        0 <= i <= h.len(),
    ensures
        is_char_boundary(h, i) <==> (i == h.len() || !is_continuation_byte(h[i])),
{
    if i == h.len() {
        is_char_boundary_start_end_of_seq(h);
    } else {
        is_char_boundary_iff_not_is_continuation_byte(h, i);
    }
}

/// A boundary of the text is a boundary of every prefix that reaches it.
pub proof fn lemma_boundary_in_prefix(h: Seq<u8>, a: int, b: int)
    requires
        valid_utf8(h),
        0 <= a <= b <= h.len(),
        is_char_boundary(h, a),
        is_char_boundary(h, b),
    ensures
        valid_utf8(h.subrange(0, b)),
        is_char_boundary(h.subrange(0, b), a),
{
    valid_utf8_split(h, b);
    lemma_boundary_by_byte(h, a);
    lemma_boundary_by_byte(h.subrange(0, b), a);
}

/// Boundaries of a suffix that starts at a boundary are the boundaries of
/// the text, moved by the suffix's start.
pub proof fn lemma_boundary_in_suffix(h: Seq<u8>, i: int, k: int)
    requires
        valid_utf8(h),
        is_char_boundary(h, i),
        0 <= i,
        0 <= k,
        i + k <= h.len(),
    ensures
        valid_utf8(h.subrange(i, h.len() as int)),
        is_char_boundary(h.subrange(i, h.len() as int), k) <==> is_char_boundary(h, i + k),
{
    valid_utf8_split(h, i);
    lemma_boundary_by_byte(h, i + k);
    lemma_boundary_by_byte(h.subrange(i, h.len() as int), k);
}

/// Where valid UTF-8 starts with a whole valid text, that text ends on a
/// boundary.
pub proof fn lemma_prefix_ends_on_boundary(g: Seq<u8>, p: Seq<u8>)
    requires
        valid_utf8(g),
        valid_utf8(p),
        p.len() <= g.len(),
        g.subrange(0, p.len() as int) == p,
    ensures
        is_char_boundary(g, p.len() as int),
    decreases p.len(),
{
    if p.len() > 0 {
        assert(g[0] == g.subrange(0, p.len() as int)[0]);
        let n = length_of_first_scalar(p);
        assert(n == length_of_first_scalar(g));
        let g1 = pop_first_scalar(g);
        let p1 = pop_first_scalar(p);
        assert(g1.subrange(0, p1.len() as int) =~= p1) by {
            assert forall|j: int| 0 <= j < p1.len() implies g1[j] == p1[j] by {
                assert(g.subrange(0, p.len() as int)[j + n] == g[j + n]);
            }
        }
        lemma_prefix_ends_on_boundary(g1, p1);
    }
}

/// A non-empty valid text that occurs in valid UTF-8 starts and ends on
/// character boundaries.
pub proof fn lemma_occurrence_on_boundaries(h: Seq<u8>, p: Seq<u8>, i: int)
    requires
        valid_utf8(h),
        valid_utf8(p),
        p.len() > 0,
        0 <= i,
        i + p.len() <= h.len(),
        h.subrange(i, i + p.len()) == p,
    ensures
        is_char_boundary(h, i),
        is_char_boundary(h, i + p.len()),
{
    assert(h[i] == h.subrange(i, i + p.len())[0]);
    lemma_boundary_by_byte(p, 0);
    is_char_boundary_start_end_of_seq(p);
    lemma_boundary_by_byte(h, i);
    let g = h.subrange(i, h.len() as int);
    valid_utf8_split(h, i);
    assert(g.subrange(0, p.len() as int) =~= p);
    lemma_prefix_ends_on_boundary(g, p);
    lemma_boundary_in_suffix(h, i, p.len() as int);
}

/// The part of `s` between two byte offsets that are character boundaries.
pub fn slice<'a>(s: &'a str, from: usize, to: usize) -> (r: &'a str)
    requires
        from <= to <= s.spec_bytes().len(),
        is_char_boundary(s.spec_bytes(), from as int),
        is_char_boundary(s.spec_bytes(), to as int),
    ensures
        r.spec_bytes() == s.spec_bytes().subrange(from as int, to as int),
{
    proof {
        encode_utf8_valid_utf8(s@);
        lemma_boundary_in_prefix(s.spec_bytes(), from as int, to as int);
    }
    let (head, _) = s.split_at(to);
    let (_, r) = head.split_at(from);
    assert(r.spec_bytes() =~= s.spec_bytes().subrange(from as int, to as int));
    r
}

/// `String::from` on a `char`: the string that holds this one character and
/// nothing else.
#[verifier::external_body]
pub(crate) fn char_string(c: char) -> (s: String)
    ensures
        s@ == seq![c],
{
    String::from(c)
}

/// A copy of the part of `s` between two byte offsets that are character
/// boundaries.
pub fn substring(s: &str, from: usize, to: usize) -> (r: String)
    requires
        from <= to <= s.spec_bytes().len(),
        is_char_boundary(s.spec_bytes(), from as int),
        is_char_boundary(s.spec_bytes(), to as int),
    ensures
        utf8(r@) == s.spec_bytes().subrange(from as int, to as int),
{
    slice(s, from, to).to_owned()
}

/// Appending a string to a list appends its encoding to the list's
/// encodings.
pub proof fn lemma_utf8_each_push(v: Seq<String>, s: String)
    ensures
        utf8_each(v.push(s)) == utf8_each(v).push(utf8(s@)),
{
    assert(utf8_each(v.push(s)) =~= utf8_each(v).push(utf8(s@)));
}

} // verus!
