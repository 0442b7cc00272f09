//! Literal search: where a pattern occurs in a line.

use vstd::prelude::*;
use vstd::string::*;
use vstd::utf8::*;
use crate::text::lemma_occurrence_on_boundaries;
use crate::text::lemma_prefix_ends_on_boundary;
use crate::text::lemma_utf8_concat;
use crate::text::lemma_utf8_injective;
use crate::text::utf8;

verus! {

/// The pattern `p` occurs in `h` at byte offset `i`: the bytes agree and `i`
/// is a character boundary. For a non-empty pattern the boundary comes with
/// the bytes; the empty pattern occurs at every boundary and nowhere else.
pub open spec fn occurs_at(h: Seq<u8>, p: Seq<u8>, i: int) -> bool {
    &&& 0 <= i
    &&& i + p.len() <= h.len()
    &&& h.subrange(i, i + p.len()) == p
    &&& is_char_boundary(h, i)
}

/// The least offset at or after `from` at which `p` occurs in `h`.
pub open spec fn find_from(h: Seq<u8>, p: Seq<u8>, from: int) -> Option<int>
    decreases h.len() - from + 1,
{
    if from < 0 || from + p.len() > h.len() {
        None
    } else if occurs_at(h, p, from) {
        Some(from)
    } else {
        find_from(h, p, from + 1)
    }
}

/// The greatest offset at or before `upto` at which `p` occurs in `h`.
pub open spec fn rfind_upto(h: Seq<u8>, p: Seq<u8>, upto: int) -> Option<int>
    decreases upto + 1,
{
    if upto < 0 {
        None
    } else if occurs_at(h, p, upto) {
        Some(upto)
    } else {
        rfind_upto(h, p, upto - 1)
    }
}

/// The offset of the first occurrence of `p` in `h`.
pub open spec fn first_occurrence(h: Seq<u8>, p: Seq<u8>) -> Option<int> {
    find_from(h, p, 0)
}

/// The offset of the last occurrence of `p` in `h`.
pub open spec fn last_occurrence(h: Seq<u8>, p: Seq<u8>) -> Option<int> {
    rfind_upto(h, p, h.len() - p.len())
}

/// An offset found by an executable search, as a mathematical integer.
pub open spec fn offset_view(r: Option<usize>) -> Option<int> {
    match r {
        Some(i) => Some(i as int),
        None => None,
    }
}

/// `find_from` gives the least occurrence at or after `from`, and `None`
/// only where there is none.
pub proof fn lemma_find_from_is_least(h: Seq<u8>, p: Seq<u8>, from: int)
    requires
        0 <= from,
    ensures
        match find_from(h, p, from) {
            Some(i) => from <= i && occurs_at(h, p, i) && forall|j: int|
                from <= j < i ==> !occurs_at(h, p, j),
            None => forall|j: int| from <= j ==> !occurs_at(h, p, j),
        },
    decreases h.len() - from + 1,
{
    if from + p.len() <= h.len() && !occurs_at(h, p, from) {
        lemma_find_from_is_least(h, p, from + 1);
    }
}

/// `rfind_upto` gives the greatest occurrence at or before `upto`, and
/// `None` only where there is none.
pub proof fn lemma_rfind_upto_is_greatest(h: Seq<u8>, p: Seq<u8>, upto: int)
    ensures
        match rfind_upto(h, p, upto) {
            Some(i) => i <= upto && occurs_at(h, p, i) && forall|j: int|
                i < j <= upto ==> !occurs_at(h, p, j),
            None => forall|j: int| j <= upto ==> !occurs_at(h, p, j),
        },
    decreases upto + 1,
{
    if upto >= 0 && !occurs_at(h, p, upto) {
        lemma_rfind_upto_is_greatest(h, p, upto - 1);
    }
}

/// A pattern that stands between two strings occurs in the whole at the
/// offset at which the first of them ends.
pub proof fn lemma_occurs_between(before: Seq<char>, p: Seq<char>, after: Seq<char>)
    ensures
        occurs_at(utf8(before + p + after), utf8(p), utf8(before).len() as int),
{
    let h = utf8(before + p + after);
    lemma_utf8_concat(before, p);
    lemma_utf8_concat(before + p, after);
    assert(h =~= utf8(before) + utf8(p) + utf8(after));
    encode_utf8_valid_utf8(before + p + after);
    encode_utf8_valid_utf8(before);
    assert(h.subrange(0, utf8(before).len() as int) =~= utf8(before));
    lemma_prefix_ends_on_boundary(h, utf8(before));
    let i = utf8(before).len() as int;
    assert(h.subrange(i, i + utf8(p).len()) =~= utf8(p));
}

/// Where a pattern occurs in a string, the string is made of a string that
/// ends at that offset, the pattern, and a string that follows it.
pub proof fn lemma_occurrence_is_of_chars(s: Seq<char>, p: Seq<char>, i: int)
    requires
        occurs_at(utf8(s), utf8(p), i),
    ensures
        exists|before: Seq<char>, after: Seq<char>|
            s == before + p + after && utf8(before).len() == i,
{
    let h = utf8(s);
    let q = utf8(p);
    encode_utf8_valid_utf8(s);
    encode_utf8_valid_utf8(p);
    if q.len() > 0 {
        lemma_occurrence_on_boundaries(h, q, i);
    }
    let head = h.subrange(0, i);
    let tail = h.subrange(i + q.len(), h.len() as int);
    valid_utf8_split(h, i);
    valid_utf8_split(h, i + q.len());
    let before = decode_utf8(head);
    let after = decode_utf8(tail);
    decode_utf8_encode_utf8(head);
    decode_utf8_encode_utf8(tail);
    lemma_utf8_concat(before, p);
    lemma_utf8_concat(before + p, after);
    assert(utf8(before + p + after) =~= h);
    lemma_utf8_injective(before + p + after, s);
    assert(s == before + p + after && utf8(before).len() == i);
}

/// Whether the bytes of `p` stand in `h` from offset `i` on.
fn bytes_match(h: &[u8], p: &[u8], i: usize) -> (b: bool)
    requires
        i + p@.len() <= h@.len(),
    ensures
        b == (h@.subrange(i as int, i + p@.len()) == p@),
{
    let n: usize = h.len();
    let m: usize = p.len();
    let mut j: usize = 0;
    while j < m
        invariant
            m == p@.len(),
            n == h@.len(),
            i + m <= n,
            j <= m,
            forall|k: int| 0 <= k < j ==> h@[i + k] == p@[k],
        decreases m - j,
    {
        if h[i + j] != p[j] {
            assert(h@.subrange(i as int, i + p@.len())[j as int] != p@[j as int]);
            return false;
        }
        j += 1;
    }
    assert(h@.subrange(i as int, i + p@.len()) =~= p@);
    true
}

/// Whether `pattern` occurs in `input` at byte offset `i`.
pub fn occurs(input: &str, pattern: &str, i: usize) -> (b: bool)
    requires
        i + pattern.spec_bytes().len() <= input.spec_bytes().len(),
    ensures
        b == occurs_at(input.spec_bytes(), pattern.spec_bytes(), i as int),
{
    let h = input.as_bytes();
    let p = pattern.as_bytes();
    if p.len() == 0 {
        assert(h@.subrange(i as int, i + p@.len()) =~= p@);
        input.is_char_boundary(i)
    } else {
        let b = bytes_match(h, p, i);
        proof {
            if b {
                encode_utf8_valid_utf8(input@);
                encode_utf8_valid_utf8(pattern@);
                lemma_occurrence_on_boundaries(h@, p@, i as int);
            }
        }
        b
    }
}

/// The first occurrence of `pattern` in `input` at or after byte offset
/// `from`.
pub fn find(input: &str, pattern: &str, from: usize) -> (r: Option<usize>)
    ensures
        offset_view(r) == find_from(input.spec_bytes(), pattern.spec_bytes(), from as int),
{
    let n: usize = input.as_bytes().len();
    let m: usize = pattern.as_bytes().len();
    if m > n || from > n - m {
        return None;
    }
    let last: usize = n - m;
    let mut i: usize = from;
    loop
        invariant
            n == input.spec_bytes().len(),
            m == pattern.spec_bytes().len(),
            last == n - m,
            from <= i <= last,
            find_from(input.spec_bytes(), pattern.spec_bytes(), from as int) == find_from(
                input.spec_bytes(),
                pattern.spec_bytes(),
                i as int,
            ),
        decreases last - i,
    {
        if occurs(input, pattern, i) {
            return Some(i);
        }
        if i == last {
            return None;
        }
        i += 1;
    }
}

/// The last occurrence of `pattern` in `input` at or before byte offset
/// `upto`.
pub fn rfind(input: &str, pattern: &str, upto: usize) -> (r: Option<usize>)
    ensures
        offset_view(r) == rfind_upto(input.spec_bytes(), pattern.spec_bytes(), upto as int),
{
    let n: usize = input.as_bytes().len();
    let m: usize = pattern.as_bytes().len();
    if m > n {
        proof {
            lemma_rfind_none_when_longer(input.spec_bytes(), pattern.spec_bytes(), upto as int);
        }
        return None;
    }
    let last: usize = n - m;
    let mut i: usize = if upto < last {
        upto
    } else {
        proof {
            lemma_rfind_beyond_last(input.spec_bytes(), pattern.spec_bytes(), upto as int);
        }
        last
    };
    loop
        invariant
            n == input.spec_bytes().len(),
            m == pattern.spec_bytes().len(),
            last == n - m,
            i <= last,
            rfind_upto(input.spec_bytes(), pattern.spec_bytes(), upto as int) == rfind_upto(
                input.spec_bytes(),
                pattern.spec_bytes(),
                i as int,
            ),
        decreases i,
    {
        if occurs(input, pattern, i) {
            return Some(i);
        }
        if i == 0 {
            assert(rfind_upto(input.spec_bytes(), pattern.spec_bytes(), -1) is None);
            return None;
        }
        i -= 1;
    }
}

/// The first occurrence of `pattern` in `input`.
pub fn find_first(input: &str, pattern: &str) -> (r: Option<usize>)
    ensures
        offset_view(r) == first_occurrence(input.spec_bytes(), pattern.spec_bytes()),
        match r {
            Some(i) => occurs_at(input.spec_bytes(), pattern.spec_bytes(), i as int),
            None => true,
        },
{
    proof {
        lemma_find_from_is_least(input.spec_bytes(), pattern.spec_bytes(), 0);
    }
    find(input, pattern, 0)
}

/// The last occurrence of `pattern` in `input`.
pub fn find_last(input: &str, pattern: &str) -> (r: Option<usize>)
    ensures
        offset_view(r) == last_occurrence(input.spec_bytes(), pattern.spec_bytes()),
        match r {
            Some(i) => occurs_at(input.spec_bytes(), pattern.spec_bytes(), i as int),
            None => true,
        },
{
    let n: usize = input.as_bytes().len();
    let m: usize = pattern.as_bytes().len();
    proof {
        lemma_rfind_upto_is_greatest(input.spec_bytes(), pattern.spec_bytes(), n - m);
    }
    if m > n {
        None
    } else {
        rfind(input, pattern, n - m)
    }
}

/// The offset of the first occurrence of `p` in `h`, or the start of `h`
/// where `p` does not occur.
pub open spec fn first_or_start(h: Seq<u8>, p: Seq<u8>) -> int {
    match first_occurrence(h, p) {
        Some(i) => i,
        None => 0,
    }
}

/// The offset of the first occurrence of `p` in `h`, or the end of `h`
/// where `p` does not occur.
pub open spec fn first_or_end(h: Seq<u8>, p: Seq<u8>) -> int {
    match first_occurrence(h, p) {
        Some(i) => i,
        None => h.len() as int,
    }
}

/// The offset of the last occurrence of `p` in `h`, or the end of `h` where
/// `p` does not occur.
pub open spec fn last_or_end(h: Seq<u8>, p: Seq<u8>) -> int {
    match last_occurrence(h, p) {
        Some(i) => i,
        None => h.len() as int,
    }
}

/// A pattern longer than the text occurs nowhere in it.
proof fn lemma_rfind_none_when_longer(h: Seq<u8>, p: Seq<u8>, upto: int)
    requires
        p.len() > h.len(),
    ensures
        rfind_upto(h, p, upto) is None,
    decreases upto + 1,
{
    if upto >= 0 {
        lemma_rfind_none_when_longer(h, p, upto - 1);
    }
}

/// No occurrence starts after the last offset that leaves room for the
/// pattern.
proof fn lemma_rfind_beyond_last(h: Seq<u8>, p: Seq<u8>, upto: int)
    requires
        p.len() <= h.len(),
        upto >= h.len() - p.len(),
    ensures
        rfind_upto(h, p, upto) == rfind_upto(h, p, h.len() - p.len()),
    decreases upto,
{
    if upto > h.len() - p.len() {
        lemma_rfind_beyond_last(h, p, upto - 1);
    }
}

} // verus!
