//! Trimming: the operations that drop one span of a line and keep the rest,
//! and the stripping of whitespace or of a pattern from both ends.

use vstd::prelude::*;
use vstd::string::*;
use vstd::utf8::*;
use crate::error::SpanError;
use crate::output::Output;
use crate::output::Segments;
use crate::search::find_first;
use crate::search::find_last;
use crate::search::first_occurrence;
use crate::search::first_or_start;
use crate::search::last_or_end;
use crate::search::occurs;
use crate::search::occurs_at;
use crate::space::trim_spaces;
use crate::space::without_outer_spaces;
use crate::span::excise;
use crate::span::excise_offset;
use crate::span::excise_span;
use crate::span::offset_ends;
use crate::span::outcome;
use crate::text::lemma_occurrence_on_boundaries;
use crate::text::substring;
use crate::text::utf8;

verus! {

/// Drops the line from the first occurrence of `pattern` to its end, and
/// keeps what stands before. Where `pattern` does not occur, the line stays
/// as it is.
pub fn trim_from_pat(pattern: &String, input: &String) -> (r: Output)
    ensures
        r@ == trim_from_pat_spec(utf8(pattern@), utf8(input@)),
{
    let line: &str = input.as_str();
    match find_first(line, pattern.as_str()) {
        Some(i) => {
            proof {
                encode_utf8_valid_utf8(input@);
                is_char_boundary_start_end_of_seq(utf8(input@));
            }
            Output::Single(substring(line, 0, i))
        },
        None => Output::Single(input.clone()),
    }
}

/// What [`trim_from_pat`] gives.
pub open spec fn trim_from_pat_spec(p: Seq<u8>, h: Seq<u8>) -> Segments {
    match first_occurrence(h, p) {
        Some(i) => Segments::Single(h.subrange(0, i)),
        None => Segments::Single(h),
    }
}

/// Drops the line from the first occurrence of `start` up to the last
/// occurrence of `end`, and keeps what stands before and after. A missing
/// `start` stands for the start of the line, a missing `end` for its end.
/// Fails with `Misordered`, and only so, where the span would end before it
/// starts.
pub fn trim_from_pat_to_pat(start: &String, end: &String, input: &String) -> (r: Result<
    Output,
    SpanError,
>)
    ensures
        outcome(r) == trim_from_pat_to_pat_spec(utf8(start@), utf8(end@), utf8(input@)),
        r is Err <==> first_or_start(utf8(input@), utf8(start@)) > last_or_end(
            utf8(input@),
            utf8(end@),
        ),
        r is Err ==> r == Err::<Output, SpanError>(SpanError::Misordered),
{
    let line: &str = input.as_str();
    let n: usize = line.as_bytes().len();
    let s: usize = match find_first(line, start.as_str()) {
        Some(i) => i,
        None => 0,
    };
    let e: usize = match find_last(line, end.as_str()) {
        Some(i) => i,
        None => n,
    };
    proof {
        encode_utf8_valid_utf8(input@);
        is_char_boundary_start_end_of_seq(utf8(input@));
    }
    excise_span(line, s, e)
}

/// What [`trim_from_pat_to_pat`] gives.
pub open spec fn trim_from_pat_to_pat_spec(a: Seq<u8>, b: Seq<u8>, h: Seq<u8>) -> Result<
    Segments,
    SpanError,
> {
    excise(h, first_or_start(h, a), last_or_end(h, b))
}

/// Drops the line from its start up to the first occurrence of `pattern`,
/// and keeps the line from the occurrence on. Where `pattern` does not
/// occur, the line stays as it is.
pub fn trim_until_pat(pattern: &String, input: &String) -> (r: Output)
    ensures
        r@ == trim_until_pat_spec(utf8(pattern@), utf8(input@)),
{
    let line: &str = input.as_str();
    let n: usize = line.as_bytes().len();
    match find_first(line, pattern.as_str()) {
        Some(i) => {
            proof {
                encode_utf8_valid_utf8(input@);
                is_char_boundary_start_end_of_seq(utf8(input@));
            }
            Output::Single(substring(line, i, n))
        },
        None => Output::Single(input.clone()),
    }
}

/// What [`trim_until_pat`] gives.
pub open spec fn trim_until_pat_spec(p: Seq<u8>, h: Seq<u8>) -> Segments {
    match first_occurrence(h, p) {
        Some(i) => Segments::Single(h.subrange(i, h.len() as int)),
        None => Segments::Single(h),
    }
}

/// Drops the line from its start up to the end of the first occurrence of
/// `pattern`, and keeps what follows the occurrence. Where `pattern` does
/// not occur, the line stays as it is.
pub fn trim_to_pat(pattern: &String, input: &String) -> (r: Output)
    ensures
        r@ == trim_to_pat_spec(utf8(pattern@), utf8(input@)),
{
    let line: &str = input.as_str();
    let n: usize = line.as_bytes().len();
    let m: usize = pattern.as_str().as_bytes().len();
    match find_first(line, pattern.as_str()) {
        Some(i) => {
            proof {
                encode_utf8_valid_utf8(input@);
                encode_utf8_valid_utf8(pattern@);
                is_char_boundary_start_end_of_seq(utf8(input@));
                if m > 0 {
                    lemma_occurrence_on_boundaries(utf8(input@), utf8(pattern@), i as int);
                }
            }
            Output::Single(substring(line, i + m, n))
        },
        None => Output::Single(input.clone()),
    }
}

/// What [`trim_to_pat`] gives.
pub open spec fn trim_to_pat_spec(p: Seq<u8>, h: Seq<u8>) -> Segments {
    match first_occurrence(h, p) {
        Some(i) => Segments::Single(h.subrange(i + p.len(), h.len() as int)),
        None => Segments::Single(h),
    }
}

/// Drops the line from byte offset `index` to its end, and keeps what
/// stands before. An `index` of zero stands for no index at all: the line
/// stays as it is.
pub fn trim_from_index(index: usize, input: &String) -> (r: Result<Output, SpanError>)
    ensures
        outcome(r) == trim_from_index_spec(index, utf8(input@)),
{
    if index == 0 {
        Ok(Output::Single(input.clone()))
    } else {
        let line: &str = input.as_str();
        excise_span(line, index, line.as_bytes().len())
    }
}

/// What [`trim_from_index`] gives.
pub open spec fn trim_from_index_spec(index: usize, h: Seq<u8>) -> Result<Segments, SpanError> {
    if index == 0 {
        Ok(Segments::Single(h))
    } else {
        excise(h, index as int, h.len() as int)
    }
}

/// Drops the line from byte offset `start` up to byte offset `end`, and
/// keeps what stands before and after. Where `end` does not lie after
/// `start`, the line stays as it is, whatever it holds.
pub fn trim_from_index_to_index(start: usize, end: usize, input: &String) -> (r: Result<
    Output,
    SpanError,
>)
    ensures
        outcome(r) == trim_from_index_to_index_spec(start, end, utf8(input@)),
        end <= start ==> r == Ok::<Output, SpanError>(Output::Single(*input)),
{
    if end <= start {
        Ok(Output::Single(input.clone()))
    } else {
        excise_span(input.as_str(), start, end)
    }
}

/// What [`trim_from_index_to_index`] gives.
pub open spec fn trim_from_index_to_index_spec(start: usize, end: usize, h: Seq<u8>) -> Result<
    Segments,
    SpanError,
> {
    if end <= start {
        Ok(Segments::Single(h))
    } else {
        excise(h, start as int, end as int)
    }
}

/// Drops the `offset` bytes that start at byte offset `index`, or, for a
/// negative `offset`, the `-offset` bytes that end there, and keeps what
/// stands before and after.
pub fn trim_from_index_to_offset(index: usize, offset: i64, input: &String) -> (r: Result<
    Output,
    SpanError,
>)
    ensures
        outcome(r) == trim_from_index_to_offset_spec(index, offset, utf8(input@)),
{
    excise_offset(input.as_str(), index, offset)
}

/// What [`trim_from_index_to_offset`] gives.
pub open spec fn trim_from_index_to_offset_spec(index: usize, offset: i64, h: Seq<u8>) -> Result<
    Segments,
    SpanError,
> {
    let ends = offset_ends(index as int, offset as int);
    excise(h, ends.0, ends.1)
}

/// Drops the line from its start up to byte offset `index`, and keeps the
/// line from there on.
pub fn trim_until_index(index: usize, input: &String) -> (r: Result<Output, SpanError>)
    ensures
        outcome(r) == trim_until_index_spec(index, utf8(input@)),
{
    excise_span(input.as_str(), 0, index)
}

/// What [`trim_until_index`] gives.
pub open spec fn trim_until_index_spec(index: usize, h: Seq<u8>) -> Result<Segments, SpanError> {
    excise(h, 0, index as int)
}

/// Drops the line from the first occurrence of `pattern` up to byte offset
/// `index`, and keeps what stands before and after. A missing `pattern`
/// stands for the start of the line. Fails with `Misordered` where `index`
/// lies before the occurrence; where it lies on the occurrence, the line
/// stays as it is.
pub fn trim_from_pat_to_index(pattern: &String, index: usize, input: &String) -> (r: Result<
    Output,
    SpanError,
>)
    ensures
        outcome(r) == trim_from_pat_to_index_spec(utf8(pattern@), index, utf8(input@)),
{
    let line: &str = input.as_str();
    let found: usize = match find_first(line, pattern.as_str()) {
        Some(i) => i,
        None => 0,
    };
    if index < found {
        Err(SpanError::Misordered)
    } else if index == found {
        Ok(Output::Single(input.clone()))
    } else {
        excise_span(line, found, index)
    }
}

/// What [`trim_from_pat_to_index`] gives.
pub open spec fn trim_from_pat_to_index_spec(p: Seq<u8>, index: usize, h: Seq<u8>) -> Result<
    Segments,
    SpanError,
> {
    let found = first_or_start(h, p);
    if index < found {
        Err(SpanError::Misordered)
    } else if index == found {
        Ok(Segments::Single(h))
    } else {
        excise(h, found, index as int)
    }
}

/// Drops the line from byte offset `index` up to the first occurrence of
/// `pattern`, and keeps what stands before and after. A missing `pattern`
/// stands for the start of the line. Fails with `Misordered` where `index`
/// lies after the occurrence; where it lies on the occurrence, the line
/// stays as it is.
pub fn trim_from_index_to_pat(index: usize, pattern: &String, input: &String) -> (r: Result<
    Output,
    SpanError,
>)
    ensures
        outcome(r) == trim_from_index_to_pat_spec(index, utf8(pattern@), utf8(input@)),
{
    let line: &str = input.as_str();
    let found: usize = match find_first(line, pattern.as_str()) {
        Some(i) => i,
        None => 0,
    };
    if index > found {
        Err(SpanError::Misordered)
    } else if index == found {
        Ok(Output::Single(input.clone()))
    } else {
        excise_span(line, index, found)
    }
}

/// What [`trim_from_index_to_pat`] gives.
pub open spec fn trim_from_index_to_pat_spec(index: usize, p: Seq<u8>, h: Seq<u8>) -> Result<
    Segments,
    SpanError,
> {
    let found = first_or_start(h, p);
    if index > found {
        Err(SpanError::Misordered)
    } else if index == found {
        Ok(Segments::Single(h))
    } else {
        excise(h, index as int, found)
    }
}

/// The offset at which `h` goes on after the occurrences of `p` that stand
/// one after the other from offset `i` on. An empty pattern strips nothing.
pub open spec fn strip_start(h: Seq<u8>, p: Seq<u8>, i: int) -> int
    decreases h.len() - i,
{
    if p.len() > 0 && occurs_at(h, p, i) {
        strip_start(h, p, i + p.len())
    } else {
        i
    }
}

/// The offset at which `h` stops before the occurrences of `p` that stand
/// one after the other up to offset `e` and start at or after offset `s`.
/// An empty pattern strips nothing.
pub open spec fn strip_end(h: Seq<u8>, p: Seq<u8>, s: int, e: int) -> int
    decreases e,
{
    if p.len() > 0 && s <= e - p.len() && occurs_at(h, p, e - p.len()) {
        strip_end(h, p, s, e - p.len())
    } else {
        e
    }
}

/// The line without the occurrences of `p` at its start and then without
/// those at the end of what is left.
pub open spec fn trim_pattern(h: Seq<u8>, p: Seq<u8>) -> Seq<u8> {
    let s = strip_start(h, p, 0);
    h.subrange(s, strip_end(h, p, s, h.len() as int))
}

/// Stripping at the start moves forward, stays in the line, and stops where
/// the pattern does not occur.
pub proof fn lemma_strip_start(h: Seq<u8>, p: Seq<u8>, i: int)
    requires
        0 <= i <= h.len(),
    ensures
        i <= strip_start(h, p, i) <= h.len(),
        p.len() > 0 ==> !occurs_at(h, p, strip_start(h, p, i)),
    decreases h.len() - i,
{
    if p.len() > 0 && occurs_at(h, p, i) {
        lemma_strip_start(h, p, i + p.len());
    }
}

/// Stripping at the end moves backward, stays at or after `s`, and stops
/// where the pattern does not occur between `s` and the end.
pub proof fn lemma_strip_end(h: Seq<u8>, p: Seq<u8>, s: int, e: int)
    requires
        0 <= s <= e,
    ensures
        s <= strip_end(h, p, s, e) <= e,
        p.len() > 0 ==> !(s <= strip_end(h, p, s, e) - p.len() && occurs_at(
            h,
            p,
            strip_end(h, p, s, e) - p.len(),
        )),
    decreases e,
{
    if p.len() > 0 && s <= e - p.len() && occurs_at(h, p, e - p.len()) {
        lemma_strip_end(h, p, s, e - p.len());
    }
}

/// What is left of a line after a pattern was stripped neither starts nor
/// ends with the pattern.
pub proof fn lemma_trim_pattern_is_trimmed(h: Seq<u8>, p: Seq<u8>)
    requires
        valid_utf8(h),
        valid_utf8(p),
        0 < p.len() <= trim_pattern(h, p).len(),
    ensures
        trim_pattern(h, p).subrange(0, p.len() as int) != p,
        trim_pattern(h, p).subrange(
            trim_pattern(h, p).len() - p.len(),
            trim_pattern(h, p).len() as int,
        ) != p,
{
    let s = strip_start(h, p, 0);
    let e = strip_end(h, p, s, h.len() as int);
    let t = trim_pattern(h, p);
    lemma_strip_start(h, p, 0);
    lemma_strip_end(h, p, s, h.len() as int);
    if t.subrange(0, p.len() as int) == p {
        assert(h.subrange(s, s + p.len()) =~= t.subrange(0, p.len() as int));
        lemma_occurrence_on_boundaries(h, p, s);
    }
    if t.subrange(t.len() - p.len(), t.len() as int) == p {
        assert(h.subrange(e - p.len(), e) =~= t.subrange(t.len() - p.len(), t.len() as int));
        lemma_occurrence_on_boundaries(h, p, e - p.len());
    }
}

/// What [`trim`] gives.
pub open spec fn trim_spec(pattern: Option<Seq<u8>>, h: Seq<u8>) -> Segments {
    match pattern {
        None => Segments::Single(trim_spaces(h)),
        Some(p) => Segments::Single(trim_pattern(h, p)),
    }
}

/// A pattern held by executable code, as a sequence of bytes.
pub open spec fn pattern_view(pattern: Option<String>) -> Option<Seq<u8>> {
    match pattern {
        Some(p) => Some(utf8(p@)),
        None => None,
    }
}

/// Strips whitespace from both ends of the line or, where a pattern is
/// given, the occurrences of the pattern at the start of the line and then
/// those at the end of what is left.
pub fn trim(pattern: &Option<String>, input: &String) -> (r: Output)
    ensures
        r@ == trim_spec(pattern_view(*pattern), utf8(input@)),
{
    let line: &str = input.as_str();
    match pattern {
        None => Output::Single(without_outer_spaces(line)),
        Some(p) => {
            let pat: &str = p.as_str();
            let ghost h = line.spec_bytes();
            let ghost q = pat.spec_bytes();
            let n: usize = line.as_bytes().len();
            let m: usize = pat.as_bytes().len();
            if m == 0 {
                assert(h.subrange(0, h.len() as int) =~= h);
                return Output::Single(input.clone());
            }
            proof {
                encode_utf8_valid_utf8(input@);
                encode_utf8_valid_utf8(p@);
                is_char_boundary_start_end_of_seq(h);
            }
            let mut s: usize = 0;
            while m <= n - s && occurs(line, pat, s)
                invariant
                    h == line.spec_bytes(),
                    q == pat.spec_bytes(),
                    valid_utf8(h),
                    valid_utf8(q),
                    n == h.len(),
                    m == q.len(),
                    m > 0,
                    s <= n,
                    is_char_boundary(h, s as int),
                    strip_start(h, q, 0) == strip_start(h, q, s as int),
                decreases n - s,
            {
                proof {
                    lemma_occurrence_on_boundaries(h, q, s as int);
                }
                s += m;
            }
            let mut e: usize = n;
            while m <= e - s && occurs(line, pat, e - m)
                invariant
                    h == line.spec_bytes(),
                    q == pat.spec_bytes(),
                    valid_utf8(h),
                    valid_utf8(q),
                    n == h.len(),
                    m == q.len(),
                    m > 0,
                    s <= e <= n,
                    is_char_boundary(h, e as int),
                    strip_end(h, q, s as int, n as int) == strip_end(h, q, s as int, e as int),
                decreases e,
            {
                e -= m;
            }
            Output::Single(substring(line, s, e))
        },
    }
}

} // verus!
