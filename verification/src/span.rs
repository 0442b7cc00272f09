//! Spans: byte ranges of a line, checked before anything is cut.

use vstd::prelude::*;
use vstd::string::*;
use vstd::utf8::*;
use crate::error::SpanError;
use crate::output::Output;
use crate::output::Segments;
use crate::text::lemma_utf8_concat;
use crate::text::slice;
use crate::text::substring;

verus! {

/// What is wrong with the span from `s` to `e` of `h`, if anything. An end
/// outside the line is reported first, then ends in the wrong order, then an
/// end inside a character.
pub open spec fn span_fault(h: Seq<u8>, s: int, e: int) -> Option<SpanError> {
    if s < 0 || s > h.len() || e < 0 || e > h.len() {
        Some(SpanError::OutOfBounds)
    } else if s > e {
        Some(SpanError::Misordered)
    } else if !is_char_boundary(h, s) || !is_char_boundary(h, e) {
        Some(SpanError::InsideChar)
    } else {
        None
    }
}

/// Cutting: the span from `s` to `e` of `h` alone, or what is wrong with
/// it.
pub open spec fn keep(h: Seq<u8>, s: int, e: int) -> Result<Segments, SpanError> {
    match span_fault(h, s, e) {
        Some(fault) => Err(fault),
        None => Ok(Segments::Single(h.subrange(s, e))),
    }
}

/// Trimming: `h` without the span from `s` to `e`, or what is wrong with
/// the span.
pub open spec fn excise(h: Seq<u8>, s: int, e: int) -> Result<Segments, SpanError> {
    match span_fault(h, s, e) {
        Some(fault) => Err(fault),
        None => Ok(Segments::Single(h.subrange(0, s) + h.subrange(e, h.len() as int))),
    }
}

/// The two ends of the span that starts at `base` and reaches `offset`
/// bytes forward, or that ends at `base` and reaches `-offset` bytes back.
pub open spec fn offset_ends(base: int, offset: int) -> (int, int) {
    if offset >= 0 {
        (base, base + offset)
    } else {
        (base + offset, base)
    }
}

/// A result of an operation, as sequences of bytes.
pub open spec fn outcome(r: Result<Output, SpanError>) -> Result<Segments, SpanError> {
    match r {
        Ok(o) => Ok(o@),
        Err(e) => Err(e),
    }
}

/// What is wrong with the span from `s` to `e` of `input`, if anything.
pub fn check_span(input: &str, s: usize, e: usize) -> (r: Option<SpanError>)
    ensures
        r == span_fault(input.spec_bytes(), s as int, e as int),
{
    let n: usize = input.as_bytes().len();
    if s > n || e > n {
        Some(SpanError::OutOfBounds)
    } else if s > e {
        Some(SpanError::Misordered)
    } else if !input.is_char_boundary(s) || !input.is_char_boundary(e) {
        Some(SpanError::InsideChar)
    } else {
        None
    }
}

/// The span from `s` to `e` of `input` alone.
pub fn keep_span(input: &str, s: usize, e: usize) -> (r: Result<Output, SpanError>)
    ensures
        outcome(r) == keep(input.spec_bytes(), s as int, e as int),
{
    match check_span(input, s, e) {
        Some(fault) => Err(fault),
        None => Ok(Output::Single(substring(input, s, e))),
    }
}

/// `input` without the span from `s` to `e`.
pub fn excise_span(input: &str, s: usize, e: usize) -> (r: Result<Output, SpanError>)
    ensures
        outcome(r) == excise(input.spec_bytes(), s as int, e as int),
{
    match check_span(input, s, e) {
        Some(fault) => Err(fault),
        None => {
            let n: usize = input.as_bytes().len();
            proof {
                encode_utf8_valid_utf8(input@);
                is_char_boundary_start_end_of_seq(input.spec_bytes());
            }
            let mut text = substring(input, 0, s);
            let tail = slice(input, e, n);
            proof {
                lemma_utf8_concat(text@, tail@);
            }
            text.append(tail);
            Ok(Output::Single(text))
        },
    }
}

/// The ends of the span that `base` and `offset` describe, where both lie
/// between the start of the line and offset `n`.
pub fn resolve_offset(base: usize, offset: i64, n: usize) -> (r: Option<(usize, usize)>)
    ensures
        match r {
            Some(ends) => {
                &&& 0 <= offset_ends(base as int, offset as int).0
                &&& offset_ends(base as int, offset as int).1 <= n
                &&& ends.0 == offset_ends(base as int, offset as int).0
                &&& ends.1 == offset_ends(base as int, offset as int).1
            },
            None => offset_ends(base as int, offset as int).0 < 0 || offset_ends(
                base as int,
                offset as int,
            ).1 > n,
        },
{
    if offset >= 0 {
        let forward: u64 = offset as u64;
        if base > n || forward > (n - base) as u64 {
            None
        } else {
            Some((base, base + forward as usize))
        }
    } else {
        let back: u64 = (-(offset + 1)) as u64 + 1;
        if back > base as u64 || base > n {
            None
        } else {
            Some((base - back as usize, base))
        }
    }
}

/// The span of `input` that `base` and `offset` describe, alone.
pub fn keep_offset(input: &str, base: usize, offset: i64) -> (r: Result<Output, SpanError>)
    ensures
        outcome(r) == keep(
            input.spec_bytes(),
            offset_ends(base as int, offset as int).0,
            offset_ends(base as int, offset as int).1,
        ),
{
    match resolve_offset(base, offset, input.as_bytes().len()) {
        Some(ends) => keep_span(input, ends.0, ends.1),
        None => Err(SpanError::OutOfBounds),
    }
}

/// `input` without the span that `base` and `offset` describe.
pub fn excise_offset(input: &str, base: usize, offset: i64) -> (r: Result<Output, SpanError>)
    ensures
        outcome(r) == excise(
            input.spec_bytes(),
            offset_ends(base as int, offset as int).0,
            offset_ends(base as int, offset as int).1,
        ),
{
    match resolve_offset(base, offset, input.as_bytes().len()) {
        Some(ends) => excise_span(input, ends.0, ends.1),
        None => Err(SpanError::OutOfBounds),
    }
}

} // verus!
