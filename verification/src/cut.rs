//! Cutting: the operations that keep one span of a line and drop the rest.

use vstd::prelude::*;
use vstd::string::*;
use vstd::utf8::*;
use crate::error::SpanError;
use crate::output::Output;
use crate::output::Segments;
use crate::search::find_first;
use crate::search::find_last;
use crate::search::first_or_end;
use crate::search::first_or_start;
use crate::search::last_or_end;
use crate::span::keep;
use crate::span::keep_offset;
use crate::span::keep_span;
use crate::span::offset_ends;
use crate::span::outcome;
use crate::text::substring;
use crate::text::utf8;

verus! {

/// Keeps the line from the first occurrence of `pattern` to its end; the
/// whole line where `pattern` does not occur.
pub fn cut_from_pat(pattern: &String, input: &String) -> (r: Output)
    ensures
        r@ == cut_from_pat_spec(utf8(pattern@), utf8(input@)),
{
    let line: &str = input.as_str();
    let n: usize = line.as_bytes().len();
    let start: usize = match find_first(line, pattern.as_str()) {
        Some(i) => i,
        None => 0,
    };
    proof {
        encode_utf8_valid_utf8(input@);
        is_char_boundary_start_end_of_seq(utf8(input@));
    }
    Output::Single(substring(line, start, n))
}

/// What [`cut_from_pat`] gives.
pub open spec fn cut_from_pat_spec(p: Seq<u8>, h: Seq<u8>) -> Segments {
    Segments::Single(h.subrange(first_or_start(h, p), h.len() as int))
}

/// Keeps the line from the first occurrence of `start` up to the last
/// occurrence of `end`. A missing `start` stands for the start of the line,
/// a missing `end` for its end. Fails with `Misordered`, and only so, where
/// the span would end before it starts.
pub fn cut_from_pat_to_pat(start: &String, end: &String, input: &String) -> (r: Result<
    Output,
    SpanError,
>)
    ensures
        outcome(r) == cut_from_pat_to_pat_spec(utf8(start@), utf8(end@), utf8(input@)),
        r is Err <==> first_or_start(utf8(input@), utf8(start@)) > last_or_end(
            utf8(input@),
            utf8(end@),
        ),
        r is Err ==> r == Err::<Output, SpanError>(SpanError::Misordered),
{
    let line: &str = input.as_str();
    let n: usize = line.as_bytes().len();
    let s: usize = match find_first(line, start.as_str()) {
        Some(i) => i,
        None => 0,
    };
    let e: usize = match find_last(line, end.as_str()) {
        Some(i) => i,
        None => n,
    };
    proof {
        encode_utf8_valid_utf8(input@);
        is_char_boundary_start_end_of_seq(utf8(input@));
    }
    keep_span(line, s, e)
}

/// What [`cut_from_pat_to_pat`] gives.
pub open spec fn cut_from_pat_to_pat_spec(a: Seq<u8>, b: Seq<u8>, h: Seq<u8>) -> Result<
    Segments,
    SpanError,
> {
    keep(h, first_or_start(h, a), last_or_end(h, b))
}

/// Keeps the `offset` bytes that start at the first occurrence of
/// `pattern`, or, for a negative `offset`, the `-offset` bytes that end
/// there. A missing `pattern` stands for the start of the line. Fails with
/// `OutOfBounds` where the span leaves the line, and with `InsideChar`
/// where its other end falls inside a character.
pub fn cut_from_pat_to_offset(pattern: &String, offset: i64, input: &String) -> (r: Result<
    Output,
    SpanError,
>)
    ensures
        outcome(r) == cut_from_pat_to_offset_spec(utf8(pattern@), offset, utf8(input@)),
{
    let line: &str = input.as_str();
    let base: usize = match find_first(line, pattern.as_str()) {
        Some(i) => i,
        None => 0,
    };
    keep_offset(line, base, offset)
}

/// What [`cut_from_pat_to_offset`] gives.
pub open spec fn cut_from_pat_to_offset_spec(p: Seq<u8>, offset: i64, h: Seq<u8>) -> Result<
    Segments,
    SpanError,
> {
    let ends = offset_ends(first_or_start(h, p), offset as int);
    keep(h, ends.0, ends.1)
}

/// Keeps the line from its start up to the first occurrence of `pattern`;
/// the whole line where `pattern` does not occur.
pub fn cut_until_pat(pattern: &String, input: &String) -> (r: Output)
    ensures
        r@ == cut_until_pat_spec(utf8(pattern@), utf8(input@)),
{
    let line: &str = input.as_str();
    let n: usize = line.as_bytes().len();
    let end: usize = match find_first(line, pattern.as_str()) {
        Some(i) => i,
        None => n,
    };
    proof {
        encode_utf8_valid_utf8(input@);
        is_char_boundary_start_end_of_seq(utf8(input@));
    }
    Output::Single(substring(line, 0, end))
}

/// What [`cut_until_pat`] gives.
pub open spec fn cut_until_pat_spec(p: Seq<u8>, h: Seq<u8>) -> Segments {
    Segments::Single(h.subrange(0, first_or_end(h, p)))
}

/// Keeps the line from byte offset `index` to its end.
pub fn cut_from_index(index: usize, input: &String) -> (r: Result<Output, SpanError>)
    ensures
        outcome(r) == cut_from_index_spec(index, utf8(input@)),
{
    let line: &str = input.as_str();
    keep_span(line, index, line.as_bytes().len())
}

/// What [`cut_from_index`] gives.
pub open spec fn cut_from_index_spec(index: usize, h: Seq<u8>) -> Result<Segments, SpanError> {
    keep(h, index as int, h.len() as int)
}

/// Keeps the line from byte offset `start` up to byte offset `end`.
pub fn cut_from_index_to_index(start: usize, end: usize, input: &String) -> (r: Result<
    Output,
    SpanError,
>)
    ensures
        outcome(r) == cut_from_index_to_index_spec(start, end, utf8(input@)),
{
    keep_span(input.as_str(), start, end)
}

/// What [`cut_from_index_to_index`] gives.
pub open spec fn cut_from_index_to_index_spec(start: usize, end: usize, h: Seq<u8>) -> Result<
    Segments,
    SpanError,
> {
    keep(h, start as int, end as int)
}

/// Keeps the `offset` bytes that start at byte offset `index`, or, for a
/// negative `offset`, the `-offset` bytes that end there.
pub fn cut_from_index_to_offset(index: usize, offset: i64, input: &String) -> (r: Result<
    Output,
    SpanError,
>)
    ensures
        outcome(r) == cut_from_index_to_offset_spec(index, offset, utf8(input@)),
{
    keep_offset(input.as_str(), index, offset)
}

/// What [`cut_from_index_to_offset`] gives.
pub open spec fn cut_from_index_to_offset_spec(index: usize, offset: i64, h: Seq<u8>) -> Result<
    Segments,
    SpanError,
> {
    let ends = offset_ends(index as int, offset as int);
    keep(h, ends.0, ends.1)
}

/// Keeps the line from its start up to byte offset `index`. An `index` of
/// zero stands for no index at all: the whole line is kept.
pub fn cut_until_index(index: usize, input: &String) -> (r: Result<Output, SpanError>)
    ensures
        outcome(r) == cut_until_index_spec(index, utf8(input@)),
        index == 0 ==> r == Ok::<Output, SpanError>(Output::Single(*input)),
{
    if index == 0 {
        Ok(Output::Single(input.clone()))
    } else {
        keep_span(input.as_str(), 0, index)
    }
}

/// What [`cut_until_index`] gives.
pub open spec fn cut_until_index_spec(index: usize, h: Seq<u8>) -> Result<Segments, SpanError> {
    if index == 0 {
        Ok(Segments::Single(h))
    } else {
        keep(h, 0, index as int)
    }
}

/// Keeps the line from the first occurrence of `pattern` up to byte offset
/// `index`. A missing `pattern` stands for the start of the line. Fails
/// with `Misordered` where `index` lies before the occurrence; where it
/// lies on the occurrence, the whole line is kept.
pub fn cut_from_pat_to_index(pattern: &String, index: usize, input: &String) -> (r: Result<
    Output,
    SpanError,
>)
    ensures
        outcome(r) == cut_from_pat_to_index_spec(utf8(pattern@), index, utf8(input@)),
{
    let line: &str = input.as_str();
    let found: usize = match find_first(line, pattern.as_str()) {
        Some(i) => i,
        None => 0,
    };
    if index < found {
        Err(SpanError::Misordered)
    } else if index == found {
        Ok(Output::Single(input.clone()))
    } else {
        keep_span(line, found, index)
    }
}

/// What [`cut_from_pat_to_index`] gives.
pub open spec fn cut_from_pat_to_index_spec(p: Seq<u8>, index: usize, h: Seq<u8>) -> Result<
    Segments,
    SpanError,
> {
    let found = first_or_start(h, p);
    if index < found {
        Err(SpanError::Misordered)
    } else if index == found {
        Ok(Segments::Single(h))
    } else {
        keep(h, found, index as int)
    }
}

/// Keeps the line from byte offset `index` up to the first occurrence of
/// `pattern`. A missing `pattern` stands for the start of the line. Fails
/// with `Misordered` where `index` lies after the occurrence; where it lies
/// on the occurrence, the whole line is kept.
pub fn cut_from_index_to_pat(index: usize, pattern: &String, input: &String) -> (r: Result<
    Output,
    SpanError,
>)
    ensures
        outcome(r) == cut_from_index_to_pat_spec(index, utf8(pattern@), utf8(input@)),
{
    let line: &str = input.as_str();
    let found: usize = match find_first(line, pattern.as_str()) {
        Some(i) => i,
        None => 0,
    };
    if index > found {
        Err(SpanError::Misordered)
    } else if index == found {
        Ok(Output::Single(input.clone()))
    } else {
        keep_span(line, index, found)
    }
}

/// What [`cut_from_index_to_pat`] gives.
pub open spec fn cut_from_index_to_pat_spec(index: usize, p: Seq<u8>, h: Seq<u8>) -> Result<
    Segments,
    SpanError,
> {
    let found = first_or_start(h, p);
    if index > found {
        Err(SpanError::Misordered)
    } else if index == found {
        Ok(Segments::Single(h))
    } else {
        keep(h, index as int, found)
    }
}

} // verus!
