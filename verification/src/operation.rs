//! The closed set of operations, and the dispatch of one of them to a line.

use vstd::prelude::*;
use vstd::string::*;
use crate::cut::cut_from_index;
use crate::cut::cut_from_index_spec;
use crate::cut::cut_from_index_to_index;
use crate::cut::cut_from_index_to_index_spec;
use crate::cut::cut_from_index_to_offset;
use crate::cut::cut_from_index_to_offset_spec;
use crate::cut::cut_from_index_to_pat;
use crate::cut::cut_from_index_to_pat_spec;
use crate::cut::cut_from_pat;
use crate::cut::cut_from_pat_spec;
use crate::cut::cut_from_pat_to_index;
use crate::cut::cut_from_pat_to_index_spec;
use crate::cut::cut_from_pat_to_offset;
use crate::cut::cut_from_pat_to_offset_spec;
use crate::cut::cut_from_pat_to_pat;
use crate::cut::cut_from_pat_to_pat_spec;
use crate::cut::cut_until_index;
use crate::cut::cut_until_index_spec;
use crate::cut::cut_until_pat;
use crate::cut::cut_until_pat_spec;
use crate::error::SpanError;
use crate::output::Output;
use crate::output::Segments;
use crate::replace::replace;
use crate::replace::replace_spec;
use crate::space::split_at_whitespace;
use crate::space::words_result;
use crate::span::outcome;
use crate::split::split_at_char;
use crate::split::split_at_index;
use crate::split::split_at_index_spec;
use crate::split::split_at_pat;
use crate::split::split_result;
use crate::text::utf8;
use crate::trim::pattern_view;
use crate::trim::trim;
use crate::trim::trim_from_index;
use crate::trim::trim_from_index_spec;
use crate::trim::trim_from_index_to_index;
use crate::trim::trim_from_index_to_index_spec;
use crate::trim::trim_from_index_to_offset;
use crate::trim::trim_from_index_to_offset_spec;
use crate::trim::trim_from_index_to_pat;
use crate::trim::trim_from_index_to_pat_spec;
use crate::trim::trim_from_pat;
use crate::trim::trim_from_pat_spec;
use crate::trim::trim_from_pat_to_index;
use crate::trim::trim_from_pat_to_index_spec;
use crate::trim::trim_from_pat_to_pat;
use crate::trim::trim_from_pat_to_pat_spec;
use crate::trim::trim_spec;
use crate::trim::trim_to_pat;
use crate::trim::trim_to_pat_spec;
use crate::trim::trim_until_index;
use crate::trim::trim_until_index_spec;
use crate::trim::trim_until_pat;
use crate::trim::trim_until_pat_spec;

verus! {

/// One operation with its parameters. A value is made once and applied to
/// every line as it is.
#[derive(Debug, PartialEq, Eq)]
#[allow(inconsistent_fields)]
pub enum Operation {
    /// Split at whitespace, at most `number` times.
    SplitAtWhitespace { number: Option<i64> },
    /// Split at the occurrences of `pattern`, at most `number` times.
    SplitAtPat { pattern: String, number: Option<i64> },
    /// Split at the occurrences of `char`, at most `number` times.
    SplitAtChar { char: char, number: Option<i64> },
    /// Keep the line from `pattern` on.
    CutFromPat { pattern: String },
    /// Keep the line from `start` up to the last `end`.
    CutFromPatToPat { start: String, end: String },
    /// Keep `offset` bytes from `pattern` on, or before it.
    CutFromPatToOffset { pattern: String, offset: i64 },
    /// Keep the line up to `pattern`.
    CutUntilPat { pattern: String },
    /// Drop the line from `pattern` on.
    TrimFromPat { pattern: String },
    /// Drop the line from `start` up to the last `end`.
    TrimFromPatToPat { start: String, end: String },
    /// Drop the line up to `pattern`.
    TrimUntilPat { pattern: String },
    /// Drop the line up to and with `pattern`.
    TrimToPat { pattern: String },
    /// Split in two at `index`.
    SplitAtIndex { index: usize },
    /// Keep the line from `index` on.
    CutFromIndex { index: usize },
    /// Keep the line from `start` up to `end`.
    CutFromIndexToIndex { start: usize, end: usize },
    /// Keep `offset` bytes from `index` on, or before it.
    CutFromIndexToOffset { index: usize, offset: i64 },
    /// Keep the line up to `index`.
    CutUntilIndex { index: usize },
    /// Drop the line from `index` on.
    TrimFromIndex { index: usize },
    /// Drop the line from `start` up to `end`.
    TrimFromIndexToIndex { start: usize, end: usize },
    /// Drop `offset` bytes from `index` on, or before it.
    TrimFromIndexToOffset { index: usize, offset: i64 },
    /// Drop the line up to `index`.
    TrimUntilIndex { index: usize },
    /// Strip whitespace, or `pattern`, from both ends.
    Trim { pattern: Option<String> },
    /// Replace `pattern` by `with`, at most `number` times.
    Replace { pattern: String, with: String, number: Option<i64> },
    /// Remove `pattern`, at most `number` times.
    Remove { pattern: String, number: Option<i64> },
    /// Keep the line from `pattern` up to `index`.
    CutFromPatToIndex { pattern: String, index: usize },
    /// Keep the line from `index` up to `pattern`.
    CutFromIndexToPat { index: usize, pattern: String },
    /// Drop the line from `pattern` up to `index`.
    TrimFromPatToIndex { pattern: String, index: usize },
    /// Drop the line from `index` up to `pattern`.
    TrimFromIndexToPat { index: usize, pattern: String },
}

impl Default for Operation {
    /// Splitting at whitespace, without a count.
    fn default() -> (r: Self)
        ensures
            r == (Operation::SplitAtWhitespace { number: None }),
    {
        Operation::SplitAtWhitespace { number: None }
    }
}

impl Operation {
    /// What this operation gives for the line `h`.
    pub open spec fn apply(&self, h: Seq<u8>) -> Result<Segments, SpanError> {
        match self {
            Operation::SplitAtWhitespace { number } => Ok(words_result(*number, h)),
            Operation::SplitAtPat { pattern, number } => Ok(
                split_result(*number, utf8(pattern@), h),
            ),
            Operation::SplitAtChar { char, number } => Ok(
                split_result(*number, utf8(seq![*char]), h),
            ),
            Operation::CutFromPat { pattern } => Ok(cut_from_pat_spec(utf8(pattern@), h)),
            Operation::CutFromPatToPat { start, end } => cut_from_pat_to_pat_spec(
                utf8(start@),
                utf8(end@),
                h,
            ),
            Operation::CutFromPatToOffset { pattern, offset } => cut_from_pat_to_offset_spec(
                utf8(pattern@),
                *offset,
                h,
            ),
            Operation::CutUntilPat { pattern } => Ok(cut_until_pat_spec(utf8(pattern@), h)),
            Operation::TrimFromPat { pattern } => Ok(trim_from_pat_spec(utf8(pattern@), h)),
            Operation::TrimFromPatToPat { start, end } => trim_from_pat_to_pat_spec(
                utf8(start@),
                utf8(end@),
                h,
            ),
            Operation::TrimUntilPat { pattern } => Ok(trim_until_pat_spec(utf8(pattern@), h)),
            Operation::TrimToPat { pattern } => Ok(trim_to_pat_spec(utf8(pattern@), h)),
            Operation::SplitAtIndex { index } => split_at_index_spec(*index, h),
            Operation::CutFromIndex { index } => cut_from_index_spec(*index, h),
            Operation::CutFromIndexToIndex { start, end } => cut_from_index_to_index_spec(
                *start,
                *end,
                h,
            ),
            Operation::CutFromIndexToOffset { index, offset } => cut_from_index_to_offset_spec(
                *index,
                *offset,
                h,
            ),
            Operation::CutUntilIndex { index } => cut_until_index_spec(*index, h),
            Operation::TrimFromIndex { index } => trim_from_index_spec(*index, h),
            Operation::TrimFromIndexToIndex { start, end } => trim_from_index_to_index_spec(
                *start,
                *end,
                h,
            ),
            Operation::TrimFromIndexToOffset { index, offset } => trim_from_index_to_offset_spec(
                *index,
                *offset,
                h,
            ),
            Operation::TrimUntilIndex { index } => trim_until_index_spec(*index, h),
            Operation::Trim { pattern } => Ok(trim_spec(pattern_view(*pattern), h)),
            Operation::Replace { pattern, with, number } => Ok(
                replace_spec(utf8(pattern@), utf8(with@), *number, h),
            ),
            Operation::Remove { pattern, number } => Ok(
                replace_spec(utf8(pattern@), Seq::empty(), *number, h),
            ),
            Operation::CutFromPatToIndex { pattern, index } => cut_from_pat_to_index_spec(
                utf8(pattern@),
                *index,
                h,
            ),
            Operation::CutFromIndexToPat { index, pattern } => cut_from_index_to_pat_spec(
                *index,
                utf8(pattern@),
                h,
            ),
            Operation::TrimFromPatToIndex { pattern, index } => trim_from_pat_to_index_spec(
                utf8(pattern@),
                *index,
                h,
            ),
            Operation::TrimFromIndexToPat { index, pattern } => trim_from_index_to_pat_spec(
                *index,
                utf8(pattern@),
                h,
            ),
        }
    }

    /// Applies this operation to one line.
    pub fn execute(&self, input: &String) -> (r: Result<Output, SpanError>)
        ensures
            outcome(r) == self.apply(utf8(input@)),
    {
        match self {
            Operation::SplitAtWhitespace { number } => Ok(split_at_whitespace(*number, input)),
            Operation::SplitAtPat { pattern, number } => Ok(split_at_pat(*number, pattern, input)),
            Operation::SplitAtChar { char, number } => Ok(split_at_char(*number, *char, input)),
            Operation::CutFromPat { pattern } => Ok(cut_from_pat(pattern, input)),
            Operation::CutFromPatToPat { start, end } => cut_from_pat_to_pat(start, end, input),
            Operation::CutFromPatToOffset { pattern, offset } => cut_from_pat_to_offset(
                pattern,
                *offset,
                input,
            ),
            Operation::CutUntilPat { pattern } => Ok(cut_until_pat(pattern, input)),
            Operation::TrimFromPat { pattern } => Ok(trim_from_pat(pattern, input)),
            Operation::TrimFromPatToPat { start, end } => trim_from_pat_to_pat(start, end, input),
            Operation::TrimUntilPat { pattern } => Ok(trim_until_pat(pattern, input)),
            Operation::TrimToPat { pattern } => Ok(trim_to_pat(pattern, input)),
            Operation::SplitAtIndex { index } => split_at_index(*index, input),
            Operation::CutFromIndex { index } => cut_from_index(*index, input),
            Operation::CutFromIndexToIndex { start, end } => cut_from_index_to_index(
                *start,
                *end,
                input,
            ),
            Operation::CutFromIndexToOffset { index, offset } => cut_from_index_to_offset(
                *index,
                *offset,
                input,
            ),
            Operation::CutUntilIndex { index } => cut_until_index(*index, input),
            Operation::TrimFromIndex { index } => trim_from_index(*index, input),
            Operation::TrimFromIndexToIndex { start, end } => trim_from_index_to_index(
                *start,
                *end,
                input,
            ),
            Operation::TrimFromIndexToOffset { index, offset } => trim_from_index_to_offset(
                *index,
                *offset,
                input,
            ),
            Operation::TrimUntilIndex { index } => trim_until_index(*index, input),
            Operation::Trim { pattern } => Ok(trim(pattern, input)),
            Operation::Replace { pattern, with, number } => Ok(
                replace(pattern, with, *number, input),
            ),
            Operation::Remove { pattern, number } => {
                let nothing = String::new();
                assert(utf8(nothing@) =~= Seq::empty());
                Ok(replace(pattern, &nothing, *number, input))
            },
            Operation::CutFromPatToIndex { pattern, index } => cut_from_pat_to_index(
                pattern,
                *index,
                input,
            ),
            Operation::CutFromIndexToPat { index, pattern } => cut_from_index_to_pat(
                *index,
                pattern,
                input,
            ),
            Operation::TrimFromPatToIndex { pattern, index } => trim_from_pat_to_index(
                pattern,
                *index,
                input,
            ),
            Operation::TrimFromIndexToPat { index, pattern } => trim_from_index_to_pat(
                *index,
                pattern,
                input,
            ),
        }
    }
}

/// What the command line names: an operation, or none.
#[derive(Debug, PartialEq, Eq)]
pub struct Args {
    /// The operation that was asked for.
    pub operation: Option<Operation>,
}

impl Args {
    /// The operation to run: the one that was asked for, or the default
    /// where none was.
    pub fn into_operation(self) -> (r: Operation)
        ensures
            r == match self.operation {
                Some(o) => o,
                None => (Operation::SplitAtWhitespace { number: None }),
            },
    {
        match self.operation {
            Some(o) => o,
            None => Operation::default(),
        }
    }
}

} // verus!
