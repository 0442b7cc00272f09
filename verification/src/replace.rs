//! Replacing the occurrences of a pattern in a line.

use vstd::prelude::*;
use vstd::string::*;
use crate::output::Output;
use crate::output::Segments;
use crate::split::join;
use crate::split::join_all;
use crate::split::lemma_join_split_backward;
use crate::split::lemma_join_split_forward;
use crate::split::split_backward;
use crate::split::split_forward;
use crate::split::split_left;
use crate::split::split_right;
use crate::text::utf8;

verus! {

/// What replacing the pattern `p` by `with` in `h` gives for a count: the
/// segments between the replaced occurrences, joined with `with`.
///
/// Without a count every occurrence is replaced. A positive count `n`
/// replaces the first `n` occurrences from the left, a negative count `-n`
/// the last `n` from the right. A count of zero leaves the line as it is.
pub open spec fn replace_spec(p: Seq<u8>, with: Seq<u8>, number: Option<i64>, h: Seq<u8>) -> Segments {
    match number {
        None => Segments::Single(join(split_forward(h, p, 0, 0, None), with)),
        Some(x) => if x > 0 {
            Segments::Single(join(split_forward(h, p, 0, 0, Some(x as nat)), with))
        } else if x < 0 {
            Segments::Single(
                join(
                    split_backward(h, p, h.len() as int, h.len() - p.len(), Some((-x) as nat)),
                    with,
                ),
            )
        } else {
            Segments::Single(h)
        },
    }
}

/// Replaces occurrences of `pattern` in `input` by `with`, as
/// [`replace_spec`] says.
pub fn replace(pattern: &String, with: &String, number: Option<i64>, input: &String) -> (r: Output)
    ensures
        r@ == replace_spec(utf8(pattern@), utf8(with@), number, utf8(input@)),
{
    let line: &str = input.as_str();
    let pat: &str = pattern.as_str();
    match number {
        None => Output::Single(join_all(&split_left(line, pat, None), with.as_str())),
        Some(x) => if x > 0 {
            Output::Single(join_all(&split_left(line, pat, Some(x as u64)), with.as_str()))
        } else if x < 0 {
            let count: u64 = (-(x + 1)) as u64 + 1;
            Output::Single(join_all(&split_right(line, pat, Some(count)), with.as_str()))
        } else {
            Output::Single(input.clone())
        },
    }
}

/// Replacing a pattern by itself changes nothing, whatever the count.
pub proof fn lemma_replace_by_itself(p: Seq<u8>, number: Option<i64>, h: Seq<u8>)
    ensures
        replace_spec(p, p, number, h) == Segments::Single(h),
{
    assert(h.subrange(0, h.len() as int) =~= h);
    match number {
        None => {
            lemma_join_split_forward(h, p, 0, 0, None);
        },
        Some(x) => {
            if x > 0 {
                lemma_join_split_forward(h, p, 0, 0, Some(x as nat));
            } else if x < 0 {
                lemma_join_split_backward(
                    h,
                    p,
                    h.len() as int,
                    h.len() - p.len(),
                    Some((-x) as nat),
                );
            }
        },
    }
}

} // verus!
