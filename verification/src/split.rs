//! Splitting a line at the occurrences of a pattern, and joining it again.

use vstd::prelude::*;
use vstd::string::*;
use vstd::utf8::*;
use crate::error::SpanError;
use crate::output::Output;
use crate::output::Segments;
use crate::search::find;
use crate::search::find_from;
use crate::search::lemma_find_from_is_least;
use crate::search::lemma_rfind_upto_is_greatest;
use crate::search::rfind;
use crate::search::rfind_upto;
use crate::span::check_span;
use crate::span::outcome;
use crate::span::span_fault;
use crate::text::char_string;
use crate::text::lemma_occurrence_on_boundaries;
use crate::text::lemma_utf8_concat;
use crate::text::lemma_utf8_each_push;
use crate::text::substring;
use crate::text::utf8;
use crate::text::utf8_each;

verus! {

/// How far the search moves on after an occurrence: past the pattern, or
/// past one byte where the pattern is empty.
pub open spec fn stride(p: Seq<u8>) -> int {
    if p.len() == 0 {
        1
    } else {
        p.len() as int
    }
}

/// A budget of splits after one of them is spent; `None` is no limit.
pub open spec fn spend(budget: Option<nat>) -> Option<nat> {
    match budget {
        Some(b) => Some((b - 1) as nat),
        None => None,
    }
}

/// The segments of `h` from offset `start` on, cut at the occurrences of `p`
/// found from offset `from` on, left to right, at most `budget` of them.
/// What follows the last cut is the last segment.
pub open spec fn split_forward(
    h: Seq<u8>,
    p: Seq<u8>,
    start: int,
    from: int,
    budget: Option<nat>,
) -> Seq<Seq<u8>>
    decreases h.len() - from + 1,
    via split_forward_decreases
{
    if budget == Some(0nat) {
        seq![h.subrange(start, h.len() as int)]
    } else {
        match find_from(h, p, from) {
            None => seq![h.subrange(start, h.len() as int)],
            Some(m) => seq![h.subrange(start, m)] + split_forward(
                h,
                p,
                m + p.len(),
                m + stride(p),
                spend(budget),
            ),
        }
    }
}

#[via_fn]
proof fn split_forward_decreases(
    h: Seq<u8>,
    p: Seq<u8>,
    start: int,
    from: int,
    budget: Option<nat>,
) {
    if from >= 0 {
        lemma_find_from_is_least(h, p, from);
    }
}

/// The segments of `h` up to offset `end`, cut at the occurrences of `p`
/// found from offset `upto` down, right to left, at most `budget` of them.
/// What precedes the leftmost cut is the first segment.
pub open spec fn split_backward(
    h: Seq<u8>,
    p: Seq<u8>,
    end: int,
    upto: int,
    budget: Option<nat>,
) -> Seq<Seq<u8>>
    decreases
        (if upto < 0 {
            0
        } else {
            upto + 1
        }),
    via split_backward_decreases
{
    if budget == Some(0nat) {
        seq![h.subrange(0, end)]
    } else {
        match rfind_upto(h, p, upto) {
            None => seq![h.subrange(0, end)],
            Some(m) => split_backward(h, p, m, m - stride(p), spend(budget)).push(
                h.subrange(m + p.len(), end),
            ),
        }
    }
}

#[via_fn]
proof fn split_backward_decreases(
    h: Seq<u8>,
    p: Seq<u8>,
    end: int,
    upto: int,
    budget: Option<nat>,
) {
    lemma_rfind_upto_is_greatest(h, p, upto);
}

/// The segments with `sep` between each two neighbours, as one text.
pub open spec fn join(parts: Seq<Seq<u8>>, sep: Seq<u8>) -> Seq<u8>
    decreases parts.len(),
{
    if parts.len() == 0 {
        Seq::empty()
    } else if parts.len() == 1 {
        parts[0]
    } else {
        parts[0] + sep + join(parts.drop_first(), sep)
    }
}

/// A budget held by executable code, as a mathematical one.
pub open spec fn budget_view(budget: Option<u64>) -> Option<nat> {
    match budget {
        Some(b) => Some(b as nat),
        None => None,
    }
}

/// The segments of `input` cut at the occurrences of `pattern`, left to
/// right, at most `budget` of them.
pub fn split_left(input: &str, pattern: &str, budget: Option<u64>) -> (out: Vec<String>)
    ensures
        utf8_each(out@) == split_forward(
            input.spec_bytes(),
            pattern.spec_bytes(),
            0,
            0,
            budget_view(budget),
        ),
{
    let ghost h = input.spec_bytes();
    let ghost p = pattern.spec_bytes();
    let n: usize = input.as_bytes().len();
    let m: usize = pattern.as_bytes().len();
    let mut out: Vec<String> = Vec::new();
    let mut start: usize = 0;
    let mut from: usize = 0;
    let mut left: Option<u64> = budget;
    let mut searching: bool = true;
    proof {
        encode_utf8_valid_utf8(input@);
        encode_utf8_valid_utf8(pattern@);
        is_char_boundary_start_end_of_seq(h);
        assert(utf8_each(out@) + split_forward(h, p, 0, 0, budget_view(budget)) =~= split_forward(
            h,
            p,
            0,
            0,
            budget_view(budget),
        ));
    }
    while searching
        invariant
            h == input.spec_bytes(),
            p == pattern.spec_bytes(),
            valid_utf8(h),
            valid_utf8(p),
            n == h.len(),
            m == p.len(),
            start <= from <= n,
            is_char_boundary(h, start as int),
            searching ==> split_forward(h, p, 0, 0, budget_view(budget)) == utf8_each(out@)
                + split_forward(h, p, start as int, from as int, budget_view(left)),
            !searching ==> split_forward(h, p, 0, 0, budget_view(budget)) == utf8_each(out@).push(
                h.subrange(start as int, n as int),
            ),
        decreases n - from + (if searching { 1int } else { 0int }),
    {
        let ghost rest = split_forward(h, p, start as int, from as int, budget_view(left));
        let found = if left == Some(0u64) {
            None
        } else {
            find(input, pattern, from)
        };
        match found {
            None => {
                assert(utf8_each(out@) + rest =~= utf8_each(out@).push(
                    h.subrange(start as int, n as int),
                ));
                searching = false;
            },
            Some(k) => {
                proof {
                    lemma_find_from_is_least(h, p, from as int);
                    if m > 0 {
                        lemma_occurrence_on_boundaries(h, p, k as int);
                    }
                }
                let part = substring(input, start, k);
                let ghost before = out@;
                out.push(part);
                let ghost tail = split_forward(
                    h,
                    p,
                    k + p.len(),
                    k + stride(p),
                    spend(budget_view(left)),
                );
                proof {
                    lemma_utf8_each_push(before, part);
                    assert(utf8_each(before) + (seq![h.subrange(start as int, k as int)] + tail)
                        =~= utf8_each(out@) + tail);
                }
                start = k + m;
                left = match left {
                    Some(b) => Some(b - 1),
                    None => None,
                };
                if m > 0 {
                    from = k + m;
                } else if k < n {
                    from = k + 1;
                } else {
                    assert(tail =~= seq![h.subrange(n as int, n as int)]);
                    assert(utf8_each(out@) + tail =~= utf8_each(out@).push(
                        h.subrange(start as int, n as int),
                    ));
                    from = k;
                    searching = false;
                }
            },
        }
    }
    let part = substring(input, start, n);
    proof {
        lemma_utf8_each_push(out@, part);
    }
    out.push(part);
    out
}

/// The same strings in the opposite order.
fn reversed(v: Vec<String>) -> (out: Vec<String>)
    ensures
        out@ == v@.reverse(),
{
    let mut rest = v;
    let mut out: Vec<String> = Vec::new();
    while rest.len() > 0
        invariant
            rest@.len() + out@.len() == v@.len(),
            rest@ == v@.subrange(0, rest@.len() as int),
            forall|i: int| 0 <= i < out@.len() ==> out@[i] == v@[v@.len() - 1 - i],
        decreases rest@.len(),
    {
        let last = rest.pop();
        match last {
            Some(s) => {
                out.push(s);
            },
            None => {},
        }
    }
    assert(out@ =~= v@.reverse());
    out
}

/// The segments of `input` cut at the occurrences of `pattern`, right to
/// left, at most `budget` of them, in the order in which they stand in the
/// line.
pub fn split_right(input: &str, pattern: &str, budget: Option<u64>) -> (out: Vec<String>)
    ensures
        utf8_each(out@) == split_backward(
            input.spec_bytes(),
            pattern.spec_bytes(),
            input.spec_bytes().len() as int,
            input.spec_bytes().len() - pattern.spec_bytes().len(),
            budget_view(budget),
        ),
{
    let ghost h = input.spec_bytes();
    let ghost p = pattern.spec_bytes();
    let n: usize = input.as_bytes().len();
    let m: usize = pattern.as_bytes().len();
    let step: usize = if m > 0 {
        m
    } else {
        1
    };
    let ghost whole = split_backward(h, p, n as int, n - m, budget_view(budget));
    let mut rev: Vec<String> = Vec::new();
    let mut end: usize = n;
    let mut upto: usize = 0;
    let mut left: Option<u64> = budget;
    let mut searching: bool = m <= n;
    if searching {
        upto = n - m;
    }
    proof {
        encode_utf8_valid_utf8(input@);
        encode_utf8_valid_utf8(pattern@);
        is_char_boundary_start_end_of_seq(h);
        assert(whole + utf8_each(rev@).reverse() =~= whole);
        if !searching {
            assert(rfind_upto(h, p, n - m) is None);
            assert(whole =~= seq![h.subrange(0, n as int)] + utf8_each(rev@).reverse());
        }
    }
    while searching
        invariant
            h == input.spec_bytes(),
            p == pattern.spec_bytes(),
            valid_utf8(h),
            valid_utf8(p),
            n == h.len(),
            m == p.len(),
            step == stride(p),
            end <= n,
            searching ==> upto + m <= end,
            is_char_boundary(h, end as int),
            searching ==> whole == split_backward(h, p, end as int, upto as int, budget_view(left))
                + utf8_each(rev@).reverse(),
            !searching ==> whole == seq![h.subrange(0, end as int)] + utf8_each(rev@).reverse(),
        decreases upto + (if searching { 1int } else { 0int }),
    {
        let found = if left == Some(0u64) {
            None
        } else {
            rfind(input, pattern, upto)
        };
        match found {
            None => {
                searching = false;
            },
            Some(k) => {
                proof {
                    lemma_rfind_upto_is_greatest(h, p, upto as int);
                    if m > 0 {
                        lemma_occurrence_on_boundaries(h, p, k as int);
                    }
                }
                let part = substring(input, k + m, end);
                let ghost before = rev@;
                let ghost head = split_backward(
                    h,
                    p,
                    k as int,
                    k - stride(p),
                    spend(budget_view(left)),
                );
                rev.push(part);
                proof {
                    lemma_utf8_each_push(before, part);
                    assert(head.push(h.subrange(k + m, end as int)) + utf8_each(before).reverse()
                        =~= head + utf8_each(rev@).reverse());
                }
                end = k;
                left = match left {
                    Some(b) => Some(b - 1),
                    None => None,
                };
                if k >= step {
                    upto = k - step;
                } else {
                    assert(rfind_upto(h, p, k - stride(p)) is None);
                    assert(head =~= seq![h.subrange(0, k as int)]);
                    searching = false;
                }
            },
        }
    }
    let part = substring(input, 0, end);
    proof {
        lemma_utf8_each_push(rev@, part);
        assert(seq![h.subrange(0, end as int)] + utf8_each(rev@).reverse() =~= utf8_each(
            rev@.push(part),
        ).reverse());
    }
    rev.push(part);
    let out = reversed(rev);
    assert(utf8_each(out@) =~= utf8_each(rev@).reverse());
    out
}

/// The strings of `parts` with `sep` between each two neighbours, as one
/// string.
pub fn join_all(parts: &Vec<String>, sep: &str) -> (r: String)
    ensures
        utf8(r@) == join(utf8_each(parts@), sep.spec_bytes()),
{
    let ghost all = utf8_each(parts@);
    let count: usize = parts.len();
    let mut text = String::new();
    if count == 0 {
        assert(utf8(text@) =~= Seq::empty());
        return text;
    }
    let ghost nothing = text@;
    text.append(parts[0].as_str());
    let mut k: usize = 1;
    proof {
        assert(nothing + parts@[0]@ =~= parts@[0]@);
        assert(all.subrange(0, 1) =~= seq![all[0]]);
    }
    while k < count
        invariant
            1 <= k <= count,
            count == parts@.len(),
            all == utf8_each(parts@),
            utf8(text@) == join(all.subrange(0, k as int), sep.spec_bytes()),
        decreases count - k,
    {
        let ghost before = text@;
        text.append(sep);
        proof {
            lemma_utf8_concat(before, sep@);
            lemma_utf8_concat(text@, parts@[k as int]@);
            lemma_join_push(all.subrange(0, k as int), all[k as int], sep.spec_bytes());
            assert(all.subrange(0, k as int).push(all[k as int]) =~= all.subrange(0, k + 1));
        }
        text.append(parts[k].as_str());
        k += 1;
    }
    assert(all.subrange(0, count as int) =~= all);
    text
}

/// What splitting `h` at the pattern `p` gives for a count.
///
/// Without a count the line is cut at every occurrence. A positive count
/// `n` cuts at the first `n` occurrences from the left and leaves the rest
/// of the line in the last segment. A negative count `-n` cuts from the
/// right until there are `n` segments, the first of which holds the rest
/// of the line. A count of zero leaves the line whole, as a single string.
pub open spec fn split_result(number: Option<i64>, p: Seq<u8>, h: Seq<u8>) -> Segments {
    match number {
        None => Segments::Multiple(split_forward(h, p, 0, 0, None)),
        Some(x) => if x > 0 {
            Segments::Multiple(split_forward(h, p, 0, 0, Some(x as nat)))
        } else if x < 0 {
            Segments::Multiple(
                split_backward(h, p, h.len() as int, h.len() - p.len(), Some((-x - 1) as nat)),
            )
        } else {
            Segments::Single(h)
        },
    }
}

/// Splits `input` at the occurrences of `pattern`, as [`split_result`]
/// says.
pub fn split_at_pat(number: Option<i64>, pattern: &String, input: &String) -> (r: Output)
    ensures
        r@ == split_result(number, utf8(pattern@), utf8(input@)),
{
    match number {
        None => Output::Multiple(split_left(input.as_str(), pattern.as_str(), None)),
        Some(x) => if x > 0 {
            Output::Multiple(split_left(input.as_str(), pattern.as_str(), Some(x as u64)))
        } else if x < 0 {
            let cuts: u64 = (-(x + 1)) as u64;
            Output::Multiple(split_right(input.as_str(), pattern.as_str(), Some(cuts)))
        } else {
            Output::Single(input.clone())
        },
    }
}

/// Splits `input` at the occurrences of the character `char`, as
/// [`split_result`] says of the pattern that holds this one character.
pub fn split_at_char(number: Option<i64>, char: char, input: &String) -> (r: Output)
    ensures
        r@ == split_result(number, utf8(seq![char]), utf8(input@)),
{
    let pattern = char_string(char);
    split_at_pat(number, &pattern, input)
}

/// What [`split_at_index`] gives.
pub open spec fn split_at_index_spec(index: usize, h: Seq<u8>) -> Result<Segments, SpanError> {
    match span_fault(h, index as int, h.len() as int) {
        Some(fault) => Err(fault),
        None => Ok(
            Segments::Multiple(
                seq![h.subrange(0, index as int), h.subrange(index as int, h.len() as int)],
            ),
        ),
    }
}

/// Splits `input` in two at byte offset `index`. Fails with `OutOfBounds`
/// where `index` lies beyond the line, and with `InsideChar` where it falls
/// inside a character.
pub fn split_at_index(index: usize, input: &String) -> (r: Result<Output, SpanError>)
    ensures
        outcome(r) == split_at_index_spec(index, utf8(input@)),
{
    let line: &str = input.as_str();
    let n: usize = line.as_bytes().len();
    match check_span(line, index, n) {
        Some(fault) => Err(fault),
        None => {
            proof {
                encode_utf8_valid_utf8(input@);
                is_char_boundary_start_end_of_seq(utf8(input@));
            }
            let mut parts: Vec<String> = Vec::new();
            parts.push(substring(line, 0, index));
            parts.push(substring(line, index, n));
            assert(utf8_each(parts@) =~= seq![
                utf8(input@).subrange(0, index as int),
                utf8(input@).subrange(index as int, n as int),
            ]);
            Ok(Output::Multiple(parts))
        },
    }
}

/// The two parts of a line that was split at an offset make up the line.
pub proof fn lemma_split_at_index_parts(index: usize, h: Seq<u8>)
    ensures
        match split_at_index_spec(index, h) {
            Ok(Segments::Multiple(parts)) => parts.len() == 2 && parts[0] + parts[1] == h
                && parts[0].len() == index,
            Ok(Segments::Single(_)) => false,
            Err(_) => true,
        },
{
    if span_fault(h, index as int, h.len() as int) is None {
        assert(h.subrange(0, index as int) + h.subrange(index as int, h.len() as int) =~= h);
    }
}

/// A list that ends in `last`, joined, is the list before it, joined, then
/// the separator, then `last`.
pub proof fn lemma_join_push(parts: Seq<Seq<u8>>, last: Seq<u8>, sep: Seq<u8>)
    requires
        parts.len() > 0,
    ensures
        join(parts.push(last), sep) == join(parts, sep) + sep + last,
    decreases parts.len(),
{
    if parts.len() == 1 {
        assert(parts.push(last).drop_first() =~= seq![last]);
        assert(join(seq![last], sep) == last);
    } else {
        lemma_join_push(parts.drop_first(), last, sep);
        assert(parts.push(last).drop_first() =~= parts.drop_first().push(last));
        assert(join(parts.push(last), sep) =~= join(parts, sep) + sep + last);
    }
}

/// The segments of a left-to-right split, joined with the pattern, are the
/// text from `start` on.
pub proof fn lemma_join_split_forward(
    h: Seq<u8>,
    p: Seq<u8>,
    start: int,
    from: int,
    budget: Option<nat>,
)
    requires
        0 <= start <= from,
        start <= h.len(),
        p.len() > 0 ==> start == from,
    ensures
        split_forward(h, p, start, from, budget).len() > 0,
        join(split_forward(h, p, start, from, budget), p) == h.subrange(start, h.len() as int),
    decreases h.len() - from + 1,
{
    if budget != Some(0nat) {
        lemma_find_from_is_least(h, p, from);
        match find_from(h, p, from) {
            None => {},
            Some(m) => {
                let rest = split_forward(h, p, m + p.len(), m + stride(p), spend(budget));
                lemma_join_split_forward(h, p, m + p.len(), m + stride(p), spend(budget));
                let all = seq![h.subrange(start, m)] + rest;
                assert(all.drop_first() =~= rest);
                assert(join(all, p) == h.subrange(start, m) + p + join(rest, p));
                assert(h.subrange(start, m) + h.subrange(m, m + p.len()) + h.subrange(
                    m + p.len(),
                    h.len() as int,
                ) =~= h.subrange(start, h.len() as int));
            },
        }
    }
}

/// The segments of a right-to-left split, joined with the pattern, are the
/// text up to `end`.
pub proof fn lemma_join_split_backward(
    h: Seq<u8>,
    p: Seq<u8>,
    end: int,
    upto: int,
    budget: Option<nat>,
)
    requires
        0 <= end <= h.len(),
        upto + p.len() <= end,
    ensures
        split_backward(h, p, end, upto, budget).len() > 0,
        join(split_backward(h, p, end, upto, budget), p) == h.subrange(0, end),
    decreases
        (if upto < 0 {
            0
        } else {
            upto + 1
        }),
{
    if budget != Some(0nat) {
        lemma_rfind_upto_is_greatest(h, p, upto);
        match rfind_upto(h, p, upto) {
            None => {},
            Some(m) => {
                let head = split_backward(h, p, m, m - stride(p), spend(budget));
                lemma_join_split_backward(h, p, m, m - stride(p), spend(budget));
                lemma_join_push(head, h.subrange(m + p.len(), end), p);
                assert(h.subrange(0, m) + h.subrange(m, m + p.len()) + h.subrange(
                    m + p.len(),
                    end,
                ) =~= h.subrange(0, end));
            },
        }
    }
}

/// Splitting loses nothing: with or without a count, and from either end,
/// the segments joined with the pattern are the line that was split.
pub proof fn lemma_split_then_join(number: Option<i64>, p: Seq<u8>, h: Seq<u8>)
    ensures
        match split_result(number, p, h) {
            Segments::Multiple(parts) => join(parts, p) == h,
            Segments::Single(s) => s == h,
        },
{
    assert(h.subrange(0, h.len() as int) =~= h);
    match number {
        None => {
            lemma_join_split_forward(h, p, 0, 0, None);
        },
        Some(x) => {
            if x > 0 {
                lemma_join_split_forward(h, p, 0, 0, Some(x as nat));
            } else if x < 0 {
                lemma_join_split_backward(
                    h,
                    p,
                    h.len() as int,
                    h.len() - p.len(),
                    Some((-x - 1) as nat),
                );
            }
        },
    }
}

} // verus!
