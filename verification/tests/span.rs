use linespan::span::check_span;
use linespan::span::excise_offset;
use linespan::span::excise_span;
use linespan::span::keep_offset;
use linespan::span::keep_span;
use linespan::span::resolve_offset;
use linespan::text::slice;
use linespan::text::substring;
use linespan::Output;
use linespan::SpanError;

fn one(text: &str) -> Output {
    Output::Single(text.to_string())
}

#[test]
fn check_span_reports_bounds_first() {
    assert_eq!(check_span("hello", 0, 5), None);
    assert_eq!(check_span("hello", 5, 5), None);
    assert_eq!(check_span("hello", 0, 6), Some(SpanError::OutOfBounds));
    assert_eq!(check_span("hello", 7, 6), Some(SpanError::OutOfBounds));
    assert_eq!(check_span("hello", 6, 2), Some(SpanError::OutOfBounds));
    assert_eq!(check_span("hello", 3, 2), Some(SpanError::Misordered));
    assert_eq!(check_span("\u{e9}\u{e9}", 3, 1), Some(SpanError::Misordered));
    assert_eq!(check_span("\u{e9}\u{e9}", 1, 3), Some(SpanError::InsideChar));
    assert_eq!(check_span("\u{e9}\u{e9}", 0, 3), Some(SpanError::InsideChar));
    assert_eq!(check_span("\u{e9}\u{e9}", 2, 4), None);
}

#[test]
fn keep_span_and_excise_span_share_the_line() {
    let line = "caf\u{e9} au lait";
    for s in 0..=line.len() + 1 {
        for e in 0..=line.len() + 1 {
            let kept = keep_span(line, s, e);
            let dropped = excise_span(line, s, e);
            match check_span(line, s, e) {
                Some(fault) => {
                    assert_eq!(kept, Err(fault));
                    assert_eq!(dropped, Err(fault));
                }
                None => {
                    assert_eq!(kept, Ok(one(&line[s..e])));
                    assert_eq!(dropped, Ok(Output::Single(format!("{}{}", &line[..s], &line[e..]))));
                }
            }
        }
    }
}

#[test]
fn resolve_offset_gives_the_ends() {
    assert_eq!(resolve_offset(2, 3, 10), Some((2, 5)));
    assert_eq!(resolve_offset(2, 8, 10), Some((2, 10)));
    assert_eq!(resolve_offset(2, 9, 10), None);
    assert_eq!(resolve_offset(5, -3, 10), Some((2, 5)));
    assert_eq!(resolve_offset(5, -5, 10), Some((0, 5)));
    assert_eq!(resolve_offset(5, -6, 10), None);
    assert_eq!(resolve_offset(5, 0, 10), Some((5, 5)));
    assert_eq!(resolve_offset(11, 0, 10), None);
    assert_eq!(resolve_offset(11, -1, 10), None);
    assert_eq!(resolve_offset(0, i64::MIN, 10), None);
    assert_eq!(resolve_offset(usize::MAX, i64::MAX, usize::MAX), None);
}

#[test]
fn keep_offset_and_excise_offset_both_ways() {
    assert_eq!(keep_offset("hello", 1, 3), Ok(one("ell")));
    assert_eq!(keep_offset("hello", 4, -3), Ok(one("ell")));
    assert_eq!(excise_offset("hello", 1, 3), Ok(one("ho")));
    assert_eq!(excise_offset("hello", 4, -3), Ok(one("ho")));
    assert_eq!(keep_offset("hello", 4, 3), Err(SpanError::OutOfBounds));
    assert_eq!(excise_offset("hello", 2, -3), Err(SpanError::OutOfBounds));
    assert_eq!(keep_offset("\u{e9}", 0, 1), Err(SpanError::InsideChar));
}

#[test]
fn slice_and_substring_between_boundaries() {
    assert_eq!(slice("caf\u{e9}s", 3, 5), "\u{e9}");
    assert_eq!(slice("caf\u{e9}s", 0, 0), "");
    assert_eq!(substring("caf\u{e9}s", 0, 6), "caf\u{e9}s");
    assert_eq!(substring("caf\u{e9}s", 5, 6), "s");
}
