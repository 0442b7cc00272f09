use linespan::cut::cut_from_index;
use linespan::cut::cut_from_index_to_index;
use linespan::cut::cut_from_index_to_offset;
use linespan::cut::cut_from_index_to_pat;
use linespan::cut::cut_from_pat;
use linespan::cut::cut_from_pat_to_index;
use linespan::cut::cut_from_pat_to_offset;
use linespan::cut::cut_from_pat_to_pat;
use linespan::cut::cut_until_index;
use linespan::cut::cut_until_pat;
use linespan::Output;
use linespan::SpanError;

fn one(text: &str) -> Output {
    Output::Single(text.to_string())
}

fn s(text: &str) -> String {
    text.to_string()
}

#[test]
fn cut_from_pat_keeps_from_the_pattern() {
    assert_eq!(cut_from_pat(&s("llo"), &s("hello world")), one("llo world"));
    assert_eq!(cut_from_pat(&s("o"), &s("hello world")), one("o world"));
    assert_eq!(cut_from_pat(&s("h"), &s("hello")), one("hello"));
}

#[test]
fn cut_from_pat_without_the_pattern_keeps_the_line() {
    assert_eq!(cut_from_pat(&s("llo"), &s("abc")), one("abc"));
    assert_eq!(cut_from_pat(&s("abcd"), &s("abc")), one("abc"));
    assert_eq!(cut_from_pat(&s("x"), &String::new()), one(""));
    assert_eq!(cut_from_pat(&String::new(), &s("abc")), one("abc"));
}

#[test]
fn cut_from_pat_agrees_with_std_find() {
    for line in ["", "abc", "hello world", "caf\u{e9} au lait", "aXbXc"] {
        for pattern in ["", "a", "X", "\u{e9}", "lait", "world!", " "] {
            let expected = &line[line.find(pattern).unwrap_or(0)..];
            assert_eq!(cut_from_pat(&s(pattern), &s(line)), one(expected));
            let expected = &line[..line.find(pattern).unwrap_or(line.len())];
            assert_eq!(cut_until_pat(&s(pattern), &s(line)), one(expected));
        }
    }
}

#[test]
fn cut_from_pat_to_pat_between_first_and_last() {
    assert_eq!(cut_from_pat_to_pat(&s("b"), &s("d"), &s("abcdedf")), Ok(one("bcde")));
    assert_eq!(cut_from_pat_to_pat(&s("["), &s("]"), &s("x[a]b]c")), Ok(one("[a]b")));
    assert_eq!(cut_from_pat_to_pat(&s("b"), &s("b"), &s("abc")), Ok(one("")));
}

#[test]
fn cut_from_pat_to_pat_with_missing_patterns() {
    assert_eq!(cut_from_pat_to_pat(&s("x"), &s("d"), &s("abcde")), Ok(one("abc")));
    assert_eq!(cut_from_pat_to_pat(&s("b"), &s("x"), &s("abcde")), Ok(one("bcde")));
    assert_eq!(cut_from_pat_to_pat(&s("x"), &s("y"), &s("abcde")), Ok(one("abcde")));
}

#[test]
fn cut_from_pat_to_pat_in_the_wrong_order() {
    assert_eq!(cut_from_pat_to_pat(&s("d"), &s("a"), &s("abcd")), Err(SpanError::Misordered));
    assert_eq!(cut_from_pat_to_pat(&s("cd"), &s("bc"), &s("abcd")), Err(SpanError::Misordered));
}

#[test]
fn cut_from_pat_to_offset_forward() {
    assert_eq!(cut_from_pat_to_offset(&s("lo"), 3, &s("hello world")), Ok(one("lo ")));
    assert_eq!(cut_from_pat_to_offset(&s("lo"), 0, &s("hello world")), Ok(one("")));
    assert_eq!(cut_from_pat_to_offset(&s("wor"), 5, &s("hello world")), Ok(one("world")));
    assert_eq!(cut_from_pat_to_offset(&s("zzz"), 4, &s("hello world")), Ok(one("hell")));
}

#[test]
fn cut_from_pat_to_offset_backward() {
    assert_eq!(cut_from_pat_to_offset(&s("lo"), -2, &s("hello world")), Ok(one("el")));
    assert_eq!(cut_from_pat_to_offset(&s("lo"), -3, &s("hello world")), Ok(one("hel")));
    assert_eq!(cut_from_pat_to_offset(&s("lo"), -4, &s("hello world")), Err(SpanError::OutOfBounds));
    assert_eq!(cut_from_pat_to_offset(&s("zzz"), -1, &s("hello")), Err(SpanError::OutOfBounds));
    assert_eq!(cut_from_pat_to_offset(&s("lo"), i64::MIN, &s("hello")), Err(SpanError::OutOfBounds));
}

#[test]
fn cut_from_pat_to_offset_beyond_the_line() {
    assert_eq!(cut_from_pat_to_offset(&s("foo"), 100, &s("a foo")), Err(SpanError::OutOfBounds));
    assert_eq!(cut_from_pat_to_offset(&s("foo"), 4, &s("a foo")), Err(SpanError::OutOfBounds));
    assert_eq!(cut_from_pat_to_offset(&s("foo"), 3, &s("a foo")), Ok(one("foo")));
    assert_eq!(cut_from_pat_to_offset(&s("foo"), i64::MAX, &s("a foo")), Err(SpanError::OutOfBounds));
    assert_eq!(cut_from_pat_to_offset(&s("foo"), 1, &String::new()), Err(SpanError::OutOfBounds));
}

#[test]
fn cut_from_pat_to_offset_inside_a_character() {
    assert_eq!(cut_from_pat_to_offset(&s("f"), 3, &s("caf\u{e9}s")), Ok(one("f\u{e9}")));
    assert_eq!(cut_from_pat_to_offset(&s("f"), 2, &s("caf\u{e9}s")), Err(SpanError::InsideChar));
    assert_eq!(cut_from_pat_to_offset(&s("s"), -1, &s("caf\u{e9}s")), Err(SpanError::InsideChar));
}

#[test]
fn cut_until_pat_keeps_up_to_the_pattern() {
    assert_eq!(cut_until_pat(&s("llo"), &s("hello world")), one("he"));
    assert_eq!(cut_until_pat(&s("h"), &s("hello world")), one(""));
    assert_eq!(cut_until_pat(&s("xyz"), &s("hello world")), one("hello world"));
    assert_eq!(cut_until_pat(&String::new(), &s("hello")), one(""));
}

#[test]
fn cut_from_index_keeps_from_the_index() {
    assert_eq!(cut_from_index(0, &s("hello")), Ok(one("hello")));
    assert_eq!(cut_from_index(2, &s("hello")), Ok(one("llo")));
    assert_eq!(cut_from_index(5, &s("hello")), Ok(one("")));
    assert_eq!(cut_from_index(6, &s("hello")), Err(SpanError::OutOfBounds));
    assert_eq!(cut_from_index(1, &s("\u{e9}")), Err(SpanError::InsideChar));
}

#[test]
fn cut_from_index_to_index_keeps_between() {
    assert_eq!(cut_from_index_to_index(1, 3, &s("hello")), Ok(one("el")));
    assert_eq!(cut_from_index_to_index(0, 5, &s("hello")), Ok(one("hello")));
    assert_eq!(cut_from_index_to_index(2, 2, &s("hello")), Ok(one("")));
    assert_eq!(cut_from_index_to_index(3, 1, &s("hello")), Err(SpanError::Misordered));
    assert_eq!(cut_from_index_to_index(1, 6, &s("hello")), Err(SpanError::OutOfBounds));
    assert_eq!(cut_from_index_to_index(7, 6, &s("hello")), Err(SpanError::OutOfBounds));
    assert_eq!(cut_from_index_to_index(0, 1, &s("\u{e9}")), Err(SpanError::InsideChar));
    assert_eq!(cut_from_index_to_index(1, 2, &s("\u{e9}")), Err(SpanError::InsideChar));
    assert_eq!(cut_from_index_to_index(0, 2, &s("\u{e9}")), Ok(one("\u{e9}")));
}

#[test]
fn cut_from_index_to_offset_both_ways() {
    assert_eq!(cut_from_index_to_offset(1, 2, &s("hello")), Ok(one("el")));
    assert_eq!(cut_from_index_to_offset(3, -2, &s("hello")), Ok(one("el")));
    assert_eq!(cut_from_index_to_offset(3, 0, &s("hello")), Ok(one("")));
    assert_eq!(cut_from_index_to_offset(0, 5, &s("hello")), Ok(one("hello")));
    assert_eq!(cut_from_index_to_offset(5, -5, &s("hello")), Ok(one("hello")));
    assert_eq!(cut_from_index_to_offset(1, -2, &s("hello")), Err(SpanError::OutOfBounds));
    assert_eq!(cut_from_index_to_offset(4, 2, &s("hello")), Err(SpanError::OutOfBounds));
    assert_eq!(cut_from_index_to_offset(6, -1, &s("hello")), Err(SpanError::OutOfBounds));
    assert_eq!(cut_from_index_to_offset(6, 0, &s("hello")), Err(SpanError::OutOfBounds));
    assert_eq!(cut_from_index_to_offset(usize::MAX, i64::MAX, &s("hello")), Err(SpanError::OutOfBounds));
    assert_eq!(cut_from_index_to_offset(0, 1, &s("\u{e9}")), Err(SpanError::InsideChar));
}

#[test]
fn cut_until_index_zero_keeps_the_line() {
    for line in ["a", "hello", "caf\u{e9}", "  ", ""] {
        assert_eq!(cut_until_index(0, &s(line)), Ok(one(line)));
    }
}

#[test]
fn cut_until_index_keeps_up_to_the_index() {
    assert_eq!(cut_until_index(2, &s("hello")), Ok(one("he")));
    assert_eq!(cut_until_index(5, &s("hello")), Ok(one("hello")));
    assert_eq!(cut_until_index(6, &s("hello")), Err(SpanError::OutOfBounds));
    assert_eq!(cut_until_index(4, &s("caf\u{e9}")), Err(SpanError::InsideChar));
}

#[test]
fn cut_from_pat_to_index_between_pattern_and_index() {
    assert_eq!(cut_from_pat_to_index(&s("l"), 4, &s("hello")), Ok(one("ll")));
    assert_eq!(cut_from_pat_to_index(&s("l"), 5, &s("hello")), Ok(one("llo")));
    assert_eq!(cut_from_pat_to_index(&s("x"), 3, &s("hello")), Ok(one("hel")));
}

#[test]
fn cut_from_pat_to_index_failures_and_equal_ends() {
    assert_eq!(cut_from_pat_to_index(&s("l"), 1, &s("hello")), Err(SpanError::Misordered));
    assert_eq!(cut_from_pat_to_index(&s("l"), 2, &s("hello")), Ok(one("hello")));
    assert_eq!(cut_from_pat_to_index(&s("x"), 0, &s("hello")), Ok(one("hello")));
    assert_eq!(cut_from_pat_to_index(&s("l"), 9, &s("hello")), Err(SpanError::OutOfBounds));
    assert_eq!(cut_from_pat_to_index(&s("c"), 4, &s("caf\u{e9}")), Err(SpanError::InsideChar));
}

#[test]
fn cut_from_index_to_pat_between_index_and_pattern() {
    assert_eq!(cut_from_index_to_pat(1, &s("lo"), &s("hello")), Ok(one("el")));
    assert_eq!(cut_from_index_to_pat(0, &s("lo"), &s("hello")), Ok(one("hel")));
}

#[test]
fn cut_from_index_to_pat_failures_and_equal_ends() {
    assert_eq!(cut_from_index_to_pat(4, &s("lo"), &s("hello")), Err(SpanError::Misordered));
    assert_eq!(cut_from_index_to_pat(3, &s("lo"), &s("hello")), Ok(one("hello")));
    assert_eq!(cut_from_index_to_pat(1, &s("x"), &s("hello")), Err(SpanError::Misordered));
    assert_eq!(cut_from_index_to_pat(0, &s("x"), &s("hello")), Ok(one("hello")));
    assert_eq!(cut_from_index_to_pat(1, &s("s"), &s("\u{e9}s")), Err(SpanError::InsideChar));
}
