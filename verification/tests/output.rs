use linespan::Output;
use linespan::SpanError;

#[test]
fn render_single_is_the_string() {
    assert_eq!(Output::Single("a b".to_string()).render(), "a b");
    assert_eq!(Output::Single(String::new()).render(), "");
}

#[test]
fn render_multiple_puts_line_feeds_between() {
    let parts = vec!["a".to_string(), "".to_string(), "c d".to_string()];
    assert_eq!(Output::Multiple(parts).render(), "a\n\nc d");
    assert_eq!(Output::Multiple(vec!["x".to_string()]).render(), "x");
    assert_eq!(Output::Multiple(vec![]).render(), "");
}

#[test]
fn diagnostic_is_one_line_for_each_failure() {
    assert_eq!(SpanError::OutOfBounds.diagnostic(), "Offset exits bounds of input");
    assert_eq!(SpanError::Misordered.diagnostic(), "Span ends before it starts");
    assert_eq!(SpanError::InsideChar.diagnostic(), "Offset falls inside a character");
}
