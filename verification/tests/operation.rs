use linespan::Args;
use linespan::Operation;
use linespan::Output;
use linespan::SpanError;

fn many(parts: &[&str]) -> Output {
    Output::Multiple(parts.iter().map(|p| p.to_string()).collect())
}

fn one(text: &str) -> Output {
    Output::Single(text.to_string())
}

fn s(text: &str) -> String {
    text.to_string()
}

#[test]
fn default_operation_splits_at_whitespace() {
    assert_eq!(Operation::default(), Operation::SplitAtWhitespace { number: None });
    assert_eq!(
        Operation::default().execute(&s(" to be  or not ")),
        Ok(many(&["to", "be", "or", "not"]))
    );
}

#[test]
fn args_without_operation_take_the_default() {
    let args = Args { operation: None };
    assert_eq!(args.into_operation(), Operation::SplitAtWhitespace { number: None });
    let args = Args { operation: Some(Operation::CutFromIndex { index: 3 }) };
    assert_eq!(args.into_operation(), Operation::CutFromIndex { index: 3 });
}

#[test]
fn execute_is_applied_to_each_line_alike() {
    let op = Operation::CutFromPat { pattern: s("llo") };
    assert_eq!(op.execute(&s("hello world")), Ok(one("llo world")));
    assert_eq!(op.execute(&s("abc")), Ok(one("abc")));
    assert_eq!(op.execute(&s("hello world")), Ok(one("llo world")));
}

#[test]
fn execute_pattern_operations() {
    let line = s("hello world");
    assert_eq!(
        Operation::SplitAtPat { pattern: s("o"), number: None }.execute(&line),
        Ok(many(&["hell", " w", "rld"]))
    );
    assert_eq!(
        Operation::SplitAtChar { char: 'l', number: Some(1) }.execute(&line),
        Ok(many(&["he", "lo world"]))
    );
    assert_eq!(
        Operation::CutFromPatToPat { start: s("e"), end: s("o") }.execute(&line),
        Ok(one("ello w"))
    );
    assert_eq!(
        Operation::CutFromPatToOffset { pattern: s("wor"), offset: 2 }.execute(&line),
        Ok(one("wo"))
    );
    assert_eq!(Operation::CutUntilPat { pattern: s(" ") }.execute(&line), Ok(one("hello")));
    assert_eq!(Operation::TrimFromPat { pattern: s(" ") }.execute(&line), Ok(one("hello")));
    assert_eq!(
        Operation::TrimFromPatToPat { start: s("e"), end: s("o") }.execute(&line),
        Ok(one("horld"))
    );
    assert_eq!(Operation::TrimUntilPat { pattern: s("w") }.execute(&line), Ok(one("world")));
    assert_eq!(Operation::TrimToPat { pattern: s("w") }.execute(&line), Ok(one("orld")));
    assert_eq!(Operation::Trim { pattern: Some(s("h")) }.execute(&line), Ok(one("ello world")));
    assert_eq!(Operation::Trim { pattern: None }.execute(&s("  hi  ")), Ok(one("hi")));
}

#[test]
fn execute_replace_and_remove() {
    let line = s("banana");
    assert_eq!(
        Operation::Replace { pattern: s("a"), with: s("b"), number: None }.execute(&line),
        Ok(one("bbnbnb"))
    );
    assert_eq!(
        Operation::Replace { pattern: s("a"), with: s("b"), number: Some(-1) }.execute(&line),
        Ok(one("bananb"))
    );
    assert_eq!(Operation::Remove { pattern: s("an"), number: None }.execute(&line), Ok(one("ba")));
    assert_eq!(
        Operation::Remove { pattern: s("a"), number: Some(1) }.execute(&line),
        Ok(one("bnana"))
    );
    assert_eq!(
        Operation::Remove { pattern: s("a"), number: Some(0) }.execute(&line),
        Ok(one("banana"))
    );
}

#[test]
fn execute_index_operations() {
    let line = s("hello");
    assert_eq!(Operation::SplitAtIndex { index: 2 }.execute(&line), Ok(many(&["he", "llo"])));
    assert_eq!(Operation::CutFromIndex { index: 2 }.execute(&line), Ok(one("llo")));
    assert_eq!(
        Operation::CutFromIndexToIndex { start: 1, end: 4 }.execute(&line),
        Ok(one("ell"))
    );
    assert_eq!(
        Operation::CutFromIndexToOffset { index: 4, offset: -3 }.execute(&line),
        Ok(one("ell"))
    );
    assert_eq!(Operation::CutUntilIndex { index: 0 }.execute(&line), Ok(one("hello")));
    assert_eq!(Operation::CutUntilIndex { index: 4 }.execute(&line), Ok(one("hell")));
    assert_eq!(Operation::TrimFromIndex { index: 4 }.execute(&line), Ok(one("hell")));
    assert_eq!(
        Operation::TrimFromIndexToIndex { start: 3, end: 1 }.execute(&line),
        Ok(one("hello"))
    );
    assert_eq!(
        Operation::TrimFromIndexToIndex { start: 1, end: 3 }.execute(&line),
        Ok(one("hlo"))
    );
    assert_eq!(
        Operation::TrimFromIndexToOffset { index: 1, offset: 3 }.execute(&line),
        Ok(one("ho"))
    );
    assert_eq!(Operation::TrimUntilIndex { index: 4 }.execute(&line), Ok(one("o")));
}

#[test]
fn execute_mixed_operations() {
    let line = s("hello");
    assert_eq!(
        Operation::CutFromPatToIndex { pattern: s("e"), index: 3 }.execute(&line),
        Ok(one("el"))
    );
    assert_eq!(
        Operation::CutFromIndexToPat { index: 1, pattern: s("o") }.execute(&line),
        Ok(one("ell"))
    );
    assert_eq!(
        Operation::TrimFromPatToIndex { pattern: s("e"), index: 3 }.execute(&line),
        Ok(one("hlo"))
    );
    assert_eq!(
        Operation::TrimFromIndexToPat { index: 1, pattern: s("o") }.execute(&line),
        Ok(one("ho"))
    );
}

#[test]
fn execute_hands_on_each_failure() {
    let line = s("caf\u{e9}");
    assert_eq!(Operation::CutFromIndex { index: 9 }.execute(&line), Err(SpanError::OutOfBounds));
    assert_eq!(Operation::SplitAtIndex { index: 4 }.execute(&line), Err(SpanError::InsideChar));
    assert_eq!(
        Operation::CutFromIndexToIndex { start: 3, end: 1 }.execute(&line),
        Err(SpanError::Misordered)
    );
    assert_eq!(
        Operation::CutFromPatToOffset { pattern: s("foo"), offset: 100 }.execute(&s("a foo b")),
        Err(SpanError::OutOfBounds)
    );
    assert_eq!(
        Operation::CutFromPatToIndex { pattern: s("f"), index: 1 }.execute(&line),
        Err(SpanError::Misordered)
    );
    assert_eq!(
        Operation::TrimFromIndexToPat { index: 3, pattern: s("a") }.execute(&line),
        Err(SpanError::Misordered)
    );
}
