use linespan::split::join_all;
use linespan::replace::replace;
use linespan::Output;

fn one(text: &str) -> Output {
    Output::Single(text.to_string())
}

fn s(text: &str) -> String {
    text.to_string()
}

#[test]
fn replace_every_occurrence() {
    assert_eq!(replace(&s("a"), &s("b"), None, &s("banana")), one("bbnbnb"));
    assert_eq!(replace(&s("an"), &s("AN"), None, &s("banana")), one("bANANa"));
    assert_eq!(replace(&s("x"), &s("y"), None, &s("banana")), one("banana"));
    assert_eq!(replace(&s("aa"), &s("b"), None, &s("aaa")), one("ba"));
    assert_eq!(replace(&s("a"), &s("aa"), None, &s("aba")), one("aabaa"));
}

#[test]
fn replace_only_the_last_occurrence() {
    assert_eq!(replace(&s("a"), &s("b"), Some(-1), &s("banana")), one("bananb"));
}

#[test]
fn replace_from_the_right() {
    assert_eq!(replace(&s("a"), &s("b"), Some(-2), &s("banana")), one("banbnb"));
    assert_eq!(replace(&s("a"), &s("b"), Some(-3), &s("banana")), one("bbnbnb"));
    assert_eq!(replace(&s("a"), &s("b"), Some(-9), &s("banana")), one("bbnbnb"));
    assert_eq!(replace(&s("a"), &s("b"), Some(i64::MIN), &s("banana")), one("bbnbnb"));
    assert_eq!(replace(&s("aa"), &s("b"), Some(-1), &s("aaa")), one("ab"));
}

#[test]
fn replace_from_the_left() {
    assert_eq!(replace(&s("a"), &s("b"), Some(1), &s("banana")), one("bbnana"));
    assert_eq!(replace(&s("a"), &s("b"), Some(2), &s("banana")), one("bbnbna"));
    assert_eq!(replace(&s("a"), &s("b"), Some(3), &s("banana")), one("bbnbnb"));
    assert_eq!(replace(&s("a"), &s("b"), Some(i64::MAX), &s("banana")), one("bbnbnb"));
}

#[test]
fn replace_with_count_zero_changes_nothing() {
    assert_eq!(replace(&s("a"), &s("b"), Some(0), &s("banana")), one("banana"));
}

#[test]
fn replace_by_nothing_removes() {
    assert_eq!(replace(&s("an"), &String::new(), None, &s("banana")), one("ba"));
    assert_eq!(replace(&s("a"), &String::new(), Some(-1), &s("banana")), one("banan"));
}

#[test]
fn replace_agrees_with_std() {
    for line in ["", "a", "banana", "aaaa", "caf\u{e9} cr\u{e9}me", "x,y,,z"] {
        for pattern in ["", "a", "aa", "an", ",", "\u{e9}", "zz"] {
            for with in ["", "b", "a", "\u{1f600}", "long one"] {
                assert_eq!(
                    replace(&s(pattern), &s(with), None, &s(line)),
                    one(&line.replace(pattern, with)),
                    "{:?} {:?} {:?}",
                    line,
                    pattern,
                    with
                );
                for count in 1..5usize {
                    assert_eq!(
                        replace(&s(pattern), &s(with), Some(count as i64), &s(line)),
                        one(&line.replacen(pattern, with, count)),
                        "{:?} {:?} {:?} {}",
                        line,
                        pattern,
                        with,
                        count
                    );
                }
            }
        }
    }
}

#[test]
fn join_all_puts_the_separator_between() {
    assert_eq!(join_all(&vec![], ", "), "");
    assert_eq!(join_all(&vec![s("a")], ", "), "a");
    assert_eq!(join_all(&vec![s("a"), s(""), s("c")], ", "), "a, , c");
    assert_eq!(join_all(&vec![s("\u{e9}"), s("b")], ""), "\u{e9}b");
}
