use linespan::search::find;
use linespan::search::find_first;
use linespan::search::find_last;
use linespan::search::occurs;
use linespan::search::rfind;

fn lines() -> Vec<&'static str> {
    vec!["", "a", "abcabc", "aaaa", "hello world", "caf\u{e9} cr\u{e9}me", "\u{1f600}x\u{1f600}"]
}

fn patterns() -> Vec<&'static str> {
    vec!["", "a", "aa", "bc", "abcabcd", "\u{e9}", "\u{1f600}", "o w", "z"]
}

#[test]
fn find_first_agrees_with_std_find() {
    for line in lines() {
        for pattern in patterns() {
            assert_eq!(find_first(line, pattern), line.find(pattern), "{:?} {:?}", line, pattern);
        }
    }
}

#[test]
fn find_last_agrees_with_std_rfind() {
    for line in lines() {
        for pattern in patterns() {
            assert_eq!(find_last(line, pattern), line.rfind(pattern), "{:?} {:?}", line, pattern);
        }
    }
}

#[test]
fn find_starts_at_the_given_offset() {
    assert_eq!(find("abcabc", "bc", 0), Some(1));
    assert_eq!(find("abcabc", "bc", 1), Some(1));
    assert_eq!(find("abcabc", "bc", 2), Some(4));
    assert_eq!(find("abcabc", "bc", 5), None);
    assert_eq!(find("abcabc", "bc", 99), None);
    assert_eq!(find("abc", "", 3), Some(3));
    assert_eq!(find("abc", "", 4), None);
}

#[test]
fn find_of_the_empty_pattern_stops_at_boundaries() {
    let line = "a\u{e9}\u{1f600}";
    assert_eq!(find(line, "", 0), Some(0));
    assert_eq!(find(line, "", 1), Some(1));
    assert_eq!(find(line, "", 2), Some(3));
    assert_eq!(find(line, "", 4), Some(7));
    assert_eq!(rfind(line, "", 6), Some(3));
    assert_eq!(rfind(line, "", 2), Some(1));
}

#[test]
fn rfind_ends_at_the_given_offset() {
    assert_eq!(rfind("abcabc", "bc", 99), Some(4));
    assert_eq!(rfind("abcabc", "bc", 4), Some(4));
    assert_eq!(rfind("abcabc", "bc", 3), Some(1));
    assert_eq!(rfind("abcabc", "bc", 0), None);
    assert_eq!(rfind("abc", "abcd", 5), None);
}

#[test]
fn occurs_tells_where_the_pattern_stands() {
    assert!(occurs("hello", "ll", 2));
    assert!(!occurs("hello", "ll", 1));
    assert!(occurs("hello", "", 5));
    assert!(occurs("hello", "hello", 0));
    assert!(!occurs("\u{e9}", "", 1));
}
