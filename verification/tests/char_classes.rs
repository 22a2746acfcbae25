use hfq_rs::scan::{is_in_class, CharClass};
use regex::Regex;
use std::collections::HashSet;

/// Every Unicode scalar value once, and the set of those that `pattern`
/// matches when the regex crate reads them all in one text.
fn matched_by(pattern: &str) -> (Vec<char>, HashSet<char>) {
    let all: Vec<char> = (0u32..=0x10ffff).filter_map(char::from_u32).collect();
    let text: String = all.iter().collect();
    let re = Regex::new(pattern).unwrap();
    let hits = re.find_iter(&text).flat_map(|m| m.as_str().chars()).collect();
    (all, hits)
}

#[test]
fn digits_are_the_regex_digits() {
    let (all, hits) = matched_by(r"\d");
    for c in all {
        assert_eq!(is_in_class(CharClass::Value, c), hits.contains(&c) || c == '.', "{:?}", c);
    }
}

#[test]
fn spaces_are_the_regex_spaces() {
    let (all, hits) = matched_by(r"\s");
    for c in all {
        assert_eq!(is_in_class(CharClass::Space, c), hits.contains(&c), "{:?}", c);
        assert_eq!(is_in_class(CharClass::LineSpace, c), hits.contains(&c) && c != '\n', "{:?}", c);
        assert_eq!(is_in_class(CharClass::Divider, c), hits.contains(&c) || c == '=', "{:?}", c);
    }
}

#[test]
fn word_characters_are_the_regex_word_characters() {
    let (all, hits) = matched_by(r"\w");
    for c in all {
        assert_eq!(is_in_class(CharClass::Word, c), hits.contains(&c), "{:?}", c);
    }
}
