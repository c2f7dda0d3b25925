use tinygrep::matcher::is_match;
use tinygrep::parser::{parse, ParseError};

fn cv(s: &str) -> Vec<char> {
    s.chars().collect()
}

fn m(input: &str, pat: &str) -> bool {
    is_match(&cv(input), &cv(pat)).expect("pattern should parse")
}

#[test]
fn digits_match() {
    assert!(m("abc123def", "\\d\\d\\d"));
    assert!(!m("ab12", "\\d\\d\\d"));
}

#[test]
fn word_class_and_literal() {
    assert!(m("a_b", "\\w\\w\\w"));
    assert!(!m("a b", "\\w\\w\\w"));
    assert!(m("hello", "ell"));
    assert!(!m("hello", "elo"));
}

#[test]
fn anchored_group_alternation() {
    assert!(m("cat", "^(cat|dog)s?$"));
    assert!(m("cats", "^(cat|dog)s?$"));
    assert!(m("dogs", "^(cat|dog)s?$"));
    assert!(!m("catss", "^(cat|dog)s?$"));
    assert!(!m("xcat", "^(cat|dog)s?$"));
}

#[test]
fn backreference() {
    assert!(m("hello hello world", "(\\w+) \\1"));
    assert!(!m("hello world", "(\\w+) \\1"));
}

#[test]
fn counted_repetition() {
    assert!(m("aaab", "a{3}b"));
    assert!(!m("aab", "a{3}b"));
    assert!(m("aaaab", "a{3}b"));
    assert!(m("b", "a{0}b"));
}

#[test]
fn negated_class() {
    assert!(m("xyzabc", "[^abc]+"));
    assert!(m("xyz", "^[^abc]+$"));
    assert!(!m("xyza", "^[^abc]+$"));
}

#[test]
fn dot_star_suffix() {
    assert!(m("notes.txt backup.txt", ".*\\.txt"));
    assert!(m("notes.txt", "^.*\\.txt$"));
    assert!(!m("notes.txt", "^.*\\.png$"));
}

#[test]
fn greediness() {
    assert!(m("aaaa", "a+a"));
    assert!(!m("a", "a+a"));
}

#[test]
fn star_quantifier() {
    assert!(m("color", "colou*r"));
    assert!(m("colouur", "colou*r"));
    assert!(!m("colr", "colou+r"));
}

#[test]
fn anchors() {
    assert!(m("hello", "^hel"));
    assert!(!m("ahello", "^hel"));
    assert!(m("hello", "llo$"));
    assert!(!m("helloa", "llo$"));
}

#[test]
fn escaped_dollar_is_literal() {
    assert!(m("price$", "price\\$"));
    assert!(!m("price", "price\\$"));
}

#[test]
fn caret_and_dollar_inside_are_literals() {
    assert!(m("a^b", "a^b"));
    assert!(m("a$b", "a$b"));
}

#[test]
fn positive_class() {
    assert!(m("dab", "d[abc]b"));
    assert!(!m("ddb", "d[abc]b"));
    assert!(m("a-b", "a[-x]b"));
}

#[test]
fn empty_pattern_matches_everything() {
    assert!(m("", ""));
    assert!(m("anything", ""));
}

#[test]
fn empty_double_anchor_matches_only_empty() {
    assert!(m("", "^$"));
    assert!(!m("x", "^$"));
}

#[test]
fn literal_identity_examples() {
    for s in ["", "a", "hello", "a-b_c 0"] {
        assert!(m(s, s));
    }
}

#[test]
fn group_round_trip_examples() {
    for (s, p) in [
        ("abc", "b"),
        ("aaab", "a+b"),
        ("xyz", "x.z"),
        ("hello", "hel*o"),
    ] {
        assert_eq!(m(s, p), m(s, &format!("({})", p)));
    }
}

#[test]
fn nested_groups() {
    assert!(m("abcabc", "((a)(bc))\\1"));
    assert!(!m("abcab", "((a)(bc))\\1"));
    assert!(m("abcbc", "((a)(bc))\\3"));
}

#[test]
fn alternation_is_group_only() {
    assert!(m("ac", "^(a|b)(c|d)$"));
    assert!(m("bd", "^(a|b)(c|d)$"));
    assert!(!m("ab", "^(a|b)(c|d)$"));
    assert!(m("a|b", "a|b"));
    assert!(!m("ab", "^a|b$"));
}

#[test]
fn optional_group() {
    assert!(m("ab", "a(xy)?b"));
    assert!(m("axyb", "a(xy)?b"));
    assert!(!m("axb", "^a(xy)?b$"));
}

#[test]
fn parse_error_trailing_escape() {
    assert_eq!(
        is_match(&cv("x"), &cv("ab\\")),
        Err(ParseError::TrailingEscape)
    );
}

#[test]
fn parse_error_unclosed_class() {
    assert_eq!(
        is_match(&cv("x"), &cv("[abc")),
        Err(ParseError::UnclosedClass)
    );
}

#[test]
fn parse_error_unclosed_group() {
    assert_eq!(
        is_match(&cv("x"), &cv("(ab")),
        Err(ParseError::UnclosedGroup)
    );
}

#[test]
fn parse_error_bad_repetition() {
    assert_eq!(
        is_match(&cv("x"), &cv("a{2")),
        Err(ParseError::BadRepetition)
    );
    assert_eq!(
        is_match(&cv("x"), &cv("a{}")),
        Err(ParseError::BadRepetition)
    );
    assert_eq!(
        is_match(&cv("x"), &cv("a{2x}")),
        Err(ParseError::BadRepetition)
    );
    assert_eq!(
        is_match(&cv("x"), &cv("a{99999999999999999999999999}")),
        Err(ParseError::BadRepetition)
    );
}

#[test]
fn parse_anchor_flags() {
    let (_, sa, ea) = parse(&cv("^ab$")).unwrap();
    assert!(sa && ea);
    let (_, sa, ea) = parse(&cv("ab")).unwrap();
    assert!(!sa && !ea);
    let (_, sa, ea) = parse(&cv("ab\\$")).unwrap();
    assert!(!sa && !ea);
}

#[test]
fn empty_classes() {
    assert!(!m("x", "[]"));
    assert!(!m("", "[]"));
    assert!(m("x", "[^]"));
}

#[test]
fn repetition_with_leading_zeros() {
    assert!(m("aaab", "a{003}b"));
    assert!(!m("aab", "a{003}b"));
}

#[test]
fn dot_matches_any_code_point() {
    assert!(m("\n", "."));
    assert!(m("é", "^.$"));
    assert!(!m("", "."));
}

#[test]
fn zero_width_repetition_terminates() {
    assert!(m("b", "(a*)+b"));
    assert!(m("aaa", "(a?)*"));
    assert!(!m("b", "^(a*)+$"));
}
