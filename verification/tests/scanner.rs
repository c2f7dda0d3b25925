use tinygrep::ast::Node;
use tinygrep::matcher::match_from;
use tinygrep::parser::{branches, elems, ParseError};
use tinygrep::scanner::grep_content;

fn chars(s: &str) -> Vec<char> {
    s.chars().collect()
}

fn text(v: &[char]) -> String {
    v.iter().collect()
}

fn run(content: &str, pattern: &str, prefix: Option<&str>) -> (bool, Vec<String>) {
    let pv = prefix.map(chars);
    let (any, outs) = grep_content(&chars(content), &chars(pattern), pv.as_ref())
        .expect("pattern should parse");
    (any, outs.iter().map(|l| text(l)).collect())
}

#[test]
fn labeled_lines_from_two_files() {
    let (any_a, outs_a) = run("foo\nbar\n", "a", Some("a.txt"));
    assert!(any_a);
    assert_eq!(outs_a, vec!["a.txt:bar\n".to_string()]);
    let (any_b, outs_b) = run("baz\n", "a", Some("b.txt"));
    assert!(any_b);
    assert_eq!(outs_b, vec!["b.txt:baz\n".to_string()]);
}

#[test]
fn recursive_style_label() {
    let (any, outs) = run("needle here\n", "needle", Some("dir/sub/b.txt"));
    assert!(any);
    assert_eq!(outs, vec!["dir/sub/b.txt:needle here\n".to_string()]);
}

#[test]
fn no_match_no_output() {
    let (any, outs) = run("foo\nbar\n", "zzz", Some("a.txt"));
    assert!(!any);
    assert!(outs.is_empty());
}

#[test]
fn unlabeled_output_keeps_segment() {
    let (any, outs) = run("one\ntwo\nthree\n", "t", None);
    assert!(any);
    assert_eq!(outs, vec!["two\n".to_string(), "three\n".to_string()]);
}

#[test]
fn final_segment_without_newline() {
    let (any, outs) = run("alpha\nbeta", "beta", None);
    assert!(any);
    assert_eq!(outs, vec!["beta\n".to_string()]);
}

#[test]
fn carriage_return_is_stripped_for_matching() {
    let (any, outs) = run("dos line\r\n", "line$", None);
    assert!(any);
    assert_eq!(outs, vec!["dos line\r\n".to_string()]);
}

#[test]
fn empty_content_matches_nothing() {
    let (any, outs) = run("", "x", None);
    assert!(!any);
    assert!(outs.is_empty());
    let (any2, outs2) = run("", "", None);
    assert!(!any2);
    assert!(outs2.is_empty());
}

#[test]
fn empty_content_hides_parse_error() {
    assert!(grep_content(&chars(""), &chars("(bad"), None).is_ok());
    assert_eq!(
        grep_content(&chars("line\n"), &chars("(bad"), None),
        Err(ParseError::UnclosedGroup)
    );
}

#[test]
fn empty_pattern_emits_every_line() {
    let (any, outs) = run("a\nb\n", "", None);
    assert!(any);
    assert_eq!(outs, vec!["a\n".to_string(), "b\n".to_string()]);
}

#[test]
fn elems_parses_sequence() {
    let (ns, gid) = elems(&chars("a.c"), 0, 0).unwrap();
    assert_eq!(
        ns,
        vec![Node::Lit('a'), Node::Any, Node::Lit('c')]
    );
    assert_eq!(gid, 0);
}

#[test]
fn elems_allocates_group_ids() {
    let (ns, gid) = elems(&chars("(a)(b)"), 0, 0).unwrap();
    assert_eq!(gid, 2);
    match (&ns[0], &ns[1]) {
        (Node::Cap(1, _), Node::Cap(2, _)) => {}
        other => panic!("unexpected nodes: {:?}", other),
    }
}

#[test]
fn branches_split_on_top_level_bar() {
    let (brs, gid) = branches(&chars("ab|c(d|e)"), 0).unwrap();
    assert_eq!(gid, 1);
    assert_eq!(brs.len(), 2);
    assert_eq!(brs[0], vec![Node::Lit('a'), Node::Lit('b')]);
    assert_eq!(brs[1].len(), 2);
}

#[test]
fn match_from_reports_end_and_captures() {
    let (ns, _, _) = tinygrep::parser::parse(&chars("(ab)c")).unwrap();
    let cs = chars("abcd");
    let (end, caps) = match_from(0, &ns, &cs, Vec::new()).expect("should match");
    assert_eq!(end, 3);
    assert_eq!(caps, vec![Some((0, 2))]);
}

#[test]
fn match_from_fails_cleanly() {
    let (ns, _, _) = tinygrep::parser::parse(&chars("xy")).unwrap();
    let cs = chars("xz");
    assert!(match_from(0, &ns, &cs, Vec::new()).is_none());
}
