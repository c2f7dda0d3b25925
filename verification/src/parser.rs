//! The pattern parser.
//!
//! A pattern is parsed in a single left-to-right pass: outermost anchors are
//! stripped first, then `spec_elems` reads a sequence of atoms with their
//! postfix quantifiers, recursing through `spec_branches` for the
//! alternatives of a group.  The executable [`parse`] returns exactly what
//! [`spec_parse`] describes, and the parsed nodes satisfy
//! [`crate::matcher::nodes_ok`].

use vstd::prelude::*;
use crate::ast::{rep_branches, rep_node, rep_seq, Node, SNode};
use crate::matcher::{branches_ok, is_digit, node_ok, nodes_ok};

verus! {

/// Why a pattern was rejected.
#[derive(Debug, Clone, Copy, PartialEq, Eq, Structural)]
pub enum ParseError {
    /// The pattern ends in a lone backslash.
    TrailingEscape,
    /// A character class has no closing bracket.
    UnclosedClass,
    /// A group has no closing parenthesis.
    UnclosedGroup,
    /// A `{k}` quantifier is unclosed, empty, not a number, or too large.
    BadRepetition,
}

impl ParseError {
    /// A short human-readable description.
    pub fn describe(&self) -> &'static str {
        match self {
            ParseError::TrailingEscape => "invalid escape",
            ParseError::UnclosedClass => "unclosed class",
            ParseError::UnclosedGroup => "unclosed group",
            ParseError::BadRepetition => "invalid repetition quantifier",
        }
    }
}

/// The index of the parenthesis that closes the group whose body starts at
/// `i`, at nesting depth `depth`; `None` when the group never closes.
pub open spec fn spec_find_close(cs: Seq<char>, i: int, depth: int) -> Option<int>
    decreases cs.len() - i,
{
    if i < 0 || i >= cs.len() {
        None
    } else if cs[i] == '(' {
        spec_find_close(cs, i + 1, depth + 1)
    } else if cs[i] == ')' {
        if depth == 0 {
            Some(i)
        } else {
            spec_find_close(cs, i + 1, depth - 1)
        }
    } else {
        spec_find_close(cs, i + 1, depth)
    }
}

/// The first index at or after `i` holding the character `t`.
pub open spec fn spec_find(cs: Seq<char>, i: int, t: char) -> Option<int>
    decreases cs.len() - i,
{
    if i < 0 || i >= cs.len() {
        None
    } else if cs[i] == t {
        Some(i)
    } else {
        spec_find(cs, i + 1, t)
    }
}

/// The first index at or after `i` that does not hold an ASCII digit.
pub open spec fn spec_digits_end(cs: Seq<char>, i: int) -> int
    decreases cs.len() - i,
{
    if 0 <= i < cs.len() && is_digit(cs[i]) {
        spec_digits_end(cs, i + 1)
    } else {
        i
    }
}

/// The number written by a sequence of ASCII digits.
pub open spec fn spec_num(ds: Seq<char>) -> int
    decreases ds.len(),
{
    if ds.len() == 0 {
        0
    } else {
        spec_num(ds.drop_last()) * 10 + (ds.last() as int - 48)
    }
}

/// The first top-level `|` at or after `i`, where `depth` counts enclosing
/// parentheses seen so far.
pub open spec fn spec_find_bar(s: Seq<char>, i: int, depth: int) -> Option<int>
    decreases s.len() - i,
{
    if i < 0 || i >= s.len() {
        None
    } else if depth == 0 && s[i] == '|' {
        Some(i)
    } else {
        let d2 = if s[i] == '(' {
            depth + 1
        } else if s[i] == ')' {
            depth - 1
        } else {
            depth
        };
        spec_find_bar(s, i + 1, d2)
    }
}

/// One atom at index `i` (never a `)` and never past the end): the node, the
/// index after the atom, and the group counter after it.  Quantifiers are not
/// read here.
pub open spec fn spec_atom(cs: Seq<char>, i: int, gid: int) -> Result<
    (SNode, int, int),
    ParseError,
>
    decreases cs.len() - i, 0int,
{
    if i < 0 || i >= cs.len() {
        Err(ParseError::TrailingEscape)
    } else {
        let c = cs[i];
        if c == '\\' {
            if i + 1 >= cs.len() {
                Err(ParseError::TrailingEscape)
            } else {
                let e = cs[i + 1];
                let n = if e == 'd' {
                    SNode::Digit
                } else if e == 'w' {
                    SNode::Word
                } else if is_digit(e) && e != '0' {
                    SNode::Ref(e as int - 48)
                } else {
                    SNode::Lit(e)
                };
                Ok((n, i + 2, gid))
            }
        } else if c == '[' {
            let neg = i + 1 < cs.len() && cs[i + 1] == '^';
            let start = if neg {
                i + 2
            } else {
                i + 1
            };
            match spec_find(cs, start, ']') {
                None => Err(ParseError::UnclosedClass),
                Some(j) => if start <= j < cs.len() {
                    let members = cs.subrange(start, j);
                    let n = if neg {
                        SNode::Neg(members)
                    } else {
                        SNode::Pos(members)
                    };
                    Ok((n, j + 1, gid))
                } else {
                    Err(ParseError::UnclosedClass)
                },
            }
        } else if c == '(' {
            match spec_find_close(cs, i + 1, 0) {
                None => Err(ParseError::UnclosedGroup),
                Some(j) => if i + 1 <= j < cs.len() {
                    match spec_branches(cs.subrange(i + 1, j), gid + 1) {
                        Err(e) => Err(e),
                        Ok((brs, g2)) => Ok((SNode::Cap(gid + 1, brs), j + 1, g2)),
                    }
                } else {
                    Err(ParseError::UnclosedGroup)
                },
            }
        } else if c == '.' {
            Ok((SNode::Any, i + 1, gid))
        } else {
            Ok((SNode::Lit(c), i + 1, gid))
        }
    }
}

/// The node sequence parsed from index `i` up to the end of the input or an
/// unmatched `)`, with the group counter threaded through.
pub open spec fn spec_elems(cs: Seq<char>, i: int, gid: int) -> Result<
    (Seq<SNode>, int),
    ParseError,
>
    decreases cs.len() - i, 1int,
{
    if i < 0 || i >= cs.len() {
        Ok((Seq::empty(), gid))
    } else if cs[i] == ')' {
        Ok((Seq::empty(), gid))
    } else {
        match spec_atom(cs, i, gid) {
            Err(e) => Err(e),
            Ok((n0, ni, g1)) => {
                if !(i < ni <= cs.len()) {
                    Err(ParseError::TrailingEscape)
                } else {
                    let quantified = if ni < cs.len() && cs[ni] == '+' {
                        Ok((SNode::Plus(Box::new(n0)), ni + 1))
                    } else if ni < cs.len() && cs[ni] == '?' {
                        Ok((SNode::Opt(Box::new(n0)), ni + 1))
                    } else if ni < cs.len() && cs[ni] == '*' {
                        Ok((SNode::Star(Box::new(n0)), ni + 1))
                    } else if ni < cs.len() && cs[ni] == '{' {
                        let ds = ni + 1;
                        let j2 = spec_digits_end(cs, ds);
                        if j2 >= cs.len() || cs[j2] != '}' {
                            Err(ParseError::BadRepetition)
                        } else if j2 == ds {
                            Err(ParseError::BadRepetition)
                        } else if spec_num(cs.subrange(ds, j2)) > usize::MAX {
                            Err(ParseError::BadRepetition)
                        } else {
                            Ok((SNode::Rep(Box::new(n0), spec_num(cs.subrange(ds, j2))), j2 + 1))
                        }
                    } else {
                        Ok((n0, ni))
                    };
                    match quantified {
                        Err(e) => Err(e),
                        Ok((node, ni2)) => if !(i < ni2 <= cs.len()) {
                            Err(ParseError::TrailingEscape)
                        } else {
                            match spec_elems(cs, ni2, g1) {
                                Err(e) => Err(e),
                                Ok((rest, g2)) => Ok((seq![node] + rest, g2)),
                            }
                        },
                    }
                }
            },
        }
    }
}

/// The alternatives of a group body, split on top-level `|`, each parsed as a
/// node sequence, with the group counter threaded through in source order.
pub open spec fn spec_branches(s: Seq<char>, gid: int) -> Result<
    (Seq<Seq<SNode>>, int),
    ParseError,
>
    decreases s.len() + 1, 0int,
{
    match spec_find_bar(s, 0, 0) {
        None => match spec_elems(s, 0, gid) {
            Err(e) => Err(e),
            Ok((ns, g)) => Ok((seq![ns], g)),
        },
        Some(k) => if 0 <= k < s.len() {
            match spec_elems(s.subrange(0, k), 0, gid) {
                Err(e) => Err(e),
                Ok((ns, g1)) => match spec_branches(s.subrange(k + 1, s.len() as int), g1) {
                    Err(e) => Err(e),
                    Ok((rest, g2)) => Ok((seq![ns] + rest, g2)),
                },
            }
        } else {
            Err(ParseError::UnclosedGroup)
        },
    }
}

/// A found closing parenthesis lies between the start of the scan and the
/// end of the input.
pub proof fn lemma_find_close_bounds(cs: Seq<char>, i: int, depth: int)
    ensures
        match spec_find_close(cs, i, depth) {
            Some(j) => i <= j < cs.len() && cs[j] == ')',
            None => true,
        },
    decreases cs.len() - i,
{
    if 0 <= i < cs.len() {
        if cs[i] == '(' {
            lemma_find_close_bounds(cs, i + 1, depth + 1);
        } else if cs[i] == ')' {
            if depth != 0 {
                lemma_find_close_bounds(cs, i + 1, depth - 1);
            }
        } else {
            lemma_find_close_bounds(cs, i + 1, depth);
        }
    }
}

/// A found character lies between the start of the scan and the end of the
/// input.
pub proof fn lemma_find_bounds(cs: Seq<char>, i: int, t: char)
    ensures
        match spec_find(cs, i, t) {
            Some(j) => i <= j < cs.len() && cs[j] == t,
            None => true,
        },
    decreases cs.len() - i,
{
    if 0 <= i < cs.len() && cs[i] != t {
        lemma_find_bounds(cs, i + 1, t);
    }
}

/// A found top-level bar lies between the start of the scan and the end of
/// the input.
pub proof fn lemma_find_bar_bounds(s: Seq<char>, i: int, depth: int)
    ensures
        match spec_find_bar(s, i, depth) {
            Some(j) => i <= j < s.len() && s[j] == '|',
            None => true,
        },
    decreases s.len() - i,
{
    if 0 <= i < s.len() && !(depth == 0 && s[i] == '|') {
        let d2 = if s[i] == '(' {
            depth + 1
        } else if s[i] == ')' {
            depth - 1
        } else {
            depth
        };
        lemma_find_bar_bounds(s, i + 1, d2);
    }
}

/// The digit scan stops inside the input, and everything it passed over is a
/// digit.
pub proof fn lemma_digits_end_bounds(cs: Seq<char>, i: int)
    requires
        0 <= i <= cs.len(),
    ensures
        i <= spec_digits_end(cs, i) <= cs.len(),
        forall|k: int| i <= k < spec_digits_end(cs, i) ==> is_digit(#[trigger] cs[k]),
    decreases cs.len() - i,
{
    if 0 <= i < cs.len() && is_digit(cs[i]) {
        lemma_digits_end_bounds(cs, i + 1);
    }
}

/// Adding a well-formed node in front of a well-formed sequence keeps it
/// well formed.
pub proof fn lemma_nodes_ok_cons(n: SNode, rest: Seq<SNode>)
    requires
        node_ok(n),
        nodes_ok(rest),
    ensures
        nodes_ok(seq![n] + rest),
{
    let s = seq![n] + rest;
    assert(s[0] == n);
    assert(s.subrange(1, s.len() as int) =~= rest);
}

/// Adding a well-formed branch in front of a well-formed branch list keeps
/// it well formed.
pub proof fn lemma_branches_ok_cons(b: Seq<SNode>, rest: Seq<Seq<SNode>>)
    requires
        nodes_ok(b),
        branches_ok(rest),
    ensures
        branches_ok(seq![b] + rest),
{
    let s = seq![b] + rest;
    assert(s[0] == b);
    assert(s.subrange(1, s.len() as int) =~= rest);
}

/// A parsed atom is well formed, ends after where it began and inside the
/// input, and grows the group counter by less than the text it consumed.
pub proof fn lemma_atom_props(cs: Seq<char>, i: int, gid: int)
    requires
        0 <= i,
        0 <= gid,
        gid + (cs.len() - i) <= usize::MAX,
    ensures
        match spec_atom(cs, i, gid) {
            Ok((n, ni, g)) => node_ok(n) && i < ni <= cs.len() && gid <= g && g <= gid + (ni - i)
                - 1,
            Err(_) => true,
        },
    decreases cs.len() - i, 0int,
{
    if 0 <= i < cs.len() {
        let c = cs[i];
        if c == '[' {
            let neg = i + 1 < cs.len() && cs[i + 1] == '^';
            let start = if neg {
                i + 2
            } else {
                i + 1
            };
            lemma_find_bounds(cs, start, ']');
        } else if c == '(' {
            lemma_find_close_bounds(cs, i + 1, 0);
            match spec_find_close(cs, i + 1, 0) {
                Some(j) => {
                    if i + 1 <= j < cs.len() {
                        lemma_branches_props(cs.subrange(i + 1, j), gid + 1);
                    }
                },
                None => {},
            }
        }
    }
}

/// A parsed node sequence is well formed and the group counter grows by at
/// most the text consumed.
pub proof fn lemma_elems_props(cs: Seq<char>, i: int, gid: int)
    requires
        0 <= i <= cs.len(),
        0 <= gid,
        gid + (cs.len() - i) <= usize::MAX,
    ensures
        match spec_elems(cs, i, gid) {
            Ok((ns, g)) => nodes_ok(ns) && gid <= g && g <= gid + (cs.len() - i),
            Err(_) => true,
        },
    decreases cs.len() - i, 1int,
{
    if 0 <= i < cs.len() && cs[i] != ')' {
        lemma_atom_props(cs, i, gid);
        match spec_atom(cs, i, gid) {
            Err(_) => {},
            Ok((n0, ni, g1)) => {
                if i < ni <= cs.len() {
                    let quantified = if ni < cs.len() && cs[ni] == '+' {
                        Ok::<(SNode, int), ParseError>((SNode::Plus(Box::new(n0)), ni + 1))
                    } else if ni < cs.len() && cs[ni] == '?' {
                        Ok((SNode::Opt(Box::new(n0)), ni + 1))
                    } else if ni < cs.len() && cs[ni] == '*' {
                        Ok((SNode::Star(Box::new(n0)), ni + 1))
                    } else if ni < cs.len() && cs[ni] == '{' {
                        let ds = ni + 1;
                        let j2 = spec_digits_end(cs, ds);
                        if j2 >= cs.len() || cs[j2] != '}' {
                            Err(ParseError::BadRepetition)
                        } else if j2 == ds {
                            Err(ParseError::BadRepetition)
                        } else if spec_num(cs.subrange(ds, j2)) > usize::MAX {
                            Err(ParseError::BadRepetition)
                        } else {
                            Ok((SNode::Rep(Box::new(n0), spec_num(cs.subrange(ds, j2))), j2 + 1))
                        }
                    } else {
                        Ok((n0, ni))
                    };
                    if ni < cs.len() && cs[ni] == '{' {
                        lemma_digits_end_bounds(cs, ni + 1);
                    }
                    match quantified {
                        Err(_) => {},
                        Ok((node, ni2)) => {
                            if i < ni2 <= cs.len() {
                                lemma_elems_props(cs, ni2, g1);
                                match spec_elems(cs, ni2, g1) {
                                    Err(_) => {},
                                    Ok((rest, g2)) => {
                                        lemma_nodes_ok_cons(node, rest);
                                    },
                                }
                            }
                        },
                    }
                }
            },
        }
    }
}

/// A parsed branch list is well formed and the group counter grows by at
/// most the body's length.
pub proof fn lemma_branches_props(s: Seq<char>, gid: int)
    requires
        0 <= gid,
        gid + s.len() <= usize::MAX,
    ensures
        match spec_branches(s, gid) {
            Ok((brs, g)) => branches_ok(brs) && gid <= g && g <= gid + s.len(),
            Err(_) => true,
        },
    decreases s.len() + 1, 0int,
{
    lemma_find_bar_bounds(s, 0, 0);
    match spec_find_bar(s, 0, 0) {
        None => {
            lemma_elems_props(s, 0, gid);
            match spec_elems(s, 0, gid) {
                Err(_) => {},
                Ok((ns, _)) => {
                    lemma_branches_ok_cons(ns, Seq::empty());
                    assert(seq![ns] + Seq::<Seq<SNode>>::empty() =~= seq![ns]);
                },
            }
        },
        Some(k) => {
            if 0 <= k < s.len() {
                lemma_elems_props(s.subrange(0, k), 0, gid);
                match spec_elems(s.subrange(0, k), 0, gid) {
                    Err(_) => {},
                    Ok((ns, g1)) => {
                        lemma_branches_props(s.subrange(k + 1, s.len() as int), g1);
                        match spec_branches(s.subrange(k + 1, s.len() as int), g1) {
                            Err(_) => {},
                            Ok((rest, _)) => {
                                lemma_branches_ok_cons(ns, rest);
                            },
                        }
                    },
                }
            }
        },
    }
}

/// A parsed pattern's node sequence is well formed.
pub proof fn lemma_parse_ok(p: Seq<char>)
    requires
        p.len() <= usize::MAX,
    ensures
        match spec_parse(p) {
            Ok((ns, _, _)) => nodes_ok(ns),
            Err(_) => true,
        },
{
    let (sa, p1) = strip_start(p);
    let (ea, p2) = strip_end(p1);
    lemma_elems_props(p2, 0, 0);
}

/// Whether the start anchor applies, and the pattern with it stripped.
pub open spec fn strip_start(p: Seq<char>) -> (bool, Seq<char>) {
    if p.len() > 0 && p[0] == '^' {
        (true, p.subrange(1, p.len() as int))
    } else {
        (false, p)
    }
}

/// Whether the end anchor applies, and the pattern with it stripped.  A `$`
/// preceded by a backslash is an escaped literal, not an anchor.
pub open spec fn strip_end(p: Seq<char>) -> (bool, Seq<char>) {
    if p.len() > 0 && p.last() == '$' && !(p.len() >= 2 && p[p.len() - 2] == '\\') {
        (true, p.drop_last())
    } else {
        (false, p)
    }
}

/// The parsed pattern: its node sequence and its two anchor flags, or the
/// parse error.  The start anchor is stripped before the end anchor is
/// looked for, as the single left-to-right pass reads them.
pub open spec fn spec_parse(p: Seq<char>) -> Result<(Seq<SNode>, bool, bool), ParseError> {
    let (sa, p1) = strip_start(p);
    let (ea, p2) = strip_end(p1);
    match spec_elems(p2, 0, 0) {
        Err(e) => Err(e),
        Ok((ns, _)) => Ok((ns, sa, ea)),
    }
}

/// A digit string names a nonnegative number.
pub proof fn lemma_num_nonneg(ds: Seq<char>)
    requires
        forall|k: int| 0 <= k < ds.len() ==> is_digit(#[trigger] ds[k]),
    ensures
        spec_num(ds) >= 0,
    decreases ds.len(),
{
    if ds.len() > 0 {
        lemma_num_nonneg(ds.drop_last());
        assert(ds.last() as int >= 48);
    }
}

/// A prefix of a digit string names no more than the whole string.
pub proof fn lemma_num_prefix(ds: Seq<char>, j: int)
    requires
        forall|k: int| 0 <= k < ds.len() ==> is_digit(#[trigger] ds[k]),
        0 <= j <= ds.len(),
    ensures
        spec_num(ds.subrange(0, j)) <= spec_num(ds),
    decreases ds.len(),
{
    if j == ds.len() {
        assert(ds.subrange(0, j) =~= ds);
    } else {
        lemma_num_prefix(ds.drop_last(), j);
        assert(ds.drop_last().subrange(0, j) =~= ds.subrange(0, j));
        lemma_num_nonneg(ds.drop_last());
        assert(ds.last() as int >= 48);
        assert(spec_num(ds) >= spec_num(ds.drop_last()));
    }
}

/// Copies the characters of `v` in the range `[a, b)`.
fn clone_char_range(v: &Vec<char>, a: usize, b: usize) -> (r: Vec<char>)
    requires
        a <= b <= v@.len(),
    ensures
        r@ == v@.subrange(a as int, b as int),
{
    let mut out: Vec<char> = Vec::new();
    let mut i: usize = a;
    while i < b
        invariant
            a <= i <= b <= v@.len(),
            out@ == v@.subrange(a as int, i as int),
        decreases b - i,
    {
        out.push(v[i]);
        proof {
            assert(out@ =~= v@.subrange(a as int, i + 1));
        }
        i = i + 1;
    }
    out
}

/// Finds the parenthesis closing the group whose body starts at `i`.
fn find_close(cs: &Vec<char>, i: usize, depth: usize) -> (r: Option<usize>)
    requires
        i <= cs@.len(),
        depth <= i,
    ensures
        match r {
            Some(j) => spec_find_close(cs@, i as int, depth as int) == Some(j as int),
            None => spec_find_close(cs@, i as int, depth as int) is None,
        },
    decreases cs@.len() - i,
{
    if i >= cs.len() {
        None
    } else if cs[i] == '(' {
        find_close(cs, i + 1, depth + 1)
    } else if cs[i] == ')' {
        if depth == 0 {
            Some(i)
        } else {
            find_close(cs, i + 1, depth - 1)
        }
    } else {
        find_close(cs, i + 1, depth)
    }
}

/// Finds the first occurrence of `t` at or after `i`.
pub(crate) fn find_char(cs: &Vec<char>, i: usize, t: char) -> (r: Option<usize>)
    requires
        i <= cs@.len(),
    ensures
        match r {
            Some(j) => spec_find(cs@, i as int, t) == Some(j as int),
            None => spec_find(cs@, i as int, t) is None,
        },
    decreases cs@.len() - i,
{
    if i >= cs.len() {
        None
    } else if cs[i] == t {
        Some(i)
    } else {
        find_char(cs, i + 1, t)
    }
}

/// Finds the first non-digit at or after `i`.
fn digits_end(cs: &Vec<char>, i: usize) -> (r: usize)
    requires
        i <= cs@.len(),
    ensures
        r as int == spec_digits_end(cs@, i as int),
        i <= r <= cs@.len(),
    decreases cs@.len() - i,
{
    if i < cs.len() {
        let c = cs[i];
        if '0' <= c && c <= '9' {
            proof {
                assert(is_digit(cs@[i as int]));
                assert(spec_digits_end(cs@, i as int) == spec_digits_end(cs@, i + 1));
            }
            return digits_end(cs, i + 1);
        }
    }
    i
}

/// Reads the number written by the digits in `[a, b)`; rejects one a machine
/// word cannot hold.
fn parse_num(cs: &Vec<char>, a: usize, b: usize) -> (r: Result<usize, ParseError>)
    requires
        a <= b <= cs@.len(),
        forall|k: int| a <= k < b ==> is_digit(#[trigger] cs@[k]),
    ensures
        match r {
            Ok(v) => spec_num(cs@.subrange(a as int, b as int)) == v as int,
            Err(e) => e == ParseError::BadRepetition && spec_num(
                cs@.subrange(a as int, b as int),
            ) > usize::MAX,
        },
{
    let ghost whole = cs@.subrange(a as int, b as int);
    let mut acc: usize = 0;
    let mut i: usize = a;
    while i < b
        invariant
            a <= i <= b <= cs@.len(),
            forall|k: int| a <= k < b ==> is_digit(#[trigger] cs@[k]),
            whole == cs@.subrange(a as int, b as int),
            acc as int == spec_num(cs@.subrange(a as int, i as int)),
        decreases b - i,
    {
        let d = (cs[i] as u32 - 48) as usize;
        proof {
            assert(is_digit(cs@[i as int]));
            let step = cs@.subrange(a as int, i + 1);
            assert(step.drop_last() =~= cs@.subrange(a as int, i as int));
            assert(step.last() == cs@[i as int]);
        }
        if acc > (usize::MAX - d) / 10 {
            proof {
                assert forall|k: int| 0 <= k < whole.len() implies is_digit(
                    #[trigger] whole[k],
                ) by {
                    assert(whole[k] == cs@[a + k]);
                }
                lemma_num_prefix(whole, i + 1 - a);
                assert(whole.subrange(0, i + 1 - a) =~= cs@.subrange(a as int, i + 1));
            }
            return Err(ParseError::BadRepetition);
        }
        acc = acc * 10 + d;
        i = i + 1;
    }
    proof {
        assert(cs@.subrange(a as int, i as int) =~= whole);
    }
    Ok(acc)
}

/// Reads one character of `v`.  Returning it from a function restores the
/// character type's range invariant, which an indexing expression alone does
/// not carry.
fn char_at(v: &Vec<char>, i: usize) -> (c: char)
    requires
        i < v@.len(),
    ensures
        c == v@[i as int],
{
    v[i]
}

/// Parses the atom beginning at `i`: its node, the index after it, and the
/// updated group counter.
fn atom(cs: &Vec<char>, i: usize, gid: usize) -> (r: Result<(Node, usize, usize), ParseError>)
    requires
        i < cs@.len(),
        gid + (cs@.len() - i as int) <= usize::MAX,
    ensures
        match r {
            Ok((n, ni, g)) => spec_atom(cs@, i as int, gid as int) == Ok::<
                (SNode, int, int),
                ParseError,
            >((rep_node(n), ni as int, g as int)) && ni <= cs@.len(),
            Err(e) => spec_atom(cs@, i as int, gid as int) == Err::<(SNode, int, int), ParseError>(
                e,
            ),
        },
    decreases cs@.len() - i, 0int,
{
    let n = cs.len();
    let c = char_at(cs, i);
    if c == '\\' {
        if i + 1 >= n {
            Err(ParseError::TrailingEscape)
        } else {
            let e = char_at(cs, i + 1);
            let n = if e == 'd' {
                Node::Digit
            } else if e == 'w' {
                Node::Word
            } else if '1' <= e && e <= '9' {
                Node::Ref((e as u32 - 48) as usize)
            } else {
                Node::Lit(e)
            };
            Ok((n, i + 2, gid))
        }
    } else if c == '[' {
        let neg = i + 1 < n && cs[i + 1] == '^';
        let start = if neg {
            i + 2
        } else {
            i + 1
        };
        match find_char(cs, start, ']') {
            None => Err(ParseError::UnclosedClass),
            Some(j) => {
                proof {
                    lemma_find_bounds(cs@, start as int, ']');
                }
                let members = clone_char_range(cs, start, j);
                let n = if neg {
                    Node::Neg(members)
                } else {
                    Node::Pos(members)
                };
                Ok((n, j + 1, gid))
            },
        }
    } else if c == '(' {
        match find_close(cs, i + 1, 0) {
            None => Err(ParseError::UnclosedGroup),
            Some(j) => {
                proof {
                    lemma_find_close_bounds(cs@, i + 1, 0);
                }
                let body = clone_char_range(cs, i + 1, j);
                match branches(&body, gid + 1) {
                    Err(e) => Err(e),
                    Ok((brs, g2)) => Ok((Node::Cap(gid + 1, brs), j + 1, g2)),
                }
            },
        }
    } else if c == '.' {
        Ok((Node::Any, i + 1, gid))
    } else {
        Ok((Node::Lit(c), i + 1, gid))
    }
}

/// Parses a node sequence from index `i` up to the end of the input or an
/// unmatched `)`, returning the nodes and the updated group counter.
pub fn elems(cs: &Vec<char>, i: usize, gid: usize) -> (r: Result<(Vec<Node>, usize), ParseError>)
    requires
        i <= cs@.len(),
        gid + (cs@.len() - i as int) <= usize::MAX,
    ensures
        match r {
            Ok((ns, g)) => spec_elems(cs@, i as int, gid as int) == Ok::<
                (Seq<SNode>, int),
                ParseError,
            >((rep_seq(ns@), g as int)),
            Err(e) => spec_elems(cs@, i as int, gid as int) == Err::<(Seq<SNode>, int), ParseError>(
                e,
            ),
        },
    decreases cs@.len() - i, 1int,
{
    if i >= cs.len() || cs[i] == ')' {
        let out: Vec<Node> = Vec::new();
        proof {
            assert(rep_seq(out@) =~= Seq::<SNode>::empty());
        }
        return Ok((out, gid));
    }
    match atom(cs, i, gid) {
        Err(e) => Err(e),
        Ok((n0, ni, g1)) => {
            proof {
                lemma_atom_props(cs@, i as int, gid as int);
            }
            let node: Node;
            let ni2: usize;
            if ni < cs.len() && cs[ni] == '+' {
                node = Node::Plus(Box::new(n0));
                ni2 = ni + 1;
            } else if ni < cs.len() && cs[ni] == '?' {
                node = Node::Opt(Box::new(n0));
                ni2 = ni + 1;
            } else if ni < cs.len() && cs[ni] == '*' {
                node = Node::Star(Box::new(n0));
                ni2 = ni + 1;
            } else if ni < cs.len() && cs[ni] == '{' {
                let ds = ni + 1;
                let j2 = digits_end(cs, ds);
                proof {
                    lemma_digits_end_bounds(cs@, ds as int);
                }
                if j2 >= cs.len() || cs[j2] != '}' {
                    return Err(ParseError::BadRepetition);
                }
                if j2 == ds {
                    return Err(ParseError::BadRepetition);
                }
                match parse_num(cs, ds, j2) {
                    Err(e) => {
                        return Err(e);
                    },
                    Ok(v) => {
                        node = Node::Rep(Box::new(n0), v);
                        ni2 = j2 + 1;
                    },
                }
            } else {
                node = n0;
                ni2 = ni;
            }
            match elems(cs, ni2, g1) {
                Err(e) => Err(e),
                Ok((rest, g2)) => {
                    let mut out: Vec<Node> = Vec::new();
                    let ghost noder = rep_node(node);
                    let ghost restr = rep_seq(rest@);
                    out.push(node);
                    let mut rest = rest;
                    out.append(&mut rest);
                    proof {
                        let a = rep_seq(out@);
                        let b = seq![noder] + restr;
                        assert forall|k: int| 0 <= k < a.len() implies a[k] == b[k] by {}
                        assert(a =~= b);
                    }
                    Ok((out, g2))
                },
            }
        },
    }
}

/// Finds the first top-level `|` at or after `i` in a group body.
fn find_bar(s: &Vec<char>, i: usize, depth: i128) -> (r: Option<usize>)
    requires
        i <= s@.len(),
        s@.len() <= usize::MAX,
        -(i as int) - 1 <= depth as int <= i as int + 1,
    ensures
        match r {
            Some(j) => spec_find_bar(s@, i as int, depth as int) == Some(j as int),
            None => spec_find_bar(s@, i as int, depth as int) is None,
        },
    decreases s@.len() - i,
{
    if i >= s.len() {
        None
    } else if depth == 0 && s[i] == '|' {
        Some(i)
    } else {
        let d2: i128 = if s[i] == '(' {
            depth + 1
        } else if s[i] == ')' {
            depth - 1
        } else {
            depth
        };
        find_bar(s, i + 1, d2)
    }
}

/// Parses a group body into its `|`-separated alternatives, returning the
/// branch list and the updated group counter.
pub fn branches(s: &Vec<char>, gid: usize) -> (r: Result<(Vec<Vec<Node>>, usize), ParseError>)
    requires
        gid + s@.len() <= usize::MAX,
    ensures
        match r {
            Ok((brs, g)) => spec_branches(s@, gid as int) == Ok::<
                (Seq<Seq<SNode>>, int),
                ParseError,
            >((rep_branches(brs@), g as int)),
            Err(e) => spec_branches(s@, gid as int) == Err::<(Seq<Seq<SNode>>, int), ParseError>(e),
        },
    decreases s@.len() + 1, 0int,
{
    match find_bar(s, 0, 0) {
        None => match elems(s, 0, gid) {
            Err(e) => Err(e),
            Ok((ns, g)) => {
                let mut out: Vec<Vec<Node>> = Vec::new();
                out.push(ns);
                proof {
                    assert(rep_branches(out@) =~= seq![rep_seq(out@[0]@)]);
                }
                Ok((out, g))
            },
        },
        Some(k) => {
            proof {
                lemma_find_bar_bounds(s@, 0, 0);
            }
            let seg = clone_char_range(s, 0, k);
            match elems(&seg, 0, gid) {
                Err(e) => Err(e),
                Ok((ns, g1)) => {
                    proof {
                        lemma_elems_props(seg@, 0, gid as int);
                    }
                    let rest_s = clone_char_range(s, k + 1, s.len());
                    match branches(&rest_s, g1) {
                        Err(e) => Err(e),
                        Ok((rest, g2)) => {
                            let ghost nsr = rep_seq(ns@);
                            let ghost restr = rep_branches(rest@);
                            let mut out: Vec<Vec<Node>> = Vec::new();
                            out.push(ns);
                            let mut rest = rest;
                            out.append(&mut rest);
                            proof {
                                let a = rep_branches(out@);
                                let b = seq![nsr] + restr;
                                assert forall|kk: int| 0 <= kk < a.len() implies a[kk] == b[
                                    kk
                                ] by {}
                                assert(a =~= b);
                            }
                            Ok((out, g2))
                        },
                    }
                },
            }
        },
    }
}

/// Parses a pattern into its node sequence and anchor flags.
pub fn parse(pattern: &Vec<char>) -> (r: Result<(Vec<Node>, bool, bool), ParseError>)
    ensures
        match r {
            Ok((ns, sa, ea)) => spec_parse(pattern@) == Ok::<
                (Seq<SNode>, bool, bool),
                ParseError,
            >((rep_seq(ns@), sa, ea)) && nodes_ok(rep_seq(ns@)),
            Err(e) => spec_parse(pattern@) == Err::<(Seq<SNode>, bool, bool), ParseError>(e),
        },
{
    let n = pattern.len();
    let sa = n > 0 && pattern[0] == '^';
    let lo: usize = if sa {
        1
    } else {
        0
    };
    let ghost p1 = strip_start(pattern@).1;
    proof {
        assert(p1 =~= pattern@.subrange(lo as int, n as int));
    }
    let len1 = n - lo;
    let ea = len1 > 0 && pattern[lo + len1 - 1] == '$' && !(len1 >= 2 && pattern[lo + len1 - 2]
        == '\\');
    let hi: usize = if ea {
        n - 1
    } else {
        n
    };
    let ghost p2 = strip_end(p1).1;
    proof {
        assert(strip_end(p1).0 == ea);
        assert(p2 =~= pattern@.subrange(lo as int, hi as int));
        lemma_parse_ok(pattern@);
    }
    let body = clone_char_range(pattern, lo, hi);
    match elems(&body, 0, 0) {
        Err(e) => Err(e),
        Ok((ns, _)) => Ok((ns, sa, ea)),
    }
}

} // verus!
