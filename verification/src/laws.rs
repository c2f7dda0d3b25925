//! Laws of the engine: what anchoring, literal patterns and back-references
//! guarantee, proved over the parser's and matcher's specifications.

use vstd::prelude::*;
use crate::ast::{
    branches_size, lemma_branch_size_le, lemma_node_size_pos, lemma_seq_size_concat, node_size,
    seq_size, SNode,
};
use crate::matcher::{
    any_hit, lemma_rep_size_step, lemma_seq_size_single, match_alts, match_hit, match_more,
    match_seq, spec_is_match, Caps,
};
use crate::parser::{
    lemma_digits_end_bounds, spec_atom, spec_branches, spec_digits_end, spec_elems, spec_find_bar,
    spec_find_close, spec_num, spec_parse, strip_end, strip_start, ParseError,
};

verus! {

/// One of the characters the pattern language reserves.
pub open spec fn is_meta(c: char) -> bool {
    c == '\\' || c == '[' || c == ']' || c == '(' || c == ')' || c == '|' || c == '.' || c == '+'
        || c == '?' || c == '*' || c == '{' || c == '}' || c == '^' || c == '$'
}

/// A literal node for the character `c`.
pub open spec fn lit_node(c: char) -> SNode {
    SNode::Lit(c)
}

/// The nodes of a pattern of plain literals, from index `i` on.
pub open spec fn lits_from(s: Seq<char>, i: int) -> Seq<SNode>
    decreases s.len() - i,
{
    if i < 0 || i >= s.len() {
        Seq::empty()
    } else {
        seq![lit_node(s[i])] + lits_from(s, i + 1)
    }
}

/// Anchor soundness: a match of a pattern carrying the start anchor begins
/// at offset 0 — when `is_match` holds of `s` and `"^" + p`, the engine's
/// single admissible attempt, the one from offset 0, succeeds.
pub proof fn lemma_anchor_start(s: Seq<char>, p: Seq<char>)
    requires
        spec_is_match(s, seq!['^'] + p) == Ok::<bool, ParseError>(true),
    ensures
        spec_parse(seq!['^'] + p) is Ok,
        match spec_parse(seq!['^'] + p) {
            Ok((ns, sa, ea)) => sa && match_seq(0, ns, s, Seq::empty()) is Some,
            Err(_) => false,
        },
{
    let pat = seq!['^'] + p;
    assert(pat[0] == '^');
    match spec_parse(pat) {
        Err(_) => {},
        Ok((ns, sa, ea)) => {
            assert(sa);
            assert(any_hit(s, ns, sa, ea));
            let st = choose|st: int| match_hit(s, ns, sa, ea, st);
            assert(match_hit(s, ns, sa, ea, st));
            assert(st == 0);
        },
    }
}

/// End-anchor soundness: a match of a pattern carrying the end anchor ends
/// at the end of the input — when `is_match` holds of `s` and `p + "$"`,
/// some attempt reaches exactly `s.len()`.  A `p` ending in a backslash is
/// excluded: there the final `$` would be an escaped literal, not an anchor.
pub proof fn lemma_anchor_end(s: Seq<char>, p: Seq<char>)
    requires
        p.len() > 0 ==> p.last() != '\\',
        spec_is_match(s, p + seq!['$']) == Ok::<bool, ParseError>(true),
    ensures
        spec_parse(p + seq!['$']) is Ok,
        match spec_parse(p + seq!['$']) {
            Ok((ns, sa, ea)) => ea && exists|st: int|
                match #[trigger] match_seq(st, ns, s, Seq::empty()) {
                    Some(r) => r.0 == s.len(),
                    None => false,
                },
            Err(_) => false,
        },
{
    let pat = p + seq!['$'];
    let (sa0, p1) = strip_start(pat);
    assert(p1.last() == '$');
    if p1.len() >= 2 {
        if sa0 {
            assert(p1[p1.len() - 2] == pat[pat.len() - 2]);
            assert(pat[pat.len() - 2] == p.last());
        } else {
            assert(p1[p1.len() - 2] == p.last());
        }
    }
    assert(strip_end(p1).0);
    match spec_parse(pat) {
        Err(_) => {},
        Ok((ns, sa, ea)) => {
            assert(ea);
            assert(any_hit(s, ns, sa, ea));
            let st = choose|st: int| match_hit(s, ns, sa, ea, st);
            assert(match_hit(s, ns, sa, ea, st));
            assert(match match_seq(st, ns, s, Seq::empty()) {
                Some(r) => r.0 == s.len(),
                None => false,
            });
        },
    }
}

/// Double anchor: `is_match` of `s` against `"^" + p + "$"` holds exactly
/// when the greedy match of `p` from offset 0 consumes the whole of `s`,
/// and the anchored pattern parses exactly when `p` does, with the same
/// error.  `p` may not itself begin or end in an anchor, nor end in a
/// backslash, so that wrapping it changes nothing but the anchors.
pub proof fn lemma_anchor_both(s: Seq<char>, p: Seq<char>)
    requires
        !strip_start(p).0,
        !strip_end(p).0,
        p.len() > 0 ==> p.last() != '\\',
    ensures
        spec_is_match(s, seq!['^'] + p + seq!['$']) == (match spec_parse(p) {
            Err(e) => Err::<bool, ParseError>(e),
            Ok((ns, sa, ea)) => Ok::<bool, ParseError>(
                match match_seq(0, ns, s, Seq::empty()) {
                    Some(r) => r.0 == s.len(),
                    None => false,
                },
            ),
        }),
{
    let pat = seq!['^'] + p + seq!['$'];
    assert(pat[0] == '^');
    let p1 = strip_start(pat).1;
    assert(p1 =~= p + seq!['$']);
    assert(p1.last() == '$');
    if p1.len() >= 2 {
        assert(p1[p1.len() - 2] == p.last());
    }
    assert(strip_end(p1).0);
    assert(strip_end(p1).1 =~= p);
    assert(strip_start(p).1 == p);
    assert(strip_end(p).1 == p);
    match spec_parse(pat) {
        Err(_) => {},
        Ok((ns, sa, ea)) => {
            assert(sa && ea);
            let whole = match match_seq(0, ns, s, Seq::empty()) {
                Some(r) => r.0 == s.len(),
                None => false,
            };
            if whole {
                assert(match_hit(s, ns, sa, ea, 0));
                assert(any_hit(s, ns, sa, ea));
            }
            if any_hit(s, ns, sa, ea) {
                let st = choose|st: int| match_hit(s, ns, sa, ea, st);
                assert(match_hit(s, ns, sa, ea, st));
                assert(st == 0);
                assert(whole);
            }
        },
    }
}

/// A pattern of plain literals parses to one `Lit` node per character.
proof fn lemma_parse_literals(s: Seq<char>, i: int)
    requires
        0 <= i <= s.len(),
        forall|k: int| 0 <= k < s.len() ==> !is_meta(#[trigger] s[k]),
    ensures
        spec_elems(s, i, 0) == Ok::<(Seq<SNode>, int), ParseError>((lits_from(s, i), 0)),
    decreases s.len() - i,
{
    if i < s.len() {
        assert(!is_meta(s[i]));
        lemma_parse_literals(s, i + 1);
        if i + 1 < s.len() {
            assert(!is_meta(s[i + 1]));
        }
        assert(spec_atom(s, i, 0) == Ok::<(SNode, int, int), ParseError>(
            (SNode::Lit(s[i]), i + 1, 0),
        ));
        assert(spec_elems(s, i, 0) == Ok::<(Seq<SNode>, int), ParseError>(
            (seq![SNode::Lit(s[i])] + lits_from(s, i + 1), 0),
        ));
        assert(lits_from(s, i) == seq![SNode::Lit(s[i])] + lits_from(s, i + 1));
    }
}

/// A sequence of literal nodes drawn from `s` matches `s` itself from the
/// position it was drawn at, consuming everything that remains.
proof fn lemma_match_literals(s: Seq<char>, j: int, caps: Caps)
    requires
        0 <= j <= s.len(),
    ensures
        match_seq(j, lits_from(s, j), s, caps) == Some((s.len() as int, caps)),
    decreases s.len() - j,
{
    let ns = lits_from(s, j);
    if j == s.len() {
        assert(ns.len() == 0);
    } else {
        lemma_match_literals(s, j + 1, caps);
        assert(ns[0] == SNode::Lit(s[j]));
        assert(ns.subrange(1, ns.len() as int) =~= lits_from(s, j + 1));
    }
}

/// Literal identity: a string of plain characters, used as a pattern,
/// matches itself.
pub proof fn lemma_literal_identity(s: Seq<char>)
    requires
        forall|k: int| 0 <= k < s.len() ==> !is_meta(#[trigger] s[k]),
    ensures
        spec_is_match(s, s) == Ok::<bool, ParseError>(true),
{
    if s.len() > 0 {
        assert(!is_meta(s[0]));
        assert(!is_meta(s[s.len() - 1]));
    }
    assert(strip_start(s).1 == s);
    assert(strip_end(s).1 == s);
    lemma_parse_literals(s, 0);
    match spec_parse(s) {
        Err(_) => {
            assert(false);
        },
        Ok((ns, sa, ea)) => {
            assert(ns == lits_from(s, 0));
            lemma_match_literals(s, 0, Seq::empty());
            assert(match_hit(s, ns, sa, ea, 0));
            assert(any_hit(s, ns, sa, ea));
        },
    }
}

/// Back-reference consistency: when a back-reference `\n` stands at the
/// front of the sequence still to match and the whole match succeeds, the
/// text it consumed equals the text captured in slot `n - 1`, and the match
/// continues exactly after that text.
pub proof fn lemma_backref_consistency(
    pos: int,
    n: int,
    tail: Seq<SNode>,
    cs: Seq<char>,
    caps: Caps,
    s: int,
    e: int,
)
    requires
        1 <= n,
        n - 1 < caps.len(),
        caps[n - 1] == Some((s, e)),
        match_seq(pos, seq![SNode::Ref(n)] + tail, cs, caps) is Some,
    ensures
        0 <= s <= e <= cs.len(),
        0 <= pos && pos + (e - s) <= cs.len(),
        cs.subrange(pos, pos + (e - s)) == cs.subrange(s, e),
        match_seq(pos, seq![SNode::Ref(n)] + tail, cs, caps) == match_seq(
            pos + (e - s),
            tail,
            cs,
            caps,
        ),
{
    let ns = seq![SNode::Ref(n)] + tail;
    assert(ns[0] == SNode::Ref(n));
    assert(ns.subrange(1, ns.len() as int) =~= tail);
}

/// An empty pattern matches any input.
pub proof fn lemma_empty_pattern(s: Seq<char>)
    ensures
        spec_is_match(s, Seq::empty()) == Ok::<bool, ParseError>(true),
{
    let p = Seq::<char>::empty();
    assert(strip_start(p).1 == p);
    assert(strip_end(p).1 == p);
    match spec_parse(p) {
        Err(_) => {
            assert(false);
        },
        Ok((ns, sa, ea)) => {
            assert(ns =~= Seq::<SNode>::empty());
            assert(match_seq(0, ns, s, Seq::empty()) == Some((0int, Seq::<Option<(int, int)>>::empty())));
            assert(match_hit(s, ns, sa, ea, 0));
            assert(any_hit(s, ns, sa, ea));
        },
    }
}

/// An empty pattern anchored at both ends matches exactly the empty input.
pub proof fn lemma_empty_double_anchor(s: Seq<char>)
    ensures
        spec_is_match(s, seq!['^', '$']) == Ok::<bool, ParseError>(s.len() == 0),
{
    let pat = seq!['^', '$'];
    assert(pat[0] == '^');
    let p1 = strip_start(pat).1;
    assert(p1 =~= seq!['$']);
    assert(p1.last() == '$');
    assert(strip_end(p1).0);
    assert(strip_end(p1).1 =~= Seq::<char>::empty());
    match spec_parse(pat) {
        Err(_) => {
            assert(false);
        },
        Ok((ns, sa, ea)) => {
            assert(ns =~= Seq::<SNode>::empty());
            assert(sa && ea);
            assert(match_seq(0, ns, s, Seq::empty()) == Some((0int, Seq::<Option<(int, int)>>::empty())));
            if s.len() == 0 {
                assert(match_hit(s, ns, sa, ea, 0));
                assert(any_hit(s, ns, sa, ea));
            } else {
                assert forall|st: int| !match_hit(s, ns, sa, ea, st) by {
                    if st == 0 {
                        assert(match_seq(0, ns, s, Seq::empty()) == Some((
                            0int,
                            Seq::<Option<(int, int)>>::empty(),
                        )));
                    }
                }
                assert(!any_hit(s, ns, sa, ea));
            }
        },
    }
}

/// Do two match results agree on success, and on the end position when they
/// succeed?  The capture tables may differ.
pub open spec fn same_outcome(a: Option<(int, Caps)>, b: Option<(int, Caps)>) -> bool {
    match (a, b) {
        (Some(x), Some(y)) => x.0 == y.0,
        (None, None) => true,
        _ => false,
    }
}

/// A `CapEnd` marker appended after a sequence never changes whether the
/// sequence matches, nor where the match ends: the marker runs last, always
/// succeeds, and consumes nothing.
proof fn lemma_marker_seq(pos: int, ns: Seq<SNode>, cs: Seq<char>, caps: Caps, sl: int, st0: int)
    requires
        0 <= sl,
    ensures
        same_outcome(
            match_seq(pos, ns + seq![SNode::CapEnd(sl, st0)], cs, caps),
            match_seq(pos, ns, cs, caps),
        ),
    decreases cs.len() - pos, seq_size(ns + seq![SNode::CapEnd(sl, st0)]), 1int, 0int,
{
    let cnode = SNode::CapEnd(sl, st0);
    let nsx = ns + seq![cnode];
    lemma_seq_size_single(cnode);
    lemma_seq_size_concat(ns, seq![cnode]);
    if ns.len() == 0 {
        assert(nsx =~= seq![cnode]);
        assert(nsx[0] == cnode);
        assert(nsx.subrange(1, nsx.len() as int) =~= Seq::<SNode>::empty());
        assert(match_seq(pos, Seq::<SNode>::empty(), cs, crate::matcher::set_cap(caps, sl, st0, pos))
            == Some((pos, crate::matcher::set_cap(caps, sl, st0, pos))));
        assert(same_outcome(match_seq(pos, nsx, cs, caps), match_seq(pos, ns, cs, caps)));
    } else {
        let head = ns[0];
        let tail = ns.subrange(1, ns.len() as int);
        let tailx = nsx.subrange(1, nsx.len() as int);
        assert(nsx[0] == head);
        assert(tailx =~= tail + seq![cnode]);
        lemma_node_size_pos(head);
        assert(seq_size(ns) == node_size(head) + seq_size(tail));
        lemma_seq_size_concat(tail, seq![cnode]);
        match head {
            SNode::Lit(_) | SNode::Digit | SNode::Word | SNode::Any | SNode::Pos(_)
                | SNode::Neg(_) => {
                if 0 <= pos && pos < cs.len() {
                    lemma_marker_seq(pos + 1, tail, cs, caps, sl, st0);
                }
            },
            SNode::Opt(b) => {
                lemma_seq_size_single(*b);
                match match_seq(pos, seq![*b], cs, caps) {
                    Some((p1, c1)) => {
                        if pos <= p1 && p1 <= cs.len() {
                            lemma_marker_seq(p1, tail, cs, c1, sl, st0);
                            lemma_marker_seq(pos, tail, cs, caps, sl, st0);
                        }
                    },
                    None => {
                        lemma_marker_seq(pos, tail, cs, caps, sl, st0);
                    },
                }
            },
            SNode::Plus(b) => {
                lemma_marker_more(pos, *b, tail, cs, caps, sl, st0);
            },
            SNode::Star(b) => {
                lemma_marker_more(pos, *b, tail, cs, caps, sl, st0);
                lemma_marker_seq(pos, tail, cs, caps, sl, st0);
            },
            SNode::Rep(b, k) => {
                if k <= 0 {
                    lemma_marker_seq(pos, tail, cs, caps, sl, st0);
                } else {
                    lemma_seq_size_single(*b);
                    lemma_rep_size_step(b, k);
                    lemma_seq_size_single(SNode::Rep(b, k - 1));
                    lemma_seq_size_concat(seq![SNode::Rep(b, k - 1)], tail);
                    lemma_seq_size_concat(seq![SNode::Rep(b, k - 1)] + tail, seq![cnode]);
                    match match_seq(pos, seq![*b], cs, caps) {
                        Some((p1, c1)) => {
                            if pos <= p1 && p1 <= cs.len() {
                                assert(seq![SNode::Rep(b, k - 1)] + tailx =~= (seq![
                                    SNode::Rep(b, k - 1),
                                ] + tail) + seq![cnode]);
                                lemma_marker_seq(
                                    p1,
                                    seq![SNode::Rep(b, k - 1)] + tail,
                                    cs,
                                    c1,
                                    sl,
                                    st0,
                                );
                            }
                        },
                        None => {},
                    }
                }
            },
            SNode::Cap(id, brs) => {
                lemma_marker_alts(pos, id - 1, brs, 0, tail, cs, caps, sl, st0);
            },
            SNode::CapEnd(sl2, st2) => {
                if 0 <= sl2 {
                    lemma_marker_seq(
                        pos,
                        tail,
                        cs,
                        crate::matcher::set_cap(caps, sl2, st2, pos),
                        sl,
                        st0,
                    );
                }
            },
            SNode::Ref(n) => {
                if 1 <= n && n - 1 < caps.len() {
                    match caps[n - 1] {
                        Some((s2, e2)) => {
                            if 0 <= s2 && s2 <= e2 && e2 <= cs.len() && 0 <= pos && pos + (e2
                                - s2) <= cs.len() && cs.subrange(pos, pos + (e2 - s2))
                                == cs.subrange(s2, e2) {
                                lemma_marker_seq(pos + (e2 - s2), tail, cs, caps, sl, st0);
                            }
                        },
                        None => {},
                    }
                }
            },
        }
    }
}

/// The marker-append law for greedy repetition: appending the marker to the
/// continuation changes neither success nor the end position.
proof fn lemma_marker_more(
    pos: int,
    inner: SNode,
    rest: Seq<SNode>,
    cs: Seq<char>,
    caps: Caps,
    sl: int,
    st0: int,
)
    requires
        0 <= sl,
    ensures
        same_outcome(
            match_more(pos, inner, rest + seq![SNode::CapEnd(sl, st0)], cs, caps),
            match_more(pos, inner, rest, cs, caps),
        ),
    decreases
            cs.len() - pos,
            1 + node_size(inner) + seq_size(rest + seq![SNode::CapEnd(sl, st0)]),
            0int,
            0int,
{
    let cnode = SNode::CapEnd(sl, st0);
    lemma_seq_size_single(cnode);
    lemma_seq_size_single(inner);
    lemma_seq_size_concat(rest, seq![cnode]);
    match match_seq(pos, seq![inner], cs, caps) {
        None => {},
        Some((p1, c1)) => {
            if p1 <= pos || p1 > cs.len() {
                lemma_marker_seq(pos, rest, cs, c1, sl, st0);
            } else {
                lemma_marker_more(p1, inner, rest, cs, c1, sl, st0);
                lemma_marker_seq(p1, rest, cs, c1, sl, st0);
            }
        },
    }
}

/// The marker-append law for a group's branches: appending the marker to the
/// continuation changes neither success nor the end position.
proof fn lemma_marker_alts(
    pos: int,
    slot: int,
    brs: Seq<Seq<SNode>>,
    j: int,
    tail: Seq<SNode>,
    cs: Seq<char>,
    caps: Caps,
    sl: int,
    st0: int,
)
    requires
        0 <= sl,
    ensures
        same_outcome(
            match_alts(pos, slot, brs, j, tail + seq![SNode::CapEnd(sl, st0)], cs, caps),
            match_alts(pos, slot, brs, j, tail, cs, caps),
        ),
    decreases
            cs.len() - pos,
            2 + branches_size(brs) + seq_size(tail + seq![SNode::CapEnd(sl, st0)]),
            0int,
            brs.len() - j,
{
    let cnode = SNode::CapEnd(sl, st0);
    let marker = SNode::CapEnd(slot, pos);
    lemma_seq_size_single(cnode);
    lemma_seq_size_single(marker);
    lemma_seq_size_concat(tail, seq![cnode]);
    if 0 <= j < brs.len() {
        lemma_branch_size_le(brs, j);
        lemma_seq_size_concat(seq![marker], tail);
        lemma_seq_size_concat(brs[j], seq![marker] + tail);
        lemma_seq_size_concat(brs[j] + (seq![marker] + tail), seq![cnode]);
        let composed = brs[j] + (seq![marker] + tail);
        assert(brs[j] + (seq![marker] + (tail + seq![cnode])) =~= composed + seq![cnode]);
        lemma_marker_seq(pos, composed, cs, caps, sl, st0);
        match match_seq(pos, composed, cs, caps) {
            Some(_) => {},
            None => {
                lemma_marker_alts(pos, slot, brs, j + 1, tail, cs, caps, sl, st0);
            },
        }
    }
}

/// A scan for a closing parenthesis over parenthesis-free text finds the
/// one that ends it.
proof fn lemma_find_close_clean(cs: Seq<char>, i: int, j: int)
    requires
        0 <= i <= j < cs.len(),
        forall|k: int| i <= k < j ==> #[trigger] cs[k] != '(' && cs[k] != ')',
        cs[j] == ')',
    ensures
        spec_find_close(cs, i, 0) == Some(j),
    decreases j - i,
{
    if i < j {
        assert(cs[i] != '(' && cs[i] != ')');
        lemma_find_close_clean(cs, i + 1, j);
    }
}

/// A scan for a top-level bar over bar-free text finds none.
proof fn lemma_find_bar_none(t: Seq<char>, i: int, depth: int)
    requires
        forall|k: int| i <= k < t.len() ==> #[trigger] t[k] != '|',
    ensures
        spec_find_bar(t, i, depth) is None,
    decreases t.len() - i,
{
    if 0 <= i < t.len() {
        let d2 = if t[i] == '(' {
            depth + 1
        } else if t[i] == ')' {
            depth - 1
        } else {
            depth
        };
        lemma_find_bar_none(t, i + 1, d2);
    }
}

/// An atom that opens no group neither reads nor moves the group counter.
proof fn lemma_atom_gid(cs: Seq<char>, i: int, g1: int, g2: int)
    requires
        0 <= i < cs.len(),
        cs[i] != '(',
    ensures
        match (spec_atom(cs, i, g1), spec_atom(cs, i, g2)) {
            (Ok((n1, ni1, ga)), Ok((n2, ni2, gb))) => n1 == n2 && ni1 == ni2 && ga == g1 && gb
                == g2,
            (Err(e1), Err(e2)) => e1 == e2,
            _ => false,
        },
{
}

/// A parenthesis-free pattern parses to the same nodes whatever the group
/// counter starts at, and leaves the counter untouched.
proof fn lemma_elems_gid(cs: Seq<char>, i: int, g1: int, g2: int)
    requires
        0 <= i,
        forall|k: int| i <= k < cs.len() ==> #[trigger] cs[k] != '(',
    ensures
        match (spec_elems(cs, i, g1), spec_elems(cs, i, g2)) {
            (Ok((ns1, ga)), Ok((ns2, gb))) => ns1 == ns2 && ga == g1 && gb == g2,
            (Err(e1), Err(e2)) => e1 == e2,
            _ => false,
        },
    decreases cs.len() - i,
{
    if 0 <= i < cs.len() && cs[i] != ')' {
        assert(cs[i] != '(');
        lemma_atom_gid(cs, i, g1, g2);
        match (spec_atom(cs, i, g1), spec_atom(cs, i, g2)) {
            (Ok((n0, ni, _)), Ok(_)) => {
                if i < ni <= cs.len() {
                    if ni < cs.len() && cs[ni] == '{' {
                        let ds = ni + 1;
                        lemma_digits_end_bounds(cs, ds);
                        let j2 = spec_digits_end(cs, ds);
                        if !(j2 >= cs.len() || cs[j2] != '}') && j2 != ds && spec_num(
                            cs.subrange(ds, j2),
                        ) <= usize::MAX {
                            lemma_elems_gid(cs, j2 + 1, g1, g2);
                        }
                    } else if ni < cs.len() && (cs[ni] == '+' || cs[ni] == '?' || cs[ni]
                        == '*') {
                        lemma_elems_gid(cs, ni + 1, g1, g2);
                    } else {
                        lemma_elems_gid(cs, ni, g1, g2);
                    }
                }
            },
            _ => {},
        }
    }
}

/// Group round trip: wrapping a pattern in a fresh pair of parentheses
/// leaves its matching unchanged, for a pattern that holds no parenthesis
/// or bar of its own (wrapping would renumber its groups or split it into
/// branches otherwise) and neither begins with `^` nor ends with an
/// unescaped `$`.  Parse failures carry over with the same error.
pub proof fn lemma_group_round_trip(s: Seq<char>, p: Seq<char>)
    requires
        forall|k: int|
            0 <= k < p.len() ==> #[trigger] p[k] != '(' && p[k] != ')' && p[k] != '|',
        !strip_start(p).0,
        !strip_end(p).0,
    ensures
        spec_is_match(s, seq!['('] + p + seq![')']) == spec_is_match(s, p),
{
    let pat = seq!['('] + p + seq![')'];
    let n = pat.len() as int;
    assert(pat[0] == '(');
    assert(pat[n - 1] == ')');
    assert(strip_start(pat).1 == pat);
    assert(strip_end(pat).1 == pat);
    assert(strip_start(p).1 == p);
    assert(strip_end(p).1 == p);
    assert forall|k: int| 1 <= k < n - 1 implies #[trigger] pat[k] != '(' && pat[k] != ')' by {
        assert(pat[k] == p[k - 1]);
    }
    lemma_find_close_clean(pat, 1, n - 1);
    let body = pat.subrange(1, n - 1);
    assert(body =~= p);
    assert forall|k: int| 0 <= k < p.len() implies #[trigger] p[k] != '|' by {}
    lemma_find_bar_none(p, 0, 0);
    assert forall|k: int| 0 <= k < p.len() implies #[trigger] p[k] != '(' by {}
    lemma_elems_gid(p, 0, 1, 0);
    match spec_elems(p, 0, 1) {
        Err(e) => {
            assert(spec_branches(p, 1) == Err::<(Seq<Seq<SNode>>, int), ParseError>(e));
            assert(spec_atom(pat, 0, 0) == Err::<(SNode, int, int), ParseError>(e));
            assert(spec_elems(pat, 0, 0) == Err::<(Seq<SNode>, int), ParseError>(e));
            assert(spec_elems(p, 0, 0) == Err::<(Seq<SNode>, int), ParseError>(e));
        },
        Ok((ns, g)) => {
            assert(spec_branches(p, 1) == Ok::<(Seq<Seq<SNode>>, int), ParseError>(
                (seq![ns], g),
            ));
            let capnode = SNode::Cap(1, seq![ns]);
            assert(spec_atom(pat, 0, 0) == Ok::<(SNode, int, int), ParseError>((capnode, n, g)));
            assert(spec_elems(pat, n, g) == Ok::<(Seq<SNode>, int), ParseError>(
                (Seq::empty(), g),
            ));
            let wrapped = seq![capnode] + Seq::<SNode>::empty();
            assert(wrapped =~= seq![capnode]);
            assert(spec_elems(pat, 0, 0) == Ok::<(Seq<SNode>, int), ParseError>((wrapped, g)));
            assert(spec_parse(pat) == Ok::<(Seq<SNode>, bool, bool), ParseError>(
                (wrapped, false, false),
            ));
            assert(spec_parse(p) == Ok::<(Seq<SNode>, bool, bool), ParseError>(
                (ns, false, false),
            ));
            assert forall|st: int|
                match_hit(s, wrapped, false, false, st) == match_hit(s, ns, false, false, st) by {
                assert(wrapped[0] == capnode);
                assert(wrapped.subrange(1, wrapped.len() as int) =~= Seq::<SNode>::empty());
                let marker = SNode::CapEnd(0, st);
                let composed = seq![ns][0] + (seq![marker] + Seq::<SNode>::empty());
                assert(composed =~= ns + seq![marker]);
                lemma_marker_seq(st, ns, s, Seq::empty(), 0, st);
                assert(same_outcome(
                    match_seq(st, composed, s, Seq::empty()),
                    match_seq(st, ns, s, Seq::empty()),
                ));
                let tailw = wrapped.subrange(1, wrapped.len() as int);
                assert(match_alts(st, 0, seq![ns], 1, tailw, s, Seq::empty()) is None);
                assert(seq![ns][0] + (seq![marker] + tailw) == composed);
                assert(match_seq(st, wrapped, s, Seq::empty()) == match_alts(
                    st,
                    0,
                    seq![ns],
                    0,
                    tailw,
                    s,
                    Seq::empty(),
                ));
                assert((match_seq(st, wrapped, s, Seq::empty()) is Some) == (match_seq(
                    st,
                    ns,
                    s,
                    Seq::empty(),
                ) is Some));
            }
            if any_hit(s, wrapped, false, false) {
                let st = choose|st: int| match_hit(s, wrapped, false, false, st);
                assert(match_hit(s, ns, false, false, st));
                assert(any_hit(s, ns, false, false));
            }
            if any_hit(s, ns, false, false) {
                let st = choose|st: int| match_hit(s, ns, false, false, st);
                assert(match_hit(s, wrapped, false, false, st));
                assert(any_hit(s, wrapped, false, false));
            }
        },
    }
}

} // verus!
