//! The backtracking match engine.
//!
//! `match_seq` is the mathematical semantics: a total function giving the
//! greedy-left-first result of matching a node sequence against an input
//! from a position, threading a capture table.  The executable [`match_from`]
//! returns exactly that result.  Greedy repetition that makes no progress is
//! cut off after one round, so the engine terminates on every pattern.

use vstd::prelude::*;
use crate::parser::{parse, spec_parse, ParseError};
use crate::ast::{
    branches_size, lemma_branch_size_le, lemma_node_size_pos, lemma_seq_size_concat, node_size,
    rep_branches, rep_node, rep_seq, seq_size, Node, SNode,
};

verus! {

/// A capture table: slot `i` holds the span captured by group `i + 1`.
pub type Caps = Seq<Option<(int, int)>>;

/// Does a single-character node accept the character `c`?
pub open spec fn atom_accepts(n: SNode, c: char) -> bool {
    match n {
        SNode::Lit(l) => c == l,
        SNode::Digit => is_digit(c),
        SNode::Word => is_word(c),
        SNode::Any => true,
        SNode::Pos(s) => s.contains(c),
        SNode::Neg(s) => !s.contains(c),
        _ => false,
    }
}

/// An ASCII decimal digit.
pub open spec fn is_digit(c: char) -> bool {
    48 <= c as int && c as int <= 57
}

/// An ASCII letter, digit or underscore.
pub open spec fn is_word(c: char) -> bool {
    is_digit(c) || (65 <= c as int && c as int <= 90) || (97 <= c as int && c as int <= 122)
        || c == '_'
}

/// Is `n` one of the nodes that consume exactly one character?
pub open spec fn is_atom(n: SNode) -> bool {
    match n {
        SNode::Lit(_) | SNode::Digit | SNode::Word | SNode::Any | SNode::Pos(_) | SNode::Neg(
            _,
        ) => true,
        _ => false,
    }
}

/// The capture table `caps`, grown with empty slots as needed so that slot
/// `slot` exists, with that slot set to the span `[start, end)`.
pub open spec fn set_cap(caps: Caps, slot: int, start: int, end: int) -> Caps {
    let grown = if caps.len() > slot {
        caps
    } else {
        caps + Seq::new((slot + 1 - caps.len()) as nat, |i: int| None)
    };
    grown.update(slot, Some((start, end)))
}

/// Every recorded span lies inside an input of length `n`.
pub open spec fn caps_wf(caps: Caps, n: int) -> bool {
    forall|i: int|
        0 <= i < caps.len() ==> match #[trigger] caps[i] {
            Some(p) => 0 <= p.0 && p.0 <= p.1 && p.1 <= n,
            None => true,
        }
}

/// A node as the parser produces it: group ids are positive, back-references
/// are positive, and no `CapEnd` marker occurs anywhere inside.
pub open spec fn node_ok(n: SNode) -> bool
    decreases n,
{
    match n {
        SNode::Opt(b) => node_ok(*b),
        SNode::Plus(b) => node_ok(*b),
        SNode::Star(b) => node_ok(*b),
        SNode::Rep(b, _) => node_ok(*b),
        SNode::Cap(id, brs) => 1 <= id <= usize::MAX && branches_ok(brs),
        SNode::CapEnd(_, _) => false,
        SNode::Ref(r) => 1 <= r,
        _ => true,
    }
}

/// Every node of the sequence satisfies [`node_ok`].
pub open spec fn nodes_ok(ns: Seq<SNode>) -> bool
    decreases ns,
{
    if ns.len() == 0 {
        true
    } else {
        node_ok(ns[0]) && nodes_ok(ns.subrange(1, ns.len() as int))
    }
}

/// Every branch of a group satisfies [`nodes_ok`].
pub open spec fn branches_ok(brs: Seq<Seq<SNode>>) -> bool
    decreases brs,
{
    if brs.len() == 0 {
        true
    } else {
        nodes_ok(brs[0]) && branches_ok(brs.subrange(1, brs.len() as int))
    }
}

/// A sequence the matcher may still have to run from position `pos`: parser
/// nodes, except that at the top level `CapEnd` markers may occur, each
/// recording a group start at or before `pos` and a slot a machine word can
/// count past.
pub open spec fn running_ok(ns: Seq<SNode>, pos: int) -> bool {
    forall|i: int|
        0 <= i < ns.len() ==> match #[trigger] ns[i] {
            SNode::CapEnd(slot, start) => 0 <= start <= pos && 0 <= slot < usize::MAX,
            _ => node_ok(ns[i]),
        }
}

/// The greedy backtracking match of `ns` against `cs` from `pos`: `None` on
/// failure, or the end position (exclusive) and the updated capture table.
///
/// Greedy repetition stops after a round that consumed nothing, which keeps
/// the function total; the guards against a step that moved backwards or past
/// the end of the input are never taken for results the engine produces.
pub open spec fn match_seq(pos: int, ns: Seq<SNode>, cs: Seq<char>, caps: Caps) -> Option<
    (int, Caps),
>
    decreases cs.len() - pos, seq_size(ns), 1int, 0int,
{
    if ns.len() == 0 {
        Some((pos, caps))
    } else {
        let head = ns[0];
        let tail = ns.subrange(1, ns.len() as int);
        proof {
            lemma_node_size_pos(head);
            assert(seq_size(ns) == node_size(head) + seq_size(tail));
        }
        if is_atom(head) {
            if 0 <= pos && pos < cs.len() && atom_accepts(head, cs[pos]) {
                match_seq(pos + 1, tail, cs, caps)
            } else {
                None
            }
        } else {
            match head {
                SNode::Opt(b) => {
                    proof {
                        lemma_seq_size_single(*b);
                        assert(node_size(head) == 1 + node_size(*b));
                    }
                    match match_seq(pos, seq![*b], cs, caps) {
                        Some((p1, c1)) => {
                            if pos <= p1 && p1 <= cs.len() {
                                match match_seq(p1, tail, cs, c1) {
                                    Some(r) => Some(r),
                                    None => match_seq(pos, tail, cs, caps),
                                }
                            } else {
                                None
                            }
                        },
                        None => match_seq(pos, tail, cs, caps),
                    }
                },
                SNode::Plus(b) => {
                    proof {
                        assert(node_size(head) == 1 + node_size(*b));
                    }
                    match_more(pos, *b, tail, cs, caps)
                },
                SNode::Star(b) => {
                    proof {
                        assert(node_size(head) == 1 + node_size(*b));
                    }
                    match match_more(pos, *b, tail, cs, caps) {
                        Some(r) => Some(r),
                        None => match_seq(pos, tail, cs, caps),
                    }
                },
                SNode::Rep(b, k) => {
                    if k <= 0 {
                        match_seq(pos, tail, cs, caps)
                    } else {
                        proof {
                            lemma_seq_size_single(*b);
                            lemma_rep_size_step(b, k);
                            lemma_seq_size_single(SNode::Rep(b, k - 1));
                            lemma_seq_size_concat(seq![SNode::Rep(b, k - 1)], tail);
                        }
                        match match_seq(pos, seq![*b], cs, caps) {
                            Some((p1, c1)) => {
                                if pos <= p1 && p1 <= cs.len() {
                                    match_seq(
                                        p1,
                                        seq![SNode::Rep(b, k - 1)] + tail,
                                        cs,
                                        c1,
                                    )
                                } else {
                                    None
                                }
                            },
                            None => None,
                        }
                    }
                },
                SNode::Cap(id, brs) => {
                    proof {
                        assert(node_size(head) == 2 + branches_size(brs));
                    }
                    match_alts(pos, id - 1, brs, 0, tail, cs, caps)
                },
                SNode::CapEnd(slot, start) => {
                    if 0 <= slot {
                        match_seq(pos, tail, cs, set_cap(caps, slot, start, pos))
                    } else {
                        None
                    }
                },
                SNode::Ref(n) => {
                    if 1 <= n && n - 1 < caps.len() {
                        match caps[n - 1] {
                            Some((s, e)) => {
                                if 0 <= s && s <= e && e <= cs.len() && 0 <= pos && pos + (e - s)
                                    <= cs.len() && cs.subrange(pos, pos + (e - s)) == cs.subrange(
                                    s,
                                    e,
                                ) {
                                    match_seq(pos + (e - s), tail, cs, caps)
                                } else {
                                    None
                                }
                            },
                            None => None,
                        }
                    } else {
                        None
                    }
                },
                _ => None,
            }
        }
    }
}

/// Greedy repetition of `inner`, then the continuation `rest`: one round of
/// `inner` is required; afterwards more rounds are preferred over `rest`.  A
/// round that consumed nothing ends the repetition.
pub open spec fn match_more(pos: int, inner: SNode, rest: Seq<SNode>, cs: Seq<char>, caps: Caps)
    -> Option<(int, Caps)>
    decreases cs.len() - pos, 1 + node_size(inner) + seq_size(rest), 0int, 0int,
{
    proof {
        lemma_seq_size_single(inner);
    }
    match match_seq(pos, seq![inner], cs, caps) {
        None => None,
        Some((p1, c1)) => {
            if p1 <= pos || p1 > cs.len() {
                match_seq(pos, rest, cs, c1)
            } else {
                match match_more(p1, inner, rest, cs, c1) {
                    Some(r) => Some(r),
                    None => match_seq(p1, rest, cs, c1),
                }
            }
        },
    }
}

/// The alternatives of a group, tried in source order from branch `j`: each
/// branch runs with the group's `CapEnd` marker and the continuation `tail`
/// appended, and the first success wins.
pub open spec fn match_alts(
    pos: int,
    slot: int,
    brs: Seq<Seq<SNode>>,
    j: int,
    tail: Seq<SNode>,
    cs: Seq<char>,
    caps: Caps,
) -> Option<(int, Caps)>
    decreases cs.len() - pos, 2 + branches_size(brs) + seq_size(tail), 0int, brs.len() - j,
{
    if j < 0 || j >= brs.len() {
        None
    } else {
        proof {
            lemma_branch_size_le(brs, j);
            lemma_seq_size_concat(brs[j], seq![SNode::CapEnd(slot, pos)] + tail);
            lemma_seq_size_concat(seq![SNode::CapEnd(slot, pos)], tail);
            lemma_seq_size_single(SNode::CapEnd(slot, pos));
            assert(node_size(SNode::CapEnd(slot, pos)) == 1);
        }
        match match_seq(pos, brs[j] + (seq![SNode::CapEnd(slot, pos)] + tail), cs, caps) {
            Some(r) => Some(r),
            None => match_alts(pos, slot, brs, j + 1, tail, cs, caps),
        }
    }
}

/// A one-node sequence weighs as much as its node.
pub proof fn lemma_seq_size_single(n: SNode)
    ensures
        seq_size(seq![n]) == node_size(n),
{
    let s = seq![n];
    assert(s[0] == n);
    assert(s.subrange(1, 1) =~= Seq::<SNode>::empty());
    assert(seq_size(Seq::<SNode>::empty()) == 0);
    assert(seq_size(s) == node_size(n) + seq_size(s.subrange(1, 1)));
}

/// Unrolling one round of a repetition shrinks its weight.
pub proof fn lemma_rep_size_step(b: Box<SNode>, k: int)
    requires
        k >= 1,
    ensures
        node_size(SNode::Rep(b, k - 1)) + (node_size(*b) + 1) == node_size(SNode::Rep(b, k)),
        node_size(*b) < node_size(SNode::Rep(b, k)),
{
    let s = node_size(*b);
    assert((s + 1) * (1 + (k - 1) as nat) + (s + 1) == (s + 1) * (1 + k as nat))
        by (nonlinear_arith)
        requires k >= 1;
    assert(s < 1 + (s + 1) * (1 + k as nat)) by (nonlinear_arith)
        requires k >= 1;
}

/// The mathematical value of an executable capture table.
pub open spec fn rep_caps(c: Seq<Option<(usize, usize)>>) -> Caps {
    Seq::new(
        c.len(),
        |i: int| match c[i] {
            Some(p) => Some((p.0 as int, p.1 as int)),
            None => None,
        },
    )
}

/// The executable result `r` is exactly the mathematical result `sm`, and a
/// successful end position lies between `pos` and the input length `n` with a
/// well-formed capture table.
pub open spec fn reflects(
    sm: Option<(int, Caps)>,
    r: Option<(usize, Vec<Option<(usize, usize)>>)>,
    pos: int,
    n: int,
) -> bool {
    match r {
        None => sm is None,
        Some((e, c)) => sm == Some((e as int, rep_caps(c@))) && pos <= e as int && e as int <= n
            && caps_wf(rep_caps(c@), n),
    }
}

/// Each node of a well-formed sequence is well formed.
pub proof fn lemma_nodes_ok_index(ns: Seq<SNode>, i: int)
    requires
        nodes_ok(ns),
        0 <= i < ns.len(),
    ensures
        node_ok(ns[i]),
    decreases i,
{
    if i > 0 {
        lemma_nodes_ok_index(ns.subrange(1, ns.len() as int), i - 1);
        assert(ns.subrange(1, ns.len() as int)[i - 1] == ns[i]);
    }
}

/// Each branch of a well-formed branch list is well formed.
pub proof fn lemma_branches_ok_index(brs: Seq<Seq<SNode>>, j: int)
    requires
        branches_ok(brs),
        0 <= j < brs.len(),
    ensures
        nodes_ok(brs[j]),
    decreases j,
{
    if j > 0 {
        lemma_branches_ok_index(brs.subrange(1, brs.len() as int), j - 1);
        assert(brs.subrange(1, brs.len() as int)[j - 1] == brs[j]);
    }
}

/// A runnable sequence stays runnable at any later position.
pub proof fn lemma_running_ok_widen(ns: Seq<SNode>, p: int, q: int)
    requires
        running_ok(ns, p),
        p <= q,
    ensures
        running_ok(ns, q),
{
}

/// Dropping the head of a runnable sequence leaves a runnable sequence.
pub proof fn lemma_running_ok_tail(ns: Seq<SNode>, p: int)
    requires
        running_ok(ns, p),
        ns.len() > 0,
    ensures
        running_ok(ns.subrange(1, ns.len() as int), p),
{
    let t = ns.subrange(1, ns.len() as int);
    assert forall|i: int| 0 <= i < t.len() implies t[i] == ns[i + 1] by {}
}

/// Setting a span inside the input keeps the capture table well formed.
pub proof fn lemma_set_cap_wf(caps: Caps, slot: int, start: int, end: int, n: int)
    requires
        caps_wf(caps, n),
        0 <= slot,
        0 <= start <= end <= n,
    ensures
        caps_wf(set_cap(caps, slot, start, end), n),
{
    let grown = if caps.len() > slot {
        caps
    } else {
        caps + Seq::new((slot + 1 - caps.len()) as nat, |i: int| None)
    };
    assert forall|i: int| 0 <= i < grown.len() implies match #[trigger] grown[i] {
        Some(p) => 0 <= p.0 && p.0 <= p.1 && p.1 <= n,
        None => true,
    } by {
        if i < caps.len() {
            assert(grown[i] == caps[i]);
        }
    }
}

/// Copies a character vector.
fn clone_chars(v: &Vec<char>) -> (r: Vec<char>)
    ensures
        r@ == v@,
{
    let mut out: Vec<char> = Vec::new();
    let mut i: usize = 0;
    while i < v.len()
        invariant
            i <= v@.len(),
            out@ == v@.subrange(0, i as int),
        decreases v@.len() - i,
    {
        out.push(v[i]);
        proof {
            assert(out@ =~= v@.subrange(0, i + 1));
        }
        i = i + 1;
    }
    proof {
        assert(out@ =~= v@);
    }
    out
}

/// Copies a node, preserving its mathematical value.
fn clone_node(n: &Node) -> (r: Node)
    ensures
        rep_node(r) == rep_node(*n),
    decreases n,
{
    match n {
        Node::Lit(c) => Node::Lit(*c),
        Node::Digit => Node::Digit,
        Node::Word => Node::Word,
        Node::Any => Node::Any,
        Node::Pos(s) => Node::Pos(clone_chars(s)),
        Node::Neg(s) => Node::Neg(clone_chars(s)),
        Node::Opt(b) => Node::Opt(Box::new(clone_node(&**b))),
        Node::Plus(b) => Node::Plus(Box::new(clone_node(&**b))),
        Node::Star(b) => Node::Star(Box::new(clone_node(&**b))),
        Node::Rep(b, k) => Node::Rep(Box::new(clone_node(&**b)), *k),
        Node::Cap(id, brs) => {
            let cb = clone_branches(brs);
            proof {
                assert(rep_branches(cb@) =~= rep_branches(brs@));
            }
            Node::Cap(*id, cb)
        },
        Node::CapEnd(slot, start) => Node::CapEnd(*slot, *start),
        Node::Ref(k) => Node::Ref(*k),
    }
}

/// Copies a node vector, preserving each node's mathematical value.
fn clone_vec(v: &Vec<Node>) -> (r: Vec<Node>)
    ensures
        r@.len() == v@.len(),
        forall|i: int| 0 <= i < v@.len() ==> rep_node(#[trigger] r@[i]) == rep_node(v@[i]),
    decreases v,
{
    let mut out: Vec<Node> = Vec::new();
    let mut i: usize = 0;
    while i < v.len()
        invariant
            i <= v@.len(),
            out@.len() == i,
            forall|k: int| 0 <= k < i ==> rep_node(#[trigger] out@[k]) == rep_node(v@[k]),
        decreases v@.len() - i,
    {
        out.push(clone_node(&v[i]));
        i = i + 1;
    }
    out
}

/// Copies a branch list, preserving each branch's mathematical value.
fn clone_branches(b: &Vec<Vec<Node>>) -> (r: Vec<Vec<Node>>)
    ensures
        r@.len() == b@.len(),
        forall|i: int| 0 <= i < b@.len() ==> rep_seq(#[trigger] r@[i]@) == rep_seq(b@[i]@),
    decreases b,
{
    let mut out: Vec<Vec<Node>> = Vec::new();
    let mut i: usize = 0;
    while i < b.len()
        invariant
            i <= b@.len(),
            out@.len() == i,
            forall|k: int| 0 <= k < i ==> rep_seq(#[trigger] out@[k]@) == rep_seq(b@[k]@),
        decreases b@.len() - i,
    {
        let cv = clone_vec(&b[i]);
        proof {
            assert(rep_seq(cv@) =~= rep_seq(b@[i as int]@));
        }
        out.push(cv);
        i = i + 1;
    }
    out
}

/// Copies a capture table.
fn clone_caps(v: &Vec<Option<(usize, usize)>>) -> (r: Vec<Option<(usize, usize)>>)
    ensures
        r@ == v@,
{
    let mut out: Vec<Option<(usize, usize)>> = Vec::new();
    let mut i: usize = 0;
    while i < v.len()
        invariant
            i <= v@.len(),
            out@ == v@.subrange(0, i as int),
        decreases v@.len() - i,
    {
        out.push(v[i]);
        proof {
            assert(out@ =~= v@.subrange(0, i + 1));
        }
        i = i + 1;
    }
    proof {
        assert(out@ =~= v@);
    }
    out
}

/// Does the character vector contain `c`?
fn contains_char(v: &Vec<char>, c: char) -> (r: bool)
    ensures
        r == v@.contains(c),
{
    let mut i: usize = 0;
    while i < v.len()
        invariant
            i <= v@.len(),
            forall|k: int| 0 <= k < i ==> v@[k] != c,
        decreases v@.len() - i,
    {
        if v[i] == c {
            proof {
                assert(v@[i as int] == c);
            }
            return true;
        }
        i = i + 1;
    }
    proof {
        assert(!v@.contains(c));
    }
    false
}

/// Does the single-character node `n` accept `c`?
fn char_accepts(n: &Node, c: char) -> (r: bool)
    ensures
        r == atom_accepts(rep_node(*n), c),
{
    match n {
        Node::Lit(l) => c == *l,
        Node::Digit => {
            let u = c as u32;
            48 <= u && u <= 57
        },
        Node::Word => {
            let u = c as u32;
            (48 <= u && u <= 57) || (65 <= u && u <= 90) || (97 <= u && u <= 122) || c == '_'
        },
        Node::Any => true,
        Node::Pos(s) => contains_char(s, c),
        Node::Neg(s) => !contains_char(s, c),
        _ => false,
    }
}

/// Grows the capture table up to `slot` and records the span `[start, end)`.
fn set_cap_exec(caps: Vec<Option<(usize, usize)>>, slot: usize, start: usize, end: usize) -> (r:
    Vec<Option<(usize, usize)>>)
    requires
        slot < usize::MAX,
    ensures
        rep_caps(r@) == set_cap(rep_caps(caps@), slot as int, start as int, end as int),
{
    let ghost orig = caps@;
    let mut c = caps;
    while c.len() <= slot
        invariant
            slot < usize::MAX,
            c@.len() >= orig.len(),
            c@.subrange(0, orig.len() as int) == orig,
            forall|k: int| orig.len() <= k < c@.len() ==> c@[k] is None,
            c@.len() <= slot + 1 || c@.len() == orig.len(),
        decreases slot + 1 - c@.len(),
    {
        c.push(None);
        proof {
            assert(c@.subrange(0, orig.len() as int) =~= orig);
        }
    }
    c[slot] = Some((start, end));
    proof {
        let grown = if orig.len() > slot {
            rep_caps(orig)
        } else {
            rep_caps(orig) + Seq::new((slot + 1 - orig.len()) as nat, |i: int| None)
        };
        assert forall|i: int| 0 <= i < c@.len() implies rep_caps(c@)[i] == grown.update(
            slot as int,
            Some((start as int, end as int)),
        )[i] by {
            if i != slot && i < orig.len() {
                assert(c@[i] == orig[i]);
            }
        }
        assert(rep_caps(c@) =~= grown.update(slot as int, Some((start as int, end as int))));
    }
    c
}

/// Are the two ranges `[a, a + n)` and `[b, b + n)` of `cs` equal?
fn eq_range(cs: &Vec<char>, a: usize, b: usize, n: usize) -> (r: bool)
    requires
        a + n <= cs@.len(),
        b + n <= cs@.len(),
    ensures
        r == (cs@.subrange(a as int, a + n) == cs@.subrange(b as int, b + n)),
{
    let m = cs.len();
    let mut i: usize = 0;
    while i < n
        invariant
            i <= n,
            m == cs@.len(),
            a + n <= cs@.len(),
            b + n <= cs@.len(),
            forall|k: int| 0 <= k < i ==> #[trigger] cs@[a + k] == cs@[b + k],
        decreases n - i,
    {
        if cs[a + i] != cs[b + i] {
            proof {
                assert(cs@.subrange(a as int, a + n)[i as int] != cs@.subrange(b as int, b + n)[
                    i as int
                ]);
            }
            return false;
        }
        i = i + 1;
    }
    proof {
        assert forall|j: int| 0 <= j < n implies #[trigger] cs@.subrange(a as int, a + n)[j]
            == cs@.subrange(b as int, b + n)[j] by {
            assert(cs@[a + j] == cs@[b + j]);
        }
        assert(cs@.subrange(a as int, a + n) =~= cs@.subrange(b as int, b + n));
    }
    true
}

/// A node-for-node copy of a suffix has the suffix's mathematical value.
pub proof fn lemma_rep_seq_suffix(rv: Seq<Node>, v: Seq<Node>, from: int)
    requires
        0 <= from <= v.len(),
        rv.len() == v.len() - from,
        forall|i: int| 0 <= i < rv.len() ==> rep_node(#[trigger] rv[i]) == rep_node(v[from + i]),
    ensures
        rep_seq(rv) == rep_seq(v).subrange(from, v.len() as int),
{
    let a = rep_seq(rv);
    let b = rep_seq(v).subrange(from, v.len() as int);
    assert forall|i: int| 0 <= i < a.len() implies a[i] == b[i] by {
        assert(rep_node(rv[i]) == rep_node(v[from + i]));
    }
    assert(a =~= b);
}

/// Copies the nodes of `v` from index `from` on.
fn clone_from(v: &Vec<Node>, from: usize) -> (r: Vec<Node>)
    requires
        from <= v@.len(),
    ensures
        r@.len() == v@.len() - from,
        forall|i: int| 0 <= i < r@.len() ==> rep_node(#[trigger] r@[i]) == rep_node(v@[from + i]),
        rep_seq(r@) == rep_seq(v@).subrange(from as int, v@.len() as int),
    decreases v,
{
    let mut out: Vec<Node> = Vec::new();
    let mut i: usize = from;
    while i < v.len()
        invariant
            from <= i <= v@.len(),
            out@.len() == i - from,
            forall|k: int|
                0 <= k < out@.len() ==> rep_node(#[trigger] out@[k]) == rep_node(v@[from + k]),
        decreases v@.len() - i,
    {
        out.push(clone_node(&v[i]));
        i = i + 1;
    }
    proof {
        lemma_rep_seq_suffix(out@, v@, from as int);
    }
    out
}

/// A one-node vector holding a copy of `n`.
fn singleton(n: &Node) -> (r: Vec<Node>)
    ensures
        rep_seq(r@) == seq![rep_node(*n)],
{
    let mut v: Vec<Node> = Vec::new();
    v.push(clone_node(n));
    proof {
        assert(rep_seq(v@) =~= seq![rep_node(*n)]);
    }
    v
}

/// The vector `[head] + tail`, with `tail` copied node for node.
fn compose_head(head: Node, tail: &Vec<Node>) -> (r: Vec<Node>)
    ensures
        rep_seq(r@) == seq![rep_node(head)] + rep_seq(tail@),
    decreases tail,
{
    let ghost headr = rep_node(head);
    let mut out: Vec<Node> = Vec::new();
    out.push(head);
    let mut i: usize = 0;
    while i < tail.len()
        invariant
            i <= tail@.len(),
            out@.len() == 1 + i,
            rep_node(out@[0]) == headr,
            forall|k: int|
                0 <= k < i ==> rep_node(#[trigger] out@[1 + k]) == rep_node(tail@[k]),
        decreases tail@.len() - i,
    {
        out.push(clone_node(&tail[i]));
        i = i + 1;
    }
    proof {
        let a = rep_seq(out@);
        let b = seq![headr] + rep_seq(tail@);
        assert forall|k: int| 0 <= k < a.len() implies a[k] == b[k] by {
            if k > 0 {
                assert(rep_node(out@[1 + (k - 1)]) == rep_node(tail@[k - 1]));
            }
        }
        assert(a =~= b);
    }
    out
}

/// The composed sequence a group branch runs on: the branch, the group's
/// `CapEnd` marker for `slot` with start `pos`, then the continuation.
fn compose_branch(branch: &Vec<Node>, slot: usize, pos: usize, tail: &Vec<Node>) -> (r: Vec<Node>)
    ensures
        rep_seq(r@) == rep_seq(branch@) + (seq![SNode::CapEnd(slot as int, pos as int)] + rep_seq(
            tail@,
        )),
{
    let mut out = clone_vec(branch);
    let ghost blen = branch@.len() as int;
    out.push(Node::CapEnd(slot, pos));
    let mut i: usize = 0;
    while i < tail.len()
        invariant
            i <= tail@.len(),
            blen == branch@.len() as int,
            out@.len() == blen + 1 + i,
            forall|k: int|
                0 <= k < blen ==> rep_node(#[trigger] out@[k]) == rep_node(branch@[k]),
            rep_node(out@[blen]) == SNode::CapEnd(slot as int, pos as int),
            forall|k: int|
                0 <= k < i ==> rep_node(#[trigger] out@[blen + 1 + k]) == rep_node(tail@[k]),
        decreases tail@.len() - i,
    {
        out.push(clone_node(&tail[i]));
        i = i + 1;
    }
    proof {
        let a = rep_seq(out@);
        let b = rep_seq(branch@) + (seq![SNode::CapEnd(slot as int, pos as int)] + rep_seq(tail@));
        assert forall|k: int| 0 <= k < a.len() implies a[k] == b[k] by {
            if k > blen {
                assert(rep_node(out@[blen + 1 + (k - blen - 1)]) == rep_node(tail@[k - blen - 1]));
            }
        }
        assert(a =~= b);
    }
    out
}

/// Attempts to match the node sequence against `cs` from position `pos` with
/// the given capture table, returning the end position and updated captures
/// of the greedy-left-first match, exactly as [`match_seq`] describes.
pub fn match_from(
    pos: usize,
    nodes: &Vec<Node>,
    cs: &Vec<char>,
    caps: Vec<Option<(usize, usize)>>,
) -> (r: Option<(usize, Vec<Option<(usize, usize)>>)>)
    requires
        pos <= cs@.len(),
        caps_wf(rep_caps(caps@), cs@.len() as int),
        running_ok(rep_seq(nodes@), pos as int),
    ensures
        reflects(
            match_seq(pos as int, rep_seq(nodes@), cs@, rep_caps(caps@)),
            r,
            pos as int,
            cs@.len() as int,
        ),
    decreases cs@.len() - pos, seq_size(rep_seq(nodes@)), 1int, 0int,
{
    let ghost nsr = rep_seq(nodes@);
    let ghost capsr = rep_caps(caps@);
    let ghost sm = match_seq(pos as int, nsr, cs@, capsr);
    if nodes.len() == 0 {
        return Some((pos, caps));
    }
    let ghost tailr = nsr.subrange(1, nsr.len() as int);
    proof {
        assert(nsr[0] == rep_node(nodes@[0]));
        lemma_node_size_pos(nsr[0]);
        assert(seq_size(nsr) == node_size(nsr[0]) + seq_size(tailr));
        lemma_running_ok_tail(nsr, pos as int);
    }
    let head = &nodes[0];
    match head {
        Node::Lit(_) | Node::Digit | Node::Word | Node::Any | Node::Pos(_) | Node::Neg(_) => {
            if pos < cs.len() && char_accepts(head, cs[pos]) {
                let tailv = clone_from(nodes, 1);
                proof {
                    lemma_running_ok_widen(tailr, pos as int, pos + 1);
                }
                match_from(pos + 1, &tailv, cs, caps)
            } else {
                None
            }
        },
        Node::Opt(b) => {
            let iv = singleton(&**b);
            proof {
                lemma_seq_size_single(rep_node(**b));
                assert(node_ok(nsr[0]));
                assert(node_ok(rep_node(**b)));
                assert(running_ok(seq![rep_node(**b)], pos as int));
            }
            let caps_try = clone_caps(&caps);
            let tailv = clone_from(nodes, 1);
            match match_from(pos, &iv, cs, caps_try) {
                Some((p1, c1)) => {
                    proof {
                        lemma_running_ok_widen(tailr, pos as int, p1 as int);
                    }
                    match match_from(p1, &tailv, cs, c1) {
                        Some(rr) => Some(rr),
                        None => match_from(pos, &tailv, cs, caps),
                    }
                },
                None => match_from(pos, &tailv, cs, caps),
            }
        },
        Node::Plus(b) => {
            let tailv = clone_from(nodes, 1);
            more_reps(pos, &**b, &tailv, cs, caps)
        },
        Node::Star(b) => {
            let tailv = clone_from(nodes, 1);
            let caps_try = clone_caps(&caps);
            match more_reps(pos, &**b, &tailv, cs, caps_try) {
                Some(rr) => Some(rr),
                None => match_from(pos, &tailv, cs, caps),
            }
        },
        Node::Rep(b, k) => {
            let tailv = clone_from(nodes, 1);
            if *k == 0 {
                match_from(pos, &tailv, cs, caps)
            } else {
                let iv = singleton(&**b);
                proof {
                    lemma_seq_size_single(rep_node(**b));
                    assert(nsr[0] == SNode::Rep(Box::new(rep_node(**b)), *k as int));
                    lemma_rep_size_step(Box::new(rep_node(**b)), *k as int);
                    assert(node_ok(nsr[0]));
                    assert(node_ok(rep_node(**b)));
                    assert(running_ok(seq![rep_node(**b)], pos as int));
                }
                match match_from(pos, &iv, cs, caps) {
                    Some((p1, c1)) => {
                        let next = Node::Rep(Box::new(clone_node(&**b)), *k - 1);
                        let comp = compose_head(next, &tailv);
                        proof {
                            lemma_seq_size_single(rep_node(next));
                            lemma_seq_size_concat(seq![rep_node(next)], tailr);
                            lemma_rep_size_step(Box::new(rep_node(**b)), *k as int);
                            lemma_running_ok_widen(tailr, pos as int, p1 as int);
                        }
                        match_from(p1, &comp, cs, c1)
                    },
                    None => None,
                }
            }
        },
        Node::Cap(id, brs) => {
            let tailv = clone_from(nodes, 1);
            match_alts_exec(pos, *id - 1, brs, 0, &tailv, cs, caps)
        },
        Node::CapEnd(slot, start) => {
            proof {
                assert(match nsr[0] {
                    SNode::CapEnd(sl, st) => 0 <= st <= pos as int && 0 <= sl < usize::MAX,
                    _ => node_ok(nsr[0]),
                });
            }
            let newcaps = set_cap_exec(caps, *slot, *start, pos);
            proof {
                lemma_set_cap_wf(capsr, *slot as int, *start as int, pos as int, cs@.len() as int);
            }
            let tailv = clone_from(nodes, 1);
            match_from(pos, &tailv, cs, newcaps)
        },
        Node::Ref(nid) => {
            proof {
                assert(node_ok(nsr[0]));
            }
            if *nid - 1 < caps.len() {
                let entry = caps[*nid - 1];
                match entry {
                    Some((s, e)) => {
                        proof {
                            assert(capsr[*nid as int - 1] == Some((s as int, e as int)));
                        }
                        let l = e - s;
                        if l <= cs.len() - pos && eq_range(cs, pos, s, l) {
                            let tailv = clone_from(nodes, 1);
                            proof {
                                lemma_running_ok_widen(tailr, pos as int, pos + l);
                            }
                            match_from(pos + l, &tailv, cs, caps)
                        } else {
                            None
                        }
                    },
                    None => None,
                }
            } else {
                None
            }
        },
    }
}

/// One or more greedy rounds of `inner`, then the continuation `rest`,
/// exactly as [`match_more`] describes.
fn more_reps(
    pos: usize,
    inner: &Node,
    rest: &Vec<Node>,
    cs: &Vec<char>,
    caps: Vec<Option<(usize, usize)>>,
) -> (r: Option<(usize, Vec<Option<(usize, usize)>>)>)
    requires
        pos <= cs@.len(),
        caps_wf(rep_caps(caps@), cs@.len() as int),
        node_ok(rep_node(*inner)),
        running_ok(rep_seq(rest@), pos as int),
    ensures
        reflects(
            match_more(pos as int, rep_node(*inner), rep_seq(rest@), cs@, rep_caps(caps@)),
            r,
            pos as int,
            cs@.len() as int,
        ),
    decreases
            cs@.len() - pos,
            1 + node_size(rep_node(*inner)) + seq_size(rep_seq(rest@)),
            0int,
            0int,
{
    let ghost innr = rep_node(*inner);
    let ghost restr = rep_seq(rest@);
    let ghost capsr = rep_caps(caps@);
    let ghost mm = match_more(pos as int, innr, restr, cs@, capsr);
    let iv = singleton(inner);
    proof {
        lemma_seq_size_single(innr);
    }
    let caps_try = clone_caps(&caps);
    match match_from(pos, &iv, cs, caps_try) {
        None => None,
        Some((p1, c1)) => {
            if p1 <= pos {
                match_from(pos, rest, cs, c1)
            } else {
                proof {
                    lemma_running_ok_widen(restr, pos as int, p1 as int);
                }
                let c1b = clone_caps(&c1);
                match more_reps(p1, inner, rest, cs, c1) {
                    Some(rr) => Some(rr),
                    None => match_from(p1, rest, cs, c1b),
                }
            }
        },
    }
}

/// The branches of a group from branch `j` on, each run with the group's
/// `CapEnd` marker and the continuation appended, exactly as [`match_alts`]
/// describes.
fn match_alts_exec(
    pos: usize,
    slot: usize,
    brs: &Vec<Vec<Node>>,
    j: usize,
    tail: &Vec<Node>,
    cs: &Vec<char>,
    caps: Vec<Option<(usize, usize)>>,
) -> (r: Option<(usize, Vec<Option<(usize, usize)>>)>)
    requires
        pos <= cs@.len(),
        caps_wf(rep_caps(caps@), cs@.len() as int),
        slot < usize::MAX,
        j <= brs@.len(),
        branches_ok(rep_branches(brs@)),
        running_ok(rep_seq(tail@), pos as int),
    ensures
        reflects(
            match_alts(
                pos as int,
                slot as int,
                rep_branches(brs@),
                j as int,
                rep_seq(tail@),
                cs@,
                rep_caps(caps@),
            ),
            r,
            pos as int,
            cs@.len() as int,
        ),
    decreases
            cs@.len() - pos,
            2 + branches_size(rep_branches(brs@)) + seq_size(rep_seq(tail@)),
            0int,
            brs@.len() - j,
{
    let ghost brsr = rep_branches(brs@);
    let ghost tailr = rep_seq(tail@);
    let ghost capsr = rep_caps(caps@);
    let ghost ma = match_alts(pos as int, slot as int, brsr, j as int, tailr, cs@, capsr);
    if j == brs.len() {
        return None;
    }
    let comp = compose_branch(&brs[j], slot, pos, tail);
    let ghost compr = rep_seq(comp@);
    proof {
        assert(brsr[j as int] == rep_seq(brs@[j as int]@));
        lemma_branches_ok_index(brsr, j as int);
        lemma_branch_size_le(brsr, j as int);
        lemma_seq_size_concat(brsr[j as int], seq![SNode::CapEnd(slot as int, pos as int)] + tailr);
        lemma_seq_size_concat(seq![SNode::CapEnd(slot as int, pos as int)], tailr);
        lemma_seq_size_single(SNode::CapEnd(slot as int, pos as int));
        let blen = brsr[j as int].len() as int;
        assert forall|i: int| 0 <= i < compr.len() implies match #[trigger] compr[i] {
            SNode::CapEnd(sl, st) => 0 <= st <= pos as int && 0 <= sl < usize::MAX,
            _ => node_ok(compr[i]),
        } by {
            if i < blen {
                lemma_nodes_ok_index(brsr[j as int], i);
                assert(compr[i] == brsr[j as int][i]);
            } else if i > blen {
                assert(compr[i] == tailr[i - blen - 1]);
                assert(running_ok(tailr, pos as int));
            }
        }
        assert(running_ok(compr, pos as int));
    }
    let caps_try = clone_caps(&caps);
    match match_from(pos, &comp, cs, caps_try) {
        Some(rr) => Some(rr),
        None => match_alts_exec(pos, slot, brs, j + 1, tail, cs, caps),
    }
}

/// A sequence of parser nodes may run from any position: it holds no
/// `CapEnd` marker at all.
pub proof fn lemma_nodes_ok_running(ns: Seq<SNode>, pos: int)
    requires
        nodes_ok(ns),
    ensures
        running_ok(ns, pos),
{
    assert forall|i: int| 0 <= i < ns.len() implies match #[trigger] ns[i] {
        SNode::CapEnd(slot, start) => 0 <= start <= pos && 0 <= slot < usize::MAX,
        _ => node_ok(ns[i]),
    } by {
        lemma_nodes_ok_index(ns, i);
    }
}

/// Does a match attempt from start offset `st` succeed, subject to the
/// anchor flags?  With the start anchor only offset 0 is admissible; with
/// the end anchor the greedy match from `st` must end at the input's end.
pub open spec fn match_hit(input: Seq<char>, ns: Seq<SNode>, sa: bool, ea: bool, st: int) -> bool {
    0 <= st <= input.len() && (sa ==> st == 0) && match match_seq(
        st,
        ns,
        input,
        Seq::empty(),
    ) {
        Some((e, _)) => ea ==> e == input.len(),
        None => false,
    }
}

/// Does any admissible start offset yield a hit?
pub open spec fn any_hit(input: Seq<char>, ns: Seq<SNode>, sa: bool, ea: bool) -> bool {
    exists|st: int| match_hit(input, ns, sa, ea, st)
}

/// Does the pattern match the input: the parse result, and whether any
/// admissible start offset yields a hit.
pub open spec fn spec_is_match(input: Seq<char>, pat: Seq<char>) -> Result<bool, ParseError> {
    match spec_parse(pat) {
        Err(e) => Err(e),
        Ok((ns, sa, ea)) => Ok(any_hit(input, ns, sa, ea)),
    }
}

/// Does the pattern match the input string?  Start offsets are tried in
/// ascending order; parse errors surface to the caller.
pub fn is_match(input: &Vec<char>, pat: &Vec<char>) -> (r: Result<bool, ParseError>)
    ensures
        match r {
            Ok(b) => spec_is_match(input@, pat@) == Ok::<bool, ParseError>(b),
            Err(e) => spec_is_match(input@, pat@) == Err::<bool, ParseError>(e),
        },
{
    match parse(pat) {
        Err(e) => Err(e),
        Ok((nodes, sa, ea)) => {
            let ghost nsr = rep_seq(nodes@);
            let n = input.len();
            let mut st: usize = 0;
            loop
                invariant
                    st <= n,
                    n == input@.len(),
                    nsr == rep_seq(nodes@),
                    nodes_ok(nsr),
                    sa ==> st == 0,
                    spec_parse(pat@) == Ok::<(Seq<SNode>, bool, bool), ParseError>((nsr, sa, ea)),
                    forall|k: int| 0 <= k < st ==> !match_hit(input@, nsr, sa, ea, k),
                decreases n - st,
            {
                let caps: Vec<Option<(usize, usize)>> = Vec::new();
                proof {
                    assert(rep_caps(caps@) =~= Seq::<Option<(int, int)>>::empty());
                    lemma_nodes_ok_running(nsr, st as int);
                }
                match match_from(st, &nodes, input, caps) {
                    Some((e, _)) => {
                        if !ea || e == n {
                            proof {
                                assert(match_hit(input@, nsr, sa, ea, st as int));
                                assert(any_hit(input@, nsr, sa, ea));
                                assert(spec_is_match(input@, pat@) == Ok::<bool, ParseError>(true));
                            }
                            return Ok(true);
                        }
                        proof {
                            assert(!match_hit(input@, nsr, sa, ea, st as int));
                        }
                    },
                    None => {
                        proof {
                            assert(!match_hit(input@, nsr, sa, ea, st as int));
                        }
                    },
                }
                if sa || st == n {
                    proof {
                        assert forall|k: int| !match_hit(input@, nsr, sa, ea, k) by {
                            if 0 <= k < st {
                            }
                        }
                        assert(!any_hit(input@, nsr, sa, ea));
                        assert(spec_is_match(input@, pat@) == Ok::<bool, ParseError>(false));
                    }
                    return Ok(false);
                }
                st = st + 1;
            }
        },
    }
}

} // verus!
