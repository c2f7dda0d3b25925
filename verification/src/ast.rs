//! The pattern syntax tree.
//!
//! [`Node`] is the executable representation produced by the parser and
//! consumed by the matcher.  [`SNode`] is its mathematical mirror, used by
//! every specification; [`rep_node`] maps one to the other.  The `*_size`
//! functions give the measure that bounds the matcher's recursion.

use vstd::prelude::*;

verus! {

/// One node of a parsed pattern.
///
/// `Cap` holds a 1-based group id and the group's alternative branches.
/// `CapEnd` is synthesized by the matcher, never by the parser: it records
/// the 0-based capture slot and the offset where the group's match began.
#[derive(Debug, PartialEq, Eq)]
pub enum Node {
    Lit(char),
    Digit,
    Word,
    Any,
    Pos(Vec<char>),
    Neg(Vec<char>),
    Opt(Box<Node>),
    Plus(Box<Node>),
    Star(Box<Node>),
    Rep(Box<Node>, usize),
    Cap(usize, Vec<Vec<Node>>),
    CapEnd(usize, usize),
    Ref(usize),
}

/// The mathematical mirror of [`Node`]: sequences in place of vectors and
/// unbounded integers in place of machine integers.
pub enum SNode {
    Lit(char),
    Digit,
    Word,
    Any,
    Pos(Seq<char>),
    Neg(Seq<char>),
    Opt(Box<SNode>),
    Plus(Box<SNode>),
    Star(Box<SNode>),
    Rep(Box<SNode>, int),
    Cap(int, Seq<Seq<SNode>>),
    CapEnd(int, int),
    Ref(int),
}

/// The mathematical value of one executable node.
pub open spec fn rep_node(n: Node) -> SNode
    decreases n,
{
    match n {
        Node::Lit(c) => SNode::Lit(c),
        Node::Digit => SNode::Digit,
        Node::Word => SNode::Word,
        Node::Any => SNode::Any,
        Node::Pos(s) => SNode::Pos(s@),
        Node::Neg(s) => SNode::Neg(s@),
        Node::Opt(b) => SNode::Opt(Box::new(rep_node(*b))),
        Node::Plus(b) => SNode::Plus(Box::new(rep_node(*b))),
        Node::Star(b) => SNode::Star(Box::new(rep_node(*b))),
        Node::Rep(b, k) => SNode::Rep(Box::new(rep_node(*b)), k as int),
        Node::Cap(id, brs) => SNode::Cap(id as int, rep_branches(brs@)),
        Node::CapEnd(slot, start) => SNode::CapEnd(slot as int, start as int),
        Node::Ref(n) => SNode::Ref(n as int),
    }
}

/// The mathematical value of a sequence of executable nodes.
pub open spec fn rep_seq(ns: Seq<Node>) -> Seq<SNode>
    decreases ns,
{
    Seq::new(ns.len(), |i: int| if 0 <= i < ns.len() { rep_node(ns[i]) } else { SNode::Any })
}

/// The mathematical value of a group's branch list.
pub open spec fn rep_branches(brs: Seq<Vec<Node>>) -> Seq<Seq<SNode>>
    decreases brs,
{
    Seq::new(
        brs.len(),
        |i: int| if 0 <= i < brs.len() { rep_seq(brs[i]@) } else { Seq::empty() },
    )
}

/// The size of a node, weighted so that every step of the matcher strictly
/// shrinks the measure of the node sequence it still has to examine.  A
/// repetition counts its body once per remaining round; a group outweighs
/// each of its branches together with the `CapEnd` marker the matcher adds.
pub open spec fn node_size(n: SNode) -> nat
    decreases n,
{
    match n {
        SNode::Opt(b) => 1 + node_size(*b),
        SNode::Plus(b) => 1 + node_size(*b),
        SNode::Star(b) => 1 + node_size(*b),
        SNode::Rep(b, k) => 1 + (node_size(*b) + 1) * (1 + (if k >= 0 { k as nat } else { 0 })),
        SNode::Cap(_, brs) => 2 + branches_size(brs),
        _ => 1,
    }
}

/// The summed size of a node sequence.
pub open spec fn seq_size(ns: Seq<SNode>) -> nat
    decreases ns,
{
    if ns.len() == 0 {
        0
    } else {
        node_size(ns[0]) + seq_size(ns.subrange(1, ns.len() as int))
    }
}

/// The summed size of a branch list.
pub open spec fn branches_size(brs: Seq<Seq<SNode>>) -> nat
    decreases brs,
{
    if brs.len() == 0 {
        0
    } else {
        seq_size(brs[0]) + branches_size(brs.subrange(1, brs.len() as int))
    }
}

/// No node weighs nothing.
pub proof fn lemma_node_size_pos(n: SNode)
    ensures
        node_size(n) >= 1,
{
}

/// Splitting a sequence of nodes splits its size.
pub proof fn lemma_seq_size_concat(a: Seq<SNode>, b: Seq<SNode>)
    ensures
        seq_size(a + b) == seq_size(a) + seq_size(b),
    decreases a.len(),
{
    if a.len() == 0 {
        assert(a + b =~= b);
    } else {
        assert((a + b).subrange(1, (a + b).len() as int) =~= a.subrange(1, a.len() as int) + b);
        assert((a + b)[0] == a[0]);
        lemma_seq_size_concat(a.subrange(1, a.len() as int), b);
    }
}

/// Every branch of a branch list weighs no more than the whole list.
pub proof fn lemma_branch_size_le(brs: Seq<Seq<SNode>>, j: int)
    requires
        0 <= j < brs.len(),
    ensures
        seq_size(brs[j]) <= branches_size(brs),
    decreases j,
{
    if j == 0 {
    } else {
        lemma_branch_size_le(brs.subrange(1, brs.len() as int), j - 1);
        assert(brs.subrange(1, brs.len() as int)[j - 1] == brs[j]);
    }
}

} // verus!
