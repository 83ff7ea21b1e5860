//! The executable syntax tree and its mathematical model.
//!
//! `Node` is what the parser builds and the evaluator walks; `AstNode` is
//! its ghost counterpart, with unbounded integer deltas and `Seq` bodies,
//! over which all contracts and laws are stated. `Node::deep_view` connects
//! the two.

use vstd::prelude::*;

verus! {

/// An executable node of the syntax tree. A `Loop` owns its body
/// exclusively; the tree has no sharing and no cycles.
#[derive(Debug, PartialEq, Eq)]
pub enum Node {
    /// Net pointer movement; positive moves right.
    Shift(isize),
    /// Net change of the current cell, applied modulo 256.
    Add(isize),
    /// Repeat the body while the current cell is nonzero.
    Loop(Vec<Node>),
    /// Emit the current cell's value.
    Print,
    /// Recognized but inert.
    Input,
}

/// The ghost model of a node: deltas as unbounded integers, bodies as `Seq`.
#[verifier::ext_equal]
pub enum AstNode {
    Shift(int),
    Add(int),
    Loop(Seq<AstNode>),
    Print,
    Input,
}

/// The model of one executable node.
pub open spec fn node_view(n: Node) -> AstNode
    decreases n,
{
    match n {
        Node::Shift(d) => AstNode::Shift(d as int),
        Node::Add(d) => AstNode::Add(d as int),
        Node::Loop(body) => AstNode::Loop(nodes_view(body@)),
        Node::Print => AstNode::Print,
        Node::Input => AstNode::Input,
    }
}

/// The model of a sequence of executable nodes, element by element.
pub open spec fn nodes_view(v: Seq<Node>) -> Seq<AstNode>
    decreases v,
{
    if v.len() == 0 {
        Seq::empty()
    } else {
        nodes_view(v.drop_last()).push(node_view(v.last()))
    }
}

/// Appending one node to a sequence appends its model to the model.
pub proof fn lemma_nodes_view_push(v: Seq<Node>, n: Node)
    ensures
        nodes_view(v.push(n)) == nodes_view(v).push(node_view(n)),
{
    assert(v.push(n).drop_last() =~= v);
}

/// `nodes_view` maps the sequence pointwise.
pub proof fn lemma_nodes_view_index(v: Seq<Node>)
    ensures
        nodes_view(v).len() == v.len(),
        forall|i: int| 0 <= i < v.len() ==> nodes_view(v)[i] == node_view(#[trigger] v[i]),
    decreases v.len(),
{
    if v.len() > 0 {
        lemma_nodes_view_index(v.drop_last());
        assert forall|i: int| 0 <= i < v.len() implies nodes_view(v)[i] == node_view(
            #[trigger] v[i],
        ) by {
            if i < v.len() - 1 {
                assert(v.drop_last()[i] == v[i]);
            }
        }
    }
}

} // verus!
