//! Decision diagrams as trees of shared nodes, and small types around them.
use vstd::prelude::*;
use std::rc::Rc;

verus! {

/// Representation of a Binary Decision Diagram node, containing the top variable `top_var` and
/// the children `high` and `low`.
#[derive(Debug, PartialEq, Eq)]
pub struct Node {
    pub id: u64,
    /// top variable
    pub top_var: i64,
    /// 0 side of the bdd
    pub low: Rc<NodeType>,
    /// 1 side of the bdd
    pub high: Rc<NodeType>,
}

/// Representation of what types a `Node` in a BDD can be.
/// `Zero` is the terminal 0 node.
/// `One` is the terminal 1 node.
/// `Complex(Node)` represents a `Node`.
#[derive(Debug, PartialEq, Eq)]
pub enum NodeType {
    Zero,
    One,
    Complex(Node),
}

impl Node {
    /// Creates a `Node` with the given identifier and wraps it into a `NodeType::Complex`.
    pub fn new_node_type(id: u64, v: i64, low: Rc<NodeType>, high: Rc<NodeType>) -> (r: NodeType)
        ensures
            r == NodeType::Complex(Node { id, top_var: v, low, high }),
    {
        NodeType::Complex(Node { id, top_var: v, low, high })
    }
}

/// All the data formats that are currently supported to create a BDD from.
#[derive(Debug, PartialEq, Eq, Structural, Clone, Copy)]
pub enum InputFormat {
    CNF,
}

/// A manager was asked about its BDD before one was created.
#[derive(Debug, PartialEq, Eq, Structural, Clone, Copy)]
pub enum NoBddError {
    NoBddCreated,
}

impl NoBddError {
    /// The text describing the error.
    pub fn message(&self) -> (r: String)
        ensures
            r@ == "There is no BDD for the current manager. Try to add a BDD first."@,
    {
        String::from_str("There is no BDD for the current manager. Try to add a BDD first.")
    }
}

/// What is recorded of a node besides its structure.
#[derive(Debug, PartialEq, Eq, Structural, Clone, Copy)]
pub struct NodeStatistics {
    pub void: Option<bool>,
    pub count: Option<usize>,
}

} // verus!
