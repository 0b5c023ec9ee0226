//! Elements of a BDD: nodes ([DDNode], [NodeID]) and variables ([VarID]).
use vstd::prelude::*;

verus! {

/// Identifier of a node. Special values: 0 and 1 for the terminal nodes.
#[derive(Debug, Copy, Clone, PartialEq, Eq, Structural, Hash, PartialOrd, Ord)]
pub struct NodeID(pub usize);

/// Identifier of a variable. Variable 0 stands for the terminal nodes.
#[derive(Debug, Copy, Clone, PartialEq, Eq, Structural, Hash, PartialOrd, Ord)]
pub struct VarID(pub usize);

/// Element of a BDD.
/// The node contains its own ID, which is not considered when two nodes are compared.
#[derive(Debug, Copy, Clone)]
pub struct DDNode {
    /// Node ID. Special values: 0 and 1 for terminal nodes
    pub id: NodeID,
    /// Variable number. Special variable 0 == terminal nodes
    pub var: VarID,
    pub low: NodeID,
    pub high: NodeID,
}

/// The terminal node standing for the constant function 0.
pub open spec fn spec_zero() -> DDNode {
    DDNode { id: NodeID(0), var: VarID(0), low: NodeID(0), high: NodeID(0) }
}

/// The terminal node standing for the constant function 1.
pub open spec fn spec_one() -> DDNode {
    DDNode { id: NodeID(1), var: VarID(0), low: NodeID(1), high: NodeID(1) }
}

/// The terminal node standing for the constant function 0.
pub fn zero_node() -> (r: DDNode)
    ensures
        r == spec_zero(),
{
    DDNode { id: NodeID(0), var: VarID(0), low: NodeID(0), high: NodeID(0) }
}

/// The terminal node standing for the constant function 1.
pub fn one_node() -> (r: DDNode)
    ensures
        r == spec_one(),
{
    DDNode { id: NodeID(1), var: VarID(0), low: NodeID(1), high: NodeID(1) }
}

/// Two nodes are equal when variable and children agree; the ID is not considered.
pub open spec fn same_node(a: DDNode, b: DDNode) -> bool {
    a.var == b.var && a.low == b.low && a.high == b.high
}

impl PartialEq for DDNode {
    fn eq(&self, that: &Self) -> (r: bool) {
        self.var.0 == that.var.0 && self.low.0 == that.low.0 && self.high.0 == that.high.0
    }
}

impl vstd::std_specs::cmp::PartialEqSpecImpl for DDNode {
    open spec fn obeys_eq_spec() -> bool {
        true
    }

    open spec fn eq_spec(&self, that: &DDNode) -> bool {
        same_node(*self, *that)
    }
}

impl Eq for DDNode {}

/// What `restrict` returns for a node and a variable at or above the node's level.
pub open spec fn spec_restrict(node: DDNode, top: VarID, var2level: Seq<usize>, val: bool) -> NodeID {
    if node.var == VarID(0) {
        node.id
    } else if var2level[top.0 as int] < var2level[node.var.0 as int] {
        node.id
    } else if val {
        node.high
    } else {
        node.low
    }
}

impl DDNode {
    /// Returns the function resulting when setting the specified variable to the specified value.
    /// Only the case of the node lying at or below the level of the variable is supported:
    /// a node above the variable's level is refused.
    pub fn restrict(&self, top: VarID, var2level: &[usize], val: bool) -> (r: NodeID)
        requires
            top.0 < var2level@.len(),
            self.var.0 < var2level@.len(),
            self.var == VarID(0) || var2level@[top.0 as int] < var2level@[self.var.0 as int]
                || top == self.var,
        ensures
            r == spec_restrict(*self, top, var2level@, val),
    {
        if self.var.0 == 0 {
            return self.id;
        }
        if var2level[top.0] < var2level[self.var.0] {
            // Variable does not occur in current function
            return self.id;
        }
        if val {
            self.high
        } else {
            self.low
        }
    }
}

} // verus!
