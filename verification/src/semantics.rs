//! The meaning of a node table: which Boolean function a node stands for.
use vstd::prelude::*;
use crate::bdd_node::DDNode;

verus! {

/// An assignment of truth values to variables.
pub type Assignment = spec_fn(usize) -> bool;

/// The slot `id` of the node table holds a node.
pub open spec fn live_in(nodes: Seq<Option<DDNode>>, id: int) -> bool {
    0 <= id < nodes.len() && nodes[id] is Some
}

/// The node held in slot `id`.
pub open spec fn node_in(nodes: Seq<Option<DDNode>>, id: int) -> DDNode {
    nodes[id].unwrap()
}

/// The level (depth in the diagram) of the node in slot `id`.
pub open spec fn level_in(nodes: Seq<Option<DDNode>>, v2l: Seq<usize>, id: int) -> int {
    v2l[node_in(nodes, id).var.0 as int] as int
}

/// Every node sits strictly above its children, and no level lies below the terminal level.
pub open spec fn ordered(nodes: Seq<Option<DDNode>>, v2l: Seq<usize>) -> bool {
    &&& v2l.len() >= 1
    &&& forall|i: int|
        #![trigger live_in(nodes, i)]
        live_in(nodes, i) ==> {
            let n = node_in(nodes, i);
            &&& n.var.0 < v2l.len()
            &&& v2l[n.var.0 as int] <= v2l[0]
            &&& n.var.0 != 0 ==> {
                &&& live_in(nodes, n.low.0 as int)
                &&& live_in(nodes, n.high.0 as int)
                &&& level_in(nodes, v2l, n.low.0 as int) > v2l[n.var.0 as int]
                &&& level_in(nodes, v2l, n.high.0 as int) > v2l[n.var.0 as int]
            }
        }
}

/// The value of the function of node `id` under the assignment `a`:
/// follow the high edge where the node's variable is true, the low edge elsewhere,
/// until a terminal is reached; terminal 1 means true.
pub open spec fn eval(nodes: Seq<Option<DDNode>>, v2l: Seq<usize>, id: int, a: Assignment) -> bool
    decreases v2l[0] - level_in(nodes, v2l, id),
    when ordered(nodes, v2l) && live_in(nodes, id)
{
    let n = node_in(nodes, id);
    if n.var.0 == 0 {
        id == 1
    } else if a(n.var.0) {
        eval(nodes, v2l, n.high.0 as int, a)
    } else {
        eval(nodes, v2l, n.low.0 as int, a)
    }
}

/// The assignment `a` with variable `v` set to `b`.
pub open spec fn assign(a: Assignment, v: usize, b: bool) -> Assignment {
    |x: usize| if x == v { b } else { a(x) }
}

/// Every slot that holds a node in `old` holds the same node in `new`.
pub open spec fn extends(old: Seq<Option<DDNode>>, new: Seq<Option<DDNode>>) -> bool {
    &&& old.len() <= new.len()
    &&& forall|i: int| #![trigger old[i]] 0 <= i < old.len() && old[i] is Some ==> new[i] == old[i]
}

/// A node keeps its function when the table grows around it.
pub proof fn lemma_eval_extends(
    old: Seq<Option<DDNode>>,
    new: Seq<Option<DDNode>>,
    v2l: Seq<usize>,
    id: int,
    a: Assignment,
)
    requires
        ordered(old, v2l),
        ordered(new, v2l),
        extends(old, new),
        live_in(old, id),
    ensures
        live_in(new, id),
        eval(new, v2l, id, a) == eval(old, v2l, id, a),
    decreases v2l[0] - level_in(old, v2l, id),
{
    assert(old[id] is Some);
    let n = node_in(old, id);
    if n.var.0 != 0 {
        assert(live_in(old, id));
        lemma_eval_extends(old, new, v2l, n.high.0 as int, a);
        lemma_eval_extends(old, new, v2l, n.low.0 as int, a);
    }
}

/// Every node of `old` keeps its function in `new`, for every assignment.
pub proof fn lemma_eval_extends_all(
    old: Seq<Option<DDNode>>,
    new: Seq<Option<DDNode>>,
    v2l: Seq<usize>,
)
    requires
        ordered(old, v2l),
        ordered(new, v2l),
        extends(old, new),
    ensures
        forall|id: int, a: Assignment|
            #![trigger eval(new, v2l, id, a)]
            live_in(old, id) ==> live_in(new, id) && eval(new, v2l, id, a) == eval(old, v2l, id, a),
{
    assert forall|id: int, a: Assignment|
        #![trigger eval(new, v2l, id, a)]
        live_in(old, id) implies live_in(new, id) && eval(new, v2l, id, a) == eval(old, v2l, id, a) by {
        lemma_eval_extends(old, new, v2l, id, a);
    }
}

/// The function of a node does not depend on which valid level table is used.
pub proof fn lemma_eval_levels(
    nodes: Seq<Option<DDNode>>,
    v1: Seq<usize>,
    v2: Seq<usize>,
    id: int,
    a: Assignment,
)
    requires
        ordered(nodes, v1),
        ordered(nodes, v2),
        live_in(nodes, id),
    ensures
        eval(nodes, v2, id, a) == eval(nodes, v1, id, a),
    decreases v1[0] - level_in(nodes, v1, id),
{
    let n = node_in(nodes, id);
    if n.var.0 != 0 {
        lemma_eval_levels(nodes, v1, v2, n.high.0 as int, a);
        lemma_eval_levels(nodes, v1, v2, n.low.0 as int, a);
    }
}

/// A node lying below the level of variable `v` does not read `v`.
pub proof fn lemma_eval_independent(
    nodes: Seq<Option<DDNode>>,
    v2l: Seq<usize>,
    id: int,
    a: Assignment,
    v: usize,
    b: bool,
)
    requires
        ordered(nodes, v2l),
        live_in(nodes, id),
        v < v2l.len(),
        node_in(nodes, id).var.0 == 0 || level_in(nodes, v2l, id) > v2l[v as int],
    ensures
        eval(nodes, v2l, id, assign(a, v, b)) == eval(nodes, v2l, id, a),
    decreases v2l[0] - level_in(nodes, v2l, id),
{
    let n = node_in(nodes, id);
    if n.var.0 != 0 {
        assert(n.var.0 != v);
        lemma_eval_independent(nodes, v2l, n.high.0 as int, a, v, b);
        lemma_eval_independent(nodes, v2l, n.low.0 as int, a, v, b);
    }
}

} // verus!
