//! Loading a diagram from a node list: every node given by its ID, variable and children, the
//! list read bottom up into a manager with a given variable ordering.
use vstd::prelude::*;
use std::collections::HashMap;
use crate::bdd_node::{DDNode, NodeID, VarID};
use crate::bdd_manager::DDManager;
use crate::semantics::{Assignment, live_in, node_in, ordered};
use crate::sifting::valid_levels;
use crate::sorting::{sorted_indices, index_before};

verus! {

broadcast use vstd::std_specs::hash::group_hash_axioms;

/// The position in the node list of the entry with ID `id`.
pub open spec fn entry_index(list: Seq<(NodeID, VarID, NodeID, NodeID)>, id: usize) -> int {
    choose|k: int| 0 <= k < list.len() && list[k].0.0 == id
}

/// The node list has an entry with ID `id`.
pub open spec fn in_list(list: Seq<(NodeID, VarID, NodeID, NodeID)>, id: usize) -> bool {
    exists|k: int| 0 <= k < list.len() && list[k].0.0 == id
}

/// `id` is one of the two terminals (first the 1, then the 0 terminal).
pub open spec fn is_terminal(t: (NodeID, NodeID), id: usize) -> bool {
    id == t.0.0 || id == t.1.0
}

/// `id` names a terminal or an entry of the list.
pub open spec fn known(list: Seq<(NodeID, VarID, NodeID, NodeID)>, t: (NodeID, NodeID), id: usize) -> bool {
    is_terminal(t, id) || in_list(list, id)
}

/// The level of the node `id` of the list: that of its variable, the terminal level for the
/// terminals.
pub open spec fn list_level(list: Seq<(NodeID, VarID, NodeID, NodeID)>, order: Seq<usize>, t: (NodeID, NodeID), id: usize) -> int {
    if is_terminal(t, id) {
        order[0] as int
    } else {
        order[list[entry_index(list, id)].1.0 as int] as int
    }
}

/// A node list that describes an ordered diagram: the level table is valid, the IDs are
/// distinct, every variable has a level, and every inner node has known children on lower
/// levels.
pub open spec fn list_wf(list: Seq<(NodeID, VarID, NodeID, NodeID)>, order: Seq<usize>, t: (NodeID, NodeID)) -> bool {
    &&& valid_levels(order)
    &&& t.0 != t.1
    &&& forall|k: int, l: int| 0 <= k < l < list.len() ==> (#[trigger] list[k]).0 != (#[trigger] list[l]).0
    &&& forall|k: int| 0 <= k < list.len() ==> (#[trigger] list[k]).1.0 < order.len()
    &&& forall|k: int| 0 <= k < list.len() && !is_terminal(t, (#[trigger] list[k]).0.0) ==> {
        let e = list[k];
        &&& 1 <= e.1.0
        &&& known(list, t, e.2.0)
        &&& known(list, t, e.3.0)
        &&& list_level(list, order, t, e.2.0) > order[e.1.0 as int]
        &&& list_level(list, order, t, e.3.0) > order[e.1.0 as int]
    }
}

/// The value of the function of node `id` of the list under `a`: follow the high child where
/// the node's variable is true, the low child elsewhere, down to a terminal.
#[verifier::opaque]
pub open spec fn list_sem(list: Seq<(NodeID, VarID, NodeID, NodeID)>, order: Seq<usize>, t: (NodeID, NodeID), id: usize, a: Assignment) -> bool
    decreases order[0] - list_level(list, order, t, id),
    when list_wf(list, order, t) && known(list, t, id)
{
    if id == t.0.0 {
        true
    } else if id == t.1.0 {
        false
    } else {
        let e = list[entry_index(list, id)];
        if a(e.1.0) {
            list_sem(list, order, t, e.2.0, a)
        } else {
            list_sem(list, order, t, e.3.0, a)
        }
    }
}

/// The terminals of the list stand for 1 and 0.
pub proof fn lemma_list_sem_terminals(list: Seq<(NodeID, VarID, NodeID, NodeID)>, order: Seq<usize>, t: (NodeID, NodeID), a: Assignment)
    requires
        list_wf(list, order, t),
    ensures
        list_sem(list, order, t, t.0.0, a),
        !list_sem(list, order, t, t.1.0, a),
{
    reveal(list_sem);
}

/// An inner node of the list follows its high child where its variable is true, its low child
/// elsewhere.
pub proof fn lemma_list_sem_inner(list: Seq<(NodeID, VarID, NodeID, NodeID)>, order: Seq<usize>, t: (NodeID, NodeID), id: usize, a: Assignment)
    requires
        list_wf(list, order, t),
        in_list(list, id),
        !is_terminal(t, id),
    ensures
        list_sem(list, order, t, id, a) == {
            let e = list[entry_index(list, id)];
            if a(e.1.0) {
                list_sem(list, order, t, e.2.0, a)
            } else {
                list_sem(list, order, t, e.3.0, a)
            }
        },
{
    reveal(list_sem);
}

/// The entry found for an ID of the list has that ID.
proof fn lemma_entry(list: Seq<(NodeID, VarID, NodeID, NodeID)>, id: usize)
    requires
        in_list(list, id),
    ensures
        0 <= entry_index(list, id) < list.len(),
        list[entry_index(list, id)].0.0 == id,
{
}

/// The levels of the list lie within the level table.
proof fn lemma_list_level(list: Seq<(NodeID, VarID, NodeID, NodeID)>, order: Seq<usize>, t: (NodeID, NodeID), id: usize)
    requires
        list_wf(list, order, t),
        known(list, t, id),
    ensures
        1 <= list_level(list, order, t, id) <= order[0],
{
    if !is_terminal(t, id) {
        lemma_entry(list, id);
        let k = entry_index(list, id);
        assert(list[k].1.0 < order.len());
    }
}

impl DDManager {
    /// Replaces the variable ordering of a manager that holds only the terminal nodes.
    fn prepare_varorder(&mut self, varorder: &Vec<usize>)
        requires
            old(self).wf(),
            old(self).nodes@.len() == 2,
            valid_levels(varorder@),
        ensures
            final(self).wf(),
            final(self).nodes@ == old(self).nodes@,
            final(self).var2level@ == varorder@,
    {
        proof {
            self.lemma_terminals();
            self.lemma_free_wf();
        }
        let mut v2l: Vec<usize> = Vec::new();
        let mut v2n: Vec<HashMap<u128, usize>> = Vec::new();
        let mut v: usize = 0;
        while v < varorder.len()
            invariant
                v <= varorder@.len(),
                v2l@.len() == v,
                v2n@.len() == v,
                forall|w: int| 0 <= w < v ==> #[trigger] v2l@[w] == varorder@[w],
                forall|w: int| 0 <= w < v ==> (#[trigger] v2n@[w])@ == Map::<u128, usize>::empty(),
            decreases varorder@.len() - v,
        {
            v2l.push(varorder[v]);
            v2n.push(HashMap::new());
            v = v + 1;
        }
        self.var2level = v2l;
        self.var2nodes = v2n;
        self.ite_c_table.clear();
        self.apply_c_table.clear();
        proof {
            reveal(DDManager::wf);
            let nodes = self.nodes@;
            let lv = self.var2level@;
            assert(lv =~= varorder@);
            assert forall|i: int| #![trigger live_in(nodes, i)] live_in(nodes, i) implies i < 2 by {}
            assert(ordered(nodes, lv)) by {
                assert forall|i: int| #![trigger live_in(nodes, i)] live_in(nodes, i) implies {
                    let nd = node_in(nodes, i);
                    &&& nd.var.0 < lv.len()
                    &&& lv[nd.var.0 as int] <= lv[0]
                    &&& nd.var.0 != 0 ==> {
                        &&& live_in(nodes, nd.low.0 as int)
                        &&& live_in(nodes, nd.high.0 as int)
                        &&& crate::semantics::level_in(nodes, lv, nd.low.0 as int) > lv[nd.var.0 as int]
                        &&& crate::semantics::level_in(nodes, lv, nd.high.0 as int) > lv[nd.var.0 as int]
                    }
                } by {
                    assert(i < 2);
                }
            }
            assert(self.inner_wf());
            assert(self.unique_wf()) by {
                assert forall|w: int, k: u128|
                    0 <= w < self.var2nodes@.len() && #[trigger] self.var2nodes@[w]@.contains_key(k) implies false by {
                    assert(self.var2nodes@[w]@ == Map::<u128, usize>::empty());
                }
            }
            assert(self.ite_cache_wf());
            assert(self.apply_cache_wf());
            assert(self.free_wf());
        }
    }
}


/// Every ID translated in `m` is known and its node stands for it in `man`.
#[verifier::opaque]
pub open spec fn translation_ok(man: DDManager, list: Seq<(NodeID, VarID, NodeID, NodeID)>, t: (NodeID, NodeID), m: Map<usize, usize>) -> bool {
    forall|id: usize| #[trigger] m.contains_key(id) ==> known(list, t, id) && man.stands_for(list, t, id, m[id])
}

/// The positions `idx` list the entries of `list` by their weights, the lowest levels first.
#[verifier::opaque]
pub open spec fn bottom_up(list: Seq<(NodeID, VarID, NodeID, NodeID)>, order: Seq<usize>, weights: Seq<u128>, idx: Seq<usize>) -> bool {
    &&& idx.len() == list.len()
    &&& weights.len() == list.len()
    &&& forall|j: int| 0 <= j < list.len() ==> #[trigger] weights[j] == order[0] - order[list[j].1.0 as int]
    &&& forall|m: int| 0 <= m < idx.len() ==> #[trigger] idx[m] < weights.len()
    &&& forall|j: int| 0 <= j < weights.len() ==> #[trigger] idx.contains(j as usize)
    &&& forall|m: int, l: int| 0 <= m < l < idx.len() ==> index_before(weights, #[trigger] idx[m] as int, #[trigger] idx[l] as int)
}

/// When the entries before position `q` are translated, so are the children of the entry at
/// position `q`.
proof fn lemma_children_done(
    list: Seq<(NodeID, VarID, NodeID, NodeID)>,
    order: Seq<usize>,
    t: (NodeID, NodeID),
    weights: Seq<u128>,
    idx: Seq<usize>,
    q: int,
    m: Map<usize, usize>,
)
    requires
        list_wf(list, order, t),
        bottom_up(list, order, weights, idx),
        list.len() <= usize::MAX,
        0 <= q < list.len(),
        !is_terminal(t, list[idx[q] as int].0.0),
        m.contains_key(t.0.0),
        m.contains_key(t.1.0),
        forall|p: int| 0 <= p < q ==> #[trigger] m.contains_key(list[idx[p] as int].0.0),
    ensures
        m.contains_key(list[idx[q] as int].2.0),
        m.contains_key(list[idx[q] as int].3.0),
{
    reveal(bottom_up);
    let j = idx[q] as int;
    let e = list[j];
    assert(!is_terminal(t, list[j].0.0));
    assert forall|c: usize| (c == e.2.0 || c == e.3.0) implies m.contains_key(c) by {
        if !is_terminal(t, c) {
            lemma_entry(list, c);
            let jc = entry_index(list, c);
            assert(weights[jc] < weights[j]);
            assert(idx.contains(jc as usize));
            let p = choose|p: int| 0 <= p < idx.len() && idx[p] == jc as usize;
            if p >= q {
                if p == q {
                    assert(idx[p] == j);
                } else {
                    assert(index_before(weights, idx[q] as int, idx[p] as int));
                }
            }
            assert(m.contains_key(list[idx[p] as int].0.0));
        }
    }
}

/// Once every entry is processed, every known ID is translated.
proof fn lemma_all_done(
    list: Seq<(NodeID, VarID, NodeID, NodeID)>,
    order: Seq<usize>,
    t: (NodeID, NodeID),
    weights: Seq<u128>,
    idx: Seq<usize>,
    m: Map<usize, usize>,
)
    requires
        bottom_up(list, order, weights, idx),
        m.contains_key(t.0.0),
        m.contains_key(t.1.0),
        forall|p: int| 0 <= p < idx.len() ==> #[trigger] m.contains_key(list[idx[p] as int].0.0),
        list.len() <= usize::MAX,
    ensures
        forall|id: usize| #[trigger] known(list, t, id) ==> m.contains_key(id),
{
    reveal(bottom_up);
    assert forall|id: usize| #[trigger] known(list, t, id) implies m.contains_key(id) by {
        if !is_terminal(t, id) {
            lemma_entry(list, id);
            let j = entry_index(list, id);
            assert(idx.contains(j as usize));
            let p = choose|p: int| 0 <= p < idx.len() && idx[p] == j as usize;
            assert(m.contains_key(list[idx[p] as int].0.0));
        }
    }
}

impl DDManager {
    /// The translated node `n` stands for node `id` of the list: it is live, lies no higher
    /// than `id` would, and has its function.
    pub open spec fn stands_for(&self, list: Seq<(NodeID, VarID, NodeID, NodeID)>, t: (NodeID, NodeID), id: usize, n: usize) -> bool {
        &&& self.live(n as int)
        &&& self.level(n as int) >= list_level(list, self.var2level@, t, id)
        &&& forall|a: Assignment| #[trigger] self.sem(n as int, a) == list_sem(list, self.var2level@, t, id, a)
    }

    /// Creates the node for entry `j` of the list, whose children are translated already.
    fn translate_entry(&mut self, new_ids: &mut HashMap<usize, usize>, nodes: &Vec<(NodeID, VarID, NodeID, NodeID)>, t: (NodeID, NodeID), j: usize)
        requires
            old(self).wf(),
            list_wf(nodes@, old(self).var2level@, t),
            j < nodes@.len(),
            !is_terminal(t, nodes@[j as int].0.0),
            old(new_ids)@.contains_key(nodes@[j as int].2.0),
            old(new_ids)@.contains_key(nodes@[j as int].3.0),
            translation_ok(*old(self), nodes@, t, old(new_ids)@),
        ensures
            final(self).wf(),
            final(self).var2level@ == old(self).var2level@,
            translation_ok(*final(self), nodes@, t, final(new_ids)@),
            final(new_ids)@.dom() == old(new_ids)@.dom().insert(nodes@[j as int].0.0),
    {
        let ghost list = nodes@;
        let ghost order = self.var2level@;
        proof {
            reveal(translation_ok);
        }
        let (id, var, high, low) = nodes[j];
        proof {
            lemma_entry(list, id.0);
            let ej = entry_index(list, id.0);
            if ej != j {
                assert(list[ej].0 != list[j as int].0);
            }
        }
        let h = *new_ids.get(&high.0).unwrap();
        let l = *new_ids.get(&low.0).unwrap();
        let ghost before = *self;
        proof {
            assert(before.stands_for(list, t, high.0, h));
            assert(before.stands_for(list, t, low.0, l));
        }
        let n = self.node_get_or_create(&DDNode { id: NodeID(0), var: var, low: NodeID(l), high: NodeID(h) });
        proof {
            reveal(list_sem);
            assert forall|x: usize| #[trigger] new_ids@.contains_key(x) implies self.stands_for(list, t, x, new_ids@[x]) by {
                let nx = new_ids@[x] as int;
                assert(before.stands_for(list, t, x, new_ids@[x]));
                assert(before.nodes@[nx] is Some);
                assert forall|a: Assignment| #[trigger] self.sem(nx, a) == list_sem(list, order, t, x, a) by {
                    assert(before.sem(nx, a) == list_sem(list, order, t, x, a));
                }
            }
            assert forall|a: Assignment| #[trigger] self.sem(n.0 as int, a) == list_sem(list, order, t, id.0, a) by {
                assert(before.sem(h as int, a) == list_sem(list, order, t, high.0, a));
                assert(before.sem(l as int, a) == list_sem(list, order, t, low.0, a));
                assert(self.sem(h as int, a) == before.sem(h as int, a));
                assert(self.sem(l as int, a) == before.sem(l as int, a));
            }
            if l != h {
                assert(self.level(n.0 as int) == order[var.0 as int]);
            } else {
                assert(before.nodes@[l as int] is Some);
            }
            assert(in_list(list, id.0));
        }
        new_ids.insert(id.0, n.0);
        proof {
            assert(new_ids@.dom() =~= old(new_ids)@.dom().insert(id.0));
        }
    }

    /// Loads the diagram described by a node list into this manager, which must hold only the
    /// terminal nodes, with the variable ordering `varorder`. Nodes are created bottom up, so
    /// the diagram comes out reduced; returns the manager, the nodes standing for `roots`, and
    /// for every ID of the list (and the terminals) the node that stands for it.
    pub fn load_bdd_from_nodelist_with_translation(
        self,
        nodes: &Vec<(NodeID, VarID, NodeID, NodeID)>,
        varorder: Vec<usize>,
        roots: &Vec<NodeID>,
        terminals: (NodeID, NodeID),
    ) -> (r: (DDManager, Vec<NodeID>, HashMap<usize, usize>))
        requires
            self.wf(),
            self.nodes@.len() == 2,
            list_wf(nodes@, varorder@, terminals),
            forall|i: int| 0 <= i < roots@.len() ==> known(nodes@, terminals, #[trigger] roots@[i].0),
        ensures
            r.0.wf(),
            r.0.var2level@ == varorder@,
            forall|id: usize| #[trigger] known(nodes@, terminals, id) ==> r.2@.contains_key(id)
                && r.0.stands_for(nodes@, terminals, id, r.2@[id]),
            r.1@.len() == roots@.len(),
            forall|i: int| 0 <= i < roots@.len() ==> #[trigger] r.1@[i].0 == r.2@[roots@[i].0],
            forall|i: int| 0 <= i < roots@.len() ==> r.0.stands_for(nodes@, terminals, roots@[i].0, #[trigger] r.1@[i].0),
    {
        let ghost list = nodes@;
        let ghost order = varorder@;
        let ghost t = terminals;
        let mut man = self;
        man.prepare_varorder(&varorder);
        let mut new_ids: HashMap<usize, usize> = HashMap::new();
        new_ids.insert(terminals.0.0, 1);
        new_ids.insert(terminals.1.0, 0);
        proof {
            man.lemma_terminals();
            lemma_list_level(list, order, t, terminals.0.0);
            reveal(translation_ok);
            reveal(list_sem);
            assert(translation_ok(man, list, t, new_ids@));
        }

        // Process the nodes bottom up: by level, the lowest first
        let mut weights: Vec<u128> = Vec::new();
        let mut k: usize = 0;
        while k < nodes.len()
            invariant
                k <= nodes@.len(),
                list == nodes@,
                t == terminals,
                order == varorder@,
                list_wf(list, order, t),
                weights@.len() == k,
                forall|j: int| 0 <= j < k ==> #[trigger] weights@[j] == order[0] - order[list[j].1.0 as int],
            decreases nodes@.len() - k,
        {
            let v = nodes[k].1.0;
            proof {
                assert(list[k as int].1.0 < order.len());
                assert(1 <= order[v as int] <= order[0]);
            }
            weights.push((varorder[0] - varorder[v]) as u128);
            k = k + 1;
        }
        let idx = sorted_indices(&weights);
        proof {
            reveal(bottom_up);
        }
        let mut q: usize = 0;
        while q < idx.len()
            invariant
                q <= idx@.len(),
                list == nodes@,
                t == terminals,
                order == varorder@,
                list_wf(list, order, t),
                man.wf(),
                man.var2level@ == order,
                bottom_up(list, order, weights@, idx@),
                idx@.len() == list.len(),
                list.len() <= usize::MAX,
                new_ids@.contains_key(t.0.0),
                new_ids@.contains_key(t.1.0),
                translation_ok(man, list, t, new_ids@),
                forall|p: int| 0 <= p < q ==> #[trigger] new_ids@.contains_key(list[idx@[p] as int].0.0),
            decreases idx@.len() - q,
        {
            let j = idx[q];
            proof {
                reveal(bottom_up);
                assert(j < list.len());
            }
            let id = nodes[j].0;
            if !(id.0 == terminals.0.0 || id.0 == terminals.1.0) {
                proof {
                    assert(!is_terminal(t, list[idx@[q as int] as int].0.0));
                    lemma_children_done(list, order, t, weights@, idx@, q as int, new_ids@);
                }
                man.translate_entry(&mut new_ids, nodes, terminals, j);
            }
            proof {
                assert forall|p: int| 0 <= p < q + 1 implies #[trigger] new_ids@.contains_key(list[idx@[p] as int].0.0) by {
                    if p == q {
                        assert(idx@[p] == j);
                    }
                }
            }
            q = q + 1;
        }
        proof {
            lemma_all_done(list, order, t, weights@, idx@, new_ids@);
        }

        // Convert root ids
        let mut new_roots: Vec<NodeID> = Vec::new();
        let mut i: usize = 0;
        while i < roots.len()
            invariant
                i <= roots@.len(),
                new_roots@.len() == i,
                t == terminals,
                list == nodes@,
                forall|id: usize| #[trigger] known(list, t, id) ==> new_ids@.contains_key(id),
                forall|m: int| 0 <= m < roots@.len() ==> known(list, t, #[trigger] roots@[m].0),
                forall|m: int| 0 <= m < i ==> #[trigger] new_roots@[m].0 == new_ids@[roots@[m].0],
            decreases roots@.len() - i,
        {
            let r = *new_ids.get(&roots[i].0).unwrap();
            new_roots.push(NodeID(r));
            i = i + 1;
        }
        proof {
            reveal(translation_ok);
        }
        (man, new_roots, new_ids)
    }
}


impl DDManager {
    /// Loads the diagram described by a node list into this manager, which must hold only the
    /// terminal nodes; returns the manager and the nodes standing for `roots`.
    pub fn load_bdd_from_nodelist(
        self,
        nodes: &Vec<(NodeID, VarID, NodeID, NodeID)>,
        varorder: Vec<usize>,
        roots: &Vec<NodeID>,
        terminals: (NodeID, NodeID),
    ) -> (r: (DDManager, Vec<NodeID>))
        requires
            self.wf(),
            self.nodes@.len() == 2,
            list_wf(nodes@, varorder@, terminals),
            forall|i: int| 0 <= i < roots@.len() ==> known(nodes@, terminals, #[trigger] roots@[i].0),
        ensures
            r.0.wf(),
            r.0.var2level@ == varorder@,
            r.1@.len() == roots@.len(),
            forall|i: int| 0 <= i < roots@.len() ==> r.0.stands_for(nodes@, terminals, roots@[i].0, #[trigger] r.1@[i].0),
    {
        let (man, roots, _) = self.load_bdd_from_nodelist_with_translation(nodes, varorder, roots, terminals);
        (man, roots)
    }
}

impl DDManager {
    /// Reduces the diagram described by a node list, which may hold redundant nodes (both
    /// children equal) and duplicates: builds every node of the list into a fresh manager with
    /// the level table `var2level`, merging what has the same function, and returns it with the
    /// new ID of node `v`. Nodes that are not part of the function of `v` are kept too.
    pub fn reduce(nodes: &Vec<(NodeID, VarID, NodeID, NodeID)>, var2level: Vec<usize>, terminals: (NodeID, NodeID), v: NodeID) -> (r: (DDManager, NodeID))
        requires
            list_wf(nodes@, var2level@, terminals),
            known(nodes@, terminals, v.0),
        ensures
            r.0.wf(),
            r.0.var2level@ == var2level@,
            r.0.stands_for(nodes@, terminals, v.0, r.1.0),
            forall|id: usize| #[trigger] known(nodes@, terminals, id)
                ==> exists|n: usize| r.0.stands_for(nodes@, terminals, id, n),
    {
        let roots: Vec<NodeID> = Vec::new();
        let (man, _, ids) = DDManager::new().load_bdd_from_nodelist_with_translation(nodes, var2level, &roots, terminals);
        let n = *ids.get(&v.0).unwrap();
        proof {
            assert forall|id: usize| #[trigger] known(nodes@, terminals, id)
                implies exists|n: usize| man.stands_for(nodes@, terminals, id, n) by {
                assert(man.stands_for(nodes@, terminals, id, ids@[id]));
            }
        }
        (man, NodeID(n))
    }
}

} // verus!
