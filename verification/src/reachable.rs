//! Reachability, node counting and removal of nodes no longer needed.
use vstd::prelude::*;
use std::collections::HashSet;
use crate::bdd_node::NodeID;
use crate::bdd_manager::{DDManager, pair_key, key2};
use crate::semantics::{Assignment, live_in, node_in, level_in, ordered, extends, lemma_eval_extends_all};

verus! {

broadcast use vstd::std_specs::hash::group_hash_axioms;

/// Node `y` can be reached from node `x` by following low and high edges.
pub open spec fn reaches(nodes: Seq<Option<crate::bdd_node::DDNode>>, v2l: Seq<usize>, x: int, y: int) -> bool
    decreases v2l[0] - level_in(nodes, v2l, x),
    when ordered(nodes, v2l) && live_in(nodes, x)
{
    x == y || (node_in(nodes, x).var.0 != 0 && (reaches(nodes, v2l, node_in(nodes, x).low.0 as int, y)
        || reaches(nodes, v2l, node_in(nodes, x).high.0 as int, y)))
}

/// A set of `usize` values below `n` has at most `n` elements.
pub proof fn lemma_bounded_set(s: Set<usize>, n: usize)
    requires
        forall|x: usize| #[trigger] s.contains(x) ==> x < n,
    ensures
        s.finite(),
        s.len() <= n,
{
    let r = Set::new(|i: usize| 0 <= i < n);
    <usize as vstd::set_lib::FiniteRange>::range_properties(0, n);
    assert(r == <usize as vstd::set_lib::FiniteRange>::range_set(0, n));
    assert(s.subset_of(r));
    vstd::set_lib::lemma_len_subset(s, r);
}

/// The node `id` was seen (it is in `keep`) or waits on the stack.
pub open spec fn covered(keep: Set<usize>, stack: Seq<NodeID>, id: NodeID) -> bool {
    keep.contains(id.0) || stack.contains(id)
}

/// What is covered before the last element leaves the stack is covered after, or was that element.
pub proof fn lemma_pop_covered(keep: Set<usize>, stack: Seq<NodeID>, id: NodeID)
    requires
        stack.len() > 0,
        covered(keep, stack, id),
    ensures
        covered(keep, stack.drop_last(), id) || id == stack.last(),
{
    if !keep.contains(id.0) {
        let k = choose|k: int| 0 <= k < stack.len() && stack[k] == id;
        if k < stack.len() - 1 {
            assert(stack.drop_last()[k] == id);
        }
    }
}

impl DDManager {
    /// Node `y` can be reached from node `x`.
    pub open spec fn reaches(&self, x: int, y: int) -> bool {
        reaches(self.nodes@, self.var2level@, x, y)
    }

    /// Node `y` can be reached from one of the roots.
    pub open spec fn reachable_from(&self, roots: Seq<NodeID>, y: int) -> bool {
        exists|i: int| 0 <= i < roots.len() && #[trigger] self.reaches(roots[i].0 as int, y)
    }

    /// Every node reachable from `x` is live and lies at or below `x`.
    pub proof fn lemma_reaches_live(&self, x: int, y: int)
        requires
            self.wf(),
            self.live(x),
            self.reaches(x, y),
        ensures
            self.live(y),
            self.level(y) >= self.level(x),
        decreases self.terminal_level() - self.level(x),
    {
        self.lemma_ordered();
        self.lemma_level_bound(x);
        if x != y {
            self.lemma_inner(x);
            let n = self.node(x);
            if self.reaches(n.low.0 as int, y) {
                self.lemma_reaches_live(n.low.0 as int, y);
            } else {
                self.lemma_reaches_live(n.high.0 as int, y);
            }
        }
    }

    /// The children of a node reachable from `x` are reachable from `x`.
    pub proof fn lemma_reaches_child(&self, x: int, y: int)
        requires
            self.wf(),
            self.live(x),
            self.reaches(x, y),
        ensures
            self.reaches(x, self.node(y).low.0 as int) || self.node(y).var.0 == 0,
            self.reaches(x, self.node(y).high.0 as int) || self.node(y).var.0 == 0,
        decreases self.terminal_level() - self.level(x),
    {
        self.lemma_ordered();
        self.lemma_level_bound(x);
        if x == y {
            if self.node(x).var.0 != 0 {
                self.lemma_inner(x);
                let n = self.node(x);
                self.lemma_level_bound(n.low.0 as int);
                self.lemma_level_bound(n.high.0 as int);
                assert(self.reaches(n.low.0 as int, n.low.0 as int));
                assert(self.reaches(n.high.0 as int, n.high.0 as int));
            }
        } else {
            self.lemma_inner(x);
            let n = self.node(x);
            if self.reaches(n.low.0 as int, y) {
                self.lemma_reaches_child(n.low.0 as int, y);
            } else {
                self.lemma_reaches_child(n.high.0 as int, y);
            }
        }
    }

    /// A set holding `x` and the children of each of its inner nodes holds all that `x` reaches.
    pub proof fn lemma_reaches_closed(&self, s: Set<usize>, x: int, y: int)
        requires
            self.wf(),
            self.live(x),
            s.contains(x as usize),
            0 <= x,
            forall|z: usize| #[trigger] s.contains(z) && self.live(z as int) && self.node(z as int).var.0 != 0
                ==> s.contains(self.node(z as int).low.0) && s.contains(self.node(z as int).high.0),
            self.reaches(x, y),
        ensures
            s.contains(y as usize),
        decreases self.terminal_level() - self.level(x),
    {
        self.lemma_ordered();
        self.lemma_level_bound(x);
        if x != y {
            self.lemma_inner(x);
            let n = self.node(x);
            assert(s.contains(x as usize));
            if self.reaches(n.low.0 as int, y) {
                self.lemma_reaches_closed(s, n.low.0 as int, y);
            } else {
                self.lemma_reaches_closed(s, n.high.0 as int, y);
            }
        }
    }

    /// The state of the depth-first search in `get_reachable`: every node seen or waiting is
    /// live and reachable, every root and every child of a seen inner node is seen or waiting.
    #[verifier::opaque]
    pub open spec fn dfs_inv(&self, roots: Seq<NodeID>, keep: Set<usize>, stack: Seq<NodeID>) -> bool {
        &&& forall|y: usize| #[trigger] keep.contains(y) ==> self.live(y as int) && self.reachable_from(roots, y as int)
        &&& forall|i: int| 0 <= i < stack.len() ==> self.live(#[trigger] stack[i].0 as int)
            && self.reachable_from(roots, stack[i].0 as int)
        &&& forall|i: int| 0 <= i < roots.len() ==> covered(keep, stack, #[trigger] roots[i])
        &&& forall|z: usize| #[trigger] keep.contains(z) && self.node(z as int).var.0 != 0 ==>
            covered(keep, stack, self.node(z as int).low) && covered(keep, stack, self.node(z as int).high)
    }

    /// The search starts with the roots waiting.
    proof fn lemma_dfs_start(&self, roots: Seq<NodeID>)
        requires
            self.wf(),
            forall|i: int| 0 <= i < roots.len() ==> self.live(#[trigger] roots[i].0 as int),
        ensures
            self.dfs_inv(roots, Set::empty(), roots),
    {
        reveal(DDManager::dfs_inv);
        self.lemma_ordered();
        assert forall|i: int| 0 <= i < roots.len() implies self.live(#[trigger] roots[i].0 as int)
            && self.reachable_from(roots, roots[i].0 as int) by {
            assert(self.reaches(roots[i].0 as int, roots[i].0 as int));
        }
        assert forall|i: int| 0 <= i < roots.len() implies covered(Set::empty(), roots, #[trigger] roots[i]) by {
            assert(roots[i] == roots[i]);
        }
    }

    /// The node waiting on top of the stack is live and reachable.
    proof fn lemma_dfs_top(&self, roots: Seq<NodeID>, keep: Set<usize>, stack: Seq<NodeID>)
        requires
            self.dfs_inv(roots, keep, stack),
            stack.len() > 0,
        ensures
            self.live(stack.last().0 as int),
            self.reachable_from(roots, stack.last().0 as int),
            forall|y: usize| #[trigger] keep.contains(y) ==> self.live(y as int),
    {
        reveal(DDManager::dfs_inv);
        assert(self.live(stack[stack.len() - 1].0 as int));
    }

    /// Dropping a node already seen from the stack keeps the search state.
    proof fn lemma_dfs_skip(&self, roots: Seq<NodeID>, keep: Set<usize>, stack: Seq<NodeID>)
        requires
            self.dfs_inv(roots, keep, stack),
            stack.len() > 0,
            keep.contains(stack.last().0),
        ensures
            self.dfs_inv(roots, keep, stack.drop_last()),
    {
        reveal(DDManager::dfs_inv);
        let s2 = stack.drop_last();
        assert forall|i: int| 0 <= i < s2.len() implies self.live(#[trigger] s2[i].0 as int)
            && self.reachable_from(roots, s2[i].0 as int) by {
            assert(s2[i] == stack[i]);
        }
        assert forall|i: int| 0 <= i < roots.len() implies covered(keep, s2, #[trigger] roots[i]) by {
            lemma_pop_covered(keep, stack, roots[i]);
        }
        assert forall|z: usize| #[trigger] keep.contains(z) && self.node(z as int).var.0 != 0 implies
            covered(keep, s2, self.node(z as int).low) && covered(keep, s2, self.node(z as int).high) by {
            lemma_pop_covered(keep, stack, self.node(z as int).low);
            lemma_pop_covered(keep, stack, self.node(z as int).high);
        }
    }

    /// Seeing the node on top of the stack and pushing its children keeps the search state.
    proof fn lemma_dfs_visit(&self, roots: Seq<NodeID>, keep: Set<usize>, stack: Seq<NodeID>)
        requires
            self.wf(),
            self.dfs_inv(roots, keep, stack),
            stack.len() > 0,
            !keep.contains(stack.last().0),
        ensures
            ({
                let x = stack.last();
                let n = self.node(x.0 as int);
                self.dfs_inv(roots, keep.insert(x.0), stack.drop_last().push(n.low).push(n.high))
            }),
    {
        reveal(DDManager::dfs_inv);
        let x = stack.last();
        let n = self.node(x.0 as int);
        let keep2 = keep.insert(x.0);
        let s1 = stack.drop_last();
        let s2 = s1.push(n.low).push(n.high);
        assert(self.live(stack[stack.len() - 1].0 as int));
        let i0 = choose|i: int| 0 <= i < roots.len() && #[trigger] self.reaches(roots[i].0 as int, x.0 as int);
        self.lemma_reaches_child(roots[i0].0 as int, x.0 as int);
        self.lemma_level_bound(x.0 as int);
        if n.var.0 != 0 {
            self.lemma_inner(x.0 as int);
        } else {
            self.lemma_terminals();
            assert(x.0 < 2);
        }
        assert(self.live(n.low.0 as int) && self.live(n.high.0 as int));
        assert(self.reachable_from(roots, n.low.0 as int));
        assert(self.reachable_from(roots, n.high.0 as int));
        assert(s2[s2.len() - 1] == n.high);
        assert(s2[s2.len() - 2] == n.low);
        assert forall|i: int| 0 <= i < s2.len() implies self.live(#[trigger] s2[i].0 as int)
            && self.reachable_from(roots, s2[i].0 as int) by {
            if i < s1.len() {
                assert(s2[i] == stack[i]);
            }
        }
        assert forall|id: NodeID| covered(keep, stack, id) implies #[trigger] covered(keep2, s2, id) by {
            lemma_pop_covered(keep, stack, id);
            if id != x && !keep.contains(id.0) {
                let k = choose|k: int| 0 <= k < s1.len() && s1[k] == id;
                assert(s2[k] == id);
            }
        }
        assert forall|i: int| 0 <= i < roots.len() implies covered(keep2, s2, #[trigger] roots[i]) by {
            assert(covered(keep, stack, roots[i]));
        }
        assert forall|z: usize| #[trigger] keep2.contains(z) && self.node(z as int).var.0 != 0 implies
            covered(keep2, s2, self.node(z as int).low) && covered(keep2, s2, self.node(z as int).high) by {
            if z == x.0 {
                assert(s2.contains(n.low));
                assert(s2.contains(n.high));
            } else {
                assert(keep.contains(z));
                assert(covered(keep, stack, self.node(z as int).low));
                assert(covered(keep, stack, self.node(z as int).high));
            }
        }
    }

    /// Once nothing waits, the nodes seen are exactly the reachable ones.
    proof fn lemma_dfs_done(&self, roots: Seq<NodeID>, keep: Set<usize>)
        requires
            self.wf(),
            self.dfs_inv(roots, keep, Seq::empty()),
        ensures
            forall|y: usize| #[trigger] keep.contains(y) <==> self.reachable_from(roots, y as int),
            forall|y: usize| #[trigger] keep.contains(y) ==> self.live(y as int),
    {
        reveal(DDManager::dfs_inv);
        assert forall|y: usize| #[trigger] keep.contains(y) <== self.reachable_from(roots, y as int) by {
            if self.reachable_from(roots, y as int) {
                let i = choose|i: int| 0 <= i < roots.len() && #[trigger] self.reaches(roots[i].0 as int, y as int);
                assert(covered(keep, Seq::empty(), roots[i]));
                assert(keep.contains(roots[i].0));
                assert forall|z: usize| #[trigger] keep.contains(z) && self.live(z as int) && self.node(z as int).var.0 != 0
                    implies keep.contains(self.node(z as int).low.0) && keep.contains(self.node(z as int).high.0) by {
                    assert(covered(keep, Seq::empty(), self.node(z as int).low));
                    assert(covered(keep, Seq::empty(), self.node(z as int).high));
                }
                self.lemma_reaches_closed(keep, roots[i].0 as int, y as int);
            }
        }
    }

    /// Returns the set of all nodes reachable from the given root nodes.
    pub fn get_reachable(&self, roots: &[NodeID]) -> (r: HashSet<usize>)
        requires
            self.wf(),
            forall|i: int| 0 <= i < roots@.len() ==> self.live(#[trigger] roots@[i].0 as int),
        ensures
            forall|y: usize| #[trigger] r@.contains(y) <==> self.reachable_from(roots@, y as int),
            forall|y: usize| #[trigger] r@.contains(y) ==> self.live(y as int),
    {
        let ghost n = self.nodes@.len();
        let mut keep: HashSet<usize> = HashSet::new();
        let mut stack: Vec<NodeID> = Vec::new();
        let mut j: usize = 0;
        while j < roots.len()
            invariant
                j <= roots@.len(),
                stack@ == roots@.subrange(0, j as int),
            decreases roots@.len() - j,
        {
            stack.push(roots[j]);
            j = j + 1;
        }
        proof {
            assert(stack@ == roots@);
            assert(keep@ == Set::<usize>::empty());
            self.lemma_dfs_start(roots@);
            lemma_bounded_set(keep@, self.nodes.len());
        }
        while stack.len() > 0
            invariant
                self.wf(),
                n == self.nodes@.len(),
                self.dfs_inv(roots@, keep@, stack@),
            decreases n - keep@.len(), stack@.len(),
        {
            proof {
                self.lemma_dfs_top(roots@, keep@, stack@);
                lemma_bounded_set(keep@, self.nodes.len());
            }
            let ghost old_keep = keep@;
            let ghost old_stack = stack@;
            let x = stack.pop().unwrap();
            proof {
                assert(stack@ == old_stack.drop_last());
            }
            if keep.contains(&x.0) {
                proof {
                    self.lemma_dfs_skip(roots@, old_keep, old_stack);
                }
            } else {
                let node = self.nodes[x.0].unwrap();
                stack.push(node.low);
                stack.push(node.high);
                keep.insert(x.0);
                proof {
                    self.lemma_dfs_visit(roots@, old_keep, old_stack);
                    self.lemma_dfs_top(roots@, old_keep, old_stack);
                    lemma_bounded_set(keep@, self.nodes.len());
                }
            }
        }
        proof {
            assert(stack@ == Seq::<NodeID>::empty());
            self.lemma_dfs_done(roots@, keep@);
        }
        keep
    }

    /// Counts the nodes reachable from `f`, terminals included.
    pub fn count_active(&self, f: NodeID) -> (r: usize)
        requires
            self.wf(),
            self.live(f.0 as int),
        ensures
            r == Set::new(|y: usize| self.reaches(f.0 as int, y as int)).len(),
    {
        let mut roots: Vec<NodeID> = Vec::new();
        roots.push(f);
        let keep = self.get_reachable(roots.as_slice());
        proof {
            assert(keep@ =~= Set::new(|y: usize| self.reaches(f.0 as int, y as int))) by {
                assert forall|y: usize| keep@.contains(y) == self.reaches(f.0 as int, y as int) by {
                    if self.reaches(f.0 as int, y as int) {
                        assert(roots@[0] == f);
                    }
                }
            }
        }
        keep.len()
    }
}

/// A set of node IDs holds the children of each of its inner nodes.
pub open spec fn closed_under_children(man: &DDManager, keep: Set<usize>) -> bool {
    forall|y: usize| #[trigger] keep.contains(y) ==> man.live(y as int) && (man.node(y as int).var.0 != 0
        ==> keep.contains(man.node(y as int).low.0) && keep.contains(man.node(y as int).high.0))
}

/// `new` is `old` with every inner node outside `keep` removed, its unique-table entry
/// dropped, and empty computed tables.
pub open spec fn purged(old: &DDManager, new: &DDManager, keep: Set<usize>) -> bool {
    let n = old.nodes@.len();
    &&& new.var2level@ == old.var2level@
    &&& new.nodes@.len() == n
    &&& forall|j: int| 0 <= j < n ==> #[trigger] new.nodes@[j] == if 2 <= j && !keep.contains(j as usize) {
        None
    } else {
        old.nodes@[j]
    }
    &&& new.var2nodes@.len() == old.var2nodes@.len()
    &&& forall|v: int, k: u128| 0 <= v < new.var2nodes@.len() ==> (#[trigger] new.var2nodes@[v]@.contains_key(k)
        <==> (old.var2nodes@[v]@.contains_key(k) && keep.contains(old.var2nodes@[v]@[k])))
    &&& forall|v: int, k: u128| 0 <= v < new.var2nodes@.len() && #[trigger] new.var2nodes@[v]@.contains_key(k)
        ==> new.var2nodes@[v]@[k] == old.var2nodes@[v]@[k]
    &&& new.ite_c_table@ == Map::<u128, (usize, usize, usize, usize)>::empty()
    &&& new.apply_c_table@ == Map::<u128, (usize, usize, usize, usize)>::empty()
    &&& new.free_wf()
}

/// Removing the nodes outside a set closed under children keeps the manager well formed, and
/// every remaining node keeps its function.
pub proof fn lemma_purge_wf(old: &DDManager, new: &DDManager, keep: Set<usize>)
    requires
        old.wf(),
        closed_under_children(old, keep),
        purged(old, new, keep),
    ensures
        new.wf(),
        forall|id: int| #[trigger] new.live(id) <==> old.live(id) && (id < 2 || keep.contains(id as usize)),
        forall|id: int| #[trigger] new.live(id) ==> new.node(id) == old.node(id),
        forall|id: int, a: Assignment| #[trigger] new.sem(id, a) == old.sem(id, a) <== new.live(id),
{
    reveal(DDManager::wf);
    let n = old.nodes@.len();
    let v2l = old.var2level@;
    assert forall|id: int| #[trigger] new.live(id) <==> old.live(id) && (id < 2 || keep.contains(id as usize)) by {
        if 0 <= id < n {
            assert(new.nodes@[id] == if 2 <= id && !keep.contains(id as usize) { None } else { old.nodes@[id] });
        }
    }
    assert forall|i: int| #![trigger live_in(new.nodes@, i)] live_in(new.nodes@, i) implies {
        let nd = node_in(new.nodes@, i);
        &&& nd.var.0 < v2l.len()
        &&& v2l[nd.var.0 as int] <= v2l[0]
        &&& nd.var.0 != 0 ==> {
            &&& live_in(new.nodes@, nd.low.0 as int)
            &&& live_in(new.nodes@, nd.high.0 as int)
            &&& level_in(new.nodes@, v2l, nd.low.0 as int) > v2l[nd.var.0 as int]
            &&& level_in(new.nodes@, v2l, nd.high.0 as int) > v2l[nd.var.0 as int]
        }
    } by {
        assert(new.live(i));
        assert(new.nodes@[i] == old.nodes@[i]);
        assert(live_in(old.nodes@, i));
        let nd = node_in(old.nodes@, i);
        if nd.var.0 != 0 {
            if i < 2 {
                assert(old.terminals_wf());
            }
            assert(keep.contains(i as usize));
            assert(keep.contains(nd.low.0) && keep.contains(nd.high.0));
            assert(new.live(nd.low.0 as int));
            assert(new.live(nd.high.0 as int));
            assert(new.nodes@[nd.low.0 as int] == old.nodes@[nd.low.0 as int]);
            assert(new.nodes@[nd.high.0 as int] == old.nodes@[nd.high.0 as int]);
        }
    }
    assert(ordered(new.nodes@, v2l));
    assert(extends(new.nodes@, old.nodes@)) by {
        assert forall|i: int| #![trigger new.nodes@[i]] 0 <= i < new.nodes@.len() && new.nodes@[i] is Some
            implies old.nodes@[i] == new.nodes@[i] by {}
    }
    lemma_eval_extends_all(new.nodes@, old.nodes@, v2l);
    assert forall|id: int| #[trigger] new.live(id) implies new.node(id) == old.node(id) by {
        assert(new.nodes@[id] == old.nodes@[id]);
    }
    assert(new.terminals_wf()) by {
        assert(new.nodes@[0] == old.nodes@[0]);
        assert(new.nodes@[1] == old.nodes@[1]);
    }
    assert(new.levels_wf());
    assert(new.inner_wf()) by {
        assert forall|i: int| #![trigger new.live(i)] 2 <= i && new.live(i) implies {
            let nd = new.node(i);
            &&& nd.id.0 == i
            &&& nd.var.0 != 0
            &&& nd.low != nd.high
            &&& nd.var.0 < new.var2nodes@.len()
            &&& new.var2nodes@[nd.var.0 as int]@.contains_key(key2(nd.low.0, nd.high.0))
            &&& new.var2nodes@[nd.var.0 as int]@[key2(nd.low.0, nd.high.0)] == i
        } by {
            assert(old.live(i));
            assert(keep.contains(i as usize));
            let nd = old.node(i);
            assert(new.node(i) == nd);
            let v = nd.var.0 as int;
            let k = key2(nd.low.0, nd.high.0);
            assert(old.inner_wf());
            assert(old.var2nodes@[v]@.contains_key(k));
            assert(old.var2nodes@[v]@[k] == i);
            assert(0 <= v < new.var2nodes@.len());
            assert(new.var2nodes@[v]@.contains_key(k));
            assert(new.var2nodes@[v]@[k] == i);
        }
    }
    assert(new.unique_wf()) by {
        assert forall|v: int, k: u128|
            0 <= v < new.var2nodes@.len() && #[trigger] new.var2nodes@[v]@.contains_key(k) implies {
                let i = new.var2nodes@[v]@[k] as int;
                &&& new.live(i)
                &&& i >= 2
                &&& new.node(i).var.0 == v
                &&& key2(new.node(i).low.0, new.node(i).high.0) == k
            } by {
            let i = old.var2nodes@[v]@[k] as int;
            assert(old.live(i));
            assert(keep.contains(i as usize));
            assert(new.live(i));
        }
    }
    assert(new.ite_cache_wf());
    assert(new.apply_cache_wf());
}

impl DDManager {
    /// Removes nodes which do not belong to any of the BDDs with the specified root nodes from
    /// the manager. The computed tables are emptied, since they may name removed nodes.
    ///
    /// * `roots` - The root nodes of the BDDs which should remain in the manager.
    pub fn purge_retain_multi(&mut self, roots: &[NodeID])
        requires
            old(self).wf(),
            forall|i: int| 0 <= i < roots@.len() ==> old(self).live(#[trigger] roots@[i].0 as int),
        ensures
            final(self).wf(),
            final(self).var2level@ == old(self).var2level@,
            forall|id: int| #[trigger] final(self).live(id) <==> old(self).live(id)
                && (id < 2 || old(self).reachable_from(roots@, id)),
            forall|id: int| #[trigger] final(self).live(id) ==> final(self).node(id) == old(self).node(id),
            forall|id: int, a: Assignment| #[trigger] final(self).sem(id, a) == old(self).sem(id, a)
                <== final(self).live(id),
            forall|i: int| 0 <= i < roots@.len() ==> final(self).live(#[trigger] roots@[i].0 as int),
            forall|i: int, a: Assignment| 0 <= i < roots@.len() ==>
                #[trigger] final(self).sem(roots@[i].0 as int, a) == old(self).sem(roots@[i].0 as int, a),
    {
        let keep = self.get_reachable(roots);
        proof {
            assert forall|y: usize| #[trigger] keep@.contains(y) implies self.live(y as int) && (self.node(y as int).var.0 != 0
                ==> keep@.contains(self.node(y as int).low.0) && keep@.contains(self.node(y as int).high.0)) by {
                let i = choose|i: int| 0 <= i < roots@.len() && #[trigger] self.reaches(roots@[i].0 as int, y as int);
                self.lemma_reaches_child(roots@[i].0 as int, y as int);
            }
            assert(closed_under_children(self, keep@));
            assert forall|i: int| 0 <= i < roots@.len() implies #[trigger] keep@.contains(roots@[i].0) by {
                self.lemma_ordered();
                assert(self.reaches(roots@[i].0 as int, roots@[i].0 as int));
            }
        }
        proof {
            self.lemma_terminals();
            self.lemma_free_wf();
            assert forall|v: int, k: u128| 0 <= v < self.var2nodes@.len() implies (#[trigger] self.var2nodes@[v]@.contains_key(k)
                <==> (old(self).var2nodes@[v]@.contains_key(k) && !(old(self).var2nodes@[v]@[k] < 2
                && !keep@.contains(old(self).var2nodes@[v]@[k])))) by {
                if old(self).var2nodes@[v]@.contains_key(k) {
                    old(self).lemma_unique_entry(v, k);
                }
            }
        }
        let n = self.nodes.len();
        let mut i: usize = 2;
        while i < n
            invariant
                old(self).wf(),
                closed_under_children(old(self), keep@),
                2 <= i <= n,
                n == old(self).nodes@.len(),
                self.nodes@.len() == n,
                self.var2level@ == old(self).var2level@,
                forall|j: int| 0 <= j < n ==> #[trigger] self.nodes@[j] == if 2 <= j < i && !keep@.contains(j as usize) {
                    None
                } else {
                    old(self).nodes@[j]
                },
                self.var2nodes@.len() == old(self).var2nodes@.len(),
                forall|v: int, k: u128| 0 <= v < self.var2nodes@.len() ==> (#[trigger] self.var2nodes@[v]@.contains_key(k)
                    <==> (old(self).var2nodes@[v]@.contains_key(k) && !(old(self).var2nodes@[v]@[k] < i
                    && !keep@.contains(old(self).var2nodes@[v]@[k])))),
                forall|v: int, k: u128| 0 <= v < self.var2nodes@.len() && #[trigger] self.var2nodes@[v]@.contains_key(k)
                    ==> self.var2nodes@[v]@[k] == old(self).var2nodes@[v]@[k],
                self.free_slots@.no_duplicates(),
                forall|k: int| 0 <= k < self.free_slots@.len() ==> {
                    let s = #[trigger] self.free_slots@[k];
                    &&& 2 <= s < n
                    &&& self.nodes@[s as int] is None
                },
            decreases n - i,
        {
            if !keep.contains(&i) {
                match self.nodes[i] {
                    Some(node) => {
                        let ghost before = *self;
                        proof {
                            assert(self.nodes@[i as int] == old(self).nodes@[i as int]);
                            old(self).lemma_inner(i as int);
                            old(self).lemma_inner_unique(i as int);
                        }
                        let k = pair_key(node.low.0, node.high.0);
                        self.var2nodes[node.var.0].remove(&k);
                        self.nodes.set(i, None);
                        proof {
                            assert(!self.free_slots@.contains(i)) by {
                                if self.free_slots@.contains(i) {
                                    let t = choose|t: int| 0 <= t < self.free_slots@.len() && self.free_slots@[t] == i;
                                    assert(before.nodes@[i as int] is None);
                                }
                            }
                        }
                        self.free_slots.push(i);
                        proof {
                            assert forall|v: int, kk: u128| 0 <= v < self.var2nodes@.len() implies (#[trigger] self.var2nodes@[v]@.contains_key(kk)
                                <==> (old(self).var2nodes@[v]@.contains_key(kk) && !(old(self).var2nodes@[v]@[kk] < i + 1
                                && !keep@.contains(old(self).var2nodes@[v]@[kk])))) by {
                                if old(self).var2nodes@[v]@.contains_key(kk) {
                                    old(self).lemma_unique_entry(v, kk);
                                }
                            }
                            assert forall|t: int| 0 <= t < self.free_slots@.len() implies {
                                let s = #[trigger] self.free_slots@[t];
                                &&& 2 <= s < n
                                &&& self.nodes@[s as int] is None
                            } by {
                                if t < before.free_slots@.len() {
                                    assert(self.free_slots@[t] == before.free_slots@[t]);
                                }
                            }
                        }
                    },
                    None => {
                        proof {
                            assert forall|v: int, kk: u128| 0 <= v < self.var2nodes@.len() implies (#[trigger] self.var2nodes@[v]@.contains_key(kk)
                                <==> (old(self).var2nodes@[v]@.contains_key(kk) && !(old(self).var2nodes@[v]@[kk] < i + 1
                                && !keep@.contains(old(self).var2nodes@[v]@[kk])))) by {
                                if old(self).var2nodes@[v]@.contains_key(kk) {
                                    old(self).lemma_unique_entry(v, kk);
                                    assert(self.nodes@[i as int] == old(self).nodes@[i as int]);
                                }
                            }
                        }
                    },
                }
            } else {
                proof {
                    assert forall|v: int, kk: u128| 0 <= v < self.var2nodes@.len() implies (#[trigger] self.var2nodes@[v]@.contains_key(kk)
                        <==> (old(self).var2nodes@[v]@.contains_key(kk) && !(old(self).var2nodes@[v]@[kk] < i + 1
                        && !keep@.contains(old(self).var2nodes@[v]@[kk])))) by {}
                }
            }
            i = i + 1;
        }
        self.ite_c_table.clear();
        self.apply_c_table.clear();
        proof {
            assert forall|v: int, k: u128| 0 <= v < self.var2nodes@.len() implies (#[trigger] self.var2nodes@[v]@.contains_key(k)
                <==> (old(self).var2nodes@[v]@.contains_key(k) && keep@.contains(old(self).var2nodes@[v]@[k]))) by {
                if old(self).var2nodes@[v]@.contains_key(k) {
                    old(self).lemma_unique_entry(v, k);
                }
            }
            assert(self.free_wf());
            assert(purged(old(self), self, keep@));
            lemma_purge_wf(old(self), self, keep@);
            assert forall|i: int| 0 <= i < roots@.len() implies self.live(#[trigger] roots@[i].0 as int) by {
                assert(keep@.contains(roots@[i].0));
            }
            assert forall|i: int, a: Assignment| 0 <= i < roots@.len() implies
                #[trigger] self.sem(roots@[i].0 as int, a) == old(self).sem(roots@[i].0 as int, a) by {
                assert(self.live(roots@[i].0 as int));
            }
        }
    }

    /// Removes nodes which do not belong to the BDD with the specified root node from the manager.
    ///
    /// * `root` - The root node of the BDD which should remain in the manager.
    pub fn purge_retain(&mut self, root: NodeID)
        requires
            old(self).wf(),
            old(self).live(root.0 as int),
        ensures
            final(self).wf(),
            final(self).var2level@ == old(self).var2level@,
            forall|id: int| #[trigger] final(self).live(id) <==> old(self).live(id)
                && (id < 2 || old(self).reaches(root.0 as int, id)),
            forall|id: int| #[trigger] final(self).live(id) ==> final(self).node(id) == old(self).node(id),
            forall|id: int, a: Assignment| #[trigger] final(self).sem(id, a) == old(self).sem(id, a)
                <== final(self).live(id),
            final(self).live(root.0 as int),
            forall|a: Assignment| #[trigger] final(self).sem(root.0 as int, a) == old(self).sem(root.0 as int, a),
    {
        let mut roots: Vec<NodeID> = Vec::new();
        roots.push(root);
        self.purge_retain_multi(roots.as_slice());
        proof {
            assert(roots@[0] == root);
            assert forall|id: int| #[trigger] self.live(id) <==> old(self).live(id)
                && (id < 2 || old(self).reaches(root.0 as int, id)) by {
                if old(self).reaches(root.0 as int, id) {
                    assert(old(self).reachable_from(roots@, id));
                }
            }
            assert(self.live(roots@[0].0 as int));
            assert forall|a: Assignment| #[trigger] self.sem(root.0 as int, a) == old(self).sem(root.0 as int, a) by {
                assert(self.sem(roots@[0].0 as int, a) == old(self).sem(roots@[0].0 as int, a));
            }
        }
    }

    /// Empties the computed tables.
    pub fn clear_c_table(&mut self)
        requires
            old(self).wf(),
        ensures
            final(self).wf(),
            final(self).keeps(old(self)),
            final(self).nodes@ == old(self).nodes@,
            final(self).var2level@ == old(self).var2level@,
            final(self).ite_c_table@ == Map::<u128, (usize, usize, usize, usize)>::empty(),
            final(self).apply_c_table@ == Map::<u128, (usize, usize, usize, usize)>::empty(),
    {
        proof { reveal(DDManager::wf); }
        self.ite_c_table.clear();
        self.apply_c_table.clear();
        assert(self.inner_wf()) by {
            assert forall|i: int| #![trigger self.live(i)] 2 <= i && self.live(i) implies {
                let n = self.node(i);
                &&& n.id.0 == i
                &&& n.var.0 != 0
                &&& n.low != n.high
                &&& n.var.0 < self.var2nodes@.len()
                &&& self.var2nodes@[n.var.0 as int]@.contains_key(key2(n.low.0, n.high.0))
                &&& self.var2nodes@[n.var.0 as int]@[key2(n.low.0, n.high.0)] == i
            } by {
                assert(old(self).live(i));
            }
        }
        assert(self.unique_wf()) by {
            assert forall|v: int, k: u128|
                0 <= v < self.var2nodes@.len() && #[trigger] self.var2nodes@[v]@.contains_key(k) implies {
                    let i = self.var2nodes@[v]@[k] as int;
                    &&& self.live(i)
                    &&& i >= 2
                    &&& self.node(i).var.0 == v
                    &&& key2(self.node(i).low.0, self.node(i).high.0) == k
                } by {
                assert(old(self).var2nodes@[v]@.contains_key(k));
            }
        }
    }
}

} // verus!
