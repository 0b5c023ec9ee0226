//! Swaps recorded in a context: the effect of a further swap on the size of a diagram, measured
//! without touching the manager, and carrying out the recorded swaps.
use vstd::prelude::*;
use std::collections::HashMap;
use crate::bdd_node::{NodeID, VarID};
use crate::bdd_manager::DDManager;
use crate::dvo::{SwapContext, permuted};
use crate::semantics::Assignment;
use crate::sifting::clamp_isize;
use crate::swap::swapped_levels;
use crate::bdd_manager::key2;

verus! {

/// Each recorded swap exchanges two variables (not the terminal one) that lie on adjacent
/// levels once the swaps before it are done.
pub open spec fn swaps_adjacent(v2l: Seq<usize>, swaps: Seq<(VarID, VarID)>) -> bool {
    forall|k: int| #![trigger swaps[k]] 0 <= k < swaps.len() ==> {
        let p = permuted(v2l, swaps.take(k));
        let (a, b) = swaps[k];
        &&& 1 <= a.0 < v2l.len()
        &&& 1 <= b.0 < v2l.len()
        &&& (p[b.0 as int] == p[a.0 as int] + 1 || p[a.0 as int] == p[b.0 as int] + 1)
    }
}

/// Some well-formed manager with level table `v2l` holds a node with the function of node `f`
/// of `man`.
pub open spec fn has_diagram(m: DDManager, g: int, v2l: Seq<usize>, man: DDManager, f: int) -> bool {
    &&& m.wf()
    &&& m.nodes@.len() <= usize::MAX
    &&& m.var2level@ == v2l
    &&& m.live(g)
    &&& forall|a: Assignment| #[trigger] m.sem(g, a) == man.sem(f, a)
}

/// The number of nodes of the diagram of the function of node `f` of `man` under the level
/// table `v2l` (the same in every well-formed manager that holds it).
pub open spec fn size_under(v2l: Seq<usize>, man: DDManager, f: int) -> int {
    let (m, g) = choose|m: DDManager, g: int| #[trigger] has_diagram(m, g, v2l, man, f);
    m.diagram_size(g) as int
}

/// A manager holding the diagram tells its size under its level table.
pub proof fn lemma_size_under(m: DDManager, g: int, v2l: Seq<usize>, man: DDManager, f: int)
    requires
        has_diagram(m, g, v2l, man, f),
    ensures
        size_under(v2l, man, f) == m.diagram_size(g),
{
    let (m1, g1) = choose|m1: DDManager, g1: int| #[trigger] has_diagram(m1, g1, v2l, man, f);
    assert(has_diagram(m1, g1, v2l, man, f));
    assert forall|a: Assignment| #[trigger] m.sem(g, a) == m1.sem(g1, a) by {
        assert(m.sem(g, a) == man.sem(f, a));
        assert(m1.sem(g1, a) == man.sem(f, a));
    }
    crate::canonical::lemma_same_function_same_size(&m, &m1, g, g1);
}

/// Recording one more swap: the swaps before it stay valid, and it exchanges two variables on
/// adjacent levels of the table they leave.
pub proof fn lemma_adjacent_push(v2l: Seq<usize>, swaps: Seq<(VarID, VarID)>, a: VarID, b: VarID)
    requires
        swaps_adjacent(v2l, swaps.push((a, b))),
    ensures
        swaps_adjacent(v2l, swaps),
        1 <= a.0 < v2l.len(),
        1 <= b.0 < v2l.len(),
        permuted(v2l, swaps)[b.0 as int] == permuted(v2l, swaps)[a.0 as int] + 1
            || permuted(v2l, swaps)[a.0 as int] == permuted(v2l, swaps)[b.0 as int] + 1,
{
    let k = swaps.len() as int;
    let s2 = swaps.push((a, b));
    assert(s2[k] == (a, b));
    assert(s2.take(k) =~= swaps);
    assert forall|j: int| #![trigger swaps[j]] 0 <= j < swaps.len() implies {
        let p = permuted(v2l, swaps.take(j));
        let (x, y) = swaps[j];
        &&& 1 <= x.0 < v2l.len()
        &&& 1 <= y.0 < v2l.len()
        &&& (p[y.0 as int] == p[x.0 as int] + 1 || p[x.0 as int] == p[y.0 as int] + 1)
    } by {
        assert(s2[j] == swaps[j]);
        assert(s2.take(j) =~= swaps.take(j));
    }
}

/// Recording a swap after those of `prev` exchanges the levels of `a` and `b` in the table
/// that the swaps of `prev` leave; with no swap recorded the table stays as it is.
pub proof fn lemma_permuted_push(v2l: Seq<usize>, prev: Seq<(VarID, VarID)>, a: VarID, b: VarID)
    ensures
        permuted(v2l, prev.push((a, b))) == swapped_levels(permuted(v2l, prev), a, b),
        permuted(v2l, Seq::<(VarID, VarID)>::empty()) == v2l,
{
    assert(prev.push((a, b)).drop_last() =~= prev);
}

/// Swapping entries of the table keeps its length.
proof fn lemma_permuted_len(v2l: Seq<usize>, swaps: Seq<(VarID, VarID)>)
    requires
        forall|k: int| 0 <= k < swaps.len() ==> (#[trigger] swaps[k]).0.0 < v2l.len() && swaps[k].1.0 < v2l.len(),
    ensures
        permuted(v2l, swaps).len() == v2l.len(),
    decreases swaps.len(),
{
    if swaps.len() > 0 {
        let rest = swaps.drop_last();
        assert forall|k: int| 0 <= k < rest.len() implies (#[trigger] rest[k]).0.0 < v2l.len() && rest[k].1.0 < v2l.len() by {
            assert(rest[k] == swaps[k]);
        }
        lemma_permuted_len(v2l, rest);
        assert(swaps[swaps.len() - 1] == swaps.last());
    }
}

/// Recording the same swap of adjacent variables twice in a row gives back the level table from
/// before the first, and the second swap is again one of adjacent levels.
proof fn lemma_swap_back_table(v2l: Seq<usize>, prev: Seq<(VarID, VarID)>, a: VarID, b: VarID)
    requires
        swaps_adjacent(v2l, prev.push((a, b))),
    ensures
        permuted(v2l, prev.push((a, b)).push((a, b))) == permuted(v2l, prev),
        swaps_adjacent(v2l, prev.push((a, b)).push((a, b))),
{
    lemma_adjacent_push(v2l, prev, a, b);
    let s1 = prev.push((a, b));
    let s2 = s1.push((a, b));
    let p = permuted(v2l, prev);
    lemma_permuted_push(v2l, prev, a, b);
    lemma_permuted_push(v2l, s1, a, b);
    let q = permuted(v2l, s1);
    assert forall|k: int| 0 <= k < prev.len() implies (#[trigger] prev[k]).0.0 < v2l.len() && prev[k].1.0 < v2l.len() by {
        assert(prev[k] == prev[k]);
    }
    lemma_permuted_len(v2l, prev);
    assert(a.0 != b.0);
    assert(swapped_levels(q, a, b) =~= p);
    let k1 = s1.len() as int;
    assert(s2[k1] == (a, b));
    assert(s2.take(k1) =~= s1);
    assert(q[a.0 as int] == p[b.0 as int]);
    assert(q[b.0 as int] == p[a.0 as int]);
    assert forall|j: int| #![trigger s2[j]] 0 <= j < s2.len() implies {
        let pj = permuted(v2l, s2.take(j));
        let (x, y) = s2[j];
        &&& 1 <= x.0 < v2l.len()
        &&& 1 <= y.0 < v2l.len()
        &&& (pj[y.0 as int] == pj[x.0 as int] + 1 || pj[x.0 as int] == pj[y.0 as int] + 1)
    } by {
        if j < k1 {
            assert(s2[j] == s1[j]);
            assert(s2.take(j) =~= s1.take(j));
        }
    }
}

/// Recording the same swap of adjacent variables twice in a row gives back the level table from
/// before the first: the second swap is again one of adjacent levels, and the change in size
/// that it brings to the diagram of `f` is the opposite of the change that the first brought.
pub proof fn lemma_swap_back(v2l: Seq<usize>, man: DDManager, f: int, prev: Seq<(VarID, VarID)>, a: VarID, b: VarID)
    requires
        swaps_adjacent(v2l, prev.push((a, b))),
    ensures
        permuted(v2l, prev.push((a, b)).push((a, b))) == permuted(v2l, prev),
        swaps_adjacent(v2l, prev.push((a, b)).push((a, b))),
        size_under(permuted(v2l, prev.push((a, b)).push((a, b))), man, f)
            - size_under(permuted(v2l, prev.push((a, b))), man, f)
            == -(size_under(permuted(v2l, prev.push((a, b))), man, f)
            - size_under(permuted(v2l, prev), man, f)),
{
    lemma_swap_back_table(v2l, prev, a, b);
}

/// Measuring the same swap twice in a row: where the first change in size fits in `isize`,
/// the second result is the first with its sign turned.
pub proof fn lemma_partial_swap_twice(man: DDManager, f: int, prev: Seq<(VarID, VarID)>, a: VarID, b: VarID, d1: isize, d2: isize)
    requires
        swaps_adjacent(man.var2level@, prev.push((a, b))),
        d1 == clamp_isize(size_under(permuted(man.var2level@, prev.push((a, b))), man, f)
            - size_under(permuted(man.var2level@, prev), man, f)),
        d2 == clamp_isize(size_under(permuted(man.var2level@, prev.push((a, b)).push((a, b))), man, f)
            - size_under(permuted(man.var2level@, prev.push((a, b))), man, f)),
        -isize::MAX <= size_under(permuted(man.var2level@, prev.push((a, b))), man, f)
            - size_under(permuted(man.var2level@, prev), man, f) <= isize::MAX,
    ensures
        d2 == -d1,
{
    lemma_swap_back(man.var2level@, man, f, prev, a, b);
}

/// Carrying out the recorded swaps: the diagram of a function afterwards has the size that
/// `size_under` gives for the permuted level table; with nothing recorded before a single swap,
/// that is the size before the swap changed by what `partial_swap` measured for it.
pub proof fn lemma_persisted_size(old: DDManager, new: DDManager, f: int, a: VarID, b: VarID, d: isize)
    requires
        old.wf(),
        old.nodes@.len() <= usize::MAX,
        old.live(f),
        new.wf(),
        new.nodes@.len() <= usize::MAX,
        new.live(f),
        new.var2level@ == permuted(old.var2level@, seq![(a, b)]),
        forall|x: Assignment| #[trigger] new.sem(f, x) == old.sem(f, x),
        d == clamp_isize(size_under(permuted(old.var2level@, seq![(a, b)]), old, f)
            - size_under(permuted(old.var2level@, Seq::<(VarID, VarID)>::empty()), old, f)),
    ensures
        new.diagram_size(f) == size_under(permuted(old.var2level@, seq![(a, b)]), old, f),
        -isize::MAX <= new.diagram_size(f) - old.diagram_size(f) <= isize::MAX
            ==> new.diagram_size(f) == old.diagram_size(f) + d,
{
    let p1 = permuted(old.var2level@, seq![(a, b)]);
    assert(has_diagram(new, f, p1, old, f));
    lemma_size_under(new, f, p1, old, f);
    lemma_permuted_push(old.var2level@, Seq::<(VarID, VarID)>::empty(), a, b);
    assert(has_diagram(old, f, old.var2level@, old, f));
    lemma_size_under(old, f, old.var2level@, old, f);
}

impl DDManager {
    /// A copy of the manager: the same node table, level table, unique and computed tables.
    pub fn copy(&self) -> (r: DDManager)
        requires
            self.wf(),
        ensures
            r.wf(),
            r.nodes@ == self.nodes@,
            r.var2level@ == self.var2level@,
            r.free_slots@ == self.free_slots@,
    {
        let mut nodes: Vec<Option<crate::bdd_node::DDNode>> = Vec::new();
        let mut i: usize = 0;
        while i < self.nodes.len()
            invariant
                i <= self.nodes@.len(),
                nodes@ == self.nodes@.subrange(0, i as int),
            decreases self.nodes@.len() - i,
        {
            nodes.push(self.nodes[i]);
            i = i + 1;
        }
        let mut var2level: Vec<usize> = Vec::new();
        let mut i: usize = 0;
        while i < self.var2level.len()
            invariant
                i <= self.var2level@.len(),
                var2level@ == self.var2level@.subrange(0, i as int),
            decreases self.var2level@.len() - i,
        {
            var2level.push(self.var2level[i]);
            i = i + 1;
        }
        let mut free_slots: Vec<usize> = Vec::new();
        let mut i: usize = 0;
        while i < self.free_slots.len()
            invariant
                i <= self.free_slots@.len(),
                free_slots@ == self.free_slots@.subrange(0, i as int),
            decreases self.free_slots@.len() - i,
        {
            free_slots.push(self.free_slots[i]);
            i = i + 1;
        }
        let mut var2nodes: Vec<HashMap<u128, usize>> = Vec::new();
        let mut i: usize = 0;
        while i < self.var2nodes.len()
            invariant
                i <= self.var2nodes@.len(),
                var2nodes@.len() == i,
                forall|k: int| 0 <= k < i ==> #[trigger] var2nodes@[k]@ == self.var2nodes@[k]@,
            decreases self.var2nodes@.len() - i,
        {
            var2nodes.push(self.var2nodes[i].clone());
            i = i + 1;
        }
        let ite_c_table: HashMap<u128, (usize, usize, usize, usize)> = HashMap::new();
        let apply_c_table: HashMap<u128, (usize, usize, usize, usize)> = HashMap::new();
        let r = DDManager { nodes, var2level, var2nodes, ite_c_table, apply_c_table, free_slots };
        proof {
            assert(r.nodes@ =~= self.nodes@);
            assert(r.var2level@ =~= self.var2level@);
            assert(r.free_slots@ =~= self.free_slots@);
            reveal(DDManager::wf);
            assert forall|v: int, k: u128| 0 <= v < r.var2nodes@.len() && #[trigger] r.var2nodes@[v]@.contains_key(k) implies {
                let i = r.var2nodes@[v]@[k] as int;
                &&& r.live(i)
                &&& i >= 2
                &&& r.node(i).var.0 == v
                &&& key2(r.node(i).low.0, r.node(i).high.0) == k
            } by {
                assert(r.var2nodes@[v]@ == self.var2nodes@[v]@);
                assert(self.var2nodes@[v]@.contains_key(k));
            }
            assert(r.unique_wf());
            assert forall|i: int| #![trigger r.live(i)] 2 <= i && r.live(i) implies {
                let n = r.node(i);
                &&& n.id.0 == i
                &&& n.var.0 != 0
                &&& n.low != n.high
                &&& n.var.0 < r.var2nodes@.len()
                &&& r.var2nodes@[n.var.0 as int]@.contains_key(key2(n.low.0, n.high.0))
                &&& r.var2nodes@[n.var.0 as int]@[key2(n.low.0, n.high.0)] == i
            } by {
                assert(self.live(i));
                let n = self.node(i);
                assert(r.var2nodes@[n.var.0 as int]@ == self.var2nodes@[n.var.0 as int]@);
            }
            assert(r.inner_wf());
        }
        r
    }

    #[verifier::rlimit(40)]
    #[verifier::spinoff_prover]
    /// Carries out the swaps recorded in `ctx`, one after the other: the level table becomes
    /// the permuted one, and every node keeps its function.
    pub fn persist_swap(&mut self, ctx: SwapContext)
        requires
            old(self).wf(),
            swaps_adjacent(old(self).var2level@, ctx.all_swaps_in_result@),
        ensures
            final(self).wf(),
            final(self).var2level@ == permuted(old(self).var2level@, ctx.all_swaps_in_result@),
            final(self).var2level@.len() == old(self).var2level@.len(),
            forall|i: int| #[trigger] old(self).live(i) ==> final(self).live(i),
            forall|i: int, x: Assignment| #![trigger final(self).sem(i, x)]
                old(self).live(i) ==> final(self).sem(i, x) == old(self).sem(i, x),
    {
        let ghost s0 = *self;
        let swaps = &ctx.all_swaps_in_result;
        let mut k: usize = 0;
        proof {
            assert(swaps@.take(0) =~= Seq::<(VarID, VarID)>::empty());
        }
        while k < swaps.len()
            invariant
                self.wf(),
                swaps == &ctx.all_swaps_in_result,
                swaps_adjacent(s0.var2level@, swaps@),
                k <= swaps@.len(),
                self.var2level@ == permuted(s0.var2level@, swaps@.take(k as int)),
                self.var2level@.len() == s0.var2level@.len(),
                forall|i: int| #[trigger] s0.live(i) ==> self.live(i),
                forall|i: int, x: Assignment| #![trigger self.sem(i, x)]
                    s0.live(i) ==> self.sem(i, x) == s0.sem(i, x),
            decreases swaps@.len() - k,
        {
            let (a, b) = swaps[k];
            proof {
                assert(swaps@[k as int] == (a, b));
                assert(swaps@.take(k as int + 1).drop_last() =~= swaps@.take(k as int));
                assert(swaps@.take(k as int + 1).last() == (a, b));
            }
            let ghost before = *self;
            let _ = self.swap(a, b, NodeID(0));
            proof {
                assert(self.var2level@ =~= permuted(s0.var2level@, swaps@.take(k as int + 1)));
                assert forall|i: int, x: Assignment| #![trigger self.sem(i, x)]
                    s0.live(i) implies self.sem(i, x) == s0.sem(i, x) by {
                    assert(before.sem(i, x) == s0.sem(i, x));
                }
            }
            k = k + 1;
        }
        proof {
            assert(swaps@.take(swaps@.len() as int) =~= swaps@);
        }
    }

    #[verifier::rlimit(40)]
    /// The effect of swapping `a` and `b` after the swaps recorded in `prev`, measured on the
    /// diagram of `f` without changing the manager: by how many nodes the diagram under the
    /// new level table is larger than under the old one (clamped to `isize`), and the context
    /// with the swap recorded.
    pub fn partial_swap(&self, a: VarID, b: VarID, prev: &SwapContext, f: NodeID) -> (r: (isize, SwapContext))
        requires
            self.wf(),
            self.live(f.0 as int),
            swaps_adjacent(self.var2level@, prev.all_swaps_in_result@.push((a, b))),
        ensures
            r.1.all_swaps_in_result@ == prev.all_swaps_in_result@.push((a, b)),
            r.0 == clamp_isize(size_under(permuted(self.var2level@, r.1.all_swaps_in_result@), *self, f.0 as int)
                - size_under(permuted(self.var2level@, prev.all_swaps_in_result@), *self, f.0 as int)),
    {
        let ghost swaps = prev.all_swaps_in_result@;
        proof {
            lemma_adjacent_push(self.var2level@, swaps, a, b);
        }
        let mut recorded: Vec<(VarID, VarID)> = Vec::new();
        let mut i: usize = 0;
        while i < prev.all_swaps_in_result.len()
            invariant
                i <= prev.all_swaps_in_result@.len(),
                recorded@ == prev.all_swaps_in_result@.subrange(0, i as int),
            decreases prev.all_swaps_in_result@.len() - i,
        {
            recorded.push(prev.all_swaps_in_result[i]);
            i = i + 1;
        }
        proof {
            assert(recorded@ =~= swaps);
        }
        let mut m = self.copy();
        let ghost c = m;
        m.persist_swap(SwapContext { all_swaps_in_result: recorded });
        let ghost before = m;
        let _slots = m.nodes.len();
        proof {
            assert(c.live(f.0 as int));
            assert forall|x: Assignment| #[trigger] before.sem(f.0 as int, x) == self.sem(f.0 as int, x) by {
                assert(before.sem(f.0 as int, x) == c.sem(f.0 as int, x));
            }
            assert(has_diagram(before, f.0 as int, permuted(self.var2level@, swaps), *self, f.0 as int));
            lemma_size_under(before, f.0 as int, permuted(self.var2level@, swaps), *self, f.0 as int);
        }
        let d = m.direct_swap(a, b, f);
        let mut out: Vec<(VarID, VarID)> = Vec::new();
        let mut i: usize = 0;
        while i < prev.all_swaps_in_result.len()
            invariant
                i <= prev.all_swaps_in_result@.len(),
                out@ == prev.all_swaps_in_result@.subrange(0, i as int),
            decreases prev.all_swaps_in_result@.len() - i,
        {
            out.push(prev.all_swaps_in_result[i]);
            i = i + 1;
        }
        out.push((a, b));
        let _slots2 = m.nodes.len();
        proof {
            assert(out@ =~= swaps.push((a, b)));
            assert(permuted(self.var2level@, swaps.push((a, b))) == crate::swap::swapped_levels(permuted(self.var2level@, swaps), a, b)) by {
                assert(swaps.push((a, b)).drop_last() =~= swaps);
            }
            assert forall|x: Assignment| #[trigger] m.sem(f.0 as int, x) == self.sem(f.0 as int, x) by {
                assert(before.sem(f.0 as int, x) == self.sem(f.0 as int, x));
            }
            assert(has_diagram(m, f.0 as int, permuted(self.var2level@, swaps.push((a, b))), *self, f.0 as int));
            lemma_size_under(m, f.0 as int, permuted(self.var2level@, swaps.push((a, b))), *self, f.0 as int);
        }
        (d, SwapContext { all_swaps_in_result: out })
    }
}

} // verus!
