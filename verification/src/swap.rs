//! Swapping the layers of two adjacent variables in place: every node keeps its ID and its
//! function, the diagram stays reduced.
use vstd::prelude::*;
use crate::bdd_node::{DDNode, NodeID, VarID};
use crate::bdd_manager::{DDManager, key2, lemma_key2_injective};
use crate::semantics::{Assignment, live_in, node_in, ordered, eval};
use crate::ite::lemma_keeps_trans;

verus! {

broadcast use vstd::std_specs::hash::group_hash_axioms;

impl DDManager {
    /// Node `i` is an inner node of variable `a` with a child of variable `b`: it changes in a
    /// swap of `a` and `b`.
    pub open spec fn needs_rewrite(&self, i: int, a: VarID, b: VarID) -> bool {
        &&& i >= 2
        &&& self.live(i)
        &&& self.node(i).var == a
        &&& (self.node(self.node(i).low.0 as int).var == b || self.node(self.node(i).high.0 as int).var == b)
    }

    /// A node that may sit under a rewritten node: an inner node of `a` whose children lie
    /// below the level of `b`, or a node below the level of `b`.
    pub open spec fn below_swap(&self, n: int, a: VarID, b: VarID) -> bool {
        ||| (n >= 2 && self.node(n).var == a && self.level(self.node(n).low.0 as int) > self.var2level@[b.0 as int]
            && self.level(self.node(n).high.0 as int) > self.var2level@[b.0 as int])
        ||| self.level(n) > self.var2level@[b.0 as int]
    }

    /// A rewrite `(f, e, t)`: node `f` becomes a node of `b` with children `e` (else) and `t`
    /// (then), which stand for the cofactors of `f` by `b`.
    pub open spec fn rewrite_ok(&self, a: VarID, b: VarID, r: (usize, usize, usize)) -> bool {
        &&& self.needs_rewrite(r.0 as int, a, b)
        &&& self.live(r.1 as int)
        &&& self.live(r.2 as int)
        &&& r.1 != r.2
        &&& self.below_swap(r.1 as int, a, b)
        &&& self.below_swap(r.2 as int, a, b)
        &&& forall|x: Assignment| #[trigger] self.sem(r.0 as int, x) == if x(b.0) {
            self.sem(r.2 as int, x)
        } else {
            self.sem(r.1 as int, x)
        }
    }

    /// `a` lies directly above `b`.
    pub open spec fn adjacent(&self, a: VarID, b: VarID) -> bool {
        &&& 1 <= a.0 < self.var2level@.len()
        &&& 1 <= b.0 < self.var2level@.len()
        &&& self.var2level@[b.0 as int] == self.var2level@[a.0 as int] + 1
    }

    /// A rewrite stays valid while the table grows around it.
    proof fn lemma_rewrite_kept(&self, new: &DDManager, a: VarID, b: VarID, r: (usize, usize, usize))
        requires
            self.wf(),
            new.keeps(self),
            new.var2level@ == self.var2level@,
            self.rewrite_ok(a, b, r),
        ensures
            new.rewrite_ok(a, b, r),
    {
        let f = r.0 as int;
        let e = r.1 as int;
        let t = r.2 as int;
        let nf = self.node(f);
        self.lemma_inner(f);
        if e >= 2 {
            self.lemma_inner(e);
        }
        if t >= 2 {
            self.lemma_inner(t);
        }
        self.lemma_node_kept(new, f);
        self.lemma_node_kept(new, e);
        self.lemma_node_kept(new, t);
        self.lemma_node_kept(new, nf.low.0 as int);
        self.lemma_node_kept(new, nf.high.0 as int);
        if e >= 2 && self.node(e).var == a && self.level(self.node(e).low.0 as int) > self.var2level@[b.0 as int] {
            self.lemma_node_kept(new, self.node(e).low.0 as int);
            self.lemma_node_kept(new, self.node(e).high.0 as int);
        }
        if t >= 2 && self.node(t).var == a && self.level(self.node(t).low.0 as int) > self.var2level@[b.0 as int] {
            self.lemma_node_kept(new, self.node(t).low.0 as int);
            self.lemma_node_kept(new, self.node(t).high.0 as int);
        }
        assert forall|x: Assignment| #[trigger] new.sem(f, x) == if x(b.0) {
            new.sem(t, x)
        } else {
            new.sem(e, x)
        } by {
            assert(self.sem(f, x) == if x(b.0) { self.sem(t, x) } else { self.sem(e, x) });
        }
    }

    /// A slot holding a node holds the same node, at the same level, in a manager that keeps
    /// this one.
    proof fn lemma_node_kept(&self, new: &DDManager, i: int)
        requires
            new.keeps(self),
            new.var2level@ == self.var2level@,
        ensures
            self.live(i) ==> new.live(i) && new.node(i) == self.node(i) && new.level(i) == self.level(i),
    {
        if self.live(i) {
            assert(self.nodes@[i] is Some);
        }
    }
}

impl DDManager {
    /// The child of `n` for value `v` of `b` where `n` is a node of `b`, else `n` itself.
    pub open spec fn cof(&self, n: int, b: VarID, v: bool) -> int {
        if self.node(n).var == b {
            if v {
                self.node(n).high.0 as int
            } else {
                self.node(n).low.0 as int
            }
        } else {
            n
        }
    }

    /// The nodes at the level of a variable are the nodes of that variable.
    pub proof fn lemma_level_var(&self, x: int, v: int)
        requires
            self.wf(),
            self.live(x),
            0 <= v < self.var2level@.len(),
            self.level(x) == self.var2level@[v],
        ensures
            self.node(x).var.0 == v,
    {
        reveal(DDManager::wf);
        assert(crate::semantics::live_in(self.nodes@, x));
    }

    /// The cofactors by `b` of a child of a node of `a`: live, below the level of `b`, and the
    /// child is their Shannon combination.
    proof fn lemma_child_cofactors(&self, c: int, a: VarID, b: VarID)
        requires
            self.wf(),
            self.adjacent(a, b),
            self.live(c),
            self.level(c) > self.var2level@[a.0 as int],
        ensures
            self.live(self.cof(c, b, true)),
            self.live(self.cof(c, b, false)),
            self.level(self.cof(c, b, true)) > self.var2level@[b.0 as int],
            self.level(self.cof(c, b, false)) > self.var2level@[b.0 as int],
            self.node(c).var == b ==> self.cof(c, b, true) != c && self.cof(c, b, false) != c,
            forall|x: Assignment| #[trigger] self.sem(c, x) == if x(b.0) {
                self.sem(self.cof(c, b, true), x)
            } else {
                self.sem(self.cof(c, b, false), x)
            },
    {
        self.lemma_level_bound(c);
        if self.node(c).var == b {
            self.lemma_terminals();
            self.lemma_inner(c);
        } else {
            if self.level(c) == self.var2level@[b.0 as int] {
                self.lemma_level_var(c, b.0 as int);
            }
        }
    }

    /// The two nodes a rewritten node points to differ.
    proof fn lemma_rewrite_distinct(&self, a: VarID, b: VarID, f: int, e: int, t: int)
        requires
            self.wf(),
            self.adjacent(a, b),
            self.needs_rewrite(f, a, b),
            self.live(e),
            self.live(t),
            ({
                let f0 = self.node(f).low.0 as int;
                let f1 = self.node(f).high.0 as int;
                ||| (t == self.cof(f0, b, true) && t == self.cof(f1, b, true))
                ||| (t >= 2 && self.node(t).low.0 == self.cof(f0, b, true) && self.node(t).high.0 == self.cof(f1, b, true))
            }),
            self.level(t) >= self.var2level@[a.0 as int],
            t == self.cof(self.node(f).low.0 as int, b, true) ==> self.level(t) > self.var2level@[b.0 as int],
            forall|x: Assignment| #[trigger] self.sem(f, x) == if x(b.0) { self.sem(t, x) } else { self.sem(e, x) },
        ensures
            e != t,
    {
        let f0 = self.node(f).low.0 as int;
        let f1 = self.node(f).high.0 as int;
        self.lemma_inner(f);
        self.lemma_child_cofactors(f0, a, b);
        self.lemma_child_cofactors(f1, a, b);
        if e == t {
            assert forall|x: Assignment| #[trigger] self.sem(f, x) == self.sem(t, x) by {
                assert(self.sem(f, x) == if x(b.0) { self.sem(t, x) } else { self.sem(e, x) });
            }
            self.lemma_canonical(f, t);
            assert(false);
        }
    }

    /// Computes, for every node of `a` with a child of `b`, the two nodes it will point to once
    /// `b` lies above `a`, creating nodes of `a` where needed.
    fn swap_prepare(&mut self, a: VarID, b: VarID) -> (r: Vec<(usize, usize, usize)>)
        requires
            old(self).wf(),
            old(self).adjacent(a, b),
        ensures
            final(self).wf(),
            final(self).keeps(old(self)),
            final(self).var2level@ == old(self).var2level@,
            forall|k: int| 0 <= k < r@.len() ==> final(self).rewrite_ok(a, b, #[trigger] r@[k]),
            forall|k: int, l: int| 0 <= k < l < r@.len() ==> (#[trigger] r@[k]).0 < (#[trigger] r@[l]).0,
            forall|j: int| #[trigger] final(self).needs_rewrite(j, a, b) ==> exists|k: int| 0 <= k < r@.len() && r@[k].0 == j,
    {
        let ghost s0 = *self;
        proof {
            self.lemma_terminals();
        }
        let n0 = self.nodes.len();
        let mut rw: Vec<(usize, usize, usize)> = Vec::new();
        let mut i: usize = 2;
        while i < n0
            invariant
                self.wf(),
                self.keeps(&s0),
                self.var2level@ == s0.var2level@,
                self.adjacent(a, b),
                n0 == s0.nodes@.len(),
                2 <= i <= n0,
                forall|k: int| 0 <= k < rw@.len() ==> self.rewrite_ok(a, b, #[trigger] rw@[k]),
                forall|k: int| 0 <= k < rw@.len() ==> (#[trigger] rw@[k]).0 < i,
                forall|k: int, l: int| 0 <= k < l < rw@.len() ==> (#[trigger] rw@[k]).0 < (#[trigger] rw@[l]).0,
                forall|j: int| (j < i || j >= n0) && #[trigger] self.needs_rewrite(j, a, b)
                    ==> exists|k: int| 0 <= k < rw@.len() && rw@[k].0 == j,
            decreases n0 - i,
        {
            let ghost si = *self;
            let ghost rw0 = rw@;
            let slot = self.nodes[i];
            let mut pushed = false;
            match slot {
                None => {},
                Some(nd) => {
                    if nd.var.0 == a.0 {
                        proof {
                            self.lemma_inner(i as int);
                            self.lemma_live_var(nd.low.0 as int);
                            self.lemma_live_var(nd.high.0 as int);
                        }
                        let n0d = self.nodes[nd.low.0].unwrap();
                        let n1d = self.nodes[nd.high.0].unwrap();
                        if n0d.var.0 == b.0 || n1d.var.0 == b.0 {
                            let f0 = nd.low;
                            let f1 = nd.high;
                            proof {
                                self.lemma_child_cofactors(f0.0 as int, a, b);
                                self.lemma_child_cofactors(f1.0 as int, a, b);
                            }
                            let (f01, f00) = if n0d.var.0 == b.0 { (n0d.high, n0d.low) } else { (f0, f0) };
                            let (f11, f10) = if n1d.var.0 == b.0 { (n1d.high, n1d.low) } else { (f1, f1) };
                            let t = if f01.0 == f11.0 {
                                f01
                            } else {
                                self.node_get_or_create(&DDNode { id: NodeID(0), var: a, low: f01, high: f11 })
                            };
                            let ghost st = *self;
                            proof {
                                si.lemma_node_kept(&st, f00.0 as int);
                                si.lemma_node_kept(&st, f10.0 as int);
                            }
                            let e = if f00.0 == f10.0 {
                                f00
                            } else {
                                self.node_get_or_create(&DDNode { id: NodeID(0), var: a, low: f00, high: f10 })
                            };
                            proof {
                                lemma_keeps_trans(&si, &st, self);
                                let sf = *self;
                                si.lemma_node_kept(&sf, i as int);
                                si.lemma_node_kept(&sf, f0.0 as int);
                                si.lemma_node_kept(&sf, f1.0 as int);
                                si.lemma_node_kept(&sf, f01.0 as int);
                                si.lemma_node_kept(&sf, f11.0 as int);
                                si.lemma_node_kept(&sf, f00.0 as int);
                                si.lemma_node_kept(&sf, f10.0 as int);
                                st.lemma_node_kept(&sf, t.0 as int);
                                if f01.0 != f11.0 {
                                    assert(st.node(t.0 as int).low == f01 && st.node(t.0 as int).high == f11);
                                }
                                assert forall|x: Assignment| #[trigger] sf.sem(i as int, x) == if x(b.0) {
                                    sf.sem(t.0 as int, x)
                                } else {
                                    sf.sem(e.0 as int, x)
                                } by {
                                    assert(si.sem(i as int, x) == if x(a.0) { si.sem(f1.0 as int, x) } else { si.sem(f0.0 as int, x) });
                                    assert(si.sem(f0.0 as int, x) == if x(b.0) { si.sem(f01.0 as int, x) } else { si.sem(f00.0 as int, x) });
                                    assert(si.sem(f1.0 as int, x) == if x(b.0) { si.sem(f11.0 as int, x) } else { si.sem(f10.0 as int, x) });
                                    assert(st.sem(t.0 as int, x) == if x(a.0) { st.sem(f11.0 as int, x) } else { st.sem(f01.0 as int, x) });
                                    assert(sf.sem(e.0 as int, x) == if x(a.0) { sf.sem(f10.0 as int, x) } else { sf.sem(f00.0 as int, x) });
                                    assert(sf.sem(t.0 as int, x) == st.sem(t.0 as int, x));
                                    assert(st.sem(f11.0 as int, x) == si.sem(f11.0 as int, x));
                                    assert(st.sem(f01.0 as int, x) == si.sem(f01.0 as int, x));
                                    assert(sf.sem(f10.0 as int, x) == si.sem(f10.0 as int, x));
                                    assert(sf.sem(f00.0 as int, x) == si.sem(f00.0 as int, x));
                                    assert(sf.sem(i as int, x) == si.sem(i as int, x));
                                }
                                sf.lemma_level_bound(t.0 as int);
                                sf.lemma_rewrite_distinct(a, b, i as int, e.0 as int, t.0 as int);
                                assert(sf.rewrite_ok(a, b, (i, e.0, t.0)));
                                assert forall|k: int| 0 <= k < rw0.len() implies sf.rewrite_ok(a, b, #[trigger] rw0[k]) by {
                                    si.lemma_rewrite_kept(&sf, a, b, rw0[k]);
                                }
                                assert forall|j: int| #[trigger] sf.live(j) && !si.live(j) implies !sf.needs_rewrite(j, a, b) by {
                                    if j != e.0 as int {
                                        assert(st.live(j));
                                        if j != t.0 as int {
                                            assert(si.live(j));
                                        }
                                    }
                                    if j == e.0 as int && f00.0 != f10.0 {
                                        assert(sf.node(j).low == f00 && sf.node(j).high == f10);
                                    }
                                }
                            }
                            rw.push((i, e.0, t.0));
                            pushed = true;
                        }
                    }
                },
            }
            proof {
                let sf = *self;
                assert forall|k: int| 0 <= k < rw@.len() implies self.rewrite_ok(a, b, #[trigger] rw@[k]) by {
                    if k < rw0.len() {
                        assert(rw@[k] == rw0[k]);
                    }
                }
                assert forall|j: int| (j < i + 1 || j >= n0) && #[trigger] self.needs_rewrite(j, a, b)
                    implies exists|k: int| 0 <= k < rw@.len() && rw@[k].0 == j by {
                    if si.live(j) {
                        si.lemma_node_kept(&sf, j);
                        si.lemma_inner(j);
                        si.lemma_node_kept(&sf, si.node(j).low.0 as int);
                        si.lemma_node_kept(&sf, si.node(j).high.0 as int);
                        assert(si.needs_rewrite(j, a, b));
                        if j == i {
                            assert(pushed);
                            assert(rw@[rw@.len() - 1].0 == j);
                        } else {
                            let k = choose|k: int| 0 <= k < rw0.len() && rw0[k].0 == j;
                            assert(rw@[k] == rw0[k]);
                        }
                    }
                }
            }
            i = i + 1;
        }
        rw
    }
}

/// The node a rewrite puts in place of node `r.0`.
pub open spec fn rewritten_node(b: VarID, r: (usize, usize, usize)) -> DDNode {
    DDNode { id: NodeID(r.0), var: b, low: NodeID(r.1), high: NodeID(r.2) }
}

/// The node table after the first `k` rewrites.
pub open spec fn nodes_after(nodes: Seq<Option<DDNode>>, rw: Seq<(usize, usize, usize)>, b: VarID, k: int) -> Seq<Option<DDNode>>
    decreases k,
{
    if k <= 0 {
        nodes
    } else {
        nodes_after(nodes, rw, b, k - 1).update(rw[k - 1].0 as int, Some(rewritten_node(b, rw[k - 1])))
    }
}

/// The key a rewritten node had in the unique table of `a`.
pub open spec fn old_key(nodes: Seq<Option<DDNode>>, r: (usize, usize, usize)) -> u128 {
    key2(nodes[r.0 as int].unwrap().low.0, nodes[r.0 as int].unwrap().high.0)
}

/// The unique table of `a` after the first `k` rewrites: their old keys removed.
pub open spec fn table_a_after(m: Map<u128, usize>, nodes: Seq<Option<DDNode>>, rw: Seq<(usize, usize, usize)>, k: int) -> Map<u128, usize>
    decreases k,
{
    if k <= 0 {
        m
    } else {
        table_a_after(m, nodes, rw, k - 1).remove(old_key(nodes, rw[k - 1]))
    }
}

/// The unique table of `b` after the first `k` rewrites: their new keys added.
pub open spec fn table_b_after(m: Map<u128, usize>, rw: Seq<(usize, usize, usize)>, k: int) -> Map<u128, usize>
    decreases k,
{
    if k <= 0 {
        m
    } else {
        table_b_after(m, rw, k - 1).insert(key2(rw[k - 1].1, rw[k - 1].2), rw[k - 1].0)
    }
}

/// Distinct rewrites name distinct nodes.
pub open spec fn distinct_targets(rw: Seq<(usize, usize, usize)>) -> bool {
    forall|k: int, l: int| 0 <= k < l < rw.len() ==> (#[trigger] rw[k]).0 < (#[trigger] rw[l]).0
}

proof fn lemma_nodes_after(nodes: Seq<Option<DDNode>>, rw: Seq<(usize, usize, usize)>, b: VarID, k: int, j: int)
    requires
        0 <= k <= rw.len(),
        distinct_targets(rw),
        forall|m: int| 0 <= m < rw.len() ==> (#[trigger] rw[m]).0 < nodes.len(),
        0 <= j < nodes.len(),
    ensures
        nodes_after(nodes, rw, b, k).len() == nodes.len(),
        (exists|m: int| 0 <= m < k && rw[m].0 == j) ==> nodes_after(nodes, rw, b, k)[j]
            == Some(rewritten_node(b, rw[choose|m: int| 0 <= m < k && rw[m].0 == j])),
        !(exists|m: int| 0 <= m < k && rw[m].0 == j) ==> nodes_after(nodes, rw, b, k)[j] == nodes[j],
    decreases k,
{
    if k > 0 {
        lemma_nodes_after(nodes, rw, b, k - 1, j);
        if rw[k - 1].0 == j {
            assert(exists|m: int| 0 <= m < k && rw[m].0 == j);
        }
        if exists|m: int| 0 <= m < k && rw[m].0 == j {
            let m = choose|m: int| 0 <= m < k && rw[m].0 == j;
            if m < k - 1 {
                assert(rw[m].0 < rw[k - 1].0);
            }
        }
        if exists|m: int| 0 <= m < k - 1 && rw[m].0 == j {
            let m = choose|m: int| 0 <= m < k - 1 && rw[m].0 == j;
            assert(rw[m].0 < rw[k - 1].0);
        }
    }
}

proof fn lemma_table_a_after(m0: Map<u128, usize>, nodes: Seq<Option<DDNode>>, rw: Seq<(usize, usize, usize)>, k: int, key: u128)
    requires
        0 <= k <= rw.len(),
    ensures
        table_a_after(m0, nodes, rw, k).contains_key(key) <==> m0.contains_key(key)
            && !(exists|m: int| 0 <= m < k && old_key(nodes, #[trigger] rw[m]) == key),
        table_a_after(m0, nodes, rw, k).contains_key(key) ==> table_a_after(m0, nodes, rw, k)[key] == m0[key],
    decreases k,
{
    if k > 0 {
        lemma_table_a_after(m0, nodes, rw, k - 1, key);
        if exists|m: int| 0 <= m < k && old_key(nodes, #[trigger] rw[m]) == key {
            let m = choose|m: int| 0 <= m < k && old_key(nodes, #[trigger] rw[m]) == key;
            if m < k - 1 {
                assert(exists|m2: int| 0 <= m2 < k - 1 && old_key(nodes, #[trigger] rw[m2]) == key);
            }
        }
        if exists|m: int| 0 <= m < k - 1 && old_key(nodes, #[trigger] rw[m]) == key {
            let m = choose|m: int| 0 <= m < k - 1 && old_key(nodes, #[trigger] rw[m]) == key;
            assert(exists|m2: int| 0 <= m2 < k && old_key(nodes, #[trigger] rw[m2]) == key);
        }
        if old_key(nodes, rw[k - 1]) == key {
            assert(exists|m2: int| 0 <= m2 < k && old_key(nodes, #[trigger] rw[m2]) == key);
        }
    }
}

proof fn lemma_table_b_after(m0: Map<u128, usize>, rw: Seq<(usize, usize, usize)>, k: int, key: u128)
    requires
        0 <= k <= rw.len(),
        forall|m: int, l: int| 0 <= m < l < rw.len() ==> key2((#[trigger] rw[m]).1, rw[m].2) != key2((#[trigger] rw[l]).1, rw[l].2),
        forall|m: int| 0 <= m < rw.len() ==> !m0.contains_key(key2((#[trigger] rw[m]).1, rw[m].2)),
    ensures
        table_b_after(m0, rw, k).contains_key(key) <==> m0.contains_key(key)
            || (exists|m: int| 0 <= m < k && key2((#[trigger] rw[m]).1, rw[m].2) == key),
        m0.contains_key(key) ==> table_b_after(m0, rw, k)[key] == m0[key],
        forall|m: int| 0 <= m < k && key2((#[trigger] rw[m]).1, rw[m].2) == key ==> table_b_after(m0, rw, k)[key] == rw[m].0,
    decreases k,
{
    if k > 0 {
        lemma_table_b_after(m0, rw, k - 1, key);
        if exists|m: int| 0 <= m < k - 1 && key2((#[trigger] rw[m]).1, rw[m].2) == key {
            let m = choose|m: int| 0 <= m < k - 1 && key2((#[trigger] rw[m]).1, rw[m].2) == key;
            assert(exists|m2: int| 0 <= m2 < k && key2((#[trigger] rw[m2]).1, rw[m2].2) == key);
        }
        if key2(rw[k - 1].1, rw[k - 1].2) == key {
            assert(exists|m2: int| 0 <= m2 < k && key2((#[trigger] rw[m2]).1, rw[m2].2) == key);
        }
        if exists|m: int| 0 <= m < k && key2((#[trigger] rw[m]).1, rw[m].2) == key {
            let m = choose|m: int| 0 <= m < k && key2((#[trigger] rw[m]).1, rw[m].2) == key;
            if m < k - 1 {
                assert(exists|m2: int| 0 <= m2 < k - 1 && key2((#[trigger] rw[m2]).1, rw[m2].2) == key);
            }
        }
    }
}

impl DDManager {
    /// Puts `b` above `a` and replaces each rewritten node, keeping the unique tables in step.
    fn swap_commit(&mut self, a: VarID, b: VarID, rw: &Vec<(usize, usize, usize)>)
        requires
            old(self).wf(),
            old(self).adjacent(a, b),
            forall|k: int| 0 <= k < rw@.len() ==> old(self).rewrite_ok(a, b, #[trigger] rw@[k]),
            distinct_targets(rw@),
        ensures
            committed(*old(self), *final(self), a, b, rw@),
    {
        proof {
            reveal(DDManager::wf);
        }
        let la = self.var2level[a.0];
        let lb = self.var2level[b.0];
        self.var2level.set(a.0, lb);
        self.var2level.set(b.0, la);
        let mut k: usize = 0;
        while k < rw.len()
            invariant
                k <= rw@.len(),
                old(self).var2nodes@.len() == old(self).var2level@.len(),
                1 <= a.0 < old(self).var2level@.len(),
                1 <= b.0 < old(self).var2level@.len(),
                a != b,
                forall|m: int| 0 <= m < rw@.len() ==> old(self).rewrite_ok(a, b, #[trigger] rw@[m]),
                distinct_targets(rw@),
                self.nodes@ == nodes_after(old(self).nodes@, rw@, b, k as int),
                self.var2level@ == old(self).var2level@.update(a.0 as int, old(self).var2level@[b.0 as int]).update(
                    b.0 as int,
                    old(self).var2level@[a.0 as int],
                ),
                self.var2nodes@.len() == old(self).var2nodes@.len(),
                forall|v: int| 0 <= v < self.var2nodes@.len() && v != a.0 && v != b.0
                    ==> #[trigger] self.var2nodes@[v]@ == old(self).var2nodes@[v]@,
                self.var2nodes@[a.0 as int]@ == table_a_after(old(self).var2nodes@[a.0 as int]@, old(self).nodes@, rw@, k as int),
                self.var2nodes@[b.0 as int]@ == table_b_after(old(self).var2nodes@[b.0 as int]@, rw@, k as int),
                self.ite_c_table@ == old(self).ite_c_table@,
                self.apply_c_table@ == old(self).apply_c_table@,
                self.free_slots@ == old(self).free_slots@,
            decreases rw@.len() - k,
        {
            let (f, e, t) = rw[k];
            proof {
                assert(old(self).rewrite_ok(a, b, rw@[k as int]));
                assert forall|m: int| 0 <= m < rw@.len() implies (#[trigger] rw@[m]).0 < old(self).nodes@.len() by {
                    assert(old(self).rewrite_ok(a, b, rw@[m]));
                }
                lemma_nodes_after(old(self).nodes@, rw@, b, k as int, f as int);
                if exists|m: int| 0 <= m < k && rw@[m].0 == f {
                    let m = choose|m: int| 0 <= m < k && rw@[m].0 == f;
                    assert(rw@[m].0 < rw@[k as int].0);
                }
            }
            let old_node = self.nodes[f].unwrap();
            let kold = crate::bdd_manager::pair_key(old_node.low.0, old_node.high.0);
            self.var2nodes[a.0].remove(&kold);
            self.nodes.set(f, Some(DDNode { id: NodeID(f), var: b, low: NodeID(e), high: NodeID(t) }));
            let knew = crate::bdd_manager::pair_key(e, t);
            self.var2nodes[b.0].insert(knew, f);
            k = k + 1;
        }
        self.ite_c_table.clear();
        self.apply_c_table.clear();
    }
}

} // verus!

verus! {

/// The position in `rw` of the rewrite of node `i`.
pub open spec fn rw_index(rw: Seq<(usize, usize, usize)>, i: int) -> int {
    choose|m: int| 0 <= m < rw.len() && rw[m].0 == i
}

/// The level table with the levels of `a` and `b` exchanged.
pub open spec fn swapped_levels(v2l: Seq<usize>, a: VarID, b: VarID) -> Seq<usize> {
    v2l.update(a.0 as int, v2l[b.0 as int]).update(b.0 as int, v2l[a.0 as int])
}

impl DDManager {
    /// The rewrites `rw` are valid here, name distinct nodes and cover every node that needs one.
    pub open spec fn rewrites_complete(&self, a: VarID, b: VarID, rw: Seq<(usize, usize, usize)>) -> bool {
        &&& forall|k: int| 0 <= k < rw.len() ==> self.rewrite_ok(a, b, #[trigger] rw[k])
        &&& distinct_targets(rw)
        &&& forall|j: int| #[trigger] self.needs_rewrite(j, a, b) ==> exists|k: int| 0 <= k < rw.len() && rw[k].0 == j
    }

    /// After the rewrites a slot holds the node it held, unless its node needed a rewrite.
    proof fn lemma_commit_slot(&self, nodes2: Seq<Option<DDNode>>, a: VarID, b: VarID, rw: Seq<(usize, usize, usize)>, i: int)
        requires
            self.wf(),
            self.adjacent(a, b),
            self.rewrites_complete(a, b, rw),
            nodes2 == nodes_after(self.nodes@, rw, b, rw.len() as int),
        ensures
            nodes2.len() == self.nodes@.len(),
            live_in(nodes2, i) == self.live(i),
            0 <= i < self.nodes@.len() && !self.needs_rewrite(i, a, b) ==> nodes2[i] == self.nodes@[i],
            self.needs_rewrite(i, a, b) ==> {
                let m = rw_index(rw, i);
                &&& 0 <= m < rw.len()
                &&& rw[m].0 == i
                &&& self.rewrite_ok(a, b, rw[m])
                &&& nodes2[i] == Some(rewritten_node(b, rw[m]))
            },
    {
        self.lemma_terminals();
        assert forall|m: int| 0 <= m < rw.len() implies (#[trigger] rw[m]).0 < self.nodes@.len() by {
            assert(self.rewrite_ok(a, b, rw[m]));
        }
        lemma_nodes_after(self.nodes@, rw, b, rw.len() as int, 0);
        if 0 <= i < self.nodes@.len() {
            lemma_nodes_after(self.nodes@, rw, b, rw.len() as int, i);
            if exists|m: int| 0 <= m < rw.len() && rw[m].0 == i {
                let m = rw_index(rw, i);
                assert(self.rewrite_ok(a, b, rw[m]));
            }
        }
    }
}


impl DDManager {
    /// Under the exchanged levels, a child of a node that keeps its place still lies below it.
    proof fn lemma_commit_child(&self, nodes2: Seq<Option<DDNode>>, a: VarID, b: VarID, rw: Seq<(usize, usize, usize)>, i: int, c: int)
        requires
            self.wf(),
            self.adjacent(a, b),
            self.rewrites_complete(a, b, rw),
            nodes2 == nodes_after(self.nodes@, rw, b, rw.len() as int),
            self.live(i),
            i >= 2,
            !self.needs_rewrite(i, a, b),
            c == self.node(i).low.0 || c == self.node(i).high.0,
        ensures
            live_in(nodes2, c),
            crate::semantics::level_in(nodes2, swapped_levels(self.var2level@, a, b), c)
                > swapped_levels(self.var2level@, a, b)[self.node(i).var.0 as int],
    {
        reveal(DDManager::wf);
        let l = self.var2level@;
        let v = self.node(i).var.0 as int;
        self.lemma_inner(i);
        self.lemma_level_bound(c);
        self.lemma_commit_slot(nodes2, a, b, rw, c);
        if self.needs_rewrite(c, a, b) {
            assert(v != a.0);
            assert(v != b.0);
        } else {
            let w = self.node(c).var.0 as int;
            assert(l[w] != l[b.0 as int] || w == b.0);
            assert(l[v] != l[a.0 as int] || v == a.0);
        }
    }

    /// Under the exchanged levels, the children of a rewritten node lie below it.
    proof fn lemma_commit_rw_child(&self, nodes2: Seq<Option<DDNode>>, a: VarID, b: VarID, rw: Seq<(usize, usize, usize)>, c: int)
        requires
            self.wf(),
            self.adjacent(a, b),
            self.rewrites_complete(a, b, rw),
            nodes2 == nodes_after(self.nodes@, rw, b, rw.len() as int),
            self.live(c),
            self.below_swap(c, a, b),
        ensures
            live_in(nodes2, c),
            crate::semantics::level_in(nodes2, swapped_levels(self.var2level@, a, b), c)
                > swapped_levels(self.var2level@, a, b)[b.0 as int],
    {
        reveal(DDManager::wf);
        self.lemma_level_bound(c);
        self.lemma_commit_slot(nodes2, a, b, rw, c);
        if c >= 2 && self.node(c).var == a {
            self.lemma_inner(c);
            let c0 = self.node(c).low.0 as int;
            let c1 = self.node(c).high.0 as int;
            self.lemma_level_bound(c0);
            self.lemma_level_bound(c1);
            assert(self.node(c0).var != b);
            assert(self.node(c1).var != b);
        }
    }

    /// After the rewrites, the node table is ordered under the exchanged levels.
    proof fn lemma_commit_ordered(&self, nodes2: Seq<Option<DDNode>>, a: VarID, b: VarID, rw: Seq<(usize, usize, usize)>)
        requires
            self.wf(),
            self.adjacent(a, b),
            self.rewrites_complete(a, b, rw),
            nodes2 == nodes_after(self.nodes@, rw, b, rw.len() as int),
        ensures
            ordered(nodes2, swapped_levels(self.var2level@, a, b)),
    {
        reveal(DDManager::wf);
        let v2 = swapped_levels(self.var2level@, a, b);
        assert forall|i: int| #[trigger] live_in(nodes2, i) implies {
            let n = node_in(nodes2, i);
            &&& n.var.0 < v2.len()
            &&& v2[n.var.0 as int] <= v2[0]
            &&& n.var.0 != 0 ==> {
                &&& live_in(nodes2, n.low.0 as int)
                &&& live_in(nodes2, n.high.0 as int)
                &&& crate::semantics::level_in(nodes2, v2, n.low.0 as int) > v2[n.var.0 as int]
                &&& crate::semantics::level_in(nodes2, v2, n.high.0 as int) > v2[n.var.0 as int]
            }
        } by {
            self.lemma_commit_slot(nodes2, a, b, rw, i);
            self.lemma_level_bound(i);
            if self.needs_rewrite(i, a, b) {
                let r = rw[rw_index(rw, i)];
                self.lemma_commit_rw_child(nodes2, a, b, rw, r.1 as int);
                self.lemma_commit_rw_child(nodes2, a, b, rw, r.2 as int);
            } else if self.node(i).var.0 != 0 {
                self.lemma_commit_child(nodes2, a, b, rw, i, self.node(i).low.0 as int);
                self.lemma_commit_child(nodes2, a, b, rw, i, self.node(i).high.0 as int);
            }
        }
    }
}


/// A node keeps its function when some slots are replaced by nodes that stand for the same
/// function as the node they replace, whatever the levels.
proof fn lemma_eval_rewrite(
    n1: Seq<Option<DDNode>>,
    l1: Seq<usize>,
    n2: Seq<Option<DDNode>>,
    l2: Seq<usize>,
    i: int,
    x: Assignment,
)
    requires
        ordered(n1, l1),
        ordered(n2, l2),
        live_in(n2, i),
        forall|j: int| #[trigger] live_in(n2, j) ==> live_in(n1, j),
        forall|j: int| #[trigger] live_in(n2, j) && n2[j] != n1[j] ==> {
            let d = node_in(n2, j);
            &&& d.var.0 != 0
            &&& forall|y: Assignment| #[trigger] eval(n1, l1, j, y) == if y(d.var.0) {
                eval(n1, l1, d.high.0 as int, y)
            } else {
                eval(n1, l1, d.low.0 as int, y)
            }
        },
    ensures
        eval(n2, l2, i, x) == eval(n1, l1, i, x),
    decreases l2[0] - crate::semantics::level_in(n2, l2, i),
{
    let d = node_in(n2, i);
    assert(live_in(n1, i));
    if d.var.0 != 0 {
        lemma_eval_rewrite(n1, l1, n2, l2, d.high.0 as int, x);
        lemma_eval_rewrite(n1, l1, n2, l2, d.low.0 as int, x);
        if n2[i] == n1[i] {
            assert(live_in(n1, d.low.0 as int));
        } else {
            assert(eval(n1, l1, i, x) == if x(d.var.0) {
                eval(n1, l1, d.high.0 as int, x)
            } else {
                eval(n1, l1, d.low.0 as int, x)
            });
        }
    } else if n2[i] != n1[i] {
        assert(false);
    }
}

impl DDManager {
    /// The children pairs of distinct rewrites differ, and no node of `b` has such a pair yet.
    proof fn lemma_new_keys(&self, a: VarID, b: VarID, rw: Seq<(usize, usize, usize)>)
        requires
            self.wf(),
            self.adjacent(a, b),
            self.rewrites_complete(a, b, rw),
        ensures
            forall|m: int, l: int| 0 <= m < l < rw.len() ==> key2((#[trigger] rw[m]).1, rw[m].2) != key2((#[trigger] rw[l]).1, rw[l].2),
            forall|m: int| 0 <= m < rw.len() ==> !self.var2nodes@[b.0 as int]@.contains_key(key2((#[trigger] rw[m]).1, rw[m].2)),
    {
        reveal(DDManager::wf);
        assert forall|m: int, l: int| 0 <= m < l < rw.len() implies key2((#[trigger] rw[m]).1, rw[m].2) != key2((#[trigger] rw[l]).1, rw[l].2) by {
            if key2(rw[m].1, rw[m].2) == key2(rw[l].1, rw[l].2) {
                lemma_key2_injective(rw[m].1, rw[m].2, rw[l].1, rw[l].2);
                assert(self.rewrite_ok(a, b, rw[m]));
                assert(self.rewrite_ok(a, b, rw[l]));
                assert forall|x: Assignment| #[trigger] self.sem(rw[m].0 as int, x) == self.sem(rw[l].0 as int, x) by {
                    assert(self.sem(rw[m].0 as int, x) == if x(b.0) { self.sem(rw[m].2 as int, x) } else { self.sem(rw[m].1 as int, x) });
                    assert(self.sem(rw[l].0 as int, x) == if x(b.0) { self.sem(rw[l].2 as int, x) } else { self.sem(rw[l].1 as int, x) });
                }
                self.lemma_canonical(rw[m].0 as int, rw[l].0 as int);
                assert(rw[m].0 < rw[l].0);
            }
        }
        assert forall|m: int| 0 <= m < rw.len() implies !self.var2nodes@[b.0 as int]@.contains_key(key2((#[trigger] rw[m]).1, rw[m].2)) by {
            let k = key2(rw[m].1, rw[m].2);
            if self.var2nodes@[b.0 as int]@.contains_key(k) {
                let g = self.var2nodes@[b.0 as int]@[k] as int;
                self.lemma_unique_entry(b.0 as int, k);
                lemma_key2_injective(self.node(g).low.0, self.node(g).high.0, rw[m].1, rw[m].2);
                self.lemma_inner(g);
                assert(self.rewrite_ok(a, b, rw[m]));
                let f = rw[m].0 as int;
                assert forall|x: Assignment| #[trigger] self.sem(f, x) == self.sem(g, x) by {
                    assert(self.sem(f, x) == if x(b.0) { self.sem(rw[m].2 as int, x) } else { self.sem(rw[m].1 as int, x) });
                    assert(self.sem(g, x) == if x(b.0) { self.sem(self.node(g).high.0 as int, x) } else { self.sem(self.node(g).low.0 as int, x) });
                }
                self.lemma_canonical(f, g);
            }
        }
    }
}


/// `s2` is `s1` after the rewrites `rw` of a swap of `a` and `b`: the rewritten nodes, the
/// exchanged levels, the unique tables of `a` and `b` updated, the computed tables emptied.
pub open spec fn committed(s1: DDManager, s2: DDManager, a: VarID, b: VarID, rw: Seq<(usize, usize, usize)>) -> bool {
    &&& s2.nodes@ == nodes_after(s1.nodes@, rw, b, rw.len() as int)
    &&& s2.var2level@ == swapped_levels(s1.var2level@, a, b)
    &&& s2.var2nodes@.len() == s1.var2nodes@.len()
    &&& forall|v: int| 0 <= v < s2.var2nodes@.len() && v != a.0 && v != b.0
        ==> #[trigger] s2.var2nodes@[v]@ == s1.var2nodes@[v]@
    &&& s2.var2nodes@[a.0 as int]@ == table_a_after(s1.var2nodes@[a.0 as int]@, s1.nodes@, rw, rw.len() as int)
    &&& s2.var2nodes@[b.0 as int]@ == table_b_after(s1.var2nodes@[b.0 as int]@, rw, rw.len() as int)
    &&& s2.ite_c_table@ == Map::<u128, (usize, usize, usize, usize)>::empty()
    &&& s2.apply_c_table@ == Map::<u128, (usize, usize, usize, usize)>::empty()
    &&& s2.free_slots@ == s1.free_slots@
}

impl DDManager {
    /// After the rewrites, an inner node is listed in the unique table of its variable.
    proof fn lemma_commit_inner(&self, s2: &DDManager, a: VarID, b: VarID, rw: Seq<(usize, usize, usize)>, i: int)
        requires
            self.wf(),
            self.adjacent(a, b),
            self.rewrites_complete(a, b, rw),
            committed(*self, *s2, a, b, rw),
            2 <= i,
            s2.live(i),
        ensures
            ({
                let n = s2.node(i);
                &&& n.id.0 == i
                &&& n.var.0 != 0
                &&& n.low != n.high
                &&& n.var.0 < s2.var2nodes@.len()
                &&& s2.var2nodes@[n.var.0 as int]@.contains_key(key2(n.low.0, n.high.0))
                &&& s2.var2nodes@[n.var.0 as int]@[key2(n.low.0, n.high.0)] == i
            }),
    {
        reveal(DDManager::wf);
        self.lemma_commit_slot(s2.nodes@, a, b, rw, i);
        self.lemma_new_keys(a, b, rw);
        if self.needs_rewrite(i, a, b) {
            let m = rw_index(rw, i);
            lemma_table_b_after(self.var2nodes@[b.0 as int]@, rw, rw.len() as int, key2(rw[m].1, rw[m].2));
        } else {
            self.lemma_inner_unique(i);
            self.lemma_inner(i);
            let n = self.node(i);
            let k = key2(n.low.0, n.high.0);
            if n.var == a {
                lemma_table_a_after(self.var2nodes@[a.0 as int]@, self.nodes@, rw, rw.len() as int, k);
                if exists|m: int| 0 <= m < rw.len() && old_key(self.nodes@, #[trigger] rw[m]) == k {
                    let m = choose|m: int| 0 <= m < rw.len() && old_key(self.nodes@, #[trigger] rw[m]) == k;
                    let f = rw[m].0 as int;
                    assert(self.rewrite_ok(a, b, rw[m]));
                    lemma_key2_injective(self.node(f).low.0, self.node(f).high.0, n.low.0, n.high.0);
                    self.lemma_inner_unique(f);
                }
            } else if n.var == b {
                lemma_table_b_after(self.var2nodes@[b.0 as int]@, rw, rw.len() as int, k);
            }
        }
    }

    /// After the rewrites, an entry of a unique table names a node with that variable and
    /// children.
    proof fn lemma_commit_entry(&self, s2: &DDManager, a: VarID, b: VarID, rw: Seq<(usize, usize, usize)>, v: int, k: u128)
        requires
            self.wf(),
            self.adjacent(a, b),
            self.rewrites_complete(a, b, rw),
            committed(*self, *s2, a, b, rw),
            0 <= v < s2.var2nodes@.len(),
            s2.var2nodes@[v]@.contains_key(k),
        ensures
            ({
                let i = s2.var2nodes@[v]@[k] as int;
                &&& s2.live(i)
                &&& i >= 2
                &&& s2.node(i).var.0 == v
                &&& key2(s2.node(i).low.0, s2.node(i).high.0) == k
            }),
    {
        reveal(DDManager::wf);
        self.lemma_new_keys(a, b, rw);
        if v == a.0 {
            lemma_table_a_after(self.var2nodes@[a.0 as int]@, self.nodes@, rw, rw.len() as int, k);
            let i = self.var2nodes@[v]@[k] as int;
            self.lemma_unique_entry(v, k);
            self.lemma_commit_slot(s2.nodes@, a, b, rw, i);
            if self.needs_rewrite(i, a, b) {
                let m = rw_index(rw, i);
                assert(old_key(self.nodes@, rw[m]) == k);
            }
        } else if v == b.0 {
            lemma_table_b_after(self.var2nodes@[b.0 as int]@, rw, rw.len() as int, k);
            if self.var2nodes@[v]@.contains_key(k) {
                let i = self.var2nodes@[v]@[k] as int;
                self.lemma_unique_entry(v, k);
                self.lemma_commit_slot(s2.nodes@, a, b, rw, i);
            } else {
                let m = choose|m: int| 0 <= m < rw.len() && key2((#[trigger] rw[m]).1, rw[m].2) == k;
                let f = rw[m].0 as int;
                assert(self.rewrite_ok(a, b, rw[m]));
                self.lemma_commit_slot(s2.nodes@, a, b, rw, f);
                let m2 = rw_index(rw, f);
                if m2 != m {
                    if m2 < m {
                        assert(rw[m2].0 < rw[m].0);
                    } else {
                        assert(rw[m].0 < rw[m2].0);
                    }
                }
            }
        } else {
            let i = self.var2nodes@[v]@[k] as int;
            self.lemma_unique_entry(v, k);
            self.lemma_commit_slot(s2.nodes@, a, b, rw, i);
        }
    }
}


impl DDManager {
    /// After the rewrites the manager is well formed, holds the same nodes, and every node
    /// stands for the function it stood for.
    proof fn lemma_commit_wf(&self, s2: &DDManager, a: VarID, b: VarID, rw: Seq<(usize, usize, usize)>)
        requires
            self.wf(),
            self.adjacent(a, b),
            self.rewrites_complete(a, b, rw),
            committed(*self, *s2, a, b, rw),
        ensures
            s2.wf(),
            s2.nodes@.len() == self.nodes@.len(),
            forall|i: int| #[trigger] s2.live(i) == self.live(i),
            forall|i: int, x: Assignment| #![trigger s2.sem(i, x)] self.live(i) ==> s2.sem(i, x) == self.sem(i, x),
    {
        reveal(DDManager::wf);
        let n1 = self.nodes@;
        let n2 = s2.nodes@;
        let l1 = self.var2level@;
        let l2 = s2.var2level@;
        self.lemma_commit_ordered(n2, a, b, rw);
        self.lemma_commit_slot(n2, a, b, rw, 0);
        self.lemma_commit_slot(n2, a, b, rw, 1);
        assert forall|i: int| #[trigger] s2.live(i) == self.live(i) by {
            self.lemma_commit_slot(n2, a, b, rw, i);
        }
        assert(s2.levels_wf()) by {
            assert forall|v: int, w: int| 0 <= v < l2.len() && 0 <= w < l2.len() && v != w implies #[trigger] l2[v] != #[trigger] l2[w] by {
                assert(l1[v] != l1[w]);
                assert(l1[v] != l1[a.0 as int] || v == a.0);
                assert(l1[w] != l1[a.0 as int] || w == a.0);
                assert(l1[v] != l1[b.0 as int] || v == b.0);
                assert(l1[w] != l1[b.0 as int] || w == b.0);
            }
        }
        assert forall|i: int| #![trigger s2.live(i)] 2 <= i && s2.live(i) implies {
            let n = s2.node(i);
            &&& n.id.0 == i
            &&& n.var.0 != 0
            &&& n.low != n.high
            &&& n.var.0 < s2.var2nodes@.len()
            &&& s2.var2nodes@[n.var.0 as int]@.contains_key(key2(n.low.0, n.high.0))
            &&& s2.var2nodes@[n.var.0 as int]@[key2(n.low.0, n.high.0)] == i
        } by {
            self.lemma_commit_inner(s2, a, b, rw, i);
        }
        assert forall|v: int, k: u128| 0 <= v < s2.var2nodes@.len() && #[trigger] s2.var2nodes@[v]@.contains_key(k) implies {
            let i = s2.var2nodes@[v]@[k] as int;
            &&& s2.live(i)
            &&& i >= 2
            &&& s2.node(i).var.0 == v
            &&& key2(s2.node(i).low.0, s2.node(i).high.0) == k
        } by {
            self.lemma_commit_entry(s2, a, b, rw, v, k);
        }
        assert(s2.free_wf()) by {
            assert forall|k: int| 0 <= k < s2.free_slots@.len() implies ({
                let sl = #[trigger] s2.free_slots@[k];
                &&& 2 <= sl < s2.nodes@.len()
                &&& s2.nodes@[sl as int] is None
            }) by {
                let sl = s2.free_slots@[k] as int;
                self.lemma_commit_slot(n2, a, b, rw, sl);
                assert(!self.live(sl));
            }
        }
        assert forall|i: int, x: Assignment| #![trigger s2.sem(i, x)] self.live(i) implies s2.sem(i, x) == self.sem(i, x) by {
            assert forall|j: int| #[trigger] live_in(n2, j) implies live_in(n1, j) by {
                self.lemma_commit_slot(n2, a, b, rw, j);
            }
            assert forall|j: int| #[trigger] live_in(n2, j) && n2[j] != n1[j] implies ({
                let d = node_in(n2, j);
                &&& d.var.0 != 0
                &&& forall|y: Assignment| #[trigger] eval(n1, l1, j, y) == if y(d.var.0) {
                    eval(n1, l1, d.high.0 as int, y)
                } else {
                    eval(n1, l1, d.low.0 as int, y)
                }
            }) by {
                self.lemma_commit_slot(n2, a, b, rw, j);
                let m = rw_index(rw, j);
                assert(self.rewrite_ok(a, b, rw[m]));
                assert forall|y: Assignment| #[trigger] eval(n1, l1, j, y) == if y(b.0) {
                    eval(n1, l1, rw[m].2 as int, y)
                } else {
                    eval(n1, l1, rw[m].1 as int, y)
                } by {
                    assert(self.sem(j, y) == if y(b.0) { self.sem(rw[m].2 as int, y) } else { self.sem(rw[m].1 as int, y) });
                }
            }
            self.lemma_commit_slot(n2, a, b, rw, i);
            lemma_eval_rewrite(n1, l1, n2, l2, i, x);
        }
    }
}


impl DDManager {
    /// Swaps the layers of variables `a` and `b`, which must lie on adjacent levels, one
    /// directly above the other. Every node keeps its ID and the function it stands for, and
    /// the diagram stays reduced, so `f` is returned unchanged.
    pub fn swap(&mut self, a: VarID, b: VarID, f: NodeID) -> (r: NodeID)
        requires
            old(self).wf(),
            1 <= a.0 < old(self).var2level@.len(),
            1 <= b.0 < old(self).var2level@.len(),
            old(self).var2level@[b.0 as int] == old(self).var2level@[a.0 as int] + 1
                || old(self).var2level@[a.0 as int] == old(self).var2level@[b.0 as int] + 1,
        ensures
            final(self).wf(),
            r == f,
            final(self).var2level@ == swapped_levels(old(self).var2level@, a, b),
            forall|i: int| #[trigger] old(self).live(i) ==> final(self).live(i),
            forall|i: int, x: Assignment| #![trigger final(self).sem(i, x)]
                old(self).live(i) ==> final(self).sem(i, x) == old(self).sem(i, x),
            forall|i: int| #![trigger final(self).node(i)]
                old(self).live(i) && old(self).node(i).var != a && old(self).node(i).var != b
                ==> final(self).node(i) == old(self).node(i),
    {
        let ghost s0 = *self;
        let (upper, lower) = if self.var2level[b.0] < self.var2level[a.0] {
            (b, a)
        } else {
            (a, b)
        };
        let rw = self.swap_prepare(upper, lower);
        let ghost s1 = *self;
        self.swap_commit(upper, lower, &rw);
        proof {
            s1.lemma_commit_wf(self, upper, lower, rw@);
            assert(swapped_levels(s0.var2level@, a, b) =~= swapped_levels(s0.var2level@, upper, lower));
            assert forall|i: int| #[trigger] s0.live(i) implies self.live(i) by {
                assert(s1.live(i));
            }
            assert forall|i: int, x: Assignment| #![trigger self.sem(i, x)]
                s0.live(i) implies self.sem(i, x) == s0.sem(i, x) by {
                assert(s1.sem(i, x) == s0.sem(i, x));
            }
            assert forall|i: int| #![trigger self.node(i)]
                s0.live(i) && s0.node(i).var != a && s0.node(i).var != b implies self.node(i) == s0.node(i) by {
                assert(s1.nodes@[i] == s0.nodes@[i]);
                s1.lemma_commit_slot(self.nodes@, upper, lower, rw@, i);
            }
        }
        f
    }
}


/// Exchanging the levels of two variables twice gives back the level table.
pub proof fn lemma_swap_twice(v2l: Seq<usize>, a: VarID, b: VarID)
    requires
        a.0 < v2l.len(),
        b.0 < v2l.len(),
    ensures
        swapped_levels(swapped_levels(v2l, a, b), b, a) == v2l,
{
    assert(swapped_levels(swapped_levels(v2l, a, b), b, a) =~= v2l);
}

/// Swapping two adjacent variables and swapping them back gives back the level table, and the
/// diagram below every node that was there before is the same as before: the same nodes are
/// reachable from it, so it counts as many nodes.
pub proof fn lemma_swap_back(m0: &DDManager, m1: &DDManager, m2: &DDManager, a: VarID, b: VarID, f: int)
    requires
        m0.wf(),
        m1.wf(),
        m2.wf(),
        a.0 < m0.var2level@.len(),
        b.0 < m0.var2level@.len(),
        m1.var2level@ == swapped_levels(m0.var2level@, a, b),
        m2.var2level@ == swapped_levels(m1.var2level@, b, a),
        forall|i: int| #[trigger] m0.live(i) ==> m1.live(i),
        forall|i: int, x: Assignment| #![trigger m1.sem(i, x)] m0.live(i) ==> m1.sem(i, x) == m0.sem(i, x),
        forall|i: int| #[trigger] m1.live(i) ==> m2.live(i),
        forall|i: int, x: Assignment| #![trigger m2.sem(i, x)] m1.live(i) ==> m2.sem(i, x) == m1.sem(i, x),
        m0.live(f),
    ensures
        m2.var2level@ == m0.var2level@,
        Set::new(|y: usize| m2.reaches(f, y as int)) == Set::new(|y: usize| m0.reaches(f, y as int)),
{
    lemma_swap_twice(m0.var2level@, a, b);
    assert forall|i: int| #[trigger] m0.live(i) implies m2.live(i) by {
        assert(m1.live(i));
    }
    assert forall|i: int, x: Assignment| #![trigger m2.sem(i, x)] m0.live(i) implies m2.sem(i, x) == m0.sem(i, x) by {
        assert(m1.live(i));
        assert(m1.sem(i, x) == m0.sem(i, x));
    }
    m0.lemma_same_diagram(m2, f);
    assert(Set::new(|y: usize| m2.reaches(f, y as int)) =~= Set::new(|y: usize| m0.reaches(f, y as int)));
}

} // verus!
