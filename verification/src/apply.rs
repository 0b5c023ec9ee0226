//! The apply operator: conjunction, disjunction and exclusive disjunction of two functions.
use vstd::prelude::*;
use crate::bdd_node::{DDNode, NodeID, VarID, spec_restrict};
use crate::bdd_manager::{DDManager, cache_limit, key2, key3, min3, op_value, triple_key, cacheable, lemma_key3_injective};
use crate::semantics::Assignment;
use crate::ite::lemma_keeps_trans;

verus! {

broadcast use vstd::std_specs::hash::group_hash_axioms;

/// The operations apply can apply.
#[derive(Debug, Copy, Clone, PartialEq, Eq, Structural, Hash)]
pub enum ApplyOperation {
    AND,
    OR,
    XOR,
}

/// The number under which an operation's results are recorded in the computed table.
pub open spec fn op_index(op: ApplyOperation) -> usize {
    match op {
        ApplyOperation::AND => 0,
        ApplyOperation::OR => 1,
        ApplyOperation::XOR => 2,
    }
}

/// The Boolean function an operation computes.
pub open spec fn apply_value(op: ApplyOperation, x: bool, y: bool) -> bool {
    match op {
        ApplyOperation::AND => x && y,
        ApplyOperation::OR => x || y,
        ApplyOperation::XOR => x != y,
    }
}

impl ApplyOperation {
    /// The number under which the operation's results are recorded in the computed table.
    pub fn index(&self) -> (r: usize)
        ensures
            r == op_index(*self),
            r < 3,
            forall|x: bool, y: bool| #[trigger] op_value(r, x, y) == apply_value(*self, x, y),
    {
        match self {
            ApplyOperation::AND => 0,
            ApplyOperation::OR => 1,
            ApplyOperation::XOR => 2,
        }
    }
}

impl DDManager {
    /// `r` computes `op` applied to `u` and `v`.
    pub open spec fn is_apply(&self, op: ApplyOperation, u: int, v: int, r: int) -> bool {
        forall|a: Assignment| #[trigger] self.sem(r, a) == apply_value(op, self.sem(u, a), self.sem(v, a))
    }

    /// The distance of the higher of two nodes from the terminal level.
    pub open spec fn apply_measure(&self, u: NodeID, v: NodeID) -> int {
        self.terminal_level() - self.min_level2(u.0 as int, v.0 as int)
    }

    /// `op` applied to two nodes of which one is a terminal, or to a node and itself.
    /// Returns `None` when both are inner nodes and differ.
    fn apply_simple(&mut self, op: ApplyOperation, u: NodeID, v: NodeID) -> (r: Option<NodeID>)
        requires
            old(self).wf(),
            old(self).live(u.0 as int),
            old(self).live(v.0 as int),
        ensures
            final(self).wf(),
            final(self).keeps(old(self)),
            final(self).var2level@ == old(self).var2level@,
            r is None <==> (u.0 >= 2 && v.0 >= 2 && u != v),
            r is None ==> *final(self) == *old(self),
            r matches Some(w) ==> final(self).live(w.0 as int)
                && final(self).level(w.0 as int) >= old(self).min_level2(u.0 as int, v.0 as int)
                && final(self).is_apply(op, u.0 as int, v.0 as int, w.0 as int),
    {
        proof {
            self.lemma_terminals();
            self.lemma_level_bound(u.0 as int);
            self.lemma_level_bound(v.0 as int);
        }
        if u.0 < 2 && v.0 < 2 {
            // Both nodes are terminal nodes
            let w = match op {
                ApplyOperation::AND => if u.0 == 1 && v.0 == 1 { 1 } else { 0 },
                ApplyOperation::OR => if u.0 == 1 || v.0 == 1 { 1 } else { 0 },
                ApplyOperation::XOR => if u.0 != v.0 { 1 } else { 0 },
            };
            return Some(NodeID(w));
        }
        if u.0 < 2 {
            // First node is terminal node
            let w = match op {
                ApplyOperation::AND => if u.0 == 0 { u } else { v },
                ApplyOperation::OR => if u.0 == 0 { v } else { u },
                ApplyOperation::XOR => if u.0 == 0 { v } else { self.not(v) },
            };
            return Some(w);
        }
        if v.0 < 2 {
            // Second node is terminal node
            let w = match op {
                ApplyOperation::AND => if v.0 == 0 { v } else { u },
                ApplyOperation::OR => if v.0 == 0 { u } else { v },
                ApplyOperation::XOR => if v.0 == 0 { u } else { self.not(u) },
            };
            return Some(w);
        }
        if u.0 == v.0 {
            // Both nodes are equal
            let w = match op {
                ApplyOperation::AND => u,
                ApplyOperation::OR => u,
                ApplyOperation::XOR => NodeID(0),
            };
            return Some(w);
        }
        None
    }

    /// The node holding `op` applied to the functions of `u` and `v`.
    pub fn apply(&mut self, op: ApplyOperation, u: NodeID, v: NodeID) -> (r: NodeID)
        requires
            old(self).wf(),
            old(self).live(u.0 as int),
            old(self).live(v.0 as int),
        ensures
            final(self).wf(),
            final(self).keeps(old(self)),
            final(self).var2level@ == old(self).var2level@,
            final(self).live(r.0 as int),
            final(self).level(r.0 as int) >= old(self).min_level2(u.0 as int, v.0 as int),
            final(self).is_apply(op, u.0 as int, v.0 as int, r.0 as int),
        decreases old(self).apply_measure(u, v), 1int,
    {
        let opi = op.index();
        let use_cache = cacheable(u.0) && cacheable(v.0);
        if use_cache {
            let key = triple_key(opi, u.0, v.0);
            match self.apply_c_table.get(&key) {
                Some(e) => {
                    let e = *e;
                    proof {
                        self.lemma_apply_cache_hit(key, opi, u.0, v.0, e);
                    }
                    return NodeID(e.3);
                },
                None => {},
            }
        }
        let ghost s0 = *self;
        let out = match self.apply_simple(op, u, v) {
            Some(w) => w,
            None => self.apply_expand(op, u, v),
        };
        let ghost s1 = *self;
        if use_cache {
            let key = triple_key(opi, u.0, v.0);
            self.apply_c_table.insert(key, (opi, u.0, v.0, out.0));
            proof {
                s0.lemma_args_kept(&s1, u, v, v);
                s1.lemma_apply_cache_insert(self, key, opi, u.0, v.0, out.0);
                lemma_keeps_trans(&s0, &s1, self);
            }
        }
        out
    }

    /// Shannon expansion of `op` applied to two distinct inner nodes on the top variable.
    fn apply_expand(&mut self, op: ApplyOperation, u: NodeID, v: NodeID) -> (r: NodeID)
        requires
            old(self).wf(),
            old(self).live(u.0 as int),
            old(self).live(v.0 as int),
            u.0 >= 2,
            v.0 >= 2,
        ensures
            final(self).wf(),
            final(self).keeps(old(self)),
            final(self).var2level@ == old(self).var2level@,
            final(self).live(r.0 as int),
            final(self).level(r.0 as int) >= old(self).min_level2(u.0 as int, v.0 as int),
            final(self).is_apply(op, u.0 as int, v.0 as int, r.0 as int),
        decreases old(self).apply_measure(u, v), 0int,
    {
        let ghost s1 = *self;
        proof {
            self.lemma_live_var(u.0 as int);
            self.lemma_live_var(v.0 as int);
        }
        let unode = self.nodes[u.0].unwrap();
        let vnode = self.nodes[v.0].unwrap();
        let top = self.min_by_order(unode.var, vnode.var, vnode.var);
        proof {
            self.lemma_top(u, v, v, top);
        }
        let uxt = unode.restrict(top, &self.var2level, true);
        let vxt = vnode.restrict(top, &self.var2level, true);
        let uxf = unode.restrict(top, &self.var2level, false);
        let vxf = vnode.restrict(top, &self.var2level, false);
        proof {
            self.lemma_expand_args(u, v, v, top);
        }
        let high = self.apply(op, uxt, vxt);
        let ghost s2 = *self;
        proof {
            s1.lemma_args_kept(&s2, uxf, vxf, vxf);
        }
        let low = self.apply(op, uxf, vxf);
        let ghost s3 = *self;
        proof {
            lemma_keeps_trans(&s1, &s2, &s3);
            s2.lemma_apply_kept(&s3, op, uxt, vxt, high);
        }
        if low.0 == high.0 {
            proof {
                s1.lemma_apply_expand_result(&s3, op, u, v, top, high, low, low);
            }
            return low;
        }
        let out = self.node_get_or_create(&DDNode { id: NodeID(0), var: top, low, high });
        proof {
            lemma_keeps_trans(&s1, &s3, self);
            s3.lemma_apply_kept(self, op, uxt, vxt, high);
            s3.lemma_apply_kept(self, op, uxf, vxf, low);
            s1.lemma_apply_expand_result(self, op, u, v, top, high, low, out);
        }
        out
    }

    /// An entry found in the apply table under the key of (op, u, v) answers apply(op, u, v).
    proof fn lemma_apply_cache_hit(&self, key: u128, op: usize, u: usize, v: usize, e: (usize, usize, usize, usize))
        requires
            self.wf(),
            op < 3,
            u < cache_limit() && v < cache_limit(),
            key == key3(op, u, v),
            self.apply_c_table@.contains_key(key),
            self.apply_c_table@[key] == e,
        ensures
            e.0 == op && e.1 == u && e.2 == v,
            self.live(e.3 as int),
            self.level(e.3 as int) >= self.min_level2(u as int, v as int),
            forall|a: Assignment| #[trigger] self.sem(e.3 as int, a) == op_value(op, self.sem(u as int, a), self.sem(v as int, a)),
    {
        reveal(DDManager::wf);
        lemma_key3_injective(e.0, e.1, e.2, op, u, v);
    }

    /// Recording an apply result in the computed table keeps the manager well formed.
    proof fn lemma_apply_cache_insert(&self, new: &DDManager, key: u128, op: usize, u: usize, v: usize, r: usize)
        requires
            self.wf(),
            op < 3,
            u < cache_limit() && v < cache_limit(),
            key == key3(op, u, v),
            self.live(u as int) && self.live(v as int) && self.live(r as int),
            self.level(r as int) >= self.min_level2(u as int, v as int),
            forall|a: Assignment| #[trigger] self.sem(r as int, a) == op_value(op, self.sem(u as int, a), self.sem(v as int, a)),
            new.nodes@ == self.nodes@,
            new.var2level@ == self.var2level@,
            new.var2nodes@ == self.var2nodes@,
            new.ite_c_table@ == self.ite_c_table@,
            new.free_slots@ == self.free_slots@,
            new.apply_c_table@ == self.apply_c_table@.insert(key, (op, u, v, r)),
        ensures
            new.wf(),
            new.keeps(self),
    {
        reveal(DDManager::wf);
        assert forall|k: u128| #[trigger] new.apply_c_table@.contains_key(k) implies {
            let e = new.apply_c_table@[k];
            &&& e.1 < cache_limit() && e.2 < cache_limit()
            &&& k == key3(e.0, e.1, e.2)
            &&& new.apply_entry_ok(e)
        } by {
            if k != key {
                assert(self.apply_c_table@.contains_key(k));
                let e = self.apply_c_table@[k];
                assert(self.apply_entry_ok(e));
                assert forall|a: Assignment| #[trigger] new.sem(e.3 as int, a) == op_value(e.0, new.sem(e.1 as int, a), new.sem(e.2 as int, a)) by {
                    assert(self.sem(e.3 as int, a) == op_value(e.0, self.sem(e.1 as int, a), self.sem(e.2 as int, a)));
                }
            } else {
                assert forall|a: Assignment| #[trigger] new.sem(r as int, a) == op_value(op, new.sem(u as int, a), new.sem(v as int, a)) by {
                    assert(self.sem(r as int, a) == op_value(op, self.sem(u as int, a), self.sem(v as int, a)));
                }
            }
        }
        assert forall|k: u128| #[trigger] new.ite_c_table@.contains_key(k) implies {
            let e = new.ite_c_table@[k];
            &&& e.0 < cache_limit() && e.1 < cache_limit() && e.2 < cache_limit()
            &&& k == key3(e.0, e.1, e.2)
            &&& new.ite_entry_ok(e)
        } by {
            assert(self.ite_c_table@.contains_key(k));
            let e = self.ite_c_table@[k];
            assert(self.ite_entry_ok(e));
            assert forall|a: Assignment| #[trigger] new.sem(e.3 as int, a) == if new.sem(e.0 as int, a) {
                new.sem(e.1 as int, a)
            } else {
                new.sem(e.2 as int, a)
            } by {
                assert(self.sem(e.3 as int, a) == if self.sem(e.0 as int, a) {
                    self.sem(e.1 as int, a)
                } else {
                    self.sem(e.2 as int, a)
                });
            }
        }
        assert(new.ite_cache_wf());
        assert(new.apply_cache_wf());
        assert forall|i: int| #![trigger new.live(i)] 2 <= i && new.live(i) implies {
            let n = new.node(i);
            &&& n.id.0 == i
            &&& n.var.0 != 0
            &&& n.low != n.high
            &&& n.var.0 < new.var2nodes@.len()
            &&& new.var2nodes@[n.var.0 as int]@.contains_key(key2(n.low.0, n.high.0))
            &&& new.var2nodes@[n.var.0 as int]@[key2(n.low.0, n.high.0)] == i
        } by {
            assert(self.live(i));
        }
        assert(new.inner_wf());
        assert forall|w: int, k: u128|
            0 <= w < new.var2nodes@.len() && #[trigger] new.var2nodes@[w]@.contains_key(k) implies {
                let i = new.var2nodes@[w]@[k] as int;
                &&& new.live(i)
                &&& i >= 2
                &&& new.node(i).var.0 == w
                &&& key2(new.node(i).low.0, new.node(i).high.0) == k
            } by {
            assert(self.var2nodes@[w]@.contains_key(k));
        }
        assert(new.unique_wf());
        assert(new.free_wf());
        assert(new.levels_wf());
        assert(new.terminals_wf());
    }

    /// An apply result stays one in a manager that keeps this one.
    proof fn lemma_apply_kept(&self, new: &DDManager, op: ApplyOperation, x: NodeID, y: NodeID, r: NodeID)
        requires
            new.keeps(self),
            new.var2level@ == self.var2level@,
            self.live(x.0 as int),
            self.live(y.0 as int),
            self.live(r.0 as int),
            self.is_apply(op, x.0 as int, y.0 as int, r.0 as int),
        ensures
            new.live(r.0 as int),
            new.level(r.0 as int) == self.level(r.0 as int),
            new.is_apply(op, x.0 as int, y.0 as int, r.0 as int),
    {
        self.lemma_args_kept(new, x, y, r);
        assert forall|a: Assignment| #[trigger] new.sem(r.0 as int, a) == apply_value(op, new.sem(x.0 as int, a), new.sem(y.0 as int, a)) by {
            assert(new.sem(r.0 as int, a) == self.sem(r.0 as int, a));
            assert(new.sem(x.0 as int, a) == self.sem(x.0 as int, a));
            assert(new.sem(y.0 as int, a) == self.sem(y.0 as int, a));
        }
        assert(self.nodes@[r.0 as int] is Some);
    }

    /// Combining the two recursive results with the top variable gives the apply result.
    proof fn lemma_apply_expand_result(&self, new: &DDManager, op: ApplyOperation, u: NodeID, v: NodeID, top: VarID, high: NodeID, low: NodeID, out: NodeID)
        requires
            self.wf(),
            new.keeps(self),
            new.var2level@ == self.var2level@,
            self.live(u.0 as int),
            self.live(v.0 as int),
            1 <= top.0 < self.var2level@.len(),
            self.var2level@[top.0 as int] == self.min_level(u.0 as int, v.0 as int, v.0 as int),
            forall|x: int| #![trigger self.node(x)] x == u.0 || x == v.0 ==> (
                self.node(x).var.0 == 0 || self.var2level@[top.0 as int] < self.level(x) || self.node(x).var == top),
            ({
                let v2l = self.var2level@;
                let uxt = spec_restrict(self.node(u.0 as int), top, v2l, true);
                let vxt = spec_restrict(self.node(v.0 as int), top, v2l, true);
                let uxf = spec_restrict(self.node(u.0 as int), top, v2l, false);
                let vxf = spec_restrict(self.node(v.0 as int), top, v2l, false);
                &&& new.is_apply(op, uxt.0 as int, vxt.0 as int, high.0 as int)
                &&& new.is_apply(op, uxf.0 as int, vxf.0 as int, low.0 as int)
            }),
            new.live(high.0 as int),
            new.live(low.0 as int),
            new.live(out.0 as int),
            low == high ==> out == low,
            low != high ==> new.level(out.0 as int) == self.var2level@[top.0 as int],
            low == high ==> new.level(low.0 as int) > self.var2level@[top.0 as int],
            forall|a: Assignment| #[trigger] new.sem(out.0 as int, a) == if a(top.0) {
                new.sem(high.0 as int, a)
            } else {
                new.sem(low.0 as int, a)
            },
        ensures
            new.level(out.0 as int) >= self.min_level2(u.0 as int, v.0 as int),
            new.is_apply(op, u.0 as int, v.0 as int, out.0 as int),
    {
        self.lemma_expand_args(u, v, v, top);
        let v2l = self.var2level@;
        let uxt = spec_restrict(self.node(u.0 as int), top, v2l, true);
        let vxt = spec_restrict(self.node(v.0 as int), top, v2l, true);
        let uxf = spec_restrict(self.node(u.0 as int), top, v2l, false);
        let vxf = spec_restrict(self.node(v.0 as int), top, v2l, false);
        assert forall|a: Assignment| #[trigger] new.sem(out.0 as int, a) == apply_value(op, new.sem(u.0 as int, a), new.sem(v.0 as int, a)) by {
            assert(new.sem(u.0 as int, a) == self.sem(u.0 as int, a));
            assert(new.sem(v.0 as int, a) == self.sem(v.0 as int, a));
            assert(new.sem(uxt.0 as int, a) == self.sem(uxt.0 as int, a));
            assert(new.sem(vxt.0 as int, a) == self.sem(vxt.0 as int, a));
            assert(new.sem(uxf.0 as int, a) == self.sem(uxf.0 as int, a));
            assert(new.sem(vxf.0 as int, a) == self.sem(vxf.0 as int, a));
            assert(self.sem(u.0 as int, a) == (if a(top.0) { self.sem(uxt.0 as int, a) } else { self.sem(uxf.0 as int, a) }));
            assert(self.sem(v.0 as int, a) == (if a(top.0) { self.sem(vxt.0 as int, a) } else { self.sem(vxf.0 as int, a) }));
            assert(new.sem(high.0 as int, a) == apply_value(op, new.sem(uxt.0 as int, a), new.sem(vxt.0 as int, a)));
            assert(new.sem(low.0 as int, a) == apply_value(op, new.sem(uxf.0 as int, a), new.sem(vxf.0 as int, a)));
        }
    }
}

} // verus!
