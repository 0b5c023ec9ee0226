//! The ITE (if-then-else) operator and the Boolean operations built on it.
use vstd::prelude::*;
use crate::bdd_node::{DDNode, NodeID, VarID, spec_restrict};
use crate::bdd_manager::{DDManager, cache_limit, key3, min3, op_value, triple_key, cacheable, lemma_key3_injective};
use crate::semantics::{Assignment, live_in, extends};

verus! {

broadcast use vstd::std_specs::hash::group_hash_axioms;

/// Orders two node IDs by number.
pub open spec fn spec_order(a: NodeID, b: NodeID) -> (NodeID, NodeID) {
    if a.0 < b.0 {
        (a, b)
    } else {
        (b, a)
    }
}

/// The canonical form of the arguments of an ITE call:
/// ite(f,f,h) = ite(f,1,h) = ite(h,1,f) and ite(f,g,f) = ite(f,g,0) = ite(g,f,0).
pub open spec fn spec_normalize(f: NodeID, g: NodeID, h: NodeID) -> (NodeID, NodeID, NodeID) {
    let (g1, h1) = if f == g {
        (NodeID(1), h)
    } else if f == h {
        (g, NodeID(0))
    } else {
        (g, h)
    };
    let (f2, h2) = if g1 == NodeID(1) {
        spec_order(f, h1)
    } else {
        (f, h1)
    };
    let (f3, g3) = if h2 == NodeID(0) {
        spec_order(f2, g1)
    } else {
        (f2, g1)
    };
    (f3, g3, h2)
}

/// Bring ITE calls of the form
/// ite(f,f,h) = ite(f,1,h) = ite(h,1,f)
/// ite(f,g,f) = ite(f,g,0) = ite(g,f,0)
/// into canonical form
fn normalize_ite_args(f: NodeID, g: NodeID, h: NodeID) -> (r: (NodeID, NodeID, NodeID))
    ensures
        r == spec_normalize(f, g, h),
{
    let mut f = f;
    let mut g = g;
    let mut h = h;
    if f.0 == g.0 {
        g = NodeID(1);
    } else if f.0 == h.0 {
        h = NodeID(0);
    }
    if g.0 == 1 {
        if h.0 < f.0 {
            let t = f;
            f = h;
            h = t;
        }
    }
    if h.0 == 0 {
        if g.0 < f.0 {
            let t = f;
            f = g;
            g = t;
        }
    }
    (f, g, h)
}

/// Normalizing the arguments does not change the result of ITE, under any valuation of the
/// nodes that gives the terminals their values.
pub proof fn lemma_normalize_value(f: NodeID, g: NodeID, h: NodeID, val: spec_fn(NodeID) -> bool)
    requires
        !val(NodeID(0)),
        val(NodeID(1)),
    ensures
        ({
            let (f2, g2, h2) = spec_normalize(f, g, h);
            (if val(f2) { val(g2) } else { val(h2) }) == (if val(f) { val(g) } else { val(h) })
        }),
{
}

/// Composition of `keeps`.
pub proof fn lemma_keeps_trans(a: &DDManager, b: &DDManager, c: &DDManager)
    requires
        b.keeps(a),
        c.keeps(b),
    ensures
        c.keeps(a),
{
    assert forall|i: int| #![trigger a.nodes@[i]] 0 <= i < a.nodes@.len() && a.nodes@[i] is Some
        implies c.nodes@[i] == a.nodes@[i] by {
        assert(b.nodes@[i] == a.nodes@[i]);
    }
    assert forall|v: int| 1 <= v < a.var2level@.len() implies #[trigger] c.var2level@[v] == a.var2level@[v] by {
        assert(b.var2level@[v] == a.var2level@[v]);
    }
    assert forall|id: int, x: Assignment| #![trigger c.sem(id, x)]
        a.live(id) implies c.live(id) && c.sem(id, x) == a.sem(id, x) by {
        assert(b.live(id) && b.sem(id, x) == a.sem(id, x));
    }
}

impl DDManager {
    /// The lowest level among three nodes (the level nearest the top).
    pub open spec fn min_level(&self, f: int, g: int, h: int) -> int {
        min3(self.level(f), self.level(g), self.level(h))
    }

    /// The distance of the highest of three nodes from the terminal level.
    pub open spec fn ite_measure(&self, f: NodeID, g: NodeID, h: NodeID) -> int {
        self.terminal_level() - self.min_level(f.0 as int, g.0 as int, h.0 as int)
    }

    /// Shannon expansion of a node at or below the level of `top`.
    pub proof fn lemma_restrict_sem(&self, x: int, top: VarID, a: Assignment)
        requires
            self.wf(),
            self.live(x),
            top.0 < self.var2level@.len(),
            self.node(x).var.0 == 0 || self.var2level@[top.0 as int] < self.level(x) || self.node(x).var == top,
        ensures
            self.live(spec_restrict(self.node(x), top, self.var2level@, true).0 as int),
            self.live(spec_restrict(self.node(x), top, self.var2level@, false).0 as int),
            self.sem(x, a) == if a(top.0) {
                self.sem(spec_restrict(self.node(x), top, self.var2level@, true).0 as int, a)
            } else {
                self.sem(spec_restrict(self.node(x), top, self.var2level@, false).0 as int, a)
            },
    {
        reveal(DDManager::wf);
        assert(live_in(self.nodes@, x));
        let n = self.node(x);
        if n.var.0 == 0 {
            if x >= 2 {
                assert(self.inner_wf());
            }
            assert(x == 0 || x == 1);
        } else if self.var2level@[top.0 as int] < self.level(x) {
            assert(x >= 2);
        } else {
        }
    }

    /// Find top variable: highest in tree according to order (the first on ties).
    pub fn min_by_order(&self, fvar: VarID, gvar: VarID, hvar: VarID) -> (r: VarID)
        requires
            fvar.0 < self.var2level@.len(),
            gvar.0 < self.var2level@.len(),
            hvar.0 < self.var2level@.len(),
        ensures
            r == fvar || r == gvar || r == hvar,
            self.var2level@[r.0 as int] == min3(
                self.var2level@[fvar.0 as int] as int,
                self.var2level@[gvar.0 as int] as int,
                self.var2level@[hvar.0 as int] as int,
            ),
    {
        let lf = self.var2level[fvar.0];
        let lg = self.var2level[gvar.0];
        let lh = self.var2level[hvar.0];
        if lf <= lg && lf <= lh {
            fvar
        } else if lg <= lh {
            gvar
        } else {
            hvar
        }
    }

    /// The node holding the function "if f then g else h".
    pub fn ite(&mut self, f: NodeID, g: NodeID, h: NodeID) -> (r: NodeID)
        requires
            old(self).wf(),
            old(self).live(f.0 as int),
            old(self).live(g.0 as int),
            old(self).live(h.0 as int),
        ensures
            final(self).wf(),
            final(self).keeps(old(self)),
            final(self).var2level@ == old(self).var2level@,
            final(self).live(r.0 as int),
            final(self).level(r.0 as int) >= old(self).min_level(f.0 as int, g.0 as int, h.0 as int),
            final(self).is_ite(f.0 as int, g.0 as int, h.0 as int, r.0 as int),
        decreases old(self).ite_measure(f, g, h), 1int,
    {
        let ghost f0 = f;
        let ghost g0 = g;
        let ghost h0 = h;
        let (f, g, h) = normalize_ite_args(f, g, h);
        proof {
            self.lemma_normalize(f0, g0, h0);
        }
        if g.0 == 1 && h.0 == 0 {
            proof { self.lemma_ite_trivial(f0, g0, h0, f, g, h, f); }
            return f;
        }
        if f.0 == 1 {
            proof { self.lemma_ite_trivial(f0, g0, h0, f, g, h, g); }
            return g;
        }
        if f.0 == 0 {
            proof { self.lemma_ite_trivial(f0, g0, h0, f, g, h, h); }
            return h;
        }
        if g.0 == h.0 {
            proof { self.lemma_ite_trivial(f0, g0, h0, f, g, h, g); }
            return g;
        }
        let use_cache = cacheable(f.0) && cacheable(g.0) && cacheable(h.0);
        if use_cache {
            let key = triple_key(f.0, g.0, h.0);
            match self.ite_c_table.get(&key) {
                Some(e) => {
                    let e = *e;
                    proof {
                        self.lemma_ite_cache_hit(key, f.0, g.0, h.0, e);
                        self.lemma_ite_trivial(f0, g0, h0, f, g, h, NodeID(e.3));
                    }
                    return NodeID(e.3);
                },
                None => {},
            }
        }
        let ghost s1 = *self;
        let out = self.ite_expand(f, g, h);
        let ghost s4 = *self;
        proof {
            s1.lemma_ite_normalized_kept(self, f0, g0, h0, f, g, h, out);
        }
        if use_cache {
            let key = triple_key(f.0, g.0, h.0);
            self.ite_c_table.insert(key, (f.0, g.0, h.0, out.0));
            proof {
                s4.lemma_ite_cache_insert(self, key, f.0, g.0, h.0, out.0);
            }
        }
        out
    }

    /// The negation of `f`.
    pub fn not(&mut self, f: NodeID) -> (r: NodeID)
        requires
            old(self).wf(),
            old(self).live(f.0 as int),
        ensures
            final(self).wf(),
            final(self).keeps(old(self)),
            final(self).var2level@ == old(self).var2level@,
            final(self).live(r.0 as int),
            final(self).level(r.0 as int) >= old(self).level(f.0 as int),
            forall|a: Assignment| #[trigger] final(self).sem(r.0 as int, a) == !final(self).sem(f.0 as int, a),
    {
        proof {
            self.lemma_terminals();
            self.lemma_level_bound(f.0 as int);
        }
        let r = self.ite(f, NodeID(0), NodeID(1));
        proof {
            self.lemma_terminals();
            assert forall|a: Assignment| #[trigger] self.sem(r.0 as int, a) == !self.sem(f.0 as int, a) by {
                assert(self.sem(r.0 as int, a) == if self.sem(f.0 as int, a) { self.sem(0, a) } else { self.sem(1, a) });
            }
        }
        r
    }

    /// The conjunction of `f` and `g`.
    pub fn and(&mut self, f: NodeID, g: NodeID) -> (r: NodeID)
        requires
            old(self).wf(),
            old(self).live(f.0 as int),
            old(self).live(g.0 as int),
        ensures
            final(self).wf(),
            final(self).keeps(old(self)),
            final(self).var2level@ == old(self).var2level@,
            final(self).live(r.0 as int),
            forall|a: Assignment| #[trigger] final(self).sem(r.0 as int, a) == (final(self).sem(f.0 as int, a)
                && final(self).sem(g.0 as int, a)),
    {
        proof { self.lemma_terminals(); }
        let r = self.ite(f, g, NodeID(0));
        proof {
            self.lemma_terminals();
            assert forall|a: Assignment| #[trigger] self.sem(r.0 as int, a) == (self.sem(f.0 as int, a)
                && self.sem(g.0 as int, a)) by {
                assert(self.sem(r.0 as int, a) == if self.sem(f.0 as int, a) { self.sem(g.0 as int, a) } else { self.sem(0, a) });
            }
        }
        r
    }

    /// The disjunction of `f` and `g`.
    pub fn or(&mut self, f: NodeID, g: NodeID) -> (r: NodeID)
        requires
            old(self).wf(),
            old(self).live(f.0 as int),
            old(self).live(g.0 as int),
        ensures
            final(self).wf(),
            final(self).keeps(old(self)),
            final(self).var2level@ == old(self).var2level@,
            final(self).live(r.0 as int),
            forall|a: Assignment| #[trigger] final(self).sem(r.0 as int, a) == (final(self).sem(f.0 as int, a)
                || final(self).sem(g.0 as int, a)),
    {
        proof { self.lemma_terminals(); }
        let r = self.ite(f, NodeID(1), g);
        proof {
            self.lemma_terminals();
            assert forall|a: Assignment| #[trigger] self.sem(r.0 as int, a) == (self.sem(f.0 as int, a)
                || self.sem(g.0 as int, a)) by {
                assert(self.sem(r.0 as int, a) == if self.sem(f.0 as int, a) { self.sem(1, a) } else { self.sem(g.0 as int, a) });
            }
        }
        r
    }

    /// The exclusive disjunction of `f` and `g`.
    pub fn xor(&mut self, f: NodeID, g: NodeID) -> (r: NodeID)
        requires
            old(self).wf(),
            old(self).live(f.0 as int),
            old(self).live(g.0 as int),
        ensures
            final(self).wf(),
            final(self).keeps(old(self)),
            final(self).var2level@ == old(self).var2level@,
            final(self).live(r.0 as int),
            forall|a: Assignment| #[trigger] final(self).sem(r.0 as int, a) == (final(self).sem(f.0 as int, a)
                != final(self).sem(g.0 as int, a)),
    {
        let ghost s0 = *self;
        let not_g = self.not(g);
        let ghost s1 = *self;
        proof {
            s0.lemma_args_kept(&s1, f, g, g);
        }
        let r = self.ite(f, not_g, g);
        proof {
            lemma_keeps_trans(&s0, &s1, self);
            assert forall|a: Assignment| #[trigger] self.sem(r.0 as int, a) == (self.sem(f.0 as int, a)
                != self.sem(g.0 as int, a)) by {
                assert(self.sem(r.0 as int, a) == if self.sem(f.0 as int, a) { self.sem(not_g.0 as int, a) } else { self.sem(g.0 as int, a) });
                assert(s1.sem(not_g.0 as int, a) == !s1.sem(g.0 as int, a));
                assert(self.sem(not_g.0 as int, a) == s1.sem(not_g.0 as int, a));
                assert(self.sem(g.0 as int, a) == s1.sem(g.0 as int, a));
            }
        }
        r
    }

    /// `r` computes "if f then g else h".
    pub open spec fn is_ite(&self, f: int, g: int, h: int, r: int) -> bool {
        forall|a: Assignment| #[trigger] self.sem(r, a) == if self.sem(f, a) {
            self.sem(g, a)
        } else {
            self.sem(h, a)
        }
    }

    proof fn lemma_normalize(&self, f0: NodeID, g0: NodeID, h0: NodeID)
        requires
            self.wf(),
            self.live(f0.0 as int),
            self.live(g0.0 as int),
            self.live(h0.0 as int),
        ensures
            ({
                let (f, g, h) = spec_normalize(f0, g0, h0);
                &&& self.live(f.0 as int) && self.live(g.0 as int) && self.live(h.0 as int)
                &&& self.min_level(f.0 as int, g.0 as int, h.0 as int) >= self.min_level(
                    f0.0 as int,
                    g0.0 as int,
                    h0.0 as int,
                )
                &&& forall|a: Assignment| (if #[trigger] self.sem(f.0 as int, a) {
                    self.sem(g.0 as int, a)
                } else {
                    self.sem(h.0 as int, a)
                }) == (if self.sem(f0.0 as int, a) {
                    self.sem(g0.0 as int, a)
                } else {
                    self.sem(h0.0 as int, a)
                })
            }),
    {
        reveal(DDManager::wf);
        let (f, g, h) = spec_normalize(f0, g0, h0);
        assert forall|a: Assignment| (if #[trigger] self.sem(f.0 as int, a) {
            self.sem(g.0 as int, a)
        } else {
            self.sem(h.0 as int, a)
        }) == (if self.sem(f0.0 as int, a) {
            self.sem(g0.0 as int, a)
        } else {
            self.sem(h0.0 as int, a)
        }) by {
            assert(!self.sem(0, a));
            assert(self.sem(1, a));
            lemma_normalize_value(f0, g0, h0, |n: NodeID| self.sem(n.0 as int, a));
        }
        assert(self.levels_wf());
        assert(live_in(self.nodes@, 0) && live_in(self.nodes@, 1));
        assert(self.level(0) == self.terminal_level() && self.level(1) == self.terminal_level());
        assert(live_in(self.nodes@, f0.0 as int) && live_in(self.nodes@, g0.0 as int)
            && live_in(self.nodes@, h0.0 as int));
    }

    /// A result found without recursion answers the original call.
    proof fn lemma_ite_trivial(&self, f0: NodeID, g0: NodeID, h0: NodeID, f: NodeID, g: NodeID, h: NodeID, r: NodeID)
        requires
            self.wf(),
            self.live(f0.0 as int),
            self.live(g0.0 as int),
            self.live(h0.0 as int),
            (f, g, h) == spec_normalize(f0, g0, h0),
            self.live(f.0 as int) && self.live(g.0 as int) && self.live(h.0 as int),
            self.min_level(f.0 as int, g.0 as int, h.0 as int) >= self.min_level(f0.0 as int, g0.0 as int, h0.0 as int),
            forall|a: Assignment| (if #[trigger] self.sem(f.0 as int, a) {
                self.sem(g.0 as int, a)
            } else {
                self.sem(h.0 as int, a)
            }) == (if self.sem(f0.0 as int, a) {
                self.sem(g0.0 as int, a)
            } else {
                self.sem(h0.0 as int, a)
            }),
            (g.0 == 1 && h.0 == 0 && r == f) || (f.0 == 1 && r == g) || (f.0 == 0 && r == h)
                || (g == h && r == g) || (self.live(r.0 as int) && self.level(r.0 as int) >= self.min_level(
                f.0 as int,
                g.0 as int,
                h.0 as int,
            ) && self.is_ite(f.0 as int, g.0 as int, h.0 as int, r.0 as int)),
        ensures
            self.live(r.0 as int),
            self.level(r.0 as int) >= self.min_level(f0.0 as int, g0.0 as int, h0.0 as int),
            self.is_ite(f0.0 as int, g0.0 as int, h0.0 as int, r.0 as int),
    {
        self.lemma_terminals();
        assert forall|a: Assignment| #[trigger] self.sem(r.0 as int, a) == if self.sem(f0.0 as int, a) {
            self.sem(g0.0 as int, a)
        } else {
            self.sem(h0.0 as int, a)
        } by {
            assert(!self.sem(0, a));
            assert(self.sem(1, a));
            if !((g.0 == 1 && h.0 == 0 && r == f) || (f.0 == 1 && r == g) || (f.0 == 0 && r == h) || (g == h && r == g)) {
                assert(self.sem(r.0 as int, a) == if self.sem(f.0 as int, a) {
                    self.sem(g.0 as int, a)
                } else {
                    self.sem(h.0 as int, a)
                });
            }
        }
    }

    /// The expansion's result answers the original call, also after the table grew.
    proof fn lemma_ite_normalized_kept(&self, new: &DDManager, f0: NodeID, g0: NodeID, h0: NodeID, f: NodeID, g: NodeID, h: NodeID, r: NodeID)
        requires
            self.wf(),
            new.wf(),
            new.keeps(self),
            new.var2level@ == self.var2level@,
            self.live(f0.0 as int),
            self.live(g0.0 as int),
            self.live(h0.0 as int),
            self.live(f.0 as int) && self.live(g.0 as int) && self.live(h.0 as int),
            self.min_level(f.0 as int, g.0 as int, h.0 as int) >= self.min_level(f0.0 as int, g0.0 as int, h0.0 as int),
            forall|a: Assignment| (if #[trigger] self.sem(f.0 as int, a) {
                self.sem(g.0 as int, a)
            } else {
                self.sem(h.0 as int, a)
            }) == (if self.sem(f0.0 as int, a) {
                self.sem(g0.0 as int, a)
            } else {
                self.sem(h0.0 as int, a)
            }),
            new.live(r.0 as int),
            new.level(r.0 as int) >= self.min_level(f.0 as int, g.0 as int, h.0 as int),
            new.is_ite(f.0 as int, g.0 as int, h.0 as int, r.0 as int),
        ensures
            new.level(r.0 as int) >= self.min_level(f0.0 as int, g0.0 as int, h0.0 as int),
            new.is_ite(f0.0 as int, g0.0 as int, h0.0 as int, r.0 as int),
    {
        assert forall|a: Assignment| #[trigger] new.sem(r.0 as int, a) == if new.sem(f0.0 as int, a) {
            new.sem(g0.0 as int, a)
        } else {
            new.sem(h0.0 as int, a)
        } by {
            assert(new.sem(f0.0 as int, a) == self.sem(f0.0 as int, a));
            assert(new.sem(g0.0 as int, a) == self.sem(g0.0 as int, a));
            assert(new.sem(h0.0 as int, a) == self.sem(h0.0 as int, a));
            assert(new.sem(f.0 as int, a) == self.sem(f.0 as int, a));
            assert(new.sem(g.0 as int, a) == self.sem(g.0 as int, a));
            assert(new.sem(h.0 as int, a) == self.sem(h.0 as int, a));
        }
    }

    /// An entry found in the ITE table under the key of (f, g, h) answers ite(f, g, h).
    proof fn lemma_ite_cache_hit(&self, key: u128, f: usize, g: usize, h: usize, e: (usize, usize, usize, usize))
        requires
            self.wf(),
            f < cache_limit() && g < cache_limit() && h < cache_limit(),
            key == key3(f, g, h),
            self.ite_c_table@.contains_key(key),
            self.ite_c_table@[key] == e,
        ensures
            e.0 == f && e.1 == g && e.2 == h,
            self.live(e.3 as int),
            self.level(e.3 as int) >= self.min_level(f as int, g as int, h as int),
            self.is_ite(f as int, g as int, h as int, e.3 as int),
    {
        reveal(DDManager::wf);
        lemma_key3_injective(e.0, e.1, e.2, f, g, h);
    }

    /// A live node's variable is known to the level table.
    pub proof fn lemma_live_var(&self, x: int)
        requires
            self.wf(),
            self.live(x),
        ensures
            self.node(x).var.0 < self.var2level@.len(),
            x >= 2 ==> self.node(x).var.0 != 0,
    {
        reveal(DDManager::wf);
        assert(live_in(self.nodes@, x));
    }

    /// Recording an ITE result in the computed table keeps the manager well formed.
    proof fn lemma_ite_cache_insert(&self, new: &DDManager, key: u128, f: usize, g: usize, h: usize, r: usize)
        requires
            self.wf(),
            f < cache_limit() && g < cache_limit() && h < cache_limit(),
            key == key3(f, g, h),
            self.live(f as int) && self.live(g as int) && self.live(h as int) && self.live(r as int),
            self.level(r as int) >= self.min_level(f as int, g as int, h as int),
            self.is_ite(f as int, g as int, h as int, r as int),
            new.nodes@ == self.nodes@,
            new.var2level@ == self.var2level@,
            new.var2nodes@ == self.var2nodes@,
            new.apply_c_table@ == self.apply_c_table@,
            new.free_slots@ == self.free_slots@,
            new.ite_c_table@ == self.ite_c_table@.insert(key, (f, g, h, r)),
        ensures
            new.wf(),
            new.keeps(self),
    {
        reveal(DDManager::wf);
        assert forall|k: u128| #[trigger] new.ite_c_table@.contains_key(k) implies {
            let e = new.ite_c_table@[k];
            &&& e.0 < cache_limit() && e.1 < cache_limit() && e.2 < cache_limit()
            &&& k == key3(e.0, e.1, e.2)
            &&& new.ite_entry_ok(e)
        } by {
            if k != key {
                assert(self.ite_c_table@.contains_key(k));
                assert(self.ite_entry_ok(self.ite_c_table@[k]));
                let e = self.ite_c_table@[k];
                assert forall|a: Assignment| #[trigger] new.sem(e.3 as int, a) == if new.sem(e.0 as int, a) {
                    new.sem(e.1 as int, a)
                } else {
                    new.sem(e.2 as int, a)
                } by {
                    assert(self.sem(e.3 as int, a) == if self.sem(e.0 as int, a) {
                        self.sem(e.1 as int, a)
                    } else {
                        self.sem(e.2 as int, a)
                    });
                }
            } else {
                assert forall|a: Assignment| #[trigger] new.sem(r as int, a) == if new.sem(f as int, a) {
                    new.sem(g as int, a)
                } else {
                    new.sem(h as int, a)
                } by {
                    assert(self.sem(r as int, a) == if self.sem(f as int, a) {
                        self.sem(g as int, a)
                    } else {
                        self.sem(h as int, a)
                    });
                }
            }
        }
        assert forall|k: u128| #[trigger] new.apply_c_table@.contains_key(k) implies {
            let e = new.apply_c_table@[k];
            &&& e.1 < cache_limit() && e.2 < cache_limit()
            &&& k == key3(e.0, e.1, e.2)
            &&& new.apply_entry_ok(e)
        } by {
            assert(self.apply_c_table@.contains_key(k));
            let e = self.apply_c_table@[k];
            assert(self.apply_entry_ok(e));
            assert forall|a: Assignment| #[trigger] new.sem(e.3 as int, a) == op_value(e.0, new.sem(e.1 as int, a), new.sem(e.2 as int, a)) by {
                assert(self.sem(e.3 as int, a) == op_value(e.0, self.sem(e.1 as int, a), self.sem(e.2 as int, a)));
            }
            assert(new.apply_entry_ok(e));
        }
        assert(new.ite_cache_wf());
        assert(new.apply_cache_wf());
        assert forall|i: int| #![trigger new.live(i)] 2 <= i && new.live(i) implies {
            let n = new.node(i);
            &&& n.id.0 == i
            &&& n.var.0 != 0
            &&& n.low != n.high
            &&& n.var.0 < new.var2nodes@.len()
            &&& new.var2nodes@[n.var.0 as int]@.contains_key(crate::bdd_manager::key2(n.low.0, n.high.0))
            &&& new.var2nodes@[n.var.0 as int]@[crate::bdd_manager::key2(n.low.0, n.high.0)] == i
        } by {
            assert(self.live(i));
        }
        assert(new.inner_wf());
        assert forall|v: int, k: u128|
            0 <= v < new.var2nodes@.len() && #[trigger] new.var2nodes@[v]@.contains_key(k) implies {
                let i = new.var2nodes@[v]@[k] as int;
                &&& new.live(i)
                &&& i >= 2
                &&& new.node(i).var.0 == v
                &&& crate::bdd_manager::key2(new.node(i).low.0, new.node(i).high.0) == k
            } by {
            assert(self.var2nodes@[v]@.contains_key(k));
        }
        assert(new.unique_wf());
        assert(new.free_wf());
        assert(new.levels_wf());
        assert(new.terminals_wf());
    }

    /// Shannon expansion of "if f then g else h" on the top variable.
    fn ite_expand(&mut self, f: NodeID, g: NodeID, h: NodeID) -> (r: NodeID)
        requires
            old(self).wf(),
            old(self).live(f.0 as int),
            old(self).live(g.0 as int),
            old(self).live(h.0 as int),
            f.0 >= 2,
        ensures
            final(self).wf(),
            final(self).keeps(old(self)),
            final(self).var2level@ == old(self).var2level@,
            final(self).live(r.0 as int),
            final(self).level(r.0 as int) >= old(self).min_level(f.0 as int, g.0 as int, h.0 as int),
            final(self).is_ite(f.0 as int, g.0 as int, h.0 as int, r.0 as int),
        decreases old(self).ite_measure(f, g, h), 0int,
    {
        let ghost s1 = *self;
        let fnode = match self.nodes[f.0] {
            Some(n) => n,
            None => { proof { assert(false); } return f; },
        };
        let gnode = match self.nodes[g.0] {
            Some(n) => n,
            None => { proof { assert(false); } return f; },
        };
        let hnode = match self.nodes[h.0] {
            Some(n) => n,
            None => { proof { assert(false); } return f; },
        };
        proof {
            self.lemma_live_var(f.0 as int);
            self.lemma_live_var(g.0 as int);
            self.lemma_live_var(h.0 as int);
        }
        let top = self.min_by_order(fnode.var, gnode.var, hnode.var);
        proof {
            self.lemma_top(f, g, h, top);
        }
        let fxt = fnode.restrict(top, &self.var2level, true);
        let gxt = gnode.restrict(top, &self.var2level, true);
        let hxt = hnode.restrict(top, &self.var2level, true);

        let fxf = fnode.restrict(top, &self.var2level, false);
        let gxf = gnode.restrict(top, &self.var2level, false);
        let hxf = hnode.restrict(top, &self.var2level, false);

        proof {
            self.lemma_expand_args(f, g, h, top);
        }
        let high = self.ite(fxt, gxt, hxt);
        let ghost s2 = *self;
        proof {
            s1.lemma_args_kept(&s2, fxf, gxf, hxf);
        }
        let low = self.ite(fxf, gxf, hxf);
        let ghost s3 = *self;
        proof {
            lemma_keeps_trans(&s1, &s2, &s3);
            s2.lemma_result_kept(&s3, fxt, gxt, hxt, high);
        }
        if low.0 == high.0 {
            proof {
                s1.lemma_expand_result(&s3, f, g, h, top, high, low, low);
            }
            return low;
        }
        let out = self.node_get_or_create(&DDNode { id: NodeID(0), var: top, low, high });
        proof {
            lemma_keeps_trans(&s1, &s3, self);
            s3.lemma_result_kept(self, fxt, gxt, hxt, high);
            s3.lemma_result_kept(self, fxf, gxf, hxf, low);
            s1.lemma_expand_result(self, f, g, h, top, high, low, out);
        }
        out
    }

    /// The variable chosen by `min_by_order` is an inner variable at the lowest level, and a node
    /// at that level carries it.
    pub proof fn lemma_top(&self, f: NodeID, g: NodeID, h: NodeID, top: VarID)
        requires
            self.wf(),
            self.live(f.0 as int),
            self.live(g.0 as int),
            self.live(h.0 as int),
            f.0 >= 2,
            top == self.node(f.0 as int).var || top == self.node(g.0 as int).var || top == self.node(h.0 as int).var,
            self.var2level@[top.0 as int] == min3(self.level(f.0 as int), self.level(g.0 as int), self.level(h.0 as int)),
        ensures
            1 <= top.0 < self.var2level@.len(),
            self.var2level@[top.0 as int] == self.min_level(f.0 as int, g.0 as int, h.0 as int),
            self.var2level@[top.0 as int] < self.terminal_level(),
            forall|x: int| #![trigger self.node(x)] x == f.0 || x == g.0 || x == h.0 ==> (
                self.node(x).var.0 == 0 || self.var2level@[top.0 as int] < self.level(x) || self.node(x).var == top),
    {
        reveal(DDManager::wf);
        assert(live_in(self.nodes@, f.0 as int));
        assert(live_in(self.nodes@, g.0 as int));
        assert(live_in(self.nodes@, h.0 as int));
        assert(self.node(f.0 as int).var.0 != 0);
        assert(self.levels_wf());
        assert(self.level(f.0 as int) < self.terminal_level()) by {
            assert(self.var2level@[self.node(f.0 as int).var.0 as int] != self.var2level@[0]);
        }
        if top.0 == 0 {
            assert(self.var2level@[top.0 as int] == self.terminal_level());
        }
        assert forall|x: int| #![trigger self.node(x)] x == f.0 || x == g.0 || x == h.0 implies (
            self.node(x).var.0 == 0 || self.var2level@[top.0 as int] < self.level(x) || self.node(x).var == top) by {
            if self.var2level@[top.0 as int] == self.level(x) {
                assert(self.node(x).var.0 == top.0);
            }
        }
    }

    /// The restrictions of the three arguments are live, lie strictly below the top variable,
    /// and the arguments are their Shannon expansions.
    pub proof fn lemma_expand_args(&self, f: NodeID, g: NodeID, h: NodeID, top: VarID)
        requires
            self.wf(),
            self.live(f.0 as int),
            self.live(g.0 as int),
            self.live(h.0 as int),
            1 <= top.0 < self.var2level@.len(),
            self.var2level@[top.0 as int] == self.min_level(f.0 as int, g.0 as int, h.0 as int),
            forall|x: int| #![trigger self.node(x)] x == f.0 || x == g.0 || x == h.0 ==> (
                self.node(x).var.0 == 0 || self.var2level@[top.0 as int] < self.level(x) || self.node(x).var == top),
        ensures
            ({
                let v2l = self.var2level@;
                let fxt = spec_restrict(self.node(f.0 as int), top, v2l, true);
                let gxt = spec_restrict(self.node(g.0 as int), top, v2l, true);
                let hxt = spec_restrict(self.node(h.0 as int), top, v2l, true);
                let fxf = spec_restrict(self.node(f.0 as int), top, v2l, false);
                let gxf = spec_restrict(self.node(g.0 as int), top, v2l, false);
                let hxf = spec_restrict(self.node(h.0 as int), top, v2l, false);
                &&& self.live(fxt.0 as int) && self.live(gxt.0 as int) && self.live(hxt.0 as int)
                &&& self.live(fxf.0 as int) && self.live(gxf.0 as int) && self.live(hxf.0 as int)
                &&& self.min_level(fxt.0 as int, gxt.0 as int, hxt.0 as int) > self.var2level@[top.0 as int]
                &&& self.min_level(fxf.0 as int, gxf.0 as int, hxf.0 as int) > self.var2level@[top.0 as int]
                &&& self.min_level(fxt.0 as int, gxt.0 as int, hxt.0 as int) <= self.terminal_level()
                &&& self.min_level(fxf.0 as int, gxf.0 as int, hxf.0 as int) <= self.terminal_level()
                &&& forall|a: Assignment| #[trigger] self.sem(f.0 as int, a) == (if a(top.0) { self.sem(fxt.0 as int, a) } else { self.sem(fxf.0 as int, a) })
                &&& forall|a: Assignment| #[trigger] self.sem(g.0 as int, a) == (if a(top.0) { self.sem(gxt.0 as int, a) } else { self.sem(gxf.0 as int, a) })
                &&& forall|a: Assignment| #[trigger] self.sem(h.0 as int, a) == (if a(top.0) { self.sem(hxt.0 as int, a) } else { self.sem(hxf.0 as int, a) })
            }),
    {
        reveal(DDManager::wf);
        let a0 = |x: usize| true;
        assert(self.node(f.0 as int) == self.node(f.0 as int));
        assert(self.node(g.0 as int) == self.node(g.0 as int));
        assert(self.node(h.0 as int) == self.node(h.0 as int));
        self.lemma_restrict_sem(f.0 as int, top, a0);
        self.lemma_restrict_sem(g.0 as int, top, a0);
        self.lemma_restrict_sem(h.0 as int, top, a0);
        assert forall|a: Assignment| #[trigger] self.sem(f.0 as int, a) == self.sem(f.0 as int, a) by {
            self.lemma_restrict_sem(f.0 as int, top, a);
        }
        assert forall|a: Assignment| #[trigger] self.sem(g.0 as int, a) == self.sem(g.0 as int, a) by {
            self.lemma_restrict_sem(g.0 as int, top, a);
        }
        assert forall|a: Assignment| #[trigger] self.sem(h.0 as int, a) == self.sem(h.0 as int, a) by {
            self.lemma_restrict_sem(h.0 as int, top, a);
        }
        assert(live_in(self.nodes@, f.0 as int));
        assert(live_in(self.nodes@, g.0 as int));
        assert(live_in(self.nodes@, h.0 as int));
        assert(self.inner_wf());
    }

    /// Live nodes stay live, at the same level, in a manager that keeps this one.
    pub proof fn lemma_args_kept(&self, new: &DDManager, x: NodeID, y: NodeID, z: NodeID)
        requires
            new.keeps(self),
            new.var2level@ == self.var2level@,
            self.live(x.0 as int),
            self.live(y.0 as int),
            self.live(z.0 as int),
        ensures
            new.live(x.0 as int),
            new.live(y.0 as int),
            new.live(z.0 as int),
            new.level(x.0 as int) == self.level(x.0 as int),
            new.level(y.0 as int) == self.level(y.0 as int),
            new.level(z.0 as int) == self.level(z.0 as int),
            new.min_level(x.0 as int, y.0 as int, z.0 as int) == self.min_level(x.0 as int, y.0 as int, z.0 as int),
            new.ite_measure(x, y, z) == self.ite_measure(x, y, z),
    {
        assert(self.nodes@[x.0 as int] is Some && self.nodes@[y.0 as int] is Some && self.nodes@[z.0 as int] is Some);
        let a0 = |v: usize| true;
        assert(new.sem(x.0 as int, a0) == self.sem(x.0 as int, a0));
        assert(new.sem(y.0 as int, a0) == self.sem(y.0 as int, a0));
        assert(new.sem(z.0 as int, a0) == self.sem(z.0 as int, a0));
    }

    /// An ITE result stays one in a manager that keeps this one.
    proof fn lemma_result_kept(&self, new: &DDManager, x: NodeID, y: NodeID, z: NodeID, r: NodeID)
        requires
            new.keeps(self),
            new.var2level@ == self.var2level@,
            self.live(x.0 as int),
            self.live(y.0 as int),
            self.live(z.0 as int),
            self.live(r.0 as int),
            self.is_ite(x.0 as int, y.0 as int, z.0 as int, r.0 as int),
        ensures
            new.live(r.0 as int),
            new.level(r.0 as int) == self.level(r.0 as int),
            new.is_ite(x.0 as int, y.0 as int, z.0 as int, r.0 as int),
    {
        self.lemma_args_kept(new, x, y, z);
        self.lemma_args_kept(new, r, r, r);
        assert forall|a: Assignment| #[trigger] new.sem(r.0 as int, a) == if new.sem(x.0 as int, a) {
            new.sem(y.0 as int, a)
        } else {
            new.sem(z.0 as int, a)
        } by {
            assert(new.sem(r.0 as int, a) == self.sem(r.0 as int, a));
            assert(new.sem(x.0 as int, a) == self.sem(x.0 as int, a));
            assert(new.sem(y.0 as int, a) == self.sem(y.0 as int, a));
            assert(new.sem(z.0 as int, a) == self.sem(z.0 as int, a));
        }
        assert(self.nodes@[r.0 as int] is Some);
    }

    /// Combining the two recursive results with the top variable gives the ITE result.
    proof fn lemma_expand_result(&self, new: &DDManager, f: NodeID, g: NodeID, h: NodeID, top: VarID, high: NodeID, low: NodeID, out: NodeID)
        requires
            self.wf(),
            new.keeps(self),
            new.var2level@ == self.var2level@,
            self.live(f.0 as int),
            self.live(g.0 as int),
            self.live(h.0 as int),
            1 <= top.0 < self.var2level@.len(),
            self.var2level@[top.0 as int] == self.min_level(f.0 as int, g.0 as int, h.0 as int),
            forall|x: int| #![trigger self.node(x)] x == f.0 || x == g.0 || x == h.0 ==> (
                self.node(x).var.0 == 0 || self.var2level@[top.0 as int] < self.level(x) || self.node(x).var == top),
            ({
                let v2l = self.var2level@;
                let fxt = spec_restrict(self.node(f.0 as int), top, v2l, true);
                let gxt = spec_restrict(self.node(g.0 as int), top, v2l, true);
                let hxt = spec_restrict(self.node(h.0 as int), top, v2l, true);
                let fxf = spec_restrict(self.node(f.0 as int), top, v2l, false);
                let gxf = spec_restrict(self.node(g.0 as int), top, v2l, false);
                let hxf = spec_restrict(self.node(h.0 as int), top, v2l, false);
                &&& new.is_ite(fxt.0 as int, gxt.0 as int, hxt.0 as int, high.0 as int)
                &&& new.is_ite(fxf.0 as int, gxf.0 as int, hxf.0 as int, low.0 as int)
                &&& new.level(high.0 as int) > self.var2level@[top.0 as int]
                &&& new.level(low.0 as int) > self.var2level@[top.0 as int]
            }),
            new.live(high.0 as int),
            new.live(low.0 as int),
            new.live(out.0 as int),
            low == high ==> out == low,
            low != high ==> new.level(out.0 as int) == self.var2level@[top.0 as int],
            forall|a: Assignment| #[trigger] new.sem(out.0 as int, a) == if a(top.0) {
                new.sem(high.0 as int, a)
            } else {
                new.sem(low.0 as int, a)
            },
        ensures
            new.level(out.0 as int) >= self.min_level(f.0 as int, g.0 as int, h.0 as int),
            new.is_ite(f.0 as int, g.0 as int, h.0 as int, out.0 as int),
    {
        self.lemma_expand_args(f, g, h, top);
        let v2l = self.var2level@;
        let fxt = spec_restrict(self.node(f.0 as int), top, v2l, true);
        let gxt = spec_restrict(self.node(g.0 as int), top, v2l, true);
        let hxt = spec_restrict(self.node(h.0 as int), top, v2l, true);
        let fxf = spec_restrict(self.node(f.0 as int), top, v2l, false);
        let gxf = spec_restrict(self.node(g.0 as int), top, v2l, false);
        let hxf = spec_restrict(self.node(h.0 as int), top, v2l, false);
        assert forall|a: Assignment| #[trigger] new.sem(out.0 as int, a) == if new.sem(f.0 as int, a) {
            new.sem(g.0 as int, a)
        } else {
            new.sem(h.0 as int, a)
        } by {
            assert(new.sem(f.0 as int, a) == self.sem(f.0 as int, a));
            assert(new.sem(g.0 as int, a) == self.sem(g.0 as int, a));
            assert(new.sem(h.0 as int, a) == self.sem(h.0 as int, a));
            assert(new.sem(fxt.0 as int, a) == self.sem(fxt.0 as int, a));
            assert(new.sem(gxt.0 as int, a) == self.sem(gxt.0 as int, a));
            assert(new.sem(hxt.0 as int, a) == self.sem(hxt.0 as int, a));
            assert(new.sem(fxf.0 as int, a) == self.sem(fxf.0 as int, a));
            assert(new.sem(gxf.0 as int, a) == self.sem(gxf.0 as int, a));
            assert(new.sem(hxf.0 as int, a) == self.sem(hxf.0 as int, a));
            assert(self.sem(f.0 as int, a) == (if a(top.0) { self.sem(fxt.0 as int, a) } else { self.sem(fxf.0 as int, a) }));
            assert(self.sem(g.0 as int, a) == (if a(top.0) { self.sem(gxt.0 as int, a) } else { self.sem(gxf.0 as int, a) }));
            assert(self.sem(h.0 as int, a) == (if a(top.0) { self.sem(hxt.0 as int, a) } else { self.sem(hxf.0 as int, a) }));
            assert(new.sem(high.0 as int, a) == if new.sem(fxt.0 as int, a) { new.sem(gxt.0 as int, a) } else { new.sem(hxt.0 as int, a) });
            assert(new.sem(low.0 as int, a) == if new.sem(fxf.0 as int, a) { new.sem(gxf.0 as int, a) } else { new.sem(hxf.0 as int, a) });
        }
    }
}

} // verus!
