//! Counting the satisfying assignments of a function.
use vstd::prelude::*;
use std::collections::HashMap;
use crate::bdd_node::{NodeID, VarID};
use crate::bdd_manager::DDManager;
use crate::big_count::BigCount;
use crate::semantics::{Assignment, assign};
use crate::dvo::var_at;
use crate::sifting::{lemma_levels_onto, lemma_var_at};

verus! {

broadcast use vstd::std_specs::hash::group_hash_axioms;

/// Two to the power of `n`.
pub open spec fn p2(n: nat) -> nat
    decreases n,
{
    if n == 0 {
        1
    } else {
        2 * p2((n - 1) as nat)
    }
}

impl DDManager {
    /// The number of ways to set the variables at the levels `l` up to the terminal level so
    /// that the path from node `id` ends in the terminal 1: a level above the node leaves its
    /// variable free (both values count), the node's own level splits into its two children.
    pub open spec fn models_from(&self, id: int, l: int) -> nat
        decreases self.terminal_level() - l,
    {
        if l >= self.terminal_level() {
            if id == 1 {
                1
            } else {
                0
            }
        } else if self.level(id) > l {
            2 * self.models_from(id, l + 1)
        } else {
            self.models_from(self.node(id).low.0 as int, l + 1) + self.models_from(self.node(id).high.0 as int, l + 1)
        }
    }

    /// The number of satisfying assignments of the function of node `f` over all variables.
    pub open spec fn model_count(&self, f: int) -> nat {
        self.models_from(f, 1)
    }

    /// Levels above a node leave their variables free.
    pub proof fn lemma_models_shift(&self, id: int, l: int)
        requires
            self.wf(),
            self.live(id),
            l <= self.level(id),
        ensures
            self.models_from(id, l) == p2((self.level(id) - l) as nat) * self.models_from(id, self.level(id)),
        decreases self.level(id) - l,
    {
        self.lemma_level_bound(id);
        let m = self.models_from(id, self.level(id));
        if l < self.level(id) {
            self.lemma_models_shift(id, l + 1);
            let n = (self.level(id) - l) as nat;
            let a = p2((n - 1) as nat);
            assert(self.models_from(id, l + 1) == a * m);
            assert(self.models_from(id, l) == 2 * self.models_from(id, l + 1));
            assert(p2(n) == 2 * a);
            assert(2 * (a * m) == (2 * a) * m) by (nonlinear_arith);
        } else {
            assert(p2(0) == 1);
            assert(1 * m == m);
        }
    }
}

/// The number of the settings of the variables on the levels from `l` down to the last of the
/// level table `v2l` (the other variables as in `a`) under which property `p` holds.
pub open spec fn settings_count(v2l: Seq<usize>, p: spec_fn(Assignment) -> bool, l: int, a: Assignment) -> nat
    decreases v2l[0] - l,
{
    if l >= v2l[0] {
        if p(a) { 1 } else { 0 }
    } else {
        let v = var_at(v2l, l as usize).unwrap().0;
        settings_count(v2l, p, l + 1, assign(a, v, false)) + settings_count(v2l, p, l + 1, assign(a, v, true))
    }
}

impl DDManager {
    /// The variable on level `l`.
    pub open spec fn var_on(&self, l: int) -> usize {
        var_at(self.var2level@, l as usize).unwrap().0
    }

    /// The number of the settings of the variables on the levels from `l` down to the last
    /// (the other variables as in `a`) under which node `id` evaluates to true: each of the
    /// `2^(terminal level - l)` settings counted once.
    pub open spec fn true_settings(&self, id: int, l: int, a: Assignment) -> nat
        decreases self.terminal_level() - l,
    {
        if l >= self.terminal_level() {
            if self.sem(id, a) { 1 } else { 0 }
        } else {
            let v = self.var_on(l);
            self.true_settings(id, l + 1, assign(a, v, false)) + self.true_settings(id, l + 1, assign(a, v, true))
        }
    }

    /// A node whose function is the property `p` has as many true settings as `p` has
    /// settings of the variables on the levels from `l` down under which it holds.
    pub proof fn lemma_settings_of(&self, g: int, p: spec_fn(Assignment) -> bool, l: int, a: Assignment)
        requires
            forall|b: Assignment| #[trigger] self.sem(g, b) == p(b),
        ensures
            self.true_settings(g, l, a) == settings_count(self.var2level@, p, l, a),
        decreases self.terminal_level() - l,
    {
        if l < self.terminal_level() {
            let v = self.var_on(l);
            self.lemma_settings_of(g, p, l + 1, assign(a, v, false));
            self.lemma_settings_of(g, p, l + 1, assign(a, v, true));
        } else {
            assert(self.sem(g, a) == p(a));
        }
    }

    /// The variable on a level between 1 and the last inner level lies there.
    pub proof fn lemma_var_on(&self, l: int)
        requires
            self.wf(),
            1 <= l < self.terminal_level(),
        ensures
            1 <= self.var_on(l) < self.var2level@.len(),
            self.var2level@[self.var_on(l) as int] == l,
    {
        self.lemma_valid_levels();
        lemma_levels_onto(self.var2level@, l);
        let u = choose|u: int| 0 <= u < self.var2level@.len() && self.var2level@[u] == l;
        lemma_var_at(self.var2level@, u);
    }

    /// Assignment `b` sets each variable above level `k` as `a` does.
    pub open spec fn agrees_above(&self, b: Assignment, a: Assignment, k: int) -> bool {
        forall|u: usize| 0 < u < self.var2level@.len() && self.var2level@[u as int] < k ==> #[trigger] b(u) == a(u)
    }

    /// Setting the variable on level `k` keeps agreement above level `k` with the setting's
    /// source.
    pub proof fn lemma_agrees_step(&self, b: Assignment, a: Assignment, k: int, x: bool)
        requires
            self.wf(),
            1 <= k < self.terminal_level(),
            self.agrees_above(b, assign(a, self.var_on(k), x), k + 1),
        ensures
            self.agrees_above(b, a, k),
    {
        self.lemma_var_on(k);
        let v = self.var_on(k);
        assert forall|u: usize| 0 < u < self.var2level@.len() && self.var2level@[u as int] < k implies #[trigger] b(u) == a(u) by {
            assert(u != v);
            assert(b(u) == assign(a, v, x)(u));
        }
    }

    /// Two nodes that agree under every assignment that agrees with `a` above level `k` have as
    /// many true settings from `k` on.
    pub proof fn lemma_true_settings_agree(&self, g: int, h: int, k: int, a: Assignment)
        requires
            self.wf(),
            1 <= k,
            forall|b: Assignment| self.agrees_above(b, a, k) ==> #[trigger] self.sem(g, b) == self.sem(h, b),
        ensures
            self.true_settings(g, k, a) == self.true_settings(h, k, a),
        decreases self.terminal_level() - k,
    {
        if k < self.terminal_level() {
            let v = self.var_on(k);
            let a0 = assign(a, v, false);
            let a1 = assign(a, v, true);
            assert forall|b: Assignment| self.agrees_above(b, a0, k + 1) implies #[trigger] self.sem(g, b) == self.sem(h, b) by {
                self.lemma_agrees_step(b, a, k, false);
            }
            assert forall|b: Assignment| self.agrees_above(b, a1, k + 1) implies #[trigger] self.sem(g, b) == self.sem(h, b) by {
                self.lemma_agrees_step(b, a, k, true);
            }
            self.lemma_true_settings_agree(g, h, k + 1, a0);
            self.lemma_true_settings_agree(g, h, k + 1, a1);
        } else {
            assert(self.agrees_above(a, a, k));
            assert(self.sem(g, a) == self.sem(h, a));
        }
    }

    /// The count of paths from node `id` is its count of true settings, from any level down
    /// to its own.
    pub proof fn lemma_models_are_settings(&self, id: int, l: int, a: Assignment)
        requires
            self.wf(),
            self.live(id),
            1 <= l <= self.level(id),
        ensures
            self.models_from(id, l) == self.true_settings(id, l, a),
        decreases self.terminal_level() - l,
    {
        self.lemma_level_bound(id);
        if l >= self.terminal_level() {
            self.lemma_terminals();
        } else if self.level(id) > l {
            self.lemma_var_on(l);
            let v = self.var_on(l);
            self.lemma_models_are_settings(id, l + 1, assign(a, v, false));
            self.lemma_models_are_settings(id, l + 1, assign(a, v, true));
        } else {
            self.lemma_inner(id);
            self.lemma_var_on(l);
            let n = self.node(id);
            let v = self.var_on(l);
            self.lemma_valid_levels();
            assert(v == n.var.0) by {
                if v != n.var.0 {
                    assert(self.var2level@[v as int] != self.var2level@[n.var.0 as int]);
                }
            }
            let a0 = assign(a, v, false);
            let a1 = assign(a, v, true);
            assert forall|b: Assignment| self.agrees_above(b, a0, l + 1)
                implies #[trigger] self.sem(id, b) == self.sem(n.low.0 as int, b) by {
                assert(b(v) == a0(v));
            }
            assert forall|b: Assignment| self.agrees_above(b, a1, l + 1)
                implies #[trigger] self.sem(id, b) == self.sem(n.high.0 as int, b) by {
                assert(b(v) == a1(v));
            }
            self.lemma_true_settings_agree(id, n.low.0 as int, l + 1, a0);
            self.lemma_true_settings_agree(id, n.high.0 as int, l + 1, a1);
            self.lemma_models_are_settings(n.low.0 as int, l + 1, a0);
            self.lemma_models_are_settings(n.high.0 as int, l + 1, a1);
        }
    }
}

impl DDManager {
    /// The model count of node `id` from its own level, with known counts kept in `memo`.
    fn count_from(&self, id: NodeID, memo: &mut HashMap<usize, BigCount>) -> (r: BigCount)
        requires
            self.wf(),
            self.live(id.0 as int),
            forall|k: usize| #[trigger] old(memo)@.contains_key(k) ==> self.live(k as int) && old(memo)@[k].valid()
                && old(memo)@[k]@ == self.models_from(k as int, self.level(k as int)),
        ensures
            forall|k: usize| #[trigger] final(memo)@.contains_key(k) ==> self.live(k as int) && final(memo)@[k].valid()
                && final(memo)@[k]@ == self.models_from(k as int, self.level(k as int)),
            r.valid(),
            r@ == self.models_from(id.0 as int, self.level(id.0 as int)),
        decreases self.terminal_level() - self.level(id.0 as int),
    {
        proof {
            self.lemma_level_bound(id.0 as int);
        }
        if id.0 < 2 {
            proof {
                self.lemma_terminals();
            }
            return BigCount::from_u64(if id.0 == 1 { 1 } else { 0 });
        }
        match memo.get(&id.0) {
            Some(c) => {
                return c.copy();
            },
            None => {},
        }
        proof {
            self.lemma_inner(id.0 as int);
            self.lemma_live_var(id.0 as int);
            self.lemma_level_bound(self.node(id.0 as int).low.0 as int);
            self.lemma_level_bound(self.node(id.0 as int).high.0 as int);
        }
        let node = self.nodes[id.0].unwrap();
        let lvl = self.var2level[node.var.0];
        let low_lvl = self.level_of(node.low);
        let high_lvl = self.level_of(node.high);
        let cl = self.count_from(node.low, memo);
        let ch = self.count_from(node.high, memo);
        proof {
            self.lemma_models_shift(node.low.0 as int, lvl + 1);
            self.lemma_models_shift(node.high.0 as int, lvl + 1);
            assert(self.models_from(id.0 as int, lvl as int) == self.models_from(node.low.0 as int, lvl + 1)
                + self.models_from(node.high.0 as int, lvl + 1));
        }
        let kl = low_lvl - lvl - 1;
        let kh = high_lvl - lvl - 1;
        proof {
            assert(cl@ * p2(kl as nat) == p2(kl as nat) * cl@) by (nonlinear_arith);
            assert(ch@ * p2(kh as nat) == p2(kh as nat) * ch@) by (nonlinear_arith);
        }
        let tl = cl.times_pow2(kl);
        let th = ch.times_pow2(kh);
        let total = tl.add(&th);
        memo.insert(id.0, total.copy());
        total
    }

    /// The level of a live node.
    fn level_of(&self, id: NodeID) -> (r: usize)
        requires
            self.wf(),
            self.live(id.0 as int),
        ensures
            r == self.level(id.0 as int),
    {
        proof {
            self.lemma_live_var(id.0 as int);
        }
        let n = self.nodes[id.0].unwrap();
        self.var2level[n.var.0]
    }

    /// The number of satisfying assignments of the function of `f` over all variables the
    /// manager knows, exactly, however large: of all settings of those variables, the number
    /// under which `f` is true.
    pub fn sat_count(&self, f: NodeID) -> (r: BigCount)
        requires
            self.wf(),
            self.live(f.0 as int),
        ensures
            r.valid(),
            r@ == self.model_count(f.0 as int),
            forall|a: Assignment| #[trigger] self.true_settings(f.0 as int, 1, a) == r@,
    {
        let mut memo: HashMap<usize, BigCount> = HashMap::new();
        proof {
            self.lemma_level_bound(f.0 as int);
            self.lemma_level_positive(f.0 as int);
            self.lemma_models_shift(f.0 as int, 1);
        }
        let lf = self.level_of(f);
        let c = self.count_from(f, &mut memo);
        proof {
            assert(c@ * p2((lf - 1) as nat) == p2((lf - 1) as nat) * c@) by (nonlinear_arith);
        }
        let r = c.times_pow2(lf - 1);
        proof {
            assert forall|a: Assignment| #[trigger] self.true_settings(f.0 as int, 1, a) == r@ by {
                self.lemma_models_are_settings(f.0 as int, 1, a);
            }
        }
        r
    }

    /// Every level is at least 1.
    pub proof fn lemma_level_positive(&self, x: int)
        requires
            self.wf(),
            self.live(x),
        ensures
            self.level(x) >= 1,
    {
        reveal(DDManager::wf);
        assert(crate::semantics::live_in(self.nodes@, x));
    }
}


/// The number of settings of all variables of `man` under which the function of node `f` is
/// true (the other variables as in `a`).
pub open spec fn models_of(man: DDManager, f: int, a: Assignment) -> nat {
    settings_count(man.var2level@, |b: Assignment| man.sem(f, b), 1, a)
}

/// The number of settings of all variables of `man` under which the function of node `f` and
/// variable `v` are true (the other variables as in `a`).
pub open spec fn models_with(man: DDManager, f: int, v: int, a: Assignment) -> nat {
    settings_count(man.var2level@, |b: Assignment| man.sem(f, b) && b(v as usize), 1, a)
}

impl DDManager {
    /// The number of models of the function of `f`, and for each variable the number of its
    /// models in which that variable is true (0 for the terminal variable 0).
    pub fn count_models_by_variable(&mut self, f: NodeID) -> (r: (BigCount, Vec<BigCount>))
        requires
            old(self).wf(),
            old(self).live(f.0 as int),
        ensures
            final(self).wf(),
            final(self).var2level@ == old(self).var2level@,
            final(self).live(f.0 as int),
            forall|a: Assignment| #[trigger] final(self).sem(f.0 as int, a) == old(self).sem(f.0 as int, a),
            r.0.valid(),
            forall|a: Assignment| #[trigger] models_of(*old(self), f.0 as int, a) == r.0@,
            r.1@.len() == old(self).var2level@.len(),
            r.1@[0]@ == 0,
            forall|v: int| 0 <= v < r.1@.len() ==> #[trigger] r.1@[v].valid(),
            forall|v: int, a: Assignment| 1 <= v < r.1@.len() ==> #[trigger] models_with(*old(self), f.0 as int, v, a) == r.1@[v]@,
    {
        let ghost s0 = *self;
        let total = self.sat_count(f);
        proof {
            assert forall|a: Assignment| #[trigger] models_of(s0, f.0 as int, a) == total@ by {
                self.lemma_settings_of(f.0 as int, |b: Assignment| s0.sem(f.0 as int, b), 1, a);
            }
        }
        let n = self.var2level.len();
        proof {
            self.lemma_valid_levels();
        }
        let mut counts: Vec<BigCount> = Vec::new();
        counts.push(BigCount::zero());
        let mut v: usize = 1;
        while v < n
            invariant
                self.wf(),
                self.var2level@ == s0.var2level@,
                n == s0.var2level@.len(),
                self.live(f.0 as int),
                forall|a: Assignment| #[trigger] self.sem(f.0 as int, a) == s0.sem(f.0 as int, a),
                1 <= v <= n,
                counts@.len() == v,
                counts@[0]@ == 0,
                forall|w: int| 0 <= w < counts@.len() ==> #[trigger] counts@[w].valid(),
                forall|w: int, a: Assignment| 1 <= w < counts@.len() ==> #[trigger] models_with(s0, f.0 as int, w, a) == counts@[w]@,
            decreases n - v,
        {
            let ghost before = *self;
            let x = self.ith_var(VarID(v));
            let ghost mid = *self;
            let g = self.and(f, x);
            let c = self.sat_count(g);
            proof {
                assert forall|a: Assignment| #[trigger] self.sem(f.0 as int, a) == s0.sem(f.0 as int, a) by {
                    assert(mid.sem(f.0 as int, a) == before.sem(f.0 as int, a));
                }
                let p = |b: Assignment| s0.sem(f.0 as int, b) && b(v);
                assert forall|b: Assignment| #[trigger] self.sem(g.0 as int, b) == p(b) by {
                    assert(self.sem(x.0 as int, b) == mid.sem(x.0 as int, b));
                }
                assert forall|a: Assignment| #[trigger] models_with(s0, f.0 as int, v as int, a) == c@ by {
                    self.lemma_settings_of(g.0 as int, p, 1, a);
                    assert(p =~= |b: Assignment| s0.sem(f.0 as int, b) && b((v as int) as usize));
                }
            }
            let ghost old_counts = counts@;
            counts.push(c);
            proof {
                assert forall|w: int, a: Assignment| 1 <= w < counts@.len() implies #[trigger] models_with(s0, f.0 as int, w, a) == counts@[w]@ by {
                    if w < old_counts.len() {
                        assert(counts@[w] == old_counts[w]);
                    }
                }
            }
            v = v + 1;
        }
        (total, counts)
    }
}

} // verus!
