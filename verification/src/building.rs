//! BDD building from a formula in conjunctive normal form.
use vstd::prelude::*;
use std::collections::HashMap;
use crate::bdd_node::{NodeID, VarID};
use crate::bdd_manager::{DDManager, key2};
use crate::semantics::{Assignment, live_in, node_in, ordered};
use crate::dimacs::{Instance, align_clauses, cnf_value, clause_value, lit_value, well_formed_clauses};
use crate::order::{check_order, valid_order, order_error};
use crate::dvo::Options;

verus! {

/// The first `n` clauses, taken in the given order, all hold.
pub open spec fn clauses_hold(clauses: Seq<Vec<i32>>, order: Seq<usize>, n: int, a: Assignment) -> bool {
    forall|k: int| 0 <= k < n ==> #[trigger] clause_value(clauses[order[k] as int]@, a)
}

/// Some of the first `t` literals of a clause holds.
pub open spec fn some_literal_holds(c: Seq<i32>, t: int, a: Assignment) -> bool {
    exists|s: int| 0 <= s < t && #[trigger] lit_value(c[s], a)
}

/// The variable of a literal.
pub open spec fn lit_var(x: i32) -> int {
    if x < 0 { -x } else { x as int }
}

/// A level table of length `len` knows exactly the variables a manager starting with `base`
/// entries needs for the formula `clauses`: every variable of a literal, and no more than the
/// largest of them (where it lies past the start).
pub open spec fn knows_exactly(clauses: Seq<Vec<i32>>, base: int, len: int) -> bool {
    &&& base <= len
    &&& forall|i: int, t: int| 0 <= i < clauses.len() && 0 <= t < clauses[i]@.len() ==> #[trigger] lit_var(clauses[i]@[t]) < len
    &&& len == base || exists|i: int, t: int| 0 <= i < clauses.len() && 0 <= t < clauses[i]@.len()
        && #[trigger] lit_var(clauses[i]@[t]) + 1 == len
}

impl DDManager {
    /// Replaces the variable ordering of a manager that holds only the terminal nodes.
    fn install_order(&mut self, order: &[u32])
        requires
            old(self).wf(),
            old(self).nodes@.len() == 2,
            exists|n: u32| valid_order(n, order@),
        ensures
            final(self).wf(),
            final(self).nodes@ == old(self).nodes@,
            final(self).var2level@.len() == order@.len(),
            forall|v: int| 0 <= v < order@.len() ==> #[trigger] final(self).var2level@[v] == order@[v],
    {
        let ghost n = choose|n: u32| valid_order(n, order@);
        proof {
            self.lemma_terminals();
            self.lemma_free_wf();
        }
        let mut v2l: Vec<usize> = Vec::new();
        let mut v2n: Vec<HashMap<u128, usize>> = Vec::new();
        let mut v: usize = 0;
        while v < order.len()
            invariant
                v <= order@.len(),
                v2l@.len() == v,
                v2n@.len() == v,
                forall|w: int| 0 <= w < v ==> #[trigger] v2l@[w] == order@[w],
                forall|w: int| 0 <= w < v ==> (#[trigger] v2n@[w])@ == Map::<u128, usize>::empty(),
            decreases order@.len() - v,
        {
            v2l.push(order[v] as usize);
            v2n.push(HashMap::new());
            v = v + 1;
        }
        self.var2level = v2l;
        self.var2nodes = v2n;
        self.ite_c_table.clear();
        self.apply_c_table.clear();
        proof {
            reveal(DDManager::wf);
            let nodes = self.nodes@;
            let lv = self.var2level@;
            assert forall|i: int| #![trigger live_in(nodes, i)] live_in(nodes, i) implies i < 2 by {}
            assert(self.levels_wf()) by {
                assert forall|x: int| 0 <= x < lv.len() implies 1 <= #[trigger] lv[x] <= lv[0] by {
                    if x > 0 {
                        assert(1 <= order@[x] <= n);
                    }
                }
                assert forall|x: int, y: int| 0 <= x < lv.len() && 0 <= y < lv.len() && x != y implies #[trigger] lv[x] != #[trigger] lv[y] by {
                    if x > 0 && y > 0 {
                        if x < y {
                            assert(order@[x] != order@[y]);
                        } else {
                            assert(order@[y] != order@[x]);
                        }
                    } else if x > 0 {
                        assert(order@[x] <= n);
                    } else {
                        assert(order@[y] <= n);
                    }
                }
            }
            assert(ordered(nodes, lv)) by {
                assert forall|i: int| #![trigger live_in(nodes, i)] live_in(nodes, i) implies {
                    let nd = node_in(nodes, i);
                    &&& nd.var.0 < lv.len()
                    &&& lv[nd.var.0 as int] <= lv[0]
                    &&& nd.var.0 != 0 ==> {
                        &&& live_in(nodes, nd.low.0 as int)
                        &&& live_in(nodes, nd.high.0 as int)
                        &&& crate::semantics::level_in(nodes, lv, nd.low.0 as int) > lv[nd.var.0 as int]
                        &&& crate::semantics::level_in(nodes, lv, nd.high.0 as int) > lv[nd.var.0 as int]
                    }
                } by {
                    assert(i < 2);
                }
            }
            assert(self.inner_wf());
            assert(self.unique_wf()) by {
                assert forall|w: int, k: u128|
                    0 <= w < self.var2nodes@.len() && #[trigger] self.var2nodes@[w]@.contains_key(k) implies false by {
                    assert(self.var2nodes@[w]@ == Map::<u128, usize>::empty());
                }
            }
            assert(self.ite_cache_wf());
            assert(self.apply_cache_wf());
            assert(self.free_wf());
        }
    }

    /// Builds a BDD from a CNF read from DIMACS: the clauses are added one by one, lightest
    /// first; after each, the nodes no longer needed are removed and the DVO schedule of the
    /// options may reorder the variables.
    ///
    /// * `instance` - Input CNF
    /// * `order` - Optional initial variable ordering: `order[v]` is the depth of variable `v`
    /// * `options` - DVO and progress bar settings
    pub fn from_instance(instance: &mut Instance, order: Option<Vec<u32>>, options: Options) -> (r: Result<(DDManager, NodeID), String>)
        requires
            well_formed_clauses(old(instance).clauses@),
            old(instance).no_variables < u32::MAX,
        ensures
            *final(instance) == *old(instance),
            r is Err <==> (order matches Some(o) && !valid_order(old(instance).no_variables, o@)),
            r matches Err(m) ==> (order matches Some(o) && order_error(old(instance).no_variables, o@) == Some(m@)),
            r matches Ok((man, bdd)) ==> {
                &&& man.wf()
                &&& man.live(bdd.0 as int)
                &&& forall|a: Assignment| #[trigger] man.sem(bdd.0 as int, a) == cnf_value(old(instance).clauses@, a)
            },
            r matches Ok((man, bdd)) ==> knows_exactly(old(instance).clauses@,
                if order is Some { old(instance).no_variables + 1 } else { 1 }, man.var2level@.len() as int),
            r matches Ok((man, bdd)) ==> (options.dvo is NoDVOSchedule ==> (order matches Some(o) ==> (forall|v: int| 1 <= v < o@.len()
                ==> #[trigger] man.var2level@[v] == o@[v]))),
    {
        let mut options = options;
        let ghost no_dvo = options.dvo is NoDVOSchedule;
        let mut man = DDManager::new();
        let clause_order = align_clauses(instance.clauses.as_slice());
        match order {
            Some(o) => {
                match check_order(instance, o.as_slice()) {
                    Err(e) => {
                        return Err(e);
                    },
                    Ok(()) => {},
                }
                man.install_order(o.as_slice());
            },
            None => {},
        }
        let ghost init_v2l = man.var2level@;
        let ghost clauses = instance.clauses@;
        let ghost base: int = init_v2l.len() as int;
        proof {
            assert(base == if order is Some { instance.no_variables + 1 } else { 1 });
        }
        let mut bdd = man.one();
        proof {
            man.lemma_terminals();
        }
        let mut n: usize = 0;
        while n < clause_order.len()
            invariant
                clauses == instance.clauses@,
                well_formed_clauses(clauses),
                clause_order@.len() == clauses.len(),
                forall|k: int| 0 <= k < clause_order@.len() ==> #[trigger] clause_order@[k] < clauses.len(),
                n <= clause_order@.len(),
                man.wf(),
                man.live(bdd.0 as int),
                forall|a: Assignment| #[trigger] man.sem(bdd.0 as int, a) == clauses_hold(clauses, clause_order@, n as int, a),
                init_v2l.len() <= man.var2level@.len(),
                forall|k: int, t: int| 0 <= k < n && 0 <= t < clauses[clause_order@[k] as int]@.len()
                    ==> #[trigger] lit_var(clauses[clause_order@[k] as int]@[t]) < man.var2level@.len(),
                man.var2level@.len() == base || exists|k: int, t: int| 0 <= k < n && 0 <= t < clauses[clause_order@[k] as int]@.len()
                    && #[trigger] lit_var(clauses[clause_order@[k] as int]@[t]) + 1 == man.var2level@.len(),
                base == init_v2l.len(),
                no_dvo ==> options.dvo is NoDVOSchedule,
                no_dvo ==> forall|v: int| 1 <= v < init_v2l.len() ==> #[trigger] man.var2level@[v] == init_v2l[v],
            decreases clause_order@.len() - n,
        {
            let ci = clause_order[n];
            let clause = &instance.clauses[ci];
            proof {
                assert(clauses[ci as int] == clauses[ci as int]);
                man.lemma_terminals();
            }
            let mut cbdd = man.zero();
            let mut t: usize = 0;
            while t < clause.len()
                invariant
                    clauses == instance.clauses@,
                    well_formed_clauses(clauses),
                    ci < clauses.len(),
                    *clause == clauses[ci as int],
                    t <= clause@.len(),
                    man.wf(),
                    man.live(bdd.0 as int),
                    man.live(cbdd.0 as int),
                    forall|a: Assignment| #[trigger] man.sem(bdd.0 as int, a) == clauses_hold(clauses, clause_order@, n as int, a),
                    forall|a: Assignment| #[trigger] man.sem(cbdd.0 as int, a) == some_literal_holds(clause@, t as int, a),
                    init_v2l.len() <= man.var2level@.len(),
                    base == init_v2l.len(),
                    n < clause_order@.len(),
                    ci == clause_order@[n as int],
                    forall|k: int, t: int| 0 <= k < n && 0 <= t < clauses[clause_order@[k] as int]@.len()
                        ==> #[trigger] lit_var(clauses[clause_order@[k] as int]@[t]) < man.var2level@.len(),
                    forall|s: int| 0 <= s < t ==> #[trigger] lit_var(clause@[s]) < man.var2level@.len(),
                    man.var2level@.len() == base
                        || (exists|k: int, t: int| 0 <= k < n && 0 <= t < clauses[clause_order@[k] as int]@.len()
                            && #[trigger] lit_var(clauses[clause_order@[k] as int]@[t]) + 1 == man.var2level@.len())
                        || (exists|s: int| 0 <= s < t && #[trigger] lit_var(clause@[s]) + 1 == man.var2level@.len()),
                    no_dvo ==> forall|v: int| 1 <= v < init_v2l.len() ==> #[trigger] man.var2level@[v] == init_v2l[v],
                decreases clause@.len() - t,
            {
                let x = clause[t];
                proof {
                    assert(x != 0 && x != i32::MIN);
                }
                let ghost m0 = man;
                let node = if x < 0 {
                    man.nith_var(VarID((-x) as usize))
                } else {
                    man.ith_var(VarID(x as usize))
                };
                let ghost m1 = man;
                proof {
                    assert(man.live(bdd.0 as int) && man.live(cbdd.0 as int));
                }
                cbdd = man.or(node, cbdd);
                proof {
                    assert forall|a: Assignment| #[trigger] man.sem(bdd.0 as int, a) == clauses_hold(clauses, clause_order@, n as int, a) by {
                        assert(m1.sem(bdd.0 as int, a) == m0.sem(bdd.0 as int, a));
                        assert(man.sem(bdd.0 as int, a) == m1.sem(bdd.0 as int, a));
                    }
                    assert forall|a: Assignment| #[trigger] man.sem(cbdd.0 as int, a) == some_literal_holds(clause@, t + 1, a) by {
                        assert(m1.sem(node.0 as int, a) == lit_value(x, a));
                        assert(man.sem(node.0 as int, a) == m1.sem(node.0 as int, a));
                        assert(m1.sem(cbdd.0 as int, a) == m1.sem(cbdd.0 as int, a));
                        if some_literal_holds(clause@, t as int, a) {
                            let s = choose|s: int| 0 <= s < t && #[trigger] lit_value(clause@[s], a);
                            assert(lit_value(clause@[s], a));
                        }
                        if lit_value(x, a) {
                            assert(lit_value(clause@[t as int], a));
                        }
                    }
                    if no_dvo {
                        assert forall|v: int| 1 <= v < init_v2l.len() implies #[trigger] man.var2level@[v] == init_v2l[v] by {
                            assert(m1.var2level@[v] == m0.var2level@[v]);
                        }
                    }
                    assert(lit_var(x) == lit_var(clause@[t as int]));
                    if lit_var(x) >= m0.var2level@.len() {
                        assert(lit_var(clause@[t as int]) + 1 == man.var2level@.len());
                    }
                }
                t = t + 1;
            }
            let ghost m2 = man;
            bdd = man.and(cbdd, bdd);
            let ghost m3 = man;
            man.purge_retain(bdd);
            proof {
                assert forall|a: Assignment| #[trigger] man.sem(bdd.0 as int, a) == clauses_hold(clauses, clause_order@, n + 1, a) by {
                    assert(man.sem(bdd.0 as int, a) == m3.sem(bdd.0 as int, a));
                    assert(clause_value(clauses[ci as int]@, a) == some_literal_holds(clause@, clause@.len() as int, a));
                    if clauses_hold(clauses, clause_order@, n + 1, a) {
                        assert(clause_value(clauses[clause_order@[n as int] as int]@, a));
                    }
                    if clauses_hold(clauses, clause_order@, n as int, a) && clause_value(clauses[ci as int]@, a) {
                        assert forall|k: int| 0 <= k < n + 1 implies #[trigger] clause_value(clauses[clause_order@[k] as int]@, a) by {
                            if k < n {
                                assert(clause_value(clauses[clause_order@[k] as int]@, a));
                            }
                        }
                    }
                }
            }
            let ghost m4 = man;
            bdd = options.dvo.run_dvo(n, &mut man, bdd);
            let ghost m5 = man;
            man.purge_retain(bdd);
            proof {
                assert forall|a: Assignment| #[trigger] man.sem(bdd.0 as int, a) == clauses_hold(clauses, clause_order@, n + 1, a) by {
                    assert(man.sem(bdd.0 as int, a) == m5.sem(bdd.0 as int, a));
                }
                assert(man.var2level@.len() == m2.var2level@.len());
                assert forall|k: int, t: int| 0 <= k < n + 1 && 0 <= t < clauses[clause_order@[k] as int]@.len()
                    implies #[trigger] lit_var(clauses[clause_order@[k] as int]@[t]) < man.var2level@.len() by {
                    if k == n {
                        assert(lit_var(clause@[t]) < m2.var2level@.len());
                    }
                }
                if man.var2level@.len() != base {
                    if !(exists|k: int, t: int| 0 <= k < n && 0 <= t < clauses[clause_order@[k] as int]@.len()
                        && #[trigger] lit_var(clauses[clause_order@[k] as int]@[t]) + 1 == m2.var2level@.len()) {
                        let s = choose|s: int| 0 <= s < clause@.len() && #[trigger] lit_var(clause@[s]) + 1 == m2.var2level@.len();
                        assert(lit_var(clauses[clause_order@[n as int] as int]@[s]) + 1 == man.var2level@.len());
                    } else {
                        let (k, t) = choose|k: int, t: int| 0 <= k < n && 0 <= t < clauses[clause_order@[k] as int]@.len()
                            && #[trigger] lit_var(clauses[clause_order@[k] as int]@[t]) + 1 == m2.var2level@.len();
                        assert(lit_var(clauses[clause_order@[k] as int]@[t]) + 1 == man.var2level@.len());
                    }
                }
            }
            n = n + 1;
        }
        proof {
            assert forall|a: Assignment| #[trigger] man.sem(bdd.0 as int, a) == cnf_value(clauses, a) by {
                if clauses_hold(clauses, clause_order@, n as int, a) {
                    assert forall|i: int| 0 <= i < clauses.len() implies #[trigger] clause_value(clauses[i]@, a) by {
                        assert(clause_order@.contains(i as usize));
                        let k = choose|k: int| 0 <= k < clause_order@.len() && clause_order@[k] == i as usize;
                        assert(clause_value(clauses[clause_order@[k] as int]@, a));
                    }
                }
                if cnf_value(clauses, a) {
                    assert forall|k: int| 0 <= k < n implies #[trigger] clause_value(clauses[clause_order@[k] as int]@, a) by {
                        assert(clause_value(clauses[clause_order@[k] as int]@, a));
                    }
                }
            }
        }
        proof {
            assert forall|i: int, t: int| 0 <= i < clauses.len() && 0 <= t < clauses[i]@.len()
                implies #[trigger] lit_var(clauses[i]@[t]) < man.var2level@.len() by {
                assert(clause_order@.contains(i as usize));
                let k = choose|k: int| 0 <= k < clause_order@.len() && clause_order@[k] == i as usize;
                assert(lit_var(clauses[clause_order@[k] as int]@[t]) < man.var2level@.len());
            }
            if man.var2level@.len() != base {
                let (k, t) = choose|k: int, t: int| 0 <= k < n && 0 <= t < clauses[clause_order@[k] as int]@.len()
                    && #[trigger] lit_var(clauses[clause_order@[k] as int]@[t]) + 1 == man.var2level@.len();
                assert(lit_var(clauses[clause_order@[k] as int]@[t]) + 1 == man.var2level@.len());
            }
        }
        Ok((man, bdd))
    }
}

} // verus!
