//! Canonicity: a well-formed manager holds at most one node per Boolean function.
use vstd::prelude::*;
use crate::bdd_node::NodeID;
use crate::bdd_manager::{DDManager, key2};
use crate::semantics::{Assignment, assign, live_in, node_in, lemma_eval_independent};

verus! {

impl DDManager {
    /// The smaller of the levels of two nodes.
    pub open spec fn min_level2(&self, x: int, y: int) -> int {
        if self.level(x) <= self.level(y) {
            self.level(x)
        } else {
            self.level(y)
        }
    }

    /// Two nodes standing for the same function are the same node.
    pub proof fn lemma_canonical(&self, x: int, y: int)
        requires
            self.wf(),
            self.live(x),
            self.live(y),
            forall|a: Assignment| #[trigger] self.sem(x, a) == self.sem(y, a),
        ensures
            x == y,
        decreases self.terminal_level() - self.min_level2(x, y),
    {
        reveal(DDManager::wf);
        assert(live_in(self.nodes@, x) && live_in(self.nodes@, y));
        let a0 = |v: usize| true;
        if x < 2 && y < 2 {
            assert(self.sem(x, a0) == self.sem(y, a0));
            assert(live_in(self.nodes@, 0) && live_in(self.nodes@, 1));
            return;
        }
        if x >= 2 && (y < 2 || self.level(y) > self.level(x)) {
            self.lemma_distinguish(x, y);
            let a = choose|a: Assignment| #[trigger] self.sem(x, a) != self.sem(y, a);
            assert(self.sem(x, a) == self.sem(y, a));
            return;
        }
        if y >= 2 && (x < 2 || self.level(x) > self.level(y)) {
            assert forall|a: Assignment| #[trigger] self.sem(y, a) == self.sem(x, a) by {
                assert(self.sem(x, a) == self.sem(y, a));
            }
            self.lemma_distinguish(y, x);
            let a = choose|a: Assignment| #[trigger] self.sem(y, a) != self.sem(x, a);
            assert(self.sem(x, a) == self.sem(y, a));
            return;
        }
        // both inner nodes on the same level: same variable, equivalent children
        let nx = self.node(x);
        let ny = self.node(y);
        assert(nx.var == ny.var) by {
            assert(self.var2level@[nx.var.0 as int] == self.var2level@[ny.var.0 as int]);
        }
        let v = nx.var.0;
        assert(live_in(self.nodes@, nx.low.0 as int) && live_in(self.nodes@, nx.high.0 as int));
        assert(live_in(self.nodes@, ny.low.0 as int) && live_in(self.nodes@, ny.high.0 as int));
        assert forall|b: Assignment| #[trigger] self.sem(nx.low.0 as int, b) == self.sem(ny.low.0 as int, b) by {
            let b0 = assign(b, v, false);
            assert(self.sem(x, b0) == self.sem(y, b0));
            lemma_eval_independent(self.nodes@, self.var2level@, nx.low.0 as int, b, v, false);
            lemma_eval_independent(self.nodes@, self.var2level@, ny.low.0 as int, b, v, false);
        }
        assert forall|b: Assignment| #[trigger] self.sem(nx.high.0 as int, b) == self.sem(ny.high.0 as int, b) by {
            let b1 = assign(b, v, true);
            assert(self.sem(x, b1) == self.sem(y, b1));
            lemma_eval_independent(self.nodes@, self.var2level@, nx.high.0 as int, b, v, true);
            lemma_eval_independent(self.nodes@, self.var2level@, ny.high.0 as int, b, v, true);
        }
        self.lemma_canonical(nx.low.0 as int, ny.low.0 as int);
        self.lemma_canonical(nx.high.0 as int, ny.high.0 as int);
        assert(self.var2nodes@[v as int]@[key2(nx.low.0, nx.high.0)] == x);
        assert(self.var2nodes@[v as int]@[key2(ny.low.0, ny.high.0)] == y);
    }

    /// An inner node `x` depends on its variable, which a node `y` below it (or a terminal)
    /// does not read, so the two cannot stand for the same function.
    proof fn lemma_distinguish(&self, x: int, y: int)
        requires
            self.wf(),
            self.live(x),
            self.live(y),
            x >= 2,
            y < 2 || self.level(y) > self.level(x),
        ensures
            exists|a: Assignment| #[trigger] self.sem(x, a) != self.sem(y, a),
        decreases self.terminal_level() - self.min_level2(x, y), 0int,
    {
        reveal(DDManager::wf);
        assert(live_in(self.nodes@, x) && live_in(self.nodes@, y));
        let nx = self.node(x);
        let v = nx.var.0;
        let l = nx.low.0 as int;
        let h = nx.high.0 as int;
        assert(live_in(self.nodes@, l) && live_in(self.nodes@, h));
        if forall|a: Assignment| #[trigger] self.sem(l, a) == self.sem(h, a) {
            self.lemma_canonical(l, h);
        } else {
            let a = choose|a: Assignment| self.sem(l, a) != self.sem(h, a);
            let a1 = assign(a, v, true);
            let a0 = assign(a, v, false);
            lemma_eval_independent(self.nodes@, self.var2level@, l, a, v, false);
            lemma_eval_independent(self.nodes@, self.var2level@, h, a, v, true);
            assert(self.sem(x, a1) == self.sem(h, a1));
            assert(self.sem(x, a0) == self.sem(l, a0));
            if y >= 2 {
                lemma_eval_independent(self.nodes@, self.var2level@, y, a, v, true);
                lemma_eval_independent(self.nodes@, self.var2level@, y, a, v, false);
            } else {
                assert(live_in(self.nodes@, 0) && live_in(self.nodes@, 1));
                assert(self.sem(y, a1) == self.sem(y, a0));
            }
            assert(self.sem(x, a1) != self.sem(y, a1) || self.sem(x, a0) != self.sem(y, a0));
        }
    }

    /// Returns whether the function of `node` is satisfiable: any node but the 0 terminal is.
    pub fn is_sat(&self, node: NodeID) -> (r: bool)
        requires
            self.wf(),
            self.live(node.0 as int),
        ensures
            r == exists|a: Assignment| #[trigger] self.sem(node.0 as int, a),
    {
        proof {
            self.lemma_terminals();
            if node.0 != 0 && !exists|a: Assignment| #[trigger] self.sem(node.0 as int, a) {
                assert forall|a: Assignment| #[trigger] self.sem(node.0 as int, a) == self.sem(0, a) by {}
                self.lemma_canonical(node.0 as int, 0);
            }
        }
        node.0 != 0
    }
}


impl DDManager {
    /// An inner node depends on its variable: some assignment gives different values with the
    /// variable set to 1 and to 0.
    pub proof fn lemma_depends(&self, x: int)
        requires
            self.wf(),
            self.live(x),
            x >= 2,
        ensures
            exists|a: Assignment| #[trigger] self.sem(x, assign(a, self.node(x).var.0, true))
                != self.sem(x, assign(a, self.node(x).var.0, false)),
    {
        reveal(DDManager::wf);
        assert(live_in(self.nodes@, x));
        let nx = self.node(x);
        let v = nx.var.0;
        let l = nx.low.0 as int;
        let h = nx.high.0 as int;
        assert(live_in(self.nodes@, l) && live_in(self.nodes@, h));
        if forall|a: Assignment| #[trigger] self.sem(l, a) == self.sem(h, a) {
            self.lemma_canonical(l, h);
        } else {
            let a = choose|a: Assignment| self.sem(l, a) != self.sem(h, a);
            let a1 = assign(a, v, true);
            let a0 = assign(a, v, false);
            lemma_eval_independent(self.nodes@, self.var2level@, l, a, v, false);
            lemma_eval_independent(self.nodes@, self.var2level@, h, a, v, true);
            assert(self.sem(x, a1) == self.sem(h, a1));
            assert(self.sem(x, a0) == self.sem(l, a0));
            assert(self.sem(x, assign(a, v, true)) != self.sem(x, assign(a, v, false)));
        }
    }

    /// A node that is live in `self` and in `other`, with the same function in both, holds the
    /// same node in both when the two share their level table and every node of `self` keeps
    /// its function in `other`.
    pub proof fn lemma_same_node(&self, other: &DDManager, i: int)
        requires
            self.wf(),
            other.wf(),
            other.var2level@ == self.var2level@,
            forall|j: int| #[trigger] self.live(j) ==> other.live(j),
            forall|j: int, x: Assignment| #![trigger other.sem(j, x)] self.live(j) ==> other.sem(j, x) == self.sem(j, x),
            self.live(i),
        ensures
            other.node(i) == self.node(i),
    {
        reveal(DDManager::wf);
        assert(live_in(self.nodes@, i));
        assert(other.live(i));
        assert(live_in(other.nodes@, i));
        if i >= 2 {
            let n1 = self.node(i);
            let n2 = other.node(i);
            let v = n1.var.0;
            let w = n2.var.0;
            let l = self.var2level@;
            if v != w {
                assert(l[v as int] != l[w as int]);
                if l[v as int] < l[w as int] {
                    self.lemma_depends(i);
                    let a = choose|a: Assignment| #[trigger] self.sem(i, assign(a, v, true)) != self.sem(i, assign(a, v, false));
                    lemma_eval_independent(other.nodes@, other.var2level@, i, a, v, true);
                    lemma_eval_independent(other.nodes@, other.var2level@, i, a, v, false);
                    assert(other.sem(i, assign(a, v, true)) == self.sem(i, assign(a, v, true)));
                    assert(other.sem(i, assign(a, v, false)) == self.sem(i, assign(a, v, false)));
                } else {
                    other.lemma_depends(i);
                    let a = choose|a: Assignment| #[trigger] other.sem(i, assign(a, w, true)) != other.sem(i, assign(a, w, false));
                    lemma_eval_independent(self.nodes@, self.var2level@, i, a, w, true);
                    lemma_eval_independent(self.nodes@, self.var2level@, i, a, w, false);
                    assert(other.sem(i, assign(a, w, true)) == self.sem(i, assign(a, w, true)));
                    assert(other.sem(i, assign(a, w, false)) == self.sem(i, assign(a, w, false)));
                }
            }
            let c0 = n1.low.0 as int;
            let c1 = n1.high.0 as int;
            let d0 = n2.low.0 as int;
            let d1 = n2.high.0 as int;
            assert(live_in(self.nodes@, c0) && live_in(self.nodes@, c1));
            assert(live_in(other.nodes@, d0) && live_in(other.nodes@, d1));
            assert(self.live(c0) && self.live(c1));
            assert(other.live(c0) && other.live(c1));
            assert forall|y: Assignment| #[trigger] other.sem(c0, y) == other.sem(d0, y) by {
                let y0 = assign(y, v, false);
                lemma_eval_independent(self.nodes@, self.var2level@, c0, y, v, false);
                lemma_eval_independent(other.nodes@, other.var2level@, d0, y, v, false);
                assert(self.sem(i, y0) == self.sem(c0, y0));
                assert(other.sem(i, y0) == other.sem(d0, y0));
                assert(other.sem(i, y0) == self.sem(i, y0));
                assert(other.sem(c0, y) == self.sem(c0, y));
            }
            assert forall|y: Assignment| #[trigger] other.sem(c1, y) == other.sem(d1, y) by {
                let y1 = assign(y, v, true);
                lemma_eval_independent(self.nodes@, self.var2level@, c1, y, v, true);
                lemma_eval_independent(other.nodes@, other.var2level@, d1, y, v, true);
                assert(self.sem(i, y1) == self.sem(c1, y1));
                assert(other.sem(i, y1) == other.sem(d1, y1));
                assert(other.sem(i, y1) == self.sem(i, y1));
                assert(other.sem(c1, y) == self.sem(c1, y));
            }
            other.lemma_canonical(c0, d0);
            other.lemma_canonical(c1, d1);
        }
    }

    /// Two well-formed managers with the same level table, where every node of the first is a
    /// node of the second with the same function, hold the same diagram below each node of the
    /// first: the same nodes are reachable from it, each the same node in both.
    pub proof fn lemma_same_diagram(&self, other: &DDManager, f: int)
        requires
            self.wf(),
            other.wf(),
            other.var2level@ == self.var2level@,
            forall|j: int| #[trigger] self.live(j) ==> other.live(j),
            forall|j: int, x: Assignment| #![trigger other.sem(j, x)] self.live(j) ==> other.sem(j, x) == self.sem(j, x),
            self.live(f),
        ensures
            forall|y: int| #[trigger] other.reaches(f, y) == self.reaches(f, y),
            forall|y: int| #[trigger] self.reaches(f, y) ==> other.node(y) == self.node(y),
        decreases self.terminal_level() - self.level(f),
    {
        reveal(DDManager::wf);
        self.lemma_same_node(other, f);
        assert(live_in(self.nodes@, f));
        assert(other.live(f));
        assert(live_in(other.nodes@, f));
        let n = self.node(f);
        if n.var.0 != 0 {
            let c0 = n.low.0 as int;
            let c1 = n.high.0 as int;
            self.lemma_inner(f);
            self.lemma_same_diagram(other, c0);
            self.lemma_same_diagram(other, c1);
            assert forall|y: int| #[trigger] other.reaches(f, y) == self.reaches(f, y) by {
                assert(other.reaches(c0, y) == self.reaches(c0, y));
                assert(other.reaches(c1, y) == self.reaches(c1, y));
            }
            assert forall|y: int| #[trigger] self.reaches(f, y) implies other.node(y) == self.node(y) by {
                if y != f {
                    if self.reaches(c0, y) {
                        assert(other.node(y) == self.node(y));
                    } else {
                        assert(self.reaches(c1, y));
                    }
                }
            }
        } else {
            assert forall|y: int| #[trigger] other.reaches(f, y) == self.reaches(f, y) by {}
        }
    }
}

/// Two nodes of two well-formed managers with the same level table that stand for the same
/// function match: both are the same terminal, or both are inner nodes of the same variable
/// whose low children, and whose high children, stand for the same function.
proof fn lemma_match(m1: &DDManager, m2: &DDManager, x1: int, x2: int)
    requires
        m1.wf(),
        m2.wf(),
        m2.var2level@ == m1.var2level@,
        m1.live(x1),
        m2.live(x2),
        forall|a: Assignment| #[trigger] m1.sem(x1, a) == m2.sem(x2, a),
    ensures
        x1 < 2 || x2 < 2 ==> x1 == x2,
        x1 >= 2 ==> x2 >= 2 && m1.node(x1).var == m2.node(x2).var
            && (forall|a: Assignment| #[trigger] m1.sem(m1.node(x1).low.0 as int, a) == m2.sem(m2.node(x2).low.0 as int, a))
            && (forall|a: Assignment| #[trigger] m1.sem(m1.node(x1).high.0 as int, a) == m2.sem(m2.node(x2).high.0 as int, a)),
{
    m1.lemma_terminals();
    m2.lemma_terminals();
    m1.lemma_ordered();
    m2.lemma_ordered();
    let a0 = |v: usize| true;
    if x1 < 2 && x2 >= 2 {
        m2.lemma_depends(x2);
        let a = choose|a: Assignment| #[trigger] m2.sem(x2, assign(a, m2.node(x2).var.0, true))
            != m2.sem(x2, assign(a, m2.node(x2).var.0, false));
        assert(m1.sem(x1, assign(a, m2.node(x2).var.0, true)) == m1.sem(x1, assign(a, m2.node(x2).var.0, false)));
    } else if x2 < 2 && x1 >= 2 {
        m1.lemma_depends(x1);
        let a = choose|a: Assignment| #[trigger] m1.sem(x1, assign(a, m1.node(x1).var.0, true))
            != m1.sem(x1, assign(a, m1.node(x1).var.0, false));
        assert(m2.sem(x2, assign(a, m1.node(x1).var.0, true)) == m2.sem(x2, assign(a, m1.node(x1).var.0, false)));
    } else if x1 < 2 && x2 < 2 {
        assert(m1.sem(x1, a0) == m2.sem(x2, a0));
    } else {
        m1.lemma_inner(x1);
        m2.lemma_inner(x2);
        let n1 = m1.node(x1);
        let n2 = m2.node(x2);
        let v = n1.var.0;
        let w = n2.var.0;
        let l = m1.var2level@;
        m1.lemma_valid_levels();
        if v != w {
            assert(l[v as int] != l[w as int]);
            if l[v as int] < l[w as int] {
                m1.lemma_depends(x1);
                let a = choose|a: Assignment| #[trigger] m1.sem(x1, assign(a, v, true)) != m1.sem(x1, assign(a, v, false));
                lemma_eval_independent(m2.nodes@, m2.var2level@, x2, a, v, true);
                lemma_eval_independent(m2.nodes@, m2.var2level@, x2, a, v, false);
                assert(m2.sem(x2, assign(a, v, true)) == m1.sem(x1, assign(a, v, true)));
                assert(m2.sem(x2, assign(a, v, false)) == m1.sem(x1, assign(a, v, false)));
            } else {
                m2.lemma_depends(x2);
                let a = choose|a: Assignment| #[trigger] m2.sem(x2, assign(a, w, true)) != m2.sem(x2, assign(a, w, false));
                lemma_eval_independent(m1.nodes@, m1.var2level@, x1, a, w, true);
                lemma_eval_independent(m1.nodes@, m1.var2level@, x1, a, w, false);
                assert(m2.sem(x2, assign(a, w, true)) == m1.sem(x1, assign(a, w, true)));
                assert(m2.sem(x2, assign(a, w, false)) == m1.sem(x1, assign(a, w, false)));
            }
        }
        let c0 = n1.low.0 as int;
        let c1 = n1.high.0 as int;
        let d0 = n2.low.0 as int;
        let d1 = n2.high.0 as int;
        assert forall|y: Assignment| #[trigger] m1.sem(c0, y) == m2.sem(d0, y) by {
            let y0 = assign(y, v, false);
            lemma_eval_independent(m1.nodes@, m1.var2level@, c0, y, v, false);
            lemma_eval_independent(m2.nodes@, m2.var2level@, d0, y, v, false);
            assert(m1.sem(x1, y0) == m1.sem(c0, y0));
            assert(m2.sem(x2, y0) == m2.sem(d0, y0));
        }
        assert forall|y: Assignment| #[trigger] m1.sem(c1, y) == m2.sem(d1, y) by {
            let y1 = assign(y, v, true);
            lemma_eval_independent(m1.nodes@, m1.var2level@, c1, y, v, true);
            lemma_eval_independent(m2.nodes@, m2.var2level@, d1, y, v, true);
            assert(m1.sem(x1, y1) == m1.sem(c1, y1));
            assert(m2.sem(x2, y1) == m2.sem(d1, y1));
        }
    }
}

/// Every node reachable from `x1` has a node of the same function reachable from `x2`, where
/// `x1` and `x2` stand for the same function in two well-formed managers with the same level
/// table.
proof fn lemma_reach_match(m1: &DDManager, m2: &DDManager, x1: int, x2: int, y: int)
    requires
        m1.wf(),
        m2.wf(),
        m2.var2level@ == m1.var2level@,
        m1.live(x1),
        m2.live(x2),
        forall|a: Assignment| #[trigger] m1.sem(x1, a) == m2.sem(x2, a),
        m1.reaches(x1, y),
    ensures
        exists|z: int| #[trigger] m2.reaches(x2, z) && m2.live(z) && forall|a: Assignment| #[trigger] m2.sem(z, a) == m1.sem(y, a),
    decreases m1.terminal_level() - m1.level(x1),
{
    m1.lemma_ordered();
    m2.lemma_ordered();
    m1.lemma_terminals();
    lemma_match(m1, m2, x1, x2);
    if y == x1 {
        assert(m2.reaches(x2, x2));
        assert forall|a: Assignment| #[trigger] m2.sem(x2, a) == m1.sem(y, a) by {
            assert(m1.sem(x1, a) == m2.sem(x2, a));
        }
    } else {
        let n1 = m1.node(x1);
        assert(n1.var.0 != 0);
        if x1 < 2 {
            assert(n1.var.0 == 0);
        }
        m1.lemma_inner(x1);
        m2.lemma_inner(x2);
        let n2 = m2.node(x2);
        if m1.reaches(n1.low.0 as int, y) {
            lemma_reach_match(m1, m2, n1.low.0 as int, n2.low.0 as int, y);
            let z = choose|z: int| #[trigger] m2.reaches(n2.low.0 as int, z) && m2.live(z)
                && forall|a: Assignment| #[trigger] m2.sem(z, a) == m1.sem(y, a);
            assert(m2.reaches(x2, z));
        } else {
            lemma_reach_match(m1, m2, n1.high.0 as int, n2.high.0 as int, y);
            let z = choose|z: int| #[trigger] m2.reaches(n2.high.0 as int, z) && m2.live(z)
                && forall|a: Assignment| #[trigger] m2.sem(z, a) == m1.sem(y, a);
            assert(m2.reaches(x2, z));
        }
    }
}

/// A node matching `y` below `x2`.
spec fn match_of(m1: DDManager, m2: DDManager, x2: int, y: usize) -> usize {
    choose|z: usize| #[trigger] m2.reaches(x2, z as int) && m2.live(z as int)
        && forall|a: Assignment| #[trigger] m2.sem(z as int, a) == m1.sem(y as int, a)
}

/// The diagram of `x1` has no more nodes than that of `x2`, where the two stand for the same
/// function in two well-formed managers with the same level table.
proof fn lemma_size_le(m1: &DDManager, m2: &DDManager, x1: int, x2: int)
    requires
        m1.wf(),
        m2.wf(),
        m2.var2level@ == m1.var2level@,
        m1.live(x1),
        m2.live(x2),
        forall|a: Assignment| #[trigger] m1.sem(x1, a) == m2.sem(x2, a),
        m1.nodes@.len() <= usize::MAX,
        m2.nodes@.len() <= usize::MAX,
    ensures
        Set::new(|y: usize| m1.reaches(x1, y as int)).len() <= Set::new(|y: usize| m2.reaches(x2, y as int)).len(),
{
    let r1 = Set::new(|y: usize| m1.reaches(x1, y as int));
    let r2 = Set::new(|y: usize| m2.reaches(x2, y as int));
    assert forall|y: usize| #[trigger] r1.contains(y) implies y < m1.nodes@.len() by {
        m1.lemma_reaches_live(x1, y as int);
    }
    assert forall|y: usize| #[trigger] r2.contains(y) implies y < m2.nodes@.len() by {
        m2.lemma_reaches_live(x2, y as int);
    }
    crate::reachable::lemma_bounded_set(r1, m1.nodes@.len() as usize);
    crate::reachable::lemma_bounded_set(r2, m2.nodes@.len() as usize);
    let phi = |y: usize| match_of(*m1, *m2, x2, y);
    assert forall|y: usize| #[trigger] r1.contains(y) implies ({
        let z = phi(y);
        &&& m2.reaches(x2, z as int)
        &&& m2.live(z as int)
        &&& forall|a: Assignment| #[trigger] m2.sem(z as int, a) == m1.sem(y as int, a)
    }) by {
        lemma_reach_match(m1, m2, x1, x2, y as int);
        let z = choose|z: int| #[trigger] m2.reaches(x2, z) && m2.live(z) && forall|a: Assignment| #[trigger] m2.sem(z, a) == m1.sem(y as int, a);
        m2.lemma_reaches_live(x2, z);
        let zu = z as usize;
        assert(m2.reaches(x2, zu as int) && m2.live(zu as int)
            && forall|a: Assignment| #[trigger] m2.sem(zu as int, a) == m1.sem(y as int, a));
    }
    let img = r1.map(phi);
    assert(vstd::relations::injective_on(phi, r1)) by {
        assert forall|y1: usize, y2: usize| r1.contains(y1) && r1.contains(y2) && #[trigger] phi(y1) == #[trigger] phi(y2) implies y1 == y2 by {
            m1.lemma_reaches_live(x1, y1 as int);
            m1.lemma_reaches_live(x1, y2 as int);
            assert forall|a: Assignment| #[trigger] m1.sem(y1 as int, a) == m1.sem(y2 as int, a) by {
                assert(m2.sem(phi(y1) as int, a) == m1.sem(y1 as int, a));
                assert(m2.sem(phi(y2) as int, a) == m1.sem(y2 as int, a));
            }
            m1.lemma_canonical(y1 as int, y2 as int);
        }
    }
    vstd::set_lib::lemma_map_size(r1, img, phi);
    assert(img.subset_of(r2)) by {
        assert forall|z: usize| img.contains(z) implies r2.contains(z) by {
            let y = choose|y: usize| r1.contains(y) && phi(y) == z;
            assert(r1.contains(y));
        }
    }
    vstd::set_lib::lemma_len_subset(img, r2);
}

/// Canonicity across managers: two well-formed managers with the same level table hold, for
/// the same function, diagrams of the same number of nodes.
pub proof fn lemma_same_function_same_size(m1: &DDManager, m2: &DDManager, x1: int, x2: int)
    requires
        m1.wf(),
        m2.wf(),
        m2.var2level@ == m1.var2level@,
        m1.live(x1),
        m2.live(x2),
        forall|a: Assignment| #[trigger] m1.sem(x1, a) == m2.sem(x2, a),
        m1.nodes@.len() <= usize::MAX,
        m2.nodes@.len() <= usize::MAX,
    ensures
        Set::new(|y: usize| m1.reaches(x1, y as int)).len() == Set::new(|y: usize| m2.reaches(x2, y as int)).len(),
{
    lemma_size_le(m1, m2, x1, x2);
    assert forall|a: Assignment| #[trigger] m2.sem(x2, a) == m1.sem(x1, a) by {
        assert(m1.sem(x1, a) == m2.sem(x2, a));
    }
    lemma_size_le(m2, m1, x2, x1);
}

} // verus!
