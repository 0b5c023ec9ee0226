//! Sifting: moving one variable through all levels by swaps of adjacent layers and leaving it
//! where the diagram was smallest.
use vstd::prelude::*;
use crate::bdd_node::{NodeID, VarID};
use crate::bdd_manager::DDManager;
use crate::dvo::{var_at, now, elapsed, longer, RegularSifting, DVOScheduleEnum, NoDVOSchedule, AlwaysUntilConvergence, AlwaysOnce, AtThreshold,
    SiftingAtThreshold, TimeSizeLimit};
use crate::semantics::Assignment;
use crate::swap::swapped_levels;

verus! {

/// The level table `v2l` with variable `var` moved to level `p`: the variables between its old
/// level and `p` close up, all others keep their levels.
pub open spec fn moved(v2l: Seq<usize>, var: int, p: int) -> Seq<usize> {
    let s = v2l[var] as int;
    Seq::new(v2l.len(), |u: int| {
        let q = v2l[u] as int;
        if u == var {
            p as usize
        } else if s < q && q <= p {
            (q - 1) as usize
        } else if p <= q && q < s {
            (q + 1) as usize
        } else {
            q as usize
        }
    })
}

/// A valid level table: the terminals at the level one past the number of variables, every
/// variable on its own level between 1 and that one.
pub open spec fn valid_levels(v2l: Seq<usize>) -> bool {
    &&& v2l.len() >= 1
    &&& v2l[0] == v2l.len()
    &&& forall|v: int| 0 <= v < v2l.len() ==> 1 <= #[trigger] v2l[v] <= v2l[0]
    &&& forall|v: int, w: int| 0 <= v < v2l.len() && 0 <= w < v2l.len() && v != w ==> #[trigger] v2l[v] != #[trigger] v2l[w]
}

/// Moving `var` leaves the level of a variable above both its old and its new level as it was.
pub proof fn lemma_level_kept(v0: Seq<usize>, var: int, cur: int, fv: int)
    requires
        valid_levels(v0),
        0 <= var < v0.len(),
        0 <= fv < v0.len(),
        v0[fv] < v0[var],
        v0[fv] < cur,
    ensures
        moved(v0, var, cur)[fv] == v0[fv],
{
}

/// Moving `var` twice is moving it once to the second level.
pub proof fn lemma_moved_twice(v0: Seq<usize>, var: int, q: int, p: int)
    requires
        valid_levels(v0),
        0 <= var < v0.len(),
        1 <= q < v0[0],
        1 <= p < v0[0],
    ensures
        moved(moved(v0, var, q), var, p) == moved(v0, var, p),
{
    let m = moved(v0, var, q);
    assert(m[var] == q);
    assert forall|u: int| 0 <= u < v0.len() implies #[trigger] moved(m, var, p)[u] == moved(v0, var, p)[u] by {
        if u != var {
            let s = v0[var] as int;
            let x = v0[u] as int;
            assert(x != s);
            let y = m[u] as int;
            assert(y == if s < x && x <= q { x - 1 } else if q <= x && x < s { x + 1 } else { x });
            assert(moved(m, var, p)[u] == (if q < y && y <= p { y - 1 } else if p <= y && y < q { y + 1 } else { y }) as usize);
            assert(moved(v0, var, p)[u] == (if s < x && x <= p { x - 1 } else if p <= x && x < s { x + 1 } else { x }) as usize);
        }
    }
    assert(moved(m, var, p) =~= moved(v0, var, p));
}

/// Every level between 1 and the terminal level holds a variable.
pub proof fn lemma_levels_onto(v2l: Seq<usize>, d: int)
    requires
        valid_levels(v2l),
        1 <= d <= v2l[0],
    ensures
        exists|v: int| 0 <= v < v2l.len() && v2l[v] == d,
{
    let n = v2l.len() as int;
    let s = Seq::new(v2l.len(), |i: int| v2l[i] as int);
    let r = vstd::set_lib::set_int_range(1, n + 1);
    vstd::set_lib::lemma_int_range(1, n + 1);
    assert(s.no_duplicates()) by {
        assert forall|i: int, j: int| 0 <= i < s.len() && 0 <= j < s.len() && i != j implies s[i] != s[j] by {
            assert(v2l[i] != v2l[j]);
        }
    }
    s.unique_seq_to_set();
    assert(s.to_set().subset_of(r)) by {
        assert forall|x: int| s.to_set().contains(x) implies r.contains(x) by {
            let i = choose|i: int| 0 <= i < s.len() && s[i] == x;
            assert(1 <= v2l[i] <= v2l[0]);
        }
    }
    vstd::set_lib::lemma_subset_equality(s.to_set(), r);
    assert(r.contains(d));
    assert(s.to_set().contains(d));
    let i = choose|i: int| 0 <= i < s.len() && s[i] == d;
    assert(v2l[i] == d);
}

/// The variable found at a level is the one on that level.
pub proof fn lemma_var_at(v2l: Seq<usize>, v: int)
    requires
        valid_levels(v2l),
        0 <= v < v2l.len(),
    ensures
        var_at(v2l, v2l[v]) == Some(VarID(v as usize)),
{
    let l = v2l[v];
    assert(0 <= v < v2l.len() && v2l[v] == l);
    let c = choose|x: int| 0 <= x < v2l.len() && v2l[x] == l && forall|w: int| 0 <= w < x ==> v2l[w] != l;
    assert(0 <= v < v2l.len() && v2l[v] == l && forall|w: int| 0 <= w < v ==> v2l[w] != l);
    if c != v {
        assert(v2l[c] != v2l[v]);
    }
}

/// Moving a variable to its own level changes nothing.
pub proof fn lemma_moved_start(v2l: Seq<usize>, var: int)
    requires
        0 <= var < v2l.len(),
    ensures
        moved(v2l, var, v2l[var] as int) == v2l,
{
    assert(moved(v2l, var, v2l[var] as int) =~= v2l);
}

/// A moved level table is valid.
pub proof fn lemma_moved_valid(v2l: Seq<usize>, var: int, p: int)
    requires
        valid_levels(v2l),
        1 <= var < v2l.len(),
        1 <= p < v2l[0],
    ensures
        valid_levels(moved(v2l, var, p)),
        moved(v2l, var, p)[var] == p,
        moved(v2l, var, p).len() == v2l.len(),
{
    let m = moved(v2l, var, p);
    let s = v2l[var] as int;
    assert(m[0] == v2l[0]) by {
        assert(v2l[0] != v2l[var]);
    }
    assert forall|v: int, w: int| 0 <= v < m.len() && 0 <= w < m.len() && v != w implies #[trigger] m[v] != #[trigger] m[w] by {
        assert(v2l[v] != v2l[w]);
        assert(v2l[v] != v2l[var] || v == var);
        assert(v2l[w] != v2l[var] || w == var);
    }
    assert forall|v: int| 0 <= v < m.len() implies 1 <= #[trigger] m[v] <= m[0] by {
        assert(1 <= v2l[v] <= v2l[0]);
        assert(v2l[v] != v2l[0] || v == 0);
        assert(s < v2l[0]);
    }
}

/// Swapping the moved variable with the one just below it moves it one level down.
pub proof fn lemma_moved_down(v2l: Seq<usize>, var: int, p: int, u: int)
    requires
        valid_levels(v2l),
        1 <= var < v2l.len(),
        1 <= p,
        p + 1 < v2l[0],
        0 <= u < v2l.len(),
        moved(v2l, var, p)[u] == p + 1,
    ensures
        u != var,
        u != 0,
        swapped_levels(moved(v2l, var, p), VarID(var as usize), VarID(u as usize)) == moved(v2l, var, p + 1),
{
    let m = moved(v2l, var, p);
    let s = v2l[var] as int;
    assert(v2l[0] != v2l[var]);
    assert(u != 0) by {
        if u == 0 {
            assert(v2l[0] != v2l[var]);
        }
    }
    let q = v2l[u] as int;
    assert forall|w: int| 0 <= w < v2l.len() implies #[trigger] swapped_levels(m, VarID(var as usize), VarID(u as usize))[w] == moved(v2l, var, p + 1)[w] by {
        assert(v2l[w] != v2l[u] || w == u);
        assert(v2l[w] != v2l[var] || w == var);
    }
    assert(swapped_levels(m, VarID(var as usize), VarID(u as usize)) =~= moved(v2l, var, p + 1));
}

/// Swapping the moved variable with the one just above it moves it one level up.
pub proof fn lemma_moved_up(v2l: Seq<usize>, var: int, p: int, u: int)
    requires
        valid_levels(v2l),
        1 <= var < v2l.len(),
        2 <= p,
        p < v2l[0],
        0 <= u < v2l.len(),
        moved(v2l, var, p)[u] == p - 1,
    ensures
        u != var,
        u != 0,
        swapped_levels(moved(v2l, var, p), VarID(u as usize), VarID(var as usize)) == moved(v2l, var, p - 1),
{
    let m = moved(v2l, var, p);
    let s = v2l[var] as int;
    assert(v2l[0] != v2l[var]);
    assert(u != 0) by {
        if u == 0 {
            assert(v2l[0] != v2l[var]);
        }
    }
    assert forall|w: int| 0 <= w < v2l.len() implies #[trigger] swapped_levels(m, VarID(u as usize), VarID(var as usize))[w] == moved(v2l, var, p - 1)[w] by {
        assert(v2l[w] != v2l[u] || w == u);
        assert(v2l[w] != v2l[var] || w == var);
    }
    assert(swapped_levels(m, VarID(u as usize), VarID(var as usize)) =~= moved(v2l, var, p - 1));
}


impl DDManager {
    /// Every node of `earlier` is a node here, standing for the same function.
    pub open spec fn keeps_functions(&self, earlier: &DDManager) -> bool {
        &&& forall|i: int| #[trigger] earlier.live(i) ==> self.live(i)
        &&& forall|i: int, x: Assignment| #![trigger self.sem(i, x)] earlier.live(i) ==> self.sem(i, x) == earlier.sem(i, x)
    }

    /// The number of nodes reachable from `f`, `f` and the terminals included.
    pub open spec fn diagram_size(&self, f: int) -> nat {
        Set::new(|y: usize| self.reaches(f, y as int)).len()
    }

    /// The diagram of a node counts no more nodes than there are slots.
    pub proof fn lemma_size_fits(&self, f: int)
        requires
            self.wf(),
            self.live(f),
            self.nodes@.len() <= usize::MAX,
        ensures
            self.diagram_size(f) <= self.nodes@.len(),
    {
        let s = Set::new(|y: usize| self.reaches(f, y as int));
        assert forall|y: usize| #[trigger] s.contains(y) implies y < self.nodes@.len() by {
            self.lemma_reaches_live(f, y as int);
        }
        crate::reachable::lemma_bounded_set(s, self.nodes@.len() as usize);
    }

    /// No diagram of the function of node `f` (of this manager) with variable `var` moved to
    /// level `p`, the other variables keeping their order, has fewer than `size` nodes.
    pub open spec fn best_at(&self, var: int, f: int, p: int, size: int) -> bool {
        forall|m: DDManager, g: int| #![trigger m.diagram_size(g), m.var2level@]
            m.wf() && m.nodes@.len() <= usize::MAX && m.var2level@ == moved(self.var2level@, var, p) && m.live(g)
                && (forall|a: Assignment| #[trigger] m.sem(g, a) == self.sem(f, a)) ==> size <= m.diagram_size(g)
    }

    /// A manager whose node `f` has the function of node `f0` of `s0`, with `var` moved to `p`,
    /// tells the best size at `p`: every such diagram has as many nodes as its own.
    pub proof fn lemma_best_at(&self, s0: &DDManager, var: int, f0: int, f: int, p: int, size: int)
        requires
            self.wf(),
            self.nodes@.len() <= usize::MAX,
            self.live(f),
            self.var2level@ == moved(s0.var2level@, var, p),
            forall|a: Assignment| #[trigger] self.sem(f, a) == s0.sem(f0, a),
            size <= self.diagram_size(f),
        ensures
            s0.best_at(var, f0, p, size),
    {
        assert forall|m: DDManager, g: int| #![trigger m.diagram_size(g), m.var2level@]
            m.wf() && m.nodes@.len() <= usize::MAX && m.var2level@ == moved(s0.var2level@, var, p) && m.live(g)
                && (forall|a: Assignment| #[trigger] m.sem(g, a) == s0.sem(f0, a)) implies size <= m.diagram_size(g) by {
            assert forall|a: Assignment| #[trigger] self.sem(f, a) == m.sem(g, a) by {
                assert(m.sem(g, a) == s0.sem(f0, a));
            }
            crate::canonical::lemma_same_function_same_size(self, &m, f, g);
        }
    }

    /// A best size is also bounded by any smaller size.
    pub proof fn lemma_best_at_lower(&self, var: int, f: int, p: int, size: int, smaller: int)
        requires
            self.best_at(var, f, p, size),
            smaller <= size,
        ensures
            self.best_at(var, f, p, smaller),
    {
        assert forall|m: DDManager, g: int| #![trigger m.diagram_size(g), m.var2level@]
            m.wf() && m.nodes@.len() <= usize::MAX && m.var2level@ == moved(self.var2level@, var, p) && m.live(g)
                && (forall|a: Assignment| #[trigger] m.sem(g, a) == self.sem(f, a)) implies smaller <= m.diagram_size(g) by {
            assert(size <= m.diagram_size(g));
        }
    }

    /// A best size stays one after `var` has been moved: the levels it can be moved to are the
    /// same, with the other variables in the same order, and node `f` has kept its function.
    pub proof fn lemma_best_at_moved(&self, before: &DDManager, var: int, f: int, q: int, p: int, size: int)
        requires
            valid_levels(before.var2level@),
            0 <= var < before.var2level@.len(),
            1 <= q < before.var2level@[0],
            1 <= p < before.var2level@[0],
            self.var2level@ == moved(before.var2level@, var, q),
            forall|a: Assignment| #[trigger] self.sem(f, a) == before.sem(f, a),
            before.best_at(var, f, p, size),
        ensures
            self.best_at(var, f, p, size),
    {
        lemma_moved_twice(before.var2level@, var, q, p);
        assert forall|m: DDManager, g: int| #![trigger m.diagram_size(g), m.var2level@]
            m.wf() && m.nodes@.len() <= usize::MAX && m.var2level@ == moved(self.var2level@, var, p) && m.live(g)
                && (forall|a: Assignment| #[trigger] m.sem(g, a) == self.sem(f, a)) implies size <= m.diagram_size(g) by {
            assert forall|a: Assignment| #[trigger] m.sem(g, a) == before.sem(f, a) by {
                assert(m.sem(g, a) == self.sem(f, a));
            }
        }
    }

    /// Every inner node held is reachable from `f`.
    pub open spec fn only_reachable(&self, f: int) -> bool {
        forall|id: int| #[trigger] self.live(id) && id >= 2 ==> self.reaches(f, id)
    }

    /// The levels from `lo` up to `hi` (not included) were tried for `var` when sifting the
    /// diagram of `f` in this manager, and no diagram with `var` on any of them is smaller than
    /// `size`. At least the level just below `var` was tried where there is one, and the level
    /// just above where it lies below the root's; without a limit on growth, every level down to
    /// the last, and every level up to just below the root.
    pub open spec fn tried_levels(&self, var: int, f: int, unlimited: bool, lo: int, hi: int, size: int) -> bool {
        let start = self.var2level@[var] as int;
        let last = self.var2level@[0] as int;
        &&& 1 <= lo <= start < hi <= last
        &&& start + 1 < last ==> start + 1 < hi
        &&& self.level(f) + 1 < start ==> lo < start
        &&& unlimited ==> hi == last && (lo <= self.level(f) + 1 || lo == start)
        &&& forall|p: int| lo <= p < hi ==> #[trigger] self.best_at(var, f, p, size)
    }

    /// Variable `var` lies on a best level for the diagram of `f` among the levels below `lo`:
    /// moved to any of them, the other variables keeping their order, no diagram of the function
    /// of `f` is smaller than this one.
    pub open spec fn on_best_level(&self, var: int, f: int, lo: int) -> bool {
        forall|p: int| lo < p < self.var2level@[0] ==> #[trigger] self.best_at(var, f, p, self.diagram_size(f) as int)
    }

    /// No variable after `u` (by ID) has nodes, and `u`, unless it is 0, lies on a best level
    /// for the diagram of `f`.
    pub open spec fn sifted_last(&self, f: int, u: int) -> bool {
        &&& 0 <= u < self.var2level@.len()
        &&& u != 0 ==> self.on_best_level(u, f, 0)
        &&& forall|w: int| u < w < self.var2level@.len() ==> #[trigger] self.var2nodes@[w]@.is_empty()
    }

    /// What sifting every variable in the order of the IDs leaves: the last variable sifted lies
    /// on a best level for the diagram of `f`, and no variable after it has nodes.
    pub open spec fn settled(&self, f: int) -> bool {
        exists|u: int| #[trigger] self.sifted_last(f, u)
    }

    /// Variable `w` is passed over when sifting below the root of `f`: it is the variable of the
    /// root, lies at or above the root, or has no nodes.
    pub open spec fn passed_over(&self, f: int, w: int) -> bool {
        ||| w == self.node(f).var.0
        ||| self.var2level@[w] <= self.level(f)
        ||| self.var2nodes@[w]@.is_empty()
    }

    /// Each variable after `u` (by ID) but the last is passed over, and `u`, unless it is 0,
    /// lies on a best level below the root for the diagram of `f`.
    pub open spec fn sifted_last_below_root(&self, f: int, u: int) -> bool {
        &&& 0 <= u < self.var2level@.len()
        &&& u != 0 ==> self.on_best_level(u, f, self.level(f))
        &&& forall|w: int| u < w < self.var2level@.len() - 1 ==> #[trigger] self.passed_over(f, w)
    }

    /// What sifting every variable below the root of `f` but the last in the order of the IDs
    /// leaves: the last variable sifted lies on a best level below the root of `f`, and every
    /// variable after it but the last is passed over.
    pub open spec fn settled_below_root(&self, f: int) -> bool {
        exists|u: int| #[trigger] self.sifted_last_below_root(f, u)
    }

    /// The level table of a well-formed manager is valid.
    pub proof fn lemma_valid_levels(&self)
        requires
            self.wf(),
        ensures
            valid_levels(self.var2level@),
    {
        reveal(DDManager::wf);
    }

    /// A well-formed manager has one unique table per variable.
    pub proof fn lemma_tables_len(&self)
        requires
            self.wf(),
        ensures
            self.var2nodes@.len() == self.var2level@.len(),
    {
        reveal(DDManager::wf);
    }

    /// A manager that keeps the functions of one that keeps those of `earlier` keeps those of
    /// `earlier`.
    pub proof fn lemma_keeps_functions_trans(&self, mid: &DDManager, earlier: &DDManager)
        requires
            mid.keeps_functions(earlier),
            self.keeps_functions(mid),
        ensures
            self.keeps_functions(earlier),
    {
        assert forall|i: int, x: Assignment| #![trigger self.sem(i, x)] earlier.live(i) implies self.sem(i, x) == earlier.sem(i, x) by {
            assert(mid.live(i));
            assert(mid.sem(i, x) == earlier.sem(i, x));
        }
    }

    /// Two well-formed managers with the same level table, one keeping the functions of the
    /// other, give a node of the other the same diagram size.
    pub proof fn lemma_same_size(&self, earlier: &DDManager, f: int)
        requires
            earlier.wf(),
            self.wf(),
            self.var2level@ == earlier.var2level@,
            self.keeps_functions(earlier),
            earlier.live(f),
        ensures
            self.diagram_size(f) == earlier.diagram_size(f),
    {
        earlier.lemma_same_diagram(self, f);
        assert(Set::new(|y: usize| self.reaches(f, y as int)) =~= Set::new(|y: usize| earlier.reaches(f, y as int)));
    }

    /// Swaps the variable on level `p` with the one on level `p + 1`, where `var` sits on one of
    /// the two, and tells which of them is the other variable.
    fn swap_levels(&mut self, var: VarID, p: usize, f: NodeID, Ghost(v0): Ghost<Seq<usize>>, down: bool) -> (r: NodeID)
        requires
            old(self).wf(),
            old(self).live(f.0 as int),
            valid_levels(v0),
            1 <= var.0 < v0.len(),
            1 <= p,
            p + 1 < v0[0],
            down ==> old(self).var2level@ == moved(v0, var.0 as int, p as int),
            !down ==> old(self).var2level@ == moved(v0, var.0 as int, p + 1),
        ensures
            final(self).wf(),
            r == f,
            final(self).keeps_functions(old(self)),
            down ==> final(self).var2level@ == moved(v0, var.0 as int, p + 1),
            !down ==> final(self).var2level@ == moved(v0, var.0 as int, p as int),
    {
        let ghost m = self.var2level@;
        proof {
            if down {
                lemma_moved_valid(v0, var.0 as int, p as int);
                lemma_levels_onto(m, p + 1);
                let u = choose|u: int| 0 <= u < m.len() && m[u] == p + 1;
                lemma_var_at(m, u);
                lemma_var_at(m, var.0 as int);
                lemma_moved_down(v0, var.0 as int, p as int, u);
            } else {
                lemma_moved_valid(v0, var.0 as int, p + 1);
                lemma_levels_onto(m, p as int);
                let u = choose|u: int| 0 <= u < m.len() && m[u] == p;
                lemma_var_at(m, u);
                lemma_var_at(m, var.0 as int);
                lemma_moved_up(v0, var.0 as int, p + 1, u);
            }
        }
        let upper = self.var_at_level(p).unwrap();
        let lower = self.var_at_level(p + 1).unwrap();
        self.swap(upper, lower, f)
    }
}


impl DDManager {
    /// Moves the layer of `var` first to the bottom of the diagram, then to the top, and then to
    /// the position at which the diagram of `f` was smallest. Every node keeps its function, the
    /// diagram of `f` ends no larger than it started, and no diagram of its function with `var`
    /// on any level (the other variables keeping their order) is smaller.
    fn sift_single_var(&mut self, var: VarID, f: NodeID) -> (r: NodeID)
        requires
            old(self).wf(),
            old(self).live(f.0 as int),
            1 <= var.0 < old(self).var2level@.len(),
        ensures
            final(self).wf(),
            r == f,
            final(self).keeps_functions(old(self)),
            exists|p: int| 1 <= p < old(self).var2level@[0] && final(self).var2level@ == moved(old(self).var2level@, var.0 as int, p),
            final(self).diagram_size(f.0 as int) <= old(self).diagram_size(f.0 as int),
            forall|p: int| 1 <= p < old(self).var2level@[0]
                ==> #[trigger] old(self).best_at(var.0 as int, f.0 as int, p, final(self).diagram_size(f.0 as int) as int),
    {
        let ghost s0 = *self;
        let ghost v0 = self.var2level@;
        proof {
            self.lemma_valid_levels();
            lemma_moved_start(v0, var.0 as int);
        }
        let starting_pos = self.var2level[var.0];
        let mut best_position = starting_pos;
        let mut root = f;
        let mut best_graphsize = self.count_active(root);
        let ghost mut best = *self;
        let _slots = self.nodes.len();
        proof {
            self.lemma_best_at(&s0, var.0 as int, f.0 as int, f.0 as int, starting_pos as int, best_graphsize as int);
        }
        let terminal_node_level = self.var2level[0];
        proof {
            assert(v0[0] != v0[var.0 as int]);
        }

        // Move variable to the bottom
        let mut level = starting_pos + 1;
        while level < terminal_node_level
            invariant
                self.wf(),
                root == f,
                self.live(f.0 as int),
                self.keeps_functions(&s0),
                valid_levels(v0),
                1 <= var.0 < v0.len(),
                terminal_node_level == v0[0],
                starting_pos == v0[var.0 as int],
                starting_pos + 1 <= level <= terminal_node_level,
                self.var2level@ == moved(v0, var.0 as int, level - 1),
                best.wf(),
                best.live(f.0 as int),
                self.keeps_functions(&best),
                1 <= best_position < terminal_node_level,
                best.var2level@ == moved(v0, var.0 as int, best_position as int),
                best_graphsize == best.diagram_size(f.0 as int),
                best_graphsize <= s0.diagram_size(f.0 as int),
                s0.var2level@ == v0,
                s0.live(f.0 as int),
                forall|p: int| starting_pos <= p < level ==> #[trigger] s0.best_at(var.0 as int, f.0 as int, p, best_graphsize as int),
            decreases terminal_node_level - level,
        {
            let ghost before = *self;
            root = self.swap_levels(var, level - 1, root, Ghost(v0), true);
            proof {
                self.lemma_keeps_functions_trans(&before, &s0);
                self.lemma_keeps_functions_trans(&before, &best);
            }
            let new_size = self.count_active(root);
            let _slots = self.nodes.len();
            let ghost old_best = best_graphsize as int;
            if new_size < best_graphsize {
                best_graphsize = new_size;
                best_position = level;
                proof {
                    best = *self;
                }
            }
            proof {
                assert forall|p: int| starting_pos <= p < level + 1 implies #[trigger] s0.best_at(var.0 as int, f.0 as int, p, best_graphsize as int) by {
                    if p == level {
                        self.lemma_best_at(&s0, var.0 as int, f.0 as int, f.0 as int, p, best_graphsize as int);
                    } else {
                        s0.lemma_best_at_lower(var.0 as int, f.0 as int, p, old_best, best_graphsize as int);
                    }
                }
            }
            level = level + 1;
        }

        // Level is now bottom (terminal-1). Move variable to the top
        let mut level = terminal_node_level - 1;
        while level > 1
            invariant
                self.wf(),
                root == f,
                self.live(f.0 as int),
                self.keeps_functions(&s0),
                valid_levels(v0),
                1 <= var.0 < v0.len(),
                terminal_node_level == v0[0],
                1 <= level < terminal_node_level,
                self.var2level@ == moved(v0, var.0 as int, level as int),
                best.wf(),
                best.live(f.0 as int),
                self.keeps_functions(&best),
                1 <= best_position < terminal_node_level,
                best.var2level@ == moved(v0, var.0 as int, best_position as int),
                best_graphsize == best.diagram_size(f.0 as int),
                best_graphsize <= s0.diagram_size(f.0 as int),
                s0.var2level@ == v0,
                s0.live(f.0 as int),
                starting_pos == v0[var.0 as int],
                forall|p: int| (level <= p || starting_pos <= p) && p < terminal_node_level
                    ==> #[trigger] s0.best_at(var.0 as int, f.0 as int, p, best_graphsize as int),
            decreases level,
        {
            level = level - 1;
            let ghost before = *self;
            root = self.swap_levels(var, level, root, Ghost(v0), false);
            proof {
                self.lemma_keeps_functions_trans(&before, &s0);
                self.lemma_keeps_functions_trans(&before, &best);
            }
            let new_size = self.count_active(root);
            let _slots = self.nodes.len();
            let ghost old_best = best_graphsize as int;
            if new_size < best_graphsize {
                best_graphsize = new_size;
                best_position = level;
                proof {
                    best = *self;
                }
            }
            proof {
                assert forall|p: int| (level <= p || starting_pos <= p) && p < terminal_node_level
                    implies #[trigger] s0.best_at(var.0 as int, f.0 as int, p, best_graphsize as int) by {
                    if p == level {
                        self.lemma_best_at(&s0, var.0 as int, f.0 as int, f.0 as int, p, best_graphsize as int);
                    } else {
                        s0.lemma_best_at_lower(var.0 as int, f.0 as int, p, old_best, best_graphsize as int);
                    }
                }
            }
        }

        // Level is now top (1). Move variable down to best location
        let mut level: usize = 2;
        while level < best_position + 1
            invariant
                self.wf(),
                root == f,
                self.live(f.0 as int),
                self.keeps_functions(&s0),
                valid_levels(v0),
                1 <= var.0 < v0.len(),
                terminal_node_level == v0[0],
                2 <= level <= best_position + 1,
                self.var2level@ == moved(v0, var.0 as int, level - 1),
                best.wf(),
                best.live(f.0 as int),
                self.keeps_functions(&best),
                1 <= best_position < terminal_node_level,
                best.var2level@ == moved(v0, var.0 as int, best_position as int),
                best_graphsize == best.diagram_size(f.0 as int),
                best_graphsize <= s0.diagram_size(f.0 as int),
                forall|p: int| 1 <= p < terminal_node_level ==> #[trigger] s0.best_at(var.0 as int, f.0 as int, p, best_graphsize as int),
            decreases best_position + 1 - level,
        {
            let ghost before = *self;
            root = self.swap_levels(var, level - 1, root, Ghost(v0), true);
            proof {
                self.lemma_keeps_functions_trans(&before, &s0);
                self.lemma_keeps_functions_trans(&before, &best);
            }
            level = level + 1;
        }
        proof {
            self.lemma_same_size(&best, f.0 as int);
        }
        root
    }
}


/// `d` brought into the range of `isize`.
pub open spec fn clamp_isize(d: int) -> isize {
    if d > isize::MAX {
        isize::MAX
    } else if d < isize::MIN {
        isize::MIN
    } else {
        d as isize
    }
}

impl DDManager {
    /// Swaps the layers of `a` and `b` and measures by how many nodes the diagram of `f` grew.
    fn swap_counted(&mut self, a: VarID, b: VarID, f: NodeID) -> (r: i128)
        requires
            old(self).wf(),
            old(self).live(f.0 as int),
            1 <= a.0 < old(self).var2level@.len(),
            1 <= b.0 < old(self).var2level@.len(),
            old(self).var2level@[b.0 as int] == old(self).var2level@[a.0 as int] + 1
                || old(self).var2level@[a.0 as int] == old(self).var2level@[b.0 as int] + 1,
        ensures
            final(self).wf(),
            final(self).live(f.0 as int),
            final(self).var2level@ == swapped_levels(old(self).var2level@, a, b),
            final(self).keeps_functions(old(self)),
            old(self).diagram_size(f.0 as int) <= usize::MAX,
            final(self).diagram_size(f.0 as int) <= usize::MAX,
            r == final(self).diagram_size(f.0 as int) - old(self).diagram_size(f.0 as int),
            forall|i: int| #![trigger final(self).node(i)]
                old(self).live(i) && old(self).node(i).var != a && old(self).node(i).var != b
                ==> final(self).node(i) == old(self).node(i),
    {
        let before = self.count_active(f);
        let _ = self.swap(a, b, f);
        let after = self.count_active(f);
        after as i128 - before as i128
    }

    /// Swaps the layers of variables `a` and `b`, which must lie on adjacent levels, one directly
    /// above the other, and returns by how many nodes the diagram of `f` grew (negative where it
    /// shrank). Every node keeps its ID and its function.
    pub fn direct_swap(&mut self, a: VarID, b: VarID, f: NodeID) -> (r: isize)
        requires
            old(self).wf(),
            old(self).live(f.0 as int),
            1 <= a.0 < old(self).var2level@.len(),
            1 <= b.0 < old(self).var2level@.len(),
            old(self).var2level@[b.0 as int] == old(self).var2level@[a.0 as int] + 1
                || old(self).var2level@[a.0 as int] == old(self).var2level@[b.0 as int] + 1,
        ensures
            final(self).wf(),
            final(self).var2level@ == swapped_levels(old(self).var2level@, a, b),
            final(self).keeps_functions(old(self)),
            r == clamp_isize(final(self).diagram_size(f.0 as int) - old(self).diagram_size(f.0 as int)),
    {
        let d = self.swap_counted(a, b, f);
        if d > isize::MAX as i128 {
            isize::MAX
        } else if d < isize::MIN as i128 {
            isize::MIN
        } else {
            d as isize
        }
    }

    /// Swaps the variable on level `p` with the one on level `p + 1`, where `var` sits on one of
    /// the two, and measures by how many nodes the diagram of `f` grew.
    fn swap_levels_counted(&mut self, var: VarID, p: usize, f: NodeID, Ghost(v0): Ghost<Seq<usize>>, down: bool) -> (r: i128)
        requires
            old(self).wf(),
            old(self).live(f.0 as int),
            valid_levels(v0),
            1 <= var.0 < v0.len(),
            1 <= p,
            p + 1 < v0[0],
            down ==> old(self).var2level@ == moved(v0, var.0 as int, p as int),
            !down ==> old(self).var2level@ == moved(v0, var.0 as int, p + 1),
        ensures
            final(self).wf(),
            final(self).live(f.0 as int),
            final(self).keeps_functions(old(self)),
            down ==> final(self).var2level@ == moved(v0, var.0 as int, p + 1),
            !down ==> final(self).var2level@ == moved(v0, var.0 as int, p as int),
            old(self).diagram_size(f.0 as int) <= usize::MAX,
            final(self).diagram_size(f.0 as int) <= usize::MAX,
            r == final(self).diagram_size(f.0 as int) - old(self).diagram_size(f.0 as int),
            old(self).level(f.0 as int) < p ==> final(self).node(f.0 as int) == old(self).node(f.0 as int),
    {
        let ghost m = self.var2level@;
        proof {
            if down {
                lemma_moved_valid(v0, var.0 as int, p as int);
                lemma_levels_onto(m, p + 1);
                let u = choose|u: int| 0 <= u < m.len() && m[u] == p + 1;
                lemma_var_at(m, u);
                lemma_var_at(m, var.0 as int);
                lemma_moved_down(v0, var.0 as int, p as int, u);
            } else {
                lemma_moved_valid(v0, var.0 as int, p + 1);
                lemma_levels_onto(m, p as int);
                let u = choose|u: int| 0 <= u < m.len() && m[u] == p;
                lemma_var_at(m, u);
                lemma_var_at(m, var.0 as int);
                lemma_moved_up(v0, var.0 as int, p + 1, u);
            }
        }
        let upper = self.var_at_level(p).unwrap();
        let lower = self.var_at_level(p + 1).unwrap();
        proof {
            assert(m[upper.0 as int] == p);
            assert(m[lower.0 as int] == p + 1);
        }
        self.swap_counted(upper, lower, f)
    }
}


impl DDManager {
    /// Sifting by measured swaps: after dropping the nodes not reachable from `f`, moves the
    /// layer of `var` down to the bottom, back to where it started, up to just below the root
    /// of `f`, and then to the level at which the diagram of `f` was smallest, adding up the
    /// growth that each swap reports. With `max_increase`, a direction is given up once the
    /// diagram has grown by more than that over the best size seen. Every node kept keeps its
    /// function, and the diagram of `f` ends no larger than it started; without `max_increase`,
    /// no diagram of its function with `var` on any level tried (from its own level, or from
    /// just below the root of `f`, down to the last) is smaller.
    pub fn sift_single_var_faster(&mut self, var: VarID, max_increase: Option<usize>, f: NodeID) -> (r: NodeID)
        requires
            old(self).wf(),
            old(self).live(f.0 as int),
            1 <= var.0 < old(self).var2level@.len(),
        ensures
            final(self).wf(),
            r == f,
            final(self).live(f.0 as int),
            forall|x: Assignment| #[trigger] final(self).sem(f.0 as int, x) == old(self).sem(f.0 as int, x),
            exists|p: int| 1 <= p < old(self).var2level@[0] && final(self).var2level@ == moved(old(self).var2level@, var.0 as int, p),
            final(self).diagram_size(f.0 as int) <= old(self).diagram_size(f.0 as int),
            max_increase is None ==> forall|p: int| (old(self).var2level@[var.0 as int] <= p || old(self).level(f.0 as int) < p)
                && p < old(self).var2level@[0]
                ==> #[trigger] old(self).best_at(var.0 as int, f.0 as int, p, final(self).diagram_size(f.0 as int) as int),
            old(self).level(f.0 as int) < old(self).var2level@[var.0 as int] ==> final(self).node(f.0 as int) == old(self).node(f.0 as int)
                && final(self).level(f.0 as int) == old(self).level(f.0 as int),
            exists|lo: int, hi: int| #[trigger] old(self).tried_levels(var.0 as int, f.0 as int, max_increase is None, lo, hi,
                final(self).diagram_size(f.0 as int) as int),
            final(self).only_reachable(f.0 as int),
    {
        let ghost s0 = *self;
        let starting_pos = self.var2level[var.0];
        let mut best_position = starting_pos;
        let mut best_graphsize: i128 = 0;
        self.purge_retain(f);
        let ghost s1 = *self;
        let ghost v0 = self.var2level@;
        let _slots = self.nodes.len();
        proof {
            self.lemma_valid_levels();
            lemma_moved_start(v0, var.0 as int);
            assert(v0[0] != v0[var.0 as int]);
            s0.lemma_same_size(&s1, f.0 as int);
            self.lemma_size_fits(f.0 as int);
            self.lemma_level_bound(f.0 as int);
        }
        let mut evaluation: i128 = 0;
        let root_level = self.var2level[self.nodes[f.0].unwrap().var.0];
        let terminal_node_level = self.var2level[0];
        let mut current_level = starting_pos;
        let ghost mut best = *self;
        let ghost s1size = s1.diagram_size(f.0 as int) as int;
        proof {
            assert(root_level == s0.level(f.0 as int));
            assert forall|a: Assignment| #[trigger] s1.sem(f.0 as int, a) == s0.sem(f.0 as int, a) by {}
            self.lemma_best_at(&s0, var.0 as int, f.0 as int, f.0 as int, starting_pos as int, s1size);
        }

        // Move variable to the bottom
        let mut level = starting_pos + 1;
        let mut stop = false;
        while level < terminal_node_level && !stop
            invariant
                self.wf(),
                self.live(f.0 as int),
                self.keeps_functions(&s1),
                s1.node(f.0 as int).var.0 < v0.len(),
                s1.level(f.0 as int) == root_level,
                root_level < starting_pos ==> self.node(f.0 as int) == s1.node(f.0 as int) && root_level < current_level
                    && self.level(f.0 as int) == root_level,
                s1.wf(),
                s1.live(f.0 as int),
                s1.var2level@ == v0,
                valid_levels(v0),
                1 <= var.0 < v0.len(),
                terminal_node_level == v0[0],
                starting_pos == v0[var.0 as int],
                starting_pos + 1 <= level <= terminal_node_level,
                current_level == level - 1,
                self.var2level@ == moved(v0, var.0 as int, current_level as int),
                evaluation == self.diagram_size(f.0 as int) - s1.diagram_size(f.0 as int),
                s1.diagram_size(f.0 as int) <= usize::MAX,
                self.diagram_size(f.0 as int) <= usize::MAX,
                best.wf(),
                best.live(f.0 as int),
                self.keeps_functions(&best),
                starting_pos <= best_position < terminal_node_level,
                best.var2level@ == moved(v0, var.0 as int, best_position as int),
                best_graphsize == best.diagram_size(f.0 as int) - s1.diagram_size(f.0 as int),
                best_graphsize <= 0,
                s0.var2level@ == v0,
                s1size == s1.diagram_size(f.0 as int),
                forall|a: Assignment| #[trigger] s1.sem(f.0 as int, a) == s0.sem(f.0 as int, a),
                stop ==> max_increase is Some,
                stop ==> level >= starting_pos + 2,
                forall|p: int| starting_pos <= p < level
                    ==> #[trigger] s0.best_at(var.0 as int, f.0 as int, p, best_graphsize + s1size),
            decreases terminal_node_level - level, (if stop { 0int } else { 1int }),
        {
            let ghost before = *self;
            let d = self.swap_levels_counted(var, level - 1, f, Ghost(v0), true);
            proof {
                self.lemma_keeps_functions_trans(&before, &s1);
                self.lemma_keeps_functions_trans(&before, &best);
                if root_level < starting_pos {
                    lemma_level_kept(v0, var.0 as int, current_level + 1, s1.node(f.0 as int).var.0 as int);
                }
            }
            evaluation = evaluation + d;
            current_level = current_level + 1;
            let _slots = self.nodes.len();
            let ghost old_best = best_graphsize as int;
            proof {
                let nb = if evaluation < best_graphsize { evaluation as int } else { old_best };
                assert forall|a: Assignment| #[trigger] self.sem(f.0 as int, a) == s0.sem(f.0 as int, a) by {
                    assert(s1.sem(f.0 as int, a) == s0.sem(f.0 as int, a));
                }
                assert forall|p: int| starting_pos <= p < level + 1
                    implies #[trigger] s0.best_at(var.0 as int, f.0 as int, p, nb + s1size) by {
                    if p == level {
                        self.lemma_best_at(&s0, var.0 as int, f.0 as int, f.0 as int, p, nb + s1size);
                    } else {
                        s0.lemma_best_at_lower(var.0 as int, f.0 as int, p, old_best + s1size, nb + s1size);
                    }
                }
            }
            if evaluation < best_graphsize {
                best_graphsize = evaluation;
                best_position = level;
                proof {
                    best = *self;
                }
            } else {
                match max_increase {
                    Some(max) => {
                        let allowed = (#[verifier::truncate] (max as isize)) as i128;
                        if evaluation > best_graphsize + allowed {
                            // the graph has grown too much to go on downwards
                            stop = true;
                        }
                    },
                    None => {},
                }
            }
            level = level + 1;
        }

        let ghost hi: int = level as int;
        proof {
            assert(hi <= terminal_node_level);
            assert(starting_pos + 1 < terminal_node_level ==> starting_pos + 1 < hi);
            assert(max_increase is None ==> hi == terminal_node_level);
        }

        // Back to the starting position, without measuring
        while current_level > starting_pos
            invariant
                self.wf(),
                self.live(f.0 as int),
                self.keeps_functions(&s1),
                s1.node(f.0 as int).var.0 < v0.len(),
                s1.level(f.0 as int) == root_level,
                root_level < starting_pos ==> self.node(f.0 as int) == s1.node(f.0 as int) && root_level < current_level
                    && self.level(f.0 as int) == root_level,
                s1.wf(),
                s1.live(f.0 as int),
                s1.var2level@ == v0,
                valid_levels(v0),
                1 <= var.0 < v0.len(),
                terminal_node_level == v0[0],
                starting_pos == v0[var.0 as int],
                starting_pos <= current_level < terminal_node_level,
                self.var2level@ == moved(v0, var.0 as int, current_level as int),
                evaluation == self.diagram_size(f.0 as int) - s1.diagram_size(f.0 as int),
                s1.diagram_size(f.0 as int) <= usize::MAX,
                self.diagram_size(f.0 as int) <= usize::MAX,
                best.wf(),
                best.live(f.0 as int),
                self.keeps_functions(&best),
                starting_pos <= best_position < terminal_node_level,
                best.var2level@ == moved(v0, var.0 as int, best_position as int),
                best_graphsize == best.diagram_size(f.0 as int) - s1.diagram_size(f.0 as int),
                best_graphsize <= 0,
                s0.var2level@ == v0,
                s1size == s1.diagram_size(f.0 as int),
                forall|a: Assignment| #[trigger] s1.sem(f.0 as int, a) == s0.sem(f.0 as int, a),
                starting_pos < hi <= terminal_node_level,
                forall|p: int| starting_pos <= p < hi
                    ==> #[trigger] s0.best_at(var.0 as int, f.0 as int, p, best_graphsize + s1size),
            decreases current_level,
        {
            let ghost before = *self;
            let d = self.swap_levels_counted(var, current_level - 1, f, Ghost(v0), false);
            proof {
                self.lemma_keeps_functions_trans(&before, &s1);
                self.lemma_keeps_functions_trans(&before, &best);
                if root_level < starting_pos {
                    lemma_level_kept(v0, var.0 as int, current_level - 1, s1.node(f.0 as int).var.0 as int);
                }
            }
            evaluation = evaluation + d;
            current_level = current_level - 1;
        }
        proof {
            self.lemma_same_size(&s1, f.0 as int);
            assert(evaluation == 0);
        }

        // Move variable to the top, just below the root
        let mut level = starting_pos;
        let mut stop = false;
        while root_level < level && level - root_level > 1 && !stop
            invariant
                self.wf(),
                self.live(f.0 as int),
                self.keeps_functions(&s1),
                s1.node(f.0 as int).var.0 < v0.len(),
                s1.level(f.0 as int) == root_level,
                root_level < starting_pos ==> self.node(f.0 as int) == s1.node(f.0 as int) && root_level < current_level
                    && self.level(f.0 as int) == root_level,
                s1.wf(),
                s1.live(f.0 as int),
                s1.var2level@ == v0,
                valid_levels(v0),
                1 <= var.0 < v0.len(),
                terminal_node_level == v0[0],
                starting_pos == v0[var.0 as int],
                1 <= current_level <= starting_pos,
                current_level == level,
                self.var2level@ == moved(v0, var.0 as int, current_level as int),
                evaluation == self.diagram_size(f.0 as int) - s1.diagram_size(f.0 as int),
                s1.diagram_size(f.0 as int) <= usize::MAX,
                self.diagram_size(f.0 as int) <= usize::MAX,
                best.wf(),
                best.live(f.0 as int),
                self.keeps_functions(&best),
                current_level <= best_position < terminal_node_level,
                best.var2level@ == moved(v0, var.0 as int, best_position as int),
                best_graphsize == best.diagram_size(f.0 as int) - s1.diagram_size(f.0 as int),
                best_graphsize <= 0,
                s0.var2level@ == v0,
                s1size == s1.diagram_size(f.0 as int),
                forall|a: Assignment| #[trigger] s1.sem(f.0 as int, a) == s0.sem(f.0 as int, a),
                stop ==> max_increase is Some,
                starting_pos == v0[var.0 as int],
                starting_pos < hi <= terminal_node_level,
                stop ==> level < starting_pos,
                forall|p: int| level <= p < hi
                    ==> #[trigger] s0.best_at(var.0 as int, f.0 as int, p, best_graphsize + s1size),
            decreases level, (if stop { 0int } else { 1int }),
        {
            let ghost before = *self;
            let d = self.swap_levels_counted(var, level - 1, f, Ghost(v0), false);
            proof {
                self.lemma_keeps_functions_trans(&before, &s1);
                self.lemma_keeps_functions_trans(&before, &best);
                if root_level < starting_pos {
                    lemma_level_kept(v0, var.0 as int, current_level - 1, s1.node(f.0 as int).var.0 as int);
                }
            }
            evaluation = evaluation + d;
            current_level = current_level - 1;
            level = level - 1;
            let _slots = self.nodes.len();
            let ghost old_best = best_graphsize as int;
            proof {
                let nb = if evaluation < best_graphsize { evaluation as int } else { old_best };
                assert forall|a: Assignment| #[trigger] self.sem(f.0 as int, a) == s0.sem(f.0 as int, a) by {
                    assert(s1.sem(f.0 as int, a) == s0.sem(f.0 as int, a));
                }
                assert forall|p: int| level <= p < hi
                    implies #[trigger] s0.best_at(var.0 as int, f.0 as int, p, nb + s1size) by {
                    if p == level {
                        self.lemma_best_at(&s0, var.0 as int, f.0 as int, f.0 as int, p, nb + s1size);
                    } else {
                        s0.lemma_best_at_lower(var.0 as int, f.0 as int, p, old_best + s1size, nb + s1size);
                    }
                }
            }
            if evaluation < best_graphsize {
                best_graphsize = evaluation;
                best_position = level;
                proof {
                    best = *self;
                }
            } else {
                match max_increase {
                    Some(max) => {
                        let allowed = (#[verifier::truncate] (max as isize)) as i128;
                        if evaluation > best_graphsize + allowed {
                            // the graph has grown too much to go on upwards
                            stop = true;
                        }
                    },
                    None => {},
                }
            }
        }

        let ghost lo: int = level as int;
        proof {
            assert(root_level + 1 < starting_pos ==> lo < starting_pos);
            assert(max_increase is None ==> lo <= root_level + 1 || lo == starting_pos);
        }

        // Move variable down to the best location
        while current_level < best_position
            invariant
                self.wf(),
                self.live(f.0 as int),
                self.keeps_functions(&s1),
                s1.node(f.0 as int).var.0 < v0.len(),
                s1.level(f.0 as int) == root_level,
                root_level < starting_pos ==> self.node(f.0 as int) == s1.node(f.0 as int) && root_level < current_level
                    && self.level(f.0 as int) == root_level,
                s1.wf(),
                s1.live(f.0 as int),
                s1.var2level@ == v0,
                valid_levels(v0),
                1 <= var.0 < v0.len(),
                terminal_node_level == v0[0],
                1 <= current_level <= best_position,
                self.var2level@ == moved(v0, var.0 as int, current_level as int),
                evaluation == self.diagram_size(f.0 as int) - s1.diagram_size(f.0 as int),
                s1.diagram_size(f.0 as int) <= usize::MAX,
                self.diagram_size(f.0 as int) <= usize::MAX,
                best.wf(),
                best.live(f.0 as int),
                self.keeps_functions(&best),
                best_position < terminal_node_level,
                best.var2level@ == moved(v0, var.0 as int, best_position as int),
                best_graphsize == best.diagram_size(f.0 as int) - s1.diagram_size(f.0 as int),
                best_graphsize <= 0,
                s0.var2level@ == v0,
                s1size == s1.diagram_size(f.0 as int),
                1 <= lo <= starting_pos < hi <= terminal_node_level,
                forall|p: int| lo <= p < hi
                    ==> #[trigger] s0.best_at(var.0 as int, f.0 as int, p, best_graphsize + s1size),
            decreases best_position - current_level,
        {
            let ghost before = *self;
            let d = self.swap_levels_counted(var, current_level, f, Ghost(v0), true);
            proof {
                self.lemma_keeps_functions_trans(&before, &s1);
                self.lemma_keeps_functions_trans(&before, &best);
                if root_level < starting_pos {
                    lemma_level_kept(v0, var.0 as int, current_level + 1, s1.node(f.0 as int).var.0 as int);
                }
            }
            evaluation = evaluation + d;
            current_level = current_level + 1;
        }
        proof {
            self.lemma_same_size(&best, f.0 as int);
            assert(evaluation == best_graphsize);
            assert(current_level == best_position);
        }
        let ghost sifted = *self;
        self.purge_retain(f);
        proof {
            sifted.lemma_same_size(self, f.0 as int);
            assert forall|x: Assignment| #[trigger] self.sem(f.0 as int, x) == s0.sem(f.0 as int, x) by {
                assert(sifted.sem(f.0 as int, x) == s1.sem(f.0 as int, x));
            }
            assert(self.diagram_size(f.0 as int) == best_graphsize + s1size);
            assert(s0.tried_levels(var.0 as int, f.0 as int, max_increase is None, lo, hi, self.diagram_size(f.0 as int) as int));
            if max_increase is None {
                assert forall|p: int| (s0.var2level@[var.0 as int] <= p || s0.level(f.0 as int) < p) && p < s0.var2level@[0]
                    implies #[trigger] s0.best_at(var.0 as int, f.0 as int, p, self.diagram_size(f.0 as int) as int) by {
                    assert(s0.best_at(var.0 as int, f.0 as int, p, best_graphsize + s1size));
                }
            }
            self.lemma_same_diagram(&sifted, f.0 as int);
            assert forall|id: int| #[trigger] self.live(id) && id >= 2 implies self.reaches(f.0 as int, id) by {
                assert(sifted.reaches(f.0 as int, id));
            }
        }
        f
    }
}


impl DDManager {
    /// Sifts every variable that has nodes, in the order of their IDs, dropping after each the
    /// nodes no longer reachable from `f`. The function of `f` is kept and its diagram ends no
    /// larger than it started; the last variable sifted ends on a best level, and where no
    /// variable has nodes nothing changes.
    pub fn sift_all_vars(&mut self, f: NodeID) -> (r: NodeID)
        requires
            old(self).wf(),
            old(self).live(f.0 as int),
        ensures
            final(self).wf(),
            r == f,
            final(self).live(f.0 as int),
            forall|x: Assignment| #[trigger] final(self).sem(f.0 as int, x) == old(self).sem(f.0 as int, x),
            final(self).var2level@.len() == old(self).var2level@.len(),
            final(self).diagram_size(f.0 as int) <= old(self).diagram_size(f.0 as int),
            final(self).settled(f.0 as int),
            old(self).sifted_last(f.0 as int, 0) ==> *final(self) == *old(self),
            swept(*old(self), *final(self), f.0 as int),
    {
        let ghost s0 = *self;
        proof {
            self.lemma_tables_len();
            self.lemma_valid_levels();
        }
        let mut root = f;
        let n = self.var2nodes.len();
        let mut v: usize = 1;
        let ghost mut last: int = 0;
        let ghost mut states: Seq<DDManager> = seq![*self];
        while v < n
            invariant
                states.len() == v,
                states[0] == s0,
                states.last() == *self,
                forall|w: int| 1 <= w < states.len() ==> if (#[trigger] states[w - 1]).var2nodes@[w]@.is_empty() {
                    states[w] == states[w - 1]
                } else {
                    sifted_var(states[w - 1], states[w], w, f.0 as int)
                },
                self.wf(),
                root == f,
                self.live(f.0 as int),
                forall|x: Assignment| #[trigger] self.sem(f.0 as int, x) == s0.sem(f.0 as int, x),
                self.var2level@.len() == s0.var2level@.len(),
                n == self.var2nodes@.len(),
                n == self.var2level@.len(),
                1 <= v <= n,
                self.diagram_size(f.0 as int) <= s0.diagram_size(f.0 as int),
                0 <= last < v,
                last != 0 ==> self.on_best_level(last, f.0 as int, 0),
                forall|w: int| last < w < v ==> #[trigger] self.var2nodes@[w]@.is_empty(),
                (forall|w: int| 0 < w < v ==> #[trigger] s0.var2nodes@[w]@.is_empty()) ==> *self == s0,
            decreases n - v,
        {
            if !self.var2nodes[v].is_empty() {
                let ghost before = *self;
                root = self.sift_single_var(VarID(v), root);
                let ghost sifted = *self;
                self.purge_retain(root);
                proof {
                    assert forall|j: int| #[trigger] self.live(j) implies sifted.live(j) by {}
                    assert forall|x: Assignment| #[trigger] self.sem(f.0 as int, x) == s0.sem(f.0 as int, x) by {
                        assert(sifted.sem(f.0 as int, x) == before.sem(f.0 as int, x));
                    }
                    sifted.lemma_same_size(self, f.0 as int);
                    self.lemma_tables_len();
                    sifted.lemma_tables_len();
                    before.lemma_valid_levels();
                    let q = choose|q: int| 1 <= q < before.var2level@[0] && sifted.var2level@ == moved(before.var2level@, v as int, q);
                    assert(self.var2level@[0] == before.var2level@[0]);
                    assert forall|p: int| 0 < p < self.var2level@[0]
                        implies #[trigger] self.best_at(v as int, f.0 as int, p, self.diagram_size(f.0 as int) as int) by {
                        assert(before.best_at(v as int, f.0 as int, p, sifted.diagram_size(f.0 as int) as int));
                        self.lemma_best_at_moved(&before, v as int, f.0 as int, q, p, self.diagram_size(f.0 as int) as int);
                    }
                    last = v as int;
                    self.lemma_same_diagram(&sifted, f.0 as int);
                    assert forall|id: int| #[trigger] self.live(id) && id >= 2 implies self.reaches(f.0 as int, id) by {
                        assert(sifted.reaches(f.0 as int, id));
                    }
                    assert forall|p: int| 1 <= p < before.var2level@[0]
                        implies #[trigger] before.best_at(v as int, f.0 as int, p, self.diagram_size(f.0 as int) as int) by {
                        assert(before.best_at(v as int, f.0 as int, p, sifted.diagram_size(f.0 as int) as int));
                    }
                    assert(sifted_var(before, *self, v as int, f.0 as int));
                }
            }
            proof {
                let ghost prev = states;
                states = states.push(*self);
                assert forall|w: int| 1 <= w < states.len() implies if (#[trigger] states[w - 1]).var2nodes@[w]@.is_empty() {
                    states[w] == states[w - 1]
                } else {
                    sifted_var(states[w - 1], states[w], w, f.0 as int)
                } by {
                    if w < prev.len() {
                        assert(states[w - 1] == prev[w - 1]);
                        assert(states[w] == prev[w]);
                    }
                }
            }
            v = v + 1;
        }
        proof {
            assert(self.sifted_last(f.0 as int, last));
            assert(sweep_states(states, s0, *self, f.0 as int));
        }
        root
    }
}


impl DDManager {
    /// Sifts, one after the other, every variable that has nodes and lies below the root of
    /// `f`, but for the last variable, by measured swaps (see `sift_single_var_faster` for
    /// `max_increase`), dropping after each the nodes no longer reachable from `f`. The function
    /// of `f` and its root are kept and its diagram ends no larger than it started; without
    /// `max_increase` the last variable sifted ends on a best level below the root, and where
    /// every variable is passed over nothing changes.
    pub fn sift_all_vars_limited(&mut self, f: NodeID, max_increase: Option<usize>) -> (r: NodeID)
        requires
            old(self).wf(),
            old(self).live(f.0 as int),
        ensures
            final(self).wf(),
            r == f,
            final(self).live(f.0 as int),
            forall|x: Assignment| #[trigger] final(self).sem(f.0 as int, x) == old(self).sem(f.0 as int, x),
            final(self).var2level@.len() == old(self).var2level@.len(),
            final(self).diagram_size(f.0 as int) <= old(self).diagram_size(f.0 as int),
            sifted_once(*old(self), *final(self), f, max_increase is None),
    {
        let ghost s0 = *self;
        proof {
            self.lemma_tables_len();
            self.lemma_valid_levels();
            self.lemma_level_bound(f.0 as int);
        }
        let mut root = f;
        let root_var = self.nodes[f.0].unwrap().var;
        let root_level = self.var2level[root_var.0];
        let n = self.var2level.len();
        let mut v: usize = 1;
        let ghost mut last: int = 0;
        let ghost mut states: Seq<DDManager> = seq![*self];
        while v < n - 1
            invariant
                states.len() == v,
                states[0] == s0,
                states.last() == *self,
                forall|w: int| 1 <= w < states.len() ==> if (#[trigger] states[w - 1]).passed_over(f.0 as int, w) {
                    states[w] == states[w - 1]
                } else {
                    sifted_var_below_root(states[w - 1], states[w], w, f.0 as int, max_increase is None)
                },
                n >= 1,
                self.wf(),
                root == f,
                self.live(f.0 as int),
                forall|x: Assignment| #[trigger] self.sem(f.0 as int, x) == s0.sem(f.0 as int, x),
                self.var2level@.len() == s0.var2level@.len(),
                n == self.var2nodes@.len(),
                n == self.var2level@.len(),
                1 <= v,
                self.diagram_size(f.0 as int) <= s0.diagram_size(f.0 as int),
                self.node(f.0 as int) == s0.node(f.0 as int),
                root_var == self.node(f.0 as int).var,
                self.level(f.0 as int) == root_level,
                0 <= last < v,
                v == 1 || v <= n - 1,
                max_increase is None && last != 0 ==> self.on_best_level(last, f.0 as int, root_level as int),
                forall|w: int| last < w < v ==> #[trigger] self.passed_over(f.0 as int, w),
                (forall|w: int| 0 < w < v ==> #[trigger] s0.passed_over(f.0 as int, w)) ==> *self == s0,
            decreases n - v,
        {
            if v != root_var.0 && !self.var2nodes[v].is_empty() && !(self.var2level[v] <= root_level) {
                let ghost before = *self;
                assert(!before.passed_over(f.0 as int, v as int));
                root = self.sift_single_var_faster(VarID(v), max_increase, root);
                let ghost sifted = *self;
                self.purge_retain(root);
                proof {
                    assert forall|j: int| #[trigger] self.live(j) implies sifted.live(j) by {}
                    assert forall|x: Assignment| #[trigger] self.sem(f.0 as int, x) == s0.sem(f.0 as int, x) by {
                        assert(sifted.sem(f.0 as int, x) == before.sem(f.0 as int, x));
                    }
                    sifted.lemma_same_size(self, f.0 as int);
                    self.lemma_tables_len();
                    sifted.lemma_tables_len();
                    before.lemma_valid_levels();
                    let q = choose|q: int| 1 <= q < before.var2level@[0] && sifted.var2level@ == moved(before.var2level@, v as int, q);
                    assert(self.var2level@[0] == before.var2level@[0]);
                    if max_increase is None {
                        assert forall|p: int| root_level < p < self.var2level@[0]
                            implies #[trigger] self.best_at(v as int, f.0 as int, p, self.diagram_size(f.0 as int) as int) by {
                            assert(before.best_at(v as int, f.0 as int, p, sifted.diagram_size(f.0 as int) as int));
                            self.lemma_best_at_moved(&before, v as int, f.0 as int, q, p, self.diagram_size(f.0 as int) as int);
                        }
                    }
                    last = v as int;
                    self.lemma_same_diagram(&sifted, f.0 as int);
                    assert forall|id: int| #[trigger] self.live(id) && id >= 2 implies self.reaches(f.0 as int, id) by {
                        assert(sifted.reaches(f.0 as int, id));
                    }
                    let (lo, hi) = choose|lo: int, hi: int| #[trigger] before.tried_levels(v as int, f.0 as int, max_increase is None,
                        lo, hi, sifted.diagram_size(f.0 as int) as int);
                    assert(before.tried_levels(v as int, f.0 as int, max_increase is None, lo, hi, self.diagram_size(f.0 as int) as int));
                    assert(sifted_var_below_root(before, *self, v as int, f.0 as int, max_increase is None));
                }
            }
            proof {
                let ghost prev = states;
                states = states.push(*self);
                assert forall|w: int| 1 <= w < states.len() implies if (#[trigger] states[w - 1]).passed_over(f.0 as int, w) {
                    states[w] == states[w - 1]
                } else {
                    sifted_var_below_root(states[w - 1], states[w], w, f.0 as int, max_increase is None)
                } by {
                    if w < prev.len() {
                        assert(states[w - 1] == prev[w - 1]);
                        assert(states[w] == prev[w]);
                    }
                }
            }
            v = v + 1;
        }
        proof {
            if max_increase is None {
                assert(self.sifted_last_below_root(f.0 as int, last));
            }
            assert(sweep_states_below_root(states, s0, *self, f.0 as int, max_increase is None));
        }
        root
    }
}

/// One step of sifting all variables: variable `var` of `before` moved to a level at which no
/// diagram of the function of `f` is smaller, every node not reachable from `f` dropped.
pub open spec fn sifted_var(before: DDManager, after: DDManager, var: int, f: int) -> bool {
    &&& after.wf()
    &&& after.live(f)
    &&& forall|x: Assignment| #[trigger] after.sem(f, x) == before.sem(f, x)
    &&& exists|p: int| 1 <= p < before.var2level@[0] && after.var2level@ == moved(before.var2level@, var, p)
    &&& after.diagram_size(f) <= before.diagram_size(f)
    &&& forall|p: int| 1 <= p < before.var2level@[0] ==> #[trigger] before.best_at(var, f, p, after.diagram_size(f) as int)
    &&& after.only_reachable(f)
}

/// The managers `states[0]`, ..., one per variable, that sifting every variable in the order of
/// the IDs passes through from `before` to `after`: variable `v` is sifted from `states[v - 1]`
/// to `states[v]` where it has nodes, and passed over where it has none.
pub open spec fn sweep_states(states: Seq<DDManager>, before: DDManager, after: DDManager, f: int) -> bool {
    &&& states.len() == before.var2level@.len()
    &&& states[0] == before
    &&& states.last() == after
    &&& forall|v: int| 1 <= v < states.len() ==> if (#[trigger] states[v - 1]).var2nodes@[v]@.is_empty() {
        states[v] == states[v - 1]
    } else {
        sifted_var(states[v - 1], states[v], v, f)
    }
}

/// `after` comes from `before` by sifting every variable that has nodes, one after the other
/// in the order of the IDs.
pub open spec fn swept(before: DDManager, after: DDManager, f: int) -> bool {
    exists|states: Seq<DDManager>| #[trigger] sweep_states(states, before, after, f)
}

/// One step of sifting below the root by measured swaps: variable `var` of `before` moved, the
/// root of `f` kept, no diagram with `var` on any level tried smaller (see `tried_levels`),
/// every node not reachable from `f` dropped.
pub open spec fn sifted_var_below_root(before: DDManager, after: DDManager, var: int, f: int, unlimited: bool) -> bool {
    &&& after.wf()
    &&& after.live(f)
    &&& forall|x: Assignment| #[trigger] after.sem(f, x) == before.sem(f, x)
    &&& exists|p: int| 1 <= p < before.var2level@[0] && after.var2level@ == moved(before.var2level@, var, p)
    &&& after.diagram_size(f) <= before.diagram_size(f)
    &&& after.node(f) == before.node(f)
    &&& after.level(f) == before.level(f)
    &&& exists|lo: int, hi: int| #[trigger] before.tried_levels(var, f, unlimited, lo, hi, after.diagram_size(f) as int)
    &&& after.only_reachable(f)
}

/// The managers that sifting below the root of `f` passes through from `before` to `after`,
/// one per variable but the last: variable `v` is sifted from `states[v - 1]` to `states[v]`
/// unless it is passed over there.
pub open spec fn sweep_states_below_root(states: Seq<DDManager>, before: DDManager, after: DDManager, f: int, unlimited: bool) -> bool {
    &&& states.len() == if before.var2level@.len() >= 2 { before.var2level@.len() - 1 } else { 1 }
    &&& states[0] == before
    &&& states.last() == after
    &&& forall|v: int| 1 <= v < states.len() ==> if (#[trigger] states[v - 1]).passed_over(f, v) {
        states[v] == states[v - 1]
    } else {
        sifted_var_below_root(states[v - 1], states[v], v, f, unlimited)
    }
}

/// `after` comes from `before` by sifting, one after the other in the order of the IDs, every
/// variable below the root of `f` but the last that has nodes.
pub open spec fn swept_below_root(before: DDManager, after: DDManager, f: int, unlimited: bool) -> bool {
    exists|states: Seq<DDManager>| #[trigger] sweep_states_below_root(states, before, after, f, unlimited)
}

/// The number of slots of `nodes` that hold a node.
pub open spec fn held_nodes(nodes: Seq<Option<crate::bdd_node::DDNode>>) -> nat
    decreases nodes.len(),
{
    if nodes.len() == 0 {
        0
    } else {
        held_nodes(nodes.drop_last()) + if nodes.last() is Some { 1nat } else { 0nat }
    }
}

impl DDManager {
    /// The number of nodes the manager holds, terminals included.
    pub fn node_total(&self) -> (r: usize)
        ensures
            r == held_nodes(self.nodes@),
    {
        let mut count: usize = 0;
        let mut i: usize = 0;
        while i < self.nodes.len()
            invariant
                i <= self.nodes@.len(),
                count == held_nodes(self.nodes@.subrange(0, i as int)),
                count <= i,
            decreases self.nodes@.len() - i,
        {
            proof {
                assert(self.nodes@.subrange(0, i + 1).drop_last() =~= self.nodes@.subrange(0, i as int));
            }
            if self.nodes[i].is_some() {
                count = count + 1;
            }
            i = i + 1;
        }
        proof {
            assert(self.nodes@.subrange(0, i as int) =~= self.nodes@);
        }
        count
    }
}

/// How deeply schedules are nested inside each other.
pub open spec fn schedule_depth(s: DVOScheduleEnum) -> nat
    decreases s,
{
    match s {
        DVOScheduleEnum::AtThreshold(t) => 1 + schedule_depth(*t.underlying_schedule),
        DVOScheduleEnum::SiftingAtThreshold(t) => 2 + schedule_depth(*t.underlying.underlying_schedule),
        DVOScheduleEnum::TimeSizeLimit(t) => 1 + schedule_depth(*t.underlying_schedule),
        _ => 0,
    }
}

/// What sifting every variable below the root of `f` (but the last) once leaves: the root
/// node and its level are kept, nothing changes where every variable is passed over, and
/// where the growth is not limited the last variable sifted ends on a best level below the
/// root.
pub open spec fn sifted_once(before: DDManager, after: DDManager, f: NodeID, unlimited: bool) -> bool {
    &&& after.node(f.0 as int) == before.node(f.0 as int)
    &&& after.level(f.0 as int) == before.level(f.0 as int)
    &&& unlimited ==> after.settled_below_root(f.0 as int)
    &&& (forall|w: int| 0 < w < before.var2level@.len() - 1 ==> #[trigger] before.passed_over(f.0 as int, w)) ==> after == before
    &&& swept_below_root(before, after, f.0 as int, unlimited)
}

/// What sifting all variables below the root of `f` again and again, without a limit on
/// growth, until the diagram keeps its size leaves: the root node and its level are kept,
/// nothing changes where every variable is passed over, and the last variable sifted ends on
/// a best level below the root.
pub open spec fn sifted_to_convergence(before: DDManager, after: DDManager, f: NodeID) -> bool {
    &&& after.node(f.0 as int) == before.node(f.0 as int)
    &&& after.level(f.0 as int) == before.level(f.0 as int)
    &&& after.settled_below_root(f.0 as int)
    &&& (forall|w: int| 0 < w < before.var2level@.len() - 1 ==> #[trigger] before.passed_over(f.0 as int, w)) ==> after == before
    &&& exists|rounds: Seq<DDManager>| #[trigger] converging_rounds(rounds, before, after, f)
}

/// The managers `rounds[0] == before`, ..., `after` that rounds of sifting pass through: each
/// round sifts every variable below the root of `f` once without a limit on growth, every round
/// but the last changes the size of the diagram of `f`, and the last keeps it.
pub open spec fn converging_rounds(rounds: Seq<DDManager>, before: DDManager, after: DDManager, f: NodeID) -> bool {
    &&& rounds.len() >= 2
    &&& rounds[0] == before
    &&& rounds.last() == after
    &&& forall|i: int| 0 <= i < rounds.len() - 1 ==> sifted_once(#[trigger] rounds[i], rounds[i + 1], f, true)
    &&& forall|i: int| 0 <= i < rounds.len() - 2
        ==> (#[trigger] rounds[i + 1]).diagram_size(f.0 as int) != rounds[i].diagram_size(f.0 as int)
    &&& after.diagram_size(f.0 as int) == rounds[rounds.len() - 2].diagram_size(f.0 as int)
}

/// What running schedule `s` on the diagram of `f` does to the manager: nothing for no
/// schedule; the sifting that the schedule asks for; for a threshold, nothing up to it and
/// the underlying schedule above it; for a time and size limit, either nothing or the
/// underlying schedule, and the latter where the manager holds more nodes than the limit.
pub open spec fn schedule_effect(s: DVOScheduleEnum, before: DDManager, after: DDManager, f: NodeID) -> bool
    decreases s,
{
    match s {
        DVOScheduleEnum::NoDVOSchedule(_) => after == before,
        DVOScheduleEnum::AlwaysUntilConvergence(_) => sifted_to_convergence(before, after, f),
        DVOScheduleEnum::AlwaysOnce(t) => sifted_once(before, after, f, t.max_increase is None),
        DVOScheduleEnum::AtThreshold(t) => if before.diagram_size(f.0 as int) <= t.active_nodes_threshold {
            after == before
        } else {
            schedule_effect(*t.underlying_schedule, before, after, f)
        },
        DVOScheduleEnum::SiftingAtThreshold(t) => if before.diagram_size(f.0 as int) <= t.underlying.active_nodes_threshold {
            after == before
        } else {
            schedule_effect(*t.underlying.underlying_schedule, before, after, f)
        },
        DVOScheduleEnum::TimeSizeLimit(t) => {
            &&& after == before || schedule_effect(*t.underlying_schedule, before, after, f)
            &&& held_nodes(before.nodes@) > t.limit ==> schedule_effect(*t.underlying_schedule, before, after, f)
        },
    }
}

/// What every schedule keeps: the manager stays well-formed, the returned node is live and has
/// the function of `f`, the number of variables stays, and the diagram grows no larger.
pub open spec fn dvo_kept(before: DDManager, after: DDManager, f: NodeID, r: NodeID) -> bool {
    &&& after.wf()
    &&& after.live(r.0 as int)
    &&& forall|x: Assignment| #[trigger] after.sem(r.0 as int, x) == before.sem(f.0 as int, x)
    &&& after.var2level@.len() == before.var2level@.len()
    &&& after.diagram_size(r.0 as int) <= before.diagram_size(f.0 as int)
}

impl NoDVOSchedule {
    /// Does nothing.
    pub fn run_dvo(&mut self, num_clause: usize, man: &mut DDManager, f: NodeID) -> (r: NodeID)
        ensures
            r == f,
            *final(man) == *old(man),
    {
        f
    }
}

impl AlwaysUntilConvergence {
    /// Sifts all variables again and again until the diagram of `f` no longer changes in size.
    pub fn run_dvo(&mut self, num_clause: usize, man: &mut DDManager, f: NodeID) -> (r: NodeID)
        requires
            old(man).wf(),
            old(man).live(f.0 as int),
        ensures
            r == f,
            dvo_kept(*old(man), *final(man), f, r),
            sifted_to_convergence(*old(man), *final(man), f),
    {
        let ghost m0 = *man;
        let mut root = f;
        let mut last_size = man.count_active(root);
        let mut done = false;
        let ghost mut rounds: Seq<DDManager> = seq![*man];
        while !done
            invariant
                rounds.len() >= 1,
                rounds[0] == m0,
                rounds.last() == *man,
                forall|i: int| 0 <= i < rounds.len() - 1 ==> sifted_once(#[trigger] rounds[i], rounds[i + 1], f, true),
                forall|i: int| 0 <= i < rounds.len() - 2
                    ==> (#[trigger] rounds[i + 1]).diagram_size(f.0 as int) != rounds[i].diagram_size(f.0 as int),
                !done && rounds.len() >= 2 ==> man.diagram_size(f.0 as int) != rounds[rounds.len() - 2].diagram_size(f.0 as int),
                done ==> rounds.len() >= 2 && man.diagram_size(f.0 as int) == rounds[rounds.len() - 2].diagram_size(f.0 as int),
                dvo_kept(m0, *man, f, root),
                root == f,
                man.live(root.0 as int),
                last_size == man.diagram_size(root.0 as int),
                man.node(f.0 as int) == m0.node(f.0 as int),
                man.level(f.0 as int) == m0.level(f.0 as int),
                done ==> man.settled_below_root(f.0 as int),
                (forall|w: int| 0 < w < m0.var2level@.len() - 1 ==> #[trigger] m0.passed_over(f.0 as int, w)) ==> *man == m0,
            decreases last_size, (if done { 0int } else { 1int }),
        {
            let ghost before = *man;
            root = man.sift_all_vars_limited(root, None);
            let new_size = man.count_active(root);
            if new_size == last_size {
                done = true;
            }
            last_size = new_size;
            proof {
                let ghost prev = rounds;
                rounds = rounds.push(*man);
                assert forall|i: int| 0 <= i < rounds.len() - 1 implies sifted_once(#[trigger] rounds[i], rounds[i + 1], f, true) by {
                    if i < prev.len() - 1 {
                        assert(rounds[i] == prev[i] && rounds[i + 1] == prev[i + 1]);
                    }
                }
                assert forall|i: int| 0 <= i < rounds.len() - 2
                    implies (#[trigger] rounds[i + 1]).diagram_size(f.0 as int) != rounds[i].diagram_size(f.0 as int) by {
                    assert(rounds[i] == prev[i]);
                    assert(rounds[i + 1] == prev[i + 1]);
                }
            }
        }
        proof {
            assert(converging_rounds(rounds, m0, *man, f));
        }
        root
    }
}

impl AlwaysOnce {
    /// Sifts all variables once.
    pub fn run_dvo(&mut self, num_clause: usize, man: &mut DDManager, f: NodeID) -> (r: NodeID)
        requires
            old(man).wf(),
            old(man).live(f.0 as int),
        ensures
            r == f,
            dvo_kept(*old(man), *final(man), f, r),
            sifted_once(*old(man), *final(man), f, old(self).max_increase is None),
    {
        let max_increase = match self.max_increase {
            Some(m) => Some(m as usize),
            None => None,
        };
        man.sift_all_vars_limited(f, max_increase)
    }
}

impl AtThreshold {
    /// Runs the underlying schedule where the diagram of `f` has more nodes than the threshold.
    pub fn run_dvo(&mut self, num_clause: usize, man: &mut DDManager, f: NodeID) -> (r: NodeID)
        requires
            old(man).wf(),
            old(man).live(f.0 as int),
        ensures
            r == f,
            dvo_kept(*old(man), *final(man), f, r),
            old(man).diagram_size(f.0 as int) <= old(self).active_nodes_threshold ==> r == f && *final(man) == *old(man),
            old(man).diagram_size(f.0 as int) > old(self).active_nodes_threshold
                ==> schedule_effect(*old(self).underlying_schedule, *old(man), *final(man), f),
        decreases 1 + schedule_depth(*old(self).underlying_schedule), 0int,
    {
        if man.count_active(f) <= self.active_nodes_threshold as usize {
            f
        } else {
            self.underlying_schedule.run_dvo(num_clause, man, f)
        }
    }
}

impl SiftingAtThreshold {
    /// Sifts until convergence where the diagram of `f` has more nodes than the threshold.
    pub fn run_dvo(&mut self, num_clause: usize, man: &mut DDManager, f: NodeID) -> (r: NodeID)
        requires
            old(man).wf(),
            old(man).live(f.0 as int),
        ensures
            r == f,
            dvo_kept(*old(man), *final(man), f, r),
            old(man).diagram_size(f.0 as int) <= old(self).underlying.active_nodes_threshold ==> r == f && *final(man) == *old(man),
            old(man).diagram_size(f.0 as int) > old(self).underlying.active_nodes_threshold
                ==> schedule_effect(*old(self).underlying.underlying_schedule, *old(man), *final(man), f),
        decreases 2 + schedule_depth(*old(self).underlying.underlying_schedule), 0int,
    {
        self.underlying.run_dvo(num_clause, man, f)
    }
}

impl TimeSizeLimit {
    /// Runs the underlying schedule where more than the interval has passed since it last ran,
    /// or the manager holds more nodes than the limit.
    pub fn run_dvo(&mut self, num_clause: usize, man: &mut DDManager, f: NodeID) -> (r: NodeID)
        requires
            old(man).wf(),
            old(man).live(f.0 as int),
        ensures
            r == f,
            dvo_kept(*old(man), *final(man), f, r),
            *final(man) == *old(man) || schedule_effect(*old(self).underlying_schedule, *old(man), *final(man), f),
            held_nodes(old(man).nodes@) > old(self).limit ==> schedule_effect(*old(self).underlying_schedule, *old(man), *final(man), f),
        decreases 1 + schedule_depth(*old(self).underlying_schedule), 0int,
    {
        let passed = elapsed(&self.last_dvo);
        let interval_passed = longer(&passed, &self.interval);
        let (r, ran) = self.run_dvo_when(interval_passed, num_clause, man, f);
        if ran {
            self.last_dvo = now();
        }
        r
    }

    /// The decision of `run_dvo` once the clock was read: runs the underlying schedule where
    /// `interval_passed` (more than the interval has passed since it last ran) or the manager
    /// holds more nodes than the limit, and says whether it ran; else nothing changes.
    pub fn run_dvo_when(&mut self, interval_passed: bool, num_clause: usize, man: &mut DDManager, f: NodeID) -> (r: (NodeID, bool))
        requires
            old(man).wf(),
            old(man).live(f.0 as int),
        ensures
            r.0 == f,
            r.1 == (interval_passed || held_nodes(old(man).nodes@) > old(self).limit),
            dvo_kept(*old(man), *final(man), f, r.0),
            r.1 ==> schedule_effect(*old(self).underlying_schedule, *old(man), *final(man), f),
            !r.1 ==> *final(man) == *old(man),
            final(self).limit == old(self).limit,
            final(self).interval == old(self).interval,
        decreases schedule_depth(*old(self).underlying_schedule), 2int,
    {
        if interval_passed || man.node_total() > self.limit {
            let r = self.underlying_schedule.run_dvo(num_clause, man, f);
            (r, true)
        } else {
            (f, false)
        }
    }
}

impl DVOScheduleEnum {
    /// Runs the schedule after `num_clause` clauses were added: may reorder the manager, and
    /// returns the node that now stands for the function of `f`.
    pub fn run_dvo(&mut self, num_clause: usize, man: &mut DDManager, f: NodeID) -> (r: NodeID)
        requires
            old(man).wf(),
            old(man).live(f.0 as int),
        ensures
            r == f,
            dvo_kept(*old(man), *final(man), f, r),
            *old(self) is NoDVOSchedule ==> r == f && *final(man) == *old(man) && *final(self) is NoDVOSchedule,
            schedule_effect(*old(self), *old(man), *final(man), f),
        decreases schedule_depth(*old(self)), 1int,
    {
        match self {
            DVOScheduleEnum::NoDVOSchedule(s) => s.run_dvo(num_clause, man, f),
            DVOScheduleEnum::AlwaysUntilConvergence(s) => s.run_dvo(num_clause, man, f),
            DVOScheduleEnum::AtThreshold(s) => s.run_dvo(num_clause, man, f),
            DVOScheduleEnum::SiftingAtThreshold(s) => s.run_dvo(num_clause, man, f),
            DVOScheduleEnum::TimeSizeLimit(s) => s.run_dvo(num_clause, man, f),
            DVOScheduleEnum::AlwaysOnce(s) => s.run_dvo(num_clause, man, f),
        }
    }
}
impl RegularSifting {
    /// Sifts all variables once, by measured swaps (see `sift_all_vars_limited`).
    pub fn run_dvo(&self, manager: &mut DDManager, f: NodeID, max_increase: Option<usize>) -> (r: NodeID)
        requires
            old(manager).wf(),
            old(manager).live(f.0 as int),
        ensures
            r == f,
            dvo_kept(*old(manager), *final(manager), f, r),
            sifted_once(*old(manager), *final(manager), f, max_increase is None),
    {
        manager.sift_all_vars_limited(f, max_increase)
    }
}

} // verus!
