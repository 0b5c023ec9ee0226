//! The BDD manager: node table, unique tables, variable ordering and computed tables.
use vstd::prelude::*;
use std::collections::HashMap;
use crate::bdd_node::{DDNode, NodeID, VarID, spec_zero, spec_one, zero_node, one_node};
use crate::semantics::{
    Assignment, live_in, node_in, level_in, ordered, eval, extends, lemma_eval_extends_all,
    lemma_eval_levels,
};

verus! {

broadcast use vstd::std_specs::hash::group_hash_axioms;

/// Largest node ID (exclusive) for which ITE and apply results are cached.
pub open spec fn cache_limit() -> int {
    0x400_0000_0000
}

/// Key of the unique tables: a pair of node IDs packed into one number.
pub open spec fn key2(a: usize, b: usize) -> u128 {
    (a * 0x1_0000_0000_0000_0000 + b) as u128
}

/// Key of the computed tables: three numbers below `cache_limit()` packed into one.
pub open spec fn key3(a: usize, b: usize, c: usize) -> u128 {
    (a * 0x10_0000_0000_0000_0000_0000 + b * 0x400_0000_0000 + c) as u128
}

/// `a * k + b` determines `a` and `b` when `b` lies below `k`.
pub proof fn lemma_mul_add_injective(k: int, a: int, b: int, c: int, d: int)
    by (nonlinear_arith)
    requires
        k > 0,
        0 <= a,
        0 <= c,
        0 <= b < k,
        0 <= d < k,
        a * k + b == c * k + d,
    ensures
        a == c,
        b == d,
{
}

/// Distinct pairs of node IDs have distinct unique-table keys.
pub proof fn lemma_key2_injective(a: usize, b: usize, c: usize, d: usize)
    requires
        key2(a, b) == key2(c, d),
    ensures
        a == c,
        b == d,
{
    assert(b < 0x1_0000_0000_0000_0000 && d < 0x1_0000_0000_0000_0000);
    assert(a * 0x1_0000_0000_0000_0000 + b < 0x1_0000_0000_0000_0000_0000_0000_0000_0000)
        by (nonlinear_arith)
        requires
            a < 0x1_0000_0000_0000_0000,
            b < 0x1_0000_0000_0000_0000,
    ;
    assert(c * 0x1_0000_0000_0000_0000 + d < 0x1_0000_0000_0000_0000_0000_0000_0000_0000)
        by (nonlinear_arith)
        requires
            c < 0x1_0000_0000_0000_0000,
            d < 0x1_0000_0000_0000_0000,
    ;
    lemma_mul_add_injective(0x1_0000_0000_0000_0000, a as int, b as int, c as int, d as int);
}

/// Distinct triples below `cache_limit()` have distinct computed-table keys.
pub proof fn lemma_key3_injective(a: usize, b: usize, c: usize, d: usize, e: usize, f: usize)
    requires
        a < cache_limit(),
        b < cache_limit(),
        c < cache_limit(),
        d < cache_limit(),
        e < cache_limit(),
        f < cache_limit(),
        key3(a, b, c) == key3(d, e, f),
    ensures
        a == d,
        b == e,
        c == f,
{
    let k: int = 0x400_0000_0000;
    assert(b * k + c < k * k) by (nonlinear_arith)
        requires
            b < k,
            c < k,
            k == 0x400_0000_0000,
    ;
    assert(e * k + f < k * k) by (nonlinear_arith)
        requires
            e < k,
            f < k,
            k == 0x400_0000_0000,
    ;
    assert(a * (k * k) + (b * k + c) < 0x1_0000_0000_0000_0000_0000_0000_0000_0000)
        by (nonlinear_arith)
        requires
            a < k,
            b * k + c < k * k,
            k == 0x400_0000_0000,
    ;
    assert(d * (k * k) + (e * k + f) < 0x1_0000_0000_0000_0000_0000_0000_0000_0000)
        by (nonlinear_arith)
        requires
            d < k,
            e * k + f < k * k,
            k == 0x400_0000_0000,
    ;
    assert(k * k == 0x10_0000_0000_0000_0000_0000);
    lemma_mul_add_injective(k * k, a as int, b * k + c, d as int, e * k + f);
    lemma_mul_add_injective(k, b as int, c as int, e as int, f as int);
}

/// The unique-table key of a pair of node IDs.
pub fn pair_key(a: usize, b: usize) -> (k: u128)
    ensures
        k == key2(a, b),
{
    assert((a as u128) * 0x1_0000_0000_0000_0000u128 + (b as u128) <= u128::MAX) by (nonlinear_arith)
        requires
            a < 0x1_0000_0000_0000_0000,
            b < 0x1_0000_0000_0000_0000,
    ;
    (a as u128) * 0x1_0000_0000_0000_0000u128 + (b as u128)
}

/// The computed-table key of a triple below `cache_limit()`.
pub fn triple_key(a: usize, b: usize, c: usize) -> (k: u128)
    requires
        a < cache_limit(),
        b < cache_limit(),
        c < cache_limit(),
    ensures
        k == key3(a, b, c),
{
    assert((a as u128) * 0x10_0000_0000_0000_0000_0000u128 + (b as u128) * 0x400_0000_0000u128
        + (c as u128) <= u128::MAX) by (nonlinear_arith)
        requires
            a < 0x400_0000_0000,
            b < 0x400_0000_0000,
            c < 0x400_0000_0000,
    ;
    (a as u128) * 0x10_0000_0000_0000_0000_0000u128 + (b as u128) * 0x400_0000_0000u128 + (c as u128)
}

/// Whether a node ID is small enough for its results to be cached.
pub fn cacheable(a: usize) -> (r: bool)
    ensures
        r == (a < cache_limit()),
{
    (a as u64) < 0x400_0000_0000u64
}

/// Container combining the node table, unique tables, information about the current
/// variable ordering and the computed tables.
pub struct DDManager {
    /// Node table: slot `i` holds the node with ID `i`, or nothing once that node was removed.
    pub nodes: Vec<Option<DDNode>>,
    /// Variable ordering: var2level[v] is the depth of variable v in the tree.
    pub var2level: Vec<usize>,
    /// Unique table for each variable: maps the children (low, high) to the node.
    pub var2nodes: Vec<HashMap<u128, usize>>,
    /// Computed table for ITE: maps (f, g, h) to ite(f, g, h).
    pub ite_c_table: HashMap<u128, (usize, usize, usize, usize)>,
    /// Computed table for apply: maps (operation, u, v) to apply(operation, u, v).
    pub apply_c_table: HashMap<u128, (usize, usize, usize, usize)>,
    /// Slots of the node table that hold nothing and can take a new node.
    pub free_slots: Vec<usize>,
}

/// The smallest of three numbers.
pub open spec fn min3(a: int, b: int, c: int) -> int {
    if a <= b && a <= c {
        a
    } else if b <= c {
        b
    } else {
        c
    }
}

/// The function computed by an apply operation, by its number (0: and, 1: or, 2: xor).
pub open spec fn op_value(op: usize, x: bool, y: bool) -> bool {
    if op == 0 {
        x && y
    } else if op == 1 {
        x || y
    } else {
        x != y
    }
}

impl DDManager {
    pub open spec fn live(&self, id: int) -> bool {
        live_in(self.nodes@, id)
    }

    pub open spec fn node(&self, id: int) -> DDNode {
        node_in(self.nodes@, id)
    }

    pub open spec fn level(&self, id: int) -> int {
        level_in(self.nodes@, self.var2level@, id)
    }

    /// The value of the function of node `id` under assignment `a`.
    pub open spec fn sem(&self, id: int, a: Assignment) -> bool {
        eval(self.nodes@, self.var2level@, id, a)
    }

    /// The depth of the terminal nodes: one more than the number of variables.
    pub open spec fn terminal_level(&self) -> int {
        self.var2level@[0] as int
    }

    pub open spec fn levels_wf(&self) -> bool {
        let v2l = self.var2level@;
        &&& v2l.len() >= 1
        &&& v2l[0] == v2l.len()
        &&& forall|v: int| 0 <= v < v2l.len() ==> 1 <= #[trigger] v2l[v] <= v2l[0]
        &&& forall|v: int, w: int|
            0 <= v < v2l.len() && 0 <= w < v2l.len() && v != w ==> #[trigger] v2l[v] != #[trigger] v2l[w]
    }

    pub open spec fn terminals_wf(&self) -> bool {
        &&& self.nodes@.len() >= 2
        &&& self.nodes@[0] == Some(spec_zero())
        &&& self.nodes@[1] == Some(spec_one())
    }

    /// Every inner node knows its own ID, is reduced, and is listed in its unique table.
    pub open spec fn inner_wf(&self) -> bool {
        forall|i: int|
            #![trigger self.live(i)]
            2 <= i && self.live(i) ==> {
                let n = self.node(i);
                &&& n.id.0 == i
                &&& n.var.0 != 0
                &&& n.low != n.high
                &&& n.var.0 < self.var2nodes@.len()
                &&& self.var2nodes@[n.var.0 as int]@.contains_key(key2(n.low.0, n.high.0))
                &&& self.var2nodes@[n.var.0 as int]@[key2(n.low.0, n.high.0)] == i
            }
    }

    /// Every entry of a unique table names a live inner node with that variable and children.
    pub open spec fn unique_wf(&self) -> bool {
        forall|v: int, k: u128|
            0 <= v < self.var2nodes@.len() && #[trigger] self.var2nodes@[v]@.contains_key(k) ==> {
                let i = self.var2nodes@[v]@[k] as int;
                &&& self.live(i)
                &&& i >= 2
                &&& self.node(i).var.0 == v
                &&& key2(self.node(i).low.0, self.node(i).high.0) == k
            }
    }

    /// An ITE cache entry (f, g, h, r): r computes if f then g else h.
    pub open spec fn ite_entry_ok(&self, e: (usize, usize, usize, usize)) -> bool {
        &&& self.live(e.0 as int)
        &&& self.live(e.1 as int)
        &&& self.live(e.2 as int)
        &&& self.live(e.3 as int)
        &&& self.level(e.3 as int) >= min3(self.level(e.0 as int), self.level(e.1 as int), self.level(e.2 as int))
        &&& forall|a: Assignment|
            #[trigger] self.sem(e.3 as int, a) == if self.sem(e.0 as int, a) {
                self.sem(e.1 as int, a)
            } else {
                self.sem(e.2 as int, a)
            }
    }

    pub open spec fn ite_cache_wf(&self) -> bool {
        forall|k: u128|
            #[trigger] self.ite_c_table@.contains_key(k) ==> {
                let e = self.ite_c_table@[k];
                &&& e.0 < cache_limit() && e.1 < cache_limit() && e.2 < cache_limit()
                &&& k == key3(e.0, e.1, e.2)
                &&& self.ite_entry_ok(e)
            }
    }

    /// An apply cache entry (op, u, v, r): r computes op applied to u and v.
    pub open spec fn apply_entry_ok(&self, e: (usize, usize, usize, usize)) -> bool {
        &&& e.0 < 3
        &&& self.live(e.1 as int)
        &&& self.live(e.2 as int)
        &&& self.live(e.3 as int)
        &&& self.level(e.3 as int) >= min3(self.level(e.1 as int), self.level(e.2 as int), self.level(e.2 as int))
        &&& forall|a: Assignment|
            #[trigger] self.sem(e.3 as int, a) == op_value(
                e.0,
                self.sem(e.1 as int, a),
                self.sem(e.2 as int, a),
            )
    }

    pub open spec fn apply_cache_wf(&self) -> bool {
        forall|k: u128|
            #[trigger] self.apply_c_table@.contains_key(k) ==> {
                let e = self.apply_c_table@[k];
                &&& e.1 < cache_limit() && e.2 < cache_limit()
                &&& k == key3(e.0, e.1, e.2)
                &&& self.apply_entry_ok(e)
            }
    }

    pub open spec fn free_wf(&self) -> bool {
        &&& self.free_slots@.no_duplicates()
        &&& forall|k: int|
            0 <= k < self.free_slots@.len() ==> {
                let s = #[trigger] self.free_slots@[k];
                &&& 2 <= s < self.nodes@.len()
                &&& self.nodes@[s as int] is None
            }
    }

    /// Well-formedness of the manager.
    #[verifier::opaque]
    pub open spec fn wf(&self) -> bool {
        &&& ordered(self.nodes@, self.var2level@)
        &&& self.terminals_wf()
        &&& self.levels_wf()
        &&& self.var2nodes@.len() == self.var2level@.len()
        &&& self.inner_wf()
        &&& self.unique_wf()
        &&& self.ite_cache_wf()
        &&& self.apply_cache_wf()
        &&& self.free_wf()
    }

    /// `self` holds every node of `old` unchanged, each with the function it had, and
    /// knows at least the variables `old` knew, at the same levels.
    pub open spec fn keeps(&self, old: &DDManager) -> bool {
        &&& extends(old.nodes@, self.nodes@)
        &&& old.var2level@.len() <= self.var2level@.len()
        &&& forall|v: int| 1 <= v < old.var2level@.len() ==> #[trigger] self.var2level@[v] == old.var2level@[v]
        &&& forall|id: int, a: Assignment|
            #![trigger self.sem(id, a)]
            old.live(id) ==> self.live(id) && self.sem(id, a) == old.sem(id, a)
    }
}

/// All nodes live in `old` keep their function once the level table changes but stays valid.
pub proof fn lemma_eval_levels_all(nodes: Seq<Option<DDNode>>, v1: Seq<usize>, v2: Seq<usize>)
    requires
        ordered(nodes, v1),
        ordered(nodes, v2),
    ensures
        forall|id: int, a: Assignment|
            #![trigger eval(nodes, v2, id, a)]
            live_in(nodes, id) ==> eval(nodes, v2, id, a) == eval(nodes, v1, id, a),
{
    assert forall|id: int, a: Assignment|
        #![trigger eval(nodes, v2, id, a)]
        live_in(nodes, id) implies eval(nodes, v2, id, a) == eval(nodes, v1, id, a) by {
        lemma_eval_levels(nodes, v1, v2, id, a);
    }
}

impl DDManager {
    /// Creates a manager holding only the two terminal nodes.
    pub fn new() -> (r: DDManager)
        ensures
            r.wf(),
            r.nodes@.len() == 2,
            r.var2level@ == seq![1usize],
    {
        proof { reveal(DDManager::wf); }
        let mut man = DDManager {
            nodes: Vec::new(),
            var2level: Vec::new(),
            var2nodes: Vec::new(),
            ite_c_table: HashMap::new(),
            apply_c_table: HashMap::new(),
            free_slots: Vec::new(),
        };
        man.bootstrap();
        man
    }

    /// Initialize the BDD with zero and one constant nodes.
    fn bootstrap(&mut self)
        requires
            old(self).nodes@.len() == 0,
            old(self).var2level@.len() == 0,
            old(self).var2nodes@.len() == 0,
            old(self).free_slots@.len() == 0,
            old(self).ite_c_table@ == Map::<u128, (usize, usize, usize, usize)>::empty(),
            old(self).apply_c_table@ == Map::<u128, (usize, usize, usize, usize)>::empty(),
        ensures
            final(self).wf(),
            final(self).nodes@.len() == 2,
            final(self).var2level@ == seq![1usize],
    {
        proof { reveal(DDManager::wf); }
        self.nodes.push(Some(zero_node()));
        self.nodes.push(Some(one_node()));
        self.var2level.push(1);
        self.var2nodes.push(HashMap::new());
        assert(self.var2level@[0] == 1);
        assert forall|i: int| #![trigger live_in(self.nodes@, i)] live_in(self.nodes@, i) implies
            i == 0 || i == 1 by {}
    }

    /// Ensure the level table covers the specified variable: unknown variables get new levels
    /// just above the terminal level, in the order of their numbers.
    pub fn ensure_order(&mut self, target: VarID)
        requires
            old(self).wf(),
            target.0 < usize::MAX,
        ensures
            final(self).wf(),
            final(self).keeps(old(self)),
            final(self).nodes@ == old(self).nodes@,
            final(self).var2level@.len() == if target.0 < old(self).var2level@.len() {
                old(self).var2level@.len() as int
            } else {
                target.0 + 1
            },
            forall|v: int|
                old(self).var2level@.len() <= v < final(self).var2level@.len() ==> #[trigger] final(self).var2level@[v] == v,
    {
        proof { reveal(DDManager::wf); }
        let old_size = self.var2level.len();
        if target.0 < old_size {
            return;
        }
        let ghost old_v2l = self.var2level@;
        let ghost old_v2n = self.var2nodes@;
        let mut y: usize = old_size;
        while y <= target.0
            invariant
                old_size == old_v2l.len(),
                old_size <= y <= target.0 + 1,
                target.0 < usize::MAX,
                self.var2level@.len() == y,
                self.var2nodes@.len() == y,
                forall|x: int| 0 <= x < old_size ==> #[trigger] self.var2level@[x] == old_v2l[x],
                forall|x: int| old_size <= x < y ==> #[trigger] self.var2level@[x] == x,
                forall|x: int| 0 <= x < old_size ==> #[trigger] self.var2nodes@[x] == old_v2n[x],
                forall|x: int| old_size <= x < y ==> (#[trigger] self.var2nodes@[x])@ == Map::<u128, usize>::empty(),
                self.nodes@ == old(self).nodes@,
                self.ite_c_table@ == old(self).ite_c_table@,
                self.apply_c_table@ == old(self).apply_c_table@,
                self.free_slots@ == old(self).free_slots@,
            decreases target.0 + 1 - y,
        {
            self.var2level.push(y);
            self.var2nodes.push(HashMap::new());
            y = y + 1;
        }
        // The terminal nodes (variable 0) at the very bottom of the tree
        self.var2level.set(0, y);
        let ghost v2l = self.var2level@;
        let ghost nodes = self.nodes@;
        assert(old(self).levels_wf());
        assert forall|v: int, w: int|
            0 <= v < v2l.len() && 0 <= w < v2l.len() && v != w implies #[trigger] v2l[v] != #[trigger] v2l[w] by {
            if v != 0 && v < old_size {
                assert(old_v2l[v] != old_v2l[0]);
            }
            if w != 0 && w < old_size {
                assert(old_v2l[w] != old_v2l[0]);
            }
        }
        assert forall|v: int| 0 <= v < v2l.len() implies 1 <= #[trigger] v2l[v] <= v2l[0] by {
            if v < old_size {
                assert(1 <= old_v2l[v] <= old_v2l[0]);
            }
        }
        assert forall|i: int| #![trigger live_in(nodes, i)] live_in(nodes, i) implies {
            let n = node_in(nodes, i);
            &&& n.var.0 < v2l.len()
            &&& v2l[n.var.0 as int] <= v2l[0]
            &&& n.var.0 != 0 ==> {
                &&& live_in(nodes, n.low.0 as int)
                &&& live_in(nodes, n.high.0 as int)
                &&& level_in(nodes, v2l, n.low.0 as int) > v2l[n.var.0 as int]
                &&& level_in(nodes, v2l, n.high.0 as int) > v2l[n.var.0 as int]
            }
        } by {
            let n = node_in(nodes, i);
            assert(live_in(old(self).nodes@, i));
            if n.var.0 != 0 {
                assert(live_in(nodes, n.low.0 as int));
                assert(live_in(nodes, n.high.0 as int));
                let lo = node_in(nodes, n.low.0 as int);
                let hi = node_in(nodes, n.high.0 as int);
                assert(live_in(old(self).nodes@, n.low.0 as int));
                assert(live_in(old(self).nodes@, n.high.0 as int));
                assert(lo.var.0 < old_size);
                assert(hi.var.0 < old_size);
            }
        }
        assert(ordered(nodes, v2l));
        proof { lemma_eval_levels_all(nodes, old_v2l, v2l); }
        assert(self.inner_wf()) by {
            assert forall|i: int| #![trigger self.live(i)] 2 <= i && self.live(i) implies {
                let n = self.node(i);
                &&& n.id.0 == i
                &&& n.var.0 != 0
                &&& n.low != n.high
                &&& n.var.0 < self.var2nodes@.len()
                &&& self.var2nodes@[n.var.0 as int]@.contains_key(key2(n.low.0, n.high.0))
                &&& self.var2nodes@[n.var.0 as int]@[key2(n.low.0, n.high.0)] == i
            } by {
                assert(old(self).live(i));
            }
        }
        assert(self.unique_wf()) by {
            assert forall|v: int, k: u128|
                0 <= v < self.var2nodes@.len() && #[trigger] self.var2nodes@[v]@.contains_key(k) implies {
                    let i = self.var2nodes@[v]@[k] as int;
                    &&& self.live(i)
                    &&& i >= 2
                    &&& self.node(i).var.0 == v
                    &&& key2(self.node(i).low.0, self.node(i).high.0) == k
                } by {
                if v >= old_size {
                    assert(self.var2nodes@[v]@ == Map::<u128, usize>::empty());
                } else {
                    assert(old(self).var2nodes@[v]@.contains_key(k));
                }
            }
        }
        proof {
            lemma_keep_caches(old(self), self);
        }
    }
}

/// A result lying no higher than the highest of its arguments still does so once the table
/// grows or the terminal level moves down.
pub proof fn lemma_level_kept(old: &DDManager, new: &DDManager, f: int, g: int, h: int, r: int)
    requires
        old.wf(),
        ordered(new.nodes@, new.var2level@),
        extends(old.nodes@, new.nodes@),
        forall|v: int| 1 <= v < old.var2level@.len() ==> #[trigger] new.var2level@[v] == old.var2level@[v],
        old.live(f),
        old.live(g),
        old.live(h),
        old.live(r),
        old.level(r) >= min3(old.level(f), old.level(g), old.level(h)),
    ensures
        new.level(r) >= min3(new.level(f), new.level(g), new.level(h)),
{
    reveal(DDManager::wf);
    assert(old.nodes@[f] is Some && old.nodes@[g] is Some && old.nodes@[h] is Some && old.nodes@[r] is Some);
    assert(new.node(f) == old.node(f));
    assert(new.node(g) == old.node(g));
    assert(new.node(h) == old.node(h));
    assert(new.node(r) == old.node(r));
    assert(live_in(new.nodes@, r));
    assert(live_in(old.nodes@, f) && live_in(old.nodes@, g) && live_in(old.nodes@, h) && live_in(old.nodes@, r));
    assert(old.levels_wf());
    let rv = old.node(r).var.0 as int;
    if rv != 0 {
        assert(old.var2level@[rv] != old.var2level@[0]);
        let fv = old.node(f).var.0 as int;
        let gv = old.node(g).var.0 as int;
        let hv = old.node(h).var.0 as int;
        if fv == 0 { assert(old.level(f) == old.var2level@[0]); }
        if gv == 0 { assert(old.level(g) == old.var2level@[0]); }
        if hv == 0 { assert(old.level(h) == old.var2level@[0]); }
    } else {
        assert(live_in(new.nodes@, f) && live_in(new.nodes@, g) && live_in(new.nodes@, h));
    }
}

/// The computed tables stay valid when every node they mention keeps its function.
pub proof fn lemma_keep_caches(old: &DDManager, new: &DDManager)
    requires
        old.wf(),
        ordered(new.nodes@, new.var2level@),
        extends(old.nodes@, new.nodes@),
        forall|v: int| 1 <= v < old.var2level@.len() ==> #[trigger] new.var2level@[v] == old.var2level@[v],
        new.ite_c_table@ == old.ite_c_table@,
        new.apply_c_table@ == old.apply_c_table@,
        forall|id: int, a: Assignment|
            #![trigger new.sem(id, a)]
            old.live(id) ==> new.live(id) && new.sem(id, a) == old.sem(id, a),
    ensures
        new.ite_cache_wf(),
        new.apply_cache_wf(),
{
    reveal(DDManager::wf);
    assert forall|k: u128| #[trigger] new.ite_c_table@.contains_key(k) implies {
        let e = new.ite_c_table@[k];
        &&& e.0 < cache_limit() && e.1 < cache_limit() && e.2 < cache_limit()
        &&& k == key3(e.0, e.1, e.2)
        &&& new.ite_entry_ok(e)
    } by {
        let e = new.ite_c_table@[k];
        assert(old.ite_entry_ok(e));
        lemma_level_kept(old, new, e.0 as int, e.1 as int, e.2 as int, e.3 as int);
        let a0 = |x: usize| true;
        assert(new.sem(e.0 as int, a0) == old.sem(e.0 as int, a0));
        assert(new.sem(e.1 as int, a0) == old.sem(e.1 as int, a0));
        assert(new.sem(e.2 as int, a0) == old.sem(e.2 as int, a0));
        assert(new.sem(e.3 as int, a0) == old.sem(e.3 as int, a0));
        assert forall|a: Assignment| #[trigger] new.sem(e.3 as int, a) == if new.sem(e.0 as int, a) {
            new.sem(e.1 as int, a)
        } else {
            new.sem(e.2 as int, a)
        } by {
            assert(old.sem(e.3 as int, a) == if old.sem(e.0 as int, a) {
                old.sem(e.1 as int, a)
            } else {
                old.sem(e.2 as int, a)
            });
        }
    }
    assert forall|k: u128| #[trigger] new.apply_c_table@.contains_key(k) implies {
        let e = new.apply_c_table@[k];
        &&& e.1 < cache_limit() && e.2 < cache_limit()
        &&& k == key3(e.0, e.1, e.2)
        &&& new.apply_entry_ok(e)
    } by {
        let e = new.apply_c_table@[k];
        assert(old.apply_entry_ok(e));
        lemma_level_kept(old, new, e.1 as int, e.2 as int, e.2 as int, e.3 as int);
        let a0 = |x: usize| true;
        assert(new.sem(e.1 as int, a0) == old.sem(e.1 as int, a0));
        assert(new.sem(e.2 as int, a0) == old.sem(e.2 as int, a0));
        assert(new.sem(e.3 as int, a0) == old.sem(e.3 as int, a0));
        assert forall|a: Assignment| #[trigger] new.sem(e.3 as int, a) == op_value(
            e.0,
            new.sem(e.1 as int, a),
            new.sem(e.2 as int, a),
        ) by {
            assert(old.sem(e.3 as int, a) == op_value(
                e.0,
                old.sem(e.1 as int, a),
                old.sem(e.2 as int, a),
            ));
        }
    }
}

impl DDManager {
    /// The terminals are live, lie at the terminal level, and stand for false and true.
    pub proof fn lemma_terminals(&self)
        requires
            self.wf(),
        ensures
            self.live(0),
            self.live(1),
            self.level(0) == self.terminal_level(),
            self.level(1) == self.terminal_level(),
            self.node(0) == spec_zero(),
            self.node(1) == spec_one(),
            forall|a: Assignment| !(#[trigger] self.sem(0, a)),
            forall|a: Assignment| #[trigger] self.sem(1, a),
    {
        reveal(DDManager::wf);
        assert(live_in(self.nodes@, 0) && live_in(self.nodes@, 1));
    }

    /// What well-formedness says of one inner node.
    pub proof fn lemma_inner(&self, x: int)
        requires
            self.wf(),
            self.live(x),
            x >= 2,
        ensures
            self.node(x).id.0 == x,
            1 <= self.node(x).var.0 < self.var2level@.len(),
            self.node(x).low != self.node(x).high,
            self.live(self.node(x).low.0 as int),
            self.live(self.node(x).high.0 as int),
            self.level(self.node(x).low.0 as int) > self.level(x),
            self.level(self.node(x).high.0 as int) > self.level(x),
            self.level(x) < self.terminal_level(),
            self.level(x) == self.var2level@[self.node(x).var.0 as int],
            forall|a: Assignment| #[trigger] self.sem(x, a) == if a(self.node(x).var.0) {
                self.sem(self.node(x).high.0 as int, a)
            } else {
                self.sem(self.node(x).low.0 as int, a)
            },
    {
        reveal(DDManager::wf);
        assert(live_in(self.nodes@, x));
        assert(self.var2level@[self.node(x).var.0 as int] != self.var2level@[0]);
    }

    /// The node table of a well-formed manager is ordered.
    pub proof fn lemma_ordered(&self)
        requires
            self.wf(),
        ensures
            ordered(self.nodes@, self.var2level@),
    {
        reveal(DDManager::wf);
    }

    /// An inner node is listed in the unique table of its variable under the key of its children.
    pub proof fn lemma_inner_unique(&self, x: int)
        requires
            self.wf(),
            self.live(x),
            x >= 2,
        ensures
            self.node(x).var.0 < self.var2nodes@.len(),
            self.var2nodes@[self.node(x).var.0 as int]@.contains_key(key2(self.node(x).low.0, self.node(x).high.0)),
            self.var2nodes@[self.node(x).var.0 as int]@[key2(self.node(x).low.0, self.node(x).high.0)] == x,
    {
        reveal(DDManager::wf);
    }

    /// The free slots of a well-formed manager are distinct empty slots.
    pub proof fn lemma_free_wf(&self)
        requires
            self.wf(),
        ensures
            self.free_wf(),
    {
        reveal(DDManager::wf);
    }

    /// An entry of a unique table names a live inner node with that variable and children.
    pub proof fn lemma_unique_entry(&self, v: int, k: u128)
        requires
            self.wf(),
            0 <= v < self.var2nodes@.len(),
            self.var2nodes@[v]@.contains_key(k),
        ensures
            self.live(self.var2nodes@[v]@[k] as int),
            self.var2nodes@[v]@[k] >= 2,
            self.node(self.var2nodes@[v]@[k] as int).var.0 == v,
            key2(self.node(self.var2nodes@[v]@[k] as int).low.0, self.node(self.var2nodes@[v]@[k] as int).high.0) == k,
    {
        reveal(DDManager::wf);
    }

    /// Every live node lies at or above the terminal level, and a node at the terminal level
    /// is a terminal.
    pub proof fn lemma_level_bound(&self, x: int)
        requires
            self.wf(),
            self.live(x),
        ensures
            self.level(x) <= self.terminal_level(),
            self.level(x) == self.terminal_level() <==> x < 2,
            x < 2 ==> self.node(x).var.0 == 0,
            self.node(x).var.0 < self.var2level@.len(),
    {
        reveal(DDManager::wf);
        assert(live_in(self.nodes@, x));
        if x >= 2 {
            assert(self.var2level@[self.node(x).var.0 as int] != self.var2level@[0]);
        }
    }

    /// Evaluates the function of `f`, setting the variables in `trues` to 1 and all others to 0.
    pub fn verify(&self, f: NodeID, trues: &[usize]) -> (r: bool)
        requires
            self.wf(),
            self.live(f.0 as int),
            forall|i: int| 0 <= i < trues@.len() ==> #[trigger] trues@[i] <= self.var2level@.len(),
        ensures
            r == self.sem(f.0 as int, |v: usize| trues@.contains(v)),
    {
        let ghost a = |v: usize| trues@.contains(v);
        let n = self.var2level.len();
        let mut values: Vec<bool> = Vec::new();
        let mut i: usize = 0;
        while i < n
            invariant
                i <= n,
                values@.len() == i,
                forall|v: int| 0 <= v < i ==> !(#[trigger] values@[v]),
            decreases n - i,
        {
            values.push(false);
            i = i + 1;
        }
        let mut k: usize = 0;
        while k < trues.len()
            invariant
                k <= trues@.len(),
                values@.len() == n,
                forall|v: int| 0 <= v < n ==> (#[trigger] values@[v] <==> exists|j: int| 0 <= j < k && trues@[j] == v),
            decreases trues@.len() - k,
        {
            let x = trues[k];
            if x < n {
                values.set(x, true);
            }
            proof {
                assert forall|v: int| 0 <= v < n implies (#[trigger] values@[v] <==> exists|j: int| 0 <= j < k + 1 && trues@[j] == v) by {
                    if v == x {
                        assert(trues@[k as int] == v);
                    }
                }
            }
            k = k + 1;
        }
        proof {
            assert forall|v: int| 0 <= v < n implies (#[trigger] values@[v] == a(v as usize)) by {
                if values@[v] {
                    let j = choose|j: int| 0 <= j < trues@.len() && trues@[j] == v;
                    assert(trues@.contains(v as usize));
                } else {
                    if trues@.contains(v as usize) {
                        let j = choose|j: int| 0 <= j < trues@.len() && trues@[j] == v as usize;
                        assert(trues@[j] == v);
                    }
                }
            }
        }
        let mut node_id = f.0;
        while node_id >= 2
            invariant
                self.wf(),
                self.live(node_id as int),
                values@.len() == n,
                n == self.var2level@.len(),
                forall|v: int| 0 <= v < n ==> (#[trigger] values@[v] == a(v as usize)),
                self.sem(node_id as int, a) == self.sem(f.0 as int, a),
            decreases self.terminal_level() - self.level(node_id as int),
        {
            proof {
                self.lemma_inner(node_id as int);
                self.lemma_level_bound(self.node(node_id as int).low.0 as int);
                self.lemma_level_bound(self.node(node_id as int).high.0 as int);
            }
            let node = match self.nodes[node_id] {
                Some(nd) => nd,
                None => {
                    proof { assert(false); }
                    return false;
                },
            };
            if values[node.var.0] {
                node_id = node.high.0;
            } else {
                node_id = node.low.0;
            }
        }
        proof {
            self.lemma_terminals();
        }
        node_id == 1
    }

    /// Insert a new inner node. The unique table must not know a node with these children.
    fn add_node(&mut self, var: VarID, low: NodeID, high: NodeID) -> (r: NodeID)
        requires
            old(self).wf(),
            1 <= var.0 < old(self).var2level@.len(),
            old(self).live(low.0 as int),
            old(self).live(high.0 as int),
            low != high,
            old(self).level(low.0 as int) > old(self).var2level@[var.0 as int],
            old(self).level(high.0 as int) > old(self).var2level@[var.0 as int],
            !old(self).var2nodes@[var.0 as int]@.contains_key(key2(low.0, high.0)),
        ensures
            final(self).wf(),
            final(self).keeps(old(self)),
            final(self).var2level@ == old(self).var2level@,
            r.0 >= 2,
            final(self).live(r.0 as int),
            final(self).node(r.0 as int) == (DDNode { id: r, var, low, high }),
            forall|j: int| #[trigger] final(self).live(j) ==> old(self).live(j) || j == r.0,
    {
        proof { reveal(DDManager::wf); }
        let ghost old_nodes = self.nodes@;
        let id: usize = match self.free_slots.pop() {
            Some(s) => s,
            None => self.nodes.len(),
        };
        proof {
            if old(self).free_slots@.len() > 0 {
                assert(old(self).free_slots@[old(self).free_slots@.len() - 1] == id);
            }
        }
        let node = DDNode { id: NodeID(id), var, low, high };
        if id < self.nodes.len() {
            self.nodes.set(id, Some(node));
        } else {
            self.nodes.push(Some(node));
        }
        let k = pair_key(low.0, high.0);
        self.var2nodes[var.0].insert(k, id);
        let ghost nodes = self.nodes@;
        let ghost v2l = self.var2level@;
        assert(extends(old_nodes, nodes));
        assert forall|i: int| #![trigger live_in(nodes, i)] live_in(nodes, i) implies {
            let n = node_in(nodes, i);
            &&& n.var.0 < v2l.len()
            &&& v2l[n.var.0 as int] <= v2l[0]
            &&& n.var.0 != 0 ==> {
                &&& live_in(nodes, n.low.0 as int)
                &&& live_in(nodes, n.high.0 as int)
                &&& level_in(nodes, v2l, n.low.0 as int) > v2l[n.var.0 as int]
                &&& level_in(nodes, v2l, n.high.0 as int) > v2l[n.var.0 as int]
            }
        } by {
            if i != id {
                assert(live_in(old_nodes, i));
                let n = node_in(nodes, i);
                if n.var.0 != 0 {
                    assert(live_in(old_nodes, n.low.0 as int));
                    assert(live_in(old_nodes, n.high.0 as int));
                }
            } else {
                assert(live_in(old_nodes, low.0 as int));
                assert(live_in(old_nodes, high.0 as int));
                assert(old(self).levels_wf());
                assert(v2l[var.0 as int] <= v2l[0]);
            }
        }
        assert(ordered(nodes, v2l));
        proof {
            lemma_eval_extends_all(old_nodes, nodes, v2l);
        }
        assert(self.inner_wf()) by {
            assert forall|i: int| #![trigger self.live(i)] 2 <= i && self.live(i) implies {
                let n = self.node(i);
                &&& n.id.0 == i
                &&& n.var.0 != 0
                &&& n.low != n.high
                &&& n.var.0 < self.var2nodes@.len()
                &&& self.var2nodes@[n.var.0 as int]@.contains_key(key2(n.low.0, n.high.0))
                &&& self.var2nodes@[n.var.0 as int]@[key2(n.low.0, n.high.0)] == i
            } by {
                if i != id {
                    assert(old(self).live(i));
                    let n = self.node(i);
                    if n.var == var && key2(n.low.0, n.high.0) == k {
                        assert(false);
                    }
                }
            }
        }
        assert(self.unique_wf()) by {
            assert forall|v: int, kk: u128|
                0 <= v < self.var2nodes@.len() && #[trigger] self.var2nodes@[v]@.contains_key(kk) implies {
                    let i = self.var2nodes@[v]@[kk] as int;
                    &&& self.live(i)
                    &&& i >= 2
                    &&& self.node(i).var.0 == v
                    &&& key2(self.node(i).low.0, self.node(i).high.0) == kk
                } by {
                if v != var.0 || kk != k {
                    assert(old(self).var2nodes@[v]@.contains_key(kk));
                    let i = old(self).var2nodes@[v]@[kk] as int;
                    assert(old(self).live(i));
                    assert(i != id);
                }
            }
        }
        assert(self.free_wf()) by {
            assert forall|j: int| 0 <= j < self.free_slots@.len() implies {
                let s = #[trigger] self.free_slots@[j];
                &&& 2 <= s < self.nodes@.len()
                &&& self.nodes@[s as int] is None
            } by {
                assert(old(self).free_slots@[j] == self.free_slots@[j]);
                assert(self.free_slots@[j] != id);
            }
        }
        proof {
            lemma_keep_caches(old(self), self);
        }
        NodeID(id)
    }

    /// Search for a node with the given variable and children, create it if it does not exist.
    /// A node whose children agree is redundant: its child is returned instead.
    pub fn node_get_or_create(&mut self, node: &DDNode) -> (r: NodeID)
        requires
            old(self).wf(),
            1 <= node.var.0 < old(self).var2level@.len(),
            old(self).live(node.low.0 as int),
            old(self).live(node.high.0 as int),
            old(self).level(node.low.0 as int) > old(self).var2level@[node.var.0 as int],
            old(self).level(node.high.0 as int) > old(self).var2level@[node.var.0 as int],
        ensures
            final(self).wf(),
            final(self).keeps(old(self)),
            final(self).var2level@ == old(self).var2level@,
            final(self).live(r.0 as int),
            node.low == node.high ==> r == node.low,
            node.low != node.high ==> r.0 >= 2 && final(self).node(r.0 as int).var == node.var
                && final(self).node(r.0 as int).low == node.low
                && final(self).node(r.0 as int).high == node.high,
            forall|a: Assignment| #[trigger] final(self).sem(r.0 as int, a) == if a(node.var.0) {
                final(self).sem(node.high.0 as int, a)
            } else {
                final(self).sem(node.low.0 as int, a)
            },
            forall|j: int| #[trigger] final(self).live(j) ==> old(self).live(j) || j == r.0,
    {
        proof { reveal(DDManager::wf); }
        if node.low.0 == node.high.0 {
            return node.low;
        }
        let k = pair_key(node.low.0, node.high.0);
        let r = match self.var2nodes[node.var.0].get(&k) {
            Some(id) => {
                let id = *id;
                proof {
                    let n = self.node(id as int);
                    lemma_key2_injective(n.low.0, n.high.0, node.low.0, node.high.0);
                }
                NodeID(id)
            },
            None => self.add_node(node.var, node.low, node.high),
        };
        assert(self.live(r.0 as int));
        r
    }

    /// The node standing for the constant function 0.
    pub fn zero(&self) -> (r: NodeID)
        ensures
            r == NodeID(0),
    {
        NodeID(0)
    }

    /// The node standing for the constant function 1.
    pub fn one(&self) -> (r: NodeID)
        ensures
            r == NodeID(1),
    {
        NodeID(1)
    }

    /// The function that is true exactly where variable `var` is true.
    pub fn ith_var(&mut self, var: VarID) -> (r: NodeID)
        requires
            old(self).wf(),
            1 <= var.0 < usize::MAX,
        ensures
            final(self).wf(),
            final(self).keeps(old(self)),
            var.0 < final(self).var2level@.len(),
            var.0 < old(self).var2level@.len() ==> final(self).var2level@ == old(self).var2level@,
            final(self).var2level@.len() == if var.0 < old(self).var2level@.len() { old(self).var2level@.len() as int } else { var.0 + 1 },
            final(self).live(r.0 as int),
            forall|a: Assignment| #[trigger] final(self).sem(r.0 as int, a) == a(var.0),
    {
        proof { reveal(DDManager::wf); }
        self.ensure_order(var);
        let ghost mid = *self;
        proof {
            assert(self.levels_wf());
            assert(self.var2level@[var.0 as int] < self.var2level@[0]) by {
                assert(self.var2level@[var.0 as int] != self.var2level@[0]);
            }
        }
        let r = self.node_get_or_create(&DDNode { id: NodeID(0), var, low: NodeID(0), high: NodeID(1) });
        proof {
            assert forall|a: Assignment| #[trigger] self.sem(r.0 as int, a) == a(var.0) by {
                assert(self.sem(1, a) == true);
                assert(self.sem(0, a) == false);
            }
            assert forall|id: int, a: Assignment| #![trigger self.sem(id, a)]
                old(self).live(id) implies self.live(id) && self.sem(id, a) == old(self).sem(id, a) by {
                assert(mid.sem(id, a) == old(self).sem(id, a));
            }
        }
        r
    }

    /// The function that is true exactly where variable `var` is false.
    pub fn nith_var(&mut self, var: VarID) -> (r: NodeID)
        requires
            old(self).wf(),
            1 <= var.0 < usize::MAX,
        ensures
            final(self).wf(),
            final(self).keeps(old(self)),
            var.0 < final(self).var2level@.len(),
            final(self).var2level@.len() == if var.0 < old(self).var2level@.len() { old(self).var2level@.len() as int } else { var.0 + 1 },
            final(self).live(r.0 as int),
            forall|a: Assignment| #[trigger] final(self).sem(r.0 as int, a) == !a(var.0),
    {
        proof { reveal(DDManager::wf); }
        self.ensure_order(var);
        let ghost mid = *self;
        proof {
            assert(self.levels_wf());
            assert(self.var2level@[var.0 as int] < self.var2level@[0]) by {
                assert(self.var2level@[var.0 as int] != self.var2level@[0]);
            }
        }
        let r = self.node_get_or_create(&DDNode { id: NodeID(0), var, low: NodeID(1), high: NodeID(0) });
        proof {
            assert forall|a: Assignment| #[trigger] self.sem(r.0 as int, a) == !a(var.0) by {
                assert(self.sem(1, a) == true);
                assert(self.sem(0, a) == false);
            }
            assert forall|id: int, a: Assignment| #![trigger self.sem(id, a)]
                old(self).live(id) implies self.live(id) && self.sem(id, a) == old(self).sem(id, a) by {
                assert(mid.sem(id, a) == old(self).sem(id, a));
            }
        }
        r
    }
}

} // verus!
