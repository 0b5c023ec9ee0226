//! The FORCE heuristic for a static variable ordering of a formula, and the choice of heuristic.
use vstd::prelude::*;
use std::collections::HashMap;
use crate::parser::Cnf;
use crate::sorting::{sorted_indices, index_before};
use crate::static_ordering::shuffle;

verus! {

broadcast use vstd::std_specs::hash::group_hash_axioms;

/// `j` is the first position of `x` in `s`.
pub open spec fn is_first(s: Seq<i32>, x: i32, j: int) -> bool {
    &&& 0 <= j < s.len()
    &&& s[j] == x
    &&& forall|k: int| 0 <= k < j ==> s[k] != x
}

/// The first position of `x` in `s`, or -1 where `x` does not occur.
pub open spec fn first_index(s: Seq<i32>, x: i32) -> int {
    if s.contains(x) {
        choose|j: int| is_first(s, x, j)
    } else {
        -1
    }
}

/// The first position is unique.
pub proof fn lemma_first_index(s: Seq<i32>, x: i32, j: int)
    requires
        is_first(s, x, j),
    ensures
        first_index(s, x) == j,
{
    assert(s.contains(x));
    let j2 = choose|j: int| is_first(s, x, j);
    assert(is_first(s, x, j2));
}

/// The sum of the positions of the literals of `c` found in `order`.
pub open spec fn cog_sum(c: Seq<i32>, order: Seq<i32>) -> int
    decreases c.len(),
{
    if c.len() == 0 {
        0
    } else {
        cog_sum(c.drop_last(), order) + if order.contains(c.last()) { first_index(order, c.last()) } else { 0 }
    }
}

/// The center of gravity of a clause: the mean position of its literals, found ones counted
/// at their position, the others at 0.
pub open spec fn cog(c: Seq<i32>, order: Seq<i32>) -> int {
    cog_sum(c, order) / c.len() as int
}

/// The largest position of a literal of `c` in `order`, or -1 where none is found.
pub open spec fn pos_max(c: Seq<i32>, order: Seq<i32>) -> int
    decreases c.len(),
{
    if c.len() == 0 {
        -1
    } else {
        let m = pos_max(c.drop_last(), order);
        let p = first_index(order, c.last());
        if p > m { p } else { m }
    }
}

/// The smallest position of a literal of `c` in `order`, or -1 where none is found.
pub open spec fn pos_min(c: Seq<i32>, order: Seq<i32>) -> int
    decreases c.len(),
{
    if c.len() == 0 {
        -1
    } else {
        let m = pos_min(c.drop_last(), order);
        let p = first_index(order, c.last());
        if p < 0 { m } else if m < 0 || p < m { p } else { m }
    }
}

/// The span of a clause: distance between its outermost literals in `order`.
pub open spec fn clause_span(c: Seq<i32>, order: Seq<i32>) -> int {
    if pos_max(c, order) < 0 { 0 } else { pos_max(c, order) - pos_min(c, order) }
}

/// The total span of a formula under an order.
pub open spec fn spec_span(clauses: Seq<Vec<i32>>, order: Seq<i32>) -> int
    decreases clauses.len(),
{
    if clauses.len() == 0 {
        0
    } else {
        spec_span(clauses.drop_last(), order) + clause_span(clauses.last()@, order)
    }
}

/// The total number of literals of a formula.
pub open spec fn total_literals(clauses: Seq<Vec<i32>>) -> int
    decreases clauses.len(),
{
    if clauses.len() == 0 {
        0
    } else {
        total_literals(clauses.drop_last()) + clauses.last()@.len()
    }
}

/// The variable (absolute value) `v` of some literal of the formula.
pub open spec fn occurs(clauses: Seq<Vec<i32>>, v: i32) -> bool {
    exists|i: int, t: int| 0 <= i < clauses.len() && 0 <= t < clauses[i]@.len()
        && #[trigger] abs_i32(clauses[i]@[t]) == v
}

pub open spec fn abs_i32(x: i32) -> i32 {
    if x < 0 { (-x) as i32 } else { x }
}

/// The first position of `x` in `order`.
fn position(order: &Vec<i32>, x: i32) -> (r: Option<usize>)
    ensures
        r matches Some(j) ==> is_first(order@, x, j as int) && first_index(order@, x) == j,
        r is None ==> !order@.contains(x) && first_index(order@, x) == -1,
{
    let mut j: usize = 0;
    while j < order.len()
        invariant
            j <= order@.len(),
            forall|k: int| 0 <= k < j ==> order@[k] != x,
        decreases order@.len() - j,
    {
        if order[j] == x {
            proof {
                lemma_first_index(order@, x, j as int);
            }
            return Some(j);
        }
        j = j + 1;
    }
    None
}

fn compute_cog(clause: &Vec<i32>, order: &Vec<i32>) -> (r: u128)
    requires
        clause@.len() > 0,
    ensures
        r == cog(clause@, order@),
{
    let mut sum: u128 = 0;
    let mut t: usize = 0;
    while t < clause.len()
        invariant
            t <= clause@.len(),
            sum == cog_sum(clause@.subrange(0, t as int), order@),
            sum <= t * usize::MAX,
        decreases clause@.len() - t,
    {
        proof {
            assert(clause@.subrange(0, t as int + 1).drop_last() =~= clause@.subrange(0, t as int));
        }
        match position(order, clause[t]) {
            Some(j) => {
                assert(sum + j <= (t + 1) * usize::MAX) by (nonlinear_arith)
                    requires
                        sum <= t * usize::MAX,
                        j <= usize::MAX,
                ;
                sum = sum + j as u128;
            },
            None => {},
        }
        t = t + 1;
    }
    proof {
        assert(clause@.subrange(0, clause@.len() as int) =~= clause@);
    }
    sum / (clause.len() as u128)
}

fn compute_clause_span(clause: &Vec<i32>, order: &Vec<i32>) -> (r: usize)
    ensures
        r == clause_span(clause@, order@),
{
    let mut mx: Option<usize> = None;
    let mut mn: Option<usize> = None;
    let mut t: usize = 0;
    while t < clause.len()
        invariant
            t <= clause@.len(),
            mx matches Some(m) ==> m == pos_max(clause@.subrange(0, t as int), order@),
            mx is None ==> pos_max(clause@.subrange(0, t as int), order@) == -1,
            mn matches Some(m) ==> m == pos_min(clause@.subrange(0, t as int), order@),
            mn is None ==> pos_min(clause@.subrange(0, t as int), order@) == -1,
            mx is None <==> mn is None,
            mx matches Some(a) ==> (mn matches Some(b) ==> b <= a),
        decreases clause@.len() - t,
    {
        proof {
            assert(clause@.subrange(0, t as int + 1).drop_last() =~= clause@.subrange(0, t as int));
            assert(clause@.subrange(0, t as int + 1).last() == clause@[t as int]);
        }
        match position(order, clause[t]) {
            Some(j) => {
                mx = match mx {
                    Some(m) => if j > m { Some(j) } else { Some(m) },
                    None => Some(j),
                };
                mn = match mn {
                    Some(m) => if j < m { Some(j) } else { Some(m) },
                    None => Some(j),
                };
            },
            None => {},
        }
        t = t + 1;
    }
    proof {
        assert(clause@.subrange(0, clause@.len() as int) =~= clause@);
    }
    match (mx, mn) {
        (Some(a), Some(b)) => a - b,
        _ => 0,
    }
}

fn compute_span(clauses: &Vec<Vec<i32>>, order: &Vec<i32>) -> (r: u128)
    ensures
        r == spec_span(clauses@, order@),
{
    let mut span: u128 = 0;
    let mut i: usize = 0;
    while i < clauses.len()
        invariant
            i <= clauses@.len(),
            span == spec_span(clauses@.subrange(0, i as int), order@),
            span <= i * usize::MAX,
        decreases clauses@.len() - i,
    {
        proof {
            assert(clauses@.subrange(0, i as int + 1).drop_last() =~= clauses@.subrange(0, i as int));
        }
        let s = compute_clause_span(&clauses[i], order);
        assert(span + s <= (i + 1) * usize::MAX) by (nonlinear_arith)
            requires
                span <= i * usize::MAX,
                s <= usize::MAX,
        ;
        span = span + s as u128;
        i = i + 1;
    }
    proof {
        assert(clauses@.subrange(0, clauses@.len() as int) =~= clauses@);
    }
    span
}

/// The total number of literals grows clause by clause.
proof fn lemma_total_literals_prefix(clauses: Seq<Vec<i32>>, i: int)
    requires
        0 <= i <= clauses.len(),
    ensures
        total_literals(clauses.subrange(0, i)) <= total_literals(clauses),
        0 <= total_literals(clauses.subrange(0, i)),
    decreases clauses.len() - i,
{
    lemma_total_literals_nonneg(clauses.subrange(0, i));
    if i < clauses.len() {
        lemma_total_literals_prefix(clauses, i + 1);
        assert(clauses.subrange(0, i + 1).drop_last() =~= clauses.subrange(0, i));
    } else {
        assert(clauses.subrange(0, i) =~= clauses);
        lemma_total_literals_nonneg(clauses);
    }
}

proof fn lemma_total_literals_nonneg(clauses: Seq<Vec<i32>>)
    ensures
        0 <= total_literals(clauses),
    decreases clauses.len(),
{
    if clauses.len() > 0 {
        lemma_total_literals_nonneg(clauses.drop_last());
    }
}

/// `w` for each literal of `c` whose variable is `v`.
pub open spec fn lit_weight(c: Seq<i32>, w: int, v: i32) -> int
    decreases c.len(),
{
    if c.len() == 0 {
        0
    } else {
        lit_weight(c.drop_last(), w, v) + if abs_i32(c.last()) == v { w } else { 0 }
    }
}

/// The sum, over the occurrences of variable `v` in the formula, of the center of gravity of
/// the clause it occurs in, under `order`.
pub open spec fn cog_total(clauses: Seq<Vec<i32>>, order: Seq<i32>, v: i32) -> int
    decreases clauses.len(),
{
    if clauses.len() == 0 {
        0
    } else {
        cog_total(clauses.drop_last(), order, v) + lit_weight(clauses.last()@, cog(clauses.last()@, order), v)
    }
}

/// The number of occurrences of variable `v` in the formula.
pub open spec fn occurrences(clauses: Seq<Vec<i32>>, v: i32) -> int
    decreases clauses.len(),
{
    if clauses.len() == 0 {
        0
    } else {
        occurrences(clauses.drop_last(), v) + lit_weight(clauses.last()@, 1, v)
    }
}

/// The position FORCE gives variable `v` in a round from `order`: the mean center of gravity
/// of the clauses it occurs in (rounded down).
pub open spec fn var_center(clauses: Seq<Vec<i32>>, order: Seq<i32>, v: i32) -> int {
    cog_total(clauses, order, v) / occurrences(clauses, v)
}

/// What a round of FORCE from `order` may give: the variables that occur, each once, ordered
/// by their centers (those of equal center in either order).
pub open spec fn force_step(clauses: Seq<Vec<i32>>, order: Seq<i32>, next: Seq<i32>) -> bool {
    &&& next.no_duplicates()
    &&& forall|v: i32| #[trigger] next.contains(v) <==> occurs(clauses, v)
    &&& forall|k: int, l: int| 0 <= k < l < next.len()
        ==> var_center(clauses, order, #[trigger] next[k]) <= var_center(clauses, order, #[trigger] next[l])
}

/// No literal of `c` has variable `v`: no weight.
proof fn lemma_lit_weight_absent(c: Seq<i32>, w: int, v: i32)
    requires
        forall|s: int| 0 <= s < c.len() ==> abs_i32(#[trigger] c[s]) != v,
    ensures
        lit_weight(c, w, v) == 0,
    decreases c.len(),
{
    if c.len() > 0 {
        assert(abs_i32(c[c.len() - 1]) != v);
        lemma_lit_weight_absent(c.drop_last(), w, v);
    }
}

/// A variable that does not occur has no occurrences and no weight.
proof fn lemma_absent(clauses: Seq<Vec<i32>>, order: Seq<i32>, v: i32)
    requires
        !occurs(clauses, v),
    ensures
        cog_total(clauses, order, v) == 0,
        occurrences(clauses, v) == 0,
    decreases clauses.len(),
{
    if clauses.len() > 0 {
        let pre = clauses.drop_last();
        assert(!occurs(pre, v)) by {
            if occurs(pre, v) {
                let (a, b) = choose|a: int, b: int| 0 <= a < pre.len() && 0 <= b < pre[a]@.len()
                    && #[trigger] abs_i32(pre[a]@[b]) == v;
                assert(clauses[a] == pre[a]);
                assert(abs_i32(clauses[a]@[b]) == v);
            }
        }
        lemma_absent(pre, order, v);
        let c = clauses.last()@;
        assert forall|s: int| 0 <= s < c.len() implies abs_i32(#[trigger] c[s]) != v by {
            if abs_i32(c[s]) == v {
                assert(abs_i32(clauses[clauses.len() - 1]@[s]) == v);
            }
        }
        lemma_lit_weight_absent(c, cog(c, order), v);
        lemma_lit_weight_absent(c, 1, v);
    }
}

/// One round of FORCE: every variable moves to the mean center of gravity of the clauses it
/// occurs in; the variables are then ordered by that position.
fn force_round(clauses: &Vec<Vec<i32>>, order: &Vec<i32>) -> (r: Vec<i32>)
    requires
        forall|i: int| 0 <= i < clauses@.len() ==> (#[trigger] clauses@[i])@.len() > 0,
        forall|i: int, t: int| 0 <= i < clauses@.len() && 0 <= t < clauses@[i]@.len() ==> #[trigger] clauses@[i]@[t] != i32::MIN,
        total_literals(clauses@) <= usize::MAX,
    ensures
        force_step(clauses@, order@, r@),
{
    let mut keys: Vec<i32> = Vec::new();
    let mut index: HashMap<i32, usize> = HashMap::new();
    let mut sums: Vec<u128> = Vec::new();
    let mut counts: Vec<u128> = Vec::new();
    let mut i: usize = 0;
    while i < clauses.len()
        invariant
            i <= clauses@.len(),
            forall|i: int| 0 <= i < clauses@.len() ==> (#[trigger] clauses@[i])@.len() > 0,
            forall|i: int, t: int| 0 <= i < clauses@.len() && 0 <= t < clauses@[i]@.len() ==> #[trigger] clauses@[i]@[t] != i32::MIN,
            total_literals(clauses@) <= usize::MAX,
            keys@.no_duplicates(),
            sums@.len() == keys@.len(),
            counts@.len() == keys@.len(),
            forall|p: int| 0 <= p < keys@.len() ==> #[trigger] index@.contains_key(keys@[p]) && index@[keys@[p]] == p,
            forall|v: i32| #[trigger] index@.contains_key(v) ==> index@[v] < keys@.len() && keys@[index@[v] as int] == v,
            forall|v: i32| #[trigger] keys@.contains(v) <==> occurs(clauses@.subrange(0, i as int), v),
            forall|p: int| 0 <= p < keys@.len() ==> 1 <= #[trigger] counts@[p] <= total_literals(clauses@.subrange(0, i as int)),
            forall|p: int| 0 <= p < keys@.len() ==> #[trigger] sums@[p] <= total_literals(clauses@.subrange(0, i as int)) * usize::MAX,
            forall|p: int| 0 <= p < keys@.len() ==> #[trigger] sums@[p] == cog_total(clauses@.subrange(0, i as int), order@, keys@[p])
                && counts@[p] == occurrences(clauses@.subrange(0, i as int), keys@[p]),
        decreases clauses@.len() - i,
    {
        let clause = &clauses[i];
        proof {
            assert(clauses@[i as int]@.len() > 0);
            lemma_total_literals_prefix(clauses@, i as int + 1);
            lemma_total_literals_nonneg(clauses@.subrange(0, i as int));
            assert(clauses@.subrange(0, i as int + 1).drop_last() =~= clauses@.subrange(0, i as int));
        }
        let ghost before = total_literals(clauses@.subrange(0, i as int));
        let olen = order.len();
        let c = compute_cog(clause, order);
        proof {
            assert(c <= usize::MAX) by {
                lemma_cog_bound(clause@, order@);
            }
        }
        let mut t: usize = 0;
        while t < clause.len()
            invariant
                i < clauses@.len(),
                *clause == clauses@[i as int],
                t <= clause@.len(),
                forall|t: int| 0 <= t < clause@.len() ==> #[trigger] clause@[t] != i32::MIN,
                c <= usize::MAX,
                before + clause@.len() <= usize::MAX,
                before == total_literals(clauses@.subrange(0, i as int)),
                before >= 0,
                keys@.no_duplicates(),
                sums@.len() == keys@.len(),
                counts@.len() == keys@.len(),
                forall|p: int| 0 <= p < keys@.len() ==> #[trigger] index@.contains_key(keys@[p]) && index@[keys@[p]] == p,
                forall|v: i32| #[trigger] index@.contains_key(v) ==> index@[v] < keys@.len() && keys@[index@[v] as int] == v,
                forall|v: i32| #[trigger] keys@.contains(v) <==> (occurs(clauses@.subrange(0, i as int), v)
                    || exists|s: int| 0 <= s < t && #[trigger] abs_i32(clause@[s]) == v),
                forall|p: int| 0 <= p < keys@.len() ==> 1 <= #[trigger] counts@[p] <= before + t,
                forall|p: int| 0 <= p < keys@.len() ==> #[trigger] sums@[p] <= (before + t) * usize::MAX,
                c == cog(clause@, order@),
                forall|p: int| 0 <= p < keys@.len() ==> #[trigger] sums@[p] == cog_total(clauses@.subrange(0, i as int), order@, keys@[p])
                    + lit_weight(clause@.subrange(0, t as int), c as int, keys@[p])
                    && counts@[p] == occurrences(clauses@.subrange(0, i as int), keys@[p]) + lit_weight(clause@.subrange(0, t as int), 1, keys@[p]),
            decreases clause@.len() - t,
        {
            let x = clause[t];
            let ax: i32 = if x < 0 { -x } else { x };
            let ghost old_keys = keys@;
            let ghost old_sums = sums@;
            let ghost old_counts = counts@;
            let ghost pre = clauses@.subrange(0, i as int);
            match index.get(&ax) {
                Some(p) => {
                    let p = *p;
                    assert(sums@[p as int] + c <= (before + t + 1) * usize::MAX) by (nonlinear_arith)
                        requires
                            sums@[p as int] <= (before + t) * usize::MAX,
                            c <= usize::MAX,
                    ;
                    let s = sums[p] + c;
                    sums.set(p, s);
                    let n = counts[p] + 1;
                    counts.set(p, n);
                    proof {
                        assert forall|q: int| 0 <= q < old_keys.len() implies
                            #[trigger] sums@[q] == old_sums[q] + (if old_keys[q] == ax { c as int } else { 0 })
                            && counts@[q] == old_counts[q] + (if old_keys[q] == ax { 1int } else { 0 }) by {
                            if q != p {
                                if old_keys[q] == ax {
                                    assert(index@[keys@[q]] == q);
                                }
                            }
                        }
                    }
                },
                None => {
                    proof {
                        assert(!keys@.contains(ax)) by {
                            if keys@.contains(ax) {
                                let p = choose|p: int| 0 <= p < keys@.len() && keys@[p] == ax;
                                assert(index@.contains_key(keys@[p]));
                            }
                        }
                    }
                    index.insert(ax, keys.len());
                    keys.push(ax);
                    assert(c <= (before + t + 1) * usize::MAX) by (nonlinear_arith)
                        requires
                            c <= usize::MAX,
                            before + t + 1 >= 1,
                    ;
                    sums.push(c);
                    counts.push(1);
                    proof {
                        assert forall|q: int| 0 <= q < old_keys.len() implies
                            #[trigger] sums@[q] == old_sums[q] + (if old_keys[q] == ax { c as int } else { 0 })
                            && counts@[q] == old_counts[q] + (if old_keys[q] == ax { 1int } else { 0 }) by {
                            if old_keys[q] == ax {
                                assert(old_keys.contains(ax));
                            }
                        }
                        assert(!occurs(pre, ax));
                        lemma_absent(pre, order@, ax);
                        assert forall|s2: int| 0 <= s2 < clause@.subrange(0, t as int).len()
                            implies abs_i32(#[trigger] clause@.subrange(0, t as int)[s2]) != ax by {
                            if abs_i32(clause@.subrange(0, t as int)[s2]) == ax {
                                assert(abs_i32(clause@[s2]) == ax);
                            }
                        }
                        lemma_lit_weight_absent(clause@.subrange(0, t as int), c as int, ax);
                        lemma_lit_weight_absent(clause@.subrange(0, t as int), 1, ax);
                    }
                },
            }
            proof {
                assert(abs_i32(clause@[t as int]) == ax);
                let sub1 = clause@.subrange(0, t + 1);
                assert(sub1.drop_last() =~= clause@.subrange(0, t as int));
                assert(sub1.last() == clause@[t as int]);
                assert forall|q: int| 0 <= q < keys@.len() implies #[trigger] sums@[q] == cog_total(pre, order@, keys@[q])
                    + lit_weight(sub1, c as int, keys@[q])
                    && counts@[q] == occurrences(pre, keys@[q]) + lit_weight(sub1, 1, keys@[q]) by {
                    if q < old_keys.len() {
                        assert(keys@[q] == old_keys[q]);
                    }
                }
                assert forall|v: i32| #[trigger] keys@.contains(v) <==> (occurs(clauses@.subrange(0, i as int), v)
                    || exists|s: int| 0 <= s < t + 1 && #[trigger] abs_i32(clause@[s]) == v) by {
                    if v == ax {
                        assert(keys@.contains(ax)) by {
                            assert(index@.contains_key(ax));
                            assert(keys@[index@[ax] as int] == ax);
                        }
                    } else {
                        if keys@.contains(v) {
                            let p = choose|p: int| 0 <= p < keys@.len() && keys@[p] == v;
                            assert(p < old_keys.len());
                            assert(old_keys.contains(v));
                        }
                        if old_keys.contains(v) {
                            let p = choose|p: int| 0 <= p < old_keys.len() && old_keys[p] == v;
                            assert(keys@[p] == v);
                        }
                        if exists|s: int| 0 <= s < t + 1 && #[trigger] abs_i32(clause@[s]) == v {
                            let s = choose|s: int| 0 <= s < t + 1 && #[trigger] abs_i32(clause@[s]) == v;
                            assert(s < t);
                        }
                    }
                }
            }
            t = t + 1;
        }
        proof {
            let pre = clauses@.subrange(0, i as int);
            let pre1 = clauses@.subrange(0, i as int + 1);
            assert(pre1.drop_last() =~= pre);
            assert(pre1.last() == clauses@[i as int]);
            assert(clause@.subrange(0, clause@.len() as int) =~= clause@);
            assert forall|p: int| 0 <= p < keys@.len() implies #[trigger] sums@[p] == cog_total(pre1, order@, keys@[p])
                && counts@[p] == occurrences(pre1, keys@[p]) by {
                assert(pre1.last()@ == clause@);
            }
            assert forall|v: i32| #[trigger] keys@.contains(v) <==> occurs(pre1, v) by {
                if occurs(pre1, v) {
                    let (a, b) = choose|a: int, b: int| 0 <= a < pre1.len() && 0 <= b < pre1[a]@.len()
                        && #[trigger] abs_i32(pre1[a]@[b]) == v;
                    if a < i {
                        assert(pre[a] == pre1[a]);
                        assert(occurs(pre, v));
                    } else {
                        assert(abs_i32(clause@[b]) == v);
                    }
                }
                if occurs(pre, v) {
                    let (a, b) = choose|a: int, b: int| 0 <= a < pre.len() && 0 <= b < pre[a]@.len()
                        && #[trigger] abs_i32(pre[a]@[b]) == v;
                    assert(pre1[a] == pre[a]);
                    assert(abs_i32(pre1[a]@[b]) == v);
                }
                if exists|s: int| 0 <= s < clause@.len() && #[trigger] abs_i32(clause@[s]) == v {
                    let s = choose|s: int| 0 <= s < clause@.len() && #[trigger] abs_i32(clause@[s]) == v;
                    assert(abs_i32(pre1[i as int]@[s]) == v);
                }
            }
        }
        i = i + 1;
    }
    proof {
        assert(clauses@.subrange(0, clauses@.len() as int) =~= clauses@);
    }
    let mut centers: Vec<u128> = Vec::new();
    let mut p: usize = 0;
    while p < keys.len()
        invariant
            p <= keys@.len(),
            counts@.len() == keys@.len(),
            sums@.len() == keys@.len(),
            forall|q: int| 0 <= q < keys@.len() ==> 1 <= #[trigger] counts@[q],
            forall|q: int| 0 <= q < keys@.len() ==> #[trigger] sums@[q] == cog_total(clauses@, order@, keys@[q])
                && counts@[q] == occurrences(clauses@, keys@[q]),
            centers@.len() == p,
            forall|q: int| 0 <= q < p ==> #[trigger] centers@[q] == var_center(clauses@, order@, keys@[q]),
        decreases keys@.len() - p,
    {
        centers.push(sums[p] / counts[p]);
        p = p + 1;
    }
    let sorted = sorted_indices(&centers);
    let mut out: Vec<i32> = Vec::new();
    let mut k: usize = 0;
    while k < sorted.len()
        invariant
            k <= sorted@.len(),
            sorted@.len() == keys@.len(),
            sorted@.no_duplicates(),
            forall|q: int| 0 <= q < sorted@.len() ==> #[trigger] sorted@[q] < keys@.len(),
            out@.len() == k,
            forall|q: int| 0 <= q < k ==> #[trigger] out@[q] == keys@[sorted@[q] as int],
            centers@.len() == keys@.len(),
            forall|q: int| 0 <= q < keys@.len() ==> #[trigger] centers@[q] == var_center(clauses@, order@, keys@[q]),
            forall|a: int, b: int| 0 <= a < b < sorted@.len() ==> index_before(centers@, #[trigger] sorted@[a] as int, #[trigger] sorted@[b] as int),
        decreases sorted@.len() - k,
    {
        out.push(keys[sorted[k]]);
        k = k + 1;
    }
    proof {
        assert forall|a: int, b: int| 0 <= a < b < out@.len()
            implies var_center(clauses@, order@, #[trigger] out@[a]) <= var_center(clauses@, order@, #[trigger] out@[b]) by {
            assert(index_before(centers@, sorted@[a] as int, sorted@[b] as int));
            assert(centers@[sorted@[a] as int] == var_center(clauses@, order@, keys@[sorted@[a] as int]));
            assert(centers@[sorted@[b] as int] == var_center(clauses@, order@, keys@[sorted@[b] as int]));
        }
        assert(out@.no_duplicates()) by {
            assert forall|a: int, b: int| 0 <= a < out@.len() && 0 <= b < out@.len() && a != b implies out@[a] != out@[b] by {
                assert(sorted@[a] != sorted@[b]);
            }
        }
        assert forall|v: i32| #[trigger] out@.contains(v) <==> occurs(clauses@, v) by {
            if keys@.contains(v) {
                let q = choose|q: int| 0 <= q < keys@.len() && keys@[q] == v;
                assert(sorted@.contains(q as usize));
                let a = choose|a: int| 0 <= a < sorted@.len() && sorted@[a] == q as usize;
                assert(out@[a] == v);
            }
            if out@.contains(v) {
                let a = choose|a: int| 0 <= a < out@.len() && out@[a] == v;
                assert(keys@[sorted@[a] as int] == v);
            }
        }
    }
    out
}

/// The center of gravity is a position.
proof fn lemma_cog_bound(c: Seq<i32>, order: Seq<i32>)
    requires
        c.len() > 0,
        order.len() <= usize::MAX,
    ensures
        0 <= cog(c, order) <= usize::MAX,
{
    lemma_cog_sum_bound(c, order);
    let s = cog_sum(c, order);
    let n = c.len() as int;
    assert(0 <= s / n <= usize::MAX) by (nonlinear_arith)
        requires
            0 <= s <= n * usize::MAX,
            n > 0,
    ;
}

proof fn lemma_cog_sum_bound(c: Seq<i32>, order: Seq<i32>)
    requires
        order.len() <= usize::MAX,
    ensures
        0 <= cog_sum(c, order) <= c.len() * usize::MAX,
    decreases c.len(),
{
    if c.len() > 0 {
        lemma_cog_sum_bound(c.drop_last(), order);
        if order.contains(c.last()) {
            let j = choose|j: int| 0 <= j < order.len() && order[j] == c.last();
            let f = choose|j: int| is_first(order, c.last(), j);
            assert(is_first(order, c.last(), f)) by {
                let m = first_position_exists(order, c.last(), j);
            }
        }
        assert(cog_sum(c.drop_last(), order) + usize::MAX <= c.len() * usize::MAX) by (nonlinear_arith)
            requires
                cog_sum(c.drop_last(), order) <= (c.len() - 1) * usize::MAX,
        ;
    }
}

/// Some position of `x` is its first position.
proof fn first_position_exists(s: Seq<i32>, x: i32, j: int) -> (f: int)
    requires
        0 <= j < s.len(),
        s[j] == x,
    ensures
        is_first(s, x, f),
    decreases j,
{
    if exists|k: int| 0 <= k < j && s[k] == x {
        let k = choose|k: int| 0 <= k < j && s[k] == x;
        first_position_exists(s, x, k)
    } else {
        j
    }
}

/// The variables `1..=count`, none where `count + 1` does not fit an `i32`.
pub open spec fn initial_vars(count: u32) -> Seq<i32> {
    if count < i32::MAX {
        Seq::new(count as nat, |i: int| (i + 1) as i32)
    } else {
        Seq::empty()
    }
}

/// The orders FORCE passes through: a random order of `initial_vars(count)` first, then one
/// round after the other; every round but the last changes the span, the last keeps it, or
/// the thousandth round ends it.
pub open spec fn force_rounds(clauses: Seq<Vec<i32>>, count: u32, orders: Seq<Seq<i32>>) -> bool {
    &&& 2 <= orders.len() <= 1001
    &&& orders[0].to_multiset() == initial_vars(count).to_multiset()
    &&& forall|k: int| 0 <= k < orders.len() - 1 ==> #[trigger] force_step(clauses, orders[k], orders[k + 1])
    &&& forall|k: int| 1 <= k < orders.len() - 1 ==> #[trigger] spec_span(clauses, orders[k])
        != spec_span(clauses, orders[k - 1])
    &&& orders.len() < 1001 ==> spec_span(clauses, orders.last()) == spec_span(clauses, orders[orders.len() - 2])
}

/// Formulas with the same clauses (as sequences) give the same FORCE rounds.
pub proof fn lemma_force_rounds_same(c1: Seq<Vec<i32>>, c2: Seq<Vec<i32>>, count: u32, orders: Seq<Seq<i32>>)
    requires
        c1.len() == c2.len(),
        forall|i: int| 0 <= i < c1.len() ==> #[trigger] c1[i]@ == c2[i]@,
    ensures
        force_rounds(c1, count, orders) == force_rounds(c2, count, orders),
{
    assert forall|o: Seq<i32>| #[trigger] spec_span(c1, o) == spec_span(c2, o) by {
        lemma_same_clauses(c1, c2, o, 0);
    }
    assert forall|o: Seq<i32>, v: i32| #[trigger] var_center(c1, o, v) == var_center(c2, o, v) by {
        lemma_same_clauses(c1, c2, o, v);
    }
    assert forall|v: i32| #[trigger] occurs(c1, v) == occurs(c2, v) by {
        if occurs(c1, v) {
            let (a, b) = choose|a: int, b: int| 0 <= a < c1.len() && 0 <= b < c1[a]@.len() && #[trigger] abs_i32(c1[a]@[b]) == v;
            assert(abs_i32(c2[a]@[b]) == v);
        }
        if occurs(c2, v) {
            let (a, b) = choose|a: int, b: int| 0 <= a < c2.len() && 0 <= b < c2[a]@.len() && #[trigger] abs_i32(c2[a]@[b]) == v;
            assert(abs_i32(c1[a]@[b]) == v);
        }
    }
    assert forall|o: Seq<i32>, n: Seq<i32>| #[trigger] force_step(c1, o, n) == force_step(c2, o, n) by {
        assert(forall|v: i32| #[trigger] var_center(c1, o, v) == var_center(c2, o, v));
    }
    if orders.len() >= 2 {
        assert forall|k: int| 0 <= k < orders.len() - 1 implies #[trigger] force_step(c1, orders[k], orders[k + 1])
            == force_step(c2, orders[k], orders[k + 1]) by {}
        assert forall|k: int| 0 <= k < orders.len() implies #[trigger] spec_span(c1, orders[k]) == spec_span(c2, orders[k]) by {}
        if force_rounds(c1, count, orders) {
            assert forall|k: int| 0 <= k < orders.len() - 1 implies #[trigger] force_step(c2, orders[k], orders[k + 1]) by {
                assert(force_step(c1, orders[k], orders[k + 1]));
            }
            assert forall|k: int| 1 <= k < orders.len() - 1 implies #[trigger] spec_span(c2, orders[k])
                != spec_span(c2, orders[k - 1]) by {
                assert(spec_span(c1, orders[k]) != spec_span(c1, orders[k - 1]));
                assert(spec_span(c1, orders[k - 1]) == spec_span(c2, orders[k - 1]));
            }
            assert(spec_span(c1, orders[orders.len() - 2]) == spec_span(c2, orders[orders.len() - 2]));
        }
        if force_rounds(c2, count, orders) {
            assert forall|k: int| 0 <= k < orders.len() - 1 implies #[trigger] force_step(c1, orders[k], orders[k + 1]) by {
                assert(force_step(c2, orders[k], orders[k + 1]));
            }
            assert forall|k: int| 1 <= k < orders.len() - 1 implies #[trigger] spec_span(c1, orders[k])
                != spec_span(c1, orders[k - 1]) by {
                assert(spec_span(c2, orders[k]) != spec_span(c2, orders[k - 1]));
                assert(spec_span(c1, orders[k - 1]) == spec_span(c2, orders[k - 1]));
            }
            assert(spec_span(c1, orders[orders.len() - 2]) == spec_span(c2, orders[orders.len() - 2]));
        }
    }
}

/// Formulas with the same clauses (as sequences) have the same spans, totals and occurrences.
proof fn lemma_same_clauses(c1: Seq<Vec<i32>>, c2: Seq<Vec<i32>>, o: Seq<i32>, v: i32)
    requires
        c1.len() == c2.len(),
        forall|i: int| 0 <= i < c1.len() ==> #[trigger] c1[i]@ == c2[i]@,
    ensures
        spec_span(c1, o) == spec_span(c2, o),
        cog_total(c1, o, v) == cog_total(c2, o, v),
        occurrences(c1, v) == occurrences(c2, v),
    decreases c1.len(),
{
    if c1.len() > 0 {
        assert(c1.last()@ == c2.last()@) by {
            assert(c1[c1.len() - 1]@ == c2[c2.len() - 1]@);
        }
        assert forall|i: int| 0 <= i < c1.drop_last().len() implies #[trigger] c1.drop_last()[i]@ == c2.drop_last()[i]@ by {
            assert(c1[i]@ == c2[i]@);
        }
        lemma_same_clauses(c1.drop_last(), c2.drop_last(), o, v);
    }
}

/// Computes the FORCE heuristic of a formula: starting from a random order of the variables,
/// every variable repeatedly moves to the mean center of gravity of the clauses it occurs in,
/// until the total span stays unchanged or a thousand rounds have passed.
/// Returns the order (the variables that occur, each once) and its total span, taken as an
/// `i32` the way wrapping `i32` arithmetic sums it.
pub fn force(cnf: Cnf) -> (r: (Vec<i32>, i32))
    requires
        cnf.varibale_count < u32::MAX,
        forall|i: int| 0 <= i < cnf.terms@.len() ==> (#[trigger] cnf.terms@[i])@.len() > 0,
        forall|i: int, t: int| 0 <= i < cnf.terms@.len() && 0 <= t < cnf.terms@[i]@.len() ==> #[trigger] cnf.terms@[i]@[t] != i32::MIN,
        total_literals(cnf.terms@) <= usize::MAX,
    ensures
        r.0@.no_duplicates(),
        forall|v: i32| #[trigger] r.0@.contains(v) <==> occurs(cnf.terms@, v),
        r.1 == spec_span(cnf.terms@, r.0@) as i32,
        exists|orders: Seq<Seq<i32>>| #[trigger] force_rounds(cnf.terms@, cnf.varibale_count, orders) && orders.last() == r.0@,
{
    let clauses = cnf.terms;
    let mut order: Vec<i32> = Vec::new();
    // the variables 1 to the count, none where the count plus one does not fit an `i32`
    if cnf.varibale_count < 2147483647u32 {
        let mut v: u32 = 1;
        while v < cnf.varibale_count + 1
            invariant
                cnf.varibale_count < i32::MAX,
                1 <= v <= cnf.varibale_count + 1,
                order@ == Seq::new((v - 1) as nat, |i: int| (i + 1) as i32),
            decreases cnf.varibale_count + 1 - v,
        {
            order.push(v as i32);
            v = v + 1;
            assert(order@ =~= Seq::new((v - 1) as nat, |i: int| (i + 1) as i32));
        }
    }
    proof {
        assert(order@ =~= initial_vars(cnf.varibale_count));
    }
    shuffle(&mut order);
    let ghost first = order@;
    let mut span = compute_span(&clauses, &order);
    let mut n: usize = 0;
    let ghost mut orders: Seq<Seq<i32>> = seq![order@];
    while n < 1000
        invariant_except_break
            forall|k: int| 1 <= k < orders.len() ==> #[trigger] spec_span(clauses@, orders[k])
                != spec_span(clauses@, orders[k - 1]),
        invariant
            n <= 1000,
            forall|i: int| 0 <= i < clauses@.len() ==> (#[trigger] clauses@[i])@.len() > 0,
            forall|i: int, t: int| 0 <= i < clauses@.len() && 0 <= t < clauses@[i]@.len() ==> #[trigger] clauses@[i]@[t] != i32::MIN,
            total_literals(clauses@) <= usize::MAX,
            span == spec_span(clauses@, order@),
            orders.len() == n + 1,
            orders[0] == first,
            first.to_multiset() == initial_vars(cnf.varibale_count).to_multiset(),
            orders.last() == order@,
            forall|k: int| 0 <= k < orders.len() - 1 ==> #[trigger] force_step(clauses@, orders[k], orders[k + 1]),
            n >= 1 ==> order@.no_duplicates() && forall|v: i32| #[trigger] order@.contains(v) <==> occurs(clauses@, v),
        ensures
            n >= 1,
            span == spec_span(clauses@, order@),
            order@.no_duplicates(),
            forall|v: i32| #[trigger] order@.contains(v) <==> occurs(clauses@, v),
            force_rounds(clauses@, cnf.varibale_count, orders),
            orders.last() == order@,
        decreases 1000 - n,
    {
        let span_old = span;
        let ghost prev = orders;
        order = force_round(&clauses, &order);
        span = compute_span(&clauses, &order);
        n = n + 1;
        proof {
            orders = orders.push(order@);
            assert forall|k: int| 0 <= k < orders.len() - 1 implies #[trigger] force_step(clauses@, orders[k], orders[k + 1]) by {
                if k < prev.len() - 1 {
                    assert(orders[k] == prev[k] && orders[k + 1] == prev[k + 1]);
                }
            }
        }
        if span == span_old {
            proof {
                assert(force_rounds(clauses@, cnf.varibale_count, orders)) by {
                    assert forall|k: int| 1 <= k < orders.len() - 1 implies #[trigger] spec_span(clauses@, orders[k])
                        != spec_span(clauses@, orders[k - 1]) by {
                        assert(orders[k] == prev[k] && orders[k - 1] == prev[k - 1]);
                    }
                }
            }
            break;
        }
        proof {
            assert forall|k: int| 1 <= k < orders.len() implies #[trigger] spec_span(clauses@, orders[k])
                != spec_span(clauses@, orders[k - 1]) by {
                if k < orders.len() - 1 {
                    assert(orders[k] == prev[k] && orders[k - 1] == prev[k - 1]);
                }
            }
            if n == 1000 {
                assert(force_rounds(clauses@, cnf.varibale_count, orders));
            }
        }
    }
    #[verifier::truncate]
    let s = span as i32;
    (order, s)
}

/// Currently supported heuristics for static variable ordering.
pub enum StaticOrdering {
    NONE,
    FORCE,
}

/// Applies a given static variable ordering heuristic to a given `Cnf`
/// and returns a new `Cnf` with the newly calculated order.
pub fn apply_heuristic(cnf: Cnf, heuristic: StaticOrdering) -> (r: Cnf)
    requires
        heuristic is FORCE ==> cnf.varibale_count < u32::MAX,
        heuristic is FORCE ==> forall|i: int| 0 <= i < cnf.terms@.len() ==> (#[trigger] cnf.terms@[i])@.len() > 0,
        heuristic is FORCE ==> forall|i: int, t: int| 0 <= i < cnf.terms@.len() && 0 <= t < cnf.terms@[i]@.len()
            ==> #[trigger] cnf.terms@[i]@[t] != i32::MIN,
        heuristic is FORCE ==> total_literals(cnf.terms@) <= usize::MAX,
    ensures
        heuristic is NONE ==> r == cnf,
        r.varibale_count == cnf.varibale_count,
        r.term_count == cnf.term_count,
        r.terms@.len() == cnf.terms@.len(),
        forall|i: int| 0 <= i < r.terms@.len() ==> (#[trigger] r.terms@[i])@ == cnf.terms@[i]@,
        heuristic is NONE ==> r.order@ == cnf.order@,
        heuristic is FORCE ==> r.order@.no_duplicates() && forall|v: i32| #[trigger] r.order@.contains(v) <==> occurs(cnf.terms@, v),
{
    match heuristic {
        StaticOrdering::NONE => cnf,
        StaticOrdering::FORCE => apply_force(cnf),
    }
}

fn apply_force(cnf: Cnf) -> (r: Cnf)
    requires
        cnf.varibale_count < u32::MAX,
        forall|i: int| 0 <= i < cnf.terms@.len() ==> (#[trigger] cnf.terms@[i])@.len() > 0,
        forall|i: int, t: int| 0 <= i < cnf.terms@.len() && 0 <= t < cnf.terms@[i]@.len() ==> #[trigger] cnf.terms@[i]@[t] != i32::MIN,
        total_literals(cnf.terms@) <= usize::MAX,
    ensures
        r.varibale_count == cnf.varibale_count,
        r.term_count == cnf.term_count,
        r.terms@.len() == cnf.terms@.len(),
        forall|i: int| 0 <= i < r.terms@.len() ==> (#[trigger] r.terms@[i])@ == cnf.terms@[i]@,
        r.order@.no_duplicates(),
        forall|v: i32| #[trigger] r.order@.contains(v) <==> occurs(cnf.terms@, v),
{
    let terms = copy_terms(&cnf.terms);
    let term_count = cnf.term_count;
    let variable_count = cnf.varibale_count;
    let (ord, _span) = force(cnf);
    Cnf { varibale_count: variable_count, term_count, terms, order: ord }
}

/// A copy of a list of clauses.
pub fn copy_terms(terms: &Vec<Vec<i32>>) -> (r: Vec<Vec<i32>>)
    ensures
        r@.len() == terms@.len(),
        forall|i: int| 0 <= i < r@.len() ==> (#[trigger] r@[i])@ == terms@[i]@,
{
    let mut out: Vec<Vec<i32>> = Vec::new();
    let mut i: usize = 0;
    while i < terms.len()
        invariant
            i <= terms@.len(),
            out@.len() == i,
            forall|k: int| 0 <= k < i ==> (#[trigger] out@[k])@ == terms@[k]@,
        decreases terms@.len() - i,
    {
        let c = &terms[i];
        let mut d: Vec<i32> = Vec::new();
        let mut t: usize = 0;
        while t < c.len()
            invariant
                t <= c@.len(),
                d@ == c@.subrange(0, t as int),
            decreases c@.len() - t,
        {
            d.push(c[t]);
            t = t + 1;
        }
        proof {
            assert(c@.subrange(0, c@.len() as int) =~= c@);
        }
        out.push(d);
        i = i + 1;
    }
    out
}

} // verus!
