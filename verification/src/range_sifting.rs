//! Sifting a variable within a range of levels on a swap context: every step is measured with
//! `partial_swap`, and the manager stays as it is.
use vstd::prelude::*;
use crate::bdd_node::{NodeID, VarID};
use crate::bdd_manager::DDManager;
use crate::dvo::{SwapContext, Sifting, WindowPermutation, permuted, var_at};
use crate::permutation::{gen_perm, gen_permutation, adjacent_within, lemma_gen_perm_identity};
use crate::partial_swap::{swaps_adjacent, size_under};
use crate::sifting::clamp_isize;

verus! {

/// The pairs of levels whose variables change places when a variable moves from one end of
/// `range` to the other: going down from the first level where it starts there, going up from
/// the last one otherwise.
pub open spec fn walk_pairs(range: (usize, usize), down: bool) -> Seq<(usize, usize)> {
    Seq::new((range.1 - range.0) as nat, |i: int| if down {
        ((range.0 + i) as usize, (range.0 + i + 1) as usize)
    } else {
        ((range.1 - 1 - i) as usize, (range.1 - i) as usize)
    })
}

/// The swap made at the pair of levels `l` after the swaps `s`: the variables on the two
/// levels, where both hold one.
pub open spec fn walk_step(v2l: Seq<usize>, s: Seq<(VarID, VarID)>, l: (usize, usize)) -> Option<(VarID, VarID)> {
    let p = permuted(v2l, s);
    match (var_at(p, l.0), var_at(p, l.1)) {
        (Some(a), Some(b)) => Some((a, b)),
        _ => None,
    }
}

/// The change in size of the diagram of `f` that `partial_swap` measures for the swap `x`
/// after the swaps `s`.
#[verifier::opaque]
pub open spec fn step_change(man: DDManager, f: int, s: Seq<(VarID, VarID)>, x: (VarID, VarID)) -> isize {
    clamp_isize(size_under(permuted(man.var2level@, s.push(x)), man, f) - size_under(permuted(man.var2level@, s), man, f))
}

/// The swaps recorded after the first `k` pairs of levels, following those of `prev`.
#[verifier::opaque]
pub open spec fn walk_swaps(v2l: Seq<usize>, prev: Seq<(VarID, VarID)>, pairs: Seq<(usize, usize)>, k: int) -> Seq<(VarID, VarID)>
    decreases k,
{
    if k <= 0 {
        prev
    } else {
        let s = walk_swaps(v2l, prev, pairs, k - 1);
        match walk_step(v2l, s, pairs[k - 1]) {
            Some(x) => s.push(x),
            None => s,
        }
    }
}

/// The change in size of the diagram of `f` over the first `k` pairs of levels: the sum of the
/// changes that `partial_swap` measures for the swaps made.
#[verifier::opaque]
pub open spec fn walk_change(man: DDManager, f: int, prev: Seq<(VarID, VarID)>, pairs: Seq<(usize, usize)>, k: int) -> int
    decreases k,
{
    if k <= 0 {
        0
    } else {
        let v2l = man.var2level@;
        let s = walk_swaps(v2l, prev, pairs, k - 1);
        walk_change(man, f, prev, pairs, k - 1) + match walk_step(v2l, s, pairs[k - 1]) {
            Some(x) => step_change(man, f, s, x) as int,
            None => 0,
        }
    }
}

/// The search after `k` pairs of levels: the least change seen, after how many pairs it was
/// first seen, and whether the search has stopped because a change exceeded the least one by
/// more than `max_increase`. Pairs where no swap is made are passed over.
#[verifier::opaque]
pub open spec fn search_state(man: DDManager, f: int, max_increase: Option<usize>, prev: Seq<(VarID, VarID)>, pairs: Seq<(usize, usize)>, k: int) -> (int, int, bool)
    decreases k,
{
    if k <= 0 {
        (0, 0, false)
    } else {
        let (best, at, stopped) = search_state(man, f, max_increase, prev, pairs, k - 1);
        let c = walk_change(man, f, prev, pairs, k);
        if stopped || walk_step(man.var2level@, walk_swaps(man.var2level@, prev, pairs, k - 1), pairs[k - 1]) is None {
            (best, at, stopped)
        } else if c < best {
            (c, k, false)
        } else if max_increase matches Some(m) && c > best + m {
            (best, at, true)
        } else {
            (best, at, false)
        }
    }
}

/// One more pair of levels: the swap made there, the change it brings, and the next state of
/// the search.
proof fn lemma_walk_unfold(man: DDManager, f: int, max_increase: Option<usize>, prev: Seq<(VarID, VarID)>, pairs: Seq<(usize, usize)>, k: int)
    requires
        k >= 0,
    ensures
        walk_swaps(man.var2level@, prev, pairs, k + 1) == match walk_step(man.var2level@, walk_swaps(man.var2level@, prev, pairs, k), pairs[k]) {
            Some(x) => walk_swaps(man.var2level@, prev, pairs, k).push(x),
            None => walk_swaps(man.var2level@, prev, pairs, k),
        },
        walk_change(man, f, prev, pairs, k + 1) == walk_change(man, f, prev, pairs, k)
            + match walk_step(man.var2level@, walk_swaps(man.var2level@, prev, pairs, k), pairs[k]) {
                Some(x) => step_change(man, f, walk_swaps(man.var2level@, prev, pairs, k), x) as int,
                None => 0,
            },
        search_state(man, f, max_increase, prev, pairs, k + 1) == {
            let (best, at, stopped) = search_state(man, f, max_increase, prev, pairs, k);
            let c = walk_change(man, f, prev, pairs, k + 1);
            if stopped || walk_step(man.var2level@, walk_swaps(man.var2level@, prev, pairs, k), pairs[k]) is None {
                (best, at, stopped)
            } else if c < best {
                (c, k + 1, false)
            } else if max_increase matches Some(m) && c > best + m {
                (best, at, true)
            } else {
                (best, at, false)
            }
        },
{
    reveal_with_fuel(walk_swaps, 2);
    reveal_with_fuel(walk_change, 2);
    reveal_with_fuel(search_state, 2);
}

/// Before any pair: the swaps of `prev`, no change, and the search at its start.
proof fn lemma_walk_start(man: DDManager, f: int, max_increase: Option<usize>, prev: Seq<(VarID, VarID)>, pairs: Seq<(usize, usize)>)
    ensures
        walk_swaps(man.var2level@, prev, pairs, 0) == prev,
        walk_change(man, f, prev, pairs, 0) == 0,
        search_state(man, f, max_increase, prev, pairs, 0) == (0int, 0int, false),
{
    reveal_with_fuel(walk_swaps, 1);
    reveal_with_fuel(walk_change, 1);
    reveal_with_fuel(search_state, 1);
}

/// Once stopped, the search stays where it is.
proof fn lemma_stopped_stays(man: DDManager, f: int, max_increase: Option<usize>, prev: Seq<(VarID, VarID)>, pairs: Seq<(usize, usize)>, k: int, n: int)
    requires
        0 <= k <= n,
        search_state(man, f, max_increase, prev, pairs, k).2,
    ensures
        search_state(man, f, max_increase, prev, pairs, n) == search_state(man, f, max_increase, prev, pairs, k),
    decreases n - k,
{
    if k < n {
        lemma_stopped_stays(man, f, max_increase, prev, pairs, k, n - 1);
        lemma_walk_unfold(man, f, max_increase, prev, pairs, n - 1);
    }
}

/// What searching `range` from the level of `var` gives: the least change (clamped to `isize`)
/// and the swaps that reach it.
pub open spec fn range_result(man: DDManager, f: int, var: VarID, max_increase: Option<usize>, prev: Seq<(VarID, VarID)>, range: (usize, usize)) -> (isize, Seq<(VarID, VarID)>) {
    let pairs = walk_pairs(range, range.0 == permuted(man.var2level@, prev)[var.0 as int]);
    let st = search_state(man, f, max_increase, prev, pairs, pairs.len() as int);
    (clamp_isize(st.0), walk_swaps(man.var2level@, prev, pairs, st.1))
}

/// The variable found at a level sits on that level.
proof fn lemma_var_at_level(p: Seq<usize>, l: usize)
    requires
        var_at(p, l) is Some,
        p.len() <= usize::MAX,
    ensures
        (var_at(p, l)->0).0 < p.len(),
        p[(var_at(p, l)->0).0 as int] == l,
{
    let c = choose|v: int| 0 <= v < p.len() && p[v] == l && forall|w: int| 0 <= w < v ==> p[w] != l;
    let w0 = choose|v: int| 0 <= v < p.len() && p[v] == l;
    assert(0 <= w0 < p.len() && p[w0] == l);
    assert(exists|v: int| 0 <= v < p.len() && p[v] == l && forall|w: int| 0 <= w < v ==> p[w] != l) by {
        lemma_first_at(p, l, w0);
    }
    assert(0 <= c < p.len() && p[c] == l);
    assert(var_at(p, l)->0 == VarID(c as usize));
}

/// Where a level occurs in the table, it has a first occurrence.
proof fn lemma_first_at(p: Seq<usize>, l: usize, w0: int)
    requires
        0 <= w0 < p.len(),
        p[w0] == l,
    ensures
        exists|v: int| 0 <= v < p.len() && p[v] == l && forall|w: int| 0 <= w < v ==> p[w] != l,
    decreases w0,
{
    if exists|w: int| 0 <= w < w0 && p[w] == l {
        let w1 = choose|w: int| 0 <= w < w0 && p[w] == l;
        lemma_first_at(p, l, w1);
    } else {
        assert(0 <= w0 < p.len() && p[w0] == l && forall|w: int| 0 <= w < w0 ==> p[w] != l);
    }
}

/// The swaps never move the terminal level, and keep the length of the table.
proof fn lemma_permuted_keeps_terminal(v2l: Seq<usize>, s: Seq<(VarID, VarID)>)
    requires
        v2l.len() >= 1,
        forall|k: int| 0 <= k < s.len() ==> 1 <= (#[trigger] s[k]).0.0 < v2l.len() && 1 <= s[k].1.0 < v2l.len(),
    ensures
        permuted(v2l, s).len() == v2l.len(),
        permuted(v2l, s)[0] == v2l[0],
    decreases s.len(),
{
    if s.len() > 0 {
        let rest = s.drop_last();
        assert forall|k: int| 0 <= k < rest.len() implies 1 <= (#[trigger] rest[k]).0.0 < v2l.len() && 1 <= rest[k].1.0 < v2l.len() by {
            assert(rest[k] == s[k]);
        }
        lemma_permuted_keeps_terminal(v2l, rest);
        assert(s[s.len() - 1] == s.last());
    }
}

/// A swap of two variables on adjacent levels of the table that `s` leaves may follow `s`.
proof fn lemma_adjacent_extend(v2l: Seq<usize>, s: Seq<(VarID, VarID)>, a: VarID, b: VarID)
    requires
        swaps_adjacent(v2l, s),
        1 <= a.0 < v2l.len(),
        1 <= b.0 < v2l.len(),
        permuted(v2l, s)[b.0 as int] == permuted(v2l, s)[a.0 as int] + 1
            || permuted(v2l, s)[a.0 as int] == permuted(v2l, s)[b.0 as int] + 1,
    ensures
        swaps_adjacent(v2l, s.push((a, b))),
{
    let s2 = s.push((a, b));
    let k1 = s.len() as int;
    assert(s2.take(k1) =~= s);
    assert forall|j: int| #![trigger s2[j]] 0 <= j < s2.len() implies {
        let pj = permuted(v2l, s2.take(j));
        let (x, y) = s2[j];
        &&& 1 <= x.0 < v2l.len()
        &&& 1 <= y.0 < v2l.len()
        &&& (pj[y.0 as int] == pj[x.0 as int] + 1 || pj[x.0 as int] == pj[y.0 as int] + 1)
    } by {
        if j < k1 {
            assert(s2[j] == s[j]);
            assert(s2.take(j) =~= s.take(j));
        }
    }
}

/// A walk over pairs of levels within `lo..=hi` keeps every variable whose level lies there
/// within those levels, and the length of the table.
#[verifier::spinoff_prover]
#[verifier::rlimit(60)]
proof fn lemma_walk_in_range(v2l: Seq<usize>, prev: Seq<(VarID, VarID)>, pairs: Seq<(usize, usize)>, k: int, lo: int, hi: int)
    requires
        0 <= k <= pairs.len(),
        permuted(v2l, prev).len() == v2l.len(),
        v2l.len() <= usize::MAX,
        forall|i: int| 0 <= i < pairs.len() ==> lo <= (#[trigger] pairs[i]).0 <= hi && lo <= pairs[i].1 <= hi,
    ensures
        permuted(v2l, walk_swaps(v2l, prev, pairs, k)).len() == v2l.len(),
        forall|x: int| 0 <= x < v2l.len() && lo <= #[trigger] permuted(v2l, prev)[x] <= hi
            ==> lo <= permuted(v2l, walk_swaps(v2l, prev, pairs, k))[x] <= hi,
        forall|x: int| 0 <= x < v2l.len() && !(lo <= #[trigger] permuted(v2l, prev)[x] <= hi)
            ==> permuted(v2l, walk_swaps(v2l, prev, pairs, k))[x] == permuted(v2l, prev)[x],
    decreases k,
{
    reveal_with_fuel(walk_swaps, 2);
    if k > 0 {
        lemma_walk_in_range(v2l, prev, pairs, k - 1, lo, hi);
        let s = walk_swaps(v2l, prev, pairs, k - 1);
        let p = permuted(v2l, s);
        let l = pairs[k - 1];
        match walk_step(v2l, s, l) {
            Some(x) => {
                lemma_var_at_level(p, l.0);
                lemma_var_at_level(p, l.1);
                let (a, b) = x;
                assert(s.push(x).drop_last() =~= s);
                assert(s.push(x).last() == x);
                let q = permuted(v2l, s.push(x));
                assert(q == p.update(a.0 as int, p[b.0 as int]).update(b.0 as int, p[a.0 as int]));
                assert forall|y: int| 0 <= y < v2l.len() && lo <= #[trigger] permuted(v2l, prev)[y] <= hi
                    implies lo <= q[y] <= hi by {
                    assert(lo <= p[y] <= hi);
                }
                assert forall|y: int| 0 <= y < v2l.len() && !(lo <= #[trigger] permuted(v2l, prev)[y] <= hi)
                    implies q[y] == permuted(v2l, prev)[y] by {
                    assert(p[y] == permuted(v2l, prev)[y]);
                    assert(y != a.0 && y != b.0);
                }
            },
            None => {},
        }
    }
}

/// The search has always seen its least change after at most the pairs visited so far.
proof fn lemma_search_at(man: DDManager, f: int, max_increase: Option<usize>, prev: Seq<(VarID, VarID)>, pairs: Seq<(usize, usize)>, k: int)
    requires
        0 <= k,
    ensures
        0 <= search_state(man, f, max_increase, prev, pairs, k).1 <= k,
    decreases k,
{
    if k == 0 {
        lemma_walk_start(man, f, max_increase, prev, pairs);
    } else {
        lemma_search_at(man, f, max_increase, prev, pairs, k - 1);
        lemma_walk_unfold(man, f, max_increase, prev, pairs, k - 1);
    }
}

/// A copy of a swap context.
fn copy_context(ctx: &SwapContext) -> (r: SwapContext)
    ensures
        r.all_swaps_in_result@ == ctx.all_swaps_in_result@,
{
    SwapContext { all_swaps_in_result: ctx.get_swaps_in_result() }
}

/// A change, clamped to `isize`.
fn clamp_change(c: i128) -> (r: isize)
    ensures
        r == clamp_isize(c as int),
{
    if c > isize::MAX as i128 {
        isize::MAX
    } else if c < isize::MIN as i128 {
        isize::MIN
    } else {
        c as isize
    }
}

/// The swaps of a context are swaps of variables other than the terminal one.
proof fn lemma_adjacent_bounds(v2l: Seq<usize>, s: Seq<(VarID, VarID)>)
    requires
        swaps_adjacent(v2l, s),
    ensures
        forall|j: int| 0 <= j < s.len() ==> 1 <= (#[trigger] s[j]).0.0 < v2l.len() && 1 <= s[j].1.0 < v2l.len(),
{
    assert forall|j: int| 0 <= j < s.len() implies 1 <= (#[trigger] s[j]).0.0 < v2l.len() && 1 <= s[j].1.0 < v2l.len() by {
        assert(s[j] == s[j]);
    }
}

/// Pairs of adjacent levels, both above the terminal level `n` of a table of `n` entries.
pub open spec fn pairs_fit(pairs: Seq<(usize, usize)>, n: int) -> bool {
    forall|k: int| 0 <= k < pairs.len() ==> {
        let (x, y) = #[trigger] pairs[k];
        &&& x < n
        &&& y < n
        &&& (x == y + 1 || y == x + 1)
    }
}

/// Visits one pair of levels: where both hold variables, measures their swap with
/// `partial_swap` and records it.
#[verifier::rlimit(100)]
fn visit_pair(man: &DDManager, f: NodeID, pair: (usize, usize), ctx: SwapContext) -> (r: (Option<isize>, SwapContext))
    requires
        man.wf(),
        man.live(f.0 as int),
        man.var2level@.len() <= usize::MAX,
        pair.0 < man.var2level@.len(),
        pair.1 < man.var2level@.len(),
        pair.0 == pair.1 + 1 || pair.1 == pair.0 + 1,
        swaps_adjacent(man.var2level@, ctx.all_swaps_in_result@),
    ensures
        swaps_adjacent(man.var2level@, r.1.all_swaps_in_result@),
        match walk_step(man.var2level@, ctx.all_swaps_in_result@, pair) {
            Some(x) => r.0 == Some(step_change(*man, f.0 as int, ctx.all_swaps_in_result@, x))
                && r.1.all_swaps_in_result@ == ctx.all_swaps_in_result@.push(x),
            None => r.0 is None && r.1.all_swaps_in_result@ == ctx.all_swaps_in_result@,
        },
{
    let ghost v2l = man.var2level@;
    let ghost s = ctx.all_swaps_in_result@;
    proof {
        lemma_adjacent_bounds(v2l, s);
        lemma_permuted_keeps_terminal(v2l, s);
        reveal(DDManager::wf);
        assert(v2l[0] == v2l.len());
    }
    let oa = ctx.var_at_level(pair.0, &man.var2level);
    let ob = ctx.var_at_level(pair.1, &man.var2level);
    match (oa, ob) {
        (Some(a), Some(b)) => {
            let ghost p = permuted(v2l, s);
            proof {
                lemma_var_at_level(p, pair.0);
                lemma_var_at_level(p, pair.1);
                assert(p[0] == v2l.len());
                assert(a.0 != 0 && b.0 != 0);
                lemma_adjacent_extend(v2l, s, a, b);
            }
            let (d, next) = man.partial_swap(a, b, &ctx, f);
            proof {
                reveal(step_change);
            }
            (Some(d), next)
        },
        _ => (None, ctx),
    }
}

/// Walks the pairs of levels in turn on the context `prev_swap`, swapping the variables of each
/// pair (where both levels hold one) and measuring each swap on the diagram of `f`; returns
/// the least change in size seen (0 where none is below the start) and the context that
/// reaches it. The walk stops once the change exceeds the least one by more than
/// `max_increase`.
#[verifier::rlimit(100)]
fn search_pairs(man: &DDManager, f: NodeID, max_increase: Option<usize>, pairs: &Vec<(usize, usize)>, prev_swap: &SwapContext) -> (r: (isize, SwapContext))
    requires
        man.wf(),
        man.live(f.0 as int),
        swaps_adjacent(man.var2level@, prev_swap.all_swaps_in_result@),
        pairs_fit(pairs@, man.var2level@.len() as int),
    ensures
        ({
            let st = search_state(*man, f.0 as int, max_increase, prev_swap.all_swaps_in_result@, pairs@, pairs@.len() as int);
            r.0 == clamp_isize(st.0)
                && r.1.all_swaps_in_result@ == walk_swaps(man.var2level@, prev_swap.all_swaps_in_result@, pairs@, st.1)
        }),
        swaps_adjacent(man.var2level@, r.1.all_swaps_in_result@),
{
    let ghost v2l = man.var2level@;
    let ghost prev = prev_swap.all_swaps_in_result@;
    let n = pairs.len();
    let mut ctx = copy_context(prev_swap);
    let mut best_ctx = copy_context(prev_swap);
    let mut current: i128 = 0;
    let mut best: i128 = 0;
    let _len = man.var2level.len();
    let mut k: usize = 0;
    proof {
        lemma_walk_start(*man, f.0 as int, max_increase, prev, pairs@);
    }
    while k < n
        invariant
            man.wf(),
            man.live(f.0 as int),
            v2l == man.var2level@,
            v2l.len() <= usize::MAX,
            n == pairs@.len(),
            pairs_fit(pairs@, v2l.len() as int),
            prev == prev_swap.all_swaps_in_result@,
            k <= n,
            swaps_adjacent(v2l, ctx.all_swaps_in_result@),
            swaps_adjacent(v2l, best_ctx.all_swaps_in_result@),
            ctx.all_swaps_in_result@ == walk_swaps(v2l, prev, pairs@, k as int),
            current == walk_change(*man, f.0 as int, prev, pairs@, k as int),
            best <= 0,
            -(k as int) * 0x8000_0000_0000_0000int <= current <= (k as int) * 0x8000_0000_0000_0000int,
            search_state(*man, f.0 as int, max_increase, prev, pairs@, k as int)
                == (best as int, search_state(*man, f.0 as int, max_increase, prev, pairs@, k as int).1, false),
            best_ctx.all_swaps_in_result@
                == walk_swaps(v2l, prev, pairs@, search_state(*man, f.0 as int, max_increase, prev, pairs@, k as int).1),
        decreases n - k,
    {
        let pair = pairs[k];
        proof {
            assert(pairs@[k as int] == pair);
            lemma_walk_unfold(*man, f.0 as int, max_increase, prev, pairs@, k as int);
            assert((k as int) * 0x8000_0000_0000_0000int + 0x8000_0000_0000_0000int == (k as int + 1) * 0x8000_0000_0000_0000int) by (nonlinear_arith);
            assert((k as int + 1) * 0x8000_0000_0000_0000int <= 0x7fff_ffff_ffff_ffff_ffff_ffff_ffff_ffff) by (nonlinear_arith)
                requires k < n, n <= usize::MAX;
        }
        let (od, next) = visit_pair(man, f, pair, ctx);
        ctx = next;
        match od {
            Some(d) => {
                current = current + d as i128;
                if current < best {
                    best = current;
                    best_ctx = copy_context(&ctx);
                } else {
                    match max_increase {
                        Some(m) => {
                            if current > best + m as i128 {
                                proof {
                                    lemma_stopped_stays(*man, f.0 as int, max_increase, prev, pairs@, k as int + 1, pairs@.len() as int);
                                }
                                return (clamp_change(best), best_ctx);
                            }
                        },
                        None => {},
                    }
                }
            },
            None => {},
        }
        k = k + 1;
    }
    (clamp_change(best), best_ctx)
}

/// Finds the best position for `var` within `level_range`, which has the level of `var` at one
/// end: moves it level by level to the other end on the swap context `prev_swap`, each step
/// measured on the diagram of `f`, and returns the least change in size seen (0 where none is
/// below the start) and the context that reaches it. Moving on stops once the change exceeds
/// the least one by more than `max_increase`.
pub fn find_best_position_in_range(man: &DDManager, var: VarID, max_increase: Option<usize>, level_range: (usize, usize), prev_swap: SwapContext, f: NodeID) -> (r: (isize, SwapContext))
    requires
        man.wf(),
        man.live(f.0 as int),
        swaps_adjacent(man.var2level@, prev_swap.all_swaps_in_result@),
        var.0 < man.var2level@.len(),
        level_range.0 <= level_range.1 < man.var2level@.len(),
        level_range.0 == permuted(man.var2level@, prev_swap.all_swaps_in_result@)[var.0 as int]
            || level_range.1 == permuted(man.var2level@, prev_swap.all_swaps_in_result@)[var.0 as int],
    ensures
        (r.0, r.1.all_swaps_in_result@) == range_result(*man, f.0 as int, var, max_increase, prev_swap.all_swaps_in_result@, level_range),
        swaps_adjacent(man.var2level@, r.1.all_swaps_in_result@),
        forall|x: int| 0 <= x < man.var2level@.len()
            && level_range.0 <= #[trigger] permuted(man.var2level@, prev_swap.all_swaps_in_result@)[x] <= level_range.1
            ==> level_range.0 <= permuted(man.var2level@, r.1.all_swaps_in_result@)[x] <= level_range.1,
        forall|x: int| 0 <= x < man.var2level@.len()
            && !(level_range.0 <= #[trigger] permuted(man.var2level@, prev_swap.all_swaps_in_result@)[x] <= level_range.1)
            ==> permuted(man.var2level@, r.1.all_swaps_in_result@)[x] == permuted(man.var2level@, prev_swap.all_swaps_in_result@)[x],
{
    let ghost prev = prev_swap.all_swaps_in_result@;
    proof {
        assert forall|k: int| 0 <= k < prev.len() implies (#[trigger] prev[k]).0.0 < man.var2level@.len() && prev[k].1.0 < man.var2level@.len() by {
            assert(prev[k] == prev[k]);
        }
    }
    let start = prev_swap.var2level(&man.var2level, var.0);
    let down = level_range.0 == start;
    let n = level_range.1 - level_range.0;
    let mut pairs: Vec<(usize, usize)> = Vec::new();
    let mut k: usize = 0;
    while k < n
        invariant
            n == level_range.1 - level_range.0,
            level_range.0 <= level_range.1 < man.var2level@.len(),
            k <= n,
            pairs@ == walk_pairs(level_range, down).take(k as int),
        decreases n - k,
    {
        if down {
            pairs.push((level_range.0 + k, level_range.0 + k + 1));
        } else {
            pairs.push((level_range.1 - 1 - k, level_range.1 - k));
        }
        proof {
            assert(pairs@ =~= walk_pairs(level_range, down).take(k as int + 1));
        }
        k = k + 1;
    }
    proof {
        assert(pairs@ =~= walk_pairs(level_range, down));
    }
    let _len = man.var2level.len();
    let r = search_pairs(man, f, max_increase, &pairs, &prev_swap);
    proof {
        let v2l = man.var2level@;
        lemma_adjacent_bounds(v2l, prev);
        lemma_permuted_keeps_terminal(v2l, prev);
        lemma_search_at(*man, f.0 as int, max_increase, prev, pairs@, pairs@.len() as int);
        let st = search_state(*man, f.0 as int, max_increase, prev, pairs@, pairs@.len() as int);
        lemma_walk_in_range(v2l, prev, pairs@, st.1, level_range.0 as int, level_range.1 as int);
    }
    r
}

/// What sifting `var` within `range` after the swaps `prev` gives: of the searches of the part
/// of the range above its level and of the part below, the one with the smaller change (on a
/// tie the one with fewer swaps, and then the part above); where that change is not below
/// zero, no change and the swaps `prev`.
#[verifier::opaque]
pub open spec fn sift_result(man: DDManager, f: int, var: VarID, max_increase: Option<usize>, prev: Seq<(VarID, VarID)>, range: (usize, usize)) -> (isize, Seq<(VarID, VarID)>) {
    let start = permuted(man.var2level@, prev)[var.0 as int];
    let (e1, s1) = range_result(man, f, var, max_increase, prev, (range.0, start));
    let (e2, s2) = range_result(man, f, var, max_increase, prev, (start, range.1));
    let (e, s) = if e2 < e1 || (e2 == e1 && s2.len() < s1.len()) { (e2, s2) } else { (e1, s1) };
    if e >= 0 {
        (0, prev)
    } else {
        (e, s)
    }
}

/// The swaps after sifting, one after the other, the variables on the first `k` levels of
/// `range` (as the level table of `man` orders them) within that range, following `prev`; a
/// level without a variable, or whose variable labels no node, is passed over.
#[verifier::opaque]
pub open spec fn sift_chain(man: DDManager, f: int, max_increase: Option<usize>, prev: Seq<(VarID, VarID)>, range: (usize, usize), k: int) -> Seq<(VarID, VarID)>
    decreases k,
{
    if k <= 0 {
        prev
    } else {
        let s = sift_chain(man, f, max_increase, prev, range, k - 1);
        match var_at(man.var2level@, (range.0 + k - 1) as usize) {
            Some(v) => if man.var2nodes@[v.0 as int]@.len() > 0 {
                sift_result(man, f, v, max_increase, s, range).1
            } else {
                s
            },
            None => s,
        }
    }
}

/// One more level of the range: its variable sifted, where it labels a node.
proof fn lemma_chain_unfold(man: DDManager, f: int, max_increase: Option<usize>, prev: Seq<(VarID, VarID)>, range: (usize, usize), k: int)
    requires
        k >= 0,
    ensures
        sift_chain(man, f, max_increase, prev, range, 0) == prev,
        sift_chain(man, f, max_increase, prev, range, k + 1) == match var_at(man.var2level@, (range.0 + k) as usize) {
            Some(v) => if man.var2nodes@[v.0 as int]@.len() > 0 {
                sift_result(man, f, v, max_increase, sift_chain(man, f, max_increase, prev, range, k), range).1
            } else {
                sift_chain(man, f, max_increase, prev, range, k)
            },
            None => sift_chain(man, f, max_increase, prev, range, k),
        },
{
    reveal_with_fuel(sift_chain, 2);
}

/// Sifts `var` within `level_range` on the context `prev_swap`: searches the part of the
/// range above the level of `var` and the part below it, takes the search with the smaller
/// change (on a tie the one with fewer swaps, and then the part above), and returns its change
/// and context where the change is below zero, else no change and the swaps of `prev_swap`.
pub fn sift_single_var_in_range(man: &DDManager, var: VarID, max_increase: Option<usize>, level_range: (usize, usize), prev_swap: SwapContext, f: NodeID) -> (r: (isize, SwapContext))
    requires
        man.wf(),
        man.live(f.0 as int),
        swaps_adjacent(man.var2level@, prev_swap.all_swaps_in_result@),
        var.0 < man.var2level@.len(),
        level_range.0 <= permuted(man.var2level@, prev_swap.all_swaps_in_result@)[var.0 as int] <= level_range.1,
        level_range.1 < man.var2level@.len(),
    ensures
        swaps_adjacent(man.var2level@, r.1.all_swaps_in_result@),
        forall|x: int| 0 <= x < man.var2level@.len()
            && level_range.0 <= #[trigger] permuted(man.var2level@, prev_swap.all_swaps_in_result@)[x] <= level_range.1
            ==> level_range.0 <= permuted(man.var2level@, r.1.all_swaps_in_result@)[x] <= level_range.1,
        (r.0, r.1.all_swaps_in_result@) == sift_result(*man, f.0 as int, var, max_increase, prev_swap.all_swaps_in_result@, level_range),
{
    let ghost prev = prev_swap.all_swaps_in_result@;
    proof {
        assert forall|k: int| 0 <= k < prev.len() implies (#[trigger] prev[k]).0.0 < man.var2level@.len() && prev[k].1.0 < man.var2level@.len() by {
            assert(prev[k] == prev[k]);
        }
    }
    let start = prev_swap.var2level(&man.var2level, var.0);
    let (e1, c1) = find_best_position_in_range(man, var, max_increase, (level_range.0, start), copy_context(&prev_swap), f);
    let (e2, c2) = find_best_position_in_range(man, var, max_increase, (start, level_range.1), copy_context(&prev_swap), f);
    let (e, c) = if e2 < e1 || (e2 == e1 && c2.all_swaps_in_result.len() < c1.all_swaps_in_result.len()) {
        (e2, c2)
    } else {
        (e1, c1)
    };
    proof {
        reveal(sift_result);
    }
    if e >= 0 {
        (0, prev_swap)
    } else {
        (e, c)
    }
}

impl WindowPermutation {
    /// Tries the orders of the variables on the levels of `level_range` (at most seven levels;
    /// a larger window is left as it is) on the context `swap_context`: walks the swaps of
    /// adjacent levels that `gen_permutation` lists, each measured on the diagram of `f`, and
    /// returns the context of the smallest diagram seen. Trying stops once the change exceeds
    /// the least one by more than `max_increase`.
    pub fn compute_concurrent_dvo(&self, man: &DDManager, max_increase: Option<usize>, level_range: &(usize, usize), swap_context: SwapContext, f: NodeID) -> (r: SwapContext)
        requires
            man.wf(),
            man.live(f.0 as int),
            swaps_adjacent(man.var2level@, swap_context.all_swaps_in_result@),
            level_range.0 <= level_range.1 < man.var2level@.len(),
        ensures
            swaps_adjacent(man.var2level@, r.all_swaps_in_result@),
            level_range.1 - level_range.0 > 6 ==> r.all_swaps_in_result@ == swap_context.all_swaps_in_result@,
            level_range.1 - level_range.0 <= 6 ==> ({
                let pairs = gen_perm(level_range.0 as int, level_range.1 as int);
                let st = search_state(*man, f.0 as int, max_increase, swap_context.all_swaps_in_result@, pairs, pairs.len() as int);
                r.all_swaps_in_result@ == walk_swaps(man.var2level@, swap_context.all_swaps_in_result@, pairs, st.1)
            }),
    {
        let start_level = level_range.0;
        let end_level = level_range.1;
        if end_level - start_level > 6 {
            return swap_context;
        }
        let _len = man.var2level.len();
        let pairs = gen_permutation(start_level, end_level);
        proof {
            lemma_gen_perm_identity(man.var2level@, start_level as int, end_level as int);
            assert(pairs_fit(pairs@, man.var2level@.len() as int)) by {
                assert forall|k: int| 0 <= k < pairs@.len() implies {
                    let (x, y) = #[trigger] pairs@[k];
                    &&& x < man.var2level@.len()
                    &&& y < man.var2level@.len()
                    &&& (x == y + 1 || y == x + 1)
                } by {
                    assert(adjacent_within(gen_perm(start_level as int, end_level as int), start_level as int, end_level as int));
                    assert(pairs@[k] == gen_perm(start_level as int, end_level as int)[k]);
                }
            }
        }
        let (_, best) = search_pairs(man, f, max_increase, &pairs, &swap_context);
        best
    }
}

impl Sifting {
    /// Sifts, one after the other, the variables on the levels of `level_range` (as the level
    /// table of the manager orders them) within that range on the context `swap_context`, each
    /// step measured on the diagram of `f`; a variable that labels no node is passed over.
    /// Returns the context reached.
    #[verifier::rlimit(100)]
    pub fn compute_concurrent_dvo(&self, man: &DDManager, max_increase: Option<usize>, level_range: &(usize, usize), swap_context: SwapContext, f: NodeID) -> (r: SwapContext)
        requires
            man.wf(),
            man.live(f.0 as int),
            swaps_adjacent(man.var2level@, swap_context.all_swaps_in_result@),
            level_range.0 <= level_range.1 < man.var2level@.len(),
            forall|x: int| 0 <= x < man.var2level@.len() && level_range.0 <= #[trigger] man.var2level@[x] <= level_range.1
                ==> level_range.0 <= permuted(man.var2level@, swap_context.all_swaps_in_result@)[x] <= level_range.1,
        ensures
            swaps_adjacent(man.var2level@, r.all_swaps_in_result@),
            r.all_swaps_in_result@ == sift_chain(*man, f.0 as int, max_increase, swap_context.all_swaps_in_result@, *level_range,
                level_range.1 - level_range.0 + 1),
    {
        let ghost v2l = man.var2level@;
        let ghost prev = swap_context.all_swaps_in_result@;
        let _len = man.var2level.len();
        proof {
            reveal(DDManager::wf);
        }
        let lo = level_range.0;
        let hi = level_range.1;
        let mut result = swap_context;
        let mut level: usize = lo;
        proof {
            lemma_chain_unfold(*man, f.0 as int, max_increase, prev, *level_range, 0);
        }
        while level <= hi
            invariant
                man.wf(),
                man.live(f.0 as int),
                v2l == man.var2level@,
                v2l.len() <= usize::MAX,
                man.var2nodes@.len() == v2l.len(),
                lo == level_range.0,
                hi == level_range.1,
                lo <= level <= hi + 1,
                hi < v2l.len(),
                swaps_adjacent(v2l, result.all_swaps_in_result@),
                forall|x: int| 0 <= x < v2l.len() && lo <= #[trigger] v2l[x] <= hi
                    ==> lo <= permuted(v2l, result.all_swaps_in_result@)[x] <= hi,
                result.all_swaps_in_result@ == sift_chain(*man, f.0 as int, max_increase, prev, *level_range, level - lo),
            decreases hi + 1 - level,
        {
            let ov = man.var_at_level(level);
            let ghost before = result.all_swaps_in_result@;
            proof {
                lemma_chain_unfold(*man, f.0 as int, max_increase, prev, *level_range, level - lo);
            }
            match ov {
                Some(var) => {
                    proof {
                        lemma_var_at_level(v2l, level);
                    }
                    if man.var2nodes[var.0].len() > 0 {
                        proof {
                            assert(lo <= v2l[var.0 as int] <= hi);
                        }
                        let (_, next) = sift_single_var_in_range(man, var, max_increase, *level_range, result, f);
                        result = next;
                        proof {
                            assert forall|x: int| 0 <= x < v2l.len() && lo <= #[trigger] v2l[x] <= hi
                                implies lo <= permuted(v2l, result.all_swaps_in_result@)[x] <= hi by {
                                assert(lo <= permuted(v2l, before)[x] <= hi);
                            }
                        }
                    }
                },
                None => {},
            }
            proof {
                assert(result.all_swaps_in_result@ == sift_chain(*man, f.0 as int, max_increase, prev, *level_range, level - lo + 1));
            }
            level = level + 1;
        }
        result
    }
}

} // verus!
