//! Variable orderings: their validity for a formula, and the variables layer by layer.
use vstd::prelude::*;
use crate::bdd_node::VarID;
use crate::dimacs::Instance;
use crate::bdd_file::{decimal, push_decimal, push_text, chars_to_string};

verus! {

/// `order[v]` is the depth of variable `v` in the tree: the terminals (index 0) lie at depth
/// `n + 1`, and the variables `1..=n` occupy the depths `1..=n`, one variable per depth.
pub open spec fn valid_order(n: u32, order: Seq<u32>) -> bool {
    &&& order.len() == n + 1
    &&& order[0] == n + 1
    &&& forall|v: int| 1 <= v <= n ==> 1 <= #[trigger] order[v] <= n
    &&& forall|v: int, w: int| 1 <= v < w <= n ==> #[trigger] order[v] != #[trigger] order[w]
}

/// Some variable in `1..=n` lies at depth `d`.
pub open spec fn depth_taken(order: Seq<u32>, n: int, d: int) -> bool {
    exists|v: int| 1 <= v <= n && #[trigger] order[v] == d
}

/// A map from `1..=n` into `1..=n` reaches every depth exactly when no two variables share one.
pub proof fn lemma_cover_iff_distinct(order: Seq<u32>, n: int)
    requires
        n >= 0,
        order.len() == n + 1,
        forall|v: int| 1 <= v <= n ==> 1 <= #[trigger] order[v] <= n,
    ensures
        (forall|d: int| 1 <= d <= n ==> #[trigger] depth_taken(order, n, d))
            <==> (forall|v: int, w: int| 1 <= v < w <= n ==> #[trigger] order[v] != #[trigger] order[w]),
{
    let s = Seq::new(n as nat, |i: int| order[i + 1] as int);
    let r = vstd::set_lib::set_int_range(1, n + 1);
    vstd::set_lib::lemma_int_range(1, n + 1);
    assert(s.to_set().subset_of(r));
    s.lemma_cardinality_of_set();
    if forall|d: int| 1 <= d <= n ==> #[trigger] depth_taken(order, n, d) {
        assert(r.subset_of(s.to_set())) by {
            assert forall|d: int| r.contains(d) implies s.to_set().contains(d) by {
                assert(depth_taken(order, n, d));
                let v = choose|v: int| 1 <= v <= n && #[trigger] order[v] == d;
                assert(s[v - 1] == d);
            }
        }
        assert(s.to_set() =~= r);
        s.lemma_no_dup_set_cardinality();
        assert forall|v: int, w: int| 1 <= v < w <= n implies #[trigger] order[v] != #[trigger] order[w] by {
            assert(s[v - 1] != s[w - 1]);
        }
    }
    if forall|v: int, w: int| 1 <= v < w <= n ==> #[trigger] order[v] != #[trigger] order[w] {
        assert(s.no_duplicates()) by {
            assert forall|i: int, j: int| 0 <= i < s.len() && 0 <= j < s.len() && i != j implies s[i] != s[j] by {
                if i < j {
                    assert(order[i + 1] != order[j + 1]);
                } else {
                    assert(order[j + 1] != order[i + 1]);
                }
            }
        }
        s.unique_seq_to_set();
        vstd::set_lib::lemma_subset_equality(s.to_set(), r);
        assert forall|d: int| 1 <= d <= n implies #[trigger] depth_taken(order, n, d) by {
            assert(r.contains(d));
            assert(s.to_set().contains(d));
            let i = choose|i: int| 0 <= i < s.len() && s[i] == d;
            assert(order[i + 1] == d);
        }
    }
}

/// The message for an ordering of the wrong length.
pub open spec fn size_message(size: nat, expected: nat) -> Seq<char> {
    "Invalid size of ordering: Size was "@ + decimal(size) + ", expected "@ + decimal(expected) + " (nr of variables + 1)"@
}

/// The message for terminals at the wrong depth.
pub open spec fn terminal_message(depth: nat, expected: nat) -> Seq<char> {
    "Depth of terminal nodes (index 0) is specified as "@ + decimal(depth) + ", but should be "@ + decimal(expected)
        + " (nr of variables + 1)"@
}

/// The message for a variable below the terminals.
pub open spec fn below_message(max_depth: nat, terminal_depth: nat) -> Seq<char> {
    "A variable is specified to have depth of "@ + decimal(max_depth) + " which is below depth of terminal nodes ("@
        + decimal(terminal_depth) + ", index 0)"@
}

/// The message for a variable at depth 0.
pub open spec fn zero_message(var: nat, depth: nat) -> Seq<char> {
    "Variable "@ + decimal(var) + " specified at depth "@ + decimal(depth) + " which is < 1"@
}

/// The message for a variable deeper than the number of variables.
pub open spec fn large_message(var: nat, depth: nat) -> Seq<char> {
    "Variable "@ + decimal(var) + " specified at depth "@ + decimal(depth) + " which is greater than the number of variables"@
}

/// The message for a depth without a variable.
pub open spec fn empty_message(depth: nat) -> Seq<char> {
    "No variable at depth "@ + decimal(depth)
}

/// Variable `v` has no depth, or one below the variables.
pub open spec fn bad_depth(order: Seq<u32>, n: u32, v: int) -> bool {
    order[v] < 1 || (v != 0 && order[v] > n)
}

/// The first variable from `v` on with a bad depth.
pub open spec fn first_bad(order: Seq<u32>, n: u32, v: int) -> Option<int>
    decreases order.len() - v,
{
    if v >= order.len() || v < 0 {
        None
    } else if bad_depth(order, n, v) {
        Some(v)
    } else {
        first_bad(order, n, v + 1)
    }
}

/// The first depth (counted from 0) from `d` on below `n` that no variable takes.
pub open spec fn first_empty(order: Seq<u32>, n: u32, d: int) -> Option<int>
    decreases n - d,
{
    if d >= n || d < 0 {
        None
    } else if !depth_taken(order, n as int, d + 1) {
        Some(d)
    } else {
        first_empty(order, n, d + 1)
    }
}

/// What is wrong with an ordering for `n` variables, checked in this order: its length, the
/// depth of the terminals, a variable below them, a variable without a depth or below the
/// variables, a depth without a variable; `None` where nothing is.
pub open spec fn order_error(n: u32, order: Seq<u32>) -> Option<Seq<char>> {
    if order.len() != n + 1 {
        Some(size_message(order.len(), (n + 1) as nat))
    } else if order[0] != n + 1 {
        Some(terminal_message(order[0] as nat, (n + 1) as nat))
    } else if order[0] != seq_max(order) {
        Some(below_message(seq_max(order) as nat, order[0] as nat))
    } else {
        match first_bad(order, n, 0) {
            Some(v) => if order[v] < 1 {
                Some(zero_message(v as nat, order[v] as nat))
            } else {
                Some(large_message(v as nat, order[v] as nat))
            },
            None => match first_empty(order, n, 0) {
                Some(d) => Some(empty_message((d + 1) as nat)),
                None => None,
            },
        }
    }
}

fn message_size(size: usize, expected: u32) -> (r: String)
    ensures
        r@ == size_message(size as nat, expected as nat),
{
    let mut cs: Vec<char> = Vec::new();
    push_text(&mut cs, "Invalid size of ordering: Size was ");
    push_decimal(&mut cs, size);
    push_text(&mut cs, ", expected ");
    push_decimal(&mut cs, expected as usize);
    push_text(&mut cs, " (nr of variables + 1)");
    proof {
        assert(cs@ =~= size_message(size as nat, expected as nat));
    }
    chars_to_string(&cs)
}

fn message_terminal_depth(depth: u32, expected: u32) -> (r: String)
    ensures
        r@ == terminal_message(depth as nat, expected as nat),
{
    let mut cs: Vec<char> = Vec::new();
    push_text(&mut cs, "Depth of terminal nodes (index 0) is specified as ");
    push_decimal(&mut cs, depth as usize);
    push_text(&mut cs, ", but should be ");
    push_decimal(&mut cs, expected as usize);
    push_text(&mut cs, " (nr of variables + 1)");
    proof {
        assert(cs@ =~= terminal_message(depth as nat, expected as nat));
    }
    chars_to_string(&cs)
}

fn message_below_terminals(max_depth: u32, terminal_depth: u32) -> (r: String)
    ensures
        r@ == below_message(max_depth as nat, terminal_depth as nat),
{
    let mut cs: Vec<char> = Vec::new();
    push_text(&mut cs, "A variable is specified to have depth of ");
    push_decimal(&mut cs, max_depth as usize);
    push_text(&mut cs, " which is below depth of terminal nodes (");
    push_decimal(&mut cs, terminal_depth as usize);
    push_text(&mut cs, ", index 0)");
    proof {
        assert(cs@ =~= below_message(max_depth as nat, terminal_depth as nat));
    }
    chars_to_string(&cs)
}

fn message_depth_zero(var: usize, depth: u32) -> (r: String)
    ensures
        r@ == zero_message(var as nat, depth as nat),
{
    let mut cs: Vec<char> = Vec::new();
    push_text(&mut cs, "Variable ");
    push_decimal(&mut cs, var);
    push_text(&mut cs, " specified at depth ");
    push_decimal(&mut cs, depth as usize);
    push_text(&mut cs, " which is < 1");
    proof {
        assert(cs@ =~= zero_message(var as nat, depth as nat));
    }
    chars_to_string(&cs)
}

fn message_depth_too_large(var: usize, depth: u32) -> (r: String)
    ensures
        r@ == large_message(var as nat, depth as nat),
{
    let mut cs: Vec<char> = Vec::new();
    push_text(&mut cs, "Variable ");
    push_decimal(&mut cs, var);
    push_text(&mut cs, " specified at depth ");
    push_decimal(&mut cs, depth as usize);
    push_text(&mut cs, " which is greater than the number of variables");
    proof {
        assert(cs@ =~= large_message(var as nat, depth as nat));
    }
    chars_to_string(&cs)
}

fn message_depth_empty(depth: usize) -> (r: String)
    ensures
        r@ == empty_message(depth as nat),
{
    let mut cs: Vec<char> = Vec::new();
    push_text(&mut cs, "No variable at depth ");
    push_decimal(&mut cs, depth);
    proof {
        assert(cs@ =~= empty_message(depth as nat));
    }
    chars_to_string(&cs)
}

/// The largest entry of a nonempty sequence.
pub open spec fn seq_max(s: Seq<u32>) -> u32
    decreases s.len(),
{
    if s.len() <= 1 {
        s[0]
    } else if s.last() > seq_max(s.drop_last()) {
        s.last()
    } else {
        seq_max(s.drop_last())
    }
}

/// The largest entry of a nonempty slice.
fn max_of(s: &[u32]) -> (r: u32)
    requires
        s@.len() > 0,
    ensures
        r == seq_max(s@),
        forall|i: int| 0 <= i < s@.len() ==> #[trigger] s@[i] <= r,
        exists|i: int| 0 <= i < s@.len() && #[trigger] s@[i] == r,
{
    let mut m = s[0];
    let mut i: usize = 1;
    proof {
        assert(s@.subrange(0, 1).len() == 1);
    }
    while i < s.len()
        invariant
            1 <= i <= s@.len(),
            m == seq_max(s@.subrange(0, i as int)),
            forall|k: int| 0 <= k < i ==> #[trigger] s@[k] <= m,
            exists|k: int| 0 <= k < i && #[trigger] s@[k] == m,
        decreases s@.len() - i,
    {
        proof {
            assert(s@.subrange(0, i as int + 1).drop_last() =~= s@.subrange(0, i as int));
        }
        if s[i] > m {
            m = s[i];
        }
        i = i + 1;
    }
    proof {
        assert(s@.subrange(0, s@.len() as int) =~= s@);
    }
    m
}

/// Checks if a specified variable ordering is valid for the CNF instance.
/// Returns `Ok(())` or `Err("error message")`.
pub fn check_order(cnf: &Instance, order: &[u32]) -> (r: Result<(), String>)
    requires
        cnf.no_variables < u32::MAX,
    ensures
        r is Ok <==> valid_order(cnf.no_variables, order@),
        match order_error(cnf.no_variables, order@) {
            None => r is Ok,
            Some(m) => r is Err && r->Err_0@ == m,
        },
{
    let n = cnf.no_variables;
    if order.len() != n as usize + 1 {
        return Err(message_size(order.len(), n + 1));
    }
    if order[0] != n + 1 {
        return Err(message_terminal_depth(order[0], n + 1));
    }
    let max_depth = max_of(order);
    if order[0] != max_depth {
        return Err(message_below_terminals(max_depth, order[0]));
    }
    let mut var_map: Vec<usize> = Vec::new();
    let mut k: usize = 0;
    while k < order.len()
        invariant
            order@.len() == n + 1,
            k <= n + 1,
            var_map@.len() == k,
            forall|d: int| 0 <= d < k ==> #[trigger] var_map@[d] == 0,
        decreases n + 1 - k,
    {
        var_map.push(0);
        k = k + 1;
    }
    let mut var: usize = 0;
    while var < order.len()
        invariant
            order@.len() == n + 1,
            order@[0] == n + 1,
            forall|i: int| 0 <= i < order@.len() ==> #[trigger] order@[i] <= n + 1,
            var <= order@.len(),
            var_map@.len() == n + 1,
            forall|v: int| 1 <= v < var ==> 1 <= #[trigger] order@[v] <= n,
            forall|d: int| 0 <= d < n ==> (#[trigger] var_map@[d] != 0 <==> exists|v: int| 1 <= v < var && #[trigger] order@[v] == d + 1),
            forall|d: int| 0 <= d < n && var_map@[d] != 0 ==> 1 <= #[trigger] var_map@[d] < var,
            order@[0] == seq_max(order@),
            first_bad(order@, n, 0) == first_bad(order@, n, var as int),
            n == cnf.no_variables,
        decreases order@.len() - var,
    {
        let depth = order[var];
        if depth < 1 {
            proof {
                if var != 0 {
                    assert(!(1 <= order@[var as int]));
                }
            }
            proof {
                assert(bad_depth(order@, n, var as int));
                assert(first_bad(order@, n, var as int) == Some(var as int));
            }
            return Err(message_depth_zero(var, depth));
        }
        if depth > n && var != 0 {
            proof {
                assert(bad_depth(order@, n, var as int));
                assert(first_bad(order@, n, var as int) == Some(var as int));
            }
            return Err(message_depth_too_large(var, depth));
        }
        let ghost before = var_map@;
        var_map.set(depth as usize - 1, var);
        proof {
            assert forall|d: int| 0 <= d < n implies (#[trigger] var_map@[d] != 0 <==> exists|v: int| 1 <= v < var + 1 && #[trigger] order@[v] == d + 1) by {
                if d == depth - 1 {
                    if var == 0 {
                        assert(depth == n + 1);
                    } else {
                        assert(order@[var as int] == d + 1);
                    }
                } else {
                    if exists|v: int| 1 <= v < var + 1 && #[trigger] order@[v] == d + 1 {
                        let v = choose|v: int| 1 <= v < var + 1 && #[trigger] order@[v] == d + 1;
                        if v == var {
                            assert(order@[var as int] == depth);
                        } else {
                            assert(before[d] != 0);
                        }
                    }
                }
            }
        }
        var = var + 1;
    }
    let mut depth: usize = 0;
    while depth < var_map.len()
        invariant
            var_map@.len() == n + 1,
            depth <= n + 1,
            order@.len() == n + 1,
            order@[0] == n + 1,
            forall|v: int| 1 <= v <= n ==> 1 <= #[trigger] order@[v] <= n,
            forall|d: int| 0 <= d < n ==> (#[trigger] var_map@[d] != 0 <==> exists|v: int| 1 <= v < n + 1 && #[trigger] order@[v] == d + 1),
            forall|d: int| 0 <= d < depth && d != n ==> #[trigger] var_map@[d] != 0,
            order@[0] == seq_max(order@),
            first_bad(order@, n, 0) is None,
            first_empty(order@, n, 0) == first_empty(order@, n, depth as int),
            n == cnf.no_variables,
        decreases n + 1 - depth,
    {
        if var_map[depth] == 0 && depth != n as usize {
            proof {
                assert(!depth_taken(order@, n as int, depth + 1)) by {
                    if depth_taken(order@, n as int, depth + 1) {
                        let v = choose|v: int| 1 <= v <= n && #[trigger] order@[v] == depth + 1;
                    }
                }
                lemma_cover_iff_distinct(order@, n as int);
            }
            proof {
                assert(first_empty(order@, n, depth as int) == Some(depth as int));
            }
            return Err(message_depth_empty(depth + 1));
        }
        depth = depth + 1;
    }
    proof {
        assert forall|d: int| 1 <= d <= n implies #[trigger] depth_taken(order@, n as int, d) by {
            assert(var_map@[d - 1] != 0);
            let v = choose|v: int| 1 <= v < order@.len() && #[trigger] order@[v] == d;
            assert(1 <= v <= n);
        }
        lemma_cover_iff_distinct(order@, n as int);
    }
    Ok(())
}

/// Returns the variable order as list of variables top to bottom: entry `d` holds the
/// variable at depth `d + 1` (the last one, should several share that depth), or variable 0
/// where none lies at that depth.
pub fn order_to_layernames(order: &[u32]) -> (r: Vec<VarID>)
    requires
        order@.len() > 0,
        forall|v: int| 0 <= v < order@.len() ==> 1 <= #[trigger] order@[v],
    ensures
        r@.len() == seq_max(order@),
        forall|d: int| 0 <= d < r@.len() ==> {
            let v = #[trigger] r@[d].0 as int;
            &&& 0 <= v < order@.len()
            &&& (exists|w: int| 0 <= w < order@.len() && order@[w] == d + 1) ==> order@[v] == d + 1
                && forall|w: int| v < w < order@.len() ==> order@[w] != d + 1
            &&& !(exists|w: int| 0 <= w < order@.len() && order@[w] == d + 1) ==> v == 0
        },
{
    let m = max_of(order);
    let mut res: Vec<VarID> = Vec::new();
    let mut k: u32 = 0;
    while k < m
        invariant
            k <= m,
            res@.len() == k,
            forall|d: int| 0 <= d < k ==> #[trigger] res@[d] == VarID(0),
        decreases m - k,
    {
        res.push(VarID(0));
        k = k + 1;
    }
    let mut var_num: usize = 0;
    while var_num < order.len()
        invariant
            var_num <= order@.len(),
            res@.len() == m,
            forall|i: int| 0 <= i < order@.len() ==> 1 <= #[trigger] order@[i] <= m,
            forall|d: int| 0 <= d < m ==> {
                let v = #[trigger] res@[d].0 as int;
                &&& 0 <= v < order@.len()
                &&& (exists|w: int| 0 <= w < var_num && order@[w] == d + 1) ==> order@[v] == d + 1
                    && v < var_num && forall|w: int| v < w < var_num ==> order@[w] != d + 1
                &&& !(exists|w: int| 0 <= w < var_num && order@[w] == d + 1) ==> v == 0
            },
        decreases order@.len() - var_num,
    {
        let pos = order[var_num];
        let ghost before = res@;
        res.set(pos as usize - 1, VarID(var_num));
        proof {
            assert forall|d: int| 0 <= d < m implies {
                let v = #[trigger] res@[d].0 as int;
                &&& 0 <= v < order@.len()
                &&& (exists|w: int| 0 <= w < var_num + 1 && order@[w] == d + 1) ==> order@[v] == d + 1
                    && v < var_num + 1 && forall|w: int| v < w < var_num + 1 ==> order@[w] != d + 1
                &&& !(exists|w: int| 0 <= w < var_num + 1 && order@[w] == d + 1) ==> v == 0
            } by {
                if d != pos - 1 {
                    assert(res@[d] == before[d]);
                    if exists|w: int| 0 <= w < var_num + 1 && order@[w] == d + 1 {
                        let w = choose|w: int| 0 <= w < var_num + 1 && order@[w] == d + 1;
                        assert(w != var_num);
                    }
                } else {
                    assert(order@[var_num as int] == d + 1);
                }
            }
        }
        var_num = var_num + 1;
    }
    res
}

} // verus!
