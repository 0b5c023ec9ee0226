//! Static variable orderings for a formula: the given numbering, or a random one.
use vstd::prelude::*;
use rand::seq::SliceRandom;
use crate::dimacs::Instance;
use crate::order::valid_order;

verus! {

broadcast use vstd::seq_lib::group_to_multiset_ensures;

/// `SliceRandom::shuffle` of the `rand` crate, with the thread-local generator: the elements
/// are permuted at random (a sequence of swaps), none is added or lost.
#[verifier::external_body]
pub(crate) fn shuffle<T>(v: &mut Vec<T>)
    ensures
        final(v)@.to_multiset() == old(v)@.to_multiset(),
{
    v.shuffle(&mut rand::thread_rng());
}

/// The numbers `1..=n` in increasing order.
fn one_to(n: u32) -> (r: Vec<u32>)
    ensures
        r@.len() == n,
        forall|i: int| 0 <= i < n ==> #[trigger] r@[i] == i + 1,
{
    let mut order: Vec<u32> = Vec::new();
    let mut x: u32 = 0;
    while x < n
        invariant
            x <= n,
            order@.len() == x,
            forall|i: int| 0 <= i < x ==> #[trigger] order@[i] == i + 1,
        decreases n - x,
    {
        order.push(x + 1);
        x = x + 1;
    }
    order
}

/// A sequence holding each of `1..=n` once.
pub open spec fn is_permutation_of_1_to(s: Seq<u32>, n: int) -> bool {
    &&& s.len() == n
    &&& s.no_duplicates()
    &&& forall|i: int| 0 <= i < s.len() ==> 1 <= #[trigger] s[i] <= n
}

/// The order prefixed with the depth of the terminals is a valid ordering.
proof fn lemma_prefixed_valid(s: Seq<u32>, n: u32)
    requires
        n < u32::MAX,
        is_permutation_of_1_to(s, n as int),
    ensures
        valid_order(n, seq![(n + 1) as u32] + s),
{
    let o = seq![(n + 1) as u32] + s;
    assert forall|v: int| 1 <= v <= n implies 1 <= #[trigger] o[v] <= n by {
        assert(o[v] == s[v - 1]);
    }
    assert forall|v: int, w: int| 1 <= v < w <= n implies #[trigger] o[v] != #[trigger] o[w] by {
        assert(o[v] == s[v - 1]);
        assert(o[w] == s[w - 1]);
    }
}

/// Keeps the numbering of the variables: variable `v` at depth `v`, terminals at `n + 1`.
pub fn keep(instance: &Instance) -> (r: Vec<u32>)
    requires
        instance.no_variables < u32::MAX,
    ensures
        r@.len() == instance.no_variables + 1,
        r@[0] == instance.no_variables + 1,
        forall|v: int| 1 <= v < r@.len() ==> #[trigger] r@[v] == v,
        valid_order(instance.no_variables, r@),
{
    let n = instance.no_variables;
    let mut order = one_to(n);
    let ghost s = order@;
    order.insert(0, n + 1);
    proof {
        assert(order@ == seq![(n + 1) as u32] + s);
        assert(s.no_duplicates()) by {
            assert forall|i: int, j: int| 0 <= i < s.len() && 0 <= j < s.len() && i != j implies s[i] != s[j] by {}
        }
        lemma_prefixed_valid(s, n);
    }
    order
}

/// A random numbering of the variables: the depths `1..=n` in random order, terminals at `n + 1`.
pub fn rand(instance: &Instance) -> (r: Vec<u32>)
    requires
        instance.no_variables < u32::MAX,
    ensures
        r@.len() == instance.no_variables + 1,
        r@[0] == instance.no_variables + 1,
        valid_order(instance.no_variables, r@),
{
    let n = instance.no_variables;
    let mut order = one_to(n);
    let ghost s0 = order@;
    proof {
        assert(s0.no_duplicates()) by {
            assert forall|i: int, j: int| 0 <= i < s0.len() && 0 <= j < s0.len() && i != j implies s0[i] != s0[j] by {}
        }
        s0.lemma_multiset_has_no_duplicates();
    }
    shuffle(&mut order);
    let ghost s = order@;
    proof {
        assert(s.len() == s0.len()) by {
            assert(s.to_multiset().len() == s0.to_multiset().len());
        }
        s.lemma_multiset_has_no_duplicates_conv();
        assert forall|i: int| 0 <= i < s.len() implies 1 <= #[trigger] s[i] <= n by {
            assert(s.contains(s[i]));
            assert(s.to_multiset().count(s[i]) > 0);
            assert(s0.contains(s[i]));
        }
    }
    order.insert(0, n + 1);
    proof {
        assert(order@ == seq![(n + 1) as u32] + s);
        lemma_prefixed_valid(s, n);
    }
    order
}

} // verus!
