//! Stable sorting of positions by weight.
use vstd::prelude::*;

verus! {

/// Position `i` comes before position `j`: lighter, or as heavy and earlier.
pub open spec fn index_before(weights: Seq<u128>, i: int, j: int) -> bool {
    weights[i] < weights[j] || (weights[i] == weights[j] && i < j)
}

/// The positions `0..weights.len()` ordered by increasing weight, positions of equal weight in
/// increasing order (a stable sort).
pub fn sorted_indices(weights: &Vec<u128>) -> (r: Vec<usize>)
    ensures
        r@.len() == weights@.len(),
        r@.no_duplicates(),
        forall|k: int| 0 <= k < r@.len() ==> #[trigger] r@[k] < weights@.len(),
        forall|i: int| 0 <= i < weights@.len() ==> #[trigger] r@.contains(i as usize),
        forall|k: int, l: int| 0 <= k < l < r@.len() ==> index_before(weights@, #[trigger] r@[k] as int, #[trigger] r@[l] as int),
{
    let mut order: Vec<usize> = Vec::new();
    let mut j: usize = 0;
    while j < weights.len()
        invariant
            j <= weights@.len(),
            order@.len() == j,
            order@.no_duplicates(),
            forall|k: int| 0 <= k < order@.len() ==> #[trigger] order@[k] < j,
            forall|m: int| 0 <= m < j ==> #[trigger] order@.contains(m as usize),
            forall|k: int, l: int| 0 <= k < l < order@.len() ==> index_before(weights@, #[trigger] order@[k] as int, #[trigger] order@[l] as int),
        decreases weights@.len() - j,
    {
        // insert j after every clause that is not heavier
        let w = weights[j];
        let mut p: usize = 0;
        while p < order.len() && weights[order[p]] <= w
            invariant
                p <= order@.len(),
                j < weights@.len(),
                w == weights@[j as int],
                    forall|k: int| 0 <= k < order@.len() ==> #[trigger] order@[k] < j,
                forall|k: int| 0 <= k < p ==> weights@[#[trigger] order@[k] as int] <= w,
            decreases order@.len() - p,
        {
            p = p + 1;
        }
        let ghost before = order@;
        proof {
            assert forall|k: int| p <= k < before.len() implies weights@[#[trigger] before[k] as int] > w by {
                if weights@[before[p as int] as int] <= w {
                    assert(false);
                }
                if k > p {
                    assert(index_before(weights@, before[p as int] as int, before[k] as int));
                }
            }
        }
        order.insert(p, j);
        proof {
            let after = order@;
            assert(after == before.subrange(0, p as int).push(j).add(before.subrange(p as int, before.len() as int)));
            assert forall|k: int| 0 <= k < after.len() implies #[trigger] after[k] < j + 1 by {
                if k < p { assert(after[k] == before[k]); } else if k > p { assert(after[k] == before[k - 1]); }
            }
            assert forall|m: int| 0 <= m < j + 1 implies #[trigger] after.contains(m as usize) by {
                if m == j {
                    assert(after[p as int] == j);
                } else {
                    assert(before.contains(m as usize));
                    let k = choose|k: int| 0 <= k < before.len() && before[k] == m as usize;
                    if k < p { assert(after[k] == before[k]); } else { assert(after[k + 1] == before[k]); }
                }
            }
            assert(after.no_duplicates()) by {
                assert forall|k: int, l: int| 0 <= k < l < after.len() implies after[k] != after[l] by {
                    if k != p && l != p {
                        let k0 = if k < p { k } else { k - 1 };
                        let l0 = if l < p { l } else { l - 1 };
                        assert(after[k] == before[k0]);
                        assert(after[l] == before[l0]);
                    } else if k == p {
                        let l0 = l - 1;
                        assert(after[l] == before[l0]);
                    } else {
                        assert(after[k] == before[k]);
                    }
                }
            }
            assert forall|k: int, l: int| 0 <= k < l < after.len() implies index_before(weights@, #[trigger] after[k] as int, #[trigger] after[l] as int) by {
                if k != p && l != p {
                    let k0 = if k < p { k } else { k - 1 };
                    let l0 = if l < p { l } else { l - 1 };
                    assert(after[k] == before[k0]);
                    assert(after[l] == before[l0]);
                } else if k == p {
                    let l0 = l - 1;
                    assert(after[l] == before[l0]);
                    assert(weights@[before[l0] as int] > w);
                } else {
                    assert(after[k] == before[k]);
                    assert(weights@[before[k] as int] <= w);
                }
            }
        }
        j = j + 1;
    }
    order
}

} // verus!
