//! Choosing the areas (ranges of levels) in which the diagram is reordered: around levels with
//! many nodes or long edges, around local maxima, or in slices of equal node count.
use vstd::prelude::*;
use crate::bdd_manager::DDManager;
use crate::dvo::{covers, median, merge_ranges, merge_fold, stable_sorted_positions, merged, sorted_by_start, ThresholdMethod, EqualSplitMethod, HotspotMethod, AreaSelectionEnum};

verus! {

/// `th` is the median of `list`: the element in the middle of the stably sorted list.
pub open spec fn is_median(list: Seq<usize>, th: usize) -> bool {
    exists|p: Seq<usize>| stable_sorted_positions(list, p) && th == list[p[(list.len() / 2) as int] as int]
}

/// One step of collecting levels above the threshold: a level at most two after the current
/// range's end extends it; a farther one closes it. `(0, 0)` stands for "no current range".
pub open spec fn gather_step(st: (Seq<(usize, usize)>, (usize, usize)), i: usize) -> (Seq<(usize, usize)>, (usize, usize)) {
    let (res, cur) = st;
    if cur == (0usize, 0usize) {
        (res, (i, i))
    } else if i - cur.1 <= 2 {
        (res, (cur.0, i))
    } else {
        (res.push(cur), (i, i))
    }
}

/// The levels `i` below `k` with more than `th` (and strictly between `start` and `end - 1`),
/// gathered into ranges.
pub open spec fn gather(dist: Seq<usize>, start: int, end: int, th: usize, k: int) -> (Seq<(usize, usize)>, (usize, usize))
    decreases k,
{
    if k <= 0 {
        (Seq::empty(), (0usize, 0usize))
    } else {
        let st = gather(dist, start, end, th, k - 1);
        if dist[k - 1] > th && k - 1 > start && k - 1 < end - 1 {
            gather_step(st, (k - 1) as usize)
        } else {
            st
        }
    }
}

/// The ranges of the threshold method on a distribution, for the median `th`.
pub open spec fn threshold_ranges(dist: Seq<usize>, range: (usize, usize), th: usize) -> Seq<(usize, usize)> {
    let end = if dist.len() <= range.1 { dist.len() as int } else { range.1 as int };
    let st = gather(dist, range.0 as int, end, th, dist.len() as int);
    st.0.push(st.1)
}

/// The last level (exclusive) up to which the threshold method looks: the end of `range`,
/// or the number of levels where that is smaller.
pub open spec fn threshold_end(dist: Seq<usize>, range: (usize, usize)) -> int {
    if dist.len() <= range.1 { dist.len() as int } else { range.1 as int }
}

/// A selected area of the threshold method: strictly after the start of `range`, ending before
/// the level below `threshold_end`, from a level above the threshold to one above it.
pub open spec fn threshold_area_ok(dist: Seq<usize>, range: (usize, usize), th: usize, e: (usize, usize)) -> bool {
    &&& range.0 < e.0 <= e.1
    &&& e.1 + 1 < threshold_end(dist, range)
    &&& dist[e.0 as int] > th
    &&& dist[e.1 as int] > th
}

/// What collecting the levels below `k` keeps: every range gathered so far is a valid area
/// ending below `k`, the current one too where there is one, and every level below `k` above
/// the threshold and strictly inside the range lies in one of them.
proof fn lemma_gather_areas(dist: Seq<usize>, range: (usize, usize), th: usize, k: int)
    requires
        0 <= k <= dist.len(),
    ensures
        ({
            let st = gather(dist, range.0 as int, threshold_end(dist, range), th, k);
            &&& forall|j: int| 0 <= j < st.0.len() ==> threshold_area_ok(dist, range, th, #[trigger] st.0[j]) && st.0[j].1 < k
            &&& st.1 != (0usize, 0usize) ==> threshold_area_ok(dist, range, th, st.1) && st.1.1 < k
            &&& forall|i: int| 0 <= i < k && #[trigger] dist[i] > th && range.0 < i && i + 1 < threshold_end(dist, range)
                ==> covers(st.0.push(st.1), i)
        }),
    decreases k,
{
    if k > 0 {
        lemma_gather_areas(dist, range, th, k - 1);
        let end = threshold_end(dist, range);
        let prev = gather(dist, range.0 as int, end, th, k - 1);
        let st = gather(dist, range.0 as int, end, th, k);
        let pp = prev.0.push(prev.1);
        let sp = st.0.push(st.1);
        let i = k - 1;
        if dist[i] > th && i > range.0 && i < end - 1 {
            let (res, cur) = prev;
            assert forall|x: int| 0 <= x < k && #[trigger] dist[x] > th && range.0 < x && x + 1 < end
                implies covers(sp, x) by {
                if x == i {
                    assert(st.1.0 <= x <= st.1.1);
                    assert(sp[st.0.len() as int] == st.1);
                } else {
                    assert(covers(pp, x));
                    let m = choose|m: int| 0 <= m < pp.len() && (#[trigger] pp[m]).0 <= x <= pp[m].1;
                    if m < res.len() {
                        assert(sp[m] == pp[m]);
                    } else if cur == (0usize, 0usize) {
                        assert(pp[m] == cur);
                    } else if i - cur.1 <= 2 {
                        assert(sp[st.0.len() as int] == st.1);
                        assert(st.1.0 <= x <= st.1.1);
                    } else {
                        assert(st.0[res.len() as int] == cur);
                        assert(sp[res.len() as int] == cur);
                    }
                }
            }
            assert forall|j: int| 0 <= j < st.0.len() implies threshold_area_ok(dist, range, th, #[trigger] st.0[j]) && st.0[j].1 < k by {
                if j < res.len() {
                    assert(st.0[j] == res[j]);
                }
            }
        } else {
            assert forall|x: int| 0 <= x < k && #[trigger] dist[x] > th && range.0 < x && x + 1 < end
                implies covers(sp, x) by {
                assert(covers(pp, x));
            }
        }
    }
}

/// The law of the threshold method: every area it selects (but the marker `(0, 0)` for none)
/// lies strictly inside `range` and below the last levels, from a level above the median to
/// one above it, and every level strictly inside the range whose value is above the median lies
/// in one of the areas.
pub proof fn lemma_threshold_areas(dist: Seq<usize>, range: (usize, usize), th: usize)
    ensures
        forall|k: int| 0 <= k < threshold_ranges(dist, range, th).len()
            && #[trigger] threshold_ranges(dist, range, th)[k] != (0usize, 0usize) ==> {
            let e = threshold_ranges(dist, range, th)[k];
            &&& range.0 < e.0 <= e.1
            &&& e.1 + 1 < threshold_end(dist, range)
            &&& dist[e.0 as int] > th
            &&& dist[e.1 as int] > th
        },
        forall|i: int| 0 <= i < dist.len() && #[trigger] dist[i] > th && range.0 < i && i + 1 < threshold_end(dist, range)
            ==> covers(threshold_ranges(dist, range, th), i),
{
    lemma_gather_areas(dist, range, th, dist.len() as int);
    let st = gather(dist, range.0 as int, threshold_end(dist, range), th, dist.len() as int);
    let tr = threshold_ranges(dist, range, th);
    assert(tr == st.0.push(st.1));
    assert forall|k: int| 0 <= k < tr.len() && #[trigger] tr[k] != (0usize, 0usize)
        implies threshold_area_ok(dist, range, th, tr[k]) by {
        if k < st.0.len() {
            assert(tr[k] == st.0[k]);
        } else {
            assert(tr[k] == st.1);
        }
    }
}

/// Computing the threshold ranges subtracts one from an end of 0 for some level above the
/// threshold.
pub open spec fn threshold_underflows(dist: Seq<usize>, range: (usize, usize), th: usize) -> bool {
    range.1 == 0 && exists|i: int| 0 <= i < dist.len() && dist[i] > th && i > range.0
}

impl ThresholdMethod {
    /// The ranges of levels whose value in `distribution` lies above its median, between the
    /// levels of `range`; levels at most two apart share a range.
    pub fn select_areas_for(&self, range: (usize, usize), distribution: Vec<usize>) -> (r: Vec<(usize, usize)>)
        requires
            distribution@.len() > 0,
            forall|th: usize| is_median(distribution@, th) ==> !threshold_underflows(distribution@, range, th),
        ensures
            exists|th: usize| is_median(distribution@, th) && r@ == threshold_ranges(distribution@, range, th),
            forall|k: int| 0 <= k < r@.len() && #[trigger] r@[k] != (0usize, 0usize)
                ==> range.0 < r@[k].0 <= r@[k].1 && r@[k].1 + 1 < threshold_end(distribution@, range),
    {
        let mut result_ranges: Vec<(usize, usize)> = Vec::new();
        let mut current_range: (usize, usize) = (0, 0);
        let start_level = range.0;
        let end_level = if distribution.len() <= range.1 { distribution.len() } else { range.1 };
        let threshold = median(distribution.as_slice());
        proof {
            assert(is_median(distribution@, threshold));
        }
        let mut i: usize = 0;
        while i < distribution.len()
            invariant
                i <= distribution@.len(),
                start_level == range.0,
                end_level == if distribution@.len() <= range.1 { distribution@.len() as int } else { range.1 as int },
                !threshold_underflows(distribution@, range, threshold),
                (result_ranges@, current_range) == gather(distribution@, start_level as int, end_level as int, threshold, i as int),
                current_range != (0usize, 0usize) ==> current_range.1 < i,
            decreases distribution@.len() - i,
        {
            if distribution[i] > threshold && i > start_level && i < end_level - 1 {
                if current_range.0 == 0 && current_range.1 == 0 {
                    current_range = (i, i);
                } else if i - current_range.1 <= 2 {
                    current_range = (current_range.0, i);
                } else {
                    result_ranges.push(current_range);
                    current_range = (i, i);
                }
            }
            i = i + 1;
        }
        result_ranges.push(current_range);
        proof {
            assert(is_median(distribution@, threshold) && result_ranges@ == threshold_ranges(distribution@, range, threshold));
            lemma_threshold_areas(distribution@, range, threshold);
        }
        result_ranges
    }
}

/// The local maxima `i` of the distribution below `k` (from `start` on), each with `s` levels
/// on either side.
pub open spec fn hotspots(dist: Seq<usize>, s: usize, start: int, k: int) -> Seq<(usize, usize)>
    decreases k - start,
{
    if k <= start {
        Seq::empty()
    } else {
        let prev = hotspots(dist, s, start, k - 1);
        let i = k - 1;
        if dist[i] > dist[i - 1] && dist[i] > dist[i + 1] {
            prev.push(((i - s) as usize, (i + s) as usize))
        } else {
            prev
        }
    }
}

/// The areas of the hotspot method: the local maxima between the start of `range` (plus the
/// surrounding levels) and the last levels, each with its surroundings.
pub open spec fn hotspot_ranges(dist: Seq<usize>, range: (usize, usize), s: usize) -> Seq<(usize, usize)> {
    hotspots(dist, s, range.0 + s + 1, dist.len() - s - 1)
}

/// Level `i` holds a local maximum of the distribution: more than on either neighbour.
pub open spec fn local_max(dist: Seq<usize>, i: int) -> bool {
    dist[i] > dist[i - 1] && dist[i] > dist[i + 1]
}

/// What the hotspot areas from `start` up to `k` are: each is a local maximum at a level from
/// `start` on and below `k`, with `s` levels on either side, and every such local maximum has
/// its area.
proof fn lemma_hotspots_law(dist: Seq<usize>, s: usize, start: int, k: int)
    requires
        start >= s + 1,
        k + s + 1 <= dist.len(),
        dist.len() <= usize::MAX,
    ensures
        forall|j: int| 0 <= j < hotspots(dist, s, start, k).len() ==> {
            let e = #[trigger] hotspots(dist, s, start, k)[j];
            &&& start <= e.0 + s < k
            &&& e.1 == e.0 + 2 * s
            &&& local_max(dist, e.0 + s)
        },
        forall|i: int| start <= i < k && #[trigger] local_max(dist, i)
            ==> exists|j: int| 0 <= j < hotspots(dist, s, start, k).len()
                && hotspots(dist, s, start, k)[j] == ((i - s) as usize, (i + s) as usize),
    decreases k - start,
{
    if k > start {
        lemma_hotspots_law(dist, s, start, k - 1);
        let prev = hotspots(dist, s, start, k - 1);
        let cur = hotspots(dist, s, start, k);
        let i = k - 1;
        assert forall|j: int| 0 <= j < cur.len() implies {
            let e = #[trigger] cur[j];
            &&& start <= e.0 + s < k
            &&& e.1 == e.0 + 2 * s
            &&& local_max(dist, e.0 + s)
        } by {
            if j < prev.len() {
                assert(cur[j] == prev[j]);
            }
        }
        assert forall|x: int| start <= x < k && #[trigger] local_max(dist, x)
            implies exists|j: int| 0 <= j < cur.len() && cur[j] == ((x - s) as usize, (x + s) as usize) by {
            if x < i {
                let j = choose|j: int| 0 <= j < prev.len() && prev[j] == ((x - s) as usize, (x + s) as usize);
                assert(cur[j] == prev[j]);
            } else {
                assert(cur[prev.len() as int] == ((x - s) as usize, (x + s) as usize));
            }
        }
    }
}

/// The law of the hotspot method before merging: every area is a local maximum strictly after
/// the start of `range` plus the surrounding levels, with `s` levels on either side and at
/// least one level after them; every such local maximum has its area.
pub proof fn lemma_hotspot_areas(dist: Seq<usize>, range: (usize, usize), s: usize)
    requires
        dist.len() <= usize::MAX,
    ensures
        forall|j: int| 0 <= j < hotspot_ranges(dist, range, s).len() ==> {
            let e = #[trigger] hotspot_ranges(dist, range, s)[j];
            &&& range.0 < e.0
            &&& e.1 == e.0 + 2 * s
            &&& e.1 + 2 <= dist.len()
            &&& local_max(dist, e.0 + s)
        },
        forall|i: int| range.0 + s < i && i + s + 1 < dist.len() && #[trigger] local_max(dist, i)
            ==> exists|j: int| 0 <= j < hotspot_ranges(dist, range, s).len()
                && hotspot_ranges(dist, range, s)[j] == ((i - s) as usize, (i + s) as usize),
{
    let start = range.0 + s + 1;
    let k = dist.len() - s - 1;
    let hr = hotspot_ranges(dist, range, s);
    assert(hr == hotspots(dist, s, start, k));
    if k >= start {
        lemma_hotspots_law(dist, s, start, k);
        assert forall|i: int| range.0 + s < i && i + s + 1 < dist.len() && #[trigger] local_max(dist, i)
            implies exists|j: int| 0 <= j < hr.len() && hr[j] == ((i - s) as usize, (i + s) as usize) by {
            assert(start <= i < k);
        }
    } else {
        assert(hotspots(dist, s, start, k) =~= Seq::<(usize, usize)>::empty());
    }
}

/// Merging ranges that all start at `lo` or later and end at `hi` or earlier gives ranges that
/// do the same (but the marker `(0, 0)` for none).
proof fn lemma_merge_fold_bounds(s: Seq<(usize, usize)>, lo: int, hi: int)
    requires
        forall|k: int| 0 <= k < s.len() ==> lo <= (#[trigger] s[k]).0 && s[k].1 <= hi,
    ensures
        forall|j: int| 0 <= j < merged(s).len() && #[trigger] merged(s)[j] != (0usize, 0usize)
            ==> lo <= merged(s)[j].0 && merged(s)[j].1 <= hi,
    decreases s.len(),
{
    if s.len() > 0 {
        let t = s.drop_last();
        assert forall|k: int| 0 <= k < t.len() implies lo <= (#[trigger] t[k]).0 && t[k].1 <= hi by {
            assert(t[k] == s[k]);
        }
        lemma_merge_fold_bounds(t, lo, hi);
        let prev = merge_fold(t);
        let pm = merged(t);
        assert(pm == prev.0.push(prev.1));
        assert forall|j: int| 0 <= j < prev.0.len() && #[trigger] prev.0[j] != (0usize, 0usize)
            implies lo <= prev.0[j].0 && prev.0[j].1 <= hi by {
            assert(pm[j] == prev.0[j]);
        }
        assert(prev.1 != (0usize, 0usize) ==> lo <= prev.1.0 && prev.1.1 <= hi) by {
            assert(pm[prev.0.len() as int] == prev.1);
        }
        assert(s.last() == s[s.len() - 1]);
        let cur = merge_fold(s);
        let cm = merged(s);
        assert forall|j: int| 0 <= j < cm.len() && #[trigger] cm[j] != (0usize, 0usize)
            implies lo <= cm[j].0 && cm[j].1 <= hi by {
            if j < prev.0.len() {
                assert(cm[j] == prev.0[j]);
            } else if j < cur.0.len() {
                assert(cm[j] == cur.0[j]);
            } else {
                assert(cm[j] == cur.1);
            }
        }
    }
}

/// Merging, taken by start, ranges within `lo` and `hi` keeps them within.
proof fn lemma_merge_of_bounds(s: Seq<(usize, usize)>, r: Seq<(usize, usize)>, lo: int, hi: int)
    requires
        merge_of(s, r),
        forall|k: int| 0 <= k < s.len() ==> lo <= (#[trigger] s[k]).0 && s[k].1 <= hi,
    ensures
        forall|j: int| 0 <= j < r.len() && #[trigger] r[j] != (0usize, 0usize) ==> lo <= r[j].0 && r[j].1 <= hi,
{
    let p = choose|p: Seq<usize>| sorted_by_start(s, p) && r == merged(p.map_values(|k: usize| s[k as int]));
    let sorted = p.map_values(|k: usize| s[k as int]);
    assert forall|k: int| 0 <= k < sorted.len() implies lo <= (#[trigger] sorted[k]).0 && sorted[k].1 <= hi by {
        assert(sorted[k] == s[p[k] as int]);
    }
    lemma_merge_fold_bounds(sorted, lo, hi);
}

/// The law of the hotspot method: every area it selects (but the marker `(0, 0)` for none)
/// starts strictly after the start of `range`, so that its local maximum lies more than the
/// surrounding levels after it, and ends at least two levels before the last level.
pub proof fn lemma_hotspot_selection_within(dist: Seq<usize>, range: (usize, usize), s: usize, r: Seq<(usize, usize)>)
    requires
        dist.len() <= usize::MAX,
        merge_of(hotspot_ranges(dist, range, s), r),
    ensures
        forall|j: int| 0 <= j < r.len() && #[trigger] r[j] != (0usize, 0usize)
            ==> range.0 < r[j].0 && r[j].0 + s > range.0 && r[j].1 + 2 <= dist.len(),
{
    lemma_hotspot_areas(dist, range, s);
    let hr = hotspot_ranges(dist, range, s);
    assert forall|k: int| 0 <= k < hr.len() implies range.0 + 1 <= (#[trigger] hr[k]).0 && hr[k].1 <= dist.len() - 2 by {
        assert(hr[k] == hr[k]);
    }
    lemma_merge_of_bounds(hr, r, range.0 + 1, dist.len() - 2);
}

impl HotspotMethod {
    /// The areas around the local maxima of `distribution` after the start of `range`, merged.
    pub fn select_areas_for(&self, range: (usize, usize), distribution: Vec<usize>) -> (r: Vec<(usize, usize)>)
        requires
            range.0 + self.surrounding_area + 1 <= usize::MAX,
            self.surrounding_area < distribution@.len(),
        ensures
            exists|p: Seq<usize>| sorted_by_start(hotspot_ranges(distribution@, range, self.surrounding_area), p)
                && r@ == merged(p.map_values(|k: usize| hotspot_ranges(distribution@, range, self.surrounding_area)[k as int])),
            forall|j: int| 0 <= j < r@.len() && #[trigger] r@[j] != (0usize, 0usize)
                ==> range.0 < r@[j].0 && r@[j].1 + 2 <= distribution@.len(),
    {
        let distribution_len = distribution.len();
        let s = self.surrounding_area;
        let start_level = range.0 + s + 1;
        let mut ranges: Vec<(usize, usize)> = Vec::new();
        let stop = (distribution_len - s) - 1;
        let mut i: usize = start_level;
        proof {
            assert(ranges@ =~= hotspots(distribution@, s, start_level as int, start_level as int));
        }
        while i < stop
            invariant
                start_level == range.0 + s + 1,
                distribution_len == distribution@.len(),
                stop == distribution@.len() - s - 1,
                start_level <= stop ==> start_level <= i <= stop,
                stop < start_level ==> i == start_level,
                ranges@ == hotspots(distribution@, s, start_level as int, i as int),
                forall|k: int| 0 <= k < ranges@.len() ==> (#[trigger] ranges@[k]).0 >= 1,
            decreases stop - i,
        {
            if distribution[i] > distribution[i - 1] && distribution[i] > distribution[i + 1] {
                ranges.push((i - s, i + s));
            }
            i = i + 1;
        }
        proof {
            if stop >= start_level {
                assert(i == stop);
            } else {
                assert(hotspots(distribution@, s, start_level as int, stop as int) =~= Seq::<(usize, usize)>::empty());
                assert(ranges@ =~= hotspots(distribution@, s, start_level as int, stop as int));
            }
            assert(ranges@ == hotspot_ranges(distribution@, range, s));
        }
        let r = merge_ranges(&ranges);
        proof {
            assert(merge_of(hotspot_ranges(distribution@, range, s), r@));
            lemma_hotspot_selection_within(distribution@, range, s, r@);
        }
        r
    }
}

/// The node count of the levels `a` to `b - 1`.
pub open spec fn count_sum(nc: Seq<usize>, a: int, b: int) -> int
    decreases b - a,
{
    if b <= a {
        0
    } else {
        count_sum(nc, a, b - 1) + nc[b - 1]
    }
}

/// How many areas a range of `size` nodes is cut into for areas of `area` nodes: the size over
/// the area, rounded up (any number, as the largest `usize`, for areas of no nodes).
pub open spec fn pieces(size: int, area: int) -> int {
    if area == 0 {
        usize::MAX as int
    } else {
        (size + area - 1) / area
    }
}

/// Cutting the levels `start` to `i - 1`: the areas closed so far, the start of the open one
/// and its node count, closing an area once it holds `part` nodes.
pub open spec fn cut(nc: Seq<usize>, start: int, part: int, i: int) -> (Seq<(usize, usize)>, int, int)
    decreases i - start,
{
    if i <= start {
        (Seq::empty(), start, 0)
    } else {
        let (res, cs, acc) = cut(nc, start, part, i - 1);
        let acc2 = acc + nc[i - 1];
        if acc2 >= part {
            (res.push((cs as usize, (i - 1) as usize)), i, 0)
        } else {
            (res, cs, acc2)
        }
    }
}

/// The areas of one range: none for a range of at most two levels, the range itself if it holds
/// at most `area` nodes, else slices of about equal node count.
pub open spec fn split_range(nc: Seq<usize>, r: (usize, usize), area: usize) -> Seq<(usize, usize)> {
    let (start, end) = (r.0 as int, r.1 as int);
    let size = count_sum(nc, start, end + 1);
    if end - start <= 1 {
        Seq::empty()
    } else if size <= area {
        seq![r]
    } else {
        let part = size / pieces(size, area as int);
        let (res, cs, acc) = cut(nc, start, part, end);
        res.push((cs as usize, r.1))
    }
}

/// The areas of the first `k` ranges.
pub open spec fn split_all(ranges: Seq<(usize, usize)>, nc: Seq<usize>, area: usize, k: int) -> Seq<(usize, usize)>
    decreases k,
{
    if k <= 0 {
        Seq::empty()
    } else {
        split_all(ranges, nc, area, k - 1) + split_range(nc, ranges[k - 1], area)
    }
}

/// The ranges can be cut without reading past the node counts or overflowing.
pub open spec fn splittable(ranges: Seq<(usize, usize)>, nc: Seq<usize>) -> bool {
    forall|k: int| 0 <= k < ranges.len() ==> {
        let r = #[trigger] ranges[k];
        &&& r.0 <= r.1
        &&& r.1 - r.0 > 1 ==> r.1 < nc.len() && count_sum(nc, r.0 as int, r.1 + 1) <= usize::MAX
    }
}

/// The partial sums of the node counts grow.
proof fn lemma_count_sum_mono(nc: Seq<usize>, a: int, b: int, c: int)
    requires
        a <= b <= c,
    ensures
        count_sum(nc, a, b) <= count_sum(nc, a, c),
    decreases c - b,
{
    if b < c {
        lemma_count_sum_mono(nc, a, b, c - 1);
    }
}

/// The open area holds the nodes of its levels, at most all of the range.
proof fn lemma_cut(nc: Seq<usize>, start: int, part: int, i: int)
    requires
        start <= i,
    ensures
        start <= cut(nc, start, part, i).1 <= i,
        cut(nc, start, part, i).2 == count_sum(nc, cut(nc, start, part, i).1, i),
    decreases i - start,
{
    if i > start {
        lemma_cut(nc, start, part, i - 1);
    }
}

/// The node count of levels `a..b` is that of `a..c` and `c..b` together.
proof fn lemma_count_sum_split(nc: Seq<usize>, a: int, c: int, b: int)
    requires
        a <= c <= b,
    ensures
        count_sum(nc, a, b) == count_sum(nc, a, c) + count_sum(nc, c, b),
    decreases b - c,
{
    if c < b {
        lemma_count_sum_split(nc, a, c, b - 1);
    }
}

/// The areas closed by cutting from `start` follow each other without gaps, and the open one
/// starts on the level after the last closed one ends.
pub open spec fn chained(res: Seq<(usize, usize)>, start: int, cs: int) -> bool {
    &&& res.len() == 0 ==> cs == start
    &&& res.len() > 0 ==> res[0].0 == start && cs == res.last().1 + 1
    &&& forall|k: int| 0 <= k < res.len() ==> (#[trigger] res[k]).0 <= res[k].1
    &&& forall|k: int| 0 <= k < res.len() - 1 ==> (#[trigger] res[k + 1]).0 == res[k].1 + 1
}

/// Cutting keeps the areas chained.
proof fn lemma_cut_chained(nc: Seq<usize>, start: int, part: int, i: int)
    requires
        0 <= start <= i <= usize::MAX,
    ensures
        chained(cut(nc, start, part, i).0, start, cut(nc, start, part, i).1),
    decreases i - start,
{
    if i > start {
        lemma_cut_chained(nc, start, part, i - 1);
        lemma_cut(nc, start, part, i - 1);
        let (res, cs, acc) = cut(nc, start, part, i - 1);
        let (res2, cs2, acc2) = cut(nc, start, part, i);
        if acc + nc[i - 1] >= part {
            assert(res2 == res.push((cs as usize, (i - 1) as usize)));
            assert forall|k: int| 0 <= k < res2.len() implies (#[trigger] res2[k]).0 <= res2[k].1 by {
                if k < res.len() {
                    assert(res2[k] == res[k]);
                }
            }
            assert forall|k: int| 0 <= k < res2.len() - 1 implies (#[trigger] res2[k + 1]).0 == res2[k].1 + 1 by {
                assert(res2[k] == res[k]);
                if k + 1 < res.len() {
                    assert(res2[k + 1] == res[k + 1]);
                }
            }
            if res.len() > 0 {
                assert(res2[0] == res[0]);
            }
        }
    }
}

/// The areas of a range of more than two levels cover it without gaps or overlaps: the first
/// starts where the range starts, each next one starts on the level after the one before ends,
/// and the last ends where the range ends.
pub proof fn lemma_split_covers(nc: Seq<usize>, r: (usize, usize), area: usize)
    requires
        r.0 <= r.1,
        r.1 - r.0 > 1,
    ensures
        ({
            let s = split_range(nc, r, area);
            &&& s.len() > 0
            &&& s[0].0 == r.0
            &&& s.last().1 == r.1
            &&& forall|k: int| 0 <= k < s.len() ==> (#[trigger] s[k]).0 <= s[k].1
            &&& forall|k: int| 0 <= k < s.len() - 1 ==> (#[trigger] s[k + 1]).0 == s[k].1 + 1
        }),
{
    let size = count_sum(nc, r.0 as int, r.1 + 1);
    if size > area {
        let part = size / pieces(size, area as int);
        lemma_cut_chained(nc, r.0 as int, part, r.1 as int);
        lemma_cut(nc, r.0 as int, part, r.1 as int);
        let (res, cs, acc) = cut(nc, r.0 as int, part, r.1 as int);
        let s = res.push((cs as usize, r.1));
        assert(split_range(nc, r, area) == s);
        assert forall|k: int| 0 <= k < s.len() implies (#[trigger] s[k]).0 <= s[k].1 by {
            if k < res.len() {
                assert(s[k] == res[k]);
            }
        }
        assert forall|k: int| 0 <= k < s.len() - 1 implies (#[trigger] s[k + 1]).0 == s[k].1 + 1 by {
            assert(s[k] == res[k]);
            if k + 1 < res.len() {
                assert(s[k + 1] == res[k + 1]);
            }
        }
        if res.len() > 0 {
            assert(s[0] == res[0]);
        }
    }
}

/// Cuts one range into areas.
fn split_one(result: &mut Vec<(usize, usize)>, start: usize, end: usize, area_size: usize, node_count: &Vec<usize>)
    requires
        start <= end,
        end - start > 1 ==> end < node_count@.len() && count_sum(node_count@, start as int, end + 1) <= usize::MAX,
    ensures
        final(result)@ == old(result)@ + split_range(node_count@, (start, end), area_size),
{
    if end - start <= 1 {
        // area too small for reordering
        proof {
            assert(old(result)@ + split_range(node_count@, (start, end), area_size) =~= old(result)@);
        }
        return;
    }
    let ghost nc = node_count@;
    let len = node_count.len();
    let mut range_size: usize = 0;
    let mut j: usize = start;
    while j <= end
        invariant
            start <= j <= end + 1,
            end < nc.len(),
            len == nc.len(),
            nc == node_count@,
            count_sum(nc, start as int, end + 1) <= usize::MAX,
            range_size == count_sum(nc, start as int, j as int),
        decreases end + 1 - j,
    {
        proof {
            lemma_count_sum_mono(nc, start as int, j + 1, end + 1);
        }
        range_size = range_size + node_count[j];
        j = j + 1;
    }
    if range_size <= area_size {
        result.push((start, end));
        return;
    }
    // split into ranges with equal node count
    let range_count = if area_size == 0 {
        usize::MAX
    } else {
        if range_size % area_size == 0 {
            range_size / area_size
        } else {
            proof {
                assert(area_size >= 2);
                assert(range_size / area_size < usize::MAX) by (nonlinear_arith)
                    requires
                        area_size >= 2,
                        range_size <= usize::MAX,
                ;
            }
            range_size / area_size + 1
        }
    };
    proof {
        if area_size > 0 {
            assert(range_count == (range_size + area_size - 1) / (area_size as int)) by (nonlinear_arith)
                requires
                    area_size > 0,
                    range_count == if range_size % area_size == 0 { (range_size / area_size) as int } else { range_size / area_size + 1 },
            ;
            assert(range_count >= 1) by (nonlinear_arith)
                requires
                    area_size > 0,
                    range_size > area_size,
                    range_count == (range_size + area_size - 1) / (area_size as int),
            ;
        }
    }
    let range_count = range_size / range_count;
    let ghost part = range_count as int;
    let ghost before = result@;
    let mut res: Vec<(usize, usize)> = Vec::new();
    let mut current_range: usize = 0;
    let mut current_start: usize = start;
    let mut i: usize = start;
    while i < end
        invariant
            start <= i <= end,
            end < nc.len(),
            nc == node_count@,
            count_sum(nc, start as int, end + 1) <= usize::MAX,
            (res@, current_start as int, current_range as int) == cut(nc, start as int, part, i as int),
            part == range_count,
        decreases end - i,
    {
        proof {
            lemma_cut(nc, start as int, part, i as int);
            lemma_count_sum_split(nc, current_start as int, i as int, i + 1);
            lemma_count_sum_split(nc, start as int, current_start as int, i + 1);
            lemma_count_sum_mono(nc, start as int, i + 1, end + 1);
            lemma_count_sum_mono(nc, start as int, start as int, current_start as int);
        }
        current_range = current_range + node_count[i];
        if current_range >= range_count {
            res.push((current_start, i));
            current_start = i + 1;
            current_range = 0;
        }
        i = i + 1;
    }
    res.push((current_start, end));
    let mut k: usize = 0;
    while k < res.len()
        invariant
            k <= res@.len(),
            result@ == before + res@.subrange(0, k as int),
        decreases res@.len() - k,
    {
        result.push(res[k]);
        proof {
            assert(res@.subrange(0, k + 1) =~= res@.subrange(0, k as int).push(res@[k as int]));
        }
        k = k + 1;
    }
    proof {
        assert(res@.subrange(0, res@.len() as int) =~= res@);
    }
}

/// Splits ranges into smaller ranges with equal node count: with a maximal area size, ranges
/// of at most two levels are dropped, ranges within the size kept, and larger ones cut into
/// about equal slices; without one, the ranges are kept.
pub fn split_ranges_by_node_count(ranges: &Vec<(usize, usize)>, max_size: Option<usize>, node_count: &Vec<usize>) -> (r: Vec<(usize, usize)>)
    requires
        max_size is Some ==> splittable(ranges@, node_count@),
    ensures
        match max_size {
            None => r@ == ranges@,
            Some(area) => r@ == split_all(ranges@, node_count@, area, ranges@.len() as int),
        },
{
    let area_size = match max_size {
        None => {
            let mut out: Vec<(usize, usize)> = Vec::new();
            let mut k: usize = 0;
            while k < ranges.len()
                invariant
                    k <= ranges@.len(),
                    out@ == ranges@.subrange(0, k as int),
                decreases ranges@.len() - k,
            {
                out.push(ranges[k]);
                proof {
                    assert(ranges@.subrange(0, k + 1) =~= ranges@.subrange(0, k as int).push(ranges@[k as int]));
                }
                k = k + 1;
            }
            proof {
                assert(ranges@.subrange(0, ranges@.len() as int) =~= ranges@);
            }
            return out;
        },
        Some(a) => a,
    };
    let mut result: Vec<(usize, usize)> = Vec::new();
    let mut k: usize = 0;
    while k < ranges.len()
        invariant
            k <= ranges@.len(),
            max_size == Some(area_size),
            splittable(ranges@, node_count@),
            result@ == split_all(ranges@, node_count@, area_size, k as int),
        decreases ranges@.len() - k,
    {
        let (start, end) = ranges[k];
        proof {
            assert(ranges@[k as int] == (start, end));
        }
        split_one(&mut result, start, end, area_size, node_count);
        k = k + 1;
    }
    result
}

// ----------------------------------------------------------------------------------------
// Level statistics of a manager

impl DDManager {
    /// The number of nodes among the first `k` slots that lie on level `l`.
    pub open spec fn level_count(&self, l: int, k: int) -> int
        decreases k,
    {
        if k <= 0 {
            0
        } else {
            self.level_count(l, k - 1) + if self.live(k - 1) && self.level(k - 1) == l { 1int } else { 0int }
        }
    }

    /// How far the edge from node `i` to node `c` reaches down: no distance to nodes of variable
    /// 0 (the terminals) or 1, else the difference of their levels.
    pub open spec fn child_distance(&self, i: int, c: int) -> int {
        if self.node(c).var.0 == 0 || self.node(c).var.0 == 1 {
            0
        } else {
            self.level(c) - self.level(i)
        }
    }

    /// The total distance of the edges of the nodes among the first `k` slots on level `l`.
    pub open spec fn level_distance(&self, l: int, k: int) -> int
        decreases k,
    {
        if k <= 0 {
            0
        } else {
            self.level_distance(l, k - 1) + if self.live(k - 1) && self.level(k - 1) == l {
                self.child_distance(k - 1, self.node(k - 1).high.0 as int) + self.child_distance(k - 1, self.node(k - 1).low.0 as int)
            } else {
                0int
            }
        }
    }

    /// The node counts of all levels (0 up to the terminal level).
    pub open spec fn node_counts(&self) -> Seq<usize> {
        Seq::new((self.var2level@[0] + 1) as nat, |l: int| self.level_count(l, self.nodes@.len() as int) as usize)
    }

    /// The edge distances of all levels (0 up to the terminal level).
    pub open spec fn connection_distances(&self) -> Seq<usize> {
        Seq::new((self.var2level@[0] + 1) as nat, |l: int| self.level_distance(l, self.nodes@.len() as int) as usize)
    }

    /// Edges reach down: a node adds no negative distance.
    proof fn lemma_distance_step(&self, i: int)
        requires
            self.wf(),
        ensures
            self.live(i) ==> self.child_distance(i, self.node(i).high.0 as int) + self.child_distance(i, self.node(i).low.0 as int) >= 0,
    {
        if self.live(i) {
            self.lemma_level_bound(i);
            if i >= 2 {
                self.lemma_inner(i);
            } else {
                self.lemma_terminals();
            }
        }
    }

    /// Edges reach down: the distances only grow.
    proof fn lemma_distance_grows(&self, l: int, k: int, m: int)
        requires
            self.wf(),
            0 <= k <= m,
        ensures
            0 <= self.level_distance(l, k) <= self.level_distance(l, m),
        decreases m,
    {
        if m > k {
            self.lemma_distance_grows(l, k, m - 1);
            self.lemma_distance_step(m - 1);
        } else if k > 0 {
            self.lemma_distance_grows(l, k - 1, k - 1);
            self.lemma_distance_step(k - 1);
        }
    }

    /// Calculate the number of nodes for each level.
    pub fn calculate_node_count(&self) -> (r: Vec<usize>)
        requires
            self.wf(),
            self.var2level@[0] < usize::MAX,
        ensures
            r@ == self.node_counts(),
    {
        proof {
            self.lemma_terminals();
            self.lemma_valid_levels();
        }
        let n_levels = self.var2level[0] + 1;
        let mut counts: Vec<usize> = Vec::new();
        let mut l: usize = 0;
        while l < n_levels
            invariant
                l <= n_levels,
                counts@.len() == l,
                forall|j: int| 0 <= j < l ==> #[trigger] counts@[j] == 0,
            decreases n_levels - l,
        {
            counts.push(0);
            l = l + 1;
        }
        let mut i: usize = 0;
        while i < self.nodes.len()
            invariant
                self.wf(),
                n_levels == self.var2level@[0] + 1,
                i <= self.nodes@.len(),
                counts@.len() == n_levels,
                forall|j: int| 0 <= j < n_levels ==> #[trigger] counts@[j] == self.level_count(j, i as int),
                forall|j: int| 0 <= j < n_levels ==> self.level_count(j, i as int) <= i,
            decreases self.nodes@.len() - i,
        {
            match self.nodes[i] {
                Some(n) => {
                    proof {
                        assert(self.live(i as int));
                        self.lemma_level_bound(i as int);
                    }
                    let lv = self.var2level[n.var.0];
                    counts.set(lv, counts[lv] + 1);
                },
                None => {},
            }
            proof {
                assert forall|j: int| 0 <= j < n_levels implies #[trigger] self.level_count(j, i + 1) <= i + 1 by {
                    assert(self.level_count(j, i + 1) == self.level_count(j, i as int)
                        + if self.live(i as int) && self.level(i as int) == j { 1int } else { 0int });
                }
            }
            i = i + 1;
        }
        proof {
            assert(counts@ =~= self.node_counts());
        }
        counts
    }

    /// Calculate the total distance between nodes and their children for each level.
    pub fn calculate_connection_distance(&self) -> (r: Vec<usize>)
        requires
            self.wf(),
            self.var2level@[0] < usize::MAX,
            forall|l: int| 0 <= l <= self.var2level@[0] ==> self.level_distance(l, self.nodes@.len() as int) <= usize::MAX,
        ensures
            r@ == self.connection_distances(),
    {
        proof {
            self.lemma_terminals();
            self.lemma_valid_levels();
        }
        let n_levels = self.var2level[0] + 1;
        let mut sums: Vec<usize> = Vec::new();
        let mut l: usize = 0;
        while l < n_levels
            invariant
                l <= n_levels,
                sums@.len() == l,
                forall|j: int| 0 <= j < l ==> #[trigger] sums@[j] == 0,
            decreases n_levels - l,
        {
            sums.push(0);
            l = l + 1;
        }
        let mut i: usize = 0;
        while i < self.nodes.len()
            invariant
                self.wf(),
                n_levels == self.var2level@[0] + 1,
                i <= self.nodes@.len(),
                sums@.len() == n_levels,
                forall|l: int| 0 <= l <= self.var2level@[0] ==> self.level_distance(l, self.nodes@.len() as int) <= usize::MAX,
                forall|j: int| 0 <= j < n_levels ==> #[trigger] sums@[j] == self.level_distance(j, i as int),
            decreases self.nodes@.len() - i,
        {
            match self.nodes[i] {
                Some(n) => {
                    proof {
                        assert(self.live(i as int));
                        self.lemma_level_bound(i as int);
                        self.lemma_distance_grows(self.level(i as int), i + 1, self.nodes@.len() as int);
                        self.lemma_distance_grows(self.level(i as int), i as int, i + 1);
                        assert(self.level_distance(self.level(i as int), i + 1) == self.level_distance(self.level(i as int), i as int)
                            + self.child_distance(i as int, n.high.0 as int) + self.child_distance(i as int, n.low.0 as int));
                        if i >= 2 {
                            self.lemma_inner(i as int);
                        } else {
                            self.lemma_terminals();
                        }
                        self.lemma_level_bound(n.high.0 as int);
                        self.lemma_level_bound(n.low.0 as int);
                        self.lemma_distance_step(i as int);
                    }
                    let this = self.var2level[n.var.0];
                    let high = self.nodes[n.high.0].unwrap();
                    let low = self.nodes[n.low.0].unwrap();
                    let mut result: usize = 0;
                    if !(high.var.0 == 0 || high.var.0 == 1) {
                        result = result + (self.var2level[high.var.0] - this);
                    }
                    if !(low.var.0 == 0 || low.var.0 == 1) {
                        result = result + (self.var2level[low.var.0] - this);
                    }
                    sums.set(this, sums[this] + result);
                },
                None => {},
            }
            i = i + 1;
        }
        proof {
            assert(sums@ =~= self.connection_distances());
        }
        sums
    }
}

// ----------------------------------------------------------------------------------------
// Areas of a manager

/// `r` is `s` merged, taken by start level.
pub open spec fn merge_of(s: Seq<(usize, usize)>, r: Seq<(usize, usize)>) -> bool {
    exists|p: Seq<usize>| sorted_by_start(s, p) && r == merged(p.map_values(|k: usize| s[k as int]))
}

/// Every range starts at level 1 or later, but for `(0, 0)`.
pub open spec fn starts_ok(s: Seq<(usize, usize)>) -> bool {
    forall|k: int| 0 <= k < s.len() ==> (#[trigger] s[k]).0 >= 1 || s[k] == (0usize, 0usize)
}

/// Ranges starting at level 1 or later, or `(0, 0)`, can be merged.
proof fn lemma_starts_ok_mergeable(s: Seq<(usize, usize)>)
    requires
        starts_ok(s),
    ensures
        forall|i: int, j: int| #![trigger s[i], s[j]]
            0 <= i < j < s.len() && s[i].0 == 0 && s[j].0 == 0 ==> s[i].1 == 0,
{
    assert forall|i: int, j: int| #![trigger s[i], s[j]]
        0 <= i < j < s.len() && s[i].0 == 0 && s[j].0 == 0 implies s[i].1 == 0 by {
        assert(s[i].0 >= 1 || s[i] == (0usize, 0usize));
    }
}

/// Gathered ranges start after the start level.
proof fn lemma_gather_starts(dist: Seq<usize>, start: int, end: int, th: usize, k: int)
    requires
        start >= 0,
    ensures
        starts_ok(gather(dist, start, end, th, k).0.push(gather(dist, start, end, th, k).1)),
    decreases k,
{
    if k > 0 {
        lemma_gather_starts(dist, start, end, th, k - 1);
        let prev = gather(dist, start, end, th, k - 1);
        let pp = prev.0.push(prev.1);
        assert forall|j: int| 0 <= j < prev.0.len() implies (#[trigger] prev.0[j]).0 >= 1 || prev.0[j] == (0usize, 0usize) by {
            assert(pp[j] == prev.0[j]);
        }
        assert(pp[prev.0.len() as int] == prev.1);
        let cur = gather(dist, start, end, th, k);
        let cp = cur.0.push(cur.1);
        assert forall|j: int| 0 <= j < cp.len() implies (#[trigger] cp[j]).0 >= 1 || cp[j] == (0usize, 0usize) by {
            if j < prev.0.len() {
                assert(cp[j] == prev.0[j]);
            }
        }
    }
}

/// Merged ranges start at level 1 or later, or are `(0, 0)`.
proof fn lemma_merge_fold_starts(s: Seq<(usize, usize)>)
    requires
        starts_ok(s),
    ensures
        starts_ok(merge_fold(s).0.push(merge_fold(s).1)),
    decreases s.len(),
{
    if s.len() > 0 {
        assert(starts_ok(s.drop_last())) by {
            assert forall|k: int| 0 <= k < s.drop_last().len() implies (#[trigger] s.drop_last()[k]).0 >= 1 || s.drop_last()[k] == (0usize, 0usize) by {
                assert(s.drop_last()[k] == s[k]);
            }
        }
        lemma_merge_fold_starts(s.drop_last());
        let prev = merge_fold(s.drop_last());
        let pp = prev.0.push(prev.1);
        assert forall|j: int| 0 <= j < prev.0.len() implies (#[trigger] prev.0[j]).0 >= 1 || prev.0[j] == (0usize, 0usize) by {
            assert(pp[j] == prev.0[j]);
        }
        assert(pp[prev.0.len() as int] == prev.1);
        assert(s.last() == s[s.len() - 1]);
        let cur = merge_fold(s);
        let cp = cur.0.push(cur.1);
        assert forall|j: int| 0 <= j < cp.len() implies (#[trigger] cp[j]).0 >= 1 || cp[j] == (0usize, 0usize) by {
            if j < prev.0.len() {
                assert(cp[j] == prev.0[j]);
            }
        }
    }
}

/// Merging keeps the starts valid.
proof fn lemma_merge_of_starts(s: Seq<(usize, usize)>, r: Seq<(usize, usize)>)
    requires
        starts_ok(s),
        merge_of(s, r),
    ensures
        starts_ok(r),
{
    let p = choose|p: Seq<usize>| sorted_by_start(s, p) && r == merged(p.map_values(|k: usize| s[k as int]));
    let sorted = p.map_values(|k: usize| s[k as int]);
    assert(starts_ok(sorted)) by {
        assert forall|k: int| 0 <= k < sorted.len() implies (#[trigger] sorted[k]).0 >= 1 || sorted[k] == (0usize, 0usize) by {
            assert(sorted[k] == s[p[k] as int]);
        }
    }
    lemma_merge_fold_starts(sorted);
}

/// Appends the second list of ranges to the first.
fn append_ranges(a: &mut Vec<(usize, usize)>, b: &Vec<(usize, usize)>)
    ensures
        final(a)@ == old(a)@ + b@,
{
    let ghost start = a@;
    let mut k: usize = 0;
    while k < b.len()
        invariant
            k <= b@.len(),
            a@ == start + b@.subrange(0, k as int),
        decreases b@.len() - k,
    {
        a.push(b[k]);
        proof {
            assert(b@.subrange(0, k + 1) =~= b@.subrange(0, k as int).push(b@[k as int]));
        }
        k = k + 1;
    }
    proof {
        assert(b@.subrange(0, b@.len() as int) =~= b@);
    }
}

/// The starts of two lists are valid together.
proof fn lemma_starts_ok_concat(a: Seq<(usize, usize)>, b: Seq<(usize, usize)>)
    requires
        starts_ok(a),
        starts_ok(b),
    ensures
        starts_ok(a + b),
{
    assert forall|k: int| 0 <= k < (a + b).len() implies (#[trigger] (a + b)[k]).0 >= 1 || (a + b)[k] == (0usize, 0usize) by {
        if k < a.len() {
            assert((a + b)[k] == a[k]);
        } else {
            assert((a + b)[k] == b[k - a.len()]);
        }
    }
}

impl ThresholdMethod {
    /// The areas where the node count or the edge distance of the levels lies above its
    /// median, merged.
    pub fn select_areas(&self, man: &DDManager, range: (usize, usize)) -> (r: Vec<(usize, usize)>)
        requires
            man.wf(),
            man.var2level@[0] < usize::MAX,
            forall|l: int| 0 <= l <= man.var2level@[0] ==> man.level_distance(l, man.nodes@.len() as int) <= usize::MAX,
            forall|th: usize| is_median(man.node_counts(), th) ==> !threshold_underflows(man.node_counts(), range, th),
            forall|th: usize| is_median(man.connection_distances(), th) ==> !threshold_underflows(man.connection_distances(), range, th),
        ensures
            exists|t1: usize, t2: usize| is_median(man.node_counts(), t1) && is_median(man.connection_distances(), t2)
                && merge_of(threshold_ranges(man.node_counts(), range, t1) + threshold_ranges(man.connection_distances(), range, t2), r@),
    {
        let mut areas_node_count = self.select_areas_for(range, man.calculate_node_count());
        let areas_connection_distance = self.select_areas_for(range, man.calculate_connection_distance());
        let ghost a = areas_node_count@;
        let ghost b = areas_connection_distance@;
        append_ranges(&mut areas_node_count, &areas_connection_distance);
        proof {
            let t1 = choose|t1: usize| is_median(man.node_counts(), t1) && a == threshold_ranges(man.node_counts(), range, t1);
            let t2 = choose|t2: usize| is_median(man.connection_distances(), t2) && b == threshold_ranges(man.connection_distances(), range, t2);
            let c = man.node_counts();
            let d = man.connection_distances();
            let ec = if c.len() <= range.1 { c.len() as int } else { range.1 as int };
            let ed = if d.len() <= range.1 { d.len() as int } else { range.1 as int };
            lemma_gather_starts(c, range.0 as int, ec, t1, c.len() as int);
            lemma_gather_starts(d, range.0 as int, ed, t2, d.len() as int);
            lemma_starts_ok_concat(a, b);
            lemma_starts_ok_mergeable(areas_node_count@);
            assert(is_median(c, t1) && is_median(d, t2));
        }
        let r = merge_ranges(&areas_node_count);
        proof {
            let t1 = choose|t1: usize| is_median(man.node_counts(), t1) && a == threshold_ranges(man.node_counts(), range, t1);
            let t2 = choose|t2: usize| is_median(man.connection_distances(), t2) && b == threshold_ranges(man.connection_distances(), range, t2);
            assert(merge_of(threshold_ranges(man.node_counts(), range, t1) + threshold_ranges(man.connection_distances(), range, t2), r@));
        }
        r
    }
}


/// The areas around local maxima start at level 1 or later.
proof fn lemma_hotspots_start(dist: Seq<usize>, s: usize, start: int, k: int)
    requires
        start >= s + 1,
        k <= usize::MAX,
    ensures
        starts_ok(hotspots(dist, s, start, k)),
    decreases k - start,
{
    if k > start {
        lemma_hotspots_start(dist, s, start, k - 1);
        let prev = hotspots(dist, s, start, k - 1);
        let cur = hotspots(dist, s, start, k);
        assert forall|j: int| 0 <= j < cur.len() implies (#[trigger] cur[j]).0 >= 1 || cur[j] == (0usize, 0usize) by {
            if j < prev.len() {
                assert(cur[j] == prev[j]);
            }
        }
    }
}

impl HotspotMethod {
    /// The areas around the local maxima of the node counts and of the edge distances, each
    /// merged, then merged together.
    pub fn select_areas(&self, man: &DDManager, range: (usize, usize)) -> (r: Vec<(usize, usize)>)
        requires
            man.wf(),
            man.var2level@[0] < usize::MAX,
            forall|l: int| 0 <= l <= man.var2level@[0] ==> man.level_distance(l, man.nodes@.len() as int) <= usize::MAX,
            range.0 + self.surrounding_area + 1 <= usize::MAX,
            self.surrounding_area <= man.var2level@[0],
        ensures
            exists|r1: Seq<(usize, usize)>, r2: Seq<(usize, usize)>|
                merge_of(hotspot_ranges(man.node_counts(), range, self.surrounding_area), r1)
                && merge_of(hotspot_ranges(man.connection_distances(), range, self.surrounding_area), r2)
                && merge_of(r1 + r2, r@),
    {
        let mut areas_node_count = self.select_areas_for(range, man.calculate_node_count());
        let areas_connection_distance = self.select_areas_for(range, man.calculate_connection_distance());
        let ghost a = areas_node_count@;
        let ghost b = areas_connection_distance@;
        let ghost s = self.surrounding_area;
        proof {
            let c = man.node_counts();
            let d = man.connection_distances();
            lemma_hotspots_start(c, s, range.0 + s + 1, c.len() - s - 1);
            lemma_hotspots_start(d, s, range.0 + s + 1, d.len() - s - 1);
            assert(merge_of(hotspot_ranges(c, range, s), a));
            assert(merge_of(hotspot_ranges(d, range, s), b));
            lemma_merge_of_starts(hotspot_ranges(c, range, s), a);
            lemma_merge_of_starts(hotspot_ranges(d, range, s), b);
        }
        append_ranges(&mut areas_node_count, &areas_connection_distance);
        proof {
            lemma_starts_ok_concat(a, b);
            lemma_starts_ok_mergeable(areas_node_count@);
        }
        let r = merge_ranges(&areas_node_count);
        proof {
            assert(merge_of(a + b, r@));
        }
        r
    }
}


impl DDManager {
    /// The nodes among the first `k` slots on the levels below `m`, counted level by level.
    pub open spec fn levels_total(&self, m: int, k: int) -> int
        decreases m,
    {
        if m <= 0 {
            0
        } else {
            self.levels_total(m - 1, k) + self.level_count(m - 1, k)
        }
    }

    /// One more slot adds its node to the level it lies on.
    proof fn lemma_levels_total_step(&self, m: int, k: int)
        requires
            k > 0,
        ensures
            self.levels_total(m, k) == self.levels_total(m, k - 1)
                + if self.live(k - 1) && 0 <= self.level(k - 1) < m { 1int } else { 0int },
        decreases m,
    {
        if m > 0 {
            self.lemma_levels_total_step(m - 1, k);
        }
    }

    /// No slot is counted twice.
    proof fn lemma_levels_total_bound(&self, m: int, k: int)
        requires
            k >= 0,
        ensures
            0 <= self.levels_total(m, k) <= k,
        decreases k,
    {
        if k > 0 {
            self.lemma_levels_total_bound(m, k - 1);
            self.lemma_levels_total_step(m, k);
        } else {
            self.lemma_levels_total_zero(m);
        }
    }

    /// No slots, no nodes.
    proof fn lemma_levels_total_zero(&self, m: int)
        ensures
            self.levels_total(m, 0) == 0,
        decreases m,
    {
        if m > 0 {
            self.lemma_levels_total_zero(m - 1);
        }
    }

    /// A level holds no negative number of nodes.
    proof fn lemma_level_count_nonneg(&self, l: int, k: int)
        ensures
            self.level_count(l, k) >= 0,
        decreases k,
    {
        if k > 0 {
            self.lemma_level_count_nonneg(l, k - 1);
        }
    }

    /// The node counts of the first `m` levels sum to the nodes on them.
    proof fn lemma_count_sum_total(&self, m: int)
        requires
            0 <= m <= self.node_counts().len(),
            self.nodes@.len() <= usize::MAX,
        ensures
            count_sum(self.node_counts(), 0, m) == self.levels_total(m, self.nodes@.len() as int),
        decreases m,
    {
        if m > 0 {
            self.lemma_count_sum_total(m - 1);
            self.lemma_levels_total_bound(m, self.nodes@.len() as int);
            self.lemma_levels_total_bound(m - 1, self.nodes@.len() as int);
            self.lemma_level_count_nonneg(m - 1, self.nodes@.len() as int);
            assert(self.node_counts()[m - 1] == self.level_count(m - 1, self.nodes@.len() as int) as usize);
        }
    }
}

/// The area size of the equal split: the nodes of all levels over the number of splits.
pub open spec fn equal_area(nc: Seq<usize>, n_splits: usize) -> usize {
    (count_sum(nc, 0, nc.len() as int) / n_splits as int) as usize
}

impl EqualSplitMethod {
    /// The levels after the start of `range` up to the one before the last, cut into slices of
    /// about the node count of all levels over the number of splits.
    pub fn select_areas(&self, man: &DDManager, range: (usize, usize)) -> (r: Vec<(usize, usize)>)
        requires
            man.wf(),
            man.var2level@[0] < usize::MAX,
            self.n_splits > 0,
            self.n_splits < man.var2level@[0] + 1,
            range.0 + 3 <= man.var2level@[0] + 1,
        ensures
            r@ == split_range(man.node_counts(), ((range.0 + 1) as usize, (man.var2level@[0] - 1) as usize),
                equal_area(man.node_counts(), self.n_splits)),
    {
        let distribution = man.calculate_node_count();
        let ghost nc = distribution@;
        let len = distribution.len();
        let _slots = man.nodes.len();
        proof {
            man.lemma_count_sum_total(len as int);
            man.lemma_levels_total_bound(len as int, man.nodes@.len() as int);
        }
        let mut sum: usize = 0;
        let mut j: usize = 0;
        while j < len
            invariant
                j <= len,
                len == nc.len(),
                nc == distribution@,
                count_sum(nc, 0, len as int) <= usize::MAX,
                sum == count_sum(nc, 0, j as int),
            decreases len - j,
        {
            proof {
                lemma_count_sum_mono(nc, 0, j + 1, len as int);
            }
            sum = sum + distribution[j];
            j = j + 1;
        }
        let area_size = sum / self.n_splits;
        let start_level = range.0;
        let ranges = vec![(start_level + 1, len - 2)];
        proof {
            lemma_count_sum_split(nc, 0, start_level + 1, len - 1);
            lemma_count_sum_mono(nc, 0, len - 1, len as int);
            lemma_count_sum_mono(nc, 0, 0, start_level + 1);
            assert(splittable(ranges@, nc)) by {
                assert(ranges@[0] == ((start_level + 1) as usize, (len - 2) as usize));
            }
        }
        let r = split_ranges_by_node_count(&ranges, Some(area_size), &distribution);
        proof {
            assert(ranges@[0] == ((range.0 + 1) as usize, (man.var2level@[0] - 1) as usize));
            assert(split_all(ranges@, nc, area_size, 0) =~= Seq::<(usize, usize)>::empty());
            assert(split_all(ranges@, nc, area_size, 1) =~= split_range(nc, ranges@[0], area_size));
        }
        r
    }
}


impl AreaSelectionEnum {
    /// The areas that the chosen method selects.
    pub fn select_areas(&self, man: &DDManager, range: (usize, usize)) -> (r: Vec<(usize, usize)>)
        requires
            man.wf(),
            man.var2level@[0] < usize::MAX,
            forall|l: int| 0 <= l <= man.var2level@[0] ==> man.level_distance(l, man.nodes@.len() as int) <= usize::MAX,
            self matches AreaSelectionEnum::ThresholdMethod(_) ==> {
                &&& forall|th: usize| is_median(man.node_counts(), th) ==> !threshold_underflows(man.node_counts(), range, th)
                &&& forall|th: usize| is_median(man.connection_distances(), th) ==> !threshold_underflows(man.connection_distances(), range, th)
            },
            self matches AreaSelectionEnum::EqualSplitMethod(m) ==> {
                &&& m.n_splits > 0
                &&& m.n_splits < man.var2level@[0] + 1
                &&& range.0 + 3 <= man.var2level@[0] + 1
            },
            self matches AreaSelectionEnum::HotspotMethod(m) ==> {
                &&& range.0 + m.surrounding_area + 1 <= usize::MAX
                &&& m.surrounding_area <= man.var2level@[0]
            },
        ensures
            match self {
                AreaSelectionEnum::ThresholdMethod(_) =>
                    exists|t1: usize, t2: usize| is_median(man.node_counts(), t1) && is_median(man.connection_distances(), t2)
                        && merge_of(threshold_ranges(man.node_counts(), range, t1) + threshold_ranges(man.connection_distances(), range, t2), r@),
                AreaSelectionEnum::EqualSplitMethod(m) =>
                    r@ == split_range(man.node_counts(), ((range.0 + 1) as usize, (man.var2level@[0] - 1) as usize),
                        equal_area(man.node_counts(), m.n_splits)),
                AreaSelectionEnum::HotspotMethod(m) =>
                    exists|r1: Seq<(usize, usize)>, r2: Seq<(usize, usize)>|
                        merge_of(hotspot_ranges(man.node_counts(), range, m.surrounding_area), r1)
                        && merge_of(hotspot_ranges(man.connection_distances(), range, m.surrounding_area), r2)
                        && merge_of(r1 + r2, r@),
            },
    {
        match self {
            AreaSelectionEnum::ThresholdMethod(m) => m.select_areas(man, range),
            AreaSelectionEnum::EqualSplitMethod(m) => m.select_areas(man, range),
            AreaSelectionEnum::HotspotMethod(m) => m.select_areas(man, range),
        }
    }
}

} // verus!
