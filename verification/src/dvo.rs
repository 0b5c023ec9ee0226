//! Dynamic variable ordering: configuration types, the bookkeeping of layer swaps, and the
//! computations on level ranges that choose where to reorder.
use vstd::prelude::*;
use crate::bdd_node::{NodeID, VarID};
use crate::bdd_manager::DDManager;
use crate::sorting::{sorted_indices, index_before};
use std::time::{Duration, Instant};

verus! {

// ----------------------------------------------------------------------------------------
// When to reorder

/// Dummy DVO implementation that does nothing
pub struct NoDVOSchedule {}

/// Always perform sifting of all variables until the number of nodes does not change anymore.
pub struct AlwaysUntilConvergence {}

/// Run one iteration of sifting for all variables, every time it's called.
pub struct AlwaysOnce {
    pub max_increase: Option<u32>,
}

/// Call the underlying strategy if the node count exceeds the specified limit
pub struct AtThreshold {
    pub active_nodes_threshold: u32,
    pub underlying_schedule: Box<DVOScheduleEnum>,
}

/// Performs sifting until the number of nodes does not change anymore,
/// but only if the initial number of nodes exceeds a configurable threshold.
pub struct SiftingAtThreshold {
    pub underlying: AtThreshold,
}

impl SiftingAtThreshold {
    pub fn new(active_nodes_threshold: u32) -> (r: SiftingAtThreshold)
        ensures
            r.underlying.active_nodes_threshold == active_nodes_threshold,
            *r.underlying.underlying_schedule is AlwaysUntilConvergence,
    {
        SiftingAtThreshold {
            underlying: AtThreshold {
                active_nodes_threshold,
                underlying_schedule: Box::new(DVOScheduleEnum::AlwaysUntilConvergence(AlwaysUntilConvergence {})),
            },
        }
    }
}

/// `std::time::Instant`: a point in time, seen from outside only.
#[verifier::external_type_specification]
#[verifier::external_body]
pub struct ExInstant(Instant);

/// `Instant::now`: the time of the call, which no contract can name.
#[verifier::external_body]
pub(crate) fn now() -> Instant {
    Instant::now()
}

/// `Instant::elapsed`: the time that has passed since `since`, which no contract can name.
#[verifier::external_body]
pub(crate) fn elapsed(since: &Instant) -> Duration {
    since.elapsed()
}

/// `>` on `Duration` (its `PartialOrd`): `a` is the longer span. `Duration` is seen from outside
/// only, so nothing is stated of the answer.
#[verifier::external_body]
pub(crate) fn longer(a: &Duration, b: &Duration) -> bool {
    *a > *b
}

/// Calls the underlying DVO mode if the specified duration has passed since the last
/// invocation, or the nodes table exceeds the size specified in `limit`.
pub struct TimeSizeLimit {
    pub interval: Duration,
    pub limit: usize,
    /// When the underlying schedule last ran (or the schedule was made).
    pub last_dvo: Instant,
    pub underlying_schedule: Box<DVOScheduleEnum>,
}

impl TimeSizeLimit {
    pub fn new(interval: Duration, limit: usize, underlying_schedule: Box<DVOScheduleEnum>) -> (r: TimeSizeLimit)
        ensures
            r.interval == interval,
            r.limit == limit,
            r.underlying_schedule == underlying_schedule,
    {
        TimeSizeLimit { interval, limit, last_dvo: now(), underlying_schedule }
    }
}

/// This contains all available DVO schedules
pub enum DVOScheduleEnum {
    NoDVOSchedule(NoDVOSchedule),
    AlwaysUntilConvergence(AlwaysUntilConvergence),
    AtThreshold(AtThreshold),
    SiftingAtThreshold(SiftingAtThreshold),
    TimeSizeLimit(TimeSizeLimit),
    AlwaysOnce(AlwaysOnce),
}

impl Default for DVOScheduleEnum {
    fn default() -> (r: Self)
        ensures
            r is NoDVOSchedule,
    {
        DVOScheduleEnum::NoDVOSchedule(NoDVOSchedule {})
    }
}

/// Options for BDD building
pub struct Options {
    /// Display progress bars for BDD building and DVO progress
    pub progressbars: bool,
    /// DVO strategy: When and how to run DVO
    pub dvo: DVOScheduleEnum,
}

impl Default for Options {
    fn default() -> (r: Self)
        ensures
            !r.progressbars,
            r.dvo is NoDVOSchedule,
    {
        Options { progressbars: false, dvo: DVOScheduleEnum::default() }
    }
}

impl Options {
    pub fn with_progressbars(self) -> (r: Options)
        ensures
            r.progressbars,
            r.dvo == self.dvo,
    {
        let mut s = self;
        s.progressbars = true;
        s
    }

    pub fn with_dvo(self, schedule: DVOScheduleEnum) -> (r: Options)
        ensures
            r.progressbars == self.progressbars,
            r.dvo == schedule,
    {
        let mut s = self;
        s.dvo = schedule;
        s
    }
}

// ----------------------------------------------------------------------------------------
// How to reorder

pub struct RegularSifting {}

pub struct Sifting {}

pub struct WindowPermutation {}

/// Reordering strategies that work on several areas at once.
pub enum ConcurrentDVOStrategieEnum {
    WindowPermutation(WindowPermutation),
    Sifting(Sifting),
}

impl Default for ConcurrentDVOStrategieEnum {
    fn default() -> (r: Self)
        ensures
            r is Sifting,
    {
        ConcurrentDVOStrategieEnum::Sifting(Sifting {})
    }
}

pub struct ConcurrentDVO {
    pub strategy: ConcurrentDVOStrategieEnum,
    pub area_selection: AreaSelectionEnum,
}

impl ConcurrentDVO {
    pub fn new(strategy: ConcurrentDVOStrategieEnum, area_selection: AreaSelectionEnum) -> (r: Self)
        ensures
            r.strategy == strategy,
            r.area_selection == area_selection,
    {
        Self { strategy, area_selection }
    }
}

/// This contains all available DVO implementations
pub enum DVOStrategieEnum {
    RegularSifting(RegularSifting),
    ConcurrentDVO(ConcurrentDVO),
}

// ----------------------------------------------------------------------------------------
// Where to reorder

pub struct ThresholdMethod {}

impl ThresholdMethod {
    pub fn new() -> (r: Self) {
        ThresholdMethod {}
    }
}

pub struct EqualSplitMethod {
    pub n_splits: usize,
}

/// `num_cpus::get`: the number of logical cores available to the current process, which its
/// documentation promises to be at least 1; the number itself depends on the machine.
#[verifier::external_body]
fn logical_cpus() -> (r: usize)
    ensures
        r >= 1,
{
    num_cpus::get()
}

impl EqualSplitMethod {
    pub fn new(n_splits: usize) -> (r: Self)
        ensures
            r.n_splits == n_splits,
    {
        EqualSplitMethod { n_splits }
    }
}

impl Default for EqualSplitMethod {
    /// One area per logical core.
    fn default() -> (r: Self)
        ensures
            r.n_splits >= 1,
    {
        EqualSplitMethod::new(logical_cpus())
    }
}

pub struct HotspotMethod {
    /// The number of layers surrounding a hotspot
    pub surrounding_area: usize,
}

/// This contains all available methods of choosing areas
pub enum AreaSelectionEnum {
    ThresholdMethod(ThresholdMethod),
    EqualSplitMethod(EqualSplitMethod),
    HotspotMethod(HotspotMethod),
}

impl Default for AreaSelectionEnum {
    fn default() -> (r: Self)
        ensures
            r is ThresholdMethod,
    {
        AreaSelectionEnum::ThresholdMethod(ThresholdMethod::new())
    }
}

/// The sorted value sequence: `p` lists the positions of `s` so that their values never
/// decrease, positions of equal value in increasing order.
pub open spec fn stable_sorted_positions(s: Seq<usize>, p: Seq<usize>) -> bool {
    &&& p.len() == s.len()
    &&& p.no_duplicates()
    &&& forall|k: int| 0 <= k < p.len() ==> #[trigger] p[k] < s.len()
    &&& forall|k: int, l: int| 0 <= k < l < p.len() ==> s[#[trigger] p[k] as int] < s[#[trigger] p[l] as int]
        || (s[p[k] as int] == s[p[l] as int] && p[k] < p[l])
}

/// Calculate the median of a list of numbers: the element in the middle of the sorted list
/// (the upper one of the two middle elements for an even length).
pub fn median(list: &[usize]) -> (r: usize)
    requires
        list@.len() > 0,
    ensures
        exists|p: Seq<usize>| stable_sorted_positions(list@, p) && r == list@[p[(list@.len() / 2) as int] as int],
{
    let mut weights: Vec<u128> = Vec::new();
    let mut i: usize = 0;
    while i < list.len()
        invariant
            i <= list@.len(),
            weights@.len() == i,
            forall|k: int| 0 <= k < i ==> #[trigger] weights@[k] == list@[k],
        decreases list@.len() - i,
    {
        weights.push(list[i] as u128);
        i = i + 1;
    }
    let p = sorted_indices(&weights);
    let mid = list.len() / 2;
    let r = list[p[mid]];
    proof {
        assert forall|k: int, l: int| 0 <= k < l < p@.len() implies list@[#[trigger] p@[k] as int] < list@[#[trigger] p@[l] as int]
            || (list@[p@[k] as int] == list@[p@[l] as int] && p@[k] < p@[l]) by {
            assert(index_before(weights@, p@[k] as int, p@[l] as int));
        }
        assert(stable_sorted_positions(list@, p@));
        assert(stable_sorted_positions(list@, p@) && r == list@[p@[(list@.len() / 2) as int] as int]);
    }
    r
}

// ----------------------------------------------------------------------------------------
// Merging level ranges

/// One step of merging: a range that starts at most one level after the current range ends
/// extends it; any other range closes it and becomes the current one. `(0, 0)` stands for
/// "no current range".
pub open spec fn merge_step(st: (Seq<(usize, usize)>, (usize, usize)), r: (usize, usize)) -> (Seq<(usize, usize)>, (usize, usize)) {
    let (res, cur) = st;
    if cur == (0usize, 0usize) {
        (res, r)
    } else if r.0 - 1 <= cur.1 {
        (res, if r.1 > cur.1 { (cur.0, r.1) } else { cur })
    } else {
        (res.push(cur), r)
    }
}

pub open spec fn merge_fold(s: Seq<(usize, usize)>) -> (Seq<(usize, usize)>, (usize, usize))
    decreases s.len(),
{
    if s.len() == 0 {
        (Seq::empty(), (0usize, 0usize))
    } else {
        merge_step(merge_fold(s.drop_last()), s.last())
    }
}

/// The ranges merged, in the order of a sorted list of ranges.
pub open spec fn merged(s: Seq<(usize, usize)>) -> Seq<(usize, usize)> {
    merge_fold(s).0.push(merge_fold(s).1)
}

/// Level `x` lies in one of the ranges.
pub open spec fn covers(s: Seq<(usize, usize)>, x: int) -> bool {
    exists|k: int| 0 <= k < s.len() && (#[trigger] s[k]).0 <= x <= s[k].1
}

/// What holds after merging a nonempty list sorted by start: the closed ranges are in order and
/// apart, the current one follows them apart and starts no later than the last range read, and
/// together they cover the levels of the ranges read.
pub open spec fn merge_inv(s: Seq<(usize, usize)>, st: (Seq<(usize, usize)>, (usize, usize))) -> bool {
    let (res, cur) = st;
    &&& 1 <= cur.0 <= cur.1
    &&& cur.0 <= s.last().0
    &&& forall|j: int| 0 <= j < res.len() ==> (#[trigger] res[j]).0 <= res[j].1
    &&& forall|j: int| 0 <= j < res.len() - 1 ==> (#[trigger] res[j + 1]).0 > res[j].1 + 1
    &&& res.len() > 0 ==> cur.0 > res.last().1 + 1
    &&& forall|x: int| x >= 1 ==> (covers(s, x) <==> (cur.0 <= x <= cur.1 || covers(res, x)))
}

/// Merging keeps its invariant.
proof fn lemma_merge_inv(s: Seq<(usize, usize)>)
    requires
        s.len() > 0,
        forall|k: int| 0 <= k < s.len() ==> 1 <= (#[trigger] s[k]).0 <= s[k].1,
        forall|k: int, l: int| 0 <= k < l < s.len() ==> (#[trigger] s[k]).0 <= (#[trigger] s[l]).0,
    ensures
        merge_inv(s, merge_fold(s)),
    decreases s.len(),
{
    let p = s.drop_last();
    let r = s.last();
    assert(r == s[s.len() - 1]);
    if p.len() == 0 {
        assert(merge_fold(p) == (Seq::<(usize, usize)>::empty(), (0usize, 0usize)));
        assert forall|x: int| x >= 1 implies (covers(s, x) <==> (r.0 <= x <= r.1 || covers(Seq::<(usize, usize)>::empty(), x))) by {
            if covers(s, x) {
                let k = choose|k: int| 0 <= k < s.len() && (#[trigger] s[k]).0 <= x <= s[k].1;
                assert(k == 0);
            }
        }
    } else {
        assert forall|k: int| 0 <= k < p.len() implies 1 <= (#[trigger] p[k]).0 <= p[k].1 by {
            assert(p[k] == s[k]);
        }
        assert forall|k: int, l: int| 0 <= k < l < p.len() implies (#[trigger] p[k]).0 <= (#[trigger] p[l]).0 by {
            assert(p[k] == s[k] && p[l] == s[l]);
        }
        lemma_merge_inv(p);
        let (res, cur) = merge_fold(p);
        assert(p.last() == s[s.len() - 2]);
        assert(s[s.len() - 2].0 <= r.0);
        assert(cur != (0usize, 0usize));
        let (res2, cur2) = merge_fold(s);
        assert forall|x: int| x >= 1 implies (covers(s, x) <==> (covers(p, x) || (r.0 <= x <= r.1))) by {
            if covers(s, x) {
                let k = choose|k: int| 0 <= k < s.len() && (#[trigger] s[k]).0 <= x <= s[k].1;
                if k < p.len() {
                    assert(p[k] == s[k]);
                }
            }
            if covers(p, x) {
                let k = choose|k: int| 0 <= k < p.len() && (#[trigger] p[k]).0 <= x <= p[k].1;
                assert(s[k] == p[k]);
            }
        }
        if r.0 - 1 <= cur.1 {
            assert(res2 == res);
        } else {
            assert(res2 == res.push(cur));
            assert forall|j: int| 0 <= j < res2.len() implies (#[trigger] res2[j]).0 <= res2[j].1 by {
                if j < res.len() {
                    assert(res2[j] == res[j]);
                }
            }
            assert forall|j: int| 0 <= j < res2.len() - 1 implies (#[trigger] res2[j + 1]).0 > res2[j].1 + 1 by {
                assert(res2[j] == res[j]);
                if j + 1 < res.len() {
                    assert(res2[j + 1] == res[j + 1]);
                }
            }
            assert forall|x: int| x >= 1 implies ((cur.0 <= x <= cur.1 || covers(res, x)) <==> covers(res2, x)) by {
                if covers(res, x) {
                    let j = choose|j: int| 0 <= j < res.len() && (#[trigger] res[j]).0 <= x <= res[j].1;
                    assert(res2[j] == res[j]);
                }
                if cur.0 <= x <= cur.1 {
                    assert(res2[res.len() as int] == cur);
                }
                if covers(res2, x) {
                    let j = choose|j: int| 0 <= j < res2.len() && (#[trigger] res2[j]).0 <= x <= res2[j].1;
                    if j < res.len() {
                        assert(res2[j] == res[j]);
                    }
                }
            }
        }
    }
}

/// Merged ranges are in order and apart (each next one starts more than one level after the one
/// before ends), and cover exactly the levels of the ranges merged: the law of merging a
/// nonempty list of ranges sorted by start, none starting at level 0.
pub proof fn lemma_merged_apart(s: Seq<(usize, usize)>)
    requires
        s.len() > 0,
        forall|k: int| 0 <= k < s.len() ==> 1 <= (#[trigger] s[k]).0 <= s[k].1,
        forall|k: int, l: int| 0 <= k < l < s.len() ==> (#[trigger] s[k]).0 <= (#[trigger] s[l]).0,
    ensures
        forall|j: int| 0 <= j < merged(s).len() ==> (#[trigger] merged(s)[j]).0 <= merged(s)[j].1,
        forall|j: int| 0 <= j < merged(s).len() - 1 ==> (#[trigger] merged(s)[j + 1]).0 > merged(s)[j].1 + 1,
        forall|x: int| x >= 1 ==> (covers(s, x) <==> covers(merged(s), x)),
{
    lemma_merge_inv(s);
    let (res, cur) = merge_fold(s);
    let m = merged(s);
    assert(m == res.push(cur));
    assert forall|j: int| 0 <= j < m.len() implies (#[trigger] m[j]).0 <= m[j].1 by {
        if j < res.len() {
            assert(m[j] == res[j]);
        }
    }
    assert forall|j: int| 0 <= j < m.len() - 1 implies (#[trigger] m[j + 1]).0 > m[j].1 + 1 by {
        assert(m[j] == res[j]);
        if j + 1 < res.len() {
            assert(m[j + 1] == res[j + 1]);
        }
    }
    assert forall|x: int| x >= 1 implies (covers(s, x) <==> covers(m, x)) by {
        if covers(res, x) {
            let j = choose|j: int| 0 <= j < res.len() && (#[trigger] res[j]).0 <= x <= res[j].1;
            assert(m[j] == res[j]);
        }
        if cur.0 <= x <= cur.1 {
            assert(m[res.len() as int] == cur);
        }
        if covers(m, x) {
            let j = choose|j: int| 0 <= j < m.len() && (#[trigger] m[j]).0 <= x <= m[j].1;
            if j < res.len() {
                assert(m[j] == res[j]);
            }
        }
    }
}

/// `p` lists the ranges by start level, ranges with the same start in their order.
pub open spec fn sorted_by_start(ranges: Seq<(usize, usize)>, p: Seq<usize>) -> bool {
    &&& p.len() == ranges.len()
    &&& p.no_duplicates()
    &&& forall|k: int| 0 <= k < p.len() ==> #[trigger] p[k] < ranges.len()
    &&& forall|k: int, l: int| 0 <= k < l < p.len() ==> ranges[#[trigger] p[k] as int].0 < ranges[#[trigger] p[l] as int].0
        || (ranges[p[k] as int].0 == ranges[p[l] as int].0 && p[k] < p[l])
}

/// Merges overlapping and adjacent areas: the ranges are taken by start level and each one
/// starting at most one level after the current one ends is joined to it.
pub fn merge_ranges(ranges: &Vec<(usize, usize)>) -> (r: Vec<(usize, usize)>)
    requires
        forall|i: int, j: int| #![trigger ranges@[i], ranges@[j]]
            0 <= i < j < ranges@.len() && ranges@[i].0 == 0 && ranges@[j].0 == 0 ==> ranges@[i].1 == 0,
    ensures
        exists|p: Seq<usize>| sorted_by_start(ranges@, p) && r@ == merged(p.map_values(|k: usize| ranges@[k as int])),
{
    let mut weights: Vec<u128> = Vec::new();
    let mut i: usize = 0;
    while i < ranges.len()
        invariant
            i <= ranges@.len(),
            weights@.len() == i,
            forall|k: int| 0 <= k < i ==> #[trigger] weights@[k] == ranges@[k].0,
        decreases ranges@.len() - i,
    {
        weights.push(ranges[i].0 as u128);
        i = i + 1;
    }
    let p = sorted_indices(&weights);
    let ghost sorted = p@.map_values(|k: usize| ranges@[k as int]);
    proof {
        assert forall|k: int, l: int| 0 <= k < l < p@.len() implies ranges@[#[trigger] p@[k] as int].0 < ranges@[#[trigger] p@[l] as int].0
            || (ranges@[p@[k] as int].0 == ranges@[p@[l] as int].0 && p@[k] < p@[l]) by {
            assert(index_before(weights@, p@[k] as int, p@[l] as int));
        }
    }
    let mut result: Vec<(usize, usize)> = Vec::new();
    let mut current: (usize, usize) = (0, 0);
    let mut k: usize = 0;
    while k < p.len()
        invariant
            k <= p@.len(),
            sorted_by_start(ranges@, p@),
            sorted == p@.map_values(|k: usize| ranges@[k as int]),
            forall|i: int, j: int| #![trigger ranges@[i], ranges@[j]]
                0 <= i < j < ranges@.len() && ranges@[i].0 == 0 && ranges@[j].0 == 0 ==> ranges@[i].1 == 0,
            (result@, current) == merge_fold(sorted.subrange(0, k as int)),
            k < p@.len() && sorted[k as int].0 == 0 ==> current == (0usize, 0usize),
        decreases p@.len() - k,
    {
        let (start, end) = ranges[p[k]];
        proof {
            assert(sorted.subrange(0, k as int + 1).drop_last() =~= sorted.subrange(0, k as int));
            assert(sorted[k as int] == (start, end));
        }
        if current.0 == 0 && current.1 == 0 {
            current = (start, end);
        } else if start - 1 <= current.1 {
            if end > current.1 {
                current = (current.0, end);
            }
        } else {
            result.push(current);
            current = (start, end);
        }
        proof {
            if k + 1 < p@.len() && sorted[k + 1].0 == 0 {
                let a = p@[k as int] as int;
                let b = p@[k + 1] as int;
                assert(ranges@[a].0 == 0);
                assert(a < b);
                assert(ranges@[a].1 == 0);
            }
        }
        k = k + 1;
    }
    result.push(current);
    proof {
        assert(sorted.subrange(0, p@.len() as int) =~= sorted);
        assert(sorted_by_start(ranges@, p@) && result@ == merged(p@.map_values(|k: usize| ranges@[k as int])));
    }
    result
}

// ----------------------------------------------------------------------------------------
// Levels and variables

/// The level of each variable after applying swaps of variables to the level table.
pub open spec fn permuted(v2l: Seq<usize>, swaps: Seq<(VarID, VarID)>) -> Seq<usize>
    decreases swaps.len(),
{
    if swaps.len() == 0 {
        v2l
    } else {
        let prev = permuted(v2l, swaps.drop_last());
        let (a, b) = swaps.last();
        prev.update(a.0 as int, prev[b.0 as int]).update(b.0 as int, prev[a.0 as int])
    }
}

/// The variable at `level`: the first one in the table at that level.
pub open spec fn var_at(v2l: Seq<usize>, level: usize) -> Option<VarID> {
    if exists|v: int| 0 <= v < v2l.len() && v2l[v] == level {
        Some(VarID((choose|v: int| 0 <= v < v2l.len() && v2l[v] == level && forall|w: int| 0 <= w < v ==> v2l[w] != level) as usize))
    } else {
        None
    }
}

/// The first position holding `level`.
fn find_level(v2l: &Vec<usize>, level: usize) -> (r: Option<VarID>)
    ensures
        r == var_at(v2l@, level),
{
    let mut v: usize = 0;
    while v < v2l.len()
        invariant
            v <= v2l@.len(),
            forall|w: int| 0 <= w < v ==> v2l@[w] != level,
        decreases v2l@.len() - v,
    {
        if v2l[v] == level {
            proof {
                let c = choose|x: int| 0 <= x < v2l@.len() && v2l@[x] == level && forall|w: int| 0 <= w < x ==> v2l@[w] != level;
                assert(0 <= v < v2l@.len() && v2l@[v as int] == level && forall|w: int| 0 <= w < v ==> v2l@[w] != level);
                if c < v {
                    assert(v2l@[c] != level);
                } else if c > v {
                    assert(v2l@[v as int] != level);
                }
            }
            return Some(VarID(v));
        }
        v = v + 1;
    }
    None
}

impl DDManager {
    /// Find the variable at specified level
    pub fn var_at_level(&self, level: usize) -> (r: Option<VarID>)
        ensures
            r == var_at(self.var2level@, level),
    {
        find_level(&self.var2level, level)
    }
}

/// Holds the context of multiple swap operations: the swaps of pairs of variables performed
/// so far, whose effect on the level table is computed without touching the manager.
pub struct SwapContext {
    pub all_swaps_in_result: Vec<(VarID, VarID)>,
}

impl SwapContext {
    /// No swaps yet.
    pub fn new() -> (r: SwapContext)
        ensures
            r.all_swaps_in_result@.len() == 0,
    {
        SwapContext { all_swaps_in_result: Vec::new() }
    }

    /// Get from original var2level to the var2level after all swaps
    pub fn permute_swaps(&self, v2l: &Vec<usize>) -> (r: Vec<usize>)
        requires
            forall|k: int| 0 <= k < self.all_swaps_in_result@.len() ==> (#[trigger] self.all_swaps_in_result@[k]).0.0 < v2l@.len()
                && self.all_swaps_in_result@[k].1.0 < v2l@.len(),
        ensures
            r@ == permuted(v2l@, self.all_swaps_in_result@),
            r@.len() == v2l@.len(),
    {
        let mut out: Vec<usize> = Vec::new();
        let mut i: usize = 0;
        while i < v2l.len()
            invariant
                i <= v2l@.len(),
                out@ == v2l@.subrange(0, i as int),
            decreases v2l@.len() - i,
        {
            out.push(v2l[i]);
            i = i + 1;
        }
        proof {
            assert(v2l@.subrange(0, v2l@.len() as int) =~= v2l@);
        }
        let mut k: usize = 0;
        while k < self.all_swaps_in_result.len()
            invariant
                k <= self.all_swaps_in_result@.len(),
                forall|k: int| 0 <= k < self.all_swaps_in_result@.len() ==> (#[trigger] self.all_swaps_in_result@[k]).0.0 < v2l@.len()
                    && self.all_swaps_in_result@[k].1.0 < v2l@.len(),
                out@ == permuted(v2l@, self.all_swaps_in_result@.subrange(0, k as int)),
                out@.len() == v2l@.len(),
            decreases self.all_swaps_in_result@.len() - k,
        {
            let (a, b) = self.all_swaps_in_result[k];
            proof {
                assert(self.all_swaps_in_result@.subrange(0, k as int + 1).drop_last()
                    =~= self.all_swaps_in_result@.subrange(0, k as int));
                assert(self.all_swaps_in_result@[k as int] == (a, b));
            }
            let x = out[a.0];
            let y = out[b.0];
            out.set(a.0, y);
            out.set(b.0, x);
            k = k + 1;
        }
        proof {
            assert(self.all_swaps_in_result@.subrange(0, self.all_swaps_in_result@.len() as int)
                =~= self.all_swaps_in_result@);
        }
        out
    }

    /// The swaps performed so far.
    pub fn get_swaps_in_result(&self) -> (r: Vec<(VarID, VarID)>)
        ensures
            r@ == self.all_swaps_in_result@,
    {
        let mut out: Vec<(VarID, VarID)> = Vec::new();
        let mut i: usize = 0;
        while i < self.all_swaps_in_result.len()
            invariant
                i <= self.all_swaps_in_result@.len(),
                out@ == self.all_swaps_in_result@.subrange(0, i as int),
            decreases self.all_swaps_in_result@.len() - i,
        {
            out.push(self.all_swaps_in_result[i]);
            i = i + 1;
        }
        proof {
            assert(self.all_swaps_in_result@.subrange(0, self.all_swaps_in_result@.len() as int)
                =~= self.all_swaps_in_result@);
        }
        out
    }

    /// Get var at level after all swaps
    pub fn var_at_level(&self, level: usize, v2l: &Vec<usize>) -> (r: Option<VarID>)
        requires
            forall|k: int| 0 <= k < self.all_swaps_in_result@.len() ==> (#[trigger] self.all_swaps_in_result@[k]).0.0 < v2l@.len()
                && self.all_swaps_in_result@[k].1.0 < v2l@.len(),
        ensures
            r == var_at(permuted(v2l@, self.all_swaps_in_result@), level),
    {
        let p = self.permute_swaps(v2l);
        self.var_at_level_post_calc(level, &p)
    }

    /// Get var at level for current v2l
    pub fn var_at_level_post_calc(&self, level: usize, v2l: &Vec<usize>) -> (r: Option<VarID>)
        ensures
            r == var_at(v2l@, level),
    {
        find_level(v2l, level)
    }

    /// Get level of variable after all swaps
    pub fn var2level(&self, v2l: &Vec<usize>, var: usize) -> (r: usize)
        requires
            var < v2l@.len(),
            forall|k: int| 0 <= k < self.all_swaps_in_result@.len() ==> (#[trigger] self.all_swaps_in_result@[k]).0.0 < v2l@.len()
                && self.all_swaps_in_result@[k].1.0 < v2l@.len(),
        ensures
            r == permuted(v2l@, self.all_swaps_in_result@)[var as int],
    {
        let p = self.permute_swaps(v2l);
        p[var]
    }
}

/// Swapping entries keeps a table free of repeated entries, and its length.
pub proof fn lemma_permuted_distinct(v2l: Seq<usize>, swaps: Seq<(VarID, VarID)>)
    requires
        v2l.no_duplicates(),
        forall|k: int| 0 <= k < swaps.len() ==> (#[trigger] swaps[k]).0.0 < v2l.len() && swaps[k].1.0 < v2l.len(),
    ensures
        permuted(v2l, swaps).len() == v2l.len(),
        permuted(v2l, swaps).no_duplicates(),
    decreases swaps.len(),
{
    if swaps.len() > 0 {
        let rest = swaps.drop_last();
        assert forall|k: int| 0 <= k < rest.len() implies (#[trigger] rest[k]).0.0 < v2l.len() && rest[k].1.0 < v2l.len() by {
            assert(rest[k] == swaps[k]);
        }
        lemma_permuted_distinct(v2l, rest);
        let prev = permuted(v2l, rest);
        let (a, b) = swaps.last();
        let next = permuted(v2l, swaps);
        assert(swaps[swaps.len() - 1] == swaps.last());
        assert forall|i: int, j: int| 0 <= i < next.len() && 0 <= j < next.len() && i != j implies next[i] != next[j] by {
            let si = if i == b.0 { a.0 as int } else if i == a.0 { b.0 as int } else { i };
            let sj = if j == b.0 { a.0 as int } else if j == a.0 { b.0 as int } else { j };
            assert(next[i] == prev[si]);
            assert(next[j] == prev[sj]);
        }
    }
}

/// In a swap context, the variable found at the level of `var` after the recorded swaps is
/// `var` itself, where the level table holds no level twice: `var_at_level` at the level that
/// `var2level` gives for `var` is `var`. (`var_at_level` and `var_at_level_post_calc` on the
/// permuted table agree by their contracts.)
pub proof fn lemma_var_at_own_level(v2l: Seq<usize>, swaps: Seq<(VarID, VarID)>, var: int)
    requires
        v2l.no_duplicates(),
        0 <= var < v2l.len(),
        forall|k: int| 0 <= k < swaps.len() ==> (#[trigger] swaps[k]).0.0 < v2l.len() && swaps[k].1.0 < v2l.len(),
    ensures
        var_at(permuted(v2l, swaps), permuted(v2l, swaps)[var]) == Some(VarID(var as usize)),
{
    lemma_permuted_distinct(v2l, swaps);
    let p = permuted(v2l, swaps);
    let l = p[var];
    assert(0 <= var < p.len() && p[var] == l);
    let c = choose|x: int| 0 <= x < p.len() && p[x] == l && forall|w: int| 0 <= w < x ==> p[w] != l;
    assert(0 <= var < p.len() && p[var] == l && forall|w: int| 0 <= w < var ==> p[w] != l);
    if c != var {
        assert(p[c] != p[var]);
    }
}

/// Identifies either a node being built during swaps, or a node of the manager.
#[derive(Debug, PartialEq, Eq, Structural, Hash, Copy, Clone)]
pub enum IDEnum {
    NewID(usize),
    OldID(NodeID),
}

/// Holds a new temporary node
#[derive(Debug, PartialEq, Eq, Structural, Copy, Clone)]
pub struct TempNode {
    pub id: IDEnum,
    pub var: VarID,
    pub low: IDEnum,
    pub high: IDEnum,
}

} // verus!
