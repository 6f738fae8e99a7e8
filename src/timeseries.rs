//! The time series container and its transforms.
use crate::algo::int_utils::AsofComparator;
use crate::data_elements::TimeSeriesDataPoint;
use crate::index::{HashableIndex, all_distinct, strictly_increasing, lemma_increasing_distinct};
use crate::joins::{
    JoinEngine,
    IndexJoinPair,
    IndexJoinPotentiallyUnmatchedPair,
    inner_merge_from,
    left_merge_from,
    asof_from,
    lemma_left_shape,
    lemma_asof_shape,
    lemma_inner_bounds,
    lemma_left_other_bounds,
    nearest_prior_agrees,
    nearest_following_agrees,
    lemma_asof_prior_is_nearest_prior,
    lemma_asof_fwd_is_nearest_following,
};
use crate::timeseries_iterators::{
    OrderedTimeSeriesIter,
    OrderedTimeSeriesRefIter,
    TimeSeriesIter,
    TimeSeriesRefIter,
    ShiftedTimeSeriesIter,
    RollingTimeSeriesIter,
    RollingTimeSeriesIterWithUpdate,
    SkipApplyTimeSeriesIter,
};
use itertools::Itertools;
use vstd::prelude::*;

verus! {

/// Which neighbour of the merge cursor the as-of comparator may roll to.
#[derive(Clone, Copy, Debug, PartialEq, Eq)]
pub enum MergeAsofMode {
    RollPrior,
    RollFollowing,
    NoRoll,
}

/// Why keys and values were refused as a series.
#[derive(Clone, Copy, Debug, PartialEq, Eq)]
pub enum SeriesError {
    /// A key occurs twice.
    NotUnique,
    /// A key is not greater than the one before it.
    NotMonotonic,
    /// There are not as many keys as values.
    LengthMismatch,
}

/// The first reason to refuse `keys` with `n_values` values, if any.
pub open spec fn validation_error(keys: Seq<i64>, n_values: int) -> Option<SeriesError> {
    if !all_distinct(keys) {
        Some(SeriesError::NotUnique)
    } else if !strictly_increasing(keys) {
        Some(SeriesError::NotMonotonic)
    } else if keys.len() != n_values {
        Some(SeriesError::LengthMismatch)
    } else {
        None
    }
}

/// The point at position `i` of keys `ks` and values `vs`.
pub open spec fn point_at<T>(ks: Seq<i64>, vs: Seq<T>, i: int) -> TimeSeriesDataPoint<i64, T> {
    TimeSeriesDataPoint { timestamp: ks[i], value: vs[i] }
}

/// The keys of a sequence of points.
pub open spec fn keys_of<T>(ps: Seq<TimeSeriesDataPoint<i64, T>>) -> Seq<i64> {
    ps.map_values(|p: TimeSeriesDataPoint<i64, T>| p.timestamp)
}

/// The first position whose key is above `t`, or the length.
pub open spec fn is_first_above(ks: Seq<i64>, t: i64, p: int) -> bool {
    &&& 0 <= p <= ks.len()
    &&& forall|j: int| 0 <= j < p ==> ks[j] <= t
    &&& p < ks.len() ==> t < ks[p]
}

/// The points of the first `n` positions whose keys lie in `[start, end]`.
pub open spec fn kept_between<T>(
    ks: Seq<i64>,
    vs: Seq<T>,
    start: i64,
    end: i64,
    n: int,
) -> Seq<TimeSeriesDataPoint<i64, T>>
    decreases n,
{
    if n <= 0 {
        seq![]
    } else {
        kept_between(ks, vs, start, end, n - 1) + if start <= ks[n - 1] {
            seq![point_at(ks, vs, n - 1)]
        } else {
            seq![]
        }
    }
}

/// The value of `vs` that a join record points at, if any.
pub open spec fn matched_value<'a, T2>(vs: &'a Seq<T2>, p: IndexJoinPotentiallyUnmatchedPair) -> Option<&'a T2> {
    match p.other_idx {
        Some(j) => Some(&vs[j as int]),
        None => None,
    }
}

/// Where each point of an interweave comes from: a position of `this` alone, of
/// `other` alone, or of both (equal keys, resolved by the tie-break).
pub open spec fn weave_from(a: Seq<i64>, b: Seq<i64>, i: int, j: int) -> Seq<(Option<int>, Option<int>)>
    decreases a.len() - i, b.len() - j,
{
    if i < 0 || j < 0 || (i >= a.len() && j >= b.len()) {
        seq![]
    } else if i >= a.len() {
        seq![(None, Some(j))] + weave_from(a, b, i, j + 1)
    } else if j >= b.len() {
        seq![(Some(i), None)] + weave_from(a, b, i + 1, j)
    } else if a[i] > b[j] {
        seq![(None, Some(j))] + weave_from(a, b, i, j + 1)
    } else if a[i] < b[j] {
        seq![(Some(i), None)] + weave_from(a, b, i + 1, j)
    } else {
        seq![(Some(i), Some(j))] + weave_from(a, b, i + 1, j + 1)
    }
}

/// Keys never decrease along the sequence.
pub open spec fn nondecreasing(s: Seq<i64>) -> bool {
    forall|i: int, j: int| 0 <= i < j < s.len() ==> s[i] <= s[j]
}

/// `r` rearranges `s`: `r[k] == s[perm[k]]`, with `inv` the inverse of `perm`.
pub open spec fn rearranges<A>(r: Seq<A>, s: Seq<A>, perm: Seq<int>, inv: Seq<int>) -> bool {
    &&& r.len() == s.len()
    &&& perm.len() == s.len()
    &&& inv.len() == s.len()
    &&& forall|k: int| 0 <= k < r.len() ==> 0 <= #[trigger] perm[k] < s.len() && r[k] == s[perm[k]] && inv[perm[k]] == k
    &&& forall|i: int| 0 <= i < s.len() ==> 0 <= #[trigger] inv[i] < r.len() && perm[inv[i]] == i
}

proof fn lemma_sorted_distinct_increasing(s: Seq<i64>)
    requires
        nondecreasing(s),
        all_distinct(s),
    ensures
        strictly_increasing(s),
{
    assert forall|i: int, j: int| 0 <= i < j < s.len() implies s[i] < s[j] by {
        assert(s[i] <= s[j]);
        assert(s[i] != s[j]);
    }
}

/// Sorts points by key, stably, by insertion.
fn sort_points<T: Copy>(points: &Vec<TimeSeriesDataPoint<i64, T>>) -> (r: Vec<TimeSeriesDataPoint<i64, T>>)
    ensures
        nondecreasing(keys_of(r@)),
        exists|perm: Seq<int>, inv: Seq<int>| rearranges(r@, points@, perm, inv),
{
    let n = points.len();
    let mut out: Vec<TimeSeriesDataPoint<i64, T>> = Vec::new();
    let ghost mut perm: Seq<int> = seq![];
    let ghost mut inv: Seq<int> = seq![];
    let mut i: usize = 0;
    while i < n
        invariant
            n == points@.len(),
            0 <= i <= n,
            nondecreasing(keys_of(out@)),
            rearranges(out@, points@.subrange(0, i as int), perm, inv),
        decreases n - i,
    {
        let x = points[i];
        let mut pos: usize = 0;
        while pos < out.len() && out[pos].timestamp <= x.timestamp
            invariant
                0 <= pos <= out@.len(),
                forall|k: int| 0 <= k < pos ==> out@[k].timestamp <= x.timestamp,
            decreases out@.len() - pos,
        {
            pos = pos + 1;
        }
        proof {
            assert forall|k: int| pos <= k < out@.len() implies out@[k].timestamp > x.timestamp by {
                assert(keys_of(out@)[pos as int] <= keys_of(out@)[k]);
            }
        }
        let ghost old_out = out@;
        let ghost old_perm = perm;
        let ghost old_inv = inv;
        let ghost sub = points@.subrange(0, i as int);
        let ghost sub1 = points@.subrange(0, i + 1);
        out.insert(pos, x);
        proof {
            perm = old_perm.insert(pos as int, i as int);
            inv = Seq::new((i + 1) as nat, |j: int| if j == i { pos as int } else if old_inv[j] >= pos { old_inv[j] + 1 } else { old_inv[j] });
            assert forall|k: int| 0 <= k < out@.len() implies 0 <= #[trigger] perm[k] < sub1.len() && out@[k] == sub1[perm[k]] && inv[perm[k]] == k by {
                if k < pos {
                    assert(perm[k] == old_perm[k]);
                    assert(out@[k] == old_out[k]);
                    assert(old_inv[old_perm[k]] == k);
                } else if k > pos {
                    assert(perm[k] == old_perm[k - 1]);
                    assert(out@[k] == old_out[k - 1]);
                    assert(old_inv[old_perm[k - 1]] == k - 1);
                }
            }
            assert forall|j: int| 0 <= j < sub1.len() implies 0 <= #[trigger] inv[j] < out@.len() && perm[inv[j]] == j by {
                if j < i {
                    if old_inv[j] >= pos {
                        assert(perm[old_inv[j] + 1] == old_perm[old_inv[j]]);
                    } else {
                        assert(perm[old_inv[j]] == old_perm[old_inv[j]]);
                    }
                }
            }
            let ko = keys_of(out@);
            assert forall|a: int, b: int| 0 <= a < b < ko.len() implies ko[a] <= ko[b] by {
                let kold = keys_of(old_out);
                if b < pos {
                    assert(kold[a] <= kold[b]);
                } else if b == pos {
                    assert(old_out[a].timestamp <= x.timestamp);
                } else if a < pos {
                    assert(old_out[a].timestamp <= x.timestamp);
                    assert(old_out[b - 1].timestamp > x.timestamp);
                } else if a == pos {
                    assert(old_out[b - 1].timestamp > x.timestamp);
                } else {
                    assert(kold[a - 1] <= kold[b - 1]);
                }
            }
        }
        i = i + 1;
    }
    proof {
        assert(points@.subrange(0, n as int) =~= points@);
    }
    out
}

/// Where run `k` starts: the sum of the lengths of the runs before it.
pub open spec fn run_start(runs: Seq<(i64, usize)>, k: int) -> int
    decreases k,
{
    if k <= 0 {
        0
    } else {
        run_start(runs, k - 1) + runs[k - 1].1
    }
}

/// `runs` splits `b` into maximal runs of equal keys: each run is a key and a
/// positive length, neighbouring runs have different keys, and the runs cover `b`.
pub open spec fn is_run_encoding(b: Seq<i64>, runs: Seq<(i64, usize)>) -> bool {
    &&& run_start(runs, runs.len() as int) == b.len()
    &&& forall|k: int| 0 <= k < runs.len() ==> #[trigger] runs[k].1 >= 1
    &&& forall|k: int, j: int|
        0 <= k < runs.len() && run_start(runs, k) <= j < run_start(runs, k) + runs[k].1 ==> #[trigger] b[j]
            == #[trigger] runs[k].0
    &&& forall|k: int| 0 < k < runs.len() ==> runs[k - 1].0 != #[trigger] runs[k].0
}

proof fn lemma_run_start_monotone(runs: Seq<(i64, usize)>, k: int, m: int)
    requires
        0 <= k <= m,
    ensures
        run_start(runs, k) <= run_start(runs, m),
    decreases m - k,
{
    if k < m {
        lemma_run_start_monotone(runs, k, m - 1);
    }
}

/// Relies on itertools::Itertools::group_by: consecutive elements with equal keys form
/// one group, groups come in order; each group is taken as its key and its size.
#[verifier::external_body]
fn group_runs(keys: &Vec<i64>) -> (r: Vec<(i64, usize)>)
    ensures
        is_run_encoding(keys@, r@),
{
    keys.iter().group_by(|k| **k).into_iter().map(|(k, g)| (k, g.count())).collect()
}

/// `v` is a result of `agg` on a vector holding the points `pts`.
pub open spec fn aggregated<T, R, A: Fn(&Vec<TimeSeriesDataPoint<i64, T>>) -> R>(
    agg: A,
    pts: Seq<TimeSeriesDataPoint<i64, T>>,
    v: R,
) -> bool {
    exists|g: Vec<TimeSeriesDataPoint<i64, T>>| g@ == pts && #[trigger] agg.ensures((&g,), v)
}

/// The points of positions `lo..hi`.
pub open spec fn points_in<T>(ks: Seq<i64>, vs: Seq<T>, lo: int, hi: int) -> Seq<TimeSeriesDataPoint<i64, T>> {
    Seq::new((hi - lo) as nat, |k: int| point_at(ks, vs, lo + k))
}

/// An index and the values recorded under its keys, zipped by position.
#[derive(Clone, Debug, PartialEq)]
pub struct TimeSeries<T> {
    pub timeindicies: HashableIndex,
    pub values: Vec<T>,
}

impl<T> TimeSeries<T> {
    /// The keys.
    pub open spec fn keys(&self) -> Seq<i64> {
        self.timeindicies@
    }

    /// The values.
    pub open spec fn vals(&self) -> Seq<T> {
        self.values@
    }

    /// As many keys as values.
    pub open spec fn well_sized(&self) -> bool {
        self.keys().len() == self.vals().len()
    }

    /// Equal lengths and strictly increasing (hence distinct) keys.
    pub open spec fn is_valid(&self) -> bool {
        self.well_sized() && strictly_increasing(self.keys())
    }

    /// The points, position by position.
    pub open spec fn points(&self) -> Seq<TimeSeriesDataPoint<i64, T>> {
        Seq::new(self.keys().len(), |i: int| point_at(self.keys(), self.vals(), i))
    }

    /// Whether `p` is one of the points.
    pub open spec fn has_point(&self, p: TimeSeriesDataPoint<i64, T>) -> bool {
        exists|k: int| 0 <= k < self.keys().len() && point_at(self.keys(), self.vals(), k) == p
    }

    /// Whether this series holds exactly the points `ps`, in order.
    pub open spec fn holds(&self, ps: Seq<TimeSeriesDataPoint<i64, T>>) -> bool {
        &&& self.well_sized()
        &&& self.keys().len() == ps.len()
        &&& forall|i: int| 0 <= i < ps.len() ==> #[trigger] point_at(self.keys(), self.vals(), i) == ps[i]
    }
}

/// Every validated series has as many keys as values, and strictly increasing,
/// pairwise distinct keys.
pub proof fn lemma_validated_series<T>(ts: TimeSeries<T>)
    requires
        ts.is_valid(),
    ensures
        ts.keys().len() == ts.vals().len(),
        forall|i: int, j: int| 0 <= i < j < ts.keys().len() ==> ts.keys()[i] < ts.keys()[j],
        all_distinct(ts.keys()),
{
    lemma_increasing_distinct(ts.keys());
}

impl<T: Copy> TimeSeries<T> {
    /// The empty series.
    pub fn empty() -> (r: TimeSeries<T>)
        ensures
            r.is_valid(),
            r.keys().len() == 0,
    {
        TimeSeries { timeindicies: HashableIndex::new(Vec::new()), values: Vec::new() }
    }

    /// Validated construction: refuses duplicate keys, keys out of order, and a length
    /// mismatch, in that order of precedence.
    pub fn from_vecs(timeindicies: Vec<i64>, values: Vec<T>) -> (r: Result<TimeSeries<T>, SeriesError>)
        ensures
            match r {
                Ok(ts) => validation_error(timeindicies@, values@.len() as int).is_none()
                    && ts.keys() == timeindicies@ && ts.vals() == values@ && ts.is_valid(),
                Err(e) => validation_error(timeindicies@, values@.len() as int) == Some(e),
            },
    {
        let idx = HashableIndex::new(timeindicies);
        if !idx.is_unique() {
            Err(SeriesError::NotUnique)
        } else if !idx.is_monotonic() {
            Err(SeriesError::NotMonotonic)
        } else {
            TimeSeries::from_vecs_minimal_checks(idx, values)
        }
    }

    /// Construction that checks the lengths only.
    pub fn from_vecs_minimal_checks(timeindicies: HashableIndex, values: Vec<T>) -> (r: Result<
        TimeSeries<T>,
        SeriesError,
    >)
        ensures
            match r {
                Ok(ts) => timeindicies@.len() == values@.len() && ts.keys() == timeindicies@
                    && ts.vals() == values@,
                Err(e) => timeindicies@.len() != values@.len() && e == SeriesError::LengthMismatch,
            },
    {
        if timeindicies.len() != values.len() {
            Err(SeriesError::LengthMismatch)
        } else {
            Ok(TimeSeries::from_vecs_unchecked(timeindicies, values))
        }
    }

    /// Construction without checks.
    pub fn from_vecs_unchecked(timeindicies: HashableIndex, values: Vec<T>) -> (r: TimeSeries<T>)
        ensures
            r.keys() == timeindicies@,
            r.vals() == values@,
    {
        TimeSeries { timeindicies, values }
    }

    /// Construction from points without checks, in their order.
    pub fn from_tsdatapoints_unchecked(tsdatapoints: Vec<TimeSeriesDataPoint<i64, T>>) -> (r:
        TimeSeries<T>)
        ensures
            r.holds(tsdatapoints@),
    {
        let n = tsdatapoints.len();
        let mut index: Vec<i64> = Vec::with_capacity(n);
        let mut values: Vec<T> = Vec::with_capacity(n);
        let mut k: usize = 0;
        while k < n
            invariant
                n == tsdatapoints@.len(),
                0 <= k <= n,
                index@.len() == k,
                values@.len() == k,
                forall|i: int| 0 <= i < k ==> #[trigger] point_at(index@, values@, i) == tsdatapoints@[i],
            decreases n - k,
        {
            let dp = tsdatapoints[k];
            let ghost oi = index@;
            let ghost ov = values@;
            index.push(dp.timestamp);
            values.push(dp.value);
            assert forall|i: int| 0 <= i < k + 1 implies #[trigger] point_at(index@, values@, i)
                == tsdatapoints@[i] by {
                if i < k {
                    assert(point_at(oi, ov, i) == tsdatapoints@[i]);
                    assert(index@[i] == oi[i]);
                    assert(values@[i] == ov[i]);
                }
            }
            k = k + 1;
        }
        TimeSeries::from_vecs_unchecked(HashableIndex::new(index), values)
    }

    /// Number of points.
    pub fn len(&self) -> (r: usize)
        ensures
            r == self.keys().len(),
    {
        self.timeindicies.len()
    }

    /// Whether there are no points.
    pub fn is_empty(&self) -> (r: bool)
        ensures
            r == (self.keys().len() == 0),
    {
        self.timeindicies.is_empty()
    }

    /// The point at position `pos`, if there is one.
    pub fn at_idx_of(&self, pos: usize) -> (r: Option<TimeSeriesDataPoint<i64, T>>)
        requires
            self.well_sized(),
        ensures
            pos < self.keys().len() ==> r == Some(point_at(self.keys(), self.vals(), pos as int)),
            pos >= self.keys().len() ==> r.is_none(),
    {
        if pos < self.len() {
            Some(TimeSeriesDataPoint::new(self.timeindicies.values[pos], self.values[pos]))
        } else {
            None
        }
    }

    /// The value under `timestamp`, found by binary search over ordered keys.
    pub fn at(&self, timestamp: i64) -> (r: Option<T>)
        requires
            self.well_sized(),
        ensures
            r matches Some(v) ==> exists|i: int|
                0 <= i < self.keys().len() && self.keys()[i] == timestamp && self.vals()[i] == v,
            self.is_valid() ==> (r.is_some() <==> self.keys().contains(timestamp)),
    {
        let mut lo: usize = 0;
        let mut hi: usize = self.len();
        while lo < hi
            invariant
                self.well_sized(),
                0 <= lo <= hi <= self.keys().len(),
                self.is_valid() ==> forall|i: int|
                    0 <= i < self.keys().len() && self.keys()[i] == timestamp ==> lo <= i < hi,
            decreases hi - lo,
        {
            let mid = lo + (hi - lo) / 2;
            let k = self.timeindicies.values[mid];
            if k == timestamp {
                return Some(self.values[mid]);
            } else if k < timestamp {
                lo = mid + 1;
            } else {
                hi = mid;
            }
        }
        None
    }

    /// The value under the last key at or before `timestamp`; none before the first key
    /// or after the last.
    pub fn at_or_first_prior(&self, timestamp: i64) -> (r: Option<T>)
        requires
            self.well_sized(),
        ensures
            forall|p: int|
                is_first_above(self.keys(), timestamp, p) ==> r == if p == self.keys().len() && p
                    > 0 && timestamp > self.keys()[p - 1] {
                    None
                } else if p > 0 {
                    Some(self.vals()[p - 1])
                } else {
                    None
                },
    {
        let n = self.len();
        let mut p: usize = 0;
        while p < n && self.timeindicies.values[p] <= timestamp
            invariant
                self.well_sized(),
                n == self.keys().len(),
                0 <= p <= n,
                forall|j: int| 0 <= j < p ==> self.keys()[j] <= timestamp,
            decreases n - p,
        {
            p = p + 1;
        }
        assert forall|q: int| is_first_above(self.keys(), timestamp, q) implies q == p by {
            if q < p {
                assert(self.keys()[q] <= timestamp);
            } else if q > p {
                assert(self.keys()[p as int] <= timestamp);
            }
        }
        if p == n && n > 0 && timestamp > self.timeindicies.values[n - 1] {
            None
        } else if p > 0 {
            Some(self.values[p - 1])
        } else {
            None
        }
    }

    /// The points whose keys lie in `[start, end]`, scanning in order and stopping at
    /// the first key after `end`.
    pub fn between(&self, start: i64, end: i64) -> (r: TimeSeries<T>)
        requires
            self.well_sized(),
        ensures
            forall|p: int|
                is_first_above(self.keys(), end, p) ==> r.holds(
                    kept_between(self.keys(), self.vals(), start, end, p),
                ),
    {
        let n = self.len();
        let mut newdps: Vec<TimeSeriesDataPoint<i64, T>> = Vec::new();
        let mut p: usize = 0;
        while p < n && self.timeindicies.values[p] <= end
            invariant
                self.well_sized(),
                n == self.keys().len(),
                0 <= p <= n,
                forall|j: int| 0 <= j < p ==> self.keys()[j] <= end,
                newdps@ == kept_between(self.keys(), self.vals(), start, end, p as int),
            decreases n - p,
        {
            if self.timeindicies.values[p] >= start {
                newdps.push(TimeSeriesDataPoint::new(self.timeindicies.values[p], self.values[p]));
            }
            p = p + 1;
            assert(newdps@ =~= kept_between(self.keys(), self.vals(), start, end, p as int));
        }
        assert forall|q: int| is_first_above(self.keys(), end, q) implies q == p by {
            if q < p {
                assert(self.keys()[q] <= end);
            } else if q > p {
                assert(self.keys()[p as int] <= end);
            }
        }
        TimeSeries::from_tsdatapoints_unchecked(newdps)
    }

    /// A new series with the same keys and `func` applied to each value.
    pub fn map<TRes: Copy, F: Fn(&T) -> TRes>(&self, func: F) -> (r: TimeSeries<TRes>)
        requires
            self.well_sized(),
            forall|v: T| #[trigger] func.requires((&v,)),
        ensures
            r.well_sized(),
            r.keys() == self.keys(),
            forall|i: int| 0 <= i < r.vals().len() ==> func.ensures((&self.vals()[i],), #[trigger] r.vals()[i]),
    {
        let n = self.values.len();
        let mut newvals: Vec<TRes> = Vec::with_capacity(n);
        let mut k: usize = 0;
        while k < n
            invariant
                self.well_sized(),
                n == self.vals().len(),
                0 <= k <= n,
                newvals@.len() == k,
                forall|v: T| #[trigger] func.requires((&v,)),
                forall|i: int| 0 <= i < k ==> func.ensures((&self.vals()[i],), #[trigger] newvals@[i]),
            decreases n - k,
        {
            let v = func(&self.values[k]);
            newvals.push(v);
            k = k + 1;
        }
        TimeSeries::from_vecs_unchecked(self.timeindicies.copy(), newvals)
    }

    /// A new series with the same keys and `func` applied to each key and value.
    pub fn map_with_date<TRes: Copy, F: Fn(&i64, &T) -> TRes>(&self, func: F) -> (r: TimeSeries<TRes>)
        requires
            self.well_sized(),
            forall|k: i64, v: T| #[trigger] func.requires((&k, &v)),
        ensures
            r.well_sized(),
            r.keys() == self.keys(),
            forall|i: int| 0 <= i < r.vals().len() ==> func.ensures((&self.keys()[i], &self.vals()[i]), #[trigger] r.vals()[i]),
    {
        let n = self.values.len();
        let mut newvals: Vec<TRes> = Vec::with_capacity(n);
        let mut k: usize = 0;
        while k < n
            invariant
                self.well_sized(),
                n == self.vals().len(),
                0 <= k <= n,
                newvals@.len() == k,
                forall|kk: i64, v: T| #[trigger] func.requires((&kk, &v)),
                forall|i: int| 0 <= i < k ==> func.ensures((&self.keys()[i], &self.vals()[i]), #[trigger] newvals@[i]),
            decreases n - k,
        {
            let v = func(&self.timeindicies.values[k], &self.values[k]);
            newvals.push(v);
            k = k + 1;
        }
        TimeSeries::from_vecs_unchecked(self.timeindicies.copy(), newvals)
    }

    /// Inner join by merge: at each pair of equal keys, the key with
    /// `apply_func(this value, other value)`.
    pub fn cross_apply_inner<T2: Copy, T3: Copy, F: Fn(&T, &T2) -> T3>(
        &self,
        other: &TimeSeries<T2>,
        apply_func: F,
    ) -> (r: TimeSeries<T3>)
        requires
            self.well_sized(),
            other.well_sized(),
            forall|x: T, y: T2| #[trigger] apply_func.requires((&x, &y)),
        ensures
            ({
                let pairs = inner_merge_from(self.keys(), other.keys(), 0, 0);
                &&& r.well_sized()
                &&& r.keys().len() == pairs.len()
                &&& forall|k: int|
                    0 <= k < pairs.len() ==> #[trigger] r.keys()[k] == self.keys()[pairs[k].this_idx as int]
                &&& forall|k: int|
                    0 <= k < pairs.len() ==> apply_func.ensures(
                        (&self.vals()[pairs[k].this_idx as int], &other.vals()[pairs[k].other_idx as int]),
                        #[trigger] r.vals()[k],
                    )
            }),
    {
        let _ = (self.len(), other.len());
        let je = JoinEngine::new(&self.timeindicies, &other.timeindicies);
        let indexes = je.get_inner_merge_joined_indicies();
        let ghost pairs = inner_merge_from(self.keys(), other.keys(), 0, 0);
        proof {
            lemma_inner_bounds(self.keys(), other.keys(), 0, 0);
        }
        let n = indexes.len();
        let mut keys: Vec<i64> = Vec::with_capacity(n);
        let mut vals: Vec<T3> = Vec::with_capacity(n);
        let mut k: usize = 0;
        while k < n
            invariant
                self.well_sized(),
                other.well_sized(),
                forall|x: T, y: T2| #[trigger] apply_func.requires((&x, &y)),
                indexes@ == pairs,
                n == pairs.len(),
                forall|q: int|
                    0 <= q < pairs.len() ==> (#[trigger] pairs[q]).lies_within(
                        self.keys().len() as int,
                        other.keys().len() as int,
                    ),
                0 <= k <= n,
                keys@.len() == k,
                vals@.len() == k,
                forall|q: int|
                    0 <= q < k ==> #[trigger] keys@[q] == self.keys()[pairs[q].this_idx as int],
                forall|q: int|
                    0 <= q < k ==> apply_func.ensures(
                        (&self.vals()[pairs[q].this_idx as int], &other.vals()[pairs[q].other_idx as int]),
                        #[trigger] vals@[q],
                    ),
            decreases n - k,
        {
            let p = indexes[k];
            assert(pairs[k as int] == p);
            keys.push(self.timeindicies.values[p.this_idx]);
            let v = apply_func(&self.values[p.this_idx], &other.values[p.other_idx]);
            vals.push(v);
            k = k + 1;
        }
        TimeSeries::from_vecs_unchecked(HashableIndex::new(keys), vals)
    }

    /// Left join by merge: every point of this series, with
    /// `apply_func(this value, the other value under an equal key if any)`.
    pub fn cross_apply_left<T2: Copy, T3: Copy, F: Fn(&T, Option<&T2>) -> T3>(
        &self,
        other: &TimeSeries<T2>,
        apply_func: F,
    ) -> (r: TimeSeries<T3>)
        requires
            self.well_sized(),
            other.well_sized(),
            forall|x: T, y: Option<&T2>| #[trigger] apply_func.requires((&x, y)),
        ensures
            ({
                let recs = left_merge_from(self.keys(), other.keys(), 0, 0);
                &&& r.well_sized()
                &&& r.keys() == self.keys()
                &&& recs.len() == self.keys().len()
                &&& forall|k: int|
                    0 <= k < recs.len() ==> apply_func.ensures(
                        (&self.vals()[k], matched_value(&other.vals(), recs[k])),
                        #[trigger] r.vals()[k],
                    )
            }),
    {
        let _ = (self.len(), other.len());
        let je = JoinEngine::new(&self.timeindicies, &other.timeindicies);
        let indexes = je.get_left_merge_joined_indicies();
        let ghost recs = left_merge_from(self.keys(), other.keys(), 0, 0);
        proof {
            lemma_left_shape(self.keys(), other.keys(), 0, 0);
            lemma_left_other_bounds(self.keys(), other.keys(), 0, 0);
        }
        self.apply_on_records(other, &indexes, apply_func)
    }

    /// As-of join: every point of this series, with `apply_func(this value, the value of
    /// `other` that the as-of merge records, if any)`. A comparator needs a roll mode. On
    /// valid series, roll-prior records the last key of `other` at or before each key
    /// within the look-back, and roll-following the first key at or after it within the
    /// look-ahead.
    pub fn merge_apply_asof<T2: Copy, T3: Copy, F: Fn(&T, Option<&T2>) -> T3>(
        &self,
        other: &TimeSeries<T2>,
        compare_func: Option<AsofComparator>,
        apply_func: F,
        merge_mode: MergeAsofMode,
    ) -> (r: TimeSeries<T3>)
        requires
            self.well_sized(),
            other.well_sized(),
            !(merge_mode == MergeAsofMode::NoRoll && compare_func.is_some()),
            forall|x: T, y: Option<&T2>| #[trigger] apply_func.requires((&x, y)),
        ensures
            ({
                let recs = asof_from(self.keys(), other.keys(), compare_func, merge_mode, 0, 0);
                &&& self.is_valid() && other.is_valid() && merge_mode == MergeAsofMode::RollPrior
                    ==> forall|look_back: i64| compare_func == Some(AsofComparator::Prior { look_back })
                    && look_back >= 0 ==> forall|k: int| 0 <= k < recs.len() ==> nearest_prior_agrees(
                    other.keys(),
                    self.keys()[k],
                    look_back as int,
                    #[trigger] recs[k],
                )
                &&& self.is_valid() && other.is_valid() && merge_mode == MergeAsofMode::RollFollowing
                    ==> forall|look_fwd: i64| compare_func == Some(AsofComparator::Fwd { look_fwd })
                    && look_fwd >= 0 ==> forall|k: int| 0 <= k < recs.len() ==> nearest_following_agrees(
                    other.keys(),
                    self.keys()[k],
                    look_fwd as int,
                    #[trigger] recs[k],
                )
                &&& r.well_sized()
                &&& r.keys() == self.keys()
                &&& recs.len() == self.keys().len()
                &&& forall|k: int|
                    0 <= k < recs.len() ==> apply_func.ensures(
                        (&self.vals()[k], matched_value(&other.vals(), recs[k])),
                        #[trigger] r.vals()[k],
                    )
            }),
    {
        let _ = (self.len(), other.len());
        let je = JoinEngine::new(&self.timeindicies, &other.timeindicies);
        let indexes = je.get_asof_merge_joined_indicies(compare_func, merge_mode);
        let ghost recs = asof_from(self.keys(), other.keys(), compare_func, merge_mode, 0, 0);
        proof {
            lemma_asof_shape(self.keys(), other.keys(), compare_func, merge_mode, 0, 0);
            if self.is_valid() && other.is_valid() {
                match compare_func {
                    Some(AsofComparator::Prior { look_back }) => if look_back >= 0 {
                        lemma_asof_prior_is_nearest_prior(self.keys(), other.keys(), look_back);
                    },
                    Some(AsofComparator::Fwd { look_fwd }) => if look_fwd >= 0 {
                        lemma_asof_fwd_is_nearest_following(self.keys(), other.keys(), look_fwd);
                    },
                    None => {},
                }
            }
        }
        self.apply_on_records(other, &indexes, apply_func)
    }

    /// Applies `apply_func` along records that cover each position of this series once,
    /// in order.
    fn apply_on_records<T2: Copy, T3: Copy, F: Fn(&T, Option<&T2>) -> T3>(
        &self,
        other: &TimeSeries<T2>,
        recs: &Vec<IndexJoinPotentiallyUnmatchedPair>,
        apply_func: F,
    ) -> (r: TimeSeries<T3>)
        requires
            self.well_sized(),
            other.well_sized(),
            forall|x: T, y: Option<&T2>| #[trigger] apply_func.requires((&x, y)),
            recs@.len() == self.keys().len(),
            forall|k: int| 0 <= k < recs@.len() ==> (#[trigger] recs@[k]).this_idx == k,
            forall|k: int|
                0 <= k < recs@.len() ==> (#[trigger] recs@[k]).refers_below(other.keys().len() as int),
        ensures
            r.well_sized(),
            r.keys() == self.keys(),
            forall|k: int|
                0 <= k < recs@.len() ==> apply_func.ensures(
                    (&self.vals()[k], matched_value(&other.vals(), recs@[k])),
                    #[trigger] r.vals()[k],
                ),
    {
        let n = recs.len();
        let mut vals: Vec<T3> = Vec::with_capacity(n);
        let mut k: usize = 0;
        while k < n
            invariant
                self.well_sized(),
                other.well_sized(),
                forall|x: T, y: Option<&T2>| #[trigger] apply_func.requires((&x, y)),
                n == recs@.len(),
                n == self.keys().len(),
                forall|q: int|
                    0 <= q < recs@.len() ==> (#[trigger] recs@[q]).refers_below(other.keys().len() as int),
                0 <= k <= n,
                vals@.len() == k,
                forall|q: int|
                    0 <= q < k ==> apply_func.ensures(
                        (&self.vals()[q], matched_value(&other.vals(), recs@[q])),
                        #[trigger] vals@[q],
                    ),
            decreases n - k,
        {
            let rec = recs[k];
            assert(recs@[k as int] == rec);
            let v = match rec.other_idx {
                Some(j) => apply_func(&self.values[k], Some(&other.values[j])),
                None => apply_func(&self.values[k], None),
            };
            vals.push(v);
            k = k + 1;
        }
        TimeSeries::from_vecs_unchecked(self.timeindicies.copy(), vals)
    }

    /// Merges two series by key order; where both hold a key, `selec_func(this point,
    /// other point)` gives the point kept.
    pub fn interweave<S: Fn(TimeSeriesDataPoint<i64, T>, TimeSeriesDataPoint<i64, T>) -> TimeSeriesDataPoint<i64, T>>(
        &self,
        other: &TimeSeries<T>,
        selec_func: S,
    ) -> (r: TimeSeries<T>)
        requires
            self.well_sized(),
            other.well_sized(),
            forall|x: TimeSeriesDataPoint<i64, T>, y: TimeSeriesDataPoint<i64, T>| #[trigger] selec_func.requires((x, y)),
        ensures
            ({
                let plan = weave_from(self.keys(), other.keys(), 0, 0);
                &&& r.well_sized()
                &&& r.keys().len() == plan.len()
                &&& forall|k: int| 0 <= k < plan.len() ==> self.woven_point(other, #[trigger] plan[k], selec_func, point_at(r.keys(), r.vals(), k))
            }),
    {
        let ghost a = self.keys();
        let ghost b = other.keys();
        let n1 = self.len();
        let n2 = other.len();
        let mut output: Vec<TimeSeriesDataPoint<i64, T>> = Vec::new();
        let ghost mut plan: Seq<(Option<int>, Option<int>)> = seq![];
        let mut pos1: usize = 0;
        let mut pos2: usize = 0;
        while pos1 < n1 || pos2 < n2
            invariant
                self.well_sized(),
                other.well_sized(),
                forall|x: TimeSeriesDataPoint<i64, T>, y: TimeSeriesDataPoint<i64, T>| #[trigger] selec_func.requires((x, y)),
                a == self.keys(),
                b == other.keys(),
                n1 == a.len(),
                n2 == b.len(),
                0 <= pos1 <= n1,
                0 <= pos2 <= n2,
                plan + weave_from(a, b, pos1 as int, pos2 as int) == weave_from(a, b, 0, 0),
                output@.len() == plan.len(),
                forall|k: int| 0 <= k < plan.len() ==> self.woven_point(other, #[trigger] plan[k], selec_func, output@[k]),
            decreases n1 - pos1, n2 - pos2,
        {
            let ghost prev = plan;
            if pos1 == n1 {
                output.push(TimeSeriesDataPoint::new(other.timeindicies.values[pos2], other.values[pos2]));
                proof {
                    plan = plan.push((None, Some(pos2 as int)));
                    assert(prev + weave_from(a, b, pos1 as int, pos2 as int) =~= plan + weave_from(a, b, pos1 as int, pos2 + 1));
                }
                pos2 = pos2 + 1;
            } else if pos2 == n2 {
                output.push(TimeSeriesDataPoint::new(self.timeindicies.values[pos1], self.values[pos1]));
                proof {
                    plan = plan.push((Some(pos1 as int), None));
                    assert(prev + weave_from(a, b, pos1 as int, pos2 as int) =~= plan + weave_from(a, b, pos1 + 1, pos2 as int));
                }
                pos1 = pos1 + 1;
            } else {
                let dp1 = TimeSeriesDataPoint::new(self.timeindicies.values[pos1], self.values[pos1]);
                let dp2 = TimeSeriesDataPoint::new(other.timeindicies.values[pos2], other.values[pos2]);
                if dp1.timestamp > dp2.timestamp {
                    output.push(dp2);
                    proof {
                        plan = plan.push((None, Some(pos2 as int)));
                        assert(prev + weave_from(a, b, pos1 as int, pos2 as int) =~= plan + weave_from(a, b, pos1 as int, pos2 + 1));
                    }
                    pos2 = pos2 + 1;
                } else if dp1.timestamp < dp2.timestamp {
                    output.push(dp1);
                    proof {
                        plan = plan.push((Some(pos1 as int), None));
                        assert(prev + weave_from(a, b, pos1 as int, pos2 as int) =~= plan + weave_from(a, b, pos1 + 1, pos2 as int));
                    }
                    pos1 = pos1 + 1;
                } else {
                    let chosen_one = selec_func(dp1, dp2);
                    output.push(chosen_one);
                    proof {
                        plan = plan.push((Some(pos1 as int), Some(pos2 as int)));
                        assert(prev + weave_from(a, b, pos1 as int, pos2 as int) =~= plan + weave_from(a, b, pos1 + 1, pos2 + 1));
                    }
                    pos1 = pos1 + 1;
                    pos2 = pos2 + 1;
                }
            }
        }
        assert(plan =~= plan + weave_from(a, b, pos1 as int, pos2 as int));
        let r = TimeSeries::from_tsdatapoints_unchecked(output);
        assert forall|k: int| 0 <= k < plan.len() implies self.woven_point(other, #[trigger] plan[k], selec_func, point_at(r.keys(), r.vals(), k)) by {
            assert(point_at(r.keys(), r.vals(), k) == output@[k]);
        }
        r
    }

    /// The point that an interweave keeps for one entry of its plan.
    pub open spec fn woven_point<S: Fn(TimeSeriesDataPoint<i64, T>, TimeSeriesDataPoint<i64, T>) -> TimeSeriesDataPoint<i64, T>>(
        &self,
        other: &TimeSeries<T>,
        step: (Option<int>, Option<int>),
        selec_func: S,
        p: TimeSeriesDataPoint<i64, T>,
    ) -> bool {
        match step {
            (Some(i), None) => p == point_at(self.keys(), self.vals(), i),
            (None, Some(j)) => p == point_at(other.keys(), other.vals(), j),
            (Some(i), Some(j)) => selec_func.ensures(
                (point_at(self.keys(), self.vals(), i), point_at(other.keys(), other.vals(), j)),
                p,
            ),
            (None, None) => false,
        }
    }

    /// An order-enforcing traversal that yields copies of the points.
    pub fn into_ordered_iter(&self) -> (r: OrderedTimeSeriesIter<'_, T>)
        ensures
            r.ts == self,
            r.index == 0,
            r.priorts.is_none(),
            !r.stopped,
    {
        OrderedTimeSeriesIter::new(self, 0)
    }

    /// An order-enforcing traversal that yields references.
    pub fn ordered_iter(&self) -> (r: OrderedTimeSeriesRefIter<'_, T>)
        ensures
            r.ts == self,
            r.index == 0,
            r.priorts.is_none(),
            !r.stopped,
    {
        OrderedTimeSeriesRefIter::new(self, 0)
    }

    /// A traversal in storage order that yields copies of the points.
    pub fn into_iter(&self) -> (r: TimeSeriesIter<'_, T>)
        ensures
            r.ts == self,
            r.index == 0,
    {
        TimeSeriesIter::new(self, 0)
    }

    /// A traversal in storage order that yields references.
    pub fn iter(&self) -> (r: TimeSeriesRefIter<'_, T>)
        ensures
            r.ts == self,
            r.index == 0,
    {
        TimeSeriesRefIter::new(self, 0)
    }

    /// Lags (`shift < 0`) or leads (`shift > 0`) the values against the keys by `|shift|`.
    pub fn shift(&self, shift: isize) -> (r: ShiftedTimeSeriesIter<'_, T>)
        ensures
            r.ts == self,
            r.index == 0,
            r.shift == shift,
    {
        ShiftedTimeSeriesIter::new(self, 0, shift)
    }

    /// A rolling window of `window_size` values, reduced by `transform_func` at each step.
    pub fn apply_rolling<F>(&self, window_size: usize, transform_func: F) -> (r: RollingTimeSeriesIter<'_, T, F>)
        requires
            self.well_sized(),
            window_size >= 1,
        ensures
            r.ts == self,
            r.index == window_size - 1,
            r.window_size == window_size,
            r.transform_func == transform_func,
            r.well_formed(),
    {
        RollingTimeSeriesIter::new(self, window_size, transform_func)
    }

    /// A rolling window of `window_size` values kept as an accumulator updated with the
    /// entering value and decremented with the leaving one.
    pub fn apply_updating_rolling<TRes: Copy, U: Fn(Option<TRes>, &T) -> Option<TRes>, D: Fn(Option<TRes>, &T) -> Option<TRes>>(
        &self,
        window_size: usize,
        update_func: U,
        decrement_func: D,
    ) -> (r: RollingTimeSeriesIterWithUpdate<'_, T, TRes, U, D>)
        requires
            self.well_sized(),
            window_size >= 1,
            forall|a: Option<TRes>, v: T| #[trigger] update_func.requires((a, &v)),
        ensures
            r.ts == self,
            r.index + 1 == window_size,
            r.window_size == window_size,
            r.update_func == update_func,
            r.decrement_func == decrement_func,
            r.well_formed(),
    {
        RollingTimeSeriesIterWithUpdate::new(self, window_size, update_func, decrement_func)
    }

    /// Pairs each value at a multiple of `skip_span` with the value `skip_span` earlier.
    pub fn skip_apply<F>(&self, skip_span: usize, transform_func: F) -> (r: SkipApplyTimeSeriesIter<'_, T, F>)
        requires
            self.well_sized(),
            skip_span >= 1,
        ensures
            r.ts == self,
            r.index == skip_span,
            r.span_size == skip_span,
            r.transform_func == transform_func,
            r.well_formed(),
    {
        SkipApplyTimeSeriesIter::new(self, skip_span, transform_func)
    }

    /// Validated construction from points: sorts them by key (stably), then refuses
    /// the result if a key occurs twice.
    pub fn from_tsdatapoints(tsdatapoints: Vec<TimeSeriesDataPoint<i64, T>>) -> (r: Result<TimeSeries<T>, SeriesError>)
        ensures
            r.is_ok() <==> all_distinct(keys_of(tsdatapoints@)),
            r matches Err(e) ==> e == SeriesError::NotUnique,
            r matches Ok(ts) ==> {
                &&& ts.is_valid()
                &&& ts.keys().len() == tsdatapoints@.len()
                &&& forall|i: int| 0 <= i < tsdatapoints@.len() ==> ts.has_point(#[trigger] tsdatapoints@[i])
            },
    {
        let sorted = sort_points(&tsdatapoints);
        let ghost src = tsdatapoints@;
        let ghost (perm, inv) = choose|perm: Seq<int>, inv: Seq<int>| rearranges(sorted@, src, perm, inv);
        let n = sorted.len();
        let mut index: Vec<i64> = Vec::with_capacity(n);
        let mut values: Vec<T> = Vec::with_capacity(n);
        let mut k: usize = 0;
        while k < n
            invariant
                n == sorted@.len(),
                0 <= k <= n,
                index@ == keys_of(sorted@).subrange(0, k as int),
                values@.len() == k,
                forall|q: int| 0 <= q < k ==> #[trigger] values@[q] == sorted@[q].value,
            decreases n - k,
        {
            let dp = sorted[k];
            index.push(dp.timestamp);
            values.push(dp.value);
            k = k + 1;
            assert(index@ =~= keys_of(sorted@).subrange(0, k as int));
        }
        assert(index@ =~= keys_of(sorted@));
        let ghost ks = keys_of(sorted@);
        let ghost kin = keys_of(src);
        proof {
            if all_distinct(kin) {
                assert forall|a: int, b: int| 0 <= a < ks.len() && 0 <= b < ks.len() && a != b implies ks[a] != ks[b] by {
                    assert(inv[perm[a]] == a);
                    assert(inv[perm[b]] == b);
                    assert(ks[a] == kin[perm[a]]);
                    assert(ks[b] == kin[perm[b]]);
                }
                lemma_sorted_distinct_increasing(ks);
            } else {
                let (a, b) = choose|a: int, b: int| 0 <= a < kin.len() && 0 <= b < kin.len() && a != b && kin[a] == kin[b];
                assert(ks[inv[a]] == kin[a]);
                assert(ks[inv[b]] == kin[b]);
                assert(inv[a] != inv[b]);
                assert(!all_distinct(ks));
            }
        }
        let r = TimeSeries::from_vecs(index, values);
        proof {
            let rr = r;
            if let Ok(ts) = rr {
                assert forall|i: int| 0 <= i < src.len() implies ts.has_point(#[trigger] src[i]) by {
                    let k = inv[i];
                    assert(sorted@[k] == src[perm[k]]);
                    assert(ts.keys()[k] == ks[k]);
                    assert(ts.vals()[k] == sorted@[k].value);
                    assert(src[i] == point_at(ts.keys(), ts.vals(), k));
                }
            }
        }
        r
    }

    /// Whether `r` resamples this series: `buckets[i]` is the bucket key `group_func`
    /// gave key `i`, `runs` the maximal runs of equal bucket keys, and point `k` of `r`
    /// the key of run `k` with `agg_func` of the points of that run.
    pub open spec fn resampled_by<TDuration, TRes, G: Fn(&i64, &TDuration) -> i64, A: Fn(&Vec<TimeSeriesDataPoint<i64, T>>) -> TRes>(
        &self,
        sample_size: TDuration,
        group_func: G,
        agg_func: A,
        buckets: Seq<i64>,
        runs: Seq<(i64, usize)>,
        r: TimeSeries<TRes>,
    ) -> bool {
        &&& buckets.len() == self.keys().len()
        &&& forall|i: int| 0 <= i < buckets.len() ==> #[trigger] group_func.ensures((&self.keys()[i], &sample_size), buckets[i])
        &&& is_run_encoding(buckets, runs)
        &&& r.well_sized()
        &&& r.keys().len() == runs.len()
        &&& forall|k: int| 0 <= k < runs.len() ==> #[trigger] r.keys()[k] == runs[k].0
        &&& forall|k: int| 0 <= k < runs.len() ==> aggregated(
            agg_func,
            points_in(self.keys(), self.vals(), run_start(runs, k), run_start(runs, k) + runs[k].1),
            #[trigger] r.vals()[k],
        )
    }

    /// Groups consecutive points whose keys `group_func` puts in the same bucket and
    /// reduces each group with `agg_func`, under the bucket key. Grouping relies on the
    /// series being ordered: out of order, a bucket may come back in several groups.
    pub fn resample_and_agg<TRes: Copy, TDuration, G: Fn(&i64, &TDuration) -> i64, A: Fn(&Vec<TimeSeriesDataPoint<i64, T>>) -> TRes>(
        &self,
        sample_size: TDuration,
        group_func: G,
        agg_func: A,
    ) -> (r: TimeSeries<TRes>)
        requires
            self.well_sized(),
            forall|i: int| 0 <= i < self.keys().len() ==> #[trigger] group_func.requires((&self.keys()[i], &sample_size)),
            forall|g: &Vec<TimeSeriesDataPoint<i64, T>>| #[trigger] agg_func.requires((g,)),
        ensures
            exists|buckets: Seq<i64>, runs: Seq<(i64, usize)>| #[trigger] self.resampled_by(sample_size, group_func, agg_func, buckets, runs, r),
    {
        let n = self.len();
        let mut buckets: Vec<i64> = Vec::with_capacity(n);
        let mut i: usize = 0;
        while i < n
            invariant
                self.well_sized(),
                n == self.keys().len(),
                0 <= i <= n,
                buckets@.len() == i,
                forall|q: int| 0 <= q < self.keys().len() ==> #[trigger] group_func.requires((&self.keys()[q], &sample_size)),
                forall|q: int| 0 <= q < i ==> #[trigger] group_func.ensures((&self.keys()[q], &sample_size), buckets@[q]),
            decreases n - i,
        {
            let b = group_func(&self.timeindicies.values[i], &sample_size);
            buckets.push(b);
            i = i + 1;
        }
        let runs = group_runs(&buckets);
        let ghost rs = runs@;
        let m = runs.len();
        let mut keys: Vec<i64> = Vec::with_capacity(m);
        let mut vals: Vec<TRes> = Vec::with_capacity(m);
        let mut start: usize = 0;
        let mut k: usize = 0;
        while k < m
            invariant
                self.well_sized(),
                n == self.keys().len(),
                rs == runs@,
                m == rs.len(),
                is_run_encoding(buckets@, rs),
                buckets@.len() == n,
                forall|g: &Vec<TimeSeriesDataPoint<i64, T>>| #[trigger] agg_func.requires((g,)),
                0 <= k <= m,
                start == run_start(rs, k as int),
                keys@.len() == k,
                vals@.len() == k,
                forall|q: int| 0 <= q < k ==> #[trigger] keys@[q] == rs[q].0,
                forall|q: int| 0 <= q < k ==> aggregated(
                    agg_func,
                    points_in(self.keys(), self.vals(), run_start(rs, q), run_start(rs, q) + rs[q].1),
                    #[trigger] vals@[q],
                ),
            decreases m - k,
        {
            let (key, count) = runs[k];
            proof {
                lemma_run_start_monotone(rs, k + 1, m as int);
            }
            let end = start + count;
            let mut group: Vec<TimeSeriesDataPoint<i64, T>> = Vec::with_capacity(count);
            let mut j: usize = start;
            while j < end
                invariant
                    self.well_sized(),
                    n == self.keys().len(),
                    start <= j <= end <= n,
                    group@ == points_in(self.keys(), self.vals(), start as int, j as int),
                decreases end - j,
            {
                group.push(TimeSeriesDataPoint::new(self.timeindicies.values[j], self.values[j]));
                j = j + 1;
                assert(group@ =~= points_in(self.keys(), self.vals(), start as int, j as int));
            }
            let v = agg_func(&group);
            let ghost ov = vals@;
            let ghost ok = keys@;
            keys.push(key);
            vals.push(v);
            proof {
                assert(aggregated(agg_func, points_in(self.keys(), self.vals(), run_start(rs, k as int), run_start(rs, k as int) + rs[k as int].1), v));
                assert forall|q: int| 0 <= q < k + 1 implies aggregated(
                    agg_func,
                    points_in(self.keys(), self.vals(), run_start(rs, q), run_start(rs, q) + rs[q].1),
                    #[trigger] vals@[q],
                ) by {
                    if q < k {
                        assert(vals@[q] == ov[q]);
                    }
                }
                assert forall|q: int| 0 <= q < k + 1 implies #[trigger] keys@[q] == rs[q].0 by {
                    if q < k {
                        assert(keys@[q] == ok[q]);
                    }
                }
            }
            start = end;
            k = k + 1;
        }
        let r = TimeSeries::from_vecs_unchecked(HashableIndex::new(keys), vals);
        assert(self.resampled_by(sample_size, group_func, agg_func, buckets@, rs, r));
        r
    }
}

} // verus!
