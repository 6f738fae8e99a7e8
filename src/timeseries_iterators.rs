//! Single-pass traversals of a series: in order, order-enforcing, shifted, rolling,
//! rolling with an updated accumulator, and skip-span pairing. Each has a `next` step
//! and a collector that builds a series from what it yields, without checks.
use crate::data_elements::TimeSeriesDataPoint;
use crate::timeseries::{TimeSeries, point_at, points_in};
use vstd::prelude::*;

verus! {

/// Where an order-enforcing traversal from position `i`, after key `prior`, stops:
/// at the end, or at the first key below the one before it.
pub open spec fn ordered_run_end(ks: Seq<i64>, i: int, prior: Option<i64>) -> int
    decreases ks.len() - i,
{
    if i < 0 || i >= ks.len() {
        ks.len() as int
    } else if prior matches Some(p) && ks[i] < p {
        i
    } else {
        ordered_run_end(ks, i + 1, Some(ks[i]))
    }
}

proof fn lemma_ordered_run_end_bounds(ks: Seq<i64>, i: int, prior: Option<i64>)
    requires
        0 <= i,
    ensures
        i <= ordered_run_end(ks, i, prior) <= ks.len() || (i > ks.len() && ordered_run_end(ks, i, prior) == ks.len()),
    decreases ks.len() - i,
{
    if i < ks.len() {
        if !(prior matches Some(p) && ks[i] < p) {
            lemma_ordered_run_end_bounds(ks, i + 1, Some(ks[i]));
        }
    }
}

/// Traverses a series in storage order and stops for good at the first key that is
/// below the key before it.
pub struct OrderedTimeSeriesIter<'a, T> {
    pub ts: &'a TimeSeries<T>,
    pub index: usize,
    pub priorts: Option<i64>,
    pub stopped: bool,
}

impl<'a, T: Copy> OrderedTimeSeriesIter<'a, T> {
    /// Starts at position `index`.
    pub fn new(ts: &'a TimeSeries<T>, index: usize) -> (r: OrderedTimeSeriesIter<'a, T>)
        ensures
            r.ts == ts,
            r.index == index,
            r.priorts.is_none(),
            !r.stopped,
    {
        OrderedTimeSeriesIter { ts, index, priorts: None, stopped: false }
    }

    /// Where the traversal ends, from its present state.
    pub open spec fn end(&self) -> int {
        if self.stopped {
            self.index as int
        } else {
            ordered_run_end(self.ts.keys(), self.index as int, self.priorts)
        }
    }

    /// The next point, unless the series is used up or out of order here.
    pub fn next(&mut self) -> (r: Option<TimeSeriesDataPoint<i64, T>>)
        requires
            old(self).ts.well_sized(),
        ensures
            final(self).ts == old(self).ts,
            ({
                let ks = old(self).ts.keys();
                let i = old(self).index as int;
                if old(self).stopped || i >= ks.len() {
                    r.is_none() && *final(self) == *old(self)
                } else if old(self).priorts matches Some(p) && ks[i] < p {
                    r.is_none() && final(self).stopped && final(self).index == old(self).index
                } else {
                    &&& r == Some(point_at(ks, old(self).ts.vals(), i))
                    &&& final(self).index == i + 1
                    &&& final(self).priorts == Some(ks[i])
                    &&& !final(self).stopped
                }
            }),
    {
        if self.stopped || self.index >= self.ts.len() {
            return None;
        }
        let i = self.index;
        let key = self.ts.timeindicies.values[i];
        match self.priorts {
            Some(p) => {
                if key < p {
                    self.stopped = true;
                    return None;
                }
            },
            None => {},
        }
        self.index = i + 1;
        self.priorts = Some(key);
        Some(TimeSeriesDataPoint::new(key, self.ts.values[i]))
    }

    /// Builds a series, unchecked, from the points the traversal yields.
    pub fn collect_from_unchecked_iter(self) -> (r: TimeSeries<T>)
        requires
            self.ts.well_sized(),
        ensures
            self.index <= self.ts.keys().len() ==> r.holds(
                points_in(self.ts.keys(), self.ts.vals(), self.index as int, self.end()),
            ),
            self.index > self.ts.keys().len() ==> r.keys().len() == 0 && r.well_sized(),
    {
        let mut it = self;
        let ghost start = self.index as int;
        let ghost stop = self.end();
        let ghost ks = self.ts.keys();
        let ghost vs = self.ts.vals();
        proof {
            if !self.stopped {
                lemma_ordered_run_end_bounds(ks, start, self.priorts);
            }
        }
        let mut out: Vec<TimeSeriesDataPoint<i64, T>> = Vec::new();
        loop
            invariant
                it.ts == self.ts,
                ks == it.ts.keys(),
                vs == it.ts.vals(),
                it.ts.well_sized(),
                start <= ks.len() ==> start <= it.index <= stop <= ks.len(),
                start <= ks.len() ==> it.end() == stop,
                start <= ks.len() ==> out@ == points_in(ks, vs, start, it.index as int),
                start > ks.len() ==> out@.len() == 0 && it.index as int == start,
            ensures
                start <= ks.len() ==> out@ == points_in(ks, vs, start, stop),
                start > ks.len() ==> out@.len() == 0,
            decreases ks.len() - it.index + if it.stopped { 0int } else { 1int },
        {
            match it.next() {
                Some(dp) => {
                    proof {
                        lemma_ordered_run_end_bounds(ks, it.index as int, it.priorts);
                    }
                    out.push(dp);
                    assert(out@ =~= points_in(ks, vs, start, it.index as int));
                },
                None => {
                    assert(start <= ks.len() ==> it.index == stop);
                    break;
                },
            }
        }
        TimeSeries::from_tsdatapoints_unchecked(out)
    }
}

proof fn lemma_increasing_run(ks: Seq<i64>, i: int)
    requires
        1 <= i <= ks.len(),
        forall|a: int, b: int| 0 <= a < b < ks.len() ==> ks[a] < ks[b],
    ensures
        ordered_run_end(ks, i, Some(ks[i - 1])) == ks.len(),
    decreases ks.len() - i,
{
    if i < ks.len() {
        assert(ks[i - 1] < ks[i]);
        lemma_increasing_run(ks, i + 1);
    }
}

/// Collecting the order-enforcing traversal of a valid series from its first position
/// gives back the series itself: same keys, same values, same order.
pub proof fn lemma_ordered_collect_reproduces<T>(ts: TimeSeries<T>, r: TimeSeries<T>)
    requires
        ts.is_valid(),
        r.holds(points_in(ts.keys(), ts.vals(), 0, ordered_run_end(ts.keys(), 0, None))),
    ensures
        r.keys() == ts.keys(),
        r.vals() == ts.vals(),
{
    let ks = ts.keys();
    if ks.len() > 0 {
        lemma_increasing_run(ks, 1);
    }
    assert(ordered_run_end(ks, 0, None) == ks.len());
    assert forall|k: int| 0 <= k < ks.len() implies #[trigger] r.vals()[k] == ts.vals()[k] by {
        assert(point_at(r.keys(), r.vals(), k) == points_in(ks, ts.vals(), 0, ks.len() as int)[k]);
    }
    assert forall|k: int| 0 <= k < ks.len() implies #[trigger] r.keys()[k] == ks[k] by {
        assert(point_at(r.keys(), r.vals(), k) == points_in(ks, ts.vals(), 0, ks.len() as int)[k]);
    }
    assert(r.keys().len() == ks.len());
    assert(r.vals().len() == ts.vals().len());
    assert(r.keys() =~= ks);
    assert(r.vals() =~= ts.vals());
}

/// Traverses a series in storage order, yielding copies of its points.
pub struct TimeSeriesIter<'a, T> {
    pub ts: &'a TimeSeries<T>,
    pub index: usize,
}

impl<'a, T: Copy> TimeSeriesIter<'a, T> {
    /// Starts at position `index`.
    pub fn new(ts: &'a TimeSeries<T>, index: usize) -> (r: TimeSeriesIter<'a, T>)
        ensures
            r.ts == ts,
            r.index == index,
    {
        TimeSeriesIter { ts, index }
    }

    /// The point at the cursor, if any, and the cursor moves on.
    pub fn next(&mut self) -> (r: Option<TimeSeriesDataPoint<i64, T>>)
        requires
            old(self).ts.well_sized(),
        ensures
            final(self).ts == old(self).ts,
            old(self).index < old(self).ts.keys().len() ==> r == Some(
                point_at(old(self).ts.keys(), old(self).ts.vals(), old(self).index as int),
            ) && final(self).index == old(self).index + 1,
            old(self).index >= old(self).ts.keys().len() ==> r.is_none() && final(self).index
                == old(self).index,
    {
        if self.index < self.ts.len() {
            let i = self.index;
            self.index = i + 1;
            Some(TimeSeriesDataPoint::new(self.ts.timeindicies.values[i], self.ts.values[i]))
        } else {
            None
        }
    }

    /// Builds a series, unchecked, from the points the traversal yields.
    pub fn collect_from_unchecked_iter(self) -> (r: TimeSeries<T>)
        requires
            self.ts.well_sized(),
        ensures
            self.index <= self.ts.keys().len() ==> r.holds(
                points_in(self.ts.keys(), self.ts.vals(), self.index as int, self.ts.keys().len() as int),
            ),
            self.index > self.ts.keys().len() ==> r.keys().len() == 0 && r.well_sized(),
    {
        let mut it = self;
        let ghost start = self.index as int;
        let ghost ks = self.ts.keys();
        let ghost vs = self.ts.vals();
        let mut out: Vec<TimeSeriesDataPoint<i64, T>> = Vec::new();
        while it.index < it.ts.len()
            invariant
                it.ts == self.ts,
                ks == it.ts.keys(),
                vs == it.ts.vals(),
                it.ts.well_sized(),
                start <= it.index,
                start <= ks.len() ==> it.index <= ks.len(),
                start <= ks.len() ==> out@ == points_in(ks, vs, start, it.index as int),
                start > ks.len() ==> out@.len() == 0,
            decreases ks.len() - it.index,
        {
            let dp = it.next();
            match dp {
                Some(p) => {
                    out.push(p);
                },
                None => {},
            }
            assert(out@ =~= points_in(ks, vs, start, it.index as int));
        }
        TimeSeries::from_tsdatapoints_unchecked(out)
    }
}

/// Traverses a series in storage order, yielding references to its keys and values.
pub struct TimeSeriesRefIter<'a, T> {
    pub ts: &'a TimeSeries<T>,
    pub index: usize,
}

impl<'a, T: Copy> TimeSeriesRefIter<'a, T> {
    /// Starts at position `index`.
    pub fn new(ts: &'a TimeSeries<T>, index: usize) -> (r: TimeSeriesRefIter<'a, T>)
        ensures
            r.ts == ts,
            r.index == index,
    {
        TimeSeriesRefIter { ts, index }
    }

    /// The key and value at the cursor, if any, and the cursor moves on.
    pub fn next(&mut self) -> (r: Option<TimeSeriesDataPoint<&'a i64, &'a T>>)
        requires
            old(self).ts.well_sized(),
        ensures
            final(self).ts == old(self).ts,
            old(self).index < old(self).ts.keys().len() ==> r == Some(
                TimeSeriesDataPoint {
                    timestamp: &old(self).ts.keys()[old(self).index as int],
                    value: &old(self).ts.vals()[old(self).index as int],
                },
            ) && final(self).index == old(self).index + 1,
            old(self).index >= old(self).ts.keys().len() ==> r.is_none() && final(self).index
                == old(self).index,
    {
        let ts: &'a TimeSeries<T> = self.ts;
        if self.index < ts.len() {
            let i = self.index;
            self.index = i + 1;
            Some(TimeSeriesDataPoint::new(&ts.timeindicies.values[i], &ts.values[i]))
        } else {
            None
        }
    }
}

/// Traverses a series by reference, stopping for good at the first key below the key
/// before it.
pub struct OrderedTimeSeriesRefIter<'a, T> {
    pub ts: &'a TimeSeries<T>,
    pub index: usize,
    pub priorts: Option<i64>,
    pub stopped: bool,
}

impl<'a, T: Copy> OrderedTimeSeriesRefIter<'a, T> {
    /// Starts at position `index`.
    pub fn new(ts: &'a TimeSeries<T>, index: usize) -> (r: OrderedTimeSeriesRefIter<'a, T>)
        ensures
            r.ts == ts,
            r.index == index,
            r.priorts.is_none(),
            !r.stopped,
    {
        OrderedTimeSeriesRefIter { ts, index, priorts: None, stopped: false }
    }

    /// The key and value at the cursor, unless the series is used up or out of order here.
    pub fn next(&mut self) -> (r: Option<TimeSeriesDataPoint<&'a i64, &'a T>>)
        requires
            old(self).ts.well_sized(),
        ensures
            final(self).ts == old(self).ts,
            ({
                let ks = old(self).ts.keys();
                let i = old(self).index as int;
                if old(self).stopped || i >= ks.len() {
                    r.is_none() && *final(self) == *old(self)
                } else if old(self).priorts matches Some(p) && ks[i] < p {
                    r.is_none() && final(self).stopped && final(self).index == old(self).index
                } else {
                    &&& r == Some(
                        TimeSeriesDataPoint { timestamp: &ks[i], value: &old(self).ts.vals()[i] },
                    )
                    &&& final(self).index == i + 1
                    &&& final(self).priorts == Some(ks[i])
                    &&& !final(self).stopped
                }
            }),
    {
        let ts: &'a TimeSeries<T> = self.ts;
        if self.stopped || self.index >= ts.len() {
            return None;
        }
        let i = self.index;
        let key = ts.timeindicies.values[i];
        match self.priorts {
            Some(p) => {
                if key < p {
                    self.stopped = true;
                    return None;
                }
            },
            None => {},
        }
        self.index = i + 1;
        self.priorts = Some(key);
        Some(TimeSeriesDataPoint::new(&ts.timeindicies.values[i], &ts.values[i]))
    }
}

/// How far a shift moves values against keys.
pub open spec fn magnitude(shift: isize) -> int {
    if shift < 0 {
        -shift
    } else {
        shift as int
    }
}

/// How many points a shift leaves of `n`.
pub open spec fn shifted_len(n: int, shift: isize) -> int {
    if magnitude(shift) < n {
        n - magnitude(shift)
    } else {
        0
    }
}

/// Point `p` of a shift: a lag (`shift < 0`) puts value `p` under key `p + |shift|`; a
/// lead puts value `p + shift` under key `p`.
pub open spec fn shifted_point<T>(ks: Seq<i64>, vs: Seq<T>, shift: isize, p: int) -> TimeSeriesDataPoint<i64, T> {
    if shift < 0 {
        TimeSeriesDataPoint { timestamp: ks[p + magnitude(shift)], value: vs[p] }
    } else {
        TimeSeriesDataPoint { timestamp: ks[p], value: vs[p + magnitude(shift)] }
    }
}

/// The points of a shift, from output position `from` on.
pub open spec fn shifted_points<T>(ks: Seq<i64>, vs: Seq<T>, shift: isize, from: int) -> Seq<TimeSeriesDataPoint<i64, T>> {
    Seq::new((shifted_len(ks.len() as int, shift) - from) as nat, |k: int| shifted_point(ks, vs, shift, from + k))
}

fn shift_magnitude(shift: isize) -> (r: usize)
    ensures
        r as int == magnitude(shift),
{
    if shift >= 0 {
        shift as usize
    } else {
        (-(shift + 1)) as usize + 1
    }
}

/// Lags (`shift < 0`) or leads (`shift > 0`) values against keys; ends where either
/// position would leave the series.
pub struct ShiftedTimeSeriesIter<'a, T> {
    pub ts: &'a TimeSeries<T>,
    pub index: usize,
    pub shift: isize,
}

impl<'a, T: Copy> ShiftedTimeSeriesIter<'a, T> {
    /// Starts at output position `index`.
    pub fn new(ts: &'a TimeSeries<T>, index: usize, shift: isize) -> (r: ShiftedTimeSeriesIter<'a, T>)
        ensures
            r.ts == ts,
            r.index == index,
            r.shift == shift,
    {
        ShiftedTimeSeriesIter { ts, index, shift }
    }

    /// The next shifted point, if both of its positions lie within the series.
    pub fn next(&mut self) -> (r: Option<TimeSeriesDataPoint<i64, T>>)
        requires
            old(self).ts.well_sized(),
        ensures
            final(self).ts == old(self).ts,
            final(self).shift == old(self).shift,
            ({
                let i = old(self).index as int;
                if i < shifted_len(old(self).ts.keys().len() as int, old(self).shift) {
                    r == Some(shifted_point(old(self).ts.keys(), old(self).ts.vals(), old(self).shift, i))
                        && final(self).index == i + 1
                } else {
                    r.is_none() && final(self).index == i
                }
            }),
    {
        let n = self.ts.len();
        let s = shift_magnitude(self.shift);
        if s < n && self.index < n - s {
            let i = self.index;
            self.index = i + 1;
            if self.shift < 0 {
                Some(TimeSeriesDataPoint::new(self.ts.timeindicies.values[i + s], self.ts.values[i]))
            } else {
                Some(TimeSeriesDataPoint::new(self.ts.timeindicies.values[i], self.ts.values[i + s]))
            }
        } else {
            None
        }
    }

    /// Builds a series, unchecked, from the points the traversal yields.
    pub fn collect_from_unchecked_iter(self) -> (r: TimeSeries<T>)
        requires
            self.ts.well_sized(),
        ensures
            self.index <= shifted_len(self.ts.keys().len() as int, self.shift) ==> r.holds(
                shifted_points(self.ts.keys(), self.ts.vals(), self.shift, self.index as int),
            ),
            self.index > shifted_len(self.ts.keys().len() as int, self.shift) ==> r.keys().len() == 0
                && r.well_sized(),
    {
        let mut it = self;
        let ghost start = self.index as int;
        let ghost ks = self.ts.keys();
        let ghost vs = self.ts.vals();
        let ghost m = shifted_len(ks.len() as int, self.shift);
        let mut out: Vec<TimeSeriesDataPoint<i64, T>> = Vec::new();
        loop
            invariant
                it.ts == self.ts,
                it.shift == self.shift,
                ks == it.ts.keys(),
                vs == it.ts.vals(),
                it.ts.well_sized(),
                m == shifted_len(ks.len() as int, it.shift),
                start <= it.index,
                start <= m ==> it.index <= m,
                start <= m ==> out@ =~= Seq::new((it.index - start) as nat, |k: int| shifted_point(ks, vs, it.shift, start + k)),
                start > m ==> out@.len() == 0,
            ensures
                start <= m ==> out@ =~= shifted_points(ks, vs, self.shift, start),
                start > m ==> out@.len() == 0,
            decreases m - it.index,
        {
            match it.next() {
                Some(p) => {
                    out.push(p);
                },
                None => {
                    break;
                },
            }
        }
        TimeSeries::from_tsdatapoints_unchecked(out)
    }
}

/// The values of the window of `w` positions that ends at position `p`.
pub open spec fn window_at<T>(vs: Seq<T>, w: int, p: int) -> Seq<T> {
    vs.subrange(p + 1 - w, p + 1)
}

/// `v` is a result of `f` on a vector holding `window`.
pub open spec fn rolled_from<T, R, F: Fn(&Vec<T>) -> R>(f: F, window: Seq<T>, v: R) -> bool {
    exists|b: Vec<T>| b@ == window && #[trigger] f.ensures((&b,), v)
}

/// Slides a window of `window_size` values along a series and applies `transform_func`
/// to the whole window at each position from `window_size - 1` on.
pub struct RollingTimeSeriesIter<'a, T, F> {
    pub ts: &'a TimeSeries<T>,
    pub index: usize,
    pub window_size: usize,
    pub transform_func: F,
    pub buffer: Vec<T>,
}

impl<'a, T: Copy, F> RollingTimeSeriesIter<'a, T, F> {
    /// The buffer holds the window that ends at the cursor.
    pub open spec fn well_formed(&self) -> bool {
        &&& self.ts.well_sized()
        &&& self.window_size >= 1
        &&& self.index + 1 >= self.window_size
        &&& self.index < self.ts.keys().len() ==> self.buffer@ == window_at(
            self.ts.vals(),
            self.window_size as int,
            self.index as int,
        )
    }

    /// Starts with the first full window, which ends at position `window_size - 1`.
    pub fn new(ts: &'a TimeSeries<T>, window_size: usize, transform_func: F) -> (r: RollingTimeSeriesIter<'a, T, F>)
        requires
            ts.well_sized(),
            window_size >= 1,
        ensures
            r.ts == ts,
            r.index == window_size - 1,
            r.window_size == window_size,
            r.transform_func == transform_func,
            r.well_formed(),
    {
        let n = ts.len();
        let mut buffer: Vec<T> = Vec::new();
        if window_size <= n {
            let mut k: usize = 0;
            while k < window_size
                invariant
                    ts.well_sized(),
                    n == ts.keys().len(),
                    window_size <= n,
                    0 <= k <= window_size,
                    buffer@ == ts.vals().subrange(0, k as int),
                decreases window_size - k,
            {
                buffer.push(ts.values[k]);
                k = k + 1;
                assert(buffer@ =~= ts.vals().subrange(0, k as int));
            }
        }
        RollingTimeSeriesIter { ts, index: window_size - 1, window_size, transform_func, buffer }
    }

    /// The transform of the window that ends at the cursor, and the window slides on.
    pub fn next<R>(&mut self) -> (r: Option<TimeSeriesDataPoint<i64, R>>)
        where F: Fn(&Vec<T>) -> R,
        requires
            old(self).well_formed(),
            forall|b: &Vec<T>| #[trigger] old(self).transform_func.requires((b,)),
        ensures
            final(self).well_formed(),
            final(self).ts == old(self).ts,
            final(self).window_size == old(self).window_size,
            final(self).transform_func == old(self).transform_func,
            old(self).index < old(self).ts.keys().len() ==> {
                &&& r matches Some(dp) && dp.timestamp == old(self).ts.keys()[old(self).index as int]
                    && old(self).transform_func.ensures((&old(self).buffer,), dp.value)
                &&& final(self).index == old(self).index + 1
            },
            old(self).index >= old(self).ts.keys().len() ==> r.is_none() && final(self).index == old(self).index,
    {
        let n = self.ts.len();
        if self.index < n {
            let i = self.index;
            let newv = (self.transform_func)(&self.buffer);
            self.index = i + 1;
            if i + 1 < n {
                self.buffer.remove(0);
                self.buffer.push(self.ts.values[i + 1]);
                assert(self.buffer@ =~= window_at(self.ts.vals(), self.window_size as int, i + 1));
            }
            Some(TimeSeriesDataPoint::new(self.ts.timeindicies.values[i], newv))
        } else {
            None
        }
    }

    /// Builds a series, unchecked, from the points the traversal yields: one for each
    /// position from the cursor on, with the transform of the window ending there.
    pub fn collect_from_unchecked_iter<R: Copy>(self) -> (r: TimeSeries<R>)
        where F: Fn(&Vec<T>) -> R,
        requires
            self.well_formed(),
            forall|b: &Vec<T>| #[trigger] self.transform_func.requires((b,)),
        ensures
            r.well_sized(),
            self.index < self.ts.keys().len() ==> r.keys() == self.ts.keys().subrange(self.index as int, self.ts.keys().len() as int),
            self.index >= self.ts.keys().len() ==> r.keys().len() == 0,
            forall|k: int| 0 <= k < r.keys().len() ==> rolled_from(self.transform_func, window_at(self.ts.vals(), self.window_size as int, self.index + k), #[trigger] r.vals()[k]),
    {
        let ghost start = self.index as int;
        let ghost ks = self.ts.keys();
        let ghost vs = self.ts.vals();
        let ghost w = self.window_size as int;
        let mut it = self;
        let mut keys: Vec<i64> = Vec::new();
        let mut vals: Vec<R> = Vec::new();
        while it.index < it.ts.len()
            invariant
                it.well_formed(),
                it.ts == self.ts,
                it.window_size == self.window_size,
                it.transform_func == self.transform_func,
                forall|b: &Vec<T>| #[trigger] self.transform_func.requires((b,)),
                ks == it.ts.keys(),
                vs == it.ts.vals(),
                w == it.window_size,
                start == self.index as int,
                start <= it.index,
                start < ks.len() ==> it.index <= ks.len(),
                start < ks.len() ==> keys@ == ks.subrange(start, it.index as int),
                start >= ks.len() ==> it.index == start,
                keys@.len() == vals@.len(),
                keys@.len() == it.index - start,
                forall|k: int| 0 <= k < vals@.len() ==> rolled_from(self.transform_func, window_at(vs, w, start + k), #[trigger] vals@[k]),
            decreases ks.len() - it.index,
        {
            let ghost b = it.buffer;
            let ghost i = it.index as int;
            match it.next() {
                Some(dp) => {
                    let ghost old_vals = vals@;
                    let ghost old_keys = keys@;
                    assert(dp.timestamp == ks[i]);
                    keys.push(dp.timestamp);
                    vals.push(dp.value);
                    assert(keys@ =~= old_keys.push(ks[i]));
                    assert(ks.subrange(start, i + 1) =~= ks.subrange(start, i).push(ks[i]));
                    assert forall|k: int| 0 <= k < vals@.len() implies rolled_from(self.transform_func, window_at(vs, w, start + k), #[trigger] vals@[k]) by {
                        if k < old_vals.len() {
                            assert(vals@[k] == old_vals[k]);
                        } else {
                            assert(b@ == window_at(vs, w, start + k));
                            assert(self.transform_func.ensures((&b,), vals@[k]));
                        }
                    }
                },
                None => {},
            }
        }
        TimeSeries::from_vecs_unchecked(crate::index::HashableIndex::new(keys), vals)
    }
}

/// The position of output `k` of a skip-apply that starts at `start`.
pub open spec fn skip_pos(start: int, span: int, k: int) -> int {
    start + k * span
}

/// Pairs the value at each position `span, 2 * span, ...` with the value `span`
/// positions earlier, and reduces the two with `transform_func`.
pub struct SkipApplyTimeSeriesIter<'a, T, F> {
    pub ts: &'a TimeSeries<T>,
    pub index: usize,
    pub span_size: usize,
    pub transform_func: F,
}

impl<'a, T: Copy, F> SkipApplyTimeSeriesIter<'a, T, F> {
    /// The cursor stands at least one span in.
    pub open spec fn well_formed(&self) -> bool {
        &&& self.ts.well_sized()
        &&& self.span_size >= 1
        &&& self.index >= self.span_size
    }

    /// Starts at position `span_size`.
    pub fn new(ts: &'a TimeSeries<T>, span_size: usize, transform_func: F) -> (r: SkipApplyTimeSeriesIter<'a, T, F>)
        requires
            ts.well_sized(),
            span_size >= 1,
        ensures
            r.ts == ts,
            r.index == span_size,
            r.span_size == span_size,
            r.transform_func == transform_func,
            r.well_formed(),
    {
        SkipApplyTimeSeriesIter { ts, index: span_size, span_size, transform_func }
    }

    /// The reduction of the value one span back and the value at the cursor; the cursor
    /// moves one span on.
    pub fn next<R>(&mut self) -> (r: Option<TimeSeriesDataPoint<i64, R>>)
        where F: Fn(&T, &T) -> R,
        requires
            old(self).well_formed(),
            forall|x: T, y: T| #[trigger] old(self).transform_func.requires((&x, &y)),
        ensures
            final(self).well_formed(),
            final(self).ts == old(self).ts,
            final(self).span_size == old(self).span_size,
            final(self).transform_func == old(self).transform_func,
            ({
                let p = old(self).index as int;
                let n = old(self).ts.keys().len() as int;
                let vs = old(self).ts.vals();
                if p < n {
                    &&& r matches Some(dp) && dp.timestamp == old(self).ts.keys()[p]
                        && old(self).transform_func.ensures((&vs[p - old(self).span_size], &vs[p]), dp.value)
                    &&& final(self).index == if p + old(self).span_size <= n { p + old(self).span_size } else { n }
                } else {
                    r.is_none() && final(self).index == p
                }
            }),
    {
        let n = self.ts.len();
        if self.index < n {
            let p = self.index;
            let newv = (self.transform_func)(&self.ts.values[p - self.span_size], &self.ts.values[p]);
            self.index = if self.span_size <= n - p { p + self.span_size } else { n };
            Some(TimeSeriesDataPoint::new(self.ts.timeindicies.values[p], newv))
        } else {
            None
        }
    }

    /// Builds a series, unchecked, from the points the traversal yields: one for each
    /// position `index + k * span_size` within the series.
    pub fn collect_from_unchecked_iter<R: Copy>(self) -> (r: TimeSeries<R>)
        where F: Fn(&T, &T) -> R,
        requires
            self.well_formed(),
            forall|x: T, y: T| #[trigger] self.transform_func.requires((&x, &y)),
        ensures
            ({
                let ks = self.ts.keys();
                let vs = self.ts.vals();
                let start = self.index as int;
                let span = self.span_size as int;
                &&& r.well_sized()
                &&& skip_pos(start, span, r.keys().len() as int) >= ks.len()
                &&& forall|k: int| 0 <= k < r.keys().len() ==> #[trigger] skip_pos(start, span, k) < ks.len()
                &&& forall|k: int| 0 <= k < r.keys().len() ==> #[trigger] r.keys()[k] == ks[skip_pos(start, span, k)]
                &&& forall|k: int| 0 <= k < r.keys().len() ==> self.transform_func.ensures(
                    (&vs[skip_pos(start, span, k) - span], &vs[skip_pos(start, span, k)]),
                    #[trigger] r.vals()[k],
                )
            }),
    {
        let ghost start = self.index as int;
        let ghost span = self.span_size as int;
        let ghost ks = self.ts.keys();
        let ghost vs = self.ts.vals();
        let mut it = self;
        let mut keys: Vec<i64> = Vec::new();
        let mut vals: Vec<R> = Vec::new();
        while it.index < it.ts.len()
            invariant
                it.well_formed(),
                it.ts == self.ts,
                it.span_size == self.span_size,
                it.transform_func == self.transform_func,
                forall|x: T, y: T| #[trigger] self.transform_func.requires((&x, &y)),
                ks == it.ts.keys(),
                vs == it.ts.vals(),
                start == self.index as int,
                span == self.span_size as int,
                keys@.len() == vals@.len(),
                it.index == skip_pos(start, span, keys@.len() as int) || (it.index == ks.len()
                    && skip_pos(start, span, keys@.len() as int) >= ks.len()),
                forall|k: int| 0 <= k < keys@.len() ==> #[trigger] skip_pos(start, span, k) < ks.len(),
                forall|k: int| 0 <= k < keys@.len() ==> #[trigger] keys@[k] == ks[skip_pos(start, span, k)],
                forall|k: int| 0 <= k < vals@.len() ==> self.transform_func.ensures(
                    (&vs[skip_pos(start, span, k) - span], &vs[skip_pos(start, span, k)]),
                    #[trigger] vals@[k],
                ),
            decreases ks.len() - it.index,
        {
            let ghost c = keys@.len() as int;
            let ghost p = it.index as int;
            assert(p == skip_pos(start, span, c));
            assert(skip_pos(start, span, c + 1) == skip_pos(start, span, c) + span) by (nonlinear_arith);
            match it.next() {
                Some(dp) => {
                    let ghost ok = keys@;
                    let ghost ov = vals@;
                    keys.push(dp.timestamp);
                    vals.push(dp.value);
                    assert forall|k: int| 0 <= k < keys@.len() implies #[trigger] keys@[k] == ks[skip_pos(start, span, k)] by {
                        if k < c {
                            assert(keys@[k] == ok[k]);
                        }
                    }
                    assert forall|k: int| 0 <= k < vals@.len() implies self.transform_func.ensures(
                        (&vs[skip_pos(start, span, k) - span], &vs[skip_pos(start, span, k)]),
                        #[trigger] vals@[k],
                    ) by {
                        if k < c {
                            assert(vals@[k] == ov[k]);
                        }
                    }
                },
                None => {},
            }
        }
        TimeSeries::from_vecs_unchecked(crate::index::HashableIndex::new(keys), vals)
    }
}

/// `c` folds `up` over the first `w` values, from no accumulator.
pub open spec fn is_seed<T, R, U: Fn(Option<R>, &T) -> Option<R>>(up: U, vs: Seq<T>, w: int, c: Seq<Option<R>>) -> bool {
    &&& c.len() == w + 1
    &&& c[0].is_none()
    &&& forall|i: int| 0 <= i < w ==> #[trigger] up.ensures((c[i], &vs[i]), c[i + 1])
}

/// `next` is `prev` after the value at `p` enters (through `up`) and the value at `p - w`
/// leaves (through `dec`).
pub open spec fn slid<T, R, U: Fn(Option<R>, &T) -> Option<R>, D: Fn(Option<R>, &T) -> Option<R>>(
    up: U,
    dec: D,
    vs: Seq<T>,
    w: int,
    p: int,
    prev: Option<R>,
    next: Option<R>,
) -> bool {
    exists|mid: Option<R>| up.ensures((prev, &vs[p]), mid) && #[trigger] dec.ensures((mid, &vs[p - w]), next)
}

/// `accs[k]` is the accumulator of the window that ends at position `w - 1 + k`: the
/// first is seeded by folding `up`, each further one slides from the one before.
pub open spec fn is_rolling_trace<T, R, U: Fn(Option<R>, &T) -> Option<R>, D: Fn(Option<R>, &T) -> Option<R>>(
    up: U,
    dec: D,
    vs: Seq<T>,
    w: int,
    accs: Seq<Option<R>>,
) -> bool {
    &&& accs.len() >= 1
    &&& exists|c: Seq<Option<R>>| #[trigger] is_seed(up, vs, w, c) && c[w] == accs[0]
    &&& forall|k: int| 1 <= k < accs.len() ==> #[trigger] slid(up, dec, vs, w, w - 1 + k, accs[k - 1], accs[k])
}

/// The points for the first `n` accumulators, leaving out those that are undefined.
pub open spec fn kept_some<R>(ks: Seq<i64>, accs: Seq<Option<R>>, w: int, n: int) -> Seq<TimeSeriesDataPoint<i64, R>>
    decreases n,
{
    if n <= 0 {
        seq![]
    } else {
        kept_some(ks, accs, w, n - 1) + match accs[n - 1] {
            Some(x) => seq![TimeSeriesDataPoint { timestamp: ks[w - 1 + (n - 1)], value: x }],
            None => seq![],
        }
    }
}

/// Slides a window along a series keeping only an accumulator: the value entering the
/// window is added with `update_func`, the value leaving it taken out with
/// `decrement_func`. Positions whose accumulator is undefined yield nothing.
pub struct RollingTimeSeriesIterWithUpdate<'a, T, R, U, D> {
    pub ts: &'a TimeSeries<T>,
    pub index: usize,
    pub window_size: usize,
    pub ref_value: Option<R>,
    pub update_func: U,
    pub decrement_func: D,
    /// The accumulators so far, from the window that ends at `window_size - 1`.
    pub accs: Ghost<Seq<Option<R>>>,
}

impl<'a, T: Copy, R: Copy, U: Fn(Option<R>, &T) -> Option<R>, D: Fn(Option<R>, &T) -> Option<R>> RollingTimeSeriesIterWithUpdate<'a, T, R, U, D> {
    /// How many positions have been passed, from `window_size - 1` on.
    pub open spec fn passed(&self) -> int {
        self.index - (self.window_size - 1)
    }

    /// The accumulator holds the last entry of a rolling trace that reaches the cursor.
    pub open spec fn well_formed(&self) -> bool {
        &&& self.ts.well_sized()
        &&& self.window_size >= 1
        &&& self.index + 1 >= self.window_size
        &&& self.window_size <= self.ts.keys().len() ==> {
            &&& self.index <= self.ts.keys().len()
            &&& self.accs@.len() == if self.passed() >= 1 { self.passed() } else { 1 }
            &&& is_rolling_trace(self.update_func, self.decrement_func, self.ts.vals(), self.window_size as int, self.accs@)
            &&& self.ref_value == self.accs@.last()
        }
    }

    /// Seeds the accumulator by folding `update_func` over the first window.
    pub fn new(ts: &'a TimeSeries<T>, window_size: usize, update_func: U, decrement_func: D) -> (r: Self)
        requires
            ts.well_sized(),
            window_size >= 1,
            forall|a: Option<R>, v: T| #[trigger] update_func.requires((a, &v)),
        ensures
            r.ts == ts,
            r.index + 1 == window_size,
            r.window_size == window_size,
            r.update_func == update_func,
            r.decrement_func == decrement_func,
            r.well_formed(),
    {
        let n = ts.len();
        let mut acc: Option<R> = None;
        let ghost mut c: Seq<Option<R>> = seq![None];
        if window_size <= n {
            let mut k: usize = 0;
            while k < window_size
                invariant
                    ts.well_sized(),
                    n == ts.keys().len(),
                    window_size <= n,
                    0 <= k <= window_size,
                    forall|a: Option<R>, v: T| #[trigger] update_func.requires((a, &v)),
                    c.len() == k + 1,
                    c[0].is_none(),
                    forall|i: int| 0 <= i < k ==> #[trigger] update_func.ensures((c[i], &ts.vals()[i]), c[i + 1]),
                    acc == c[k as int],
                decreases window_size - k,
            {
                let ghost prev = c;
                acc = update_func(acc, &ts.values[k]);
                proof {
                    c = c.push(acc);
                    assert forall|i: int| 0 <= i < k + 1 implies #[trigger] update_func.ensures((c[i], &ts.vals()[i]), c[i + 1]) by {
                        if i < k {
                            assert(c[i] == prev[i] && c[i + 1] == prev[i + 1]);
                        }
                    }
                }
                k = k + 1;
            }
            assert(is_seed(update_func, ts.vals(), window_size as int, c));
        }
        let accs: Ghost<Seq<Option<R>>> = Ghost(Seq::empty().push(acc));
        RollingTimeSeriesIterWithUpdate {
            ts,
            index: window_size - 1,
            window_size,
            ref_value: acc,
            update_func,
            decrement_func,
            accs,
        }
    }

    /// The next defined accumulator, under the key of the position its window ends at;
    /// the window slides on as far as that.
    pub fn next(&mut self) -> (r: Option<TimeSeriesDataPoint<i64, R>>)
        requires
            old(self).well_formed(),
            forall|a: Option<R>, v: T| #[trigger] old(self).update_func.requires((a, &v)),
            forall|a: Option<R>, v: T| #[trigger] old(self).decrement_func.requires((a, &v)),
        ensures
            final(self).well_formed(),
            final(self).ts == old(self).ts,
            final(self).window_size == old(self).window_size,
            final(self).update_func == old(self).update_func,
            final(self).decrement_func == old(self).decrement_func,
            final(self).index >= old(self).index,
            old(self).window_size <= old(self).ts.keys().len() ==> {
                &&& old(self).accs@.len() <= final(self).accs@.len()
                &&& final(self).accs@.subrange(0, old(self).accs@.len() as int) == old(self).accs@
                &&& kept_some(final(self).ts.keys(), final(self).accs@, final(self).window_size as int, final(self).passed())
                    == kept_some(old(self).ts.keys(), old(self).accs@, old(self).window_size as int, old(self).passed())
                    + match r { Some(dp) => seq![dp], None => seq![] }
            },
            r.is_none() ==> final(self).index >= final(self).ts.keys().len(),
            r.is_some() ==> final(self).index > old(self).index,
            old(self).window_size > old(self).ts.keys().len() ==> r.is_none(),
    {
        let n = self.ts.len();
        let w = self.window_size;
        let ghost ks = self.ts.keys();
        let ghost vs = self.ts.vals();
        let ghost start_accs = self.accs@;
        let ghost start_passed = self.passed();
        while self.index < n
            invariant
                self.well_formed(),
                self.ts == old(self).ts,
                self.window_size == old(self).window_size,
                self.update_func == old(self).update_func,
                self.decrement_func == old(self).decrement_func,
                forall|a: Option<R>, v: T| #[trigger] self.update_func.requires((a, &v)),
                forall|a: Option<R>, v: T| #[trigger] self.decrement_func.requires((a, &v)),
                n == ks.len(),
                w == self.window_size,
                ks == self.ts.keys(),
                vs == self.ts.vals(),
                start_accs == old(self).accs@,
                start_passed == old(self).passed(),
                self.index >= old(self).index,
                w <= n ==> start_accs.len() <= self.accs@.len(),
                w <= n ==> self.accs@.subrange(0, start_accs.len() as int) == start_accs,
                w <= n ==> kept_some(ks, self.accs@, w as int, self.passed()) == kept_some(ks, start_accs, w as int, start_passed),
            decreases n - self.index,
        {
            let p = self.index;
            let ghost before = self.accs@;
            if p >= w {
                let mid = (self.update_func)(self.ref_value, &self.ts.values[p]);
                let next_acc = (self.decrement_func)(mid, &self.ts.values[p - w]);
                self.ref_value = next_acc;
                proof {
                    self.accs@ = self.accs@.push(next_acc);
                    let a = self.accs@;
                    assert(slid(self.update_func, self.decrement_func, vs, w as int, p as int, a[a.len() - 2], a[a.len() - 1]));
                    assert forall|k: int| 1 <= k < a.len() implies #[trigger] slid(self.update_func, self.decrement_func, vs, w as int, w - 1 + k, a[k - 1], a[k]) by {
                        if k < a.len() - 1 {
                            assert(a[k] == before[k] && a[k - 1] == before[k - 1]);
                        }
                    }
                    let c = choose|c: Seq<Option<R>>| #[trigger] is_seed(self.update_func, vs, w as int, c) && c[w as int] == before[0];
                    assert(is_seed(self.update_func, vs, w as int, c) && c[w as int] == a[0]);
                    assert(a.subrange(0, start_accs.len() as int) =~= before.subrange(0, start_accs.len() as int));
                }
            }
            self.index = p + 1;
            proof {
                let a = self.accs@;
                let m = self.passed();
                assert(m >= 1);
                assert(a.len() == m);
                assert(kept_some(ks, a, w as int, m - 1) == kept_some(ks, before, w as int, m - 1)) by {
                    lemma_kept_some_prefix(ks, a, before, w as int, m - 1);
                }
            }
            match self.ref_value {
                Some(x) => {
                    return Some(TimeSeriesDataPoint::new(self.ts.timeindicies.values[p], x));
                },
                None => {},
            }
        }
        None
    }

    /// Builds a series, unchecked, from the points the traversal yields from its present
    /// state: the kept points of a rolling trace that extends the accumulators so far to
    /// the end of the series, after those already passed.
    pub fn collect_from_unchecked_iter(self) -> (r: TimeSeries<R>)
        requires
            self.well_formed(),
            forall|a: Option<R>, v: T| #[trigger] self.update_func.requires((a, &v)),
            forall|a: Option<R>, v: T| #[trigger] self.decrement_func.requires((a, &v)),
        ensures
            self.window_size > self.ts.keys().len() ==> r.keys().len() == 0 && r.well_sized(),
            self.window_size <= self.ts.keys().len() ==> exists|accs: Seq<Option<R>>| {
                let w = self.window_size as int;
                let before = kept_some(self.ts.keys(), self.accs@, w, self.passed());
                let all = kept_some(self.ts.keys(), accs, w, accs.len() as int);
                &&& #[trigger] is_rolling_trace(self.update_func, self.decrement_func, self.ts.vals(), self.window_size as int, accs)
                &&& accs.len() == self.ts.keys().len() - self.window_size + 1
                &&& accs.subrange(0, self.accs@.len() as int) == self.accs@
                &&& all.subrange(0, before.len() as int) == before
                &&& r.holds(all.subrange(before.len() as int, all.len() as int))
            },
    {
        let ghost ks = self.ts.keys();
        let ghost w = self.window_size as int;
        let ghost n = ks.len() as int;
        let ghost start = self.accs@;
        let ghost before = kept_some(ks, self.accs@, w, self.passed());
        let mut it = self;
        let mut out: Vec<TimeSeriesDataPoint<i64, R>> = Vec::new();
        loop
            invariant
                it.well_formed(),
                it.ts == self.ts,
                it.window_size == self.window_size,
                it.update_func == self.update_func,
                it.decrement_func == self.decrement_func,
                forall|a: Option<R>, v: T| #[trigger] self.update_func.requires((a, &v)),
                forall|a: Option<R>, v: T| #[trigger] self.decrement_func.requires((a, &v)),
                ks == it.ts.keys(),
                n == ks.len(),
                w == it.window_size,
                start == self.accs@,
                before == kept_some(ks, start, w, self.passed()),
                w > n ==> out@.len() == 0,
                w <= n ==> start.len() <= it.accs@.len(),
                w <= n ==> it.accs@.subrange(0, start.len() as int) == start,
                w <= n ==> kept_some(ks, it.accs@, w, it.passed()) == before + out@,
            ensures
                w > n ==> out@.len() == 0,
                w <= n ==> kept_some(ks, it.accs@, w, it.passed()) == before + out@ && it.index >= n,
                w <= n ==> start.len() <= it.accs@.len() && it.accs@.subrange(0, start.len() as int) == start,
            decreases n - it.index,
        {
            let ghost prev_accs = it.accs@;
            let ghost prev_out = out@;
            match it.next() {
                Some(dp) => {
                    out.push(dp);
                    proof {
                        if w <= n {
                            assert(it.accs@.subrange(0, start.len() as int) =~= it.accs@.subrange(
                                0,
                                prev_accs.len() as int,
                            ).subrange(0, start.len() as int));
                            assert(before + out@ =~= (before + prev_out) + seq![dp]);
                        }
                    }
                },
                None => {
                    proof {
                        if w <= n {
                            assert(it.accs@.subrange(0, start.len() as int) =~= it.accs@.subrange(
                                0,
                                prev_accs.len() as int,
                            ).subrange(0, start.len() as int));
                            assert(prev_out + seq![] =~= prev_out);
                        }
                    }
                    break;
                },
            }
        }
        proof {
            if w <= n {
                let all = kept_some(ks, it.accs@, w, it.passed());
                assert(it.passed() == n - w + 1);
                assert(it.accs@.len() == n - w + 1);
                assert(all.subrange(0, before.len() as int) =~= before);
                assert(all.subrange(before.len() as int, all.len() as int) =~= out@);
            }
        }
        TimeSeries::from_tsdatapoints_unchecked(out)
    }
}

/// The kept points of the first `m` accumulators depend on those accumulators alone.
proof fn lemma_kept_some_prefix<R>(ks: Seq<i64>, a: Seq<Option<R>>, b: Seq<Option<R>>, w: int, m: int)
    requires
        0 <= m <= a.len(),
        m <= b.len(),
        forall|k: int| 0 <= k < m ==> a[k] == b[k],
    ensures
        kept_some(ks, a, w, m) == kept_some(ks, b, w, m),
    decreases m,
{
    if m > 0 {
        lemma_kept_some_prefix(ks, a, b, w, m - 1);
    }
}

/// The sum of a sequence of values.
pub open spec fn seq_sum(s: Seq<i64>) -> int
    decreases s.len(),
{
    if s.len() == 0 {
        0
    } else {
        seq_sum(s.drop_last()) + s.last()
    }
}

proof fn lemma_sum_push(s: Seq<i64>, lo: int, hi: int)
    requires
        0 <= lo <= hi < s.len(),
    ensures
        seq_sum(s.subrange(lo, hi + 1)) == seq_sum(s.subrange(lo, hi)) + s[hi],
{
    assert(s.subrange(lo, hi + 1).drop_last() =~= s.subrange(lo, hi));
}

proof fn lemma_sum_pop_front(s: Seq<i64>, lo: int, hi: int)
    requires
        0 <= lo < hi <= s.len(),
    ensures
        seq_sum(s.subrange(lo, hi)) == s[lo] + seq_sum(s.subrange(lo + 1, hi)),
    decreases hi - lo,
{
    if hi == lo + 1 {
        assert(s.subrange(lo + 1, hi) =~= Seq::<i64>::empty());
        assert(s.subrange(lo, hi).drop_last() =~= Seq::<i64>::empty());
    } else {
        lemma_sum_pop_front(s, lo, hi - 1);
        lemma_sum_push(s, lo, hi - 1);
        lemma_sum_push(s, lo + 1, hi - 1);
    }
}

/// The accumulator as a number, none counting as zero.
pub open spec fn acc_value(a: Option<i128>) -> int {
    match a {
        Some(v) => v as int,
        None => 0,
    }
}

/// `up` adds the entering value to the accumulator, none counting as zero.
pub open spec fn adds<U: Fn(Option<i128>, &i64) -> Option<i128>>(up: U) -> bool {
    forall|a: Option<i128>, x: i64, r: Option<i128>| #[trigger] up.ensures((a, &x), r) ==> r.is_some()
        && r.unwrap() == acc_value(a) + x
}

/// `dec` takes the leaving value out of the accumulator, none counting as zero.
pub open spec fn subtracts<D: Fn(Option<i128>, &i64) -> Option<i128>>(dec: D) -> bool {
    forall|a: Option<i128>, x: i64, r: Option<i128>| #[trigger] dec.ensures((a, &x), r) ==> r.is_some()
        && r.unwrap() == acc_value(a) - x
}

/// `g` sums the values of the window it is given.
pub open spec fn sums<G: Fn(&Vec<i64>) -> i128>(g: G) -> bool {
    forall|b: Vec<i64>, v: i128| #[trigger] g.ensures((&b,), v) ==> v == seq_sum(b@)
}

proof fn lemma_seed_sums<U: Fn(Option<i128>, &i64) -> Option<i128>>(up: U, vs: Seq<i64>, w: int, c: Seq<Option<i128>>, i: int)
    requires
        adds(up),
        is_seed(up, vs, w, c),
        0 <= i <= w <= vs.len(),
    ensures
        acc_value(c[i]) == seq_sum(vs.subrange(0, i)),
        i >= 1 ==> c[i].is_some(),
    decreases i,
{
    if i == 0 {
        assert(vs.subrange(0, 0) =~= Seq::<i64>::empty());
    } else {
        lemma_seed_sums(up, vs, w, c, i - 1);
        assert(up.ensures((c[i - 1], &vs[i - 1]), c[(i - 1) + 1]));
        lemma_sum_push(vs, 0, i - 1);
    }
}

proof fn lemma_trace_sums<U: Fn(Option<i128>, &i64) -> Option<i128>, D: Fn(Option<i128>, &i64) -> Option<i128>>(
    up: U,
    dec: D,
    vs: Seq<i64>,
    w: int,
    accs: Seq<Option<i128>>,
    k: int,
)
    requires
        adds(up),
        subtracts(dec),
        is_rolling_trace(up, dec, vs, w, accs),
        1 <= w,
        w - 1 + accs.len() <= vs.len(),
        0 <= k < accs.len(),
    ensures
        accs[k].is_some(),
        acc_value(accs[k]) == seq_sum(window_at(vs, w, w - 1 + k)),
    decreases k,
{
    if k == 0 {
        let c = choose|c: Seq<Option<i128>>| #[trigger] is_seed(up, vs, w, c) && c[w] == accs[0];
        lemma_seed_sums(up, vs, w, c, w);
        assert(window_at(vs, w, w - 1) =~= vs.subrange(0, w));
    } else {
        lemma_trace_sums(up, dec, vs, w, accs, k - 1);
        let p = w - 1 + k;
        assert(slid(up, dec, vs, w, p, accs[k - 1], accs[k]));
        let mid = choose|mid: Option<i128>| up.ensures((accs[k - 1], &vs[p]), mid) && #[trigger] dec.ensures((mid, &vs[p - w]), accs[k]);
        lemma_sum_push(vs, p - w, p);
        lemma_sum_pop_front(vs, p - w, p + 1);
    }
}

/// The points for accumulators that are all defined: one per accumulator.
proof fn lemma_kept_all<R>(ks: Seq<i64>, accs: Seq<Option<R>>, w: int, n: int)
    requires
        0 <= n <= accs.len(),
        forall|k: int| 0 <= k < n ==> (#[trigger] accs[k]).is_some(),
    ensures
        kept_some(ks, accs, w, n).len() == n,
        forall|k: int| 0 <= k < n ==> #[trigger] kept_some(ks, accs, w, n)[k] == (TimeSeriesDataPoint {
            timestamp: ks[w - 1 + k],
            value: accs[k].unwrap(),
        }),
    decreases n,
{
    if n > 0 {
        lemma_kept_all(ks, accs, w, n - 1);
        assert(accs[n - 1].is_some());
        let prev = kept_some(ks, accs, w, n - 1);
        assert forall|k: int| 0 <= k < n implies #[trigger] kept_some(ks, accs, w, n)[k] == (TimeSeriesDataPoint {
            timestamp: ks[w - 1 + k],
            value: accs[k].unwrap(),
        }) by {
            if k < n - 1 {
                assert(kept_some(ks, accs, w, n)[k] == prev[k]);
            }
        }
    }
}

/// With exact sums, sliding an accumulator (adding the entering value, taking out the
/// leaving one) gives the same series as summing each full window afresh: `r1` and `r2`
/// are what the two collectors give for the same window over the same series.
pub proof fn lemma_updating_rolling_sum_matches_rescan<U: Fn(Option<i128>, &i64) -> Option<i128>, D: Fn(Option<i128>, &i64) -> Option<i128>, G: Fn(&Vec<i64>) -> i128>(
    ts: TimeSeries<i64>,
    w: int,
    up: U,
    dec: D,
    g: G,
    accs: Seq<Option<i128>>,
    r1: TimeSeries<i128>,
    r2: TimeSeries<i128>,
)
    requires
        ts.well_sized(),
        1 <= w <= ts.keys().len(),
        adds(up),
        subtracts(dec),
        sums(g),
        is_rolling_trace(up, dec, ts.vals(), w, accs),
        accs.len() == ts.keys().len() - w + 1,
        r1.holds(kept_some(ts.keys(), accs, w, accs.len() as int)),
        r2.well_sized(),
        r2.keys() == ts.keys().subrange(w - 1, ts.keys().len() as int),
        forall|k: int| 0 <= k < r2.keys().len() ==> rolled_from(g, window_at(ts.vals(), w, w - 1 + k), #[trigger] r2.vals()[k]),
    ensures
        r1.keys() == r2.keys(),
        r1.vals() == r2.vals(),
        forall|k: int| 0 <= k < r1.vals().len() ==> #[trigger] r1.vals()[k] == seq_sum(window_at(ts.vals(), w, w - 1 + k)),
{
    let ks = ts.keys();
    let vs = ts.vals();
    assert forall|k: int| 0 <= k < accs.len() implies (#[trigger] accs[k]).is_some() && acc_value(accs[k]) == seq_sum(window_at(vs, w, w - 1 + k)) by {
        lemma_trace_sums(up, dec, vs, w, accs, k);
    }
    lemma_kept_all(ks, accs, w, accs.len() as int);
    let kept = kept_some(ks, accs, w, accs.len() as int);
    assert forall|k: int| 0 <= k < r1.vals().len() implies #[trigger] r1.vals()[k] == seq_sum(window_at(vs, w, w - 1 + k)) by {
        assert(point_at(r1.keys(), r1.vals(), k) == kept[k]);
        assert(accs[k].is_some() && acc_value(accs[k]) == seq_sum(window_at(vs, w, w - 1 + k)));
    }
    assert forall|k: int| 0 <= k < r2.vals().len() implies #[trigger] r2.vals()[k] == seq_sum(window_at(vs, w, w - 1 + k)) by {
        assert(rolled_from(g, window_at(vs, w, w - 1 + k), r2.vals()[k]));
        let b = choose|b: Vec<i64>| b@ == window_at(vs, w, w - 1 + k) && #[trigger] g.ensures((&b,), r2.vals()[k]);
    }
    assert forall|k: int| 0 <= k < r1.keys().len() implies #[trigger] r1.keys()[k] == r2.keys()[k] by {
        assert(point_at(r1.keys(), r1.vals(), k) == kept[k]);
    }
    assert(r1.keys() =~= r2.keys());
    assert(r1.vals() =~= r2.vals());
}

} // verus!
