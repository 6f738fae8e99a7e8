//! The ordered key sequence of a time series.
use std::collections::HashSet;
use vstd::prelude::*;

verus! {

broadcast use vstd::std_specs::hash::group_hash_axioms;

/// Keys strictly increase along the sequence.
pub open spec fn strictly_increasing(s: Seq<i64>) -> bool {
    forall|i: int, j: int| 0 <= i < j < s.len() ==> s[i] < s[j]
}

/// No key occurs twice.
pub open spec fn all_distinct(s: Seq<i64>) -> bool {
    forall|i: int, j: int| 0 <= i < s.len() && 0 <= j < s.len() && i != j ==> s[i] != s[j]
}

/// A strictly increasing sequence holds no key twice.
pub proof fn lemma_increasing_distinct(s: Seq<i64>)
    requires
        strictly_increasing(s),
    ensures
        all_distinct(s),
{
    assert forall|i: int, j: int| 0 <= i < s.len() && 0 <= j < s.len() && i != j implies s[i]
        != s[j] by {
        if i < j {
            assert(s[i] < s[j]);
        } else {
            assert(s[j] < s[i]);
        }
    }
}

/// The keys of a series, in storage order.
#[derive(Clone, Debug, PartialEq)]
pub struct HashableIndex {
    pub values: Vec<i64>,
}

impl View for HashableIndex {
    type V = Seq<i64>;

    open spec fn view(&self) -> Seq<i64> {
        self.values@
    }
}

impl HashableIndex {
    /// Wraps a vector of keys, unchecked.
    pub fn new(values: Vec<i64>) -> (r: HashableIndex)
        ensures
            r@ == values@,
    {
        HashableIndex { values }
    }

    /// An index of stamps given in seconds after the epoch, kept in milliseconds.
    pub fn from_int_stamps(stamps: Vec<i64>) -> (r: HashableIndex)
        requires
            forall|i: int| 0 <= i < stamps@.len() ==> i64::MIN <= #[trigger] stamps@[i] * 1000 <= i64::MAX,
        ensures
            r@.len() == stamps@.len(),
            forall|i: int| 0 <= i < stamps@.len() ==> #[trigger] r@[i] == stamps@[i] * 1000,
    {
        let n = stamps.len();
        let mut values: Vec<i64> = Vec::with_capacity(n);
        let mut k: usize = 0;
        while k < n
            invariant
                n == stamps@.len(),
                0 <= k <= n,
                forall|i: int| 0 <= i < stamps@.len() ==> i64::MIN <= #[trigger] stamps@[i] * 1000 <= i64::MAX,
                values@.len() == k,
                forall|i: int| 0 <= i < k ==> #[trigger] values@[i] == stamps@[i] * 1000,
            decreases n - k,
        {
            let s = stamps[k];
            values.push(s * 1000);
            k = k + 1;
        }
        HashableIndex { values }
    }

    /// Whether each key is strictly greater than the one before it.
    pub fn is_monotonic(&self) -> (r: bool)
        ensures
            r == strictly_increasing(self@),
    {
        let n = self.values.len();
        if n == 0 {
            return true;
        }
        let mut k: usize = 0;
        while k + 1 < n
            invariant
                n == self@.len(),
                0 <= k < n,
                forall|a: int, b: int| 0 <= a < b <= k ==> self@[a] < self@[b],
            decreases n - k,
        {
            if self.values[k] >= self.values[k + 1] {
                return false;
            }
            assert forall|a: int, b: int| 0 <= a < b <= k + 1 implies self@[a] < self@[b] by {
                if b == k + 1 && a < k {
                    assert(self@[a] < self@[k as int]);
                }
            }
            k = k + 1;
        }
        true
    }

    /// A copy of the keys.
    pub fn copy(&self) -> (r: HashableIndex)
        ensures
            r@ == self@,
    {
        let n = self.values.len();
        let mut values: Vec<i64> = Vec::with_capacity(n);
        let mut k: usize = 0;
        while k < n
            invariant
                n == self@.len(),
                0 <= k <= n,
                values@ == self@.subrange(0, k as int),
            decreases n - k,
        {
            values.push(self.values[k]);
            k = k + 1;
            assert(values@ =~= self@.subrange(0, k as int));
        }
        assert(values@ =~= self@);
        HashableIndex { values }
    }

    /// Number of keys.
    pub fn len(&self) -> (r: usize)
        ensures
            r == self@.len(),
    {
        self.values.len()
    }

    /// Whether there are no keys.
    pub fn is_empty(&self) -> (r: bool)
        ensures
            r == (self@.len() == 0),
    {
        self.values.len() == 0
    }

    /// The last key, if any.
    pub fn last(&self) -> (r: Option<&i64>)
        ensures
            self@.len() == 0 ==> r.is_none(),
            self@.len() > 0 ==> r == Some(&self@.last()),
    {
        if self.values.len() == 0 {
            None
        } else {
            Some(&self.values[self.values.len() - 1])
        }
    }

    /// Whether no key occurs twice; keeps the keys seen so far in a hash set.
    pub fn is_unique(&self) -> (r: bool)
        ensures
            r == all_distinct(self@),
    {
        let n = self.values.len();
        let mut seen: HashSet<i64> = HashSet::new();
        let mut k: usize = 0;
        while k < n
            invariant
                n == self@.len(),
                0 <= k <= n,
                forall|x: i64| seen@.contains(x) <==> exists|a: int| 0 <= a < k && self@[a] == x,
                forall|a: int, b: int| 0 <= a < k && 0 <= b < k && a != b ==> self@[a] != self@[b],
            decreases n - k,
        {
            let x = self.values[k];
            if seen.contains(&x) {
                let ghost a = choose|a: int| 0 <= a < k && self@[a] == x;
                assert(self@[a] == self@[k as int]);
                return false;
            }
            seen.insert(x);
            k = k + 1;
        }
        true
    }
}

/// The differences between neighbouring keys.
pub open spec fn intervals_of(s: Seq<i64>) -> Seq<i128> {
    Seq::new(if s.len() >= 1 { (s.len() - 1) as nat } else { 0 }, |i: int| (s[i + 1] - s[i]) as i128)
}

/// How often `x` occurs in `d`.
pub open spec fn count_of(d: Seq<i128>, x: i128) -> nat
    decreases d.len(),
{
    if d.len() == 0 {
        0
    } else {
        count_of(d.drop_last(), x) + if d.last() == x {
            1nat
        } else {
            0nat
        }
    }
}

proof fn lemma_count_bound(d: Seq<i128>, x: i128)
    ensures
        count_of(d, x) <= d.len(),
        !d.contains(x) ==> count_of(d, x) == 0,
    decreases d.len(),
{
    if d.len() > 0 {
        lemma_count_bound(d.drop_last(), x);
        if !d.contains(x) {
            assert forall|i: int| 0 <= i < d.drop_last().len() implies d.drop_last()[i] != x by {
                assert(d.drop_last()[i] == d[i]);
            }
            assert(d.last() == d[d.len() - 1]);
        }
    }
}

/// Entry `a` ranks before entry `b`: more frequent, or as frequent and a longer interval.
pub open spec fn ranks_before(a: (usize, i128), b: (usize, i128)) -> bool {
    a.0 > b.0 || (a.0 == b.0 && a.1 > b.1)
}

/// `t` lists each interval of `d` once with how often it occurs, ranked by frequency,
/// ties by interval, both descending.
pub open spec fn is_rate_table(d: Seq<i128>, t: Seq<(usize, i128)>) -> bool {
    &&& forall|k: int| 0 <= k < t.len() ==> d.contains(#[trigger] t[k].1) && t[k].0 == count_of(d, t[k].1)
    &&& forall|x: i128| d.contains(x) ==> exists|k: int| 0 <= k < t.len() && #[trigger] t[k].1 == x
    &&& forall|a: int, b: int| 0 <= a < b < t.len() ==> ranks_before(#[trigger] t[a], #[trigger] t[b])
}

/// Sample-rate inference over the keys of an index.
pub trait SampleableIndex {
    /// The differences between neighbouring keys.
    spec fn intervals(&self) -> Seq<i128>;

    /// Each interval between neighbouring keys with how often it occurs, most frequent
    /// first, ties broken by the longer interval first.
    fn sample_rates(&self) -> (r: Vec<(usize, i128)>)
        ensures
            is_rate_table(self.intervals(), r@);

    /// Whether exactly one interval occurs between neighbouring keys.
    fn is_mono_intervaled(&self) -> (r: bool)
        ensures
            r <==> (self.intervals().len() > 0 && forall|i: int| 0 <= i < self.intervals().len() ==> #[trigger] self.intervals()[i] == self.intervals()[0]);
}

/// Counts each interval of `d`, in order of first occurrence.
fn count_intervals(d: &Vec<i128>) -> (t: Vec<(usize, i128)>)
    ensures
        forall|k: int| 0 <= k < t@.len() ==> d@.contains(#[trigger] t@[k].1) && t@[k].0 == count_of(d@, t@[k].1),
        forall|x: i128| d@.contains(x) ==> exists|k: int| 0 <= k < t@.len() && #[trigger] t@[k].1 == x,
        forall|a: int, b: int| 0 <= a < t@.len() && 0 <= b < t@.len() && a != b ==> #[trigger] t@[a].1 != #[trigger] t@[b].1,
{
    let n = d.len();
    let mut t: Vec<(usize, i128)> = Vec::new();
    let mut i: usize = 0;
    while i < n
        invariant
            n == d@.len(),
            0 <= i <= n,
            forall|k: int| 0 <= k < t@.len() ==> d@.subrange(0, i as int).contains(#[trigger] t@[k].1) && t@[k].0 == count_of(d@.subrange(0, i as int), t@[k].1),
            forall|x: i128| d@.subrange(0, i as int).contains(x) ==> exists|k: int| 0 <= k < t@.len() && #[trigger] t@[k].1 == x,
            forall|a: int, b: int| 0 <= a < t@.len() && 0 <= b < t@.len() && a != b ==> #[trigger] t@[a].1 != #[trigger] t@[b].1,
        decreases n - i,
    {
        let x = d[i];
        let ghost pre = d@.subrange(0, i as int);
        let ghost post = d@.subrange(0, i + 1);
        assert(post.drop_last() =~= pre);
        assert(post.last() == x);
        let mut pos: usize = 0;
        while pos < t.len() && t[pos].1 != x
            invariant
                0 <= pos <= t@.len(),
                forall|k: int| 0 <= k < pos ==> t@[k].1 != x,
            decreases t@.len() - pos,
        {
            pos = pos + 1;
        }
        let ghost old_t = t@;
        proof {
            lemma_count_bound(pre, x);
        }
        if pos < t.len() {
            let c = t[pos].0;
            t.set(pos, (c + 1, x));
        } else {
            t.push((1, x));
        }
        proof {
            assert forall|k: int| 0 <= k < t@.len() implies post.contains(#[trigger] t@[k].1) && t@[k].0 == count_of(post, t@[k].1) by {
                if k < old_t.len() && k != pos {
                    assert(t@[k] == old_t[k]);
                    let j = choose|j: int| 0 <= j < pre.len() && pre[j] == t@[k].1;
                    assert(post[j] == pre[j]);
                } else {
                    assert(post[i as int] == x);
                    if k >= old_t.len() {
                        assert(forall|kk: int| 0 <= kk < old_t.len() ==> old_t[kk].1 != x);
                        if pre.contains(x) {
                            let j = choose|j: int| 0 <= j < pre.len() && pre[j] == x;
                            assert(pre.contains(pre[j]));
                            let kk = choose|kk: int| 0 <= kk < old_t.len() && #[trigger] old_t[kk].1 == pre[j];
                            assert(old_t[kk].1 != x);
                        }
                    }
                }
            }
            assert forall|y: i128| post.contains(y) implies exists|k: int| 0 <= k < t@.len() && #[trigger] t@[k].1 == y by {
                let j = choose|j: int| 0 <= j < post.len() && post[j] == y;
                if j < i {
                    assert(pre[j] == y);
                    assert(pre.contains(y));
                    let k = choose|k: int| 0 <= k < old_t.len() && #[trigger] old_t[k].1 == y;
                    assert(t@[k].1 == y);
                } else {
                    assert(t@[pos as int].1 == y);
                }
            }
        }
        i = i + 1;
    }
    assert(d@.subrange(0, n as int) =~= d@);
    t
}

/// `x` is one of the first `i` entries of `t`.
pub open spec fn in_prefix(t: Seq<(usize, i128)>, i: int, x: (usize, i128)) -> bool {
    exists|j: int| 0 <= j < i && #[trigger] t[j] == x
}

/// Orders rate entries with pairwise different intervals, highest rank first.
fn rank_rates(t: &Vec<(usize, i128)>) -> (r: Vec<(usize, i128)>)
    requires
        forall|a: int, b: int| 0 <= a < t@.len() && 0 <= b < t@.len() && a != b ==> #[trigger] t@[a].1 != #[trigger] t@[b].1,
    ensures
        forall|k: int| 0 <= k < r@.len() ==> t@.contains(#[trigger] r@[k]),
        forall|j: int| 0 <= j < t@.len() ==> r@.contains(#[trigger] t@[j]),
        forall|a: int, b: int| 0 <= a < b < r@.len() ==> ranks_before(#[trigger] r@[a], #[trigger] r@[b]),
{
    let n = t.len();
    let mut out: Vec<(usize, i128)> = Vec::new();
    let mut i: usize = 0;
    while i < n
        invariant
            n == t@.len(),
            0 <= i <= n,
            forall|a: int, b: int| 0 <= a < t@.len() && 0 <= b < t@.len() && a != b ==> #[trigger] t@[a].1 != #[trigger] t@[b].1,
            forall|k: int| 0 <= k < out@.len() ==> in_prefix(t@, i as int, #[trigger] out@[k]),
            forall|j: int| 0 <= j < i ==> out@.contains(#[trigger] t@[j]),
            forall|a: int, b: int| 0 <= a < b < out@.len() ==> ranks_before(#[trigger] out@[a], #[trigger] out@[b]),
        decreases n - i,
    {
        let x = t[i];
        let mut pos: usize = 0;
        while pos < out.len() && (out[pos].0 > x.0 || (out[pos].0 == x.0 && out[pos].1 > x.1))
            invariant
                0 <= pos <= out@.len(),
                forall|k: int| 0 <= k < pos ==> ranks_before(out@[k], x),
            decreases out@.len() - pos,
        {
            pos = pos + 1;
        }
        let ghost old_out = out@;
        proof {
            assert forall|k: int| pos <= k < old_out.len() implies ranks_before(x, old_out[k]) by {
                assert(in_prefix(t@, i as int, old_out[k]));
                let j = choose|j: int| 0 <= j < i && #[trigger] t@[j] == old_out[k];
                assert(t@[j].1 != t@[i as int].1);
                if k > pos {
                    assert(ranks_before(old_out[pos as int], old_out[k]));
                }
            }
        }
        out.insert(pos, x);
        proof {
            assert forall|k: int| 0 <= k < out@.len() implies in_prefix(t@, i + 1, #[trigger] out@[k]) by {
                if k < pos {
                    assert(out@[k] == old_out[k]);
                    assert(in_prefix(t@, i as int, old_out[k]));
                    let j = choose|j: int| 0 <= j < i && #[trigger] t@[j] == old_out[k];
                } else if k > pos {
                    assert(out@[k] == old_out[k - 1]);
                    assert(in_prefix(t@, i as int, old_out[k - 1]));
                    let j = choose|j: int| 0 <= j < i && #[trigger] t@[j] == old_out[k - 1];
                } else {
                    assert(t@[i as int] == out@[k]);
                }
            }
            assert forall|j: int| 0 <= j < i + 1 implies out@.contains(#[trigger] t@[j]) by {
                if j < i {
                    assert(old_out.contains(t@[j]));
                    let k = choose|k: int| 0 <= k < old_out.len() && old_out[k] == t@[j];
                    if k < pos {
                        assert(out@[k] == old_out[k]);
                    } else {
                        assert(out@[k + 1] == old_out[k]);
                    }
                } else {
                    assert(out@[pos as int] == t@[j]);
                }
            }
            assert forall|a: int, b: int| 0 <= a < b < out@.len() implies ranks_before(#[trigger] out@[a], #[trigger] out@[b]) by {
                if b < pos {
                    assert(ranks_before(old_out[a], old_out[b]));
                } else if b == pos {
                    assert(ranks_before(old_out[a], x));
                } else if a < pos {
                    assert(ranks_before(old_out[a], x));
                    assert(ranks_before(x, old_out[b - 1]));
                } else if a == pos {
                    assert(ranks_before(x, old_out[b - 1]));
                } else {
                    assert(ranks_before(old_out[a - 1], old_out[b - 1]));
                }
            }
        }
        i = i + 1;
    }
    proof {
        assert forall|k: int| 0 <= k < out@.len() implies t@.contains(#[trigger] out@[k]) by {
            assert(in_prefix(t@, n as int, out@[k]));
            let j = choose|j: int| 0 <= j < n && #[trigger] t@[j] == out@[k];
        }
    }
    out
}

impl SampleableIndex for HashableIndex {
    open spec fn intervals(&self) -> Seq<i128> {
        intervals_of(self@)
    }

    fn sample_rates(&self) -> (r: Vec<(usize, i128)>) {
        let n = self.values.len();
        let mut diffs: Vec<i128> = Vec::new();
        if n >= 1 {
            let mut i: usize = 0;
            while i + 1 < n
                invariant
                    n == self@.len(),
                    n >= 1,
                    0 <= i < n,
                    diffs@ == intervals_of(self@).subrange(0, i as int),
                decreases n - i,
            {
                diffs.push(self.values[i + 1] as i128 - self.values[i] as i128);
                i = i + 1;
                assert(diffs@ =~= intervals_of(self@).subrange(0, i as int));
            }
            assert(diffs@ =~= intervals_of(self@));
        } else {
            assert(diffs@ =~= intervals_of(self@));
        }
        let counted = count_intervals(&diffs);
        let r = rank_rates(&counted);
        proof {
            let d = diffs@;
            assert forall|k: int| 0 <= k < r@.len() implies d.contains(#[trigger] r@[k].1) && r@[k].0 == count_of(d, r@[k].1) by {
                assert(counted@.contains(r@[k]));
                let j = choose|j: int| 0 <= j < counted@.len() && counted@[j] == r@[k];
                assert(d.contains(counted@[j].1));
            }
            assert forall|x: i128| d.contains(x) implies exists|k: int| 0 <= k < r@.len() && #[trigger] r@[k].1 == x by {
                let j = choose|j: int| 0 <= j < counted@.len() && #[trigger] counted@[j].1 == x;
                assert(r@.contains(counted@[j]));
                let k = choose|k: int| 0 <= k < r@.len() && r@[k] == counted@[j];
                assert(r@[k].1 == x);
            }
        }
        r
    }

    fn is_mono_intervaled(&self) -> (r: bool) {
        let rates = self.sample_rates();
        let ghost d = self.intervals();
        proof {
            if rates@.len() == 1 {
                assert forall|i: int| 0 <= i < d.len() implies #[trigger] d[i] == d[0] by {
                    assert(d.contains(d[i]));
                    assert(d.contains(d[0]));
                    let k1 = choose|k: int| 0 <= k < rates@.len() && #[trigger] rates@[k].1 == d[i];
                    let k0 = choose|k: int| 0 <= k < rates@.len() && #[trigger] rates@[k].1 == d[0];
                }
                assert(d.contains(rates@[0].1));
            }
            if d.len() > 0 && (forall|i: int| 0 <= i < d.len() ==> #[trigger] d[i] == d[0]) {
                assert(d.contains(d[0]));
                let k0 = choose|k: int| 0 <= k < rates@.len() && #[trigger] rates@[k].1 == d[0];
                if rates@.len() > 1 {
                    let other: int = if k0 == 0 { 1 } else { 0 };
                    assert(d.contains(rates@[other].1));
                    let j = choose|j: int| 0 <= j < d.len() && d[j] == rates@[other].1;
                    assert(d[j] == d[0]);
                    if other < k0 {
                        assert(ranks_before(rates@[other], rates@[k0]));
                    } else {
                        assert(ranks_before(rates@[k0], rates@[other]));
                    }
                }
            }
        }
        rates.len() == 1
    }
}

} // verus!
