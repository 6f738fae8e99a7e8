//! Alignment of two key sequences: hash joins, merge joins and the as-of merge.
use crate::algo::int_utils::AsofComparator;
use crate::index::{HashableIndex, strictly_increasing};
use crate::timeseries::MergeAsofMode;
use std::cmp::Ordering;
use std::collections::HashMap;
use vstd::prelude::*;

verus! {

broadcast use vstd::std_specs::hash::group_hash_axioms;

/// A position of `this` matched with a position of `other`.
#[derive(Clone, Copy, Debug, PartialEq, Eq)]
pub struct IndexJoinPair {
    pub this_idx: usize,
    pub other_idx: usize,
}

/// A position of `this` with the matched position of `other`, if there is one.
#[derive(Clone, Copy, Debug, PartialEq, Eq)]
pub struct IndexJoinPotentiallyUnmatchedPair {
    pub this_idx: usize,
    pub other_idx: Option<usize>,
}

impl IndexJoinPotentiallyUnmatchedPair {
    /// The matched position, if any, lies below `n`.
    pub open spec fn refers_below(&self, n: int) -> bool {
        match self.other_idx {
            Some(o) => (o as int) < n,
            None => true,
        }
    }
}

pub open spec fn pair(i: int, j: int) -> IndexJoinPair {
    IndexJoinPair { this_idx: i as usize, other_idx: j as usize }
}

pub open spec fn unmatched(i: int) -> IndexJoinPotentiallyUnmatchedPair {
    IndexJoinPotentiallyUnmatchedPair { this_idx: i as usize, other_idx: None }
}

pub open spec fn matched(i: int, j: int) -> IndexJoinPotentiallyUnmatchedPair {
    IndexJoinPotentiallyUnmatchedPair { this_idx: i as usize, other_idx: Some(j as usize) }
}

/// The roll target "prior": one position back, saturating at 0.
pub open spec fn prior_of(idx: int) -> int {
    if idx <= 0 {
        0
    } else {
        idx - 1
    }
}

/// The roll target "following": one position on, saturating at `len - 1`.
pub open spec fn fwd_of(idx: int, len: int) -> int {
    if idx >= len - 1 {
        len - 1
    } else {
        idx + 1
    }
}

/// Maps a position to its prior position, saturating at 0.
pub fn prior_func(idx: usize) -> (r: usize)
    ensures
        r == prior_of(idx as int),
{
    if idx == 0 {
        0
    } else {
        idx - 1
    }
}

/// Maps a position to its following position, saturating at `otherlen - 1`.
pub fn fwd_func(idx: usize, otherlen: usize) -> (r: usize)
    requires
        otherlen >= 1,
    ensures
        r == fwd_of(idx as int, otherlen as int),
{
    if idx >= otherlen - 1 {
        otherlen - 1
    } else {
        idx + 1
    }
}

/// Position `i` matched with position `i`, for every position below `n`.
pub open spec fn identity_pairs(n: int) -> Seq<IndexJoinPair> {
    Seq::new(n as nat, |i: int| pair(i, i))
}

/// Every position below `n` matched with itself.
pub open spec fn identity_left_pairs(n: int) -> Seq<IndexJoinPotentiallyUnmatchedPair> {
    Seq::new(n as nat, |i: int| matched(i, i))
}

/// The two-pointer inner merge of `a` and `b`, from cursors `i` and `j`.
pub open spec fn inner_merge_from(a: Seq<i64>, b: Seq<i64>, i: int, j: int) -> Seq<IndexJoinPair>
    decreases a.len() - i, b.len() - j,
{
    if 0 <= i < a.len() && 0 <= j < b.len() {
        if a[i] > b[j] {
            inner_merge_from(a, b, i, j + 1)
        } else if a[i] < b[j] {
            inner_merge_from(a, b, i + 1, j)
        } else {
            seq![pair(i, j)] + inner_merge_from(a, b, i + 1, j + 1)
        }
    } else {
        seq![]
    }
}

/// The two-pointer left merge of `a` and `b`, from cursors `i` and `j`: every
/// position of `a` once, with the position of an equal key of `b` where the merge meets one.
pub open spec fn left_merge_from(a: Seq<i64>, b: Seq<i64>, i: int, j: int) -> Seq<
    IndexJoinPotentiallyUnmatchedPair,
>
    decreases a.len() - i, b.len() - j,
{
    if 0 <= i < a.len() && 0 <= j {
        if j >= b.len() {
            seq![unmatched(i)] + left_merge_from(a, b, i + 1, j)
        } else if a[i] > b[j] {
            left_merge_from(a, b, i, j + 1)
        } else if a[i] < b[j] {
            seq![unmatched(i)] + left_merge_from(a, b, i + 1, j)
        } else {
            seq![matched(i, j)] + left_merge_from(a, b, i + 1, j + 1)
        }
    } else {
        seq![]
    }
}

/// Prepending one record for position `i` to a run that covers positions from `i + 1`.
proof fn lemma_prepend_shape(
    x: IndexJoinPotentiallyUnmatchedPair,
    rest: Seq<IndexJoinPotentiallyUnmatchedPair>,
    i: int,
    n: int,
)
    requires
        0 <= i < n <= usize::MAX,
        x.this_idx == i,
        rest.len() == n - (i + 1),
        forall|k: int| 0 <= k < n - (i + 1) ==> #[trigger] rest[k].this_idx == i + 1 + k,
    ensures
        (seq![x] + rest).len() == n - i,
        forall|k: int| 0 <= k < n - i ==> #[trigger] (seq![x] + rest)[k].this_idx == i + k,
{
    assert forall|k: int| 0 <= k < n - i implies #[trigger] (seq![x] + rest)[k].this_idx == i
        + k by {
        if k > 0 {
            assert((seq![x] + rest)[k] == rest[k - 1]);
        }
    }
}

/// The left merge gives each position of `a` once, in order.
pub proof fn lemma_left_shape(a: Seq<i64>, b: Seq<i64>, i: int, j: int)
    requires
        0 <= i <= a.len() <= usize::MAX,
        0 <= j,
    ensures
        left_merge_from(a, b, i, j).len() == a.len() - i,
        forall|k: int|
            0 <= k < a.len() - i ==> #[trigger] left_merge_from(a, b, i, j)[k].this_idx == i + k,
    decreases a.len() - i, b.len() - j,
{
    if i < a.len() {
        if j >= b.len() || a[i] < b[j] {
            lemma_left_shape(a, b, i + 1, j);
            lemma_prepend_shape(unmatched(i), left_merge_from(a, b, i + 1, j), i, a.len() as int);
        } else if a[i] > b[j] {
            lemma_left_shape(a, b, i, j + 1);
        } else {
            lemma_left_shape(a, b, i + 1, j + 1);
            lemma_prepend_shape(
                matched(i, j),
                left_merge_from(a, b, i + 1, j + 1),
                i,
                a.len() as int,
            );
        }
    }
}

impl IndexJoinPair {
    /// Both positions lie within sequences of lengths `n1` and `n2`.
    pub open spec fn lies_within(&self, n1: int, n2: int) -> bool {
        (self.this_idx as int) < n1 && (self.other_idx as int) < n2
    }
}

/// Every pair of the inner merge lies within both sequences.
pub proof fn lemma_inner_bounds(a: Seq<i64>, b: Seq<i64>, i: int, j: int)
    requires
        0 <= i,
        0 <= j,
        a.len() <= usize::MAX,
        b.len() <= usize::MAX,
    ensures
        forall|k: int|
            0 <= k < inner_merge_from(a, b, i, j).len() ==> (#[trigger] inner_merge_from(
                a,
                b,
                i,
                j,
            )[k]).lies_within(a.len() as int, b.len() as int),
    decreases a.len() - i, b.len() - j,
{
    if 0 <= i < a.len() && 0 <= j < b.len() {
        if a[i] > b[j] {
            lemma_inner_bounds(a, b, i, j + 1);
            assert(inner_merge_from(a, b, i, j) == inner_merge_from(a, b, i, j + 1));
        } else if a[i] < b[j] {
            lemma_inner_bounds(a, b, i + 1, j);
            assert(inner_merge_from(a, b, i, j) == inner_merge_from(a, b, i + 1, j));
        } else {
            lemma_inner_bounds(a, b, i + 1, j + 1);
            let rest = inner_merge_from(a, b, i + 1, j + 1);
            let r = inner_merge_from(a, b, i, j);
            assert(r == seq![pair(i, j)] + rest);
            assert forall|k: int| 0 <= k < r.len() implies r[k].lies_within(
                a.len() as int,
                b.len() as int,
            ) by {
                if k > 0 {
                    assert(r[k] == rest[k - 1]);
                } else {
                    assert(r[k] == pair(i, j));
                }
            }
        }
    }
}

/// A position of `b` that the left merge records lies within `b`.
pub proof fn lemma_left_other_bounds(a: Seq<i64>, b: Seq<i64>, i: int, j: int)
    requires
        0 <= i,
        0 <= j,
        b.len() <= usize::MAX,
    ensures
        forall|k: int|
            0 <= k < left_merge_from(a, b, i, j).len() ==> (#[trigger] left_merge_from(
                a,
                b,
                i,
                j,
            )[k]).refers_below(b.len() as int),
    decreases a.len() - i, b.len() - j,
{
    if 0 <= i < a.len() {
        let r = left_merge_from(a, b, i, j);
        if j >= b.len() || a[i] < b[j] {
            lemma_left_other_bounds(a, b, i + 1, j);
            let rest = left_merge_from(a, b, i + 1, j);
            assert forall|k: int| 0 <= k < r.len() implies r[k].refers_below(b.len() as int) by {
                if k > 0 {
                    assert(r[k] == rest[k - 1]);
                } else {
                    assert(r[k] == r[0]);
                }
            }
        } else if a[i] > b[j] {
            lemma_left_other_bounds(a, b, i, j + 1);
            assert(r == left_merge_from(a, b, i, j + 1));
        } else {
            lemma_left_other_bounds(a, b, i + 1, j + 1);
            let rest = left_merge_from(a, b, i + 1, j + 1);
            assert forall|k: int| 0 <= k < r.len() implies r[k].refers_below(b.len() as int) by {
                if k > 0 {
                    assert(r[k] == rest[k - 1]);
                } else {
                    assert(r[k] == r[0]);
                }
            }
        }
    }
}

/// What a left-join record says about keys: a recorded position of `b` holds the key of
/// position `i` of `a`; no position recorded means `b` does not hold that key.
pub open spec fn left_record_agrees(a: Seq<i64>, b: Seq<i64>, i: int, rec: IndexJoinPotentiallyUnmatchedPair) -> bool {
    match rec.other_idx {
        Some(o) => (o as int) < b.len() && b[o as int] == a[i],
        None => forall|o: int| 0 <= o < b.len() ==> b[o] != a[i],
    }
}

proof fn lemma_left_merge_agrees_from(a: Seq<i64>, b: Seq<i64>, i: int, j: int)
    requires
        strictly_increasing(a),
        strictly_increasing(b),
        0 <= i <= a.len() <= usize::MAX,
        0 <= j <= b.len() <= usize::MAX,
        i < a.len() ==> forall|o: int| 0 <= o < j ==> b[o] < a[i],
    ensures
        forall|k: int|
            0 <= k < a.len() - i ==> left_record_agrees(a, b, i + k, #[trigger] left_merge_from(a, b, i, j)[k]),
    decreases a.len() - i, b.len() - j,
{
    if i < a.len() {
        let r = left_merge_from(a, b, i, j);
        lemma_left_shape(a, b, i, j);
        lemma_left_shape(a, b, i + 1, j);
        lemma_left_shape(a, b, i + 1, j + 1);
        if j >= b.len() || a[i] < b[j] {
            if i + 1 < a.len() {
                assert(a[i] < a[i + 1]);
            }
            lemma_left_merge_agrees_from(a, b, i + 1, j);
            let rest = left_merge_from(a, b, i + 1, j);
            assert forall|o: int| 0 <= o < b.len() implies b[o] != a[i] by {
                if o >= j {
                    assert(b[j] <= b[o]) by {
                        if j < o {
                            assert(b[j] < b[o]);
                        }
                    }
                }
            }
            assert forall|k: int| 0 <= k < a.len() - i implies left_record_agrees(a, b, i + k, #[trigger] r[k]) by {
                if k > 0 {
                    assert(r[k] == rest[k - 1]);
                } else {
                    assert(r[0] == unmatched(i));
                }
            }
        } else if a[i] > b[j] {
            lemma_left_merge_agrees_from(a, b, i, j + 1);
            assert(r == left_merge_from(a, b, i, j + 1));
        } else {
            if i + 1 < a.len() {
                assert(a[i] < a[i + 1]);
                assert forall|o: int| 0 <= o < j + 1 implies b[o] < a[i + 1] by {
                    if o < j {
                        assert(b[o] < b[j]);
                    }
                }
            }
            lemma_left_merge_agrees_from(a, b, i + 1, j + 1);
            let rest = left_merge_from(a, b, i + 1, j + 1);
            assert forall|k: int| 0 <= k < a.len() - i implies left_record_agrees(a, b, i + k, #[trigger] r[k]) by {
                if k > 0 {
                    assert(r[k] == rest[k - 1]);
                } else {
                    assert(r[0] == matched(i, j));
                }
            }
        }
    }
}

/// On strictly increasing keys the merge left join is a left join by key: record `i`
/// is for position `i` of `a`, and it names the position of `b` that holds the same key,
/// or none where `b` does not hold it.
pub proof fn lemma_left_merge_is_key_join(a: Seq<i64>, b: Seq<i64>)
    requires
        strictly_increasing(a),
        strictly_increasing(b),
        a.len() <= usize::MAX,
        b.len() <= usize::MAX,
    ensures
        left_merge_from(a, b, 0, 0).len() == a.len(),
        forall|i: int| 0 <= i < a.len() ==> (#[trigger] left_merge_from(a, b, 0, 0)[i]).this_idx == i,
        forall|i: int| 0 <= i < a.len() ==> left_record_agrees(a, b, i, #[trigger] left_merge_from(a, b, 0, 0)[i]),
{
    lemma_left_shape(a, b, 0, 0);
    lemma_left_merge_agrees_from(a, b, 0, 0);
    assert forall|i: int| 0 <= i < a.len() implies left_record_agrees(a, b, i, #[trigger] left_merge_from(a, b, 0, 0)[i]) by {
        assert(left_record_agrees(a, b, 0 + i, left_merge_from(a, b, 0, 0)[i]));
    }
}

/// `r` holds the pair `(i, j)`.
pub open spec fn has_pair(r: Seq<IndexJoinPair>, i: int, j: int) -> bool {
    exists|k: int| 0 <= k < r.len() && #[trigger] r[k] == pair(i, j)
}

proof fn lemma_inner_merge_exact_from(a: Seq<i64>, b: Seq<i64>, i: int, j: int)
    requires
        strictly_increasing(a),
        strictly_increasing(b),
        0 <= i <= a.len() <= usize::MAX,
        0 <= j <= b.len() <= usize::MAX,
    ensures
        forall|k: int|
            0 <= k < inner_merge_from(a, b, i, j).len() ==> {
                let p = #[trigger] inner_merge_from(a, b, i, j)[k];
                &&& i <= p.this_idx < a.len()
                &&& j <= p.other_idx < b.len()
                &&& a[p.this_idx as int] == b[p.other_idx as int]
            },
        forall|x: int, y: int|
            i <= x < a.len() && j <= y < b.len() && a[x] == b[y] ==> #[trigger] has_pair(
                inner_merge_from(a, b, i, j),
                x,
                y,
            ),
    decreases a.len() - i, b.len() - j,
{
    if i < a.len() && j < b.len() {
        let r = inner_merge_from(a, b, i, j);
        if a[i] > b[j] {
            lemma_inner_merge_exact_from(a, b, i, j + 1);
            assert(r == inner_merge_from(a, b, i, j + 1));
            assert forall|x: int, y: int| i <= x < a.len() && j <= y < b.len() && a[x] == b[y] implies #[trigger] has_pair(r, x, y) by {
                if y == j {
                    if x > i {
                        assert(a[i] < a[x]);
                    }
                }
            }
        } else if a[i] < b[j] {
            lemma_inner_merge_exact_from(a, b, i + 1, j);
            assert(r == inner_merge_from(a, b, i + 1, j));
            assert forall|x: int, y: int| i <= x < a.len() && j <= y < b.len() && a[x] == b[y] implies #[trigger] has_pair(r, x, y) by {
                if x == i {
                    if y > j {
                        assert(b[j] < b[y]);
                    }
                }
            }
        } else {
            lemma_inner_merge_exact_from(a, b, i + 1, j + 1);
            let rest = inner_merge_from(a, b, i + 1, j + 1);
            assert(r == seq![pair(i, j)] + rest);
            assert forall|k: int| 0 <= k < r.len() implies {
                let p = #[trigger] r[k];
                &&& i <= p.this_idx < a.len()
                &&& j <= p.other_idx < b.len()
                &&& a[p.this_idx as int] == b[p.other_idx as int]
            } by {
                if k > 0 {
                    assert(r[k] == rest[k - 1]);
                } else {
                    assert(r[0] == pair(i, j));
                }
            }
            assert forall|x: int, y: int| i <= x < a.len() && j <= y < b.len() && a[x] == b[y] implies #[trigger] has_pair(r, x, y) by {
                if x == i && y == j {
                    assert(r[0] == pair(i, j));
                } else if x == i {
                    assert(b[j] < b[y]);
                } else if y == j {
                    assert(a[i] < a[x]);
                } else {
                    assert(has_pair(rest, x, y));
                    let k = choose|k: int| 0 <= k < rest.len() && #[trigger] rest[k] == pair(x, y);
                    assert(r[k + 1] == rest[k]);
                }
            }
        }
    }
}

/// On strictly increasing keys the merge inner join is an inner join by key: it pairs
/// positions that hold equal keys, and every such pair of positions is in it.
pub proof fn lemma_inner_merge_is_key_join(a: Seq<i64>, b: Seq<i64>)
    requires
        strictly_increasing(a),
        strictly_increasing(b),
        a.len() <= usize::MAX,
        b.len() <= usize::MAX,
    ensures
        forall|k: int|
            0 <= k < inner_merge_from(a, b, 0, 0).len() ==> {
                let p = #[trigger] inner_merge_from(a, b, 0, 0)[k];
                &&& (p.this_idx as int) < a.len()
                &&& (p.other_idx as int) < b.len()
                &&& a[p.this_idx as int] == b[p.other_idx as int]
            },
        forall|x: int, y: int|
            0 <= x < a.len() && 0 <= y < b.len() && a[x] == b[y] ==> #[trigger] has_pair(
                inner_merge_from(a, b, 0, 0),
                x,
                y,
            ),
{
    lemma_inner_merge_exact_from(a, b, 0, 0);
}

/// The key under the merge cursor `j`, none once `b` is used up.
pub open spec fn cursor_key(b: Seq<i64>, j: int) -> Option<i64> {
    if 0 <= j < b.len() {
        Some(b[j])
    } else {
        None
    }
}

/// Key order as an `Ordering`; a key ranks below a cursor past the end.
pub open spec fn ordinal(x: i64, y: Option<i64>) -> Ordering {
    match y {
        Some(k) => if x < k {
            Ordering::Less
        } else if x > k {
            Ordering::Greater
        } else {
            Ordering::Equal
        },
        None => Ordering::Less,
    }
}

/// The position of `other` whose key the comparator sees beside the cursor `j`
/// (`0 <= j <= len`, `len >= 1`): it always lies within `other`.
pub open spec fn roll_target(mode: MergeAsofMode, j: int, len: int) -> int {
    match mode {
        MergeAsofMode::RollPrior => prior_of(j),
        MergeAsofMode::RollFollowing => fwd_of(j, len),
        MergeAsofMode::NoRoll => if j < len {
            j
        } else {
            len - 1
        },
    }
}

/// What the as-of merge compares at cursors `i` and `j`.
pub open spec fn asof_step(
    a: Seq<i64>,
    b: Seq<i64>,
    cmp: Option<AsofComparator>,
    mode: MergeAsofMode,
    i: int,
    j: int,
) -> (Ordering, int) {
    match cmp {
        None => (ordinal(a[i], cursor_key(b, j)), 0),
        Some(c) => c.spec_compare(a[i], cursor_key(b, j), b[roll_target(mode, j, b.len() as int)]),
    }
}

/// The record for a match at cursor `j` with offset `off`: offset 0 names the cursor
/// (none past the end), any other offset names the roll target `t`.
pub open spec fn recorded(i: int, j: int, off: int, t: int, len: int) -> IndexJoinPotentiallyUnmatchedPair {
    if off == 0 {
        if j < len {
            matched(i, j)
        } else {
            unmatched(i)
        }
    } else {
        matched(i, t)
    }
}

/// One step of the as-of merge at cursors `i` and `j`: the record it adds, if any, and
/// the next cursors. `Less` records no match and moves on in `a`; `Greater` moves on in
/// `b`; `Equal` records the match and moves on in `a`, and in `b` too where the cursor
/// key equals the key of `a`.
pub open spec fn asof_move(
    a: Seq<i64>,
    b: Seq<i64>,
    cmp: Option<AsofComparator>,
    mode: MergeAsofMode,
    i: int,
    j: int,
) -> (Option<IndexJoinPotentiallyUnmatchedPair>, int, int) {
    if b.len() == 0 {
        (Some(unmatched(i)), i + 1, j)
    } else {
        let (ord, off) = asof_step(a, b, cmp, mode, i, j);
        match ord {
            Ordering::Less => (Some(unmatched(i)), i + 1, j),
            Ordering::Greater => if j < b.len() {
                (None, i, j + 1)
            } else {
                (Some(unmatched(i)), i + 1, j)
            },
            Ordering::Equal => (
                Some(recorded(i, j, off, roll_target(mode, j, b.len() as int), b.len() as int)),
                i + 1,
                if cursor_key(b, j) == Some(a[i]) {
                    j + 1
                } else {
                    j
                },
            ),
        }
    }
}

/// The as-of merge from cursors `i` and `j`: each step of `asof_move` until `a` is
/// used up.
pub open spec fn asof_from(
    a: Seq<i64>,
    b: Seq<i64>,
    cmp: Option<AsofComparator>,
    mode: MergeAsofMode,
    i: int,
    j: int,
) -> Seq<IndexJoinPotentiallyUnmatchedPair>
    decreases a.len() - i, b.len() - j,
{
    if 0 <= i < a.len() && 0 <= j <= b.len() {
        let (r, ni, nj) = asof_move(a, b, cmp, mode, i, j);
        if ni == i + 1 && j <= nj <= j + 1 {
            match r {
                Some(x) => seq![x] + asof_from(a, b, cmp, mode, ni, nj),
                None => asof_from(a, b, cmp, mode, ni, nj),
            }
        } else if ni == i && nj == j + 1 && j < b.len() {
            asof_from(a, b, cmp, mode, ni, nj)
        } else {
            seq![]
        }
    } else {
        seq![]
    }
}

/// One step of the as-of merge either records position `i` and moves on in `a`, or
/// records nothing and moves on in `b`; a recorded position of `b` lies within `b`.
pub proof fn lemma_asof_move(
    a: Seq<i64>,
    b: Seq<i64>,
    cmp: Option<AsofComparator>,
    mode: MergeAsofMode,
    i: int,
    j: int,
)
    requires
        0 <= i < a.len() <= usize::MAX,
        0 <= j <= b.len() <= usize::MAX,
    ensures
        ({
            let (r, ni, nj) = asof_move(a, b, cmp, mode, i, j);
            match r {
                Some(x) => x.this_idx == i && x.refers_below(b.len() as int) && ni == i + 1 && j
                    <= nj <= j + 1 && nj <= b.len(),
                None => ni == i && nj == j + 1 && j < b.len(),
            }
        }),
{
}

/// The as-of merge gives each position of `a` once, in order, and every position of `b`
/// that it records lies within `b`.
pub proof fn lemma_asof_shape(
    a: Seq<i64>,
    b: Seq<i64>,
    cmp: Option<AsofComparator>,
    mode: MergeAsofMode,
    i: int,
    j: int,
)
    requires
        0 <= i <= a.len() <= usize::MAX,
        0 <= j <= b.len() <= usize::MAX,
    ensures
        asof_from(a, b, cmp, mode, i, j).len() == a.len() - i,
        forall|k: int|
            0 <= k < a.len() - i ==> #[trigger] asof_from(a, b, cmp, mode, i, j)[k].this_idx == i
                + k,
        forall|k: int|
            0 <= k < a.len() - i ==> (#[trigger] asof_from(a, b, cmp, mode, i, j)[k]).refers_below(
                b.len() as int,
            ),
    decreases a.len() - i, b.len() - j,
{
    if i < a.len() {
        lemma_asof_move(a, b, cmp, mode, i, j);
        let (r, ni, nj) = asof_move(a, b, cmp, mode, i, j);
        lemma_asof_shape(a, b, cmp, mode, ni, nj);
        let rest = asof_from(a, b, cmp, mode, ni, nj);
        let whole = asof_from(a, b, cmp, mode, i, j);
        match r {
            Some(x) => {
                assert(whole == seq![x] + rest);
                assert forall|k: int| 0 <= k < a.len() - i implies #[trigger] whole[k].this_idx == i + k
                    && whole[k].refers_below(b.len() as int) by {
                    if k > 0 {
                        assert(whole[k] == rest[k - 1]);
                    } else {
                        assert(whole[0] == x);
                    }
                }
            },
            None => {
                assert(whole == rest);
            },
        }
    }
}

/// Without a comparator the as-of merge compares keys by their order and never rolls:
/// whatever the roll mode, it gives the merge left join.
pub proof fn lemma_asof_without_comparator(a: Seq<i64>, b: Seq<i64>, mode: MergeAsofMode, i: int, j: int)
    requires
        0 <= i,
        0 <= j <= b.len(),
        b.len() <= usize::MAX,
    ensures
        asof_from(a, b, None, mode, i, j) == left_merge_from(a, b, i, j),
    decreases a.len() - i, b.len() - j,
{
    if i < a.len() {
        if j >= b.len() || a[i] < b[j] {
            lemma_asof_without_comparator(a, b, mode, i + 1, j);
        } else if a[i] > b[j] {
            lemma_asof_without_comparator(a, b, mode, i, j + 1);
        } else {
            lemma_asof_without_comparator(a, b, mode, i + 1, j + 1);
        }
    }
}

/// What a roll-prior record says: the position of `b` it names holds the last key at
/// or before `t`, no more than `look_back` before it; where it names none, no key of `b`
/// lies in `[t - look_back, t]`.
pub open spec fn nearest_prior_agrees(b: Seq<i64>, t: i64, look_back: int, rec: IndexJoinPotentiallyUnmatchedPair) -> bool {
    match rec.other_idx {
        Some(k) => {
            &&& (k as int) < b.len()
            &&& b[k as int] <= t
            &&& t - b[k as int] <= look_back
            &&& forall|m: int| k < m < b.len() ==> t < b[m]
        },
        None => forall|k: int| 0 <= k < b.len() && b[k] <= t ==> t - b[k] > look_back,
    }
}

/// What a roll-following record says: the position of `b` it names holds the first key
/// at or after `t`, no more than `look_fwd` after it; where it names none, no key of `b`
/// lies in `[t, t + look_fwd]`.
pub open spec fn nearest_following_agrees(b: Seq<i64>, t: i64, look_fwd: int, rec: IndexJoinPotentiallyUnmatchedPair) -> bool {
    match rec.other_idx {
        Some(k) => {
            &&& (k as int) < b.len()
            &&& t <= b[k as int]
            &&& b[k as int] - t <= look_fwd
            &&& forall|m: int| 0 <= m < k ==> b[m] < t
        },
        None => forall|k: int| 0 <= k < b.len() && t <= b[k] ==> b[k] - t > look_fwd,
    }
}

proof fn lemma_asof_prior_from(a: Seq<i64>, b: Seq<i64>, look_back: i64, i: int, j: int)
    requires
        strictly_increasing(a),
        strictly_increasing(b),
        look_back >= 0,
        0 <= i <= a.len() <= usize::MAX,
        0 <= j <= b.len() <= usize::MAX,
        i < a.len() ==> forall|k: int| 0 <= k < j ==> b[k] < a[i],
    ensures
        forall|k: int|
            0 <= k < a.len() - i ==> nearest_prior_agrees(
                b,
                a[i + k],
                look_back as int,
                #[trigger] asof_from(a, b, Some(AsofComparator::Prior { look_back }), MergeAsofMode::RollPrior, i, j)[k],
            ),
    decreases a.len() - i, b.len() - j,
{
    let cmp = Some(AsofComparator::Prior { look_back });
    let mode = MergeAsofMode::RollPrior;
    if i < a.len() {
        lemma_asof_move(a, b, cmp, mode, i, j);
        let (r, ni, nj) = asof_move(a, b, cmp, mode, i, j);
        let t = a[i];
        if let Some(x) = r {
            assert(nearest_prior_agrees(b, t, look_back as int, x)) by {
                if j < b.len() && b[j] == t {
                    assert forall|m: int| j < m < b.len() implies t < b[m] by {
                        assert(b[j] < b[m]);
                    }
                } else if j < b.len() && t < b[j] {
                    if j > 0 {
                        assert(b[j - 1] < t);
                        assert forall|m: int| j - 1 < m < b.len() implies t < b[m] by {
                            if m > j {
                                assert(b[j] < b[m]);
                            }
                        }
                        assert forall|k: int| 0 <= k < b.len() && b[k] <= t implies t - b[k] > look_back || x.other_idx.is_some() by {
                            if k > j - 1 {
                                if k > j {
                                    assert(b[j] < b[k]);
                                }
                            } else if k < j - 1 {
                                assert(b[k] < b[j - 1]);
                            }
                        }
                    } else {
                        assert forall|k: int| 0 <= k < b.len() && b[k] <= t implies t - b[k] > look_back by {
                            if k > 0 {
                                assert(b[0] < b[k]);
                            }
                        }
                    }
                } else if b.len() > 0 && j == b.len() {
                    assert forall|k: int| 0 <= k < b.len() && b[k] <= t implies t - b[k] > look_back || x.other_idx.is_some() by {
                        if k < j - 1 {
                            assert(b[k] < b[j - 1]);
                        }
                    }
                }
            }
            if ni < a.len() {
                assert(t < a[ni]);
                assert forall|k: int| 0 <= k < nj implies b[k] < a[ni] by {
                    if k < j {
                        assert(b[k] < t);
                    }
                }
            }
            lemma_asof_prior_from(a, b, look_back, ni, nj);
            lemma_asof_shape(a, b, cmp, mode, ni, nj);
            let rest = asof_from(a, b, cmp, mode, ni, nj);
            let whole = asof_from(a, b, cmp, mode, i, j);
            assert(whole == seq![x] + rest);
            assert forall|k: int| 0 <= k < a.len() - i implies nearest_prior_agrees(b, a[i + k], look_back as int, #[trigger] whole[k]) by {
                if k > 0 {
                    assert(whole[k] == rest[k - 1]);
                } else {
                    assert(whole[0] == x);
                }
            }
        } else {
            lemma_asof_prior_from(a, b, look_back, ni, nj);
            assert(asof_from(a, b, cmp, mode, i, j) == asof_from(a, b, cmp, mode, ni, nj));
        }
    }
}

/// On strictly increasing keys, the roll-prior as-of merge with a non-negative
/// look-back records, for each key of `a`, the last key of `b` at or before it within
/// the look-back, and none where there is no such key.
pub proof fn lemma_asof_prior_is_nearest_prior(a: Seq<i64>, b: Seq<i64>, look_back: i64)
    requires
        strictly_increasing(a),
        strictly_increasing(b),
        look_back >= 0,
        a.len() <= usize::MAX,
        b.len() <= usize::MAX,
    ensures
        forall|k: int|
            0 <= k < a.len() ==> nearest_prior_agrees(
                b,
                a[k],
                look_back as int,
                #[trigger] asof_from(a, b, Some(AsofComparator::Prior { look_back }), MergeAsofMode::RollPrior, 0, 0)[k],
            ),
{
    lemma_asof_prior_from(a, b, look_back, 0, 0);
    assert forall|k: int| 0 <= k < a.len() implies nearest_prior_agrees(
        b,
        a[k],
        look_back as int,
        #[trigger] asof_from(a, b, Some(AsofComparator::Prior { look_back }), MergeAsofMode::RollPrior, 0, 0)[k],
    ) by {
        assert(a[0 + k] == a[k]);
    }
}

proof fn lemma_asof_fwd_from(a: Seq<i64>, b: Seq<i64>, look_fwd: i64, i: int, j: int)
    requires
        strictly_increasing(a),
        strictly_increasing(b),
        look_fwd >= 0,
        0 <= i <= a.len() <= usize::MAX,
        0 <= j <= b.len() <= usize::MAX,
        i < a.len() ==> forall|k: int| 0 <= k < j ==> b[k] < a[i],
    ensures
        forall|k: int|
            0 <= k < a.len() - i ==> nearest_following_agrees(
                b,
                a[i + k],
                look_fwd as int,
                #[trigger] asof_from(a, b, Some(AsofComparator::Fwd { look_fwd }), MergeAsofMode::RollFollowing, i, j)[k],
            ),
    decreases a.len() - i, b.len() - j,
{
    let cmp = Some(AsofComparator::Fwd { look_fwd });
    let mode = MergeAsofMode::RollFollowing;
    if i < a.len() {
        lemma_asof_move(a, b, cmp, mode, i, j);
        let (r, ni, nj) = asof_move(a, b, cmp, mode, i, j);
        let t = a[i];
        if let Some(x) = r {
            assert(nearest_following_agrees(b, t, look_fwd as int, x)) by {
                if j < b.len() && b[j] < t {
                    assert(j + 1 < b.len());
                    assert forall|m: int| 0 <= m < j + 1 implies b[m] < t by {}
                } else if j < b.len() {
                    assert forall|k: int| 0 <= k < b.len() && t <= b[k] implies b[k] - t > look_fwd || x.other_idx.is_some() by {
                        if k > j {
                            assert(b[j] < b[k]);
                        }
                    }
                    if j + 1 < b.len() {
                        assert(b[j] < b[j + 1]);
                    }
                }
            }
            if ni < a.len() {
                assert(t < a[ni]);
                assert forall|k: int| 0 <= k < nj implies b[k] < a[ni] by {
                    if k < j {
                        assert(b[k] < t);
                    }
                }
            }
            lemma_asof_fwd_from(a, b, look_fwd, ni, nj);
            lemma_asof_shape(a, b, cmp, mode, ni, nj);
            let rest = asof_from(a, b, cmp, mode, ni, nj);
            let whole = asof_from(a, b, cmp, mode, i, j);
            assert(whole == seq![x] + rest);
            assert forall|k: int| 0 <= k < a.len() - i implies nearest_following_agrees(b, a[i + k], look_fwd as int, #[trigger] whole[k]) by {
                if k > 0 {
                    assert(whole[k] == rest[k - 1]);
                } else {
                    assert(whole[0] == x);
                }
            }
        } else {
            assert(b[j] < t);
            lemma_asof_fwd_from(a, b, look_fwd, ni, nj);
            assert(asof_from(a, b, cmp, mode, i, j) == asof_from(a, b, cmp, mode, ni, nj));
        }
    }
}

/// On strictly increasing keys, the roll-following as-of merge with a non-negative
/// look-ahead records, for each key of `a`, the first key of `b` at or after it within
/// the look-ahead, and none where there is no such key.
pub proof fn lemma_asof_fwd_is_nearest_following(a: Seq<i64>, b: Seq<i64>, look_fwd: i64)
    requires
        strictly_increasing(a),
        strictly_increasing(b),
        look_fwd >= 0,
        a.len() <= usize::MAX,
        b.len() <= usize::MAX,
    ensures
        forall|k: int|
            0 <= k < a.len() ==> nearest_following_agrees(
                b,
                a[k],
                look_fwd as int,
                #[trigger] asof_from(a, b, Some(AsofComparator::Fwd { look_fwd }), MergeAsofMode::RollFollowing, 0, 0)[k],
            ),
{
    lemma_asof_fwd_from(a, b, look_fwd, 0, 0);
    assert forall|k: int| 0 <= k < a.len() implies nearest_following_agrees(
        b,
        a[k],
        look_fwd as int,
        #[trigger] asof_from(a, b, Some(AsofComparator::Fwd { look_fwd }), MergeAsofMode::RollFollowing, 0, 0)[k],
    ) by {
        assert(a[0 + k] == a[k]);
    }
}

/// The last position of `s` that holds `k`, or -1.
pub open spec fn last_pos(s: Seq<i64>, k: i64) -> int
    decreases s.len(),
{
    if s.len() == 0 {
        -1
    } else if s.last() == k {
        s.len() - 1
    } else {
        last_pos(s.drop_last(), k)
    }
}

proof fn lemma_last_pos_bounds(s: Seq<i64>, k: i64)
    ensures
        -1 <= last_pos(s, k) < s.len(),
        last_pos(s, k) >= 0 ==> s[last_pos(s, k)] == k,
        last_pos(s, k) < 0 ==> forall|i: int| 0 <= i < s.len() ==> s[i] != k,
    decreases s.len(),
{
    if s.len() > 0 {
        lemma_last_pos_bounds(s.drop_last(), k);
        if s.last() != k {
            assert forall|i: int| 0 <= i < s.len() && last_pos(s, k) < 0 implies s[i] != k by {
                if i < s.len() - 1 {
                    assert(s[i] == s.drop_last()[i]);
                }
            }
        }
    }
}

/// Hash inner join, probing `b` against a lookup over `a`: for each position `j < n`
/// of `b` whose key `a` holds, the last such position of `a` with `j`.
pub open spec fn probe_by_other(a: Seq<i64>, b: Seq<i64>, n: int) -> Seq<IndexJoinPair>
    decreases n,
{
    if n <= 0 {
        seq![]
    } else {
        let p = last_pos(a, b[n - 1]);
        probe_by_other(a, b, n - 1) + if p >= 0 {
            seq![pair(p, n - 1)]
        } else {
            seq![]
        }
    }
}

/// Hash inner join, probing `a` against a lookup over `b`: for each position `i < n`
/// of `a` whose key `b` holds, `i` with the last such position of `b`.
pub open spec fn probe_by_this(a: Seq<i64>, b: Seq<i64>, n: int) -> Seq<IndexJoinPair>
    decreases n,
{
    if n <= 0 {
        seq![]
    } else {
        let p = last_pos(b, a[n - 1]);
        probe_by_this(a, b, n - 1) + if p >= 0 {
            seq![pair(n - 1, p)]
        } else {
            seq![]
        }
    }
}

/// Hash inner join: the lookup is built over the shorter side (over `a` on a tie) and
/// probed with the longer side, whose order the result follows.
pub open spec fn hash_inner(a: Seq<i64>, b: Seq<i64>) -> Seq<IndexJoinPair> {
    if a.len() <= b.len() {
        probe_by_other(a, b, b.len() as int)
    } else {
        probe_by_this(a, b, a.len() as int)
    }
}

/// Hash left join: every position of `a`, with the last position of `b` holding its key.
pub open spec fn hash_left(a: Seq<i64>, b: Seq<i64>) -> Seq<IndexJoinPotentiallyUnmatchedPair> {
    Seq::new(
        a.len(),
        |i: int|
            if last_pos(b, a[i]) >= 0 {
                matched(i, last_pos(b, a[i]))
            } else {
                unmatched(i)
            },
    )
}

/// Two's-complement bytes of `x`, least significant first, `n` of them.
pub open spec fn le_bytes(x: int, n: nat) -> Seq<u8>
    decreases n,
{
    if n == 0 {
        seq![]
    } else {
        seq![(x % 256) as u8] + le_bytes(x / 256, (n - 1) as nat)
    }
}

/// The fixed-width little-endian encoding of a sequence of `i64`: its length as eight
/// bytes, then eight bytes for each element.
pub open spec fn fixint_encoding(s: Seq<i64>) -> Seq<u8> {
    le_bytes(s.len() as int, 8) + s.map_values(|x: i64| le_bytes(x as int, 8)).flatten()
}

/// What seahash gives for a byte sequence.
pub uninterp spec fn seahash_of(b: Seq<u8>) -> u64;

/// Relies on bincode::serialize with its default options (fixed-width little-endian
/// integers, the length of a sequence first as a u64).
#[verifier::external_body]
fn encode_keys(keys: &Vec<i64>) -> (r: Option<Vec<u8>>)
    ensures
        r matches Some(b) ==> b@ == fixint_encoding(keys@),
{
    bincode::serialize(keys).ok()
}

/// Relies on seahash::hash: a function of the bytes alone.
#[verifier::external_body]
fn seahash_bytes(b: &Vec<u8>) -> (r: u64)
    ensures
        r == seahash_of(b@),
{
    seahash::hash(b)
}

/// Borrows two key sequences for joining.
pub struct JoinEngine<'a> {
    pub idx_this: &'a HashableIndex,
    pub idx_other: &'a HashableIndex,
    /// Compare content hashes of the two indices first, and align position for position
    /// where they agree. Off by default.
    pub hash_precompare: bool,
}

impl<'a> JoinEngine<'a> {
    /// The keys of `this`.
    pub open spec fn this_keys(&self) -> Seq<i64> {
        self.idx_this@
    }

    /// The keys of `other`.
    pub open spec fn other_keys(&self) -> Seq<i64> {
        self.idx_other@
    }

    /// Whether the identity fast path may be taken: the flag is on, the lengths agree and
    /// so do the hashes of the encoded keys.
    pub open spec fn hashes_agree(&self) -> bool {
        &&& self.hash_precompare
        &&& self.this_keys().len() == self.other_keys().len()
        &&& seahash_of(fixint_encoding(self.this_keys())) == seahash_of(
            fixint_encoding(self.other_keys()),
        )
    }

    /// A join engine over two indices, with the hash precompare off.
    pub fn new(idx_this: &'a HashableIndex, idx_other: &'a HashableIndex) -> (r: JoinEngine<'a>)
        ensures
            r.idx_this == idx_this,
            r.idx_other == idx_other,
            !r.hash_precompare,
    {
        JoinEngine { idx_this, idx_other, hash_precompare: false }
    }

    fn hash_index(&self, index: &HashableIndex) -> (r: Option<u64>)
        ensures
            r matches Some(h) ==> h == seahash_of(fixint_encoding(index@)),
    {
        match encode_keys(&index.values) {
            Some(bytes) => Some(seahash_bytes(&bytes)),
            None => None,
        }
    }

    fn hash_precompare(&self) -> (r: bool)
        ensures
            r ==> self.this_keys().len() == self.other_keys().len() && seahash_of(
                fixint_encoding(self.this_keys()),
            ) == seahash_of(fixint_encoding(self.other_keys())),
    {
        if self.idx_this.len() == self.idx_other.len() {
            match (self.hash_index(self.idx_this), self.hash_index(self.idx_other)) {
                (Some(h1), Some(h2)) => h1 == h2,
                _ => false,
            }
        } else {
            false
        }
    }

    fn index_is_same(&self) -> (r: bool)
        ensures
            r ==> self.hashes_agree(),
            !self.hash_precompare ==> !r,
    {
        if self.hash_precompare {
            self.hash_precompare()
        } else {
            false
        }
    }

    fn identity_join(&self) -> (r: Vec<IndexJoinPair>)
        ensures
            r@ == identity_pairs(self.this_keys().len() as int),
    {
        let n = self.idx_this.len();
        let mut out: Vec<IndexJoinPair> = Vec::new();
        let mut k: usize = 0;
        while k < n
            invariant
                n == self.this_keys().len(),
                0 <= k <= n,
                out@ == identity_pairs(k as int),
            decreases n - k,
        {
            out.push(IndexJoinPair { this_idx: k, other_idx: k });
            k = k + 1;
            assert(out@ =~= identity_pairs(k as int));
        }
        out
    }

    fn identity_left_join(&self) -> (r: Vec<IndexJoinPotentiallyUnmatchedPair>)
        ensures
            r@ == identity_left_pairs(self.this_keys().len() as int),
    {
        let n = self.idx_this.len();
        let mut out: Vec<IndexJoinPotentiallyUnmatchedPair> = Vec::new();
        let mut k: usize = 0;
        while k < n
            invariant
                n == self.this_keys().len(),
                0 <= k <= n,
                out@ == identity_left_pairs(k as int),
            decreases n - k,
        {
            out.push(IndexJoinPotentiallyUnmatchedPair { this_idx: k, other_idx: Some(k) });
            k = k + 1;
            assert(out@ =~= identity_left_pairs(k as int));
        }
        out
    }

    /// Merge inner join of two indices sorted ascending: pairs of equal keys, found by
    /// advancing the cursor on the smaller key.
    pub fn get_inner_merge_joined_indicies(&self) -> (r: Vec<IndexJoinPair>)
        ensures
            !self.hashes_agree() ==> r@ == inner_merge_from(self.this_keys(), self.other_keys(), 0, 0),
            r@ == inner_merge_from(self.this_keys(), self.other_keys(), 0, 0) || r@
                == identity_pairs(self.this_keys().len() as int),
    {
        if self.index_is_same() {
            return self.identity_join();
        }
        let ghost a = self.this_keys();
        let ghost b = self.other_keys();
        let n1 = self.idx_this.len();
        let n2 = self.idx_other.len();
        let mut output: Vec<IndexJoinPair> = Vec::new();
        let mut pos1: usize = 0;
        let mut pos2: usize = 0;
        while pos1 < n1 && pos2 < n2
            invariant
                n1 == a.len(),
                n2 == b.len(),
                a == self.this_keys(),
                b == self.other_keys(),
                0 <= pos1 <= n1,
                0 <= pos2 <= n2,
                output@ + inner_merge_from(a, b, pos1 as int, pos2 as int) == inner_merge_from(
                    a,
                    b,
                    0,
                    0,
                ),
            decreases n1 - pos1, n2 - pos2,
        {
            let k1 = self.idx_this.values[pos1];
            let k2 = self.idx_other.values[pos2];
            if k1 > k2 {
                pos2 = pos2 + 1;
            } else if k1 < k2 {
                pos1 = pos1 + 1;
            } else {
                let ghost prev = output@;
                output.push(IndexJoinPair { this_idx: pos1, other_idx: pos2 });
                assert(prev + inner_merge_from(a, b, pos1 as int, pos2 as int) =~= output@
                    + inner_merge_from(a, b, pos1 + 1, pos2 + 1));
                pos1 = pos1 + 1;
                pos2 = pos2 + 1;
            }
        }
        assert(output@ =~= output@ + inner_merge_from(a, b, pos1 as int, pos2 as int));
        output
    }

    /// Merge left join of two indices sorted ascending: every position of `this`, with
    /// the position of the equal key of `other` where there is one.
    pub fn get_left_merge_joined_indicies(&self) -> (r: Vec<IndexJoinPotentiallyUnmatchedPair>)
        ensures
            !self.hashes_agree() ==> r@ == left_merge_from(self.this_keys(), self.other_keys(), 0, 0),
            r@ == left_merge_from(self.this_keys(), self.other_keys(), 0, 0) || r@
                == identity_left_pairs(self.this_keys().len() as int),
    {
        if self.index_is_same() {
            return self.identity_left_join();
        }
        let ghost a = self.this_keys();
        let ghost b = self.other_keys();
        let n1 = self.idx_this.len();
        let n2 = self.idx_other.len();
        let mut output: Vec<IndexJoinPotentiallyUnmatchedPair> = Vec::new();
        let mut pos1: usize = 0;
        let mut pos2: usize = 0;
        while pos1 < n1
            invariant
                n1 == a.len(),
                n2 == b.len(),
                a == self.this_keys(),
                b == self.other_keys(),
                0 <= pos1 <= n1,
                0 <= pos2 <= n2,
                output@ + left_merge_from(a, b, pos1 as int, pos2 as int) == left_merge_from(
                    a,
                    b,
                    0,
                    0,
                ),
            decreases n1 - pos1, n2 - pos2,
        {
            let ghost prev = output@;
            if pos2 >= n2 || self.idx_this.values[pos1] < self.idx_other.values[pos2] {
                output.push(IndexJoinPotentiallyUnmatchedPair { this_idx: pos1, other_idx: None });
                assert(prev + left_merge_from(a, b, pos1 as int, pos2 as int) =~= output@
                    + left_merge_from(a, b, pos1 + 1, pos2 as int));
                pos1 = pos1 + 1;
            } else if self.idx_this.values[pos1] > self.idx_other.values[pos2] {
                pos2 = pos2 + 1;
            } else {
                output.push(
                    IndexJoinPotentiallyUnmatchedPair { this_idx: pos1, other_idx: Some(pos2) },
                );
                assert(prev + left_merge_from(a, b, pos1 as int, pos2 as int) =~= output@
                    + left_merge_from(a, b, pos1 + 1, pos2 + 1));
                pos1 = pos1 + 1;
                pos2 = pos2 + 1;
            }
        }
        assert(output@ =~= output@ + left_merge_from(a, b, pos1 as int, pos2 as int));
        output
    }

    /// As-of merge: a two-pointer merge where a comparator, given the key of `this`, the
    /// key of `other` under the cursor (none once `other` is used up) and the key at the
    /// roll target, decides the order and which position of `other` is recorded: the
    /// cursor for offset 0, the roll target otherwise. Without a comparator keys are
    /// compared by their order and no roll happens.
    pub fn get_asof_merge_joined_indicies(
        &self,
        compare_func: Option<AsofComparator>,
        mode: MergeAsofMode,
    ) -> (r: Vec<IndexJoinPotentiallyUnmatchedPair>)
        ensures
            !self.hashes_agree() ==> r@ == asof_from(
                self.this_keys(),
                self.other_keys(),
                compare_func,
                mode,
                0,
                0,
            ),
            r@ == asof_from(self.this_keys(), self.other_keys(), compare_func, mode, 0, 0) || r@
                == identity_left_pairs(self.this_keys().len() as int),
    {
        if self.index_is_same() {
            return self.identity_left_join();
        }
        let ghost a = self.this_keys();
        let ghost b = self.other_keys();
        let n1 = self.idx_this.len();
        let n2 = self.idx_other.len();
        let mut output: Vec<IndexJoinPotentiallyUnmatchedPair> = Vec::new();
        let mut pos1: usize = 0;
        let mut pos2: usize = 0;
        while pos1 < n1
            invariant
                n1 == a.len(),
                n2 == b.len(),
                a == self.this_keys(),
                b == self.other_keys(),
                0 <= pos1 <= n1,
                0 <= pos2 <= n2,
                output@ + asof_from(a, b, compare_func, mode, pos1 as int, pos2 as int)
                    == asof_from(a, b, compare_func, mode, 0, 0),
            decreases n1 - pos1, n2 - pos2,
        {
            let ghost prev = output@;
            proof {
                lemma_asof_move(a, b, compare_func, mode, pos1 as int, pos2 as int);
            }
            let ghost mv = asof_move(a, b, compare_func, mode, pos1 as int, pos2 as int);
            let mut next1 = pos1 + 1;
            let mut next2 = pos2;
            if n2 == 0 {
                output.push(IndexJoinPotentiallyUnmatchedPair { this_idx: pos1, other_idx: None });
            } else {
                let this_key = self.idx_this.values[pos1];
                let other_key: Option<i64> = if pos2 < n2 {
                    Some(self.idx_other.values[pos2])
                } else {
                    None
                };
                let target = match mode {
                    MergeAsofMode::RollPrior => prior_func(pos2),
                    MergeAsofMode::RollFollowing => fwd_func(pos2, n2),
                    MergeAsofMode::NoRoll => if pos2 < n2 {
                        pos2
                    } else {
                        n2 - 1
                    },
                };
                let (ord, off) = match compare_func {
                    None => match other_key {
                        Some(k) => if this_key < k {
                            (Ordering::Less, 0i64)
                        } else if this_key > k {
                            (Ordering::Greater, 0i64)
                        } else {
                            (Ordering::Equal, 0i64)
                        },
                        None => (Ordering::Less, 0i64),
                    },
                    Some(c) => c.compare(this_key, other_key, self.idx_other.values[target]),
                };
                assert((ord, off as int) == asof_step(a, b, compare_func, mode, pos1 as int, pos2 as int));
                match ord {
                    Ordering::Less => {
                        output.push(IndexJoinPotentiallyUnmatchedPair { this_idx: pos1, other_idx: None });
                    },
                    Ordering::Greater => {
                        if pos2 < n2 {
                            next1 = pos1;
                            next2 = pos2 + 1;
                        } else {
                            output.push(IndexJoinPotentiallyUnmatchedPair { this_idx: pos1, other_idx: None });
                        }
                    },
                    Ordering::Equal => {
                        let rec = if off == 0 {
                            if pos2 < n2 {
                                IndexJoinPotentiallyUnmatchedPair { this_idx: pos1, other_idx: Some(pos2) }
                            } else {
                                IndexJoinPotentiallyUnmatchedPair { this_idx: pos1, other_idx: None }
                            }
                        } else {
                            IndexJoinPotentiallyUnmatchedPair { this_idx: pos1, other_idx: Some(target) }
                        };
                        output.push(rec);
                        if other_key == Some(this_key) {
                            next2 = pos2 + 1;
                        }
                    },
                }
            }
            proof {
                let (r, ni, nj) = mv;
                assert(ni == next1 && nj == next2);
                match r {
                    Some(x) => {
                        assert(output@ == prev.push(x));
                        assert(asof_from(a, b, compare_func, mode, pos1 as int, pos2 as int) == seq![x]
                            + asof_from(a, b, compare_func, mode, ni, nj));
                        assert(prev + asof_from(a, b, compare_func, mode, pos1 as int, pos2 as int)
                            =~= output@ + asof_from(a, b, compare_func, mode, ni, nj));
                    },
                    None => {
                        assert(output@ == prev);
                    },
                }
            }
            pos1 = next1;
            pos2 = next2;
        }
        assert(output@ =~= output@ + asof_from(a, b, compare_func, mode, pos1 as int, pos2 as int));
        output
    }

    /// A lookup from each key of `hashbase` to the last position that holds it.
    fn gen_base_lookup(&self, hashbase: &HashableIndex) -> (r: HashMap<i64, usize>)
        ensures
            forall|k: i64| #[trigger]
                r@.contains_key(k) <==> last_pos(hashbase@, k) >= 0,
            forall|k: i64|
                r@.contains_key(k) ==> #[trigger] r@[k] as int == last_pos(hashbase@, k),
    {
        let n = hashbase.len();
        let mut lookup: HashMap<i64, usize> = HashMap::with_capacity(n);
        let mut k: usize = 0;
        while k < n
            invariant
                n == hashbase@.len(),
                0 <= k <= n,
                forall|x: i64| #[trigger]
                    lookup@.contains_key(x) <==> last_pos(hashbase@.subrange(0, k as int), x)
                        >= 0,
                forall|x: i64|
                    lookup@.contains_key(x) ==> #[trigger] lookup@[x] as int == last_pos(
                        hashbase@.subrange(0, k as int),
                        x,
                    ),
            decreases n - k,
        {
            let key = hashbase.values[k];
            lookup.insert(key, k);
            assert(hashbase@.subrange(0, k + 1).drop_last() =~= hashbase@.subrange(0, k as int));
            k = k + 1;
        }
        assert(hashbase@.subrange(0, n as int) =~= hashbase@);
        lookup
    }

    /// Hash inner join: a lookup over the shorter index, probed with the longer one.
    pub fn get_inner_hash_joined_indicies(&self) -> (r: Vec<IndexJoinPair>)
        ensures
            !self.hashes_agree() ==> r@ == hash_inner(self.this_keys(), self.other_keys()),
            r@ == hash_inner(self.this_keys(), self.other_keys()) || r@ == identity_pairs(
                self.this_keys().len() as int,
            ),
    {
        if self.index_is_same() {
            return self.identity_join();
        }
        let ghost a = self.this_keys();
        let ghost b = self.other_keys();
        let n1 = self.idx_this.len();
        let n2 = self.idx_other.len();
        let mut output: Vec<IndexJoinPair> = Vec::new();
        if n1 <= n2 {
            let lookup = self.gen_base_lookup(self.idx_this);
            let mut j: usize = 0;
            while j < n2
                invariant
                    n1 == a.len(),
                    n2 == b.len(),
                    a == self.this_keys(),
                    b == self.other_keys(),
                    0 <= j <= n2,
                    forall|k: i64| #[trigger] lookup@.contains_key(k) <==> last_pos(a, k) >= 0,
                    forall|k: i64|
                        lookup@.contains_key(k) ==> #[trigger] lookup@[k] as int == last_pos(a, k),
                    output@ == probe_by_other(a, b, j as int),
                decreases n2 - j,
            {
                let key = self.idx_other.values[j];
                match lookup.get(&key) {
                    Some(i) => {
                        output.push(IndexJoinPair { this_idx: *i, other_idx: j });
                    },
                    None => {},
                }
                j = j + 1;
                assert(output@ =~= probe_by_other(a, b, j as int));
            }
        } else {
            let lookup = self.gen_base_lookup(self.idx_other);
            let mut i: usize = 0;
            while i < n1
                invariant
                    n1 == a.len(),
                    n2 == b.len(),
                    a == self.this_keys(),
                    b == self.other_keys(),
                    0 <= i <= n1,
                    forall|k: i64| #[trigger] lookup@.contains_key(k) <==> last_pos(b, k) >= 0,
                    forall|k: i64|
                        lookup@.contains_key(k) ==> #[trigger] lookup@[k] as int == last_pos(b, k),
                    output@ == probe_by_this(a, b, i as int),
                decreases n1 - i,
            {
                let key = self.idx_this.values[i];
                match lookup.get(&key) {
                    Some(j) => {
                        output.push(IndexJoinPair { this_idx: i, other_idx: *j });
                    },
                    None => {},
                }
                i = i + 1;
                assert(output@ =~= probe_by_this(a, b, i as int));
            }
        }
        output
    }

    /// Hash left join: every position of `this`, with the position of its key in `other`.
    pub fn get_left_hash_joined_indicies(&self) -> (r: Vec<IndexJoinPotentiallyUnmatchedPair>)
        ensures
            !self.hashes_agree() ==> r@ == hash_left(self.this_keys(), self.other_keys()),
            r@ == hash_left(self.this_keys(), self.other_keys()) || r@ == identity_left_pairs(
                self.this_keys().len() as int,
            ),
    {
        if self.index_is_same() {
            return self.identity_left_join();
        }
        let ghost a = self.this_keys();
        let ghost b = self.other_keys();
        let n1 = self.idx_this.len();
        let lookup = self.gen_base_lookup(self.idx_other);
        let mut output: Vec<IndexJoinPotentiallyUnmatchedPair> = Vec::new();
        let mut i: usize = 0;
        while i < n1
            invariant
                n1 == a.len(),
                a == self.this_keys(),
                b == self.other_keys(),
                0 <= i <= n1,
                forall|k: i64| #[trigger] lookup@.contains_key(k) <==> last_pos(b, k) >= 0,
                forall|k: i64|
                    lookup@.contains_key(k) ==> #[trigger] lookup@[k] as int == last_pos(b, k),
                output@ == hash_left(a, b).subrange(0, i as int),
            decreases n1 - i,
        {
            let key = self.idx_this.values[i];
            match lookup.get(&key) {
                Some(j) => {
                    output.push(IndexJoinPotentiallyUnmatchedPair { this_idx: i, other_idx: Some(*j) });
                },
                None => {
                    output.push(IndexJoinPotentiallyUnmatchedPair { this_idx: i, other_idx: None });
                },
            }
            i = i + 1;
            assert(output@ =~= hash_left(a, b).subrange(0, i as int));
        }
        assert(output@ =~= hash_left(a, b));
        output
    }
}

} // verus!
