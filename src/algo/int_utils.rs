//! Roll-prior and roll-following comparators for the as-of merge on integer keys.
//!
//! A comparator looks at the key of `this` series, the key of the `other` series under
//! the merge cursor (none once that series is used up), and the key at the roll target
//! (the prior or the following position of the cursor). It answers with an ordering,
//! which drives the cursors, and an offset: 0 records the cursor, anything else the
//! roll target.
use std::cmp::Ordering;
use vstd::prelude::*;

verus! {

/// Roll to prior. `other` is the key under the merge cursor (none once the other series
/// is used up) and `other_prior` the key at the prior position. An exact match with
/// `other` is taken as is; a cursor key below `this` asks the merge to move on in the
/// other series; otherwise `this` matches `other_prior` when it lies in
/// `[other_prior, other_prior + look_back]`, and nothing else.
pub open spec fn prior_rule(this: int, other: Option<int>, other_prior: int, look_back: int) -> (
    Ordering,
    int,
) {
    if other == Some(this) {
        (Ordering::Equal, 0)
    } else if other matches Some(o) && o < this {
        (Ordering::Greater, 0)
    } else if other_prior <= this && this - other_prior <= look_back {
        (Ordering::Equal, -1)
    } else {
        (Ordering::Less, 0)
    }
}

/// Roll following. `other` is the key under the merge cursor (none once the other series
/// is used up) and `other_peak` the key at the following position. Of the two, the
/// nearer one within `[this, this + look_fwd]` is taken (the cursor key on a tie), offset
/// 0 for `other` and 1 for `other_peak`. Where neither lies there, a cursor key below
/// `this` asks the merge to move on in the other series, and anything else is no match.
pub open spec fn fwd_rule(this: int, other: Option<int>, other_peak: int, look_fwd: int) -> (
    Ordering,
    int,
) {
    let in_other = other matches Some(o) && this <= o <= this + look_fwd;
    let in_peak = this <= other_peak <= this + look_fwd;
    if other == Some(this) {
        (Ordering::Equal, 0)
    } else if in_other && (!in_peak || other.unwrap() <= other_peak) {
        (Ordering::Equal, 0)
    } else if in_peak {
        (Ordering::Equal, 1)
    } else if other matches Some(o) && o < this {
        (Ordering::Greater, 0)
    } else {
        (Ordering::Less, 0)
    }
}

/// An `i64` key as an integer, if any.
pub open spec fn opt_int(k: Option<i64>) -> Option<int> {
    match k {
        Some(x) => Some(x as int),
        None => None,
    }
}

/// A roll policy for the as-of merge, with its tolerance.
#[derive(Clone, Copy, Debug, PartialEq, Eq)]
pub enum AsofComparator {
    /// Look back at most `look_back` from the prior key.
    Prior { look_back: i64 },
    /// Look ahead at most `look_fwd` to the current or following key.
    Fwd { look_fwd: i64 },
}

impl AsofComparator {
    /// What `compare` answers.
    pub open spec fn spec_compare(&self, this: i64, other: Option<i64>, target: i64) -> (Ordering, int) {
        match *self {
            AsofComparator::Prior { look_back } => prior_rule(
                this as int,
                opt_int(other),
                target as int,
                look_back as int,
            ),
            AsofComparator::Fwd { look_fwd } => fwd_rule(
                this as int,
                opt_int(other),
                target as int,
                look_fwd as int,
            ),
        }
    }

    /// Compares `this` with the key `other` under the merge cursor (none past the end of
    /// the other series), given the key `target` at the roll target. A match other than
    /// an exact one always lies within the tolerance.
    pub fn compare(&self, this: i64, other: Option<i64>, target: i64) -> (r: (Ordering, i64))
        ensures
            (r.0, r.1 as int) == self.spec_compare(this, other, target),
            r.0 == Ordering::Equal && other != Some(this) ==> match *self {
                AsofComparator::Prior { look_back } => r.1 == -1 && target <= this && this - target <= look_back,
                AsofComparator::Fwd { look_fwd } => (r.1 == 0 && other.is_some() && this <= other.unwrap() && other.unwrap() - this <= look_fwd)
                    || (r.1 == 1 && this <= target && target - this <= look_fwd),
            },
    {
        match *self {
            AsofComparator::Prior { look_back } => merge_asof_prior_impl(
                this,
                other,
                target,
                look_back,
            ),
            AsofComparator::Fwd { look_fwd } => merge_asof_fwd_impl(this, other, target, look_fwd),
        }
    }
}

fn merge_asof_prior_impl(this: i64, other: Option<i64>, other_prior: i64, look_back: i64) -> (r: (
    Ordering,
    i64,
))
    ensures
        (r.0, r.1 as int) == prior_rule(this as int, opt_int(other), other_prior as int, look_back as int),
{
    let behind = match other {
        Some(o) => o < this,
        None => false,
    };
    if other == Some(this) {
        (Ordering::Equal, 0)
    } else if behind {
        (Ordering::Greater, 0)
    } else if other_prior <= this && (this as i128 - other_prior as i128) <= look_back as i128 {
        (Ordering::Equal, -1)
    } else {
        (Ordering::Less, 0)
    }
}

fn merge_asof_fwd_impl(this: i64, other: Option<i64>, other_peak: i64, look_fwd: i64) -> (r: (
    Ordering,
    i64,
))
    ensures
        (r.0, r.1 as int) == fwd_rule(this as int, opt_int(other), other_peak as int, look_fwd as int),
{
    let hi: i128 = this as i128 + look_fwd as i128;
    let in_peak = this <= other_peak && (other_peak as i128) <= hi;
    let (in_other, nearer, behind) = match other {
        Some(o) => (this <= o && (o as i128) <= hi, o <= other_peak, o < this),
        None => (false, false, false),
    };
    if other == Some(this) {
        (Ordering::Equal, 0)
    } else if in_other && (!in_peak || nearer) {
        (Ordering::Equal, 0)
    } else if in_peak {
        (Ordering::Equal, 1)
    } else if behind {
        (Ordering::Greater, 0)
    } else {
        (Ordering::Less, 0)
    }
}

/// The roll-to-prior comparator with tolerance `look_back`.
pub fn merge_asof_prior(look_back: i64) -> (r: AsofComparator)
    ensures
        r == (AsofComparator::Prior { look_back }),
{
    AsofComparator::Prior { look_back }
}

/// The roll-following comparator with tolerance `look_fwd`.
pub fn merge_asof_fwd(look_fwd: i64) -> (r: AsofComparator)
    ensures
        r == (AsofComparator::Fwd { look_fwd }),
{
    AsofComparator::Fwd { look_fwd }
}

} // verus!
