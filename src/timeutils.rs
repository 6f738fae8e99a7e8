//! Rounding of millisecond stamps to a multiple of a duration, for bucketing.
use vstd::prelude::*;

verus! {

/// The remainder of `t` modulo `size`, in `[0, size)`.
pub fn modulo(t: i64, size: i64) -> (r: i64)
    requires
        size > 0,
    ensures
        r == t % size,
        0 <= r < size,
{
    match t.checked_rem_euclid(size) {
        Some(m) => m,
        None => 0,
    }
}

/// Rounds a stamp up to the next multiple of `sample_size`; a stamp already on a
/// multiple moves a whole `sample_size` on.
pub fn round_up_to_nearest_duration(timestamp: &i64, sample_size: &i64) -> (r: i64)
    requires
        *sample_size > 0,
        *timestamp - *timestamp % *sample_size + *sample_size <= i64::MAX,
    ensures
        r == *timestamp - *timestamp % *sample_size + *sample_size,
{
    let mod_ticks = modulo(*timestamp, *sample_size);
    let delta = *sample_size - mod_ticks;
    *timestamp + delta
}

/// Rounds a stamp down to a multiple of `sample_size`.
pub fn round_down_to_nearest_duration(timestamp: &i64, sample_size: &i64) -> (r: i64)
    requires
        *sample_size > 0,
        *timestamp - *timestamp % *sample_size >= i64::MIN,
    ensures
        r == *timestamp - *timestamp % *sample_size,
{
    let mod_ticks = modulo(*timestamp, *sample_size);
    *timestamp - mod_ticks
}

/// Rounds a stamp to the nearer multiple of `sample_size`; halfway goes down.
pub fn round_nearest_to_nearest_duration(timestamp: &i64, sample_size: &i64) -> (r: i64)
    requires
        *sample_size > 0,
        *timestamp - *timestamp % *sample_size >= i64::MIN,
        *timestamp - *timestamp % *sample_size + *sample_size <= i64::MAX,
    ensures
        r == *timestamp - *timestamp % *sample_size + if *timestamp % *sample_size > *sample_size / 2 {
            *sample_size as int
        } else {
            0
        },
{
    let mod_ticks = modulo(*timestamp, *sample_size);
    let offset = if mod_ticks > *sample_size / 2 {
        *sample_size
    } else {
        0
    };
    *timestamp - mod_ticks + offset
}

} // verus!
