use tsxlib::index::{HashableIndex, SampleableIndex};

#[test]
fn test_increasing() {
    let values = vec![1, 2, 3, 4, 3];
    let index = HashableIndex::from_int_stamps(values);
    assert_eq!(index.len(), 5);
}

#[test]
fn test_monotonic_empty() {
    let index = HashableIndex::new(vec![]);
    assert!(index.is_monotonic());
}

#[test]
fn test_monotonic_singleton() {
    let index = HashableIndex::from_int_stamps(vec![1]);
    assert!(index.is_monotonic());
}

#[test]
fn test_sample_rate_info() {
    let index = HashableIndex::new(vec![0, 5, 10, 15, 20, 25, 75]);
    let exp: Vec<(usize, i128)> = vec![(5, 5), (1, 50)];
    assert_eq!(index.sample_rates(), exp);
}

#[test]
fn test_monosampled_test() {
    let index = HashableIndex::new(vec![0, 5, 10, 15, 20, 25, 75]);
    let index_mono = HashableIndex::new(vec![0, 5, 10, 15, 20, 25]);
    assert_eq!(index.is_mono_intervaled(), false);
    assert_eq!(index_mono.is_mono_intervaled(), true);
}

#[test]
fn monotonic_rejects_repeat_and_drop() {
    assert!(HashableIndex::new(vec![1, 2, 3, 4]).is_monotonic());
    assert!(!HashableIndex::new(vec![1, 2, 3, 3]).is_monotonic());
    assert!(!HashableIndex::new(vec![1, 2, 3, 2]).is_monotonic());
}

#[test]
fn uniqueness_check() {
    assert!(HashableIndex::new(vec![3, 1, 2]).is_unique());
    assert!(!HashableIndex::new(vec![3, 1, 3]).is_unique());
    assert!(HashableIndex::new(vec![]).is_unique());
}

#[test]
fn from_int_stamps_scales_to_millis() {
    let index = HashableIndex::from_int_stamps(vec![1, -2]);
    assert_eq!(index.values, vec![1000, -2000]);
}

#[test]
fn last_and_empty() {
    let index = HashableIndex::new(vec![4, 9]);
    assert_eq!(index.last(), Some(&9));
    assert!(!index.is_empty());
    let empty = HashableIndex::new(vec![]);
    assert_eq!(empty.last(), None);
    assert!(empty.is_empty());
}

#[test]
fn sample_rates_ties_rank_longer_interval_first() {
    // intervals 1, 3, 1, 3, 2
    let index = HashableIndex::new(vec![0, 1, 4, 5, 8, 10]);
    let exp: Vec<(usize, i128)> = vec![(2, 3), (2, 1), (1, 2)];
    assert_eq!(index.sample_rates(), exp);
}

#[test]
fn sample_rates_of_short_indices() {
    assert_eq!(HashableIndex::new(vec![]).sample_rates(), Vec::<(usize, i128)>::new());
    assert_eq!(HashableIndex::new(vec![7]).sample_rates(), Vec::<(usize, i128)>::new());
    assert!(!HashableIndex::new(vec![7]).is_mono_intervaled());
}

#[test]
fn sample_rates_extreme_keys_do_not_overflow() {
    let index = HashableIndex::new(vec![i64::MIN, i64::MAX]);
    let exp: Vec<(usize, i128)> = vec![(1, (i64::MAX as i128) - (i64::MIN as i128))];
    assert_eq!(index.sample_rates(), exp);
}
