use chrono::NaiveDate;
use tsxlib::algo::int_utils;
use tsxlib::data_elements::TimeSeriesDataPoint;
use tsxlib::index::HashableIndex;
use tsxlib::timeseries::{MergeAsofMode, SeriesError, TimeSeries};
use tsxlib::timeutils;

fn minutes(i: i64) -> i64 {
    60 * i * 1000
}

fn secs(i: i64) -> i64 {
    i * 1000
}

fn keep(a: &f64, b: Option<&f64>) -> (f64, Option<f64>) {
    (*a, b.copied())
}

#[test]
fn test_tuple_join() {
    let values: Vec<f64> = vec![1.0, 2.0, 3.0, 4.0, 5.0];
    let index: Vec<i64> = (0..values.len()).map(|i| i as i64).collect();
    let values2: Vec<f64> = values.iter().map(|x| x * 2.0).collect();
    let values3: Vec<f64> = values.iter().map(|x| x * 3.0).collect();
    let values4: Vec<f64> = values.iter().map(|x| x * 4.0).collect();
    let ts = TimeSeries::from_vecs(index.clone(), values).unwrap();
    let ts1 = TimeSeries::from_vecs(index.clone(), values2).unwrap();
    let ts2 = TimeSeries::from_vecs(index.clone(), values3).unwrap();
    let ts3 = TimeSeries::from_vecs(index, values4).unwrap();
    let tsres = ts
        .cross_apply_inner(&ts1, |x, y| (*x, *y))
        .cross_apply_inner(&ts2, |x, y| (x.0, x.1, *y))
        .cross_apply_inner(&ts3, |x, y| (x.0, x.1, x.2, *y));
    let expected = vec![
        TimeSeriesDataPoint { timestamp: 0, value: (1.00, 2.00, 3.00, 4.00) },
        TimeSeriesDataPoint { timestamp: 1, value: (2.00, 4.00, 6.00, 8.00) },
        TimeSeriesDataPoint { timestamp: 2, value: (3.00, 6.00, 9.00, 12.00) },
        TimeSeriesDataPoint { timestamp: 3, value: (4.00, 8.00, 12.00, 16.00) },
        TimeSeriesDataPoint { timestamp: 4, value: (5.00, 10.00, 15.00, 20.00) },
    ];
    let ts_expected = TimeSeries::from_tsdatapoints(expected).unwrap();
    assert_eq!(ts_expected, tsres)
}

#[test]
fn test_construction() {
    let values = vec![1.0, 2.0, 3.0, 4.0, 5.0];
    let index = (0..values.len()).map(|i| secs(i as i64)).collect();
    let ts = TimeSeries::from_vecs(index, values).unwrap();
    assert_eq!(ts.len(), 5);
}

#[test]
fn test_between() {
    let values = vec![1.0, 2.0, 3.0, 4.0, 5.0];
    let index = (0..values.len()).map(|i| minutes(i as i64)).collect();
    let ts = TimeSeries::from_vecs(index, values).unwrap();
    let tsres = ts.between(minutes(2), minutes(4));
    assert_eq!(tsres.len(), 3);
}

#[test]
fn test_new_different_lengths() {
    let values = vec![1.0, 2.0, 3.0];
    let index = vec![1, 2, 3, 4, 5];
    let ts = TimeSeries::from_vecs(index.iter().map(|x| secs(*x)).collect(), values);
    let result = ts.map(|_| ());
    let expected = Err(SeriesError::LengthMismatch);
    assert_eq!(result, expected);
}

#[test]
fn test_data_conversion() {
    let data = vec![
        TimeSeriesDataPoint::from_int_stamp(1, 1.0),
        TimeSeriesDataPoint::from_int_stamp(2, 2.0),
        TimeSeriesDataPoint::from_int_stamp(3, 3.0),
        TimeSeriesDataPoint::from_int_stamp(4, 4.0),
        TimeSeriesDataPoint::from_int_stamp(5, 5.0),
    ];
    let ts = TimeSeries::from_tsdatapoints(data);
    assert_eq!(ts.unwrap().len(), 5);
}

#[test]
fn test_from_malformed_and_unchecked() {
    let data = vec![
        TimeSeriesDataPoint::from_int_stamp(1, 1.0),
        TimeSeriesDataPoint::from_int_stamp(2, 2.0),
        TimeSeriesDataPoint::from_int_stamp(3, 3.0),
        TimeSeriesDataPoint::from_int_stamp(4, 4.0),
        TimeSeriesDataPoint::from_int_stamp(0, 5.0),
    ];
    let ts1: TimeSeries<f64> = TimeSeries::from_tsdatapoints_unchecked(data);
    let ts_order_enforced: TimeSeries<f64> = ts1.into_ordered_iter().collect_from_unchecked_iter();
    let ts_raw_iter: TimeSeries<f64> = ts1.into_iter().collect_from_unchecked_iter();
    assert_eq!(ts_order_enforced.len(), 4);
    assert_eq!(ts_raw_iter.len(), 5);
}

#[test]
fn test_from_data_increasing() {
    let data = vec![
        TimeSeriesDataPoint::from_int_stamp(1, 1.0),
        TimeSeriesDataPoint::from_int_stamp(2, 2.0),
        TimeSeriesDataPoint::from_int_stamp(3, 3.0),
        TimeSeriesDataPoint::from_int_stamp(4, 4.0),
        TimeSeriesDataPoint::from_int_stamp(3, 5.0),
    ];
    let ts = TimeSeries::from_tsdatapoints(data);
    assert_eq!(ts.is_err(), true);
}

#[test]
fn test_apply() {
    let values = vec![1.0, 2.5, 4.0];
    let expected_values = vec![2.0, 5.0, 8.0];
    let index = (0..values.len()).map(|i| secs(i as i64)).collect();
    let index_expected = (0..values.len()).map(|i| secs(i as i64)).collect();
    let ts = TimeSeries::from_vecs(index, values).unwrap();
    let ts_expected = TimeSeries::from_vecs(index_expected, expected_values).unwrap();
    let ts_out: TimeSeries<f64> = ts.map(|v| 2.0 * v);
    assert_eq!(ts_out, ts_expected);
}

#[test]
fn test_resample() {
    let data = vec![
        TimeSeriesDataPoint::new(minutes(1), 2.0),
        TimeSeriesDataPoint::new(minutes(2), 2.0),
        TimeSeriesDataPoint::new(minutes(3), 5.0),
        TimeSeriesDataPoint::new(minutes(16), 99.0),
    ];
    let tsin = TimeSeries::from_tsdatapoints(data).unwrap();
    let ts_rounded_up = tsin.resample_and_agg(
        minutes(15),
        |dt, dur| timeutils::round_up_to_nearest_duration(dt, dur),
        |x| x[x.len() - 1].value,
    );
    let expected = vec![
        TimeSeriesDataPoint::new(minutes(15), 5.0),
        TimeSeriesDataPoint::new(minutes(30), 99.0),
    ];
    let ts_expected = TimeSeries::from_tsdatapoints(expected).unwrap();
    assert_eq!(ts_rounded_up, ts_expected);
}

#[test]
fn test_interweave() {
    let data1 = vec![
        TimeSeriesDataPoint::from_int_stamp(1, 1.0),
        TimeSeriesDataPoint::from_int_stamp(2, 2.0),
        TimeSeriesDataPoint::from_int_stamp(3, 3.0),
        TimeSeriesDataPoint::from_int_stamp(4, 4.0),
        TimeSeriesDataPoint::from_int_stamp(5, 5.0),
    ];
    let data2 = vec![
        TimeSeriesDataPoint::from_int_stamp(4, 6.0),
        TimeSeriesDataPoint::from_int_stamp(5, 7.0),
        TimeSeriesDataPoint::from_int_stamp(6, 8.0),
        TimeSeriesDataPoint::from_int_stamp(7, 9.0),
        TimeSeriesDataPoint::from_int_stamp(8, 10.0),
    ];
    let expected = vec![
        TimeSeriesDataPoint::from_int_stamp(1, 1.0),
        TimeSeriesDataPoint::from_int_stamp(2, 2.0),
        TimeSeriesDataPoint::from_int_stamp(3, 3.0),
        TimeSeriesDataPoint::from_int_stamp(4, 4.0),
        TimeSeriesDataPoint::from_int_stamp(5, 5.0),
        TimeSeriesDataPoint::from_int_stamp(6, 8.0),
        TimeSeriesDataPoint::from_int_stamp(7, 9.0),
        TimeSeriesDataPoint::from_int_stamp(8, 10.0),
    ];
    let ts1 = TimeSeries::from_tsdatapoints(data1).unwrap();
    let ts2 = TimeSeries::from_tsdatapoints(data2).unwrap();
    let ts_expected = TimeSeries::from_tsdatapoints(expected).unwrap();
    let ts_merged = ts1.interweave(&ts2, |left, _right| left);
    assert_eq!(ts_merged, ts_expected);
}

fn asof_points(keys: &[i64], vals: &[(f64, Option<f64>)]) -> TimeSeries<(f64, Option<f64>)> {
    let pts = keys.iter().zip(vals.iter()).map(|(k, v)| TimeSeriesDataPoint { timestamp: *k, value: *v }).collect();
    TimeSeries::from_tsdatapoints(pts).unwrap()
}

#[test]
fn test_merge_asof_lookingback() {
    let values = vec![1.0, 1.0, 1.0, 1.0, 1.0, 1.0, 1.0, 1.0, 1.0, 1.0];
    let index = vec![1, 2, 3, 4, 5, 6, 7, 8, 9, 10];
    let ts = TimeSeries::from_vecs(index.clone(), values).unwrap();
    let values2 = vec![1.0, 2.0, 3.0, 4.0, 5.0, 6.0];
    let index2 = vec![2, 4, 5, 7, 8, 10];
    let ts_join = TimeSeries::from_vecs(index2, values2).unwrap();
    let joinedasof = ts.merge_apply_asof(&ts_join, None, keep, MergeAsofMode::NoRoll);
    let joinedasof_custom = ts.merge_apply_asof(&ts_join, Some(int_utils::merge_asof_prior(1)), keep, MergeAsofMode::RollPrior);
    let joinedasof_custom2 = ts.merge_apply_asof(&ts_join, Some(int_utils::merge_asof_prior(2)), keep, MergeAsofMode::RollPrior);
    let expected1 = vec![
        (1.00, None), (1.00, Some(1.00)), (1.00, None), (1.00, Some(2.00)), (1.00, Some(3.00)),
        (1.00, None), (1.00, Some(4.00)), (1.00, Some(5.00)), (1.00, None), (1.00, Some(6.00)),
    ];
    let expected2 = vec![
        (1.00, None), (1.00, Some(1.00)), (1.00, Some(1.00)), (1.00, Some(2.00)), (1.00, Some(3.00)),
        (1.00, Some(3.00)), (1.00, Some(4.00)), (1.00, Some(5.00)), (1.00, Some(5.00)), (1.00, Some(6.00)),
    ];
    let expected3 = expected2.clone();
    assert_eq!(joinedasof, asof_points(&index, &expected1));
    assert_eq!(joinedasof_custom, asof_points(&index, &expected2));
    assert_eq!(joinedasof_custom2, asof_points(&index, &expected3));
}

#[test]
fn test_merge_asof_lookingforward() {
    let values = vec![1.0, 1.0, 1.0, 1.0, 1.0, 1.0, 1.0, 1.0, 1.0, 1.0];
    let index = vec![1, 2, 3, 4, 5, 6, 7, 8, 9, 10];
    let ts = TimeSeries::from_vecs(index.clone(), values).unwrap();
    let values2 = vec![1.0, 2.0, 3.0, 4.0, 5.0];
    let index2 = vec![2, 5, 6, 8, 10];
    let ts_join = TimeSeries::from_vecs(index2, values2).unwrap();
    let joinedasof = ts.merge_apply_asof(&ts_join, None, keep, MergeAsofMode::NoRoll);
    let joinedasof_custom = ts.merge_apply_asof(&ts_join, Some(int_utils::merge_asof_fwd(1)), keep, MergeAsofMode::RollFollowing);
    let joinedasof_custom2 = ts.merge_apply_asof(&ts_join, Some(int_utils::merge_asof_fwd(2)), keep, MergeAsofMode::RollFollowing);
    let expected1 = vec![
        (1.00, None), (1.00, Some(1.00)), (1.00, None), (1.00, None), (1.00, Some(2.00)),
        (1.00, Some(3.00)), (1.00, None), (1.00, Some(4.00)), (1.00, None), (1.00, Some(5.00)),
    ];
    let expected2 = vec![
        (1.00, Some(1.00)), (1.00, Some(1.00)), (1.00, None), (1.00, Some(2.00)), (1.00, Some(2.00)),
        (1.00, Some(3.00)), (1.00, Some(4.00)), (1.00, Some(4.00)), (1.00, Some(5.00)), (1.00, Some(5.00)),
    ];
    let expected3 = vec![
        (1.00, Some(1.00)), (1.00, Some(1.00)), (1.00, Some(2.00)), (1.00, Some(2.00)), (1.00, Some(2.00)),
        (1.00, Some(3.00)), (1.00, Some(4.00)), (1.00, Some(4.00)), (1.00, Some(5.00)), (1.00, Some(5.00)),
    ];
    assert_eq!(joinedasof, asof_points(&index, &expected1));
    assert_eq!(joinedasof_custom, asof_points(&index, &expected2));
    assert_eq!(joinedasof_custom2, asof_points(&index, &expected3));
}

#[test]
fn test_naivedatetime_merge_asof_lookingback() {
    let values = vec![1.0, 1.0, 1.0, 1.0, 1.0, 1.0, 1.0, 1.0, 1.0, 1.0];
    let index: Vec<i64> = vec![1, 2, 3, 4, 5, 6, 7, 8, 9, 10].iter().map(|x| secs(*x)).collect();
    let ts = TimeSeries::from_vecs(index.clone(), values).unwrap();
    let values2 = vec![1.0, 2.0, 3.0, 4.0, 5.0, 6.0];
    let index2: Vec<i64> = vec![2, 4, 5, 7, 8, 10].iter().map(|x| secs(*x)).collect();
    let ts_join = TimeSeries::from_vecs(index2, values2).unwrap();
    let joinedasof = ts.merge_apply_asof(&ts_join, None, keep, MergeAsofMode::NoRoll);
    let joinedasof_custom = ts.merge_apply_asof(&ts_join, Some(int_utils::merge_asof_prior(secs(1))), keep, MergeAsofMode::RollPrior);
    let joinedasof_custom2 = ts.merge_apply_asof(&ts_join, Some(int_utils::merge_asof_prior(secs(2))), keep, MergeAsofMode::RollPrior);
    let expected1 = vec![
        (1.00, None), (1.00, Some(1.00)), (1.00, None), (1.00, Some(2.00)), (1.00, Some(3.00)),
        (1.00, None), (1.00, Some(4.00)), (1.00, Some(5.00)), (1.00, None), (1.00, Some(6.00)),
    ];
    let expected2 = vec![
        (1.00, None), (1.00, Some(1.00)), (1.00, Some(1.00)), (1.00, Some(2.00)), (1.00, Some(3.00)),
        (1.00, Some(3.00)), (1.00, Some(4.00)), (1.00, Some(5.00)), (1.00, Some(5.00)), (1.00, Some(6.00)),
    ];
    let expected3 = expected2.clone();
    assert_eq!(joinedasof, asof_points(&index, &expected1));
    assert_eq!(joinedasof_custom, asof_points(&index, &expected2));
    assert_eq!(joinedasof_custom2, asof_points(&index, &expected3));
}

#[test]
fn test_naivedatetime_merge_asof_lookingforward() {
    let values = vec![1.0, 1.0, 1.0, 1.0, 1.0, 1.0, 1.0, 1.0, 1.0, 1.0];
    let index: Vec<i64> = vec![1, 2, 3, 4, 5, 6, 7, 8, 9, 10].iter().map(|x| secs(*x)).collect();
    let ts = TimeSeries::from_vecs(index.clone(), values).unwrap();
    let values2 = vec![1.0, 2.0, 3.0, 4.0, 5.0];
    let index2: Vec<i64> = vec![2, 5, 6, 8, 10].iter().map(|x| secs(*x)).collect();
    let ts_join = TimeSeries::from_vecs(index2, values2).unwrap();
    let joinedasof = ts.merge_apply_asof(&ts_join, None, keep, MergeAsofMode::NoRoll);
    let joinedasof_custom = ts.merge_apply_asof(&ts_join, Some(int_utils::merge_asof_fwd(secs(1))), keep, MergeAsofMode::RollFollowing);
    let joinedasof_custom2 = ts.merge_apply_asof(&ts_join, Some(int_utils::merge_asof_fwd(secs(2))), keep, MergeAsofMode::RollFollowing);
    let expected1 = vec![
        (1.00, None), (1.00, Some(1.00)), (1.00, None), (1.00, None), (1.00, Some(2.00)),
        (1.00, Some(3.00)), (1.00, None), (1.00, Some(4.00)), (1.00, None), (1.00, Some(5.00)),
    ];
    let expected2 = vec![
        (1.00, Some(1.00)), (1.00, Some(1.00)), (1.00, None), (1.00, Some(2.00)), (1.00, Some(2.00)),
        (1.00, Some(3.00)), (1.00, Some(4.00)), (1.00, Some(4.00)), (1.00, Some(5.00)), (1.00, Some(5.00)),
    ];
    let expected3 = vec![
        (1.00, Some(1.00)), (1.00, Some(1.00)), (1.00, Some(2.00)), (1.00, Some(2.00)), (1.00, Some(2.00)),
        (1.00, Some(3.00)), (1.00, Some(4.00)), (1.00, Some(4.00)), (1.00, Some(5.00)), (1.00, Some(5.00)),
    ];
    assert_eq!(joinedasof, asof_points(&index, &expected1));
    assert_eq!(joinedasof_custom, asof_points(&index, &expected2));
    assert_eq!(joinedasof_custom2, asof_points(&index, &expected3));
}

#[test]
fn test_left_join() {
    let values: Vec<f64> = vec![1.0, 2.0, 3.0, 4.0, 5.0];
    let values2: Vec<f64> = vec![1.0, 2.0, 4.0];
    let index: Vec<i64> = (0..values.len()).map(|i| i as i64).collect();
    let index2: Vec<i64> = (0..values2.len()).map(|i| i as i64).collect();
    let ts = TimeSeries::from_vecs(index, values).unwrap();
    let ts1 = TimeSeries::from_vecs(index2, values2).unwrap();
    let tsres = ts.cross_apply_left(&ts1, |a, b| (*a, match b { Some(v) => Some(*v), _ => None }));
    let expected = vec![
        TimeSeriesDataPoint { timestamp: 0, value: (1.00, Some(1.00)) },
        TimeSeriesDataPoint { timestamp: 1, value: (2.00, Some(2.00)) },
        TimeSeriesDataPoint { timestamp: 2, value: (3.00, Some(4.0)) },
        TimeSeriesDataPoint { timestamp: 3, value: (4.00, None) },
        TimeSeriesDataPoint { timestamp: 4, value: (5.00, None) },
    ];
    let ts_expected = TimeSeries::from_tsdatapoints(expected).unwrap();
    assert_eq!(ts_expected, tsres)
}

#[test]
fn inner_join_scenario() {
    let a = TimeSeries::from_vecs(vec![0, 1, 2, 3, 4], vec![1.0, 2.0, 3.0, 4.0, 5.0]).unwrap();
    let b = TimeSeries::from_vecs(vec![0, 1, 2], vec![1.0, 2.0, 4.0]).unwrap();
    let r = a.cross_apply_inner(&b, |x, y| (*x, *y));
    let expected = TimeSeries::from_vecs(vec![0, 1, 2], vec![(1.0, 1.0), (2.0, 2.0), (3.0, 4.0)]).unwrap();
    assert_eq!(r, expected);
}

#[test]
fn validation_errors_by_kind() {
    assert_eq!(TimeSeries::from_vecs(vec![1, 1], vec![0.0, 0.0]), Err(SeriesError::NotUnique));
    assert_eq!(TimeSeries::from_vecs(vec![2, 1], vec![0.0, 0.0]), Err(SeriesError::NotMonotonic));
    assert_eq!(TimeSeries::from_vecs(vec![1, 2], vec![0.0]), Err(SeriesError::LengthMismatch));
    let empty: TimeSeries<f64> = TimeSeries::empty();
    assert!(empty.is_empty());
    assert_eq!(TimeSeries::from_vecs(vec![], Vec::<f64>::new()), Ok(empty));
}

#[test]
fn minimal_checks_only_lengths() {
    let ok = TimeSeries::from_vecs_minimal_checks(HashableIndex::new(vec![3, 1]), vec![1, 2]);
    assert!(ok.is_ok());
    let bad = TimeSeries::from_vecs_minimal_checks(HashableIndex::new(vec![3, 1]), vec![1]);
    assert_eq!(bad, Err(SeriesError::LengthMismatch));
}

#[test]
fn from_points_sorts_by_key() {
    let data = vec![
        TimeSeriesDataPoint::new(30, 'c'),
        TimeSeriesDataPoint::new(10, 'a'),
        TimeSeriesDataPoint::new(20, 'b'),
    ];
    let ts = TimeSeries::from_tsdatapoints(data).unwrap();
    assert_eq!(ts.timeindicies.values, vec![10, 20, 30]);
    assert_eq!(ts.values, vec!['a', 'b', 'c']);
}

#[test]
fn ordered_iteration_poisoning() {
    let ts = TimeSeries::from_vecs_unchecked(HashableIndex::new(vec![1, 2, 3, 4, 0, 5]), vec![1, 2, 3, 4, 5, 6]);
    let ordered = ts.into_ordered_iter().collect_from_unchecked_iter();
    let raw = ts.into_iter().collect_from_unchecked_iter();
    assert_eq!(ordered.len(), 4);
    assert_eq!(ordered.values, vec![1, 2, 3, 4]);
    assert_eq!(raw.len(), 6);
    let mut it = ts.into_ordered_iter();
    for _ in 0..4 {
        assert!(it.next().is_some());
    }
    assert!(it.next().is_none());
    assert!(it.next().is_none());
}

#[test]
fn ordered_collect_reproduces_valid_series() {
    let ts = TimeSeries::from_vecs(vec![1, 5, 9], vec![2.5, 3.5, 4.5]).unwrap();
    let again = ts.into_ordered_iter().collect_from_unchecked_iter();
    assert_eq!(again, ts);
}

#[test]
fn reference_iterators() {
    let ts = TimeSeries::from_vecs_unchecked(HashableIndex::new(vec![1, 0]), vec![7, 8]);
    let mut it = ts.iter();
    let first = it.next().unwrap();
    assert_eq!((*first.timestamp, *first.value), (1, 7));
    assert!(it.next().is_some());
    assert!(it.next().is_none());
    let mut ord = ts.ordered_iter();
    assert!(ord.next().is_some());
    assert!(ord.next().is_none());
}

#[test]
fn lookups() {
    let ts = TimeSeries::from_vecs(vec![10, 20, 30], vec!['a', 'b', 'c']).unwrap();
    assert_eq!(ts.at(20), Some('b'));
    assert_eq!(ts.at(25), None);
    assert_eq!(ts.at_or_first_prior(25), Some('b'));
    assert_eq!(ts.at_or_first_prior(30), Some('c'));
    assert_eq!(ts.at_or_first_prior(5), None);
    assert_eq!(ts.at_or_first_prior(31), None);
    assert_eq!(ts.at_idx_of(2), Some(TimeSeriesDataPoint::new(30, 'c')));
    assert_eq!(ts.at_idx_of(3), None);
}

#[test]
fn between_scans_until_end() {
    let ts = TimeSeries::from_vecs(vec![1, 2, 3, 4, 5], vec![1, 2, 3, 4, 5]).unwrap();
    let r = ts.between(2, 4);
    assert_eq!(r.values, vec![2, 3, 4]);
    assert_eq!(ts.between(6, 9).len(), 0);
}

#[test]
fn map_with_date_sees_keys() {
    let ts = TimeSeries::from_vecs(vec![1, 2], vec![10, 20]).unwrap();
    let r = ts.map_with_date(|k, v| k + v);
    assert_eq!(r.values, vec![11, 22]);
    assert_eq!(r.timeindicies.values, vec![1, 2]);
}

#[test]
fn interweave_tie_break_picks_right() {
    let a = TimeSeries::from_vecs(vec![1, 3], vec![1, 3]).unwrap();
    let b = TimeSeries::from_vecs(vec![2, 3], vec![20, 30]).unwrap();
    let r = a.interweave(&b, |_l, r| r);
    assert_eq!(r.timeindicies.values, vec![1, 2, 3]);
    assert_eq!(r.values, vec![1, 20, 30]);
}

#[test]
fn resample_last_of_each_bucket_down() {
    let ts = TimeSeries::from_vecs(vec![0, 4, 5, 9, 10], vec![1, 2, 3, 4, 5]).unwrap();
    let r = ts.resample_and_agg(5i64, |t, s| timeutils::round_down_to_nearest_duration(t, s), |g| g.len());
    assert_eq!(r.timeindicies.values, vec![0, 5, 10]);
    assert_eq!(r.values, vec![2, 2, 1]);
}

#[test]
fn test_rounding_up() {
    let date1 = NaiveDate::from_ymd_opt(2010, 12, 10).unwrap().and_hms_milli_opt(12, 34, 56, 789).unwrap().and_utc().timestamp_millis();
    let dur = 60 * 1000;
    let rounded = timeutils::round_up_to_nearest_duration(&date1, &dur);
    let exp1 = NaiveDate::from_ymd_opt(2010, 12, 10).unwrap().and_hms_milli_opt(12, 35, 0, 0).unwrap().and_utc().timestamp_millis();
    assert_eq!(rounded, exp1);
    let dur2 = 15 * 60 * 1000;
    let rounded2 = timeutils::round_up_to_nearest_duration(&date1, &dur2);
    let exp2 = NaiveDate::from_ymd_opt(2010, 12, 10).unwrap().and_hms_milli_opt(12, 45, 0, 0).unwrap().and_utc().timestamp_millis();
    assert_eq!(rounded2, exp2);
}

#[test]
fn test_rounding_down() {
    let date1 = NaiveDate::from_ymd_opt(2010, 12, 10).unwrap().and_hms_milli_opt(12, 34, 56, 789).unwrap().and_utc().timestamp_millis();
    let dur = 60 * 1000;
    let rounded = timeutils::round_down_to_nearest_duration(&date1, &dur);
    let exp1 = NaiveDate::from_ymd_opt(2010, 12, 10).unwrap().and_hms_milli_opt(12, 34, 0, 0).unwrap().and_utc().timestamp_millis();
    assert_eq!(rounded, exp1);
    let dur2 = 15 * 60 * 1000;
    let rounded2 = timeutils::round_down_to_nearest_duration(&date1, &dur2);
    let exp2 = NaiveDate::from_ymd_opt(2010, 12, 10).unwrap().and_hms_milli_opt(12, 30, 0, 0).unwrap().and_utc().timestamp_millis();
    assert_eq!(rounded2, exp2);
}

#[test]
fn test_rounding_nearest() {
    let date1 = NaiveDate::from_ymd_opt(2010, 12, 10).unwrap().and_hms_milli_opt(12, 34, 30, 789).unwrap().and_utc().timestamp_millis();
    let dur = 60 * 1000;
    let rounded = timeutils::round_nearest_to_nearest_duration(&date1, &dur);
    let exp1 = NaiveDate::from_ymd_opt(2010, 12, 10).unwrap().and_hms_milli_opt(12, 35, 0, 0).unwrap().and_utc().timestamp_millis();
    assert_eq!(rounded, exp1);
    let dur2 = 15 * 60 * 1000;
    let rounded2 = timeutils::round_nearest_to_nearest_duration(&date1, &dur2);
    let exp2 = NaiveDate::from_ymd_opt(2010, 12, 10).unwrap().and_hms_milli_opt(12, 30, 0, 0).unwrap().and_utc().timestamp_millis();
    assert_eq!(rounded2, exp2);
}

#[test]
fn rounding_negative_stamps() {
    assert_eq!(timeutils::round_down_to_nearest_duration(&-7, &5), -10);
    assert_eq!(timeutils::round_up_to_nearest_duration(&-7, &5), -5);
    assert_eq!(timeutils::round_up_to_nearest_duration(&10, &5), 15);
    assert_eq!(timeutils::round_nearest_to_nearest_duration(&-7, &5), -5);
    assert_eq!(timeutils::modulo(-7, 5), 3);
}

#[test]
fn merge_asof_scenarios_within_tolerance() {
    let ts = TimeSeries::from_vecs(vec![3], vec![1.0]).unwrap();
    let fwd_other = TimeSeries::from_vecs(vec![2, 5], vec![20.0, 50.0]).unwrap();
    let r = ts.merge_apply_asof(&fwd_other, Some(int_utils::merge_asof_fwd(1)), keep, MergeAsofMode::RollFollowing);
    assert_eq!(r.values, vec![(1.0, None)]);
    let prior_other = TimeSeries::from_vecs(vec![2, 4], vec![20.0, 40.0]).unwrap();
    let r2 = ts.merge_apply_asof(&prior_other, Some(int_utils::merge_asof_prior(1)), keep, MergeAsofMode::RollPrior);
    assert_eq!(r2.values, vec![(1.0, Some(20.0))]);
}
