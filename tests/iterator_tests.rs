use tsxlib::data_elements::TimeSeriesDataPoint;
use tsxlib::timeseries::TimeSeries;

fn minutes(i: i64) -> i64 {
    60 * i * 1000
}

fn five_points() -> TimeSeries<f64> {
    let values = vec![1.0, 2.0, 3.0, 4.0, 5.0];
    let index = (0..values.len()).map(|i| minutes(i as i64)).collect();
    TimeSeries::from_vecs(index, values).unwrap()
}

fn ones() -> TimeSeries<f64> {
    let values = vec![1.0, 1.0, 1.0, 1.0, 1.0];
    let index = (0..values.len()).map(|i| minutes(i as i64)).collect();
    TimeSeries::from_vecs(index, values).unwrap()
}

#[test]
fn test_lag() {
    let ts = five_points();
    let tslag: TimeSeries<f64> = ts.shift(-1).collect_from_unchecked_iter();
    let data = vec![
        TimeSeriesDataPoint::new(minutes(1), 1.0),
        TimeSeriesDataPoint::new(minutes(2), 2.0),
        TimeSeriesDataPoint::new(minutes(3), 3.0),
        TimeSeriesDataPoint::new(minutes(4), 4.0),
    ];
    let tsexp = TimeSeries::from_tsdatapoints(data).unwrap();
    assert_eq!(tsexp, tslag);
}

#[test]
fn test_out_of_range_lag() {
    let ts = five_points();
    let tslag: TimeSeries<f64> = ts.shift(5).collect_from_unchecked_iter();
    assert_eq!(tslag.len(), 0);
}

#[test]
fn test_rollfwd() {
    let ts = five_points();
    let tslag: TimeSeries<f64> = ts.shift(1).collect_from_unchecked_iter();
    let data = vec![
        TimeSeriesDataPoint::new(minutes(0), 2.0),
        TimeSeriesDataPoint::new(minutes(1), 3.0),
        TimeSeriesDataPoint::new(minutes(2), 4.0),
        TimeSeriesDataPoint::new(minutes(3), 5.0),
    ];
    let tsexp = TimeSeries::from_tsdatapoints(data).unwrap();
    assert_eq!(tsexp, tslag);
}

#[test]
fn shift_extremes_are_empty() {
    let ts = five_points();
    assert_eq!(ts.shift(isize::MIN).collect_from_unchecked_iter().len(), 0);
    assert_eq!(ts.shift(isize::MAX).collect_from_unchecked_iter().len(), 0);
    assert_eq!(ts.shift(0).collect_from_unchecked_iter(), ts);
}

#[test]
fn test_rolling() {
    let ts = ones();
    fn roll_func(buffer: &Vec<f64>) -> f64 {
        buffer.iter().sum()
    }
    let tsrolled: TimeSeries<f64> = ts.apply_rolling(2, roll_func).collect_from_unchecked_iter();
    let data = vec![
        TimeSeriesDataPoint::new(minutes(1), 2.0),
        TimeSeriesDataPoint::new(minutes(2), 2.0),
        TimeSeriesDataPoint::new(minutes(3), 2.0),
        TimeSeriesDataPoint::new(minutes(4), 2.0),
    ];
    let tsexp = TimeSeries::from_tsdatapoints(data).unwrap();
    assert_eq!(tsexp, tsrolled);
}

#[test]
fn rolling_sees_the_window_ending_at_each_position() {
    let ts = five_points();
    let r = ts.apply_rolling(2, |b: &Vec<f64>| (b.len(), b[0], b[1])).collect_from_unchecked_iter();
    assert_eq!(r.values, vec![(2, 1.0, 2.0), (2, 2.0, 3.0), (2, 3.0, 4.0), (2, 4.0, 5.0)]);
}

#[test]
fn rolling_sums_of_distinct_values() {
    let ts = five_points();
    let r = ts.apply_rolling(3, |b: &Vec<f64>| b.iter().sum::<f64>()).collect_from_unchecked_iter();
    assert_eq!(r.values, vec![6.0, 9.0, 12.0]);
    assert_eq!(r.timeindicies.values, vec![minutes(2), minutes(3), minutes(4)]);
    assert_eq!(ts.apply_rolling(6, |b: &Vec<f64>| b.len()).collect_from_unchecked_iter().len(), 0);
}

#[test]
fn test_rolling_with_update() {
    let ts = ones();
    fn update(prior: Option<f64>, next: &f64) -> Option<f64> {
        let v = match prior.is_some() {
            true => prior.unwrap(),
            false => 0.0,
        };
        Some(v + next)
    }
    fn decrement(next: Option<f64>, prior: &f64) -> Option<f64> {
        let v = match next.is_some() {
            true => next.unwrap(),
            false => 0.0,
        };
        Some(v - prior)
    }
    let tsrolled: TimeSeries<f64> = ts.apply_updating_rolling(2, update, decrement).collect_from_unchecked_iter();
    let data = vec![
        TimeSeriesDataPoint::new(minutes(1), 2.0),
        TimeSeriesDataPoint::new(minutes(2), 2.0),
        TimeSeriesDataPoint::new(minutes(3), 2.0),
        TimeSeriesDataPoint::new(minutes(4), 2.0),
    ];
    let tsexp = TimeSeries::from_tsdatapoints(data).unwrap();
    assert_eq!(tsexp, tsrolled);
}

#[test]
fn updating_rolling_sums_and_skips_undefined() {
    let ts = five_points();
    let up = |a: Option<f64>, v: &f64| Some(a.unwrap_or(0.0) + v);
    let down = |a: Option<f64>, v: &f64| a.map(|x| x - v);
    let sums = ts.apply_updating_rolling(2, up, down).collect_from_unchecked_iter();
    assert_eq!(sums.values, vec![3.0, 5.0, 7.0, 9.0]);
    let keep_small = |a: Option<f64>, v: &f64| a.map(|x| x - v).filter(|x| *x < 6.0);
    let r2 = ts.apply_updating_rolling(2, up, keep_small).collect_from_unchecked_iter();
    // the accumulator at minute 3 is undefined and left out; the next one restarts
    assert_eq!(r2.values, vec![3.0, 5.0, 2.0]);
    assert_eq!(r2.timeindicies.values, vec![minutes(1), minutes(2), minutes(4)]);
}

#[test]
fn test_skip() {
    let ts = five_points();
    fn change_func(prior: &f64, curr: &f64) -> f64 {
        curr - prior
    }
    let ts_skipped: TimeSeries<f64> = ts.skip_apply(1, change_func).collect_from_unchecked_iter();
    let data = vec![
        TimeSeriesDataPoint::new(minutes(1), 1.0),
        TimeSeriesDataPoint::new(minutes(2), 1.0),
        TimeSeriesDataPoint::new(minutes(3), 1.0),
        TimeSeriesDataPoint::new(minutes(4), 1.0),
    ];
    let tsexp = TimeSeries::from_tsdatapoints(data).unwrap();
    assert_eq!(tsexp, ts_skipped);
}

#[test]
fn test_skip_2span() {
    let ts = five_points();
    fn change_func(prior: &f64, curr: &f64) -> f64 {
        curr - prior
    }
    let ts_skipped: TimeSeries<f64> = ts.skip_apply(2, change_func).collect_from_unchecked_iter();
    let data = vec![
        TimeSeriesDataPoint::new(minutes(2), 2.0),
        TimeSeriesDataPoint::new(minutes(4), 2.0),
    ];
    let tsexp = TimeSeries::from_tsdatapoints(data).unwrap();
    assert_eq!(tsexp, ts_skipped);
}

#[test]
fn updating_rolling_sum_matches_rescan_on_integers() {
    let ts = TimeSeries::from_vecs(vec![0, 1, 2, 3, 4, 5], vec![3i64, -1, 4, 1, -5, 9]).unwrap();
    let up = |a: Option<i128>, x: &i64| Some(a.unwrap_or(0) + *x as i128);
    let down = |a: Option<i128>, x: &i64| Some(a.unwrap_or(0) - *x as i128);
    let rescan = |b: &Vec<i64>| b.iter().map(|x| *x as i128).sum::<i128>();
    for w in 1..=6 {
        let updating = ts.apply_updating_rolling(w, up, down).collect_from_unchecked_iter();
        let full = ts.apply_rolling(w, rescan).collect_from_unchecked_iter();
        assert_eq!(updating, full);
    }
    let r = ts.apply_updating_rolling(3, up, down).collect_from_unchecked_iter();
    assert_eq!(r.values, vec![6, 4, 0, 5]);
}

#[test]
fn updating_rolling_collect_mid_way() {
    let ts = TimeSeries::from_vecs(vec![0, 1, 2, 3], vec![1i64, 2, 3, 4]).unwrap();
    let up = |a: Option<i128>, x: &i64| Some(a.unwrap_or(0) + *x as i128);
    let down = |a: Option<i128>, x: &i64| Some(a.unwrap_or(0) - *x as i128);
    let mut it = ts.apply_updating_rolling(2, up, down);
    assert_eq!(it.next().unwrap().value, 3);
    let rest = it.collect_from_unchecked_iter();
    assert_eq!(rest.values, vec![5, 7]);
    assert_eq!(rest.timeindicies.values, vec![2, 3]);
}
