//! Coordinate axes: extents, snapping and ranges.

use ogc_edr::axis::{NumericAxis, Spacing, TimeAxis};
use ogc_edr::double::Double;

fn double(v: f64) -> Double {
    Double::from_bits(v.to_bits())
}

fn float(v: Double) -> f64 {
    f64::from_bits(v.to_bits())
}

fn axis(values: impl IntoIterator<Item = f64>) -> NumericAxis {
    NumericAxis::new(values.into_iter().map(double).collect())
}

fn nearest(axis: &NumericAxis, target: f64) -> f64 {
    let distances: Vec<Double> =
        axis.values.iter().map(|v| double((float(*v) - target).abs())).collect();
    float(axis.values[axis.nearest_index(double(target), &distances)])
}

fn step(axis: &NumericAxis) -> Option<f64> {
    let v: Vec<f64> = axis.values.iter().map(|d| float(*d)).collect();
    let step = v[1] - v[0];
    let spacing = Spacing {
        step: double(step),
        tolerance: double(step.abs() * 1e-6),
        deviations: v.windows(2).map(|w| double(((w[1] - w[0]) - step).abs())).collect(),
    };
    axis.step(&spacing).map(float)
}

fn era5_lat() -> NumericAxis {
    // 90 .. -90 by 0.25, as ERA5 stores it.
    axis((0..721).map(|i| 90.0 - i as f64 * 0.25))
}

#[test]
fn descending_axis_reports_extent_and_step() {
    let lat = era5_lat();
    assert_eq!(float(lat.min()), -90.0);
    assert_eq!(float(lat.max()), 90.0);
    assert_eq!(step(&lat), Some(-0.25));
}

#[test]
fn nearest_index_snaps_on_a_descending_axis() {
    let lat = era5_lat();
    assert_eq!(nearest(&lat, 90.0), 90.0);
    assert_eq!(nearest(&lat, -90.0), -90.0);
    assert_eq!(nearest(&lat, 51.51), 51.5);
    assert_eq!(nearest(&lat, 51.4), 51.5);
    // Out of range clamps to the end of the axis.
    assert_eq!(nearest(&lat, 999.0), 90.0);
    assert_eq!(nearest(&lat, -999.0), -90.0);
}

#[test]
fn nearest_index_snaps_on_an_ascending_axis() {
    let lon = axis((0..1440).map(|i| i as f64 * 0.25));
    assert_eq!(nearest(&lon, 0.1), 0.0);
    assert_eq!(nearest(&lon, 0.2), 0.25);
    assert_eq!(nearest(&lon, 359.9), 359.75);
}

#[test]
fn range_selection_is_inclusive_and_in_storage_order() {
    let lat = era5_lat();
    let idx = lat.indices_in_range(double(50.0), double(51.0));
    let vals: Vec<f64> = idx.iter().map(|&i| float(lat.values[i])).collect();
    assert_eq!(vals, vec![51.0, 50.75, 50.5, 50.25, 50.0]);
    // The ends may come in either order.
    assert_eq!(lat.indices_in_range(double(51.0), double(50.0)), idx);
}

#[test]
fn irregular_axis_has_no_step() {
    // ERA5 pressure levels are not evenly spaced.
    let level = axis([1.0, 2.0, 3.0, 5.0, 7.0, 10.0]);
    assert_eq!(step(&level), None);
    assert_eq!(nearest(&level, 4.0), 3.0);
    assert_eq!(nearest(&level, 6.0), 5.0);
}

#[test]
fn time_range_is_inclusive_at_both_ends() {
    let t = TimeAxis::new((0..10).map(|i| i * 3_600_000_000).collect());
    assert_eq!(t.indices_in_range(0, 2 * 3_600_000_000), 0..3);
    assert_eq!(t.indices_in_range(-5, -1), 0..0);
    assert_eq!(t.nearest_index(3_500_000_000), 1);
}

#[test]
fn lookups_within_a_span_stay_in_it() {
    let t = TimeAxis::new(vec![0, 10, 20, 30]);
    assert_eq!(t.latest_in_range(0, 19), Some(1));
    assert_eq!(t.latest_in_range(11, 19), None);
    assert_eq!(t.nearest_in_range(0, 19, 18), Some(1));
    assert_eq!(t.nearest_in_range(5, 30, 5), Some(1));
    assert_eq!(t.nearest_in_range(0, 30, 15), Some(1));
    assert_eq!(t.nearest_in_range(0, 30, 16), Some(2));
    assert_eq!(t.nearest_in_range(11, 19, 15), None);
}

#[test]
fn a_time_axis_has_a_step_only_where_it_is_even() {
    let hourly = TimeAxis::new((0..4).map(|i| i * 3_600_000_000).collect());
    assert_eq!(hourly.step(), Some(3_600_000_000));
    assert_eq!(TimeAxis::new(vec![0, 1, 3]).step(), None);
    assert_eq!(TimeAxis::new(vec![3, 2, 1]).step(), None);
    assert_eq!(TimeAxis::new(vec![7]).step(), None);
    assert_eq!(TimeAxis::new(Vec::new()).len(), 0);
    assert!(TimeAxis::new(Vec::new()).is_empty());
}

#[test]
fn numbers_are_ordered_by_their_values() {
    assert!(double(-1.0).is_less(double(0.0)));
    assert!(double(-2.0).is_less(double(-1.0)));
    assert!(double(0.0).is_equal(double(-0.0)));
    assert!(!double(0.0).is_less(double(-0.0)));
    assert!(double(f64::MAX).is_less(double(f64::INFINITY)));
    assert!(!double(f64::NAN).is_less(double(1.0)));
    assert!(!double(f64::NAN).is_equal(double(f64::NAN)));
    assert!(double(f64::NAN).is_nan());
    assert!(!double(f64::NEG_INFINITY).is_finite());
    assert_eq!(double(f64::NAN).max(double(2.0)), double(2.0));
    assert_eq!(double(3.0).min(double(f64::NAN)), double(3.0));
}

#[test]
fn an_axis_of_one_value_snaps_to_it() {
    let single = axis([7.5]);
    assert_eq!(single.len(), 1);
    assert!(!single.is_empty());
    assert_eq!(nearest(&single, -1000.0), 7.5);
    assert_eq!(float(single.min()), 7.5);
}
