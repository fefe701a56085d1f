//! Index selections, predicates and the SQL they become.

use ogc_edr::axis::{NumericAxis, TimeAxis};
use ogc_edr::catalog::quote_ident;
use ogc_edr::cells::{distinct, order_by, CellSet};
use ogc_edr::double::Double;
use ogc_edr::edr::query::{
    format_number, format_time, hull_len, settle_time, summarise, thin, Selection,
};
use ogc_edr::edr::region::from_cells;
use ogc_edr::edr::scan::{
    between_times, bounding_predicate, spatial_predicates, time_predicate, AxisPredicate,
    AxisSelection,
};

fn double(v: f64) -> Double {
    Double::from_bits(v.to_bits())
}

fn float(v: Double) -> f64 {
    f64::from_bits(v.to_bits())
}

fn lat() -> NumericAxis {
    NumericAxis::new((0..721).map(|i| double(90.0 - i as f64 * 0.25)).collect())
}

fn lon() -> NumericAxis {
    NumericAxis::new((0..1440).map(|i| double(i as f64 * 0.25)).collect())
}

fn fixed(axis: &NumericAxis) -> Vec<String> {
    axis.values.iter().map(|v| format!("{:.10}", float(*v))).collect()
}

fn format_f64(v: f64) -> String {
    format_number(&format!("{v:.10}"))
}

fn render(axes: &[(&str, &NumericAxis, &[usize])]) -> Vec<String> {
    let texts: Vec<Vec<String>> = axes.iter().map(|a| fixed(a.1)).collect();
    let indices: Vec<Vec<usize>> = axes.iter().map(|a| a.2.to_vec()).collect();
    let selections = axes
        .iter()
        .enumerate()
        .map(|(i, a)| AxisSelection {
            name: a.0,
            axis: a.1,
            texts: &texts[i],
            indices: &indices[i],
        })
        .collect();
    spatial_predicates(&selections)
}

#[test]
fn thinning_keeps_both_ends() {
    assert_eq!(thin((0..10).collect(), 3), vec![0, 4, 9]);
    assert_eq!(thin((0..10).collect(), 20), (0..10).collect::<Vec<_>>());
    assert_eq!(thin((0..10).collect(), 1), vec![0]);
    assert_eq!(thin(vec![], 5), Vec::<usize>::new());
}

#[test]
fn floats_never_use_exponent_notation() {
    assert_eq!(format_f64(0.25), "0.25");
    assert_eq!(format_f64(-0.0000000001), "-0.0000000001");
    assert_eq!(format_f64(1e-12), "0");
    assert_eq!(format_f64(360.0), "360");
}

#[test]
fn times_are_selected_as_an_instant_or_a_range() {
    let axis = TimeAxis::new((0..10).map(|i| i * 3_600_000_000).collect());
    assert_eq!(
        time_predicate("time", &vec![2], &axis),
        "\"time\" = '1970-01-01T02:00:00'"
    );
    assert_eq!(
        time_predicate("time", &vec![2, 3, 4], &axis),
        "\"time\" BETWEEN '1970-01-01T02:00:00' AND '1970-01-01T04:00:00'"
    );
}

#[test]
fn scattered_cells_produce_a_mask_but_a_full_rectangle_does_not() {
    let s = from_cells(vec![(0, 0), (1, 1)]);
    assert_eq!((s.x_idx, s.y_idx), (vec![0, 1], vec![0, 1]));
    assert_eq!(s.mask.unwrap().len(), 2);

    let s = from_cells(vec![(0, 0), (0, 1), (1, 0), (1, 1)]);
    assert!(s.mask.is_none(), "a full rectangle needs no mask");
}

#[test]
fn a_repeated_cell_does_not_pass_for_a_rectangle() {
    // Two rows, two columns and four cells, but one of them twice.
    let s = from_cells(vec![(0, 0), (1, 1), (0, 1), (0, 0)]);
    let mask = s.mask.expect("three of the four cells were asked for");
    assert_eq!(mask.len(), 3);
    assert!(mask.contains((0, 1)) && !mask.contains((1, 0)));
}

#[test]
fn a_single_index_becomes_an_equality() {
    assert_eq!(bounding_predicate(&lat(), &vec![152]), AxisPredicate::Eq(double(52.0)));
}

#[test]
fn a_run_becomes_a_range_in_either_index_direction() {
    let axis = lat();
    // Ordering a north-to-south axis by value yields descending indices.
    assert_eq!(
        bounding_predicate(&axis, &vec![152, 153, 154]),
        AxisPredicate::Between(double(51.5), double(52.0))
    );
    assert_eq!(
        bounding_predicate(&axis, &vec![154, 153, 152]),
        AxisPredicate::Between(double(51.5), double(52.0))
    );
}

#[test]
fn a_scattered_selection_is_widened_never_listed() {
    // A box across the prime meridian takes cells from both ends of the
    // axis; the predicate spans them rather than listing them.
    let axis = lon();
    let rendered = render(&[("longitude", &axis, &[0, 1, 1438, 1439])]);
    assert_eq!(rendered, vec!["\"longitude\" BETWEEN 0 AND 359.75"]);
    assert!(!rendered[0].contains(" IN ("));
}

#[test]
fn every_axis_is_constrained_contiguously() {
    let (lat_axis, lon_axis) = (lat(), lon());
    let rendered = render(&[
        ("latitude", &lat_axis, &[100, 110, 120]),
        ("longitude", &lon_axis, &[0, 1, 1439]),
    ]);
    assert_eq!(rendered[0], "\"latitude\" BETWEEN 60 AND 65");
    assert_eq!(rendered[1], "\"longitude\" BETWEEN 0 AND 359.75");
}

#[test]
fn the_scan_estimate_counts_the_widened_range() {
    let selection = Selection {
        // Two cells at opposite ends of the axis span everything between.
        x_idx: vec![0, 1439],
        y_idx: vec![100, 101],
        z_idx: Vec::new(),
        t_idx: vec![0],
        mask: None,
    };
    assert_eq!(selection.value_count(), 4);
    assert_eq!(selection.scan_row_count(), 1440 * 2);
}

#[test]
fn a_masked_selection_counts_its_cells() {
    let selection = Selection {
        x_idx: vec![0, 1],
        y_idx: vec![0, 1],
        z_idx: vec![0, 1, 2],
        t_idx: vec![0, 1],
        mask: Some(CellSet::of(&vec![(0, 0), (1, 1), (0, 0)])),
    };
    assert_eq!(selection.value_count(), 2 * 2 * 3);
    assert_eq!(selection.scan_row_count(), 2 * 2 * 3 * 2);
    assert!(!selection.is_empty());
}

#[test]
fn identifiers_are_quoted_for_names_that_start_with_a_digit() {
    assert_eq!(quote_ident("2m_temperature"), "\"2m_temperature\"");
    assert_eq!(quote_ident("a\"b"), "\"a\"\"b\"");
}

#[test]
fn different_names_are_quoted_differently() {
    let names = ["a", "a\"", "\"a", "a\"\"", "", "\""];
    for (i, a) in names.iter().enumerate() {
        for b in &names[i + 1..] {
            assert_ne!(quote_ident(a), quote_ident(b));
        }
    }
}

#[test]
fn sets_of_indices_are_ordered() {
    assert_eq!(distinct(&vec![3, 1, 3, 2]), vec![1, 2, 3]);
    let keys: Vec<Double> = [0.0, 45.0, -90.0, -45.0].iter().map(|v| double(*v)).collect();
    assert_eq!(order_by(&vec![0, 1, 2, 3], &keys), vec![2, 3, 0, 1]);
    assert_eq!(hull_len(&vec![9, 4, 6]), 6);
    assert_eq!(hull_len(&Vec::new()), 0);
}

#[test]
fn long_lists_of_levels_are_cut_short() {
    let few: Vec<String> = vec!["500.0000000000".to_string(), "850.5000000000".to_string()];
    assert_eq!(summarise(&few), "500, 850.5");
    let many: Vec<String> = (1..=10).map(|i| format!("{:.10}", i as f64)).collect();
    assert_eq!(summarise(&many), "1, 2, 3, 4, 5, 6, 7, 8, … (10 in total)");
}

#[test]
fn times_are_written_in_utc() {
    assert_eq!(format_time(0), "1970-01-01T00:00:00Z");
    assert_eq!(format_time(1_704_067_200_000_000), "2024-01-01T00:00:00Z");
    assert_eq!(format_time(i64::MAX), "unknown");
    assert_eq!(settle_time(None), "unknown");
    assert_eq!(settle_time(Some("noon".to_string())), "noon");
    assert_eq!(between_times("t", "a", "b", false), "\"t\" BETWEEN 'a' AND 'b'");
    assert_eq!(between_times("t", "a", "a", true), "\"t\" = 'a'");
}
