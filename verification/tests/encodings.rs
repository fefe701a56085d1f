//! CoverageJSON and GeoJSON values.

use ogc_edr::double::Double;
use ogc_edr::edr::covjson::{domain_type, encode_values, slice_cell};
use ogc_edr::edr::result::{ParamValues, ResultSet};
use ogc_edr::json::Json;
use ogc_edr::names::NameMap;

fn double(v: f64) -> Double {
    Double::from_bits(v.to_bits())
}

fn some(values: &[f64]) -> Vec<Option<Double>> {
    values.iter().map(|v| Some(double(*v))).collect()
}

fn result() -> ResultSet {
    let mut params = NameMap::new();
    params.insert(
        "2m_temperature".to_string(),
        ParamValues {
            axis_names: vec!["t", "y", "x"],
            shape: vec![2, 1, 2],
            values: vec![
                Some(double(280.0)),
                None,
                Some(double(281.0)),
                Some(double(282.0)),
            ],
        },
    );
    ResultSet {
        x: vec![double(0.0), double(0.25)],
        y: vec![double(51.5)],
        z: Vec::new(),
        t: vec![0, 3_600_000_000],
        cells: None,
        params,
    }
}

#[test]
fn domain_type_follows_the_result_shape() {
    assert_eq!(domain_type(1, 1, 0, 1), "Point");
    assert_eq!(domain_type(1, 1, 0, 24), "PointSeries");
    assert_eq!(domain_type(1, 1, 37, 1), "VerticalProfile");
    assert_eq!(domain_type(1, 1, 37, 24), "Grid");
    assert_eq!(domain_type(10, 10, 0, 1), "Grid");
}

#[test]
fn slicing_a_cell_keeps_the_time_series() {
    // 2 times x 2 lats x 2 lons, surface variable.
    let values = ParamValues {
        axis_names: vec!["t", "y", "x"],
        shape: vec![2, 2, 2],
        values: (0..8).map(|i| Some(double(i as f64))).collect(),
    };
    let cell = slice_cell(&values, 1, 0);
    assert_eq!(cell.shape, vec![2, 1, 1]);
    assert_eq!(cell.axis_names, vec!["t", "y", "x"]);
    // (t=0,y=1,x=0) is index 2; (t=1,y=1,x=0) is index 6.
    assert_eq!(cell.values, some(&[2.0, 6.0]));
}

#[test]
fn slicing_keeps_the_vertical_axis() {
    // 1 time x 3 levels x 1 lat x 2 lons.
    let values = ParamValues {
        axis_names: vec!["t", "z", "y", "x"],
        shape: vec![1, 3, 1, 2],
        values: (0..6).map(|i| Some(double(i as f64))).collect(),
    };
    let cell = slice_cell(&values, 0, 1);
    assert_eq!(cell.shape, vec![1, 3, 1, 1]);
    assert_eq!(cell.values, some(&[1.0, 3.0, 5.0]));
}

#[test]
fn missing_values_encode_as_null() {
    let values = ParamValues {
        axis_names: vec!["t", "y", "x"],
        shape: vec![1, 1, 2],
        values: vec![Some(double(1.5)), None],
    };
    let encoded = encode_values(&values.values);
    assert!(matches!(encoded[0], Json::Number(v) if v == double(1.5)));
    assert!(matches!(encoded[1], Json::Null));
}

#[test]
fn rows_are_walked_in_time_then_space_order() {
    let result = result();
    let rows = result.rows();
    assert_eq!(rows.len(), 4, "2 times x 1 latitude x 2 longitudes");
    assert_eq!((rows[0].t, rows[0].x), (0, double(0.0)));
    assert_eq!((rows[1].t, rows[1].x), (0, double(0.25)));
    assert_eq!((rows[2].t, rows[2].x), (3_600_000_000, double(0.0)));
    assert_eq!(rows[0].values, some(&[280.0]));
    assert_eq!(rows[1].values, vec![None]);
}

#[test]
fn a_surface_parameter_repeats_down_the_vertical_axis() {
    let mut result = result();
    result.z = vec![double(500.0), double(850.0)];
    let rows = result.rows();
    // 2 times x 2 levels x 2 cells.
    assert_eq!(rows.len(), 8);
    assert_eq!(rows[0].z, Some(double(500.0)));
    assert_eq!(rows[2].z, Some(double(850.0)));
    // The same reading stands at both levels, rather than going missing.
    assert_eq!(rows[0].values, rows[2].values);
}

#[test]
fn rows_stop_where_they_are_told_to() {
    let result = result();
    assert_eq!(result.rows_up_to(3).len(), 3);
    assert_eq!(result.rows_up_to(9).len(), 4);
    assert_eq!(result.parameter_names(), ["2m_temperature"]);
    assert!(!result.is_empty());
}

#[test]
fn only_the_cells_that_were_asked_for_are_walked() {
    let mut result = result();
    result.cells = Some(vec![(0, 1)]);
    let rows = result.rows();
    assert_eq!(rows.len(), 2);
    assert!(rows.iter().all(|r| r.x == double(0.25)));
}

#[test]
fn a_result_without_values_is_empty() {
    let mut result = result();
    for entry in &mut result.params.entries {
        entry.1.values = vec![None; 4];
    }
    assert!(result.is_empty());
}
