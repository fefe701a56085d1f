//! What a store's metadata is turned into.

use ogc_edr::store::{
    axis_len, axis_sql, classify, coord_units, describe, envelope_attributes, numeric_axis,
    parameters, registration_sql, sanitize_json, table_name, time_axis, zattrs_document, CoordMeta,
    FieldType, StoreAttrs, VariableMeta,
};

fn coord(name: &str, cf_time: bool, len: usize) -> CoordMeta {
    CoordMeta { name: name.to_string(), cf_time, column: Some(FieldType::Other), len }
}

fn variable(name: &str, dimensions: Option<&[&str]>, rank: usize, column: FieldType) -> VariableMeta {
    VariableMeta {
        name: name.to_string(),
        dimensions: dimensions.map(|d| d.iter().map(|s| s.to_string()).collect()),
        rank,
        column: Some(column),
    }
}

fn instant(micros: i64) -> String {
    chrono::DateTime::from_timestamp_micros(micros).unwrap().to_rfc3339()
}

#[test]
fn json_sanitiser_replaces_non_standard_literals() {
    let raw = r#"{"a": NaN, "b": Infinity, "c": -Infinity, "d": 1}"#;
    let v: serde_json::Value = serde_json::from_str(&sanitize_json(raw)).unwrap();
    assert!(v["a"].is_null() && v["b"].is_null() && v["c"].is_null());
    assert_eq!(v["d"], 1);
}

#[test]
fn validity_window_prefers_the_later_stop() {
    let attrs = StoreAttrs::separate(
        Some(
            r#"{"valid_time_start":"1940-01-01","valid_time_stop":"2026-04-30",
                "valid_time_stop_era5t":"2026-08-26"}"#
                .to_string(),
        ),
        &Vec::new(),
    );
    let (start, stop) = attrs.validity_window().unwrap();
    assert_eq!(instant(start), "1940-01-01T00:00:00+00:00");
    // The stop date is inclusive: its last instant, not its midnight.
    assert_eq!(instant(stop), "2026-08-26T23:59:59.999999+00:00");
}

#[test]
fn a_window_needs_both_of_its_ends() {
    let root = |s: &str| StoreAttrs::separate(Some(s.to_string()), &Vec::new()).validity_window();
    assert!(root(r#"{"valid_time_start":"1940-01-01"}"#).is_none());
    assert!(root(r#"{"valid_time_stop":"1940-01-01"}"#).is_none());
    assert!(root(r#"{"valid_time_start":"soon","valid_time_stop":"1940-01-01"}"#).is_none());
    assert!(root(r#"{"valid_time_start":1,"valid_time_stop":"1940-01-01"}"#).is_none());
    assert!(root("[]").is_none());
    assert!(StoreAttrs::none().validity_window().is_none());
    let (_, stop) =
        root(r#"{"valid_time_start":"1940-01-01","valid_time_stop_era5t":"1940-01-02"}"#).unwrap();
    assert_eq!(instant(stop), "1940-01-02T23:59:59.999999+00:00");
}

#[test]
fn consolidated_metadata_gives_the_attributes_of_every_array() {
    let attrs = StoreAttrs::consolidated(
        r#"{"metadata": {".zattrs": {"valid_time_start": "2024-01-01"},
            "t2m/.zattrs": {"units": "K", "missing": NaN, "long_name": "2 metre"},
            "t2m/.zarray": {"units": "ignored"}}}"#,
    )
    .unwrap();
    assert_eq!(attrs.units("t2m").as_deref(), Some("K"));
    assert_eq!(attrs.string("t2m", "long_name").as_deref(), Some("2 metre"));
    assert_eq!(attrs.string("t2m", "missing"), None);
    assert_eq!(attrs.units("other"), None);
    let described = describe(&attrs, "t2m");
    assert_eq!(described.long_name.as_deref(), Some("2 metre"));
    assert_eq!(described.units.as_deref(), Some("K"));
}

#[test]
fn metadata_that_is_no_document_is_reported() {
    let error = StoreAttrs::consolidated("{").unwrap_err();
    assert!(error.starts_with("Malformed .zmetadata: "), "{error}");
    let error = StoreAttrs::consolidated("{}").unwrap_err();
    assert_eq!(error, "'.zmetadata' has no 'metadata' object");
}

#[test]
fn attributes_come_from_either_version_of_a_store() {
    assert_eq!(zattrs_document(r#"{"a": NaN}"#).as_deref(), Some(r#"{"a": null}"#));
    assert_eq!(zattrs_document("nonsense"), None);
    assert_eq!(
        envelope_attributes(r#"{"zarr_format": 3, "attributes": {"units": "K"}}"#).as_deref(),
        Some(r#"{"units": "K"}"#)
    );
    assert_eq!(envelope_attributes("{}"), None);
}

#[test]
fn coordinates_are_classified_by_units_then_by_name() {
    let coords = vec![
        coord("valid", true, 4),
        coord("lvl", false, 3),
        coord("north", false, 5),
        coord("lon", false, 8),
    ];
    let attrs = StoreAttrs::separate(
        None,
        &vec![("north".to_string(), r#"{"units": "Degrees_North"}"#.to_string())],
    );
    let names = classify("s", &coords, &coord_units(&attrs, &coords)).unwrap();
    assert_eq!(names.x, "lon");
    assert_eq!(names.y, "north");
    assert_eq!(names.z.as_deref(), Some("lvl"));
    assert_eq!(names.t, "valid");
    assert_eq!(axis_len(&coords, "north"), 5);
    assert_eq!(axis_len(&coords, "absent"), 0);
}

#[test]
fn a_store_without_the_axes_is_refused() {
    let coords = vec![coord("a", false, 1), coord("b", false, 1)];
    let error = classify("s", &coords, &vec![String::new(), String::new()]).unwrap_err();
    assert_eq!(
        error.description(),
        "'s' has no recognisable x/y/time coordinates (found: a, b)"
    );
    assert_eq!(error.status(), 500);
}

#[test]
fn a_time_column_is_known_by_its_type() {
    let coords = vec![
        CoordMeta {
            name: "step".to_string(),
            cf_time: false,
            column: Some(FieldType::Dictionary(Box::new(FieldType::Timestamp))),
            len: 2,
        },
        coord("y", false, 1),
        coord("x", false, 1),
    ];
    let blank = vec![String::new(), String::new(), String::new()];
    let names = classify("s", &coords, &blank).unwrap();
    assert_eq!(names.t, "step");
    assert_eq!(names.z, None);
}

#[test]
fn parameters_say_whether_they_vary_with_height() {
    let vars = vec![
        variable("t", Some(&["time", "level", "y", "x"]), 4, FieldType::Other),
        variable("s", Some(&["time", "y", "x"]), 3, FieldType::Int32),
        variable("u", None, 4, FieldType::Other),
        variable("v", None, 3, FieldType::Other),
    ];
    let z = Some("level".to_string());
    let found = parameters(&vars, &None, &StoreAttrs::none(), &z, 4);
    let uses: Vec<(String, bool)> =
        found.entries.iter().map(|(n, p)| (n.clone(), p.uses_z)).collect();
    assert_eq!(
        uses,
        [
            ("s".to_string(), false),
            ("t".to_string(), true),
            ("u".to_string(), true),
            ("v".to_string(), false),
        ]
    );
    assert_eq!(found.get("s").unwrap().cov_data_type, "integer");
    assert_eq!(found.get("t").unwrap().cov_data_type, "float");
    assert_eq!(found.get("t").unwrap().label, "t");

    let only = Some(vec!["v".to_string(), "absent".to_string()]);
    let few = parameters(&vars, &only, &StoreAttrs::none(), &z, 4);
    assert_eq!(few.len(), 1);
    let flat = parameters(&vars, &None, &StoreAttrs::none(), &None, 4);
    assert!(flat.entries.iter().all(|(_, p)| !p.uses_z));
}

#[test]
fn a_store_is_registered_under_a_quoted_name() {
    assert_eq!(table_name("era5-model-level"), "era5_model_level");
    assert_eq!(
        registration_sql("era5_x", "/data/it's.zarr"),
        "CREATE EXTERNAL TABLE \"era5_x\" STORED AS ZARR LOCATION '/data/it''s.zarr'"
    );
    assert_eq!(axis_sql("t", "level", 37), "SELECT \"level\" FROM \"t\" LIMIT 37");
    assert_eq!(axis_sql("t", "level", 0), "SELECT \"level\" FROM \"t\" LIMIT 1");
}

#[test]
fn an_axis_that_reads_back_empty_is_an_error() {
    assert_eq!(
        numeric_axis("level", Vec::new()).unwrap_err().description(),
        "Axis 'level' read back empty"
    );
    assert_eq!(
        time_axis("time", Vec::new()).unwrap_err().description(),
        "Time axis 'time' read back empty"
    );
    assert_eq!(time_axis("time", vec![5]).unwrap().values, vec![5]);
}
