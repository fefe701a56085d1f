//! The query string: times, levels, boxes, radii and formats.

use ogc_edr::api::data;
use ogc_edr::double::Double;
use ogc_edr::edr::params::{
    parse_datetime, parse_instant, parse_z, settle_instant, z_numerals, BoundingBox, Format, Query,
    TemporalSelection, VerticalRequest, VerticalSelection,
};
use ogc_edr::error::{EdrError, EdrResult};
use ogc_edr::numerals::Numerals;

fn double(v: f64) -> Double {
    Double::from_bits(v.to_bits())
}

fn float(v: Double) -> f64 {
    f64::from_bits(v.to_bits())
}

fn micros(rfc3339: &str) -> i64 {
    chrono::DateTime::parse_from_rfc3339(rfc3339).unwrap().timestamp_micros()
}

fn query(pairs: &[(&str, &str)]) -> Query {
    Query::new(pairs.iter().map(|(k, v)| (k.to_string(), v.to_string())).collect())
}

fn numerals(texts: Vec<String>) -> Numerals {
    let mut out = Numerals::new();
    for text in texts {
        if let Ok(value) = text.parse::<f64>() {
            out.insert(text, double(value));
        }
    }
    out
}

fn z(raw: &str) -> EdrResult<VerticalSelection> {
    let request = parse_z(raw, &numerals(z_numerals(raw)))?;
    let rungs = match &request {
        VerticalRequest::Repeat { count, start, step } => {
            (0..*count).map(|i| double(float(*start) + i as f64 * float(*step))).collect()
        }
        _ => Vec::new(),
    };
    Ok(request.selection(rungs))
}

fn bbox(raw: &str) -> EdrResult<Option<BoundingBox>> {
    let q = query(&[("bbox", raw)]);
    q.bbox(&numerals(q.numerals()))
}

fn radius(within: &str, units: Option<&str>) -> EdrResult<f64> {
    let mut q = query(&[("within", within)]);
    if let Some(u) = units {
        q.insert("within-units", u.to_string());
    }
    let distance = q.radius_metres(&numerals(q.numerals()))?;
    Ok(float(distance.value) * float(distance.per_unit))
}

fn selection(pairs: &[(&str, &str)]) -> EdrResult<Option<TemporalSelection>> {
    query(pairs).datetime()
}

#[test]
fn parses_instants_intervals_and_open_ends() {
    assert_eq!(
        parse_datetime("2024-01-01T00:00:00Z").unwrap(),
        TemporalSelection::Instant(micros("2024-01-01T00:00:00Z"))
    );
    assert_eq!(
        parse_datetime("2024-01-01/2024-01-02").unwrap(),
        TemporalSelection::Interval(
            Some(micros("2024-01-01T00:00:00Z")),
            Some(micros("2024-01-02T00:00:00Z"))
        )
    );
    assert_eq!(
        parse_datetime("../2024-01-02T00:00:00Z").unwrap(),
        TemporalSelection::Interval(None, Some(micros("2024-01-02T00:00:00Z")))
    );
    assert_eq!(
        parse_datetime("2024-01-01T00:00:00Z/..").unwrap(),
        TemporalSelection::Interval(Some(micros("2024-01-01T00:00:00Z")), None)
    );
}

#[test]
fn rejects_backwards_and_fully_open_intervals() {
    assert!(parse_datetime("2024-01-02/2024-01-01").is_err());
    assert!(parse_datetime("../..").is_err());
    assert!(parse_datetime("yesterday").is_err());
}

#[test]
fn offsets_are_normalised_to_utc() {
    assert_eq!(
        parse_datetime("2024-01-01T01:00:00+01:00").unwrap(),
        TemporalSelection::Instant(micros("2024-01-01T00:00:00Z"))
    );
}

#[test]
fn every_spelling_of_an_instant_is_read() {
    let noon = micros("2024-01-01T12:00:00Z");
    for raw in [
        "2024-01-01T12:00:00Z",
        " 2024-01-01T12:00:00 ",
        "2024-01-01 12:00:00",
        "2024-01-01T12:00",
        "2024-01-01T12:00:00.000",
    ] {
        assert_eq!(parse_instant(raw).unwrap(), noon, "{raw}");
    }
    assert_eq!(parse_instant("2024-01-01").unwrap(), micros("2024-01-01T00:00:00Z"));
    assert_eq!(
        parse_instant("2024-01-01T00:00:00.5").unwrap(),
        micros("2024-01-01T00:00:00.5Z")
    );
    assert!(matches!(parse_instant("2024-13-01"), Err(EdrError::BadRequest(_))));
}

#[test]
fn the_first_reading_of_an_instant_counts() {
    assert_eq!(settle_instant("x", &vec![None, Some(5), Some(6)]).unwrap(), 5);
    assert!(settle_instant("x", &vec![None, None]).is_err());
}

#[test]
fn parses_every_z_form() {
    let values = |v: &[f64]| VerticalSelection::Values(v.iter().map(|x| double(*x)).collect());
    assert_eq!(z("all").unwrap(), VerticalSelection::All);
    assert_eq!(z("500").unwrap(), values(&[500.0]));
    assert_eq!(z("850,700,500").unwrap(), values(&[850.0, 700.0, 500.0]));
    assert_eq!(z("500/850").unwrap(), VerticalSelection::Interval(double(500.0), double(850.0)));
    assert_eq!(z("R3/1000/-100").unwrap(), values(&[1000.0, 900.0, 800.0]));
    assert!(z("R0/1000/-100").is_err());
    assert!(z("high").is_err());
}

#[test]
fn radius_units_convert_to_metres() {
    assert_eq!(radius("10", None).unwrap(), 10_000.0);
    assert_eq!(radius("10", Some("m")).unwrap(), 10.0);
    assert_eq!(radius("1", Some("nmi")).unwrap(), 1_852.0);
    assert!(radius("-1", Some("km")).is_err());
    assert!(radius("10", Some("parsecs")).is_err());
}

#[test]
fn every_unit_of_a_radius_is_known() {
    assert_eq!(radius("2", Some(" Kilometres ")).unwrap(), 2_000.0);
    assert_eq!(radius("2", Some("mi")).unwrap(), 2.0 * 1_609.344);
    assert_eq!(radius("10", Some("feet")).unwrap(), 10.0 * 0.3048);
    assert!(matches!(radius("1", Some("parsecs")), Err(EdrError::NotSupported(_))));
    assert!(matches!(radius("0", None), Err(EdrError::BadRequest(_))));
    assert!(matches!(radius("inf", None), Err(EdrError::BadRequest(_))));
    assert!(matches!(radius("far", None), Err(EdrError::BadRequest(_))));
}

#[test]
fn bbox_accepts_four_and_six_element_forms() {
    let corners = |b: BoundingBox| b.0.iter().map(|v| float(*v)).collect::<Vec<f64>>();
    assert_eq!(corners(bbox("-1,50,1,52").unwrap().unwrap()), [-1.0, 50.0, 1.0, 52.0]);
    let both = bbox("-1,50,500,1,52,850").unwrap().unwrap();
    assert_eq!(corners(both), [-1.0, 50.0, 1.0, 52.0]);
    assert_eq!(both.1.map(|(lo, hi)| (float(lo), float(hi))), Some((500.0, 850.0)));
    assert!(bbox("-1,50,1").is_err());
}

#[test]
fn only_crs84_equivalents_are_accepted() {
    let crs = |v: &str| query(&[("crs", v)]).crs();
    assert!(crs("CRS84").is_ok());
    assert!(crs("http://www.opengis.net/def/crs/OGC/1.3/CRS84").is_ok());
    assert!(crs("EPSG:4326").is_ok());
    assert!(crs("EPSG:3857").is_err());
}

#[test]
fn the_two_pickers_compose_into_an_interval() {
    let from = "2024-01-01T00:00";
    let to = "2024-01-02T00:00";
    assert_eq!(
        selection(&[("datetime-from", from), ("datetime-to", to)]).unwrap(),
        Some(parse_datetime(&format!("{from}/{to}")).unwrap())
    );
}

#[test]
fn one_empty_picker_leaves_that_end_open() {
    let from = "2024-01-01T00:00";
    assert_eq!(
        selection(&[("datetime-from", from), ("datetime-to", "")]).unwrap(),
        Some(parse_datetime(&format!("{from}/..")).unwrap())
    );
    assert_eq!(
        selection(&[("datetime-from", ""), ("datetime-to", from)]).unwrap(),
        Some(parse_datetime(&format!("../{from}")).unwrap())
    );
}

#[test]
fn both_empty_means_no_selection_at_all() {
    // A submitted form sends every field, so this is the untouched state:
    // it must read as absent, not as an unbounded interval.
    assert_eq!(selection(&[("datetime-from", ""), ("datetime-to", "")]).unwrap(), None);
    assert_eq!(selection(&[]).unwrap(), None);
}

#[test]
fn the_api_spelling_always_wins() {
    // An EDR client's `datetime` is never second-guessed by form fields.
    let explicit = "2024-03-01T00:00:00Z/2024-03-02T00:00:00Z";
    assert_eq!(
        selection(&[
            ("datetime", explicit),
            ("datetime-from", "1999-01-01T00:00"),
            ("datetime-to", "1999-01-02T00:00"),
        ])
        .unwrap(),
        Some(parse_datetime(explicit).unwrap())
    );
}

#[test]
fn a_reversed_pair_is_rejected_like_any_interval() {
    assert!(selection(&[
        ("datetime-from", "2024-01-02T00:00"),
        ("datetime-to", "2024-01-01T00:00"),
    ])
    .is_err());
}

#[test]
fn keys_are_read_in_any_case_and_blank_values_are_absent() {
    let q = query(&[("COORDS", "POINT(0 0)"), ("z", "  "), ("Crs", "CRS84")]);
    assert_eq!(q.get("coords").as_deref(), Some("POINT(0 0)"));
    assert_eq!(q.get("z"), None);
    assert!(q.crs().is_ok());
    assert_eq!(
        q.required("bbox").unwrap_err().status(),
        400
    );
}

#[test]
fn repeated_and_comma_separated_names_are_one_list() {
    let repeated = query(&[("parameter-name", "a"), ("parameter-name", "b, c")]);
    assert_eq!(repeated.parameter_names().unwrap(), ["a", "b", "c"]);
    let mixed = query(&[("parameter_name", "x"), ("parameter-name", "a")]);
    assert_eq!(mixed.parameter_names().unwrap(), ["a", "x"]);
    assert!(query(&[("parameter-name", " , ")]).parameter_names().is_none());
}

#[test]
fn inserting_replaces_every_earlier_value() {
    let mut q = query(&[("limit", "1"), ("limit", "2"), ("z", "5")]);
    q.insert("LIMIT", "3".to_string());
    assert_eq!(q.limit(9).unwrap(), 3);
    assert_eq!(q.get("z").as_deref(), Some("5"));
}

#[test]
fn a_limit_is_a_positive_count() {
    assert_eq!(query(&[]).limit(9).unwrap(), 9);
    assert_eq!(query(&[("limit", "12")]).limit(9).unwrap(), 12);
    assert!(query(&[("limit", "0")]).limit(9).is_err());
    assert!(query(&[("limit", "-1")]).limit(9).is_err());
    assert_eq!(query(&[("resolution-x", "4")]).resolution("x").unwrap(), Some(4));
    assert_eq!(query(&[]).resolution("x").unwrap(), None);
    assert!(query(&[("resolution-y", "few")]).resolution("y").is_err());
}

#[test]
fn formats_are_told_apart() {
    assert_eq!(query(&[]).format().unwrap(), Format::CoverageJson);
    assert_eq!(Format::parse("GeoJSON").unwrap(), Format::GeoJson);
    assert_eq!(Format::parse("covjson").unwrap().media_type(), "application/prs.coverage+json");
    assert_eq!(Format::GeoJson.media_type(), "application/geo+json");
    assert_eq!(Format::parse("netcdf").unwrap_err().status(), 400);
}

#[test]
fn only_the_numerals_that_a_request_lists_are_needed() {
    let q = query(&[
        ("coords", "POINT(1 2)"),
        ("z", "500/850"),
        ("within", "10"),
        ("bbox", "1,2,3,4"),
    ]);
    let listed = data::numerals(&q);
    for text in ["1", "2", "500", "850", "10", "3", "4"] {
        assert!(listed.iter().any(|t| t == text), "{text} is not among {listed:?}");
    }
}
