//! Requests from their query strings to their documents, over a small store
//! whose every value is known.

use std::sync::Arc;

use ogc_edr::api::{data, html, metadata, AppState};
use ogc_edr::axis::{NumericAxis, Spacing, TimeAxis};
use ogc_edr::catalog::{Catalog, Collection};
use ogc_edr::config::{CollectionConfig, Config};
use ogc_edr::double::Double;
use ogc_edr::edr::geojson;
use ogc_edr::edr::params::{Query, TemporalSelection, VerticalRequest, VerticalSelection};
use ogc_edr::edr::query::{
    bounds_implied, levels_asked, resolve, resolve_time, DataRequest, LevelMeasure, Limits,
    Measures,
};
use ogc_edr::edr::region::{
    inside_row, longitude_range, rectangle, CircleMeasure, PlaceMeasure, PointMeasure, QueryKind,
    SpaceMeasure,
};
use ogc_edr::edr::result::{assemble, ResultSet, Rows};
use ogc_edr::edr::wkt::{Bounds, Coord, EdgeMeasure, Geometry, RingMeasure};
use ogc_edr::error::{EdrError, EdrResult};
use ogc_edr::json::Json;
use ogc_edr::names::NameMap;
use ogc_edr::numerals::Numerals;
use ogc_edr::store::{
    classify, coord_units, make_collection, numeric_axis, parameters, time_axis, Axes, CoordMeta,
    FieldType, StoreAttrs, VariableMeta,
};
use serde_json::Value;

const TIMES: usize = 4;
const LEVELS: [f64; 3] = [500.0, 850.0, 1000.0];
/// Descending from the north pole, the order ERA5 stores latitude in.
const LATS: [f64; 5] = [90.0, 45.0, 0.0, -45.0, -90.0];
/// A complete 0…360 axis at 45° spacing, so it wraps the globe: the two ends are
/// neighbours across the prime meridian.
const LONS: [f64; 8] = [0.0, 45.0, 90.0, 135.0, 180.0, 225.0, 270.0, 315.0];
/// 2024-01-01T00:00:00Z.
const EPOCH: i64 = 1_704_067_200_000_000;
const HOUR: i64 = 3_600_000_000;

/// Surface value at a grid position, distinct for every cell so a misplaced
/// value is visible in an assertion.
fn surface_value(t: usize, y: usize, x: usize) -> f32 {
    280.0 + t as f32 * 10.0 + y as f32 + x as f32 * 0.01
}

/// Pressure-level value at a grid position.
fn level_value(t: usize, z: usize, y: usize, x: usize) -> f32 {
    200.0 + t as f32 * 10.0 + z as f32 * 100.0 + y as f32 + x as f32 * 0.01
}

const METADATA: &str = r#"{"zarr_consolidated_format": 1, "metadata": {
    ".zattrs": {"valid_time_start": "2024-01-01", "valid_time_stop": "2024-01-01"},
    "time/.zattrs": {"units": "hours since 1900-01-01 00:00:00"},
    "level/.zattrs": {"units": "Hectopascal(hPa)", "long_name": "level"},
    "latitude/.zattrs": {"units": "degrees_north"},
    "longitude/.zattrs": {"units": "degrees_east"},
    "2m_temperature/.zattrs": {"units": "K", "long_name": "2 metre temperature"},
    "total_precipitation/.zattrs": {"units": "m", "long_name": "Total precipitation"},
    "temperature/.zattrs": {"units": "K", "long_name": "Temperature",
        "standard_name": "air_temperature", "GRIB_missingValue": Infinity}
}}"#;

fn double(v: f64) -> Double {
    Double::from_bits(v.to_bits())
}

fn float(v: Double) -> f64 {
    f64::from_bits(v.to_bits())
}

fn doubles(values: impl IntoIterator<Item = f64>) -> Vec<Double> {
    values.into_iter().map(double).collect()
}

fn floats(values: &[Double]) -> Vec<f64> {
    values.iter().map(|v| float(*v)).collect()
}

fn read_numerals(texts: Vec<String>) -> Numerals {
    let mut numerals = Numerals::new();
    for text in texts {
        if let Ok(value) = text.parse::<f64>() {
            numerals.insert(text, double(value));
        }
    }
    numerals
}

fn spacing(axis: &NumericAxis) -> Spacing {
    let values = floats(&axis.values);
    let step = if values.len() >= 2 { values[1] - values[0] } else { 0.0 };
    Spacing {
        step: double(step),
        tolerance: double(step.abs() * 1e-6),
        deviations: doubles(values.windows(2).map(|w| ((w[1] - w[0]) - step).abs())),
    }
}

fn fixed(values: &[Double]) -> Vec<String> {
    values.iter().map(|v| format!("{:.10}", float(*v))).collect()
}

fn coord(name: &str, cf_time: bool, len: usize) -> CoordMeta {
    CoordMeta { name: name.to_string(), cf_time, column: Some(FieldType::Other), len }
}

fn variable(name: &str, dimensions: &[&str]) -> VariableMeta {
    VariableMeta {
        name: name.to_string(),
        dimensions: Some(dimensions.iter().map(|d| d.to_string()).collect()),
        rank: dimensions.len(),
        column: Some(FieldType::Other),
    }
}

fn fixture_config() -> CollectionConfig {
    CollectionConfig {
        id: "era5".to_string(),
        title: Some("ERA5".to_string()),
        description: Some("Test fixture".to_string()),
        location: "/data/fixture.zarr".to_string(),
        keywords: vec!["test".to_string()],
        parameters: None,
    }
}

/// Load the collection the way a server does, from metadata and axes.
fn load(cfg: &CollectionConfig) -> EdrResult<Collection> {
    load_on(cfg, &LONS, &LATS)
}

/// Load the collection on a grid of its own.
fn load_on(cfg: &CollectionConfig, lons: &[f64], lats: &[f64]) -> EdrResult<Collection> {
    let coords = vec![
        coord("time", true, TIMES),
        coord("level", false, LEVELS.len()),
        coord("latitude", false, lats.len()),
        coord("longitude", false, lons.len()),
    ];
    let vars = vec![
        variable("2m_temperature", &["time", "latitude", "longitude"]),
        variable("total_precipitation", &["time", "latitude", "longitude"]),
        variable("temperature", &["time", "level", "latitude", "longitude"]),
    ];
    let attrs = StoreAttrs::consolidated(METADATA).expect("metadata");
    let names = classify(&cfg.location, &coords, &coord_units(&attrs, &coords))?;
    let x = numeric_axis(&names.x, doubles(lons.iter().copied()))?;
    let y = numeric_axis(&names.y, doubles(lats.iter().copied()))?;
    let z = numeric_axis("level", doubles(LEVELS))?;
    let t = time_axis(&names.t, (0..TIMES as i64).map(|i| EPOCH + i * HOUR).collect())?;
    let gap = (lons[lons.len() - 1] - lons[0] + float(spacing(&x).step).abs() - 360.0).abs();
    let shifted = doubles(lons.iter().map(|v| v - 360.0));
    let folded = doubles(
        lons.iter().map(|v| if *v > 180.0 { *v - 360.0 } else { *v }).map(|v| v.rem_euclid(360.0)),
    );
    let axes = Axes {
        shifted,
        folded,
        spacing: spacing(&x),
        gap: double(gap),
        x_texts: fixed(&x.values),
        y_texts: fixed(&y.values),
        z_texts: fixed(&z.values),
        x,
        y,
        z: Some(z),
        t,
    };
    let params = parameters(&vars, &cfg.parameters, &attrs, &names.z, coords.len());
    make_collection(cfg, names, &attrs, axes, params)
}

fn app(base_url: &str) -> AppState {
    let cfg = fixture_config();
    let mut collections = NameMap::new();
    collections.insert(cfg.id.clone(), Arc::new(load(&cfg).expect("fixture")));
    AppState {
        catalog: Catalog { collections },
        config: Config {
            bind: "127.0.0.1:0".to_string(),
            base_url: base_url.to_string(),
            collections: vec![cfg],
            max_values: 1_000_000,
            default_limit: 100_000,
        },
    }
}

/// What the store answers a scan with: every row that the ranges of the SQL
/// admit, widened as they are.
fn scan(request: &DataRequest) -> Vec<Rows> {
    let s = &request.selection;
    let span = |v: &Vec<usize>| match (v.iter().min(), v.iter().max()) {
        (Some(a), Some(b)) => (*a..=*b).collect::<Vec<usize>>(),
        _ => Vec::new(),
    };
    let mut out = Vec::new();
    for scan in request.scans() {
        let mut rows = Rows {
            times: Vec::new(),
            lat: Vec::new(),
            lon: Vec::new(),
            lev: Vec::new(),
            values: scan.names.iter().map(|_| Vec::new()).collect(),
        };
        let levels = if scan.uses_z { span(&s.z_idx) } else { vec![0] };
        for t in span(&s.t_idx) {
            for &z in &levels {
                for y in span(&s.y_idx) {
                    for x in span(&s.x_idx) {
                        rows.times.push(EPOCH + t as i64 * HOUR);
                        rows.lat.push(double(LATS[y]));
                        rows.lon.push(double(LONS[x]));
                        if scan.uses_z {
                            rows.lev.push(double(LEVELS[z]));
                        }
                        for (p, name) in scan.names.iter().enumerate() {
                            let value = match name.as_str() {
                                "temperature" => level_value(t, z, y, x),
                                "2m_temperature" => surface_value(t, y, x),
                                _ => t as f32 * 0.001,
                            };
                            rows.values[p].push(Some(double(f64::from(value))));
                        }
                    }
                }
            }
        }
        out.push(rows);
    }
    out
}

/// Undo percent-encoding of spaces, and part a query string.
fn query_of(raw: &str) -> Query {
    let pairs = raw
        .split('&')
        .filter(|part| !part.is_empty())
        .map(|part| {
            let (k, v) = part.split_once('=').unwrap_or((part, ""));
            (k.to_string(), v.replace("%20", " "))
        })
        .collect();
    Query::new(pairs)
}

/// What a query asks of a collection.
fn request_on(c: &Arc<Collection>, kind: QueryKind, raw: &str) -> EdrResult<DataRequest> {
    let query = query_of(raw);
    let numerals = numerals(&query);
    let geometry = data::geometry_for(kind, &query, &numerals)?;
    let m = measures(c, kind, &geometry, &query, numerals);
    let limits = Limits { max_scan_rows: 1_000_000, default_limit: 100_000 };
    resolve(c.clone(), kind, &geometry, &query, limits, &m)
}

fn answer(
    state: &AppState,
    kind: QueryKind,
    query: &Query,
) -> EdrResult<(DataRequest, ResultSet)> {
    let c = state.catalog.collection("era5")?;
    let numerals = numerals(query);
    let geometry = data::geometry_for(kind, query, &numerals)?;
    let m = measures(c, kind, &geometry, query, numerals);
    let limits = Limits {
        max_scan_rows: state.config.max_values,
        default_limit: state.config.default_limit,
    };
    let request = resolve(c.clone(), kind, &geometry, query, limits, &m)?;
    assert!(request.is_addressable());
    let result = assemble(&request, &scan(&request));
    data::check_result(&result)?;
    Ok((request, result))
}

fn run(kind: QueryKind, raw: &str) -> EdrResult<(DataRequest, ResultSet)> {
    answer(&app(""), kind, &query_of(raw))
}

/// A document as a JSON value, to look into.
fn value(j: &Json) -> Value {
    match j {
        Json::Null => Value::Null,
        Json::Bool(b) => Value::from(*b),
        Json::Number(n) => Value::from(float(*n)),
        Json::Count(n) => Value::from(*n),
        Json::Text(s) => Value::from(s.as_str()),
        Json::List(v) => Value::Array(v.iter().map(value).collect()),
        Json::Object(v) => {
            Value::Object(v.iter().map(|(k, j)| (k.clone(), value(j))).collect())
        }
    }
}

/// The document that answers a query.
fn ok(kind: QueryKind, raw: &str) -> Value {
    let format = query_of(raw).format().expect("format");
    match run(kind, raw) {
        Ok((request, result)) => value(&data::encode(format, &request, &result)),
        Err(e) => panic!("{raw} -> {}", e.description()),
    }
}

fn values_of(range: &Value) -> Vec<Option<f64>> {
    range["values"].as_array().expect("values").iter().map(|v| v.as_f64()).collect()
}

fn numbers_of(list: &Value) -> Vec<f64> {
    list.as_array().expect("list").iter().map(|v| v.as_f64().unwrap()).collect()
}

fn texts_of(list: &Value) -> Vec<String> {
    list.as_array().expect("list").iter().map(|v| v.as_str().unwrap().to_string()).collect()
}

/// Great-circle distance between two CRS84 positions.
fn haversine_metres(lon1: f64, lat1: f64, lon2: f64, lat2: f64) -> f64 {
    const EARTH_RADIUS_M: f64 = 6_371_008.8;
    let (p1, p2) = (lat1.to_radians(), lat2.to_radians());
    let dlat = p2 - p1;
    let dlon = (lon2 - lon1).to_radians();
    let a = (dlat / 2.0).sin().powi(2) + p1.cos() * p2.cos() * (dlon / 2.0).sin().powi(2);
    2.0 * EARTH_RADIUS_M * a.sqrt().asin()
}

/// How far a position is from each latitude and longitude.
fn point(c: &Collection, p: Coord) -> PointMeasure {
    let (lon, lat) = (float(p.x), float(p.y));
    let native = c.to_native_lon(p.x, double(lon.rem_euclid(360.0)));
    let at = float(native);
    let along: Vec<f64> = floats(&c.x.values).iter().map(|x| (x - at).abs()).collect();
    PointMeasure {
        y_distances: doubles(floats(&c.y.values).iter().map(|y| (y - lat).abs())),
        native,
        x_distances: doubles(along.iter().copied()),
        x_around: doubles(along.iter().map(|d| d.min(360.0 - d))),
    }
}

/// How the longitudes lie to a range of them, round the circle.
fn circle(c: &Collection, west: f64, east: f64) -> CircleMeasure {
    let span = (east - west).rem_euclid(360.0);
    let offsets: Vec<f64> = floats(&c.x_crs84)
        .iter()
        .map(|lon| (lon - west).rem_euclid(360.0))
        .collect();
    CircleMeasure {
        west: double(west),
        east: double(east),
        width: double(east - west),
        span: double(span),
        reach: double(span + 1e-9),
        gaps: doubles(offsets.iter().map(|offset| 360.0 - offset)),
        offsets: doubles(offsets),
    }
}

/// How a position lies to the edges of a ring.
fn ring(ring: &[Coord], p: Coord) -> RingMeasure {
    const EPSILON: f64 = 1e-9;
    let at = |c: Coord| (float(c.x), float(c.y));
    let (px, py) = at(p);
    let edges = ring
        .windows(2)
        .map(|edge| {
            let ((ax, ay), (bx, by)) = (at(edge[0]), at(edge[1]));
            let cross = (bx - ax) * (py - ay) - (by - ay) * (px - ax);
            let scale = (bx - ax).hypot(by - ay).max(EPSILON);
            EdgeMeasure {
                west: double(ax.min(bx) - EPSILON),
                south: double(ay.min(by) - EPSILON),
                east: double(ax.max(bx) + EPSILON),
                north: double(ay.max(by) + EPSILON),
                offset: double((cross / scale).abs()),
            }
        })
        .collect();
    let n = ring.len();
    let crossings = (0..n)
        .map(|i| {
            let ((ax, ay), (bx, by)) = (at(ring[i]), at(ring[(i + n - 1) % n]));
            double(ax + (py - ay) / (by - ay) * (bx - ax))
        })
        .collect();
    RingMeasure { edges, crossings }
}

/// Whether a geometry covers each cell of a window, row by row.
fn inside(c: &Collection, geometry: &Geometry, x_idx: &Vec<usize>, y_idx: &[usize]) -> Vec<bool> {
    let Geometry::Polygon(rings) = geometry else {
        return Vec::new();
    };
    let mut flags = Vec::new();
    for &y in y_idx {
        let place = |lon: f64| {
            let p = Coord { x: double(lon), y: c.y.values[y] };
            PlaceMeasure { lon: p.x, rings: rings.iter().map(|r| ring(r, p)).collect() }
        };
        let measures: Vec<Vec<PlaceMeasure>> = x_idx
            .iter()
            .map(|&x| float(c.x_crs84[x]))
            .map(|lon| vec![place(lon), place(lon + 360.0), place(lon - 360.0)])
            .collect();
        flags.extend(inside_row(c, geometry, y, x_idx, &measures));
    }
    flags
}

/// What a geometry comes to on a collection's grid.
fn space(
    c: &Collection,
    kind: QueryKind,
    geometry: &Geometry,
    query: &Query,
    numerals: &Numerals,
) -> SpaceMeasure {
    let mut m = SpaceMeasure {
        points: Vec::new(),
        circle: circle(c, 0.0, 0.0),
        south: double(0.0),
        north: double(0.0),
        metres: double(0.0),
        distances: Vec::new(),
        inside: Vec::new(),
    };
    match (kind, geometry) {
        (QueryKind::Position, Geometry::Polygon(_)) => {}
        (QueryKind::Position, _) => {
            m.points = geometry.vertices().into_iter().map(|p| point(c, p)).collect();
        }
        (QueryKind::Radius, Geometry::Point(centre)) => {
            let (lon, lat) = (float(centre.x), float(centre.y));
            m.points = vec![point(c, *centre)];
            m.distances = floats(&c.y.values)
                .into_iter()
                .flat_map(|y| floats(&c.x_crs84).into_iter().map(move |x| (x, y)))
                .map(|(x, y)| double(haversine_metres(lon, lat, x, y)))
                .collect();
            if let Ok(distance) = query.radius_metres(numerals) {
                let metres = float(distance.value) * float(distance.per_unit);
                let deg_lat = metres / 111_320.0;
                let cos_lat = lat.to_radians().cos().abs().max(1e-6);
                let deg_lon = (deg_lat / cos_lat).min(180.0);
                m.metres = double(metres);
                m.south = double(lat - deg_lat);
                m.north = double(lat + deg_lat);
                m.circle = circle(c, lon - deg_lon, lon + deg_lon);
            }
        }
        (QueryKind::Area | QueryKind::Cube, _) => {
            let (west, east) = longitude_range(kind, query, geometry, numerals);
            m.circle = circle(c, float(west), float(east));
            if kind == QueryKind::Area {
                let [west, south, east, north] = geometry.bbox();
                let bounds = Bounds { west, south, east, north };
                if let Ok((x_idx, y_idx)) = rectangle(c, &bounds, &m.circle) {
                    m.inside = inside(c, geometry, &x_idx, &y_idx);
                }
            }
        }
        (QueryKind::Radius, _) => {}
    }
    m
}

/// The values of a repeated `z`, and what the levels that are
/// asked for come to on the vertical axis.
fn levels(
    c: &Collection,
    kind: QueryKind,
    query: &Query,
    numerals: &Numerals,
) -> (Vec<Double>, LevelMeasure) {
    let request = query.vertical(numerals).ok().flatten();
    let rungs = match &request {
        Some(VerticalRequest::Repeat { count, start, step }) => {
            let (start, step) = (float(*start), float(*step));
            doubles((0..*count).map(|i| if i == 0 { start } else { start + i as f64 * step }))
        }
        _ => Vec::new(),
    };
    let vertical = request.map(|request| request.selection(rungs.clone()));
    let selection = levels_asked(vertical, bounds_implied(kind, query, numerals));
    let axis = c.z.as_ref().map(|z| floats(&z.values)).unwrap_or_default();
    let show = |v: &Double| format!("{}", float(*v));
    let measure = match selection {
        VerticalSelection::All => LevelMeasure { distances: Vec::new(), shown: Vec::new() },
        VerticalSelection::Values(values) => LevelMeasure {
            distances: values
                .iter()
                .map(|v| doubles(axis.iter().map(|level| (level - float(*v)).abs())))
                .collect(),
            shown: values.iter().map(show).collect(),
        },
        VerticalSelection::Interval(lo, hi) => LevelMeasure {
            distances: Vec::new(),
            shown: vec![show(&lo), show(&hi)],
        },
    };
    (rungs, measure)
}

/// What the numerals of a request stand for.
fn numerals(query: &Query) -> Numerals {
    read_numerals(data::numerals(query))
}

/// Everything that is worked out of a request's numbers.
fn measures(
    c: &Collection,
    kind: QueryKind,
    geometry: &Geometry,
    query: &Query,
    numerals: Numerals,
) -> Measures {
    let (rungs, levels) = levels(c, kind, query, &numerals);
    let space = space(c, kind, geometry, query, &numerals);
    Measures { numerals, rungs, levels, space }
}

#[test]
fn landing_and_conformance_advertise_what_is_implemented() {
    let state = app("");
    let landing = value(&metadata::landing(&state));
    let rels: Vec<&str> =
        landing["links"].as_array().unwrap().iter().map(|l| l["rel"].as_str().unwrap()).collect();
    assert!(rels.contains(&"self") && rels.contains(&"data") && rels.contains(&"conformance"));

    let conformance = value(&metadata::conformance(&state));
    let classes = texts_of(&conformance["conformsTo"]);
    for required in [
        "http://www.opengis.net/spec/ogcapi-edr-1/1.1/conf/core",
        "http://www.opengis.net/spec/ogcapi-edr-1/1.1/conf/position",
        "http://www.opengis.net/spec/ogcapi-edr-1/1.1/conf/area",
        "http://www.opengis.net/spec/ogcapi-edr-1/1.1/conf/cube",
        "http://www.opengis.net/spec/ogcapi-edr-1/1.1/conf/radius",
        "http://www.opengis.net/spec/ogcapi-edr-1/1.1/conf/covjson",
    ] {
        assert!(classes.iter().any(|c| c == required), "missing {required}");
    }
    // Query types with no endpoint must not be advertised.
    for absent in ["trajectory", "corridor", "locations", "items"] {
        assert!(
            !classes.iter().any(|c| c.ends_with(absent)),
            "advertises unimplemented {absent}"
        );
    }
}

#[test]
fn collection_metadata_reports_real_extents_and_units() {
    let collection = value(&metadata::collection(&app(""), "era5").unwrap());
    assert_eq!(collection["id"], "era5");

    // A wrapping longitude axis is reported as global, in CRS84.
    let bbox = numbers_of(&collection["extent"]["spatial"]["bbox"][0]);
    assert_eq!(bbox, vec![-180.0, -90.0, 180.0, 90.0]);

    // The temporal extent follows the declared validity window, not the axis.
    let interval = &collection["extent"]["temporal"]["interval"][0];
    assert_eq!(interval[0], "2024-01-01T00:00:00Z");
    assert_eq!(interval[1], "2024-01-01T03:00:00Z");

    let levels = collection["extent"]["vertical"]["values"].as_array().unwrap();
    assert_eq!(levels.len(), 3);
    assert_eq!(
        collection["extent"]["vertical"]["vrs"],
        "VERTCRS[\"level\",VERT_CS[\"Hectopascal(hPa)\"]]"
    );

    // Units and labels come from the store's own CF attributes.
    let t2m = &collection["parameter_names"]["2m_temperature"];
    assert_eq!(t2m["unit"]["symbol"]["value"], "K");
    assert_eq!(t2m["label"]["en"], "2 metre temperature");
    assert_eq!(
        collection["parameter_names"]["total_precipitation"]["unit"]["symbol"]["value"],
        "m"
    );
    assert_eq!(
        collection["parameter_names"]["temperature"]["observedProperty"]["id"],
        "http://vocab.nerc.ac.uk/standard_name/air_temperature/"
    );

    // Every advertised query type has an endpoint.
    for query in ["position", "radius", "area", "cube"] {
        assert!(collection["data_queries"][query]["link"]["href"]
            .as_str()
            .unwrap()
            .ends_with(query));
    }
}

#[test]
fn position_returns_the_nearest_cell_as_a_point_series() {
    // Latitude 40 snaps to 45. Longitude -10 is 350 on the stored axis, whose
    // nearest stored value is 315, but measured around the circle 0 is closer,
    // and that is the cell EDR should return.
    let body = ok(
        QueryKind::Position,
        "coords=POINT(-10%2040)\
         &parameter-name=2m_temperature&datetime=2024-01-01T00:00:00Z/2024-01-01T03:00:00Z",
    );

    assert_eq!(body["domain"]["domainType"], "PointSeries");
    assert_eq!(body["domain"]["axes"]["x"]["values"][0], 0.0);
    assert_eq!(body["domain"]["axes"]["y"]["values"][0], 45.0);
    assert_eq!(body["domain"]["axes"]["t"]["values"].as_array().unwrap().len(), 4);
    // A standalone coverage must carry its own parameters block.
    assert_eq!(body["parameters"]["2m_temperature"]["unit"]["symbol"]["value"], "K");

    // latitude 45 is index 1, longitude 0 is index 0.
    let expected: Vec<Option<f64>> =
        (0..TIMES).map(|t| Some(surface_value(t, 1, 0) as f64)).collect();
    assert_eq!(values_of(&body["ranges"]["2m_temperature"]), expected);
}

#[test]
fn omitting_datetime_returns_the_latest_step() {
    let body = ok(QueryKind::Position, "coords=POINT(0%2045)&parameter-name=2m_temperature");
    assert_eq!(body["domain"]["domainType"], "Point");
    assert_eq!(body["domain"]["axes"]["t"]["values"][0], "2024-01-01T03:00:00Z");
}

#[test]
fn multipoint_returns_a_coverage_collection() {
    let body = ok(
        QueryKind::Position,
        "coords=MULTIPOINT((0%2045),(90%200))\
         &parameter-name=2m_temperature&datetime=2024-01-01T00:00:00Z",
    );

    assert_eq!(body["type"], "CoverageCollection");
    let coverages = body["coverages"].as_array().unwrap();
    assert_eq!(coverages.len(), 2);
    // Parameters are declared once, at the collection level.
    assert!(body["parameters"]["2m_temperature"].is_object());
    assert!(coverages[0]["parameters"].is_null());

    let mut seen: Vec<(f64, f64, f64)> = coverages
        .iter()
        .map(|c| {
            (
                c["domain"]["axes"]["x"]["values"][0].as_f64().unwrap(),
                c["domain"]["axes"]["y"]["values"][0].as_f64().unwrap(),
                c["ranges"]["2m_temperature"]["values"][0].as_f64().unwrap(),
            )
        })
        .collect();
    seen.sort_by(|a, b| a.0.total_cmp(&b.0));
    // (lat 45, lon 0) is y=1, x=0; (lat 0, lon 90) is y=2, x=2.
    assert_eq!(seen[0], (0.0, 45.0, surface_value(0, 1, 0) as f64));
    assert_eq!(seen[1], (90.0, 0.0, surface_value(0, 2, 2) as f64));
}

#[test]
fn a_cube_across_the_prime_meridian_returns_an_ordered_grid() {
    let body = ok(
        QueryKind::Cube,
        "bbox=-50,-50,50,50&parameter-name=2m_temperature&datetime=2024-01-01T01:00:00Z",
    );

    assert_eq!(body["domain"]["domainType"], "Grid");
    // Longitudes from both ends of the 0…360 axis, presented in CRS84 order.
    assert_eq!(numbers_of(&body["domain"]["axes"]["x"]["values"]), vec![-45.0, 0.0, 45.0]);
    assert_eq!(numbers_of(&body["domain"]["axes"]["y"]["values"]), vec![-45.0, 0.0, 45.0]);

    let range = &body["ranges"]["2m_temperature"];
    assert_eq!(range["shape"], Value::from(vec![1, 3, 3]));
    let values = values_of(range);
    assert!(values.iter().all(Option::is_some), "grid has holes: {values:?}");

    // Fixture indices: lat -45 is y=3, 0 is y=2, 45 is y=1;
    // lon -45 is x=7 (315), 0 is x=0, 45 is x=1.
    let expected: Vec<Option<f64>> = [3usize, 2, 1]
        .iter()
        .flat_map(|&y| {
            [7usize, 0, 1].iter().map(move |&x| Some(surface_value(1, y, x) as f64))
        })
        .collect();
    assert_eq!(values, expected);
}

#[test]
fn an_area_matches_the_equivalent_cube() {
    let area = ok(
        QueryKind::Area,
        "coords=POLYGON((0%200,90%200,90%2045,0%2045,0%200))\
         &parameter-name=2m_temperature&datetime=2024-01-01T00:00:00Z",
    );
    let cube = ok(
        QueryKind::Cube,
        "bbox=0,0,90,45&parameter-name=2m_temperature&datetime=2024-01-01T00:00:00Z",
    );
    assert_eq!(area["ranges"], cube["ranges"], "a rectangular polygon must equal its cube");
    assert!(values_of(&area["ranges"]["2m_temperature"]).iter().all(Option::is_some));
}

#[test]
fn an_area_masks_cells_outside_the_polygon() {
    // A triangle over the same bounding box leaves the far corner empty.
    let body = ok(
        QueryKind::Area,
        "coords=POLYGON((0%200,90%200,90%2045,0%200))\
         &parameter-name=2m_temperature&datetime=2024-01-01T00:00:00Z",
    );
    let values = values_of(&body["ranges"]["2m_temperature"]);
    assert!(values.iter().any(Option::is_some), "nothing selected");
    assert!(values.iter().any(Option::is_none), "no cell was masked out");
}

#[test]
fn vertical_selections_drive_the_z_axis() {
    let body = ok(
        QueryKind::Position,
        "coords=POINT(0%2045)&parameter-name=temperature&datetime=2024-01-01T00:00:00Z&z=500,1000",
    );

    assert_eq!(body["domain"]["domainType"], "VerticalProfile");
    assert_eq!(numbers_of(&body["domain"]["axes"]["z"]["values"]), vec![500.0, 1000.0]);

    let range = &body["ranges"]["temperature"];
    assert_eq!(range["axisNames"], Value::from(vec!["t", "z", "y", "x"]));
    // Levels 500 and 1000 are fixture z-indices 0 and 2; lat 45 is y=1, lon 0 is x=0.
    assert_eq!(
        values_of(range),
        vec![Some(level_value(0, 0, 1, 0) as f64), Some(level_value(0, 2, 1, 0) as f64)]
    );

    // Omitting z returns every level.
    let all = ok(
        QueryKind::Position,
        "coords=POINT(0%2045)&parameter-name=temperature&datetime=2024-01-01T00:00:00Z",
    );
    assert_eq!(all["domain"]["axes"]["z"]["values"].as_array().unwrap().len(), 3);
}

#[test]
fn a_box_of_six_values_bounds_the_levels() {
    let body = ok(
        QueryKind::Cube,
        "bbox=0,0,600,45,45,1000&parameter-name=temperature&datetime=2024-01-01T00:00:00Z",
    );
    assert_eq!(numbers_of(&body["domain"]["axes"]["z"]["values"]), vec![850.0, 1000.0]);
    // A `z` of its own overrides the box.
    let body = ok(
        QueryKind::Cube,
        "bbox=0,0,600,45,45,1000&z=500&parameter-name=temperature&datetime=2024-01-01T00:00:00Z",
    );
    assert_eq!(numbers_of(&body["domain"]["axes"]["z"]["values"]), vec![500.0]);
    // A surface parameter takes no notice of it.
    let body = ok(
        QueryKind::Cube,
        "bbox=0,0,600,45,45,1000&parameter-name=2m_temperature&datetime=2024-01-01T00:00:00Z",
    );
    assert!(body["domain"]["axes"]["z"].is_null());
}

#[test]
fn repeated_levels_are_stepped_from_their_start() {
    let body = ok(
        QueryKind::Position,
        "coords=POINT(0%2045)&parameter-name=temperature&datetime=2024-01-01T00:00:00Z\
         &z=R2/1000/-150",
    );
    assert_eq!(numbers_of(&body["domain"]["axes"]["z"]["values"]), vec![850.0, 1000.0]);
}

#[test]
fn surface_and_pressure_level_parameters_can_be_requested_together() {
    // These have different dimensionality and cannot share one scan.
    let body = ok(
        QueryKind::Position,
        "coords=POINT(0%2045)\
         &parameter-name=2m_temperature,temperature&datetime=2024-01-01T00:00:00Z&z=850",
    );

    let surface = &body["ranges"]["2m_temperature"];
    assert_eq!(surface["axisNames"], Value::from(vec!["t", "y", "x"]));
    assert_eq!(values_of(surface), vec![Some(surface_value(0, 1, 0) as f64)]);

    let levelled = &body["ranges"]["temperature"];
    assert_eq!(levelled["axisNames"], Value::from(vec!["t", "z", "y", "x"]));
    assert_eq!(values_of(levelled), vec![Some(level_value(0, 1, 1, 0) as f64)]);
}

#[test]
fn a_surface_scan_does_not_name_the_vertical_coordinate() {
    let (request, _) = run(
        QueryKind::Position,
        "coords=POINT(0%2045)&parameter-name=2m_temperature,temperature&z=850",
    )
    .unwrap();
    let scans = request.scans();
    assert_eq!(scans.len(), 2);
    assert_eq!(
        scans[0].sql,
        "SELECT \"time\", \"latitude\", \"longitude\", \"2m_temperature\" FROM \"era5\" \
         WHERE \"latitude\" = 45 AND \"longitude\" = 0 AND \"time\" = '2024-01-01T03:00:00'"
    );
    assert!(!scans[0].sql.contains("level"));
    assert!(scans[1].sql.contains("\"level\" = 850"));
}

#[test]
fn radius_keeps_only_cells_within_the_distance() {
    let near = ok(
        QueryKind::Radius,
        "coords=POINT(0%200)&within=100&within-units=km\
         &parameter-name=2m_temperature&datetime=2024-01-01T00:00:00Z",
    );
    let wide = ok(
        QueryKind::Radius,
        "coords=POINT(0%200)&within=6000&within-units=km\
         &parameter-name=2m_temperature&datetime=2024-01-01T00:00:00Z",
    );

    let count = |b: &Value| {
        values_of(&b["ranges"]["2m_temperature"]).iter().filter(|v| v.is_some()).count()
    };
    assert!(count(&near) >= 1);
    assert!(count(&wide) > count(&near), "a wider radius must cover more cells");
}

#[test]
fn a_radius_smaller_than_the_grid_still_answers() {
    let body = ok(
        QueryKind::Radius,
        "coords=POINT(20%2020)&within=1&within-units=m\
         &parameter-name=2m_temperature&datetime=2024-01-01T00:00:00Z",
    );
    assert_eq!(
        values_of(&body["ranges"]["2m_temperature"]),
        vec![Some(surface_value(0, 2, 0) as f64)]
    );
}

#[test]
fn haversine_matches_a_known_distance() {
    // London to Paris, ~343 km.
    let d = haversine_metres(-0.1276, 51.5072, 2.3522, 48.8566);
    assert!((d - 343_500.0).abs() < 2_000.0, "got {d} m");
}

#[test]
fn geojson_output_carries_one_feature_per_cell_and_time() {
    let body = ok(
        QueryKind::Cube,
        "bbox=0,0,45,45&parameter-name=2m_temperature\
         &datetime=2024-01-01T00:00:00Z/2024-01-01T01:00:00Z&f=GeoJSON",
    );

    assert_eq!(body["type"], "FeatureCollection");
    let features = body["features"].as_array().unwrap();
    // 2 lats x 2 lons x 2 times.
    assert_eq!(features.len(), 8);
    let first = &features[0];
    assert_eq!(first["geometry"]["type"], "Point");
    assert!(first["properties"]["datetime"].is_string());
    assert!(first["properties"]["2m_temperature"].is_number());
}

#[test]
fn resolution_thins_the_grid_but_keeps_the_edges() {
    let body = ok(
        QueryKind::Cube,
        "bbox=0,-90,180,90&parameter-name=2m_temperature&datetime=2024-01-01T00:00:00Z\
         &resolution-x=2&resolution-y=2",
    );
    assert_eq!(numbers_of(&body["domain"]["axes"]["x"]["values"]), vec![0.0, 180.0]);
    assert_eq!(numbers_of(&body["domain"]["axes"]["y"]["values"]), vec![-90.0, 90.0]);
}

#[test]
fn invalid_requests_are_rejected_with_an_edr_exception() {
    let position = QueryKind::Position;
    let cases = [
        (position, "coords=POINT(0%2051.5)", 400),
        (position, "coords=POINT(0%2045)&parameter-name=nope", 400),
        (position, "coords=CIRCLE(0%200,5)&parameter-name=2m_temperature", 400),
        (
            position,
            "coords=POLYGON((0%200,45%200,45%2045,0%200))&parameter-name=2m_temperature",
            400,
        ),
        (position, "coords=POINT(0%2045)&parameter-name=2m_temperature&crs=EPSG:3857", 400),
        (position, "coords=POINT(0%2045)&parameter-name=2m_temperature&z=500", 400),
        (position, "coords=POINT(0%2045)&parameter-name=temperature&z=512", 400),
        (
            position,
            "coords=POINT(0%2045)&parameter-name=2m_temperature&datetime=1850-01-01T00:00:00Z",
            404,
        ),
        (QueryKind::Area, "parameter-name=2m_temperature", 400),
        (QueryKind::Cube, "parameter-name=2m_temperature", 400),
    ];
    for (kind, raw, expected) in cases {
        let error = match run(kind, raw) {
            Ok(_) => panic!("{raw} was served"),
            Err(e) => e,
        };
        assert_eq!(error.status(), expected, "{raw} -> {}", error.description());
        let body = value(&error.body());
        assert_eq!(body["code"], expected, "{raw}");
        assert!(
            body["description"].as_str().is_some_and(|d| !d.is_empty()),
            "{raw} has no description"
        );
    }
    assert_eq!(metadata::collection(&app(""), "nope").unwrap_err().status(), 404);
    assert_eq!(query_of("f=netcdf").format().unwrap_err().status(), 400);
}

#[test]
fn a_level_that_is_not_on_the_axis_is_answered_with_those_that_are() {
    let error = run(
        QueryKind::Position,
        "coords=POINT(0%2045)&parameter-name=temperature&z=512",
    )
    .unwrap_err();
    assert_eq!(
        error.description(),
        "z=512 is not a level of this collection; available levels are 500, 850, 1000"
    );
    let error = run(
        QueryKind::Position,
        "coords=POINT(0%2045)&parameter-name=temperature&z=1/2",
    )
    .unwrap_err();
    assert_eq!(
        error.description(),
        "No level lies between 1 and 2; available levels are 500, 850, 1000"
    );
}

#[test]
fn an_oversized_request_is_refused_rather_than_served() {
    let error = run(
        QueryKind::Cube,
        "bbox=-180,-90,180,90&parameter-name=2m_temperature&datetime=2024-01-01T00:00:00Z&limit=5",
    )
    .unwrap_err();
    assert!(matches!(error, EdrError::TooLarge(_)));
    assert_eq!(error.status(), 413);
    assert!(error.description().contains("limit of 5"));
}

#[test]
fn a_small_limit_caps_the_answer_without_restricting_the_read() {
    // `limit` says how much to return, not how much the server may read. A
    // request whose scan is affordable must not be refused for asking for less
    // of it, and the reason given back must be about the answer's size.
    let error = run(
        QueryKind::Cube,
        "bbox=-180,-90,180,90&parameter-name=2m_temperature&datetime=2024-01-01T00:00:00Z&limit=5",
    )
    .unwrap_err();
    let description = error.description();
    assert!(
        description.contains("selects") && !description.contains("too spread out"),
        "a small limit must not read as a scan refusal: {description}"
    );

    // The whole grid at one step is within both ceilings once `limit` allows it.
    assert!(run(
        QueryKind::Cube,
        "bbox=-180,-90,180,90&parameter-name=2m_temperature&datetime=2024-01-01T00:00:00Z\
         &limit=100000",
    )
    .is_ok());
}

#[test]
fn a_read_past_the_ceiling_is_refused_whatever_the_limit() {
    let mut state = app("");
    state.config.max_values = 10;
    let raw = "bbox=-50,-50,50,50&parameter-name=2m_temperature&datetime=2024-01-01T00:00:00Z";
    for limit in ["", "&limit=1", "&limit=100000"] {
        let query = query_of(&format!("{raw}{limit}"));
        let error = answer(&state, QueryKind::Cube, &query).unwrap_err();
        assert_eq!(error.status(), 413);
        assert!(error.description().contains("too spread out"), "{}", error.description());
    }
}

#[test]
fn a_region_across_the_meridian_is_not_refused_for_its_widened_read() {
    // The fixture's longitude axis wraps, so this box takes cells from both
    // ends and is read as the range spanning them. That widening is the
    // server's business, not a reason to reject a modest request.
    let body = ok(
        QueryKind::Cube,
        "bbox=-50,-50,50,50&parameter-name=2m_temperature\
         &datetime=2024-01-01T00:00:00Z/2024-01-01T03:00:00Z",
    );
    assert_eq!(body["ranges"]["2m_temperature"]["shape"][0], 4, "four timesteps");
}

#[test]
fn a_multi_select_submits_repeated_keys_and_every_one_counts() {
    // An HTML multiple selection sends one `parameter-name=` per chosen option,
    // where EDR spells the same request `parameter-name=a,b`. Both must mean
    // the same thing.
    let repeated = ok(
        QueryKind::Position,
        "coords=POINT(0%2045)\
         &parameter-name=2m_temperature&parameter-name=total_precipitation\
         &datetime=2024-01-01T00:00:00Z",
    );
    let comma_separated = ok(
        QueryKind::Position,
        "coords=POINT(0%2045)&parameter-name=2m_temperature,total_precipitation\
         &datetime=2024-01-01T00:00:00Z",
    );

    assert_eq!(repeated["ranges"], comma_separated["ranges"]);
    let returned = repeated["ranges"].as_object().unwrap();
    assert_eq!(returned.len(), 2, "both parameters must come back: {returned:?}");
    assert!(returned.contains_key("2m_temperature"));
    assert!(returned.contains_key("total_precipitation"));
}

#[test]
fn the_same_cell_twice_is_answered_once() {
    let body = ok(
        QueryKind::Position,
        "coords=MULTIPOINT(0%2045,1%2044)&parameter-name=2m_temperature\
         &datetime=2024-01-01T00:00:00Z",
    );
    assert_eq!(
        values_of(&body["ranges"]["2m_temperature"]),
        vec![Some(surface_value(0, 1, 0) as f64)]
    );
}

#[test]
fn a_result_without_a_value_is_not_found() {
    let query = query_of("coords=POINT(0%2045)&parameter-name=2m_temperature");
    let (request, _) = answer(&app(""), QueryKind::Position, &query).unwrap();
    let mut rows = scan(&request);
    for values in &mut rows[0].values {
        for v in values.iter_mut() {
            *v = None;
        }
    }
    let error = data::check_result(&assemble(&request, &rows)).unwrap_err();
    assert_eq!(error.status(), 404);
    assert!(error.description().contains("may fall outside the period"));
}

#[test]
fn the_json_landing_page_advertises_its_html_alternate() {
    let landing = value(&metadata::landing(&app("https://edr.example")));
    let alternate = landing["links"]
        .as_array()
        .unwrap()
        .iter()
        .find(|l| l["rel"] == "alternate")
        .expect("no alternate");
    assert_eq!(alternate["type"], "text/html");
    assert_eq!(alternate["href"], "https://edr.example/");
}

#[test]
fn every_json_metadata_resource_links_to_its_html_twin() {
    let state = app("");
    for document in [
        metadata::landing(&state),
        metadata::conformance(&state),
        metadata::collections(&state),
        metadata::collection(&state, "era5").unwrap(),
    ] {
        let links = value(&document)["links"].as_array().unwrap().clone();
        assert!(links.iter().any(|l| l["rel"] == "alternate" && l["type"] == "text/html"));
    }
    let collections = value(&metadata::collections(&state));
    assert_eq!(collections["collections"][0]["id"], "era5");
}

#[test]
fn html_is_advertised_as_an_output_format() {
    let collection = value(&metadata::collection(&app(""), "era5").unwrap());
    assert!(texts_of(&collection["output_formats"]).iter().any(|f| f == "HTML"));
}

#[test]
fn the_api_definition_describes_every_endpoint() {
    let api = value(&metadata::api_definition(&app("")));
    assert_eq!(api["openapi"], "3.0.3");
    assert_eq!(api["servers"][0]["url"], "/");
    let paths = api["paths"].as_object().unwrap();
    assert_eq!(paths.len(), 8);
    let names = |path: &str| -> Vec<String> {
        api["paths"][path]["get"]["parameters"]
            .as_array()
            .unwrap()
            .iter()
            .map(|p| p["name"].as_str().unwrap().to_string())
            .collect()
    };
    let cube = names("/collections/{collectionId}/cube");
    assert_eq!(cube[..2], ["collectionId", "bbox"]);
    assert!(cube.iter().any(|n| n == "resolution-z"));
    let radius = names("/collections/{collectionId}/radius");
    assert_eq!(radius[..4], ["collectionId", "coords", "within", "within-units"]);
    assert!(!radius.iter().any(|n| n.starts_with("resolution-")));
    assert_eq!(
        api["paths"]["/collections/{collectionId}"]["get"]["parameters"][0]["schema"]["enum"][0],
        "era5"
    );
    let other = value(&metadata::api_definition(&app("https://edr.example")));
    assert_eq!(other["servers"][0]["url"], "https://edr.example");
}

#[test]
fn hrefs_follow_the_base_url_and_commands_the_host() {
    let bare = app("");
    assert_eq!(bare.href("/api"), "/api");
    assert_eq!(bare.absolute_href("/api", Some("h:1")), "http://h:1/api");
    assert_eq!(bare.absolute_href("/api", None), "/api");
    let based = app("https://edr.example");
    assert_eq!(based.absolute_href("/api", Some("h:1")), "https://edr.example/api");
}

#[test]
fn the_collection_page_tabulates_every_parameter() {
    let state = app("");
    let c = state.catalog.collection("era5").unwrap();
    let rows = html::parameter_rows(&state, c, html::ParameterMode::Browse);
    let names: Vec<&str> = rows.iter().map(|r| r.name.as_str()).collect();
    assert_eq!(names, ["2m_temperature", "temperature", "total_precipitation"]);
    assert_eq!(rows[0].label, "2 metre temperature");
    assert_eq!(rows[0].unit.as_deref(), Some("K"));
    assert_eq!(rows[1].vertical, "varies with level");
    assert_eq!(rows[2].vertical, "surface");
    assert!(rows.iter().all(|r| !r.checked));
}

#[test]
fn the_filter_can_narrow_to_surface_or_vertical_variables() {
    let state = app("");
    let c = state.catalog.collection("era5").unwrap();
    let rows = html::parameter_rows(&state, c, html::ParameterMode::Browse);
    assert_eq!(rows[0].search, "2m_temperature 2 metre temperature surface");
    assert_eq!(rows[1].search, "temperature temperature varies with level");
}

#[test]
fn parameter_rows_link_into_the_query_form() {
    let state = app("");
    let c = state.catalog.collection("era5").unwrap();
    let rows = html::parameter_rows(&state, c, html::ParameterMode::Browse);
    assert_eq!(
        rows[0].href,
        "/collections/era5/position?parameter-name=2m_temperature&f=html"
    );
    // And that link lands on a form with the parameter already chosen.
    let query = query_of("parameter-name=2m_temperature&f=html");
    let selected = html::selected_parameters(&query);
    let form = html::parameter_rows(&state, c, html::ParameterMode::Select { selected: &selected });
    assert!(form[0].checked && !form[1].checked);
    assert_eq!(form[0].id, "choose-2m_temperature");
    let outcome = answer(&state, QueryKind::Position, &query);
    assert!(matches!(
        data::outcome_of(&outcome, data::has_geometry(&query, QueryKind::Position), String::new()),
        html::Outcome::Blank
    ));
}

#[test]
fn a_submitted_form_ticks_back_every_parameter_it_ran() {
    let state = app("");
    let c = state.catalog.collection("era5").unwrap();
    let query = query_of(
        "f=html&coords=POINT(0%2045)\
         &parameter-name=2m_temperature&parameter-name=total_precipitation&datetime=&z=",
    );
    let selected = html::selected_parameters(&query);
    let rows = html::parameter_rows(&state, c, html::ParameterMode::Select { selected: &selected });
    let ticked: Vec<&str> =
        rows.iter().filter(|r| r.checked).map(|r| r.name.as_str()).collect();
    assert_eq!(ticked, ["2m_temperature", "total_precipitation"]);
    let (request, result) = answer(&state, QueryKind::Position, &query).unwrap();
    let table = html::results(&request, &result);
    assert_eq!(table.columns, ["2m_temperature", "total_precipitation"]);
}

#[test]
fn blank_fields_from_a_submitted_form_read_as_absent() {
    // A browser submits every field, so untouched ones arrive empty. They must
    // fall back to their defaults rather than being parsed as given values.
    let (request, result) = run(
        QueryKind::Position,
        "f=html&coords=POINT(0%2045)&parameter-name=2m_temperature&datetime=&z=",
    )
    .unwrap();
    // Empty `datetime` means the latest step.
    let table = html::results(&request, &result);
    assert_eq!(table.facts.time.as_deref(), Some("2024-01-01T03:00:00Z"));
}

#[test]
fn a_bare_query_url_shows_the_form_rather_than_an_error() {
    for kind in [QueryKind::Position, QueryKind::Radius, QueryKind::Area, QueryKind::Cube] {
        let query = query_of("");
        let outcome = answer(&app(""), kind, &query);
        let given = data::has_geometry(&query, kind);
        assert!(matches!(
            data::outcome_of(&outcome, given, String::new()),
            html::Outcome::Blank
        ));
    }
}

#[test]
fn a_rejected_query_re_renders_the_form_with_the_reason() {
    let query = query_of("coords=POINT(0%2045)&parameter-name=nope&f=html");
    let outcome = answer(&app(""), QueryKind::Position, &query);
    let given = data::has_geometry(&query, QueryKind::Position);
    match data::outcome_of(&outcome, given, String::new()) {
        html::Outcome::Failed(reason) => {
            assert!(reason.contains("is not a parameter of collection"), "{reason}");
        }
        other => panic!("{other:?}"),
    }
    // What was typed survives, so it can be corrected rather than retyped.
    assert_eq!(html::field_value(&query, "coords"), "POINT(0 45)");
    assert_eq!(html::field_value(&query, "z"), "");
}

#[test]
fn running_a_query_renders_a_table_of_values() {
    let raw = "coords=POINT(0%2045)&parameter-name=2m_temperature\
               &datetime=2024-01-01T00:00:00Z/2024-01-01T03:00:00Z";
    let outcome = run(QueryKind::Position, raw);
    let (request, result) = match data::outcome_of(&outcome, true, raw.to_string()) {
        html::Outcome::Data { request, result, query_string } => {
            assert_eq!(query_string, raw);
            (request, result)
        }
        other => panic!("{other:?}"),
    };
    let table = html::results(request, result);
    assert_eq!(table.columns, ["Time", "2m_temperature"]);
    assert_eq!(table.rows.len(), 4);
    assert!(!table.truncated);
    assert_eq!(table.facts.values, 4);
    assert_eq!(table.facts.position, Some((double(45.0), double(0.0))));
    assert!(matches!(&table.rows[0][0], html::Cell::Time(t) if t == "2024-01-01T00:00:00Z"));
    let first = double(surface_value(0, 1, 0) as f64);
    assert!(matches!(table.rows[0][1], html::Cell::Value(v) if v == first));
}

#[test]
fn a_grid_result_gives_every_varying_axis_a_column() {
    let (request, result) = run(
        QueryKind::Cube,
        "bbox=-50,-50,50,50&parameter-name=2m_temperature&datetime=2024-01-01T01:00:00Z",
    )
    .unwrap();
    let table = html::results(&request, &result);
    assert_eq!(table.columns, ["Latitude", "Longitude", "2m_temperature"]);
    // A single timestep is stated above the table, not repeated down it.
    assert_eq!(table.facts.time.as_deref(), Some("2024-01-01T01:00:00Z"));
    assert_eq!(table.facts.position, None);
    assert!(table.rows.iter().all(|row| row.len() == table.columns.len()));
}

#[test]
fn a_vertical_result_labels_the_level_column_with_the_axis_name() {
    let (request, result) = run(
        QueryKind::Position,
        "coords=POINT(0%2045)&parameter-name=temperature\
         &z=500,1000&datetime=2024-01-01T00:00:00Z",
    )
    .unwrap();
    let table = html::results(&request, &result);
    assert_eq!(table.columns, ["level", "temperature"]);
    for (row, level) in table.rows.iter().zip([500.0, 1000.0]) {
        assert!(matches!(row[0], html::Cell::Place(v) if v == double(level)));
    }
}

#[test]
fn a_cell_outside_the_polygon_is_missing_from_the_table() {
    let (request, result) = run(
        QueryKind::Area,
        "coords=POLYGON((0%200,90%200,90%2045,0%200))\
         &parameter-name=2m_temperature&datetime=2024-01-01T00:00:00Z",
    )
    .unwrap();
    let table = html::results(&request, &result);
    // Only the cells that carry data are walked.
    assert_eq!(table.rows.len(), 4);
}

#[test]
fn the_time_pickers_are_bounded_by_the_collections_own_axis() {
    let state = app("");
    let c = state.catalog.collection("era5").unwrap();
    let (start, end) = c.time_extent();
    assert_eq!(html::picker_time(start), "2024-01-01T00:00");
    assert_eq!(html::picker_time(end), "2024-01-01T03:00");
    assert_eq!(html::picker_step(c).as_deref(), Some("3600"));
}

#[test]
fn the_pickers_drive_a_query_and_come_back_filled_in() {
    let raw = "f=html&coords=POINT(0%2045)&parameter-name=2m_temperature\
               &datetime-from=2024-01-01T00:00&datetime-to=2024-01-01T02:00";
    let (_, result) = run(QueryKind::Position, raw).unwrap();
    assert_eq!(result.t, vec![EPOCH, EPOCH + HOUR, EPOCH + 2 * HOUR]);
    // The pickers hold what was asked for.
    let (from, to) = html::datetime_bounds(&query_of(raw));
    assert_eq!((from.as_str(), to.as_str()), ("2024-01-01T00:00", "2024-01-01T02:00"));
    // Links out use the standard's spelling, not the form's.
    let link = html::with_format(raw, "CoverageJSON");
    assert!(link.contains("datetime=2024-01-01T00:00/2024-01-01T02:00"));
    assert!(!link.contains("datetime-from"));
}

#[test]
fn arriving_with_an_api_datetime_fills_the_same_pickers() {
    let bounds = |raw: &str| html::datetime_bounds(&query_of(raw));
    let (from, to) = bounds("datetime=2024-01-01T00:00:00Z/2024-01-01T02:00:00Z");
    assert_eq!((from.as_str(), to.as_str()), ("2024-01-01T00:00", "2024-01-01T02:00"));
    // An open-ended interval leaves that box empty.
    let (from, to) = bounds("datetime=2024-01-01T00:00:00Z/..");
    assert_eq!((from.as_str(), to.as_str()), ("2024-01-01T00:00", ""));
    // An instant fills both, and what is no instant is handed back.
    let (from, to) = bounds("datetime=2024-01-01");
    assert_eq!((from.as_str(), to.as_str()), ("2024-01-01T00:00", "2024-01-01T00:00"));
    let (from, _) = bounds("datetime-from=soon");
    assert_eq!(from, "soon");
}

#[test]
fn example_commands_ask_for_the_latest_time() {
    let state = app("");
    let c = state.catalog.collection("era5").unwrap();
    let parameter = html::example_parameter(c).unwrap();
    assert_eq!(parameter, "2m_temperature");
    assert_eq!(
        html::example_command(&state, c, &parameter, Some("edr.example:3000")),
        "curl -G 'http://edr.example:3000/collections/era5/position' \\\n  \
         --data-urlencode 'coords=POINT(-0.13 51.51)' \\\n  \
         --data-urlencode 'parameter-name=2m_temperature' \\\n  \
         --data-urlencode 'datetime=2024-01-01T03:00:00Z'"
    );
}

#[test]
fn pages_name_a_single_collection_and_count_several() {
    let state = app("");
    assert_eq!(html::landing_offer(&state), "ERA5 — 3 parameters on a 8×5 grid.");
    let c = state.catalog.collection("era5").unwrap();
    assert_eq!(
        html::collection_facts(c),
        "3 parameters · 8×5 grid · 3 levels · 4 time steps"
    );
    assert_eq!(html::collections_tagline(1), "One collection is available to query.");
    assert_eq!(html::collections_tagline(12), "12 collections are available to query.");
    let crumbs = html::query_crumbs(c, QueryKind::Cube);
    assert_eq!(crumbs.len(), 4);
    assert_eq!(crumbs[2].href.as_deref(), Some("/collections/era5"));
    assert_eq!(crumbs[3].label, "cube");
    assert_eq!(html::query_action(c, QueryKind::Area), "/collections/era5/area");
    assert_eq!(metadata::title_of("area"), "Data within a polygon");
    assert_eq!(metadata::title_of("corridor"), "");
}

#[test]
fn a_collection_falls_back_to_what_its_id_and_location_say() {
    let mut cfg = fixture_config();
    cfg.title = None;
    cfg.description = None;
    cfg.id = "era5-small".to_string();
    let c = load(&cfg).unwrap();
    assert_eq!(c.title, "ERA5-SMALL");
    assert_eq!(c.description, "Zarr store at /data/fixture.zarr");
    assert_eq!(c.table, "era5_small");
    assert!(c.lon_0_360 && c.lon_global);
    assert_eq!(
        floats(&c.x_crs84),
        [0.0, 45.0, 90.0, 135.0, 180.0, -135.0, -90.0, -45.0]
    );
    assert_eq!(floats(&c.x_native), LONS);
    cfg.parameters = Some(vec!["absent".to_string()]);
    assert_eq!(
        load(&cfg).unwrap_err().description(),
        "'/data/fixture.zarr' exposes no data variables"
    );
}

#[test]
fn axes_ascend_however_the_store_runs() {
    let (_, result) = run(
        QueryKind::Cube,
        "bbox=-180,-90,180,90&parameter-name=temperature&datetime=2024-01-01T00:00:00Z",
    )
    .unwrap();
    for axis in [floats(&result.x), floats(&result.y), floats(&result.z)] {
        assert!(axis.windows(2).all(|w| w[0] < w[1]), "{axis:?}");
    }
}

#[test]
fn every_value_stands_at_its_own_coordinates() {
    let (_, result) = run(
        QueryKind::Cube,
        "bbox=-180,-90,180,90&parameter-name=temperature,2m_temperature\
         &datetime=2024-01-01T00:00:00Z/2024-01-01T03:00:00Z",
    )
    .unwrap();
    assert_eq!(result.parameter_names(), ["2m_temperature", "temperature"]);
    for row in result.rows() {
        let t = ((row.t - EPOCH) / HOUR) as usize;
        let z = LEVELS.iter().position(|v| *v == float(row.z.unwrap())).unwrap();
        let y = LATS.iter().position(|v| *v == float(row.y)).unwrap();
        let x = LONS.iter().position(|v| *v == float(row.x).rem_euclid(360.0)).unwrap();
        assert_eq!(row.values[0], Some(double(surface_value(t, y, x) as f64)));
        assert_eq!(row.values[1], Some(double(level_value(t, z, y, x) as f64)));
    }
}

#[test]
fn times_asked_for_are_held_to_the_extent() {
    let (_, result) = run(
        QueryKind::Position,
        "coords=POINT(0%2045)&parameter-name=2m_temperature&datetime=1999-01-01/2030-01-01",
    )
    .unwrap();
    assert_eq!(result.t.len(), TIMES);
    let (_, result) = run(
        QueryKind::Position,
        "coords=POINT(0%2045)&parameter-name=2m_temperature&datetime=2024-01-01T02:00:00Z/..",
    )
    .unwrap();
    assert_eq!(result.t, vec![EPOCH + 2 * HOUR, EPOCH + 3 * HOUR]);
    // An instant between two steps snaps to the nearer.
    let (_, result) = run(
        QueryKind::Position,
        "coords=POINT(0%2045)&parameter-name=2m_temperature&datetime=2024-01-01T01:40:00Z",
    )
    .unwrap();
    assert_eq!(result.t, vec![EPOCH + 2 * HOUR]);
}

#[test]
fn every_cell_of_a_radius_lies_within_it() {
    let (_, result) = run(
        QueryKind::Radius,
        "coords=POINT(10%205)&within=6000&parameter-name=2m_temperature",
    )
    .unwrap();
    let rows = result.rows();
    assert!(rows.len() > 1);
    for row in rows {
        assert!(haversine_metres(10.0, 5.0, float(row.x), float(row.y)) <= 6_000_000.0);
    }
}

#[test]
fn longitudes_are_folded_onto_the_store_and_back() {
    let c = load(&fixture_config()).unwrap();
    assert_eq!(float(c.to_native_lon(double(-10.0), double(350.0))), 350.0);
    assert_eq!(float(c.to_crs84_lon(double(315.0), double(-45.0))), -45.0);
    assert_eq!(float(c.to_crs84_lon(double(180.0), double(-180.0))), 180.0);
    let names = vec!["temperature".to_string(), "2m_temperature".to_string()];
    let (vertical, flat) = c.split_by_vertical(&names);
    assert_eq!(vertical, ["temperature"]);
    assert_eq!(flat, ["2m_temperature"]);
}

#[test]
fn a_map_by_name_does_not_depend_on_the_order_of_insertion() {
    let mut a = NameMap::new();
    let mut b = NameMap::new();
    for name in ["c", "a", "b"] {
        a.insert(name.to_string(), name.len());
    }
    for name in ["b", "c", "a", "c"] {
        b.insert(name.to_string(), name.len());
    }
    assert_eq!(a.entries, b.entries);
    assert_eq!(a.get("b"), Some(&1));
    assert_eq!(a.get("d"), None);
}

#[test]
fn a_box_that_misses_the_grid_selects_nothing() {
    let error = run(
        QueryKind::Cube,
        "bbox=1,1,2,2&parameter-name=2m_temperature",
    )
    .unwrap_err();
    assert_eq!(error.status(), 404);
    let c = load(&fixture_config()).unwrap();
    let upside_down = Bounds {
        west: double(0.0),
        south: double(45.0),
        east: double(45.0),
        north: double(0.0),
    };
    let error = rectangle(&c, &upside_down, &circle(&c, 0.0, 45.0)).unwrap_err();
    assert_eq!(error.status(), 400);
    assert!(error.description().contains("south edge is north of its north edge"));
}

/// The collection with times of its own, of which some are populated.
fn timed(times: &[i64], populated: (i64, i64)) -> Collection {
    let mut c = load(&fixture_config()).expect("fixture");
    c.t = TimeAxis::new(times.to_vec());
    c.valid_time = Some(populated);
    c
}

#[test]
fn the_latest_step_is_the_last_that_is_populated() {
    let c = timed(&[0, 10, 20, 30], (0, 19));
    assert_eq!(resolve_time(&c, None).unwrap(), vec![1]);
    let c = timed(&[0, 10, 20, 30], (0, 20));
    assert_eq!(resolve_time(&c, None).unwrap(), vec![2]);
    let c = timed(&[0, 10, 20, 30], (-5, 99));
    assert_eq!(resolve_time(&c, None).unwrap(), vec![3]);
}

#[test]
fn an_instant_near_the_end_stays_within_what_is_populated() {
    let at = |t: i64| Some(TemporalSelection::Instant(t));
    let c = timed(&[0, 10, 20, 30], (1, 19));
    assert_eq!(resolve_time(&c, at(18)).unwrap(), vec![1]);
    assert_eq!(resolve_time(&c, at(2)).unwrap(), vec![1]);
    assert!(matches!(resolve_time(&c, at(20)), Err(EdrError::NotFound(_))));
    assert!(matches!(resolve_time(&c, at(0)), Err(EdrError::NotFound(_))));
    let c = timed(&[0, 10, 20, 30], (0, 30));
    assert_eq!(resolve_time(&c, at(18)).unwrap(), vec![2]);
    // Of two equally close, the earlier.
    assert_eq!(resolve_time(&c, at(15)).unwrap(), vec![1]);
    let between = Some(TemporalSelection::Interval(Some(5), Some(25)));
    assert_eq!(resolve_time(&c, between).unwrap(), vec![1, 2]);
}

#[test]
fn a_span_without_a_step_selects_nothing() {
    let c = timed(&[0, 10, 20, 30], (11, 19));
    assert_eq!(resolve_time(&c, None).unwrap(), Vec::<usize>::new());
    let at = Some(TemporalSelection::Instant(15));
    assert_eq!(resolve_time(&c, at).unwrap(), Vec::<usize>::new());
    let raw = "coords=POINT(0%2045)&parameter-name=2m_temperature";
    match request_on(&Arc::new(c), QueryKind::Position, raw) {
        Err(e) => assert_eq!(e.status(), 404),
        Ok(_) => panic!("selected a time that is not populated"),
    }
}

#[test]
fn points_along_one_latitude_are_separate_coverages() {
    let body = ok(
        QueryKind::Position,
        "coords=MULTIPOINT((0%2045),(90%2045))\
         &parameter-name=2m_temperature&datetime=2024-01-01T00:00:00Z",
    );
    assert_eq!(body["type"], "CoverageCollection");
    assert_eq!(body["domainType"], "Point");
    assert_eq!(body["parameters"]["2m_temperature"]["unit"]["symbol"]["value"], "K");
    let coverages = body["coverages"].as_array().unwrap();
    assert_eq!(coverages.len(), 2);
    for (coverage, x) in coverages.iter().zip([0, 2]) {
        assert!(coverage.get("parameters").is_none());
        assert_eq!(numbers_of(&coverage["domain"]["axes"]["x"]["values"]), vec![LONS[x]]);
        assert_eq!(numbers_of(&coverage["domain"]["axes"]["y"]["values"]), vec![45.0]);
        assert_eq!(
            values_of(&coverage["ranges"]["2m_temperature"]),
            vec![Some(surface_value(0, 1, x) as f64)]
        );
    }
    // Two points in one cell are one coverage.
    let body = ok(
        QueryKind::Position,
        "coords=MULTIPOINT((0%2045),(1%2045))\
         &parameter-name=2m_temperature&datetime=2024-01-01T00:00:00Z",
    );
    assert_eq!(body["type"], "Coverage");
}

#[test]
fn a_cell_without_a_finite_value_is_no_feature() {
    let raw = "bbox=0,45,45,45&parameter-name=2m_temperature&datetime=2024-01-01T00:00:00Z";
    let (request, mut result) = run(QueryKind::Cube, raw).expect("cube");
    assert_eq!(value(&geojson::encode(&request, &result))["features"].as_array().unwrap().len(), 2);
    for missing in [f64::NAN, f64::INFINITY, f64::NEG_INFINITY] {
        result.params.entries[0].1.values[0] = Some(double(missing));
        let body = value(&geojson::encode(&request, &result));
        let features = body["features"].as_array().unwrap();
        assert_eq!(features.len(), 1);
        assert_eq!(numbers_of(&features[0]["geometry"]["coordinates"]), vec![45.0, 45.0]);
    }
}

#[test]
fn a_box_across_the_antimeridian_keeps_to_its_own_side() {
    let lons: Vec<f64> = (0..72).map(|i| i as f64 * 5.0).collect();
    let c = Arc::new(load_on(&fixture_config(), &lons, &[10.0, 0.0, -10.0]).expect("grid"));
    assert!(c.lon_0_360);
    let selected = |raw: &str| -> Vec<f64> {
        let request = request_on(&c, QueryKind::Cube, raw).expect("cube");
        request.selection.x_idx.iter().map(|x| float(c.x_crs84[*x])).collect()
    };
    let mut across = selected("bbox=170,-10,-170,10&parameter-name=2m_temperature");
    across.sort_by(f64::total_cmp);
    assert_eq!(across, vec![-175.0, -170.0, 170.0, 175.0, 180.0]);
    let within = selected("bbox=-10,-10,10,10&parameter-name=2m_temperature");
    assert_eq!(within, vec![-10.0, -5.0, 0.0, 5.0, 10.0]);
}

#[test]
fn a_rectangle_up_to_the_antimeridian_is_the_cube_over_it() {
    let lons: Vec<f64> = (0..72).map(|i| i as f64 * 5.0).collect();
    let c = Arc::new(load_on(&fixture_config(), &lons, &[10.0, 0.0, -10.0]).expect("grid"));
    let cells = |kind: QueryKind, raw: &str| -> Vec<(usize, usize)> {
        let request = request_on(&c, kind, raw).expect("request");
        let s = &request.selection;
        let mut cells: Vec<(usize, usize)> = s
            .y_idx
            .iter()
            .flat_map(|y| s.x_idx.iter().map(move |x| (*y, *x)))
            .filter(|cell| s.mask.as_ref().map_or(true, |mask| mask.contains(*cell)))
            .collect();
        cells.sort();
        cells
    };
    for (west, east, columns) in [(-180, -170, 3), (170, 180, 3), (170, 190, 5), (200, 220, 5)] {
        let area = format!(
            "coords=POLYGON(({west}%20-10,{east}%20-10,{east}%2010,{west}%2010,{west}%20-10))\
             &parameter-name=2m_temperature"
        );
        let cube = format!("bbox={west},-10,{east},10&parameter-name=2m_temperature");
        let found = cells(QueryKind::Area, &area);
        assert_eq!(found.len(), 3 * columns, "{west} to {east}");
        assert_eq!(found, cells(QueryKind::Cube, &cube), "{west} to {east}");
    }
}

#[test]
fn a_longitude_range_is_that_of_the_box_or_of_the_geometry() {
    let range = |kind: QueryKind, raw: &str| {
        let query = query_of(raw);
        let numerals = numerals(&query);
        let geometry = data::geometry_for(kind, &query, &numerals).expect("geometry");
        let (west, east) = longitude_range(kind, &query, &geometry, &numerals);
        (float(west), float(east))
    };
    assert_eq!(range(QueryKind::Cube, "bbox=170,-10,-170,10"), (170.0, -170.0));
    assert_eq!(range(QueryKind::Cube, "bbox=-10,-10,10,10"), (-10.0, 10.0));
    let ring = "coords=POLYGON((10%200,-10%200,-10%205,10%200))";
    assert_eq!(range(QueryKind::Area, ring), (-10.0, 10.0));
}

#[test]
fn a_radius_keeps_every_cell_within_it() {
    let c = Arc::new(load_on(&fixture_config(), &[0.0], &[0.0, 1.0]).expect("grid"));
    let kept = |metres: &str| -> Vec<(usize, usize)> {
        let raw = format!(
            "coords=POINT(0%200)&within={metres}&within-units=m&parameter-name=2m_temperature"
        );
        let request = request_on(&c, QueryKind::Radius, &raw).expect("radius");
        let s = &request.selection;
        s.y_idx
            .iter()
            .flat_map(|y| s.x_idx.iter().map(move |x| (*y, *x)))
            .filter(|cell| s.mask.as_ref().map_or(true, |mask| mask.contains(*cell)))
            .collect()
    };
    // One degree of latitude is 111195 m.
    assert_eq!(kept("111200"), vec![(0, 0), (1, 0)]);
    assert_eq!(kept("111190"), vec![(0, 0)]);
    assert_eq!(kept("1"), vec![(0, 0)]);
}

#[test]
fn a_wrapping_lookup_finds_the_closest_longitude() {
    let c = load(&fixture_config()).expect("fixture");
    assert!(c.lon_global);
    for lon in -180..=180 {
        let m = point(&c, Coord { x: double(f64::from(lon)), y: double(0.0) });
        let found = c.nearest_x(m.native, &m.x_distances, &m.x_around);
        let around = floats(&m.x_around);
        assert!(around.iter().all(|d| around[found] <= *d), "{lon}");
    }
}
