//! Well-known text and point-in-polygon tests.

use ogc_edr::double::Double;
use ogc_edr::edr::wkt::{outline, parse, Coord, EdgeMeasure, Geometry, RingMeasure};
use ogc_edr::error::EdrResult;
use ogc_edr::numerals::Numerals;

fn double(v: f64) -> Double {
    Double::from_bits(v.to_bits())
}

fn float(v: Double) -> f64 {
    f64::from_bits(v.to_bits())
}

fn coord(x: f64, y: f64) -> Coord {
    Coord { x: double(x), y: double(y) }
}

fn read(input: &str) -> EdrResult<Geometry> {
    let mut numerals = Numerals::new();
    if let Ok(shape) = outline(input) {
        for text in shape.numerals() {
            if let Ok(value) = text.parse::<f64>() {
                numerals.insert(text, double(value));
            }
        }
    }
    parse(input, &numerals)
}

fn measure(ring: &[Coord], px: f64, py: f64) -> RingMeasure {
    let at = |c: Coord| (float(c.x), float(c.y));
    let edges = ring
        .windows(2)
        .map(|edge| {
            let ((ax, ay), (bx, by)) = (at(edge[0]), at(edge[1]));
            let cross = (bx - ax) * (py - ay) - (by - ay) * (px - ax);
            let scale = (bx - ax).hypot(by - ay).max(1e-9);
            EdgeMeasure {
                west: double(ax.min(bx) - 1e-9),
                south: double(ay.min(by) - 1e-9),
                east: double(ax.max(bx) + 1e-9),
                north: double(ay.max(by) + 1e-9),
                offset: double((cross / scale).abs()),
            }
        })
        .collect();
    let n = ring.len();
    let crossings = (0..n)
        .map(|i| {
            let ((ax, ay), (bx, by)) = (at(ring[i]), at(ring[(i + n - 1) % n]));
            double(ax + (py - ay) / (by - ay) * (bx - ax))
        })
        .collect();
    RingMeasure { edges, crossings }
}

fn contains(g: &Geometry, x: f64, y: f64) -> bool {
    let measures = match g {
        Geometry::Polygon(rings) => rings.iter().map(|r| measure(r, x, y)).collect(),
        _ => Vec::new(),
    };
    g.contains(coord(x, y), &measures)
}

#[test]
fn parses_a_point() {
    assert_eq!(read("POINT(-0.12 51.5)").unwrap(), Geometry::Point(coord(-0.12, 51.5)));
}

#[test]
fn parses_both_multipoint_spellings() {
    let flat = read("MULTIPOINT(0 51, 1 52)").unwrap();
    let nested = read("MULTIPOINT((0 51),(1 52))").unwrap();
    assert_eq!(flat, nested);
    assert_eq!(flat.vertices().len(), 2);
}

#[test]
fn parses_a_polygon_with_a_hole() {
    let g = read("POLYGON((0 0, 10 0, 10 10, 0 10, 0 0),(4 4, 6 4, 6 6, 4 6, 4 4))").unwrap();
    let Geometry::Polygon(rings) = &g else {
        panic!("expected a polygon");
    };
    assert_eq!(rings.len(), 2);
    assert!(contains(&g, 1.0, 1.0));
    assert!(!contains(&g, 5.0, 5.0), "hole is excluded");
    assert!(!contains(&g, 20.0, 5.0));
    let bbox: Vec<f64> = g.bbox().iter().map(|v| float(*v)).collect();
    assert_eq!(bbox, [0.0, 0.0, 10.0, 10.0]);
    // The hole's own edge stays inside the polygon.
    assert!(contains(&g, 4.0, 5.0));
}

#[test]
fn every_corner_and_edge_of_a_rectangle_counts_as_inside() {
    let g = read("POLYGON((-1 51, 1 51, 1 52, -1 52, -1 51))").unwrap();
    for (x, y) in [
        (-1.0, 51.0),
        (0.0, 51.0),
        (1.0, 51.0),
        (-1.0, 51.5),
        (0.0, 51.5),
        (1.0, 51.5),
        (-1.0, 52.0),
        (0.0, 52.0),
        (1.0, 52.0),
    ] {
        assert!(contains(&g, x, y), "({x}, {y}) should be inside");
    }
    assert!(!contains(&g, 1.25, 51.5));
    assert!(!contains(&g, 0.0, 52.25));
}

#[test]
fn accepts_z_qualified_geometries_and_drops_the_ordinate() {
    assert_eq!(read("POINT Z(3 4 500)").unwrap(), Geometry::Point(coord(3.0, 4.0)));
}

#[test]
fn rejects_malformed_input() {
    for bad in [
        "POINT(0)",
        "POINT 0 51",
        "POLYGON((0 0, 1 0, 1 1, 0 0.5))",
        "CIRCLE(0 0, 5)",
        "",
    ] {
        assert!(read(bad).is_err(), "expected {bad:?} to be rejected");
    }
}

#[test]
fn unclosed_polygon_ring_is_rejected() {
    assert!(read("POLYGON((0 0, 10 0, 10 10, 0 10))").is_err());
}

#[test]
fn a_line_string_is_its_vertices() {
    let g = read(" LINESTRING ( 0 0 , 1 1 , 2 0 ) ").unwrap();
    assert_eq!(g.vertices(), vec![coord(0.0, 0.0), coord(1.0, 1.0), coord(2.0, 0.0)]);
    assert!(!contains(&g, 1.0, 1.0), "only a polygon contains anything");
}

#[test]
fn numbers_that_are_not_finite_are_no_position() {
    assert!(read("POINT(NaN 0)").is_err());
    assert!(read("POINT(0 inf)").is_err());
}

#[test]
fn only_the_listed_numerals_matter() {
    let input = "MULTIPOINT(0 51, 1 52)";
    let listed = outline(input).unwrap().numerals();
    assert_eq!(listed, ["0", "51", "1", "52"]);
    let mut more = Numerals::new();
    for text in listed {
        let value = text.parse::<f64>().unwrap();
        more.insert(text, double(value));
    }
    more.insert("other".to_string(), double(9.0));
    assert_eq!(parse(input, &more).unwrap(), read(input).unwrap());
}

#[test]
fn a_box_covers_every_point_of_its_edges() {
    let g = read("POLYGON((0 0, 4 0, 4 2, 0 2, 0 0))").unwrap();
    for i in 0..=8 {
        let at = i as f64 * 0.5;
        assert!(contains(&g, at, 0.0) && contains(&g, at, 2.0));
    }
    assert!(!contains(&g, 4.000001, 1.0));
}
