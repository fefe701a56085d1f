//! The EDR data queries: position, radius, area and cube.
use vstd::prelude::*;

use crate::api::html::Outcome;
use crate::double::Double;
use crate::edr::covjson;
use crate::edr::geojson;
use crate::edr::params::{self, Format, Query};
use crate::edr::query::DataRequest;
use crate::edr::region::QueryKind;
use crate::edr::result::ResultSet;
use crate::edr::wkt::{self, Coord, Geometry, Shape};
use crate::error::{self, EdrError, EdrResult, Fault};
use crate::json::{self, Json, Tree};
use crate::numerals::Numerals;
use crate::text;

verus! {

/// The parameter that carries a query type's geometry.
pub open spec fn geometry_key(kind: QueryKind) -> Seq<char> {
    if kind == QueryKind::Cube {
        "bbox"@
    } else {
        "coords"@
    }
}

/// Whether the request carries the geometry its query type needs. Without it
/// the HTML representation shows an empty form rather than an error.
pub fn has_geometry(query: &Query, kind: QueryKind) -> (r: bool)
    ensures
        r == (params::value(query@, geometry_key(kind)) is Some),
{
    match kind {
        QueryKind::Cube => query.get("bbox").is_some(),
        _ => query.get("coords").is_some(),
    }
}

/// The geometry of a request.
pub open spec fn requested_geometry(
    kind: QueryKind,
    q: Seq<(Seq<char>, Seq<char>)>,
    numerals: Map<Seq<char>, Double>,
) -> Result<Shape, Fault> {
    if kind == QueryKind::Cube {
        match params::queried_box(q, numerals) {
            Err(e) => Err(e),
            Ok(None) => Err(Fault::BadRequest("The cube query requires 'bbox'"@)),
            Ok(Some(b)) => Ok(Shape::Polygon(seq![wkt::box_ring(b.0)])),
        }
    } else {
        match params::value(q, "coords"@) {
            None => Err(params::missing("coords"@)),
            Some(raw) => wkt::parsed(raw, numerals),
        }
    }
}

/// `cube` is bounded by `bbox`; the others take a WKT `coords` geometry. The box
/// is represented as a closed ring so it shares the geometry path. The numerals
/// of either are read beforehand.
pub fn geometry_for(kind: QueryKind, query: &Query, numerals: &Numerals) -> (r: EdrResult<Geometry>)
    requires
        numerals.wf(),
    ensures
        wkt::shape_of(r) == requested_geometry(kind, query@, numerals@),
{
    match kind {
        QueryKind::Cube => match query.bbox(numerals) {
            Err(e) => Err(e),
            Ok(None) => Err(EdrError::BadRequest("The cube query requires 'bbox'".to_owned())),
            Ok(Some((b, z))) => {
                let ghost bounds = params::box_of((b, z)).0;
                let (w, s, e, n) = (b[0], b[1], b[2], b[3]);
                let mut ring: Vec<Coord> = Vec::new();
                ring.push(Coord { x: w, y: s });
                ring.push(Coord { x: e, y: s });
                ring.push(Coord { x: e, y: n });
                ring.push(Coord { x: w, y: n });
                ring.push(Coord { x: w, y: s });
                assert(ring@ =~= wkt::box_ring(bounds));
                let mut rings: Vec<Vec<Coord>> = Vec::new();
                rings.push(ring);
                assert(wkt::rings_of(rings@) =~= seq![wkt::box_ring(bounds)]);
                Ok(Geometry::Polygon(rings))
            },
        },
        _ => match query.required("coords") {
            Ok(raw) => wkt::parse(raw.as_str(), numerals),
            Err(e) => Err(e),
        },
    }
}

/// The texts that stand where numbers belong in a request: in its query, and in
/// its coordinates.
pub open spec fn request_numerals(q: Seq<(Seq<char>, Seq<char>)>) -> Seq<Seq<char>> {
    let coordinates = match params::value(q, "coords"@) {
        None => Seq::empty(),
        Some(raw) => match wkt::outlined(raw) {
            Ok(o) => wkt::lists_numerals(o.1),
            Err(_) => Seq::empty(),
        },
    };
    params::queried_numerals(q) + coordinates
}

/// List the texts that stand where numbers belong in a request.
pub fn numerals(query: &Query) -> (r: Vec<String>)
    ensures
        text::texts(r@) == request_numerals(query@),
{
    let mut out = query.numerals();
    let ghost first = text::texts(out@);
    let mut more: Vec<String> = match query.get("coords") {
        Some(raw) => match wkt::outline(raw.as_str()) {
            Ok(o) => o.numerals(),
            Err(_) => Vec::new(),
        },
        None => Vec::new(),
    };
    let ghost second = text::texts(more@);
    proof {
        if params::value(query@, "coords"@) is None || wkt::outlined(
            params::value(query@, "coords"@)->0,
        ) is Err {
            assert(second =~= Seq::<Seq<char>>::empty());
        }
    }
    out.append(&mut more);
    assert(text::texts(out@) =~= first + second);
    out
}

/// A request's geometry depends on no numerals but those it lists.
pub proof fn request_numerals_suffice(
    kind: QueryKind,
    q: Seq<(Seq<char>, Seq<char>)>,
    m: Map<Seq<char>, Double>,
    n: Map<Seq<char>, Double>,
)
    requires
        wkt::agree(m, n, request_numerals(q)),
    ensures
        requested_geometry(kind, q, m) == requested_geometry(kind, q, n),
        params::queried_levels(q, m) == params::queried_levels(q, n),
        params::queried_radius(q, m) == params::queried_radius(q, n),
        params::queried_box(q, m) == params::queried_box(q, n),
{
    let all = request_numerals(q);
    let own = params::queried_numerals(q);
    assert forall|i: int| 0 <= i < own.len() implies crate::numerals::reading(
        m,
        #[trigger] own[i],
    ) == crate::numerals::reading(n, own[i]) by {
        assert(all[i] == own[i]);
    }
    params::queried_numerals_suffice(q, m, n);
    if let Some(raw) = params::value(q, "coords"@) {
        if let Ok(o) = wkt::outlined(raw) {
            let cs = wkt::lists_numerals(o.1);
            assert forall|i: int| 0 <= i < cs.len() implies crate::numerals::reading(
                m,
                #[trigger] cs[i],
            ) == crate::numerals::reading(n, cs[i]) by {
                assert(all[own.len() as int + i] == cs[i]);
            }
        }
        wkt::listed_numerals_suffice(raw, m, n);
    }
}

pub open spec fn nothing_held() -> Fault {
    Fault::NotFound(
        "The store holds no values for that selection; it may fall outside the period the collection actually covers"@,
    )
}

/// Whether a result has a value at all.
pub open spec fn holds_values(r: ResultSet) -> bool {
    exists|p: int, i: int|
        0 <= p < r.params.entries@.len() && 0 <= i < r.params.entries@[p].1.values@.len() && (
        #[trigger] r.params.entries@[p].1.values@[i]) is Some
}

/// A result is an answer only where it holds a value.
pub fn check_result(r: &ResultSet) -> (o: EdrResult<()>)
    ensures
        error::outcome(o) == (if holds_values(*r) {
            Ok::<(), Fault>(())
        } else {
            Err(nothing_held())
        }),
{
    if r.is_empty() {
        return Err(
            EdrError::NotFound(
                "The store holds no values for that selection; it may fall outside the period the collection actually covers".to_owned(),
            ),
        );
    }
    Ok(())
}

/// Decide what a page shows of a query: a malformed request without a geometry
/// is the form being opened, not a mistake.
pub fn outcome_of(
    answer: &EdrResult<(DataRequest, ResultSet)>,
    geometry_given: bool,
    query_string: String,
) -> (r: Outcome<'_>)
    ensures
        match r {
            Outcome::Blank => answer is Err && answer->Err_0@ is BadRequest && !geometry_given,
            Outcome::Failed(m) => answer is Err && !(answer->Err_0@ is BadRequest
                && !geometry_given) && m@ == answer->Err_0@.message(),
            Outcome::Data { request, result, query_string: q } => answer is Ok && *request
                == answer->Ok_0.0 && *result == answer->Ok_0.1 && q == query_string,
        },
{
    match answer {
        Ok(found) => Outcome::Data { request: &found.0, result: &found.1, query_string },
        Err(e) => {
            if let EdrError::BadRequest(_) = e {
                if !geometry_given {
                    return Outcome::Blank;
                }
            }
            Outcome::Failed(e.description().to_owned())
        },
    }
}

/// A result in the format that was asked for.
pub open spec fn encoded_tree(format: Format, request: DataRequest, r: ResultSet) -> Tree {
    match format {
        Format::CoverageJson => covjson::coverage_tree(*request.collection, request.kind, r),
        Format::GeoJson => geojson::feature_collection(*request.collection, r),
    }
}

pub fn encode(format: Format, request: &DataRequest, r: &ResultSet) -> (j: Json)
    requires
        request.collection.wf(),
        r.wf(),
        r.all_rows().len() <= usize::MAX,
    ensures
        json::tree(j) == encoded_tree(format, *request, *r),
{
    match format {
        Format::CoverageJson => covjson::encode(request, r),
        Format::GeoJson => geojson::encode(request, r),
    }
}

/// A query takes its geometry from its own parameter alone: a cube from its box,
/// whose corners are those of the one ring that is given back, and any other query
/// from its coordinates.
pub proof fn a_query_is_bounded_by_its_own_geometry(
    kind: QueryKind,
    q: Seq<(Seq<char>, Seq<char>)>,
    m: Map<Seq<char>, Double>,
)
    ensures
        kind == QueryKind::Cube ==> match params::queried_box(q, m) {
            Ok(Some(b)) => {
                &&& requested_geometry(kind, q, m) matches Ok(Shape::Polygon(rings))
                &&& rings.len() == 1 && rings[0].len() == 5
                &&& rings[0][0] == (Coord { x: b.0.west, y: b.0.south })
                &&& rings[0][1] == (Coord { x: b.0.east, y: b.0.south })
                &&& rings[0][2] == (Coord { x: b.0.east, y: b.0.north })
                &&& rings[0][3] == (Coord { x: b.0.west, y: b.0.north })
                &&& rings[0][4] == rings[0][0]
            },
            Ok(None) => requested_geometry(kind, q, m) matches Err(e) && e is BadRequest,
            Err(e) => requested_geometry(kind, q, m) == Err::<Shape, Fault>(e),
        },
        kind != QueryKind::Cube ==> match params::value(q, "coords"@) {
            Some(raw) => requested_geometry(kind, q, m) == wkt::parsed(raw, m),
            None => requested_geometry(kind, q, m) matches Err(e) && e is BadRequest,
        },
{
}

} // verus!
