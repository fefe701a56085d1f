//! Which grid cells a geometry selects.
//!
//! Longitudes may be stored 0…360 while EDR speaks CRS84, so a request that
//! straddles the prime meridian selects indices from both ends of the axis.
use vstd::prelude::*;

use crate::axis;
use crate::catalog::{self, Collection};
use crate::cells::{self, CellSet};
use crate::double::Double;
use crate::edr::params::{self, Query};
use crate::edr::wkt::{self, Bounds, Coord, Geometry, RingMeasure, Shape};
use crate::error::{EdrError, EdrResult, Fault};
use crate::numerals::Numerals;

verus! {

/// Which EDR data query produced a request; it decides the shape of the
/// response as much as the selection does.
#[derive(Debug, Clone, Copy, PartialEq, Eq, Structural)]
pub enum QueryKind {
    Position,
    Radius,
    Area,
    Cube,
}

impl QueryKind {
    pub open spec fn segment(self) -> Seq<char> {
        match self {
            QueryKind::Position => "position"@,
            QueryKind::Radius => "radius"@,
            QueryKind::Area => "area"@,
            QueryKind::Cube => "cube"@,
        }
    }

    pub fn path(self) -> (r: &'static str)
        ensures
            r@ == self.segment(),
    {
        match self {
            QueryKind::Position => "position",
            QueryKind::Radius => "radius",
            QueryKind::Area => "area",
            QueryKind::Cube => "cube",
        }
    }
}

/// What is worked out of a position and a grid: how far each latitude is from
/// it, its longitude in the store's own convention, and how far each longitude
/// is from that, along the axis and round the circle.
#[derive(Debug, Clone)]
pub struct PointMeasure {
    pub y_distances: Vec<Double>,
    pub native: Double,
    pub x_distances: Vec<Double>,
    pub x_around: Vec<Double>,
}

/// What is worked out of a range of longitudes from `west` to `east`: their
/// difference, the same round the circle, that with the tolerance added, and
/// for each longitude of the grid how far east of `west` it lies and how much
/// of a full turn is then left.
#[derive(Debug, Clone)]
pub struct CircleMeasure {
    pub west: Double,
    pub east: Double,
    pub width: Double,
    pub span: Double,
    pub reach: Double,
    pub offsets: Vec<Double>,
    pub gaps: Vec<Double>,
}

/// What is worked out of a geometry and a grid. Only what the query type needs
/// is read: `points` by position, and by radius for its centre; `circle` by all
/// but position; the rest by radius and area.
#[derive(Debug, Clone)]
pub struct SpaceMeasure {
    pub points: Vec<PointMeasure>,
    pub circle: CircleMeasure,
    /// The latitudes that a radius spans.
    pub south: Double,
    pub north: Double,
    /// A radius in metres.
    pub metres: Double,
    /// How far each cell of the grid is from a radius's centre, row by row.
    pub distances: Vec<Double>,
    /// Whether a polygon contains each cell of its box, row by row.
    pub inside: Vec<bool>,
}

impl PointMeasure {
    pub open spec fn fits(&self, c: &Collection) -> bool {
        &&& self.y_distances@.len() == c.y.values@.len()
        &&& self.x_distances@.len() == c.x.values@.len()
        &&& self.x_around@.len() == c.x.values@.len()
    }
}

impl CircleMeasure {
    pub open spec fn fits(&self, c: &Collection) -> bool {
        &&& self.offsets@.len() == c.x.values@.len()
        &&& self.gaps@.len() == c.x.values@.len()
    }
}

/// The positions that a query snaps to the grid.
pub open spec fn snapped(kind: QueryKind, g: Shape) -> Seq<Coord> {
    match (kind, g) {
        (QueryKind::Position, Shape::Polygon(_)) => Seq::empty(),
        (QueryKind::Position, _) => g.corners(),
        (QueryKind::Radius, Shape::Point(p)) => seq![p],
        _ => Seq::empty(),
    }
}

/// The range of longitudes that a query asks for: a cube's box gives its own
/// west and east, with the west above the east where it crosses the
/// antimeridian; any other geometry reaches from its least longitude to its
/// greatest.
pub open spec fn ranged(
    kind: QueryKind,
    q: Seq<(Seq<char>, Seq<char>)>,
    g: Shape,
    numerals: Map<Seq<char>, Double>,
) -> (Double, Double) {
    let b = match (kind, params::queried_box(q, numerals)) {
        (QueryKind::Cube, Ok(Some(given))) => given.0,
        _ => wkt::bounds(g.corners()),
    };
    (b.west, b.east)
}

/// The range of longitudes that a query asks for, from west to east.
pub fn longitude_range(
    kind: QueryKind,
    query: &Query,
    geometry: &Geometry,
    numerals: &Numerals,
) -> (r: (Double, Double))
    requires
        numerals.wf(),
    ensures
        r == ranged(kind, query@, geometry@, numerals@),
{
    if kind == QueryKind::Cube {
        if let Ok(Some((b, _))) = query.bbox(numerals) {
            return (b[0], b[2]);
        }
    }
    let b = geometry.bbox();
    (b[0], b[2])
}

impl SpaceMeasure {
    /// Whether there is a measure of every position that is snapped, of a size
    /// with the grid, of the longitudes that a box or polygon ranges over, and of
    /// every cell of the grid for a radius.
    pub open spec fn fits(
        &self,
        c: &Collection,
        kind: QueryKind,
        g: Shape,
        q: Seq<(Seq<char>, Seq<char>)>,
        numerals: Map<Seq<char>, Double>,
    ) -> bool {
        &&& self.points@.len() == snapped(kind, g).len()
        &&& forall|i: int| 0 <= i < self.points@.len() ==> (#[trigger] self.points@[i]).fits(c)
        &&& kind != QueryKind::Position ==> self.circle.fits(c)
        &&& kind == QueryKind::Area || kind == QueryKind::Cube ==> (
            self.circle.west,
            self.circle.east,
        ) == ranged(kind, q, g, numerals)
        &&& kind == QueryKind::Radius && g is Point ==> self.distances@.len()
            == c.y.values@.len() * c.x.values@.len()
    }
}

/// Longitude indices, latitude indices, and the cell mask for a selection that
/// is not a full rectangle.
#[derive(Debug)]
pub struct SpatialSelection {
    pub x_idx: Vec<usize>,
    pub y_idx: Vec<usize>,
    pub mask: Option<CellSet>,
}

/// What a [`SpatialSelection`] holds.
pub struct Region {
    pub x: Seq<usize>,
    pub y: Seq<usize>,
    pub mask: Option<Set<(usize, usize)>>,
}

/// A mask by the cells it holds.
pub open spec fn mask_of(mask: Option<CellSet>) -> Option<Set<(usize, usize)>> {
    match mask {
        Some(m) => Some(m@),
        None => None,
    }
}

impl View for SpatialSelection {
    type V = Region;

    open spec fn view(&self) -> Region {
        Region { x: self.x_idx@, y: self.y_idx@, mask: mask_of(self.mask) }
    }
}

/// Whether every index is below a length.
pub open spec fn below(s: Seq<usize>, n: nat) -> bool {
    forall|i: int| 0 <= i < s.len() ==> (#[trigger] s[i]) < n
}

impl SpatialSelection {
    /// Whether a selection lies on a grid: its indices do, each stands once,
    /// and a mask is in order and holds cells of the selection alone.
    pub open spec fn on_grid(&self, c: &Collection) -> bool {
        &&& cells::climbing(self.x_idx@)
        &&& cells::climbing(self.y_idx@)
        &&& below(self.x_idx@, c.x.values@.len())
        &&& below(self.y_idx@, c.y.values@.len())
        &&& self.mask matches Some(m) ==> m.wf() && forall|cell: (usize, usize)|
            #[trigger] m@.contains(cell) ==> self.y_idx@.contains(cell.0) && self.x_idx@.contains(
                cell.1,
            )
    }
}

/// The cell that a position snaps to.
pub open spec fn cell_at(c: &Collection, p: Coord, m: PointMeasure) -> (usize, usize) {
    (
        axis::nearest_to(c.y.values@, p.y, m.y_distances@) as usize,
        catalog::nearest_lon(
            c.x.values@,
            c.lon_global,
            m.native,
            m.x_distances@,
            m.x_around@,
        ) as usize,
    )
}

fn nearest_cell(c: &Collection, p: Coord, m: &PointMeasure) -> (r: (usize, usize))
    requires
        c.wf(),
        m.fits(c),
    ensures
        r == cell_at(c, p, *m),
        r.0 < c.y.values@.len(),
        r.1 < c.x.values@.len(),
{
    let y: usize = c.y.nearest_index(p.y, &m.y_distances);
    let x: usize = c.nearest_x(m.native, &m.x_distances, &m.x_around);
    (y, x)
}

/// The rows, and the columns, of a list of cells.
pub open spec fn rows(s: Seq<(usize, usize)>) -> Seq<usize> {
    Seq::new(s.len(), |i: int| s[i].0)
}

pub open spec fn columns(s: Seq<(usize, usize)>) -> Seq<usize> {
    Seq::new(s.len(), |i: int| s[i].1)
}

/// The region that scattered cells make: the rows and columns that they stand
/// in, and a mask unless they are the whole of that rectangle, each given once.
pub open spec fn scattered(s: Seq<(usize, usize)>) -> Region {
    let (y, x) = (cells::ascending(rows(s)), cells::ascending(columns(s)));
    Region {
        x,
        y,
        mask: if y.len() * x.len() == s.len() && s.to_set().len() == s.len() {
            None
        } else {
            Some(s.to_set())
        },
    }
}

/// Turn scattered cells into axis index lists plus a mask, so the SQL reads one
/// rectangle and the response keeps only the requested cells.
pub fn from_cells(list: Vec<(usize, usize)>) -> (r: SpatialSelection)
    ensures
        r@ == scattered(list@),
        cells::climbing(r.x_idx@),
        cells::climbing(r.y_idx@),
        r.mask matches Some(m) ==> m.wf(),
        r.x_idx@.to_set() == columns(list@).to_set(),
        r.y_idx@.to_set() == rows(list@).to_set(),
{
    let mut ys: Vec<usize> = Vec::new();
    let mut xs: Vec<usize> = Vec::new();
    let mut i: usize = 0;
    while i < list.len()
        invariant
            i <= list.len(),
            ys@ == rows(list@).take(i as int),
            xs@ == columns(list@).take(i as int),
        decreases list.len() - i,
    {
        ys.push(list[i].0);
        xs.push(list[i].1);
        i += 1;
    }
    proof {
        assert(rows(list@).take(i as int) == rows(list@));
        assert(columns(list@).take(i as int) == columns(list@));
    }
    let y_idx = cells::distinct(&ys);
    let x_idx = cells::distinct(&xs);
    let set = CellSet::of(&list);
    let count: usize = set.len();
    let full = match y_idx.len().checked_mul(x_idx.len()) {
        Some(area) => area == list.len(),
        None => false,
    };
    let mask = if full && count == list.len() {
        None
    } else {
        Some(set)
    };
    SpatialSelection { x_idx, y_idx, mask }
}

/// Whether a longitude lies in a range: not further east of its western edge
/// than the range spans, or at the edge itself where it spans nothing.
pub open spec fn in_arc(m: CircleMeasure, i: int) -> bool {
    m.offsets@[i].at_most(m.reach) || (m.span.equal(Double { bits: 0 }) && m.offsets@[i].lesser(
        m.gaps@[i],
    ).less(Double { bits: wkt::EPSILON }))
}

fn lies_in_arc(m: &CircleMeasure, i: usize) -> (r: bool)
    requires
        i < m.offsets@.len(),
        i < m.gaps@.len(),
    ensures
        r == in_arc(*m, i as int),
{
    let offset = m.offsets[i];
    offset.is_at_most(m.reach) || (m.span.is_equal(Double { bits: 0 }) && offset.min(
        m.gaps[i],
    ).is_less(Double { bits: wkt::EPSILON }))
}

/// The bits of a full turn, 360 degrees.
pub const TURN: u64 = 0x4076_8000_0000_0000;

/// The longitudes of a range; all of them where it goes all the way round.
pub open spec fn arc(n: nat, m: CircleMeasure) -> Seq<usize> {
    axis::kept(n, |i: int| (Double { bits: TURN }).at_most(m.width) || in_arc(m, i))
}

/// Longitude index selection, handling both the 0…360 storage convention and
/// boxes that cross the antimeridian (`west > east`).
fn longitude_indices(c: &Collection, m: &CircleMeasure) -> (r: Vec<usize>)
    requires
        m.fits(c),
    ensures
        r@ == arc(c.x.values@.len(), *m),
        cells::climbing(r@),
        below(r@, c.x.values@.len()),
{
    let whole = (Double { bits: TURN }).is_at_most(m.width);
    let n: usize = c.x.len();
    let mut out: Vec<usize> = Vec::new();
    let mut i: usize = 0;
    let ghost keep = |i: int| (Double { bits: TURN }).at_most(m.width) || in_arc(*m, i);
    while i < n
        invariant
            i <= n,
            n == c.x.values@.len(),
            m.fits(c),
            whole == (Double { bits: TURN }).at_most(m.width),
            keep == (|i: int| (Double { bits: TURN }).at_most(m.width) || in_arc(*m, i)),
            out@ == axis::kept(i as nat, keep),
        decreases n - i,
    {
        if whole || lies_in_arc(m, i) {
            out.push(i);
        }
        i += 1;
    }
    proof {
        axis::kept_is_exact(n as nat, keep);
    }
    out
}

pub open spec fn no_overlap() -> Fault {
    Fault::NotFound("The requested area does not overlap the collection's grid"@)
}

/// The indices of a box: its longitudes, and its latitudes.
pub open spec fn box_indices(c: &Collection, b: Bounds, m: CircleMeasure) -> Result<
    (Seq<usize>, Seq<usize>),
    Fault,
> {
    let y = axis::kept(
        c.y.values@.len(),
        |i: int| axis::in_range(c.y.values@, b.south, b.north, i),
    );
    let x = arc(c.x.values@.len(), m);
    if b.north.less(b.south) {
        Err(Fault::BadRequest("The bounding box's south edge is north of its north edge"@))
    } else if y.len() == 0 || x.len() == 0 {
        Err(no_overlap())
    } else {
        Ok((x, y))
    }
}

/// The longitude and latitude indices of a box, where `m` is what was worked
/// out of its longitudes.
pub fn rectangle(c: &Collection, b: &Bounds, m: &CircleMeasure) -> (r: EdrResult<
    (Vec<usize>, Vec<usize>),
>)
    requires
        c.wf(),
        m.fits(c),
    ensures
        match r {
            Ok(v) => {
                &&& box_indices(c, *b, *m) == Ok::<(Seq<usize>, Seq<usize>), Fault>((v.0@, v.1@))
                &&& cells::climbing(v.0@) && below(v.0@, c.x.values@.len())
                &&& cells::climbing(v.1@) && below(v.1@, c.y.values@.len())
            },
            Err(e) => box_indices(c, *b, *m) == Err::<(Seq<usize>, Seq<usize>), Fault>(e@),
        },
{
    if b.north.is_less(b.south) {
        return Err(
            EdrError::BadRequest(
                "The bounding box's south edge is north of its north edge".to_owned(),
            ),
        );
    }
    let y_idx = c.y.indices_in_range(b.south, b.north);
    let x_idx = longitude_indices(c, m);
    let ny: usize = c.y.len();
    proof {
        axis::kept_is_exact(
            ny as nat,
            |i: int| axis::in_range(c.y.values@, b.south, b.north, i),
        );
    }
    if y_idx.len() == 0 || x_idx.len() == 0 {
        return Err(
            EdrError::NotFound(
                "The requested area does not overlap the collection's grid".to_owned(),
            ),
        );
    }
    Ok((x_idx, y_idx))
}

/// Whether a cell is that of a row and a column of a window, and flagged.
pub open spec fn flagged(
    x: Seq<usize>,
    y: Seq<usize>,
    flags: Seq<bool>,
    cell: (usize, usize),
    i: int,
    j: int,
) -> bool {
    &&& 0 <= i < y.len()
    &&& 0 <= j < x.len()
    &&& i * x.len() + j < flags.len()
    &&& flags[i * x.len() + j]
    &&& cell == (y[i], x[j])
}

/// The cells of a window that are flagged, the flags being laid out row by row.
pub open spec fn flagged_cells(x: Seq<usize>, y: Seq<usize>, flags: Seq<bool>) -> Set<
    (usize, usize),
> {
    Set::new(
        |cell: (usize, usize)| exists|i: int, j: int| flagged(x, y, flags, cell, i, j),
    )
}

fn mask_from(x: &Vec<usize>, y: &Vec<usize>, flags: &Vec<bool>) -> (r: CellSet)
    ensures
        r.wf(),
        r@ == flagged_cells(x@, y@, flags@),
{
    let mut out = CellSet::new();
    let nx: usize = x.len();
    let mut base: usize = 0;
    let mut i: usize = 0;
    while i < y.len() && base < flags.len()
        invariant
            i <= y.len(),
            nx == x@.len(),
            out.wf(),
            base == i * nx || (base >= flags@.len() && i * nx >= flags@.len()),
            forall|c: (usize, usize)| #[trigger]
                out@.contains(c) <==> exists|a: int, b: int|
                    a < i && flagged(x@, y@, flags@, c, a, b),
        decreases y.len() - i,
    {
        let ghost start = out@;
        let mut j: usize = 0;
        while j < nx && j < flags.len() - base
            invariant
                i < y.len(),
                nx == x@.len(),
                base == i * nx,
                base < flags@.len(),
                j <= nx,
                j <= flags@.len() - base,
                out.wf(),
                forall|c: (usize, usize)| #[trigger]
                    start.contains(c) <==> exists|a: int, b: int|
                        a < i && flagged(x@, y@, flags@, c, a, b),
                forall|c: (usize, usize)| #[trigger]
                    out@.contains(c) <==> start.contains(c) || exists|b: int|
                        b < j && #[trigger] flagged(x@, y@, flags@, c, i as int, b),
            decreases nx - j,
        {
            let ghost before = out@;
            let cell = (y[i], x[j]);
            if flags[base + j] {
                out.insert(cell);
                assert(flagged(x@, y@, flags@, cell, i as int, j as int));
            }
            assert forall|c: (usize, usize)| #[trigger]
                out@.contains(c) <==> start.contains(c) || exists|b: int|
                    b < j + 1 && #[trigger] flagged(x@, y@, flags@, c, i as int, b) by {
                if before.contains(c) && !start.contains(c) {
                    let b = choose|b: int|
                        b < j && #[trigger] flagged(x@, y@, flags@, c, i as int, b);
                    assert(b < j + 1 && flagged(x@, y@, flags@, c, i as int, b));
                }
                if exists|b: int| b < j + 1 && #[trigger] flagged(x@, y@, flags@, c, i as int, b) {
                    let b = choose|b: int|
                        b < j + 1 && #[trigger] flagged(x@, y@, flags@, c, i as int, b);
                    if b < j {
                        assert(before.contains(c));
                    } else {
                        assert(c == cell && flags@[base + j]);
                    }
                }
            }
            j += 1;
        }
        proof {
            assert forall|c: (usize, usize)| #[trigger]
                out@.contains(c) <==> exists|a: int, b: int|
                    a < i + 1 && flagged(x@, y@, flags@, c, a, b) by {
                if out@.contains(c) {
                    if start.contains(c) {
                        let (a, b) = choose|a: int, b: int|
                            a < i && flagged(x@, y@, flags@, c, a, b);
                        assert(a < i + 1 && flagged(x@, y@, flags@, c, a, b));
                    } else {
                        let b = choose|b: int|
                            b < j && #[trigger] flagged(x@, y@, flags@, c, i as int, b);
                        assert(i < i + 1 && flagged(x@, y@, flags@, c, i as int, b));
                    }
                }
                if exists|a: int, b: int| a < i + 1 && flagged(x@, y@, flags@, c, a, b) {
                    let (a, b) = choose|a: int, b: int|
                        a < i + 1 && flagged(x@, y@, flags@, c, a, b);
                    if a < i {
                        assert(start.contains(c));
                    } else {
                        assert(b < j);
                        assert(out@.contains(c));
                    }
                }
            }
            assert((i + 1) * nx == i * nx + nx) by (nonlinear_arith);
        }
        if nx > flags.len() - base {
            base = flags.len();
        } else {
            base = base + nx;
        }
        i += 1;
    }
    proof {
        assert forall|c: (usize, usize)| #[trigger]
            out@.contains(c) <==> flagged_cells(x@, y@, flags@).contains(c) by {
            if out@.contains(c) {
                let (a, b) = choose|a: int, b: int| a < i && flagged(x@, y@, flags@, c, a, b);
                assert(flagged(x@, y@, flags@, c, a, b));
            }
            if exists|a: int, b: int| flagged(x@, y@, flags@, c, a, b) {
                let (a, b) = choose|a: int, b: int| flagged(x@, y@, flags@, c, a, b);
                if a >= i {
                    assert(a * nx >= i * nx) by (nonlinear_arith)
                        requires
                            a >= i,
                            nx >= 0,
                    ;
                    assert(false);
                }
                assert(out@.contains(c));
            }
        }
        assert(out@ =~= flagged_cells(x@, y@, flags@));
    }
    out
}

/// Whether the centre of a cell lies within a radius.
pub open spec fn reached(c: &Collection, m: SpaceMeasure, i: int, j: int) -> bool {
    &&& 0 <= i < c.y.values@.len()
    &&& 0 <= j < c.x.values@.len()
    &&& m.distances@[i * c.x.values@.len() + j].at_most(m.metres)
}

/// The cells of the grid whose centres lie within a radius.
pub open spec fn reached_cells(c: &Collection, m: SpaceMeasure) -> Set<(usize, usize)> {
    Set::new(|cell: (usize, usize)| reached(c, m, cell.0 as int, cell.1 as int))
}

/// Whether a radius reaches a cell of a row, and of a column.
pub open spec fn row_reached(c: &Collection, m: SpaceMeasure, i: int) -> bool {
    exists|j: int| reached(c, m, i, j)
}

pub open spec fn column_reached(c: &Collection, m: SpaceMeasure, j: int) -> bool {
    exists|i: int| reached(c, m, i, j)
}

/// The rows of a radius: those that it spans, and any other where it reaches a
/// cell.
pub open spec fn disc_rows(c: &Collection, m: SpaceMeasure) -> Seq<usize> {
    axis::kept(
        c.y.values@.len(),
        |i: int| axis::in_range(c.y.values@, m.south, m.north, i) || row_reached(c, m, i),
    )
}

/// The columns of a radius: those that it spans, and any other where it reaches
/// a cell.
pub open spec fn disc_columns(c: &Collection, m: SpaceMeasure) -> Seq<usize> {
    axis::kept(
        c.x.values@.len(),
        |j: int|
            (Double { bits: TURN }).at_most(m.circle.width) || in_arc(m.circle, j)
                || column_reached(c, m, j),
    )
}

/// The cells of a radius: those of the grid whose centres lie within it, or the
/// one nearest its own centre where there is none.
pub open spec fn disc(c: &Collection, centre: Coord, m: SpaceMeasure) -> Region {
    if reached_cells(c, m) == Set::<(usize, usize)>::empty() {
        scattered(seq![cell_at(c, centre, m.points@[0])])
    } else {
        Region { x: disc_columns(c, m), y: disc_rows(c, m), mask: Some(reached_cells(c, m)) }
    }
}

fn reaches(c: &Collection, m: &SpaceMeasure, i: usize, j: usize) -> (r: bool)
    requires
        m.distances@.len() == c.y.values@.len() * c.x.values@.len(),
        i < c.y.values@.len(),
        j < c.x.values@.len(),
    ensures
        r == reached(c, *m, i as int, j as int),
{
    let nx: usize = c.x.len();
    let ghost ny = c.y.values@.len() as int;
    assert(0 <= i * nx && i * nx + j < ny * nx) by (nonlinear_arith)
        requires
            0 <= i < ny,
            0 <= j < nx,
    ;
    assert(m.distances@.len() == m.distances.len());
    m.distances[i * nx + j].is_at_most(m.metres)
}

fn reaches_row(c: &Collection, m: &SpaceMeasure, i: usize) -> (r: bool)
    requires
        m.distances@.len() == c.y.values@.len() * c.x.values@.len(),
        i < c.y.values@.len(),
    ensures
        r == row_reached(c, *m, i as int),
{
    let mut j: usize = 0;
    while j < c.x.len()
        invariant
            m.distances@.len() == c.y.values@.len() * c.x.values@.len(),
            i < c.y.values@.len(),
            j <= c.x.values@.len(),
            forall|k: int| 0 <= k < j ==> !#[trigger] reached(c, *m, i as int, k),
        decreases c.x.values@.len() - j,
    {
        if reaches(c, m, i, j) {
            return true;
        }
        j += 1;
    }
    false
}

fn reaches_column(c: &Collection, m: &SpaceMeasure, j: usize) -> (r: bool)
    requires
        m.distances@.len() == c.y.values@.len() * c.x.values@.len(),
        j < c.x.values@.len(),
    ensures
        r == column_reached(c, *m, j as int),
{
    let mut i: usize = 0;
    while i < c.y.len()
        invariant
            m.distances@.len() == c.y.values@.len() * c.x.values@.len(),
            j < c.x.values@.len(),
            i <= c.y.values@.len(),
            forall|k: int| 0 <= k < i ==> !#[trigger] reached(c, *m, k, j as int),
        decreases c.y.values@.len() - i,
    {
        if reaches(c, m, i, j) {
            return true;
        }
        i += 1;
    }
    false
}

fn rows_of_radius(c: &Collection, m: &SpaceMeasure) -> (r: Vec<usize>)
    requires
        c.wf(),
        m.distances@.len() == c.y.values@.len() * c.x.values@.len(),
    ensures
        r@ == disc_rows(c, *m),
        cells::climbing(r@),
        below(r@, c.y.values@.len()),
{
    let n: usize = c.y.len();
    let mut out: Vec<usize> = Vec::new();
    let mut i: usize = 0;
    let ghost keep = |i: int|
        axis::in_range(c.y.values@, m.south, m.north, i) || row_reached(c, *m, i);
    while i < n
        invariant
            i <= n,
            n == c.y.values@.len(),
            m.distances@.len() == c.y.values@.len() * c.x.values@.len(),
            keep == (|i: int|
                axis::in_range(c.y.values@, m.south, m.north, i) || row_reached(c, *m, i)),
            out@ == axis::kept(i as nat, keep),
        decreases n - i,
    {
        if c.y.lies_between(m.south, m.north, i) || reaches_row(c, m, i) {
            out.push(i);
        }
        i += 1;
    }
    proof {
        axis::kept_is_exact(n as nat, keep);
    }
    out
}

fn columns_of_radius(c: &Collection, m: &SpaceMeasure) -> (r: Vec<usize>)
    requires
        m.circle.fits(c),
        m.distances@.len() == c.y.values@.len() * c.x.values@.len(),
    ensures
        r@ == disc_columns(c, *m),
        cells::climbing(r@),
        below(r@, c.x.values@.len()),
{
    let whole = (Double { bits: TURN }).is_at_most(m.circle.width);
    let n: usize = c.x.len();
    let mut out: Vec<usize> = Vec::new();
    let mut j: usize = 0;
    let ghost keep = |j: int|
        (Double { bits: TURN }).at_most(m.circle.width) || in_arc(m.circle, j) || column_reached(
            c,
            *m,
            j,
        );
    while j < n
        invariant
            j <= n,
            n == c.x.values@.len(),
            m.circle.fits(c),
            m.distances@.len() == c.y.values@.len() * c.x.values@.len(),
            whole == (Double { bits: TURN }).at_most(m.circle.width),
            keep == (|j: int|
                (Double { bits: TURN }).at_most(m.circle.width) || in_arc(m.circle, j)
                    || column_reached(c, *m, j)),
            out@ == axis::kept(j as nat, keep),
        decreases n - j,
    {
        if whole || lies_in_arc(&m.circle, j) || reaches_column(c, m, j) {
            out.push(j);
        }
        j += 1;
    }
    proof {
        axis::kept_is_exact(n as nat, keep);
    }
    out
}

/// The cells of the grid whose centres lie within a radius.
fn cells_reached(c: &Collection, m: &SpaceMeasure) -> (r: CellSet)
    requires
        m.distances@.len() == c.y.values@.len() * c.x.values@.len(),
    ensures
        r.wf(),
        r@ == reached_cells(c, *m),
{
    let mut out = CellSet::new();
    let mut i: usize = 0;
    while i < c.y.len()
        invariant
            m.distances@.len() == c.y.values@.len() * c.x.values@.len(),
            i <= c.y.values@.len(),
            out.wf(),
            forall|cell: (usize, usize)| #[trigger]
                out@.contains(cell) <==> cell.0 < i && reached(
                    c,
                    *m,
                    cell.0 as int,
                    cell.1 as int,
                ),
        decreases c.y.values@.len() - i,
    {
        let mut j: usize = 0;
        while j < c.x.len()
            invariant
                m.distances@.len() == c.y.values@.len() * c.x.values@.len(),
                i < c.y.values@.len(),
                j <= c.x.values@.len(),
                out.wf(),
                forall|cell: (usize, usize)| #[trigger]
                    out@.contains(cell) <==> (cell.0 < i || (cell.0 == i && cell.1 < j))
                        && reached(c, *m, cell.0 as int, cell.1 as int),
            decreases c.x.values@.len() - j,
        {
            if reaches(c, m, i, j) {
                out.insert((i, j));
            }
            j += 1;
        }
        i += 1;
    }
    assert(out@ =~= reached_cells(c, *m));
    out
}

proof fn scattered_is_on_grid(s: Seq<(usize, usize)>, r: SpatialSelection, c: &Collection)
    requires
        r@ == scattered(s),
        cells::climbing(r.x_idx@),
        cells::climbing(r.y_idx@),
        r.mask matches Some(m) ==> m.wf(),
        r.x_idx@.to_set() == columns(s).to_set(),
        r.y_idx@.to_set() == rows(s).to_set(),
        forall|i: int|
            0 <= i < s.len() ==> (#[trigger] s[i]).0 < c.y.values@.len() && s[i].1
                < c.x.values@.len(),
    ensures
        r.on_grid(c),
{
    assert forall|i: int| 0 <= i < r.x_idx@.len() implies (#[trigger] r.x_idx@[i])
        < c.x.values@.len() by {
        assert(r.x_idx@.to_set().contains(r.x_idx@[i]));
        assert(columns(s).to_set().contains(r.x_idx@[i]));
        let k = choose|k: int| 0 <= k < columns(s).len() && columns(s)[k] == r.x_idx@[i];
        assert(s[k].1 == r.x_idx@[i]);
    }
    assert forall|i: int| 0 <= i < r.y_idx@.len() implies (#[trigger] r.y_idx@[i])
        < c.y.values@.len() by {
        assert(r.y_idx@.to_set().contains(r.y_idx@[i]));
        assert(rows(s).to_set().contains(r.y_idx@[i]));
        let k = choose|k: int| 0 <= k < rows(s).len() && rows(s)[k] == r.y_idx@[i];
        assert(s[k].0 == r.y_idx@[i]);
    }
    if let Some(m) = r.mask {
        assert forall|cell: (usize, usize)| #[trigger] m@.contains(cell) implies
            r.y_idx@.contains(cell.0) && r.x_idx@.contains(cell.1) by {
            assert(s.to_set().contains(cell));
            let k = choose|k: int| 0 <= k < s.len() && s[k] == cell;
            assert(rows(s)[k] == cell.0 && columns(s)[k] == cell.1);
            assert(rows(s).to_set().contains(cell.0));
            assert(columns(s).to_set().contains(cell.1));
            assert(r.y_idx@.to_set().contains(cell.0));
            assert(r.x_idx@.to_set().contains(cell.1));
        }
    }
}

proof fn flagged_is_on_grid(x: Seq<usize>, y: Seq<usize>, flags: Seq<bool>)
    ensures
        forall|cell: (usize, usize)| #[trigger]
            flagged_cells(x, y, flags).contains(cell) ==> y.contains(cell.0) && x.contains(cell.1),
{
    assert forall|cell: (usize, usize)| #[trigger]
        flagged_cells(x, y, flags).contains(cell) implies y.contains(cell.0) && x.contains(
        cell.1,
    ) by {
        let (i, j) = choose|i: int, j: int| flagged(x, y, flags, cell, i, j);
        assert(y[i] == cell.0 && x[j] == cell.1);
    }
}

fn cells_within_radius(c: &Collection, centre: Coord, m: &SpaceMeasure) -> (r: SpatialSelection)
    requires
        c.wf(),
        m.points@.len() == 1,
        m.points@[0].fits(c),
        m.circle.fits(c),
        m.distances@.len() == c.y.values@.len() * c.x.values@.len(),
    ensures
        r@ == disc(c, centre, *m),
        r.on_grid(c),
{
    let mask = cells_reached(c, m);
    if mask.len() == 0 {
        assert(mask@ =~= Set::<(usize, usize)>::empty());
        let cell = nearest_cell(c, centre, &m.points[0]);
        let mut list: Vec<(usize, usize)> = Vec::new();
        list.push(cell);
        assert(list@ == seq![cell_at(c, centre, m.points@[0])]);
        let r = from_cells(list);
        proof {
            scattered_is_on_grid(list@, r, c);
        }
        return r;
    }
    let x_idx = columns_of_radius(c, m);
    let y_idx = rows_of_radius(c, m);
    proof {
        disc_holds_what_it_reaches(c, *m);
        assert(mask@ != Set::<(usize, usize)>::empty());
    }
    SpatialSelection { x_idx, y_idx, mask: Some(mask) }
}

/// Every cell that a radius reaches stands in one of its rows and columns.
proof fn disc_holds_what_it_reaches(c: &Collection, m: SpaceMeasure)
    ensures
        forall|cell: (usize, usize)| #[trigger]
            reached_cells(c, m).contains(cell) ==> disc_rows(c, m).contains(cell.0)
                && disc_columns(c, m).contains(cell.1),
{
    let rows = |i: int| axis::in_range(c.y.values@, m.south, m.north, i) || row_reached(c, m, i);
    let columns = |j: int|
        (Double { bits: TURN }).at_most(m.circle.width) || in_arc(m.circle, j) || column_reached(
            c,
            m,
            j,
        );
    assert(c.y.values@.len() == c.y.values.len() && c.x.values@.len() == c.x.values.len());
    axis::kept_is_exact(c.y.values@.len(), rows);
    axis::kept_is_exact(c.x.values@.len(), columns);
    assert forall|cell: (usize, usize)| #[trigger]
        reached_cells(c, m).contains(cell) implies disc_rows(c, m).contains(cell.0)
        && disc_columns(c, m).contains(cell.1) by {
        assert(reached(c, m, cell.0 as int, cell.1 as int));
        assert(rows(cell.0 as int) && columns(cell.1 as int));
    }
}

/// The region that a geometry selects, or why it selects none.
pub open spec fn region(
    c: &Collection,
    kind: QueryKind,
    g: Shape,
    q: Seq<(Seq<char>, Seq<char>)>,
    numerals: Map<Seq<char>, Double>,
    m: SpaceMeasure,
) -> Result<Region, Fault> {
    match kind {
        QueryKind::Position => match g {
            Shape::Polygon(_) => Err(
                Fault::BadRequest(
                    "The position query takes POINT or MULTIPOINT coords; use /area for a POLYGON"@,
                ),
            ),
            _ => Ok(scattered(cells_at(c, g.corners(), m.points@))),
        },
        QueryKind::Radius => match g {
            Shape::Point(centre) => match params::queried_radius(q, numerals) {
                Err(e) => Err(e),
                Ok(_) => Ok(disc(c, centre, m)),
            },
            _ => Err(Fault::BadRequest("The radius query takes POINT coords"@)),
        },
        QueryKind::Area => match g {
            Shape::Polygon(_) => match box_indices(c, wkt::bounds(g.corners()), m.circle) {
                Err(e) => Err(e),
                Ok(v) => Ok(
                    Region {
                        x: v.0,
                        y: v.1,
                        mask: Some(flagged_cells(v.0, v.1, m.inside@)),
                    },
                ),
            },
            _ => Err(Fault::BadRequest("The area query takes POLYGON coords"@)),
        },
        QueryKind::Cube => match box_indices(c, wkt::bounds(g.corners()), m.circle) {
            Err(e) => Err(e),
            Ok(v) => Ok(Region { x: v.0, y: v.1, mask: None }),
        },
    }
}

/// The cells that positions snap to, in order.
pub open spec fn cells_at(c: &Collection, points: Seq<Coord>, m: Seq<PointMeasure>) -> Seq<
    (usize, usize),
> {
    Seq::new(points.len(), |i: int| cell_at(c, points[i], m[i]))
}

/// Resolve the geometry to longitude/latitude indices plus an optional cell
/// mask for the non-rectangular query types.
pub fn resolve_spatial(
    c: &Collection,
    kind: QueryKind,
    geometry: &Geometry,
    query: &Query,
    numerals: &Numerals,
    m: &SpaceMeasure,
) -> (r: EdrResult<SpatialSelection>)
    requires
        c.wf(),
        numerals.wf(),
        m.fits(c, kind, geometry@, query@, numerals@),
    ensures
        match r {
            Ok(s) => region(c, kind, geometry@, query@, numerals@, *m) == Ok::<Region, Fault>(s@)
                && s.on_grid(c),
            Err(e) => region(c, kind, geometry@, query@, numerals@, *m) == Err::<Region, Fault>(e@),
        },
{
    match kind {
        QueryKind::Position => {
            if let Geometry::Polygon(_) = geometry {
                return Err(
                    EdrError::BadRequest(
                        "The position query takes POINT or MULTIPOINT coords; use /area for a POLYGON".to_owned(),
                    ),
                );
            }
            let points = geometry.vertices();
            let ghost all = cells_at(c, points@, m.points@);
            let mut list: Vec<(usize, usize)> = Vec::new();
            let mut i: usize = 0;
            while i < points.len()
                invariant
                    c.wf(),
                    i <= points.len(),
                    m.points@.len() == points@.len(),
                    forall|k: int|
                        0 <= k < m.points@.len() ==> (#[trigger] m.points@[k]).fits(c),
                    all == cells_at(c, points@, m.points@),
                    list@ == all.take(i as int),
                    forall|k: int|
                        0 <= k < list@.len() ==> (#[trigger] list@[k]).0 < c.y.values@.len()
                            && list@[k].1 < c.x.values@.len(),
                decreases points.len() - i,
            {
                assert(m.points@[i as int].fits(c));
                list.push(nearest_cell(c, points[i], &m.points[i]));
                assert(all.take(i + 1) == all.take(i as int).push(all[i as int]));
                i += 1;
            }
            assert(all.take(i as int) == all);
            let s = from_cells(list);
            proof {
                scattered_is_on_grid(list@, s, c);
            }
            Ok(s)
        },
        QueryKind::Radius => match geometry {
            Geometry::Point(centre) => {
                if let Err(e) = query.radius_metres(numerals) {
                    return Err(e);
                }
                assert(m.points@[0].fits(c));
                Ok(cells_within_radius(c, *centre, m))
            },
            _ => Err(EdrError::BadRequest("The radius query takes POINT coords".to_owned())),
        },
        QueryKind::Area => {
            match geometry {
                Geometry::Polygon(_) => {},
                _ => {
                    return Err(
                        EdrError::BadRequest("The area query takes POLYGON coords".to_owned()),
                    );
                },
            }
            let b = geometry.bbox();
            let bounds = Bounds { west: b[0], south: b[1], east: b[2], north: b[3] };
            match rectangle(c, &bounds, &m.circle) {
                Err(e) => Err(e),
                Ok((x_idx, y_idx)) => {
                    let mask = mask_from(&x_idx, &y_idx, &m.inside);
                    proof {
                        flagged_is_on_grid(x_idx@, y_idx@, m.inside@);
                    }
                    Ok(SpatialSelection { x_idx, y_idx, mask: Some(mask) })
                },
            }
        },
        QueryKind::Cube => {
            let b = geometry.bbox();
            let bounds = Bounds { west: b[0], south: b[1], east: b[2], north: b[3] };
            match rectangle(c, &bounds, &m.circle) {
                Err(e) => Err(e),
                Ok((x_idx, y_idx)) => Ok(SpatialSelection { x_idx, y_idx, mask: None }),
            }
        },
    }
}

/// Whether a region selects a cell: it stands in one of the region's rows and
/// columns, and in its mask where there is one.
pub open spec fn selects(r: Region, cell: (usize, usize)) -> bool {
    &&& r.y.contains(cell.0)
    &&& r.x.contains(cell.1)
    &&& r.mask matches Some(m) ==> m.contains(cell)
}

/// Scattered cells select themselves and no others.
pub proof fn scattered_selects_its_cells(s: Seq<(usize, usize)>, r: SpatialSelection)
    requires
        r@ == scattered(s),
        cells::climbing(r.x_idx@),
        cells::climbing(r.y_idx@),
        r.x_idx@.to_set() == columns(s).to_set(),
        r.y_idx@.to_set() == rows(s).to_set(),
    ensures
        forall|cell: (usize, usize)| #[trigger] selects(r@, cell) <==> s.contains(cell),
{
    let (y, x) = (r.y_idx@, r.x_idx@);
    let all = cells::rectangle(y, x);
    let set = s.to_set();
    assert forall|cell: (usize, usize)| #[trigger] set.contains(cell) implies all.contains(cell) by {
        let k = choose|k: int| 0 <= k < s.len() && s[k] == cell;
        assert(rows(s)[k] == cell.0 && columns(s)[k] == cell.1);
        assert(rows(s).to_set().contains(cell.0) && columns(s).to_set().contains(cell.1));
        assert(y.to_set().contains(cell.0) && x.to_set().contains(cell.1));
    }
    if r.mask is None {
        cells::rectangle_size(y, x);
        vstd::set_lib::lemma_subset_equality(set, all);
    }
    assert forall|cell: (usize, usize)| #[trigger] selects(r@, cell) <==> s.contains(cell) by {
        assert(set.contains(cell) <==> s.contains(cell));
        assert(all.contains(cell) <==> y.contains(cell.0) && x.contains(cell.1));
    }
}

proof fn one_cell_selects_itself(cell: (usize, usize))
    ensures
        forall|other: (usize, usize)| #[trigger]
            selects(scattered(seq![cell]), other) <==> other == cell,
{
    let s = seq![cell];
    let (ys, xs) = (seq![cell.0], seq![cell.1]);
    assert(rows(s) == ys && columns(s) == xs);
    cells::climbing_is_canonical(ys, cells::ascending(ys));
    cells::climbing_is_canonical(xs, cells::ascending(xs));
    assert(s[0] == cell && ys[0] == cell.0 && xs[0] == cell.1);
    assert(s.to_set().contains(cell));
    assert forall|other: (usize, usize)| #[trigger] selects(scattered(s), other) implies other
        == cell by {
        let i = choose|i: int| 0 <= i < ys.len() && ys[i] == other.0;
        let j = choose|j: int| 0 <= j < xs.len() && xs[j] == other.1;
        assert(i == 0 && j == 0);
    }
}

/// A radius selects the cells of the grid whose centres lie within it, and no
/// others.
pub proof fn a_radius_selects_what_it_reaches(
    c: &Collection,
    centre: Coord,
    m: SpaceMeasure,
    cell: (usize, usize),
)
    requires
        exists|i: int, j: int| reached(c, m, i, j),
    ensures
        selects(disc(c, centre, m), cell) <==> reached(c, m, cell.0 as int, cell.1 as int),
{
    let all = reached_cells(c, m);
    let (i, j) = choose|i: int, j: int| reached(c, m, i, j);
    assert(c.y.values@.len() == c.y.values.len() && c.x.values@.len() == c.x.values.len());
    assert(all.contains((i as usize, j as usize)));
    disc_holds_what_it_reaches(c, m);
    assert(all.contains(cell) <==> reached(c, m, cell.0 as int, cell.1 as int));
}

/// A radius that reaches no cell selects the one nearest its centre, and no
/// other.
pub proof fn a_small_radius_selects_the_nearest_cell(
    c: &Collection,
    centre: Coord,
    m: SpaceMeasure,
    cell: (usize, usize),
)
    requires
        forall|i: int, j: int| !reached(c, m, i, j),
    ensures
        selects(disc(c, centre, m), cell) <==> cell == cell_at(c, centre, m.points@[0]),
{
    assert(reached_cells(c, m) =~= Set::<(usize, usize)>::empty());
    one_cell_selects_itself(cell_at(c, centre, m.points@[0]));
}

/// A radius always selects a cell, however small it is.
pub proof fn a_radius_always_selects(c: &Collection, centre: Coord, m: SpaceMeasure)
    ensures
        exists|cell: (usize, usize)| #[trigger] selects(disc(c, centre, m), cell),
{
    if exists|i: int, j: int| reached(c, m, i, j) {
        let (i, j) = choose|i: int, j: int| reached(c, m, i, j);
        assert(c.y.values@.len() == c.y.values.len() && c.x.values@.len() == c.x.values.len());
        let cell = (i as usize, j as usize);
        a_radius_selects_what_it_reaches(c, centre, m, cell);
        assert(selects(disc(c, centre, m), cell));
    } else {
        let cell = cell_at(c, centre, m.points@[0]);
        a_small_radius_selects_the_nearest_cell(c, centre, m, cell);
        assert(selects(disc(c, centre, m), cell));
    }
}

/// A cube selects the cells whose latitude lies between its box's edges and whose
/// longitude lies in its range, and no others.
pub proof fn a_cube_selects_the_cells_of_its_box(
    c: &Collection,
    g: Shape,
    q: Seq<(Seq<char>, Seq<char>)>,
    numerals: Map<Seq<char>, Double>,
    m: SpaceMeasure,
    i: int,
    j: int,
)
    requires
        region(c, QueryKind::Cube, g, q, numerals, m) is Ok,
        0 <= i < c.y.values@.len(),
        0 <= j < c.x.values@.len(),
    ensures
        ({
            let b = wkt::bounds(g.corners());
            selects(
                region(c, QueryKind::Cube, g, q, numerals, m)->Ok_0,
                (i as usize, j as usize),
            ) <==> axis::in_range(c.y.values@, b.south, b.north, i) && ((Double {
                bits: TURN,
            }).at_most(m.circle.width) || in_arc(m.circle, j))
        }),
{
    let b = wkt::bounds(g.corners());
    let rows = |k: int| axis::in_range(c.y.values@, b.south, b.north, k);
    let columns = |k: int| (Double { bits: TURN }).at_most(m.circle.width) || in_arc(m.circle, k);
    assert(c.y.values@.len() == c.y.values.len() && c.x.values@.len() == c.x.values.len());
    axis::kept_is_exact(c.y.values@.len(), rows);
    axis::kept_is_exact(c.x.values@.len(), columns);
    let r = region(c, QueryKind::Cube, g, q, numerals, m)->Ok_0;
    assert(r.y == axis::kept(c.y.values@.len(), rows));
    assert(r.x == axis::kept(c.x.values@.len(), columns));
    assert(r.y.contains(i as usize) <==> rows(i));
    assert(r.x.contains(j as usize) <==> columns(j));
}

/// An area query whose polygon contains every cell of its box selects the same
/// cells as the cube over that box.
pub proof fn a_covered_area_is_the_cube(
    c: &Collection,
    g: Shape,
    q: Seq<(Seq<char>, Seq<char>)>,
    numerals: Map<Seq<char>, Double>,
    m: SpaceMeasure,
    cell: (usize, usize),
)
    requires
        g is Polygon,
        region(c, QueryKind::Area, g, q, numerals, m) is Ok,
        m.inside@.len() == region(c, QueryKind::Area, g, q, numerals, m)->Ok_0.y.len()
            * region(c, QueryKind::Area, g, q, numerals, m)->Ok_0.x.len(),
        forall|k: int| 0 <= k < m.inside@.len() ==> #[trigger] m.inside@[k],
    ensures
        region(c, QueryKind::Cube, g, q, numerals, m) is Ok,
        selects(region(c, QueryKind::Area, g, q, numerals, m)->Ok_0, cell) <==> selects(
            region(c, QueryKind::Cube, g, q, numerals, m)->Ok_0,
            cell,
        ),
{
    let a = region(c, QueryKind::Area, g, q, numerals, m)->Ok_0;
    let (x, y) = (a.x, a.y);
    if y.contains(cell.0) && x.contains(cell.1) {
        let i = choose|i: int| 0 <= i < y.len() && y[i] == cell.0;
        let j = choose|j: int| 0 <= j < x.len() && x[j] == cell.1;
        assert(i * x.len() + j < y.len() * x.len() && 0 <= i * x.len() + j) by (nonlinear_arith)
            requires
                0 <= i < y.len(),
                0 <= j < x.len(),
        ;
        assert(m.inside@[i * x.len() + j]);
        assert(flagged(x, y, m.inside@, cell, i, j));
        assert(flagged_cells(x, y, m.inside@).contains(cell));
    }
}

/// A place where the centre of a cell stands: its longitude in CRS84 or that a full
/// turn away, with what was worked out of a polygon's rings and that place.
#[derive(Debug, Clone)]
pub struct PlaceMeasure {
    pub lon: Double,
    pub rings: Vec<RingMeasure>,
}

/// Whether places are those of a cell's centre: as CRS84 gives its longitude, a
/// full turn east of that and a full turn west, each with a measure of every ring.
pub open spec fn placed(c: &Collection, x: usize, g: Shape, places: Seq<PlaceMeasure>) -> bool {
    &&& places.len() == 3
    &&& places[0].lon == c.x_crs84@[x as int]
    &&& g matches Shape::Polygon(rings) ==> forall|k: int|
        0 <= k < places.len() ==> wkt::measured(rings, (#[trigger] places[k]).rings@)
}

/// Whether a polygon covers a place on a latitude.
pub open spec fn covered_at(g: Shape, place: PlaceMeasure, lat: Double) -> bool {
    wkt::covers(g, place.rings@, Coord { x: place.lon, y: lat })
}

/// Whether a polygon covers the centre of a cell at one of its places, so that
/// one drawn up to or across the antimeridian keeps the cells on either side.
pub open spec fn covered(g: Shape, places: Seq<PlaceMeasure>, lat: Double) -> bool {
    exists|k: int| 0 <= k < places.len() && covered_at(g, #[trigger] places[k], lat)
}

/// Whether a polygon covers the centre of each cell of a row, where `measures`
/// holds what was worked out of its rings and the places of each centre.
pub fn inside_row(
    c: &Collection,
    geometry: &Geometry,
    y: usize,
    x_idx: &Vec<usize>,
    measures: &Vec<Vec<PlaceMeasure>>,
) -> (r: Vec<bool>)
    requires
        c.wf(),
        y < c.y.values@.len(),
        below(x_idx@, c.x.values@.len()),
        measures@.len() == x_idx@.len(),
        forall|j: int|
            0 <= j < measures@.len() ==> placed(c, x_idx@[j], geometry@, (#[trigger] measures@[j])@),
    ensures
        r@.len() == x_idx@.len(),
        forall|j: int|
            0 <= j < r@.len() ==> #[trigger] r@[j] == covered(
                geometry@,
                measures@[j]@,
                c.y.values@[y as int],
            ),
{
    let lat = c.y.values[y];
    let mut out: Vec<bool> = Vec::new();
    let mut j: usize = 0;
    while j < x_idx.len()
        invariant
            measures@.len() == x_idx@.len(),
            forall|k: int|
                0 <= k < measures@.len() ==> placed(
                    c,
                    x_idx@[k],
                    geometry@,
                    (#[trigger] measures@[k])@,
                ),
            j <= x_idx@.len(),
            out@.len() == j,
            forall|k: int|
                0 <= k < j ==> #[trigger] out@[k] == covered(geometry@, measures@[k]@, lat),
        decreases x_idx@.len() - j,
    {
        let places = &measures[j];
        assert(placed(c, x_idx@[j as int], geometry@, measures@[j as int]@));
        let mut hit = false;
        let mut k: usize = 0;
        while k < places.len()
            invariant
                geometry@ matches Shape::Polygon(rings) ==> forall|i: int|
                    0 <= i < places@.len() ==> wkt::measured(rings, (#[trigger] places@[i]).rings@),
                k <= places@.len(),
                hit == exists|i: int|
                    0 <= i < k && covered_at(geometry@, #[trigger] places@[i], lat),
            decreases places@.len() - k,
        {
            assert(geometry@ matches Shape::Polygon(rings) ==> wkt::measured(
                rings,
                places@[k as int].rings@,
            ));
            let p = Coord { x: places[k].lon, y: lat };
            if geometry.contains(p, &places[k].rings) {
                assert(covered_at(geometry@, places@[k as int], lat));
                hit = true;
            }
            k += 1;
        }
        out.push(hit);
        j += 1;
    }
    out
}

/// Whether flags, laid out row by row, say of each cell of a window whether a
/// polygon covers its centre.
pub open spec fn says_what_is_covered(
    c: &Collection,
    g: Shape,
    x: Seq<usize>,
    y: Seq<usize>,
    flags: Seq<bool>,
    places: Seq<Seq<Seq<PlaceMeasure>>>,
) -> bool {
    &&& flags.len() == y.len() * x.len()
    &&& forall|i: int, j: int|
        #![trigger places[i][j]]
        0 <= i < y.len() && 0 <= j < x.len() ==> placed(c, x[j], g, places[i][j]) && flags[i
            * x.len() + j] == covered(g, places[i][j], c.y.values@[y[i] as int])
}

/// An area query selects the cells of its box whose centres its polygon covers,
/// and no others.
pub proof fn an_area_selects_the_cells_it_covers(
    c: &Collection,
    g: Shape,
    q: Seq<(Seq<char>, Seq<char>)>,
    numerals: Map<Seq<char>, Double>,
    m: SpaceMeasure,
    places: Seq<Seq<Seq<PlaceMeasure>>>,
    i: int,
    j: int,
)
    requires
        c.wf(),
        g is Polygon,
        region(c, QueryKind::Area, g, q, numerals, m) is Ok,
        says_what_is_covered(
            c,
            g,
            region(c, QueryKind::Area, g, q, numerals, m)->Ok_0.x,
            region(c, QueryKind::Area, g, q, numerals, m)->Ok_0.y,
            m.inside@,
            places,
        ),
        0 <= i < region(c, QueryKind::Area, g, q, numerals, m)->Ok_0.y.len(),
        0 <= j < region(c, QueryKind::Area, g, q, numerals, m)->Ok_0.x.len(),
    ensures
        ({
            let r = region(c, QueryKind::Area, g, q, numerals, m)->Ok_0;
            selects(r, (r.y[i], r.x[j])) <==> covered(
                g,
                places[i][j],
                c.y.values@[r.y[i] as int],
            )
        }),
{
    let r = region(c, QueryKind::Area, g, q, numerals, m)->Ok_0;
    let b = wkt::bounds(g.corners());
    let (x, y) = (r.x, r.y);
    let cell = (y[i], x[j]);
    let rows = |k: int| axis::in_range(c.y.values@, b.south, b.north, k);
    let columns = |k: int| (Double { bits: TURN }).at_most(m.circle.width) || in_arc(m.circle, k);
    assert(c.y.values@.len() == c.y.values.len() && c.x.values@.len() == c.x.values.len());
    axis::kept_is_exact(c.y.values@.len(), rows);
    axis::kept_is_exact(c.x.values@.len(), columns);
    assert(y == axis::kept(c.y.values@.len(), rows));
    assert(x == axis::kept(c.x.values@.len(), columns));
    let n = x.len() as int;
    assert(0 <= i * n + j < y.len() * n) by (nonlinear_arith)
        requires
            0 <= i < y.len(),
            0 <= j < n,
    ;
    assert(m.inside@[i * n + j] == covered(g, places[i][j], c.y.values@[y[i] as int]));
    if m.inside@[i * n + j] {
        assert(flagged(x, y, m.inside@, cell, i, j));
    }
    if flagged_cells(x, y, m.inside@).contains(cell) {
        let (a, d) = choose|a: int, d: int| flagged(x, y, m.inside@, cell, a, d);
        assert(y[a] == y[i] && x[d] == x[j]);
        assert(a == i && d == j);
    }
}

/// An area query over a rectangle selects every cell of its box whose centre lies
/// in the rectangle at one of its places, edges and corners included, as the
/// equivalent cube does.
pub proof fn a_rectangular_area_keeps_its_border(
    c: &Collection,
    b: Bounds,
    q: Seq<(Seq<char>, Seq<char>)>,
    numerals: Map<Seq<char>, Double>,
    m: SpaceMeasure,
    places: Seq<Seq<Seq<PlaceMeasure>>>,
    i: int,
    j: int,
    k: int,
)
    requires
        ({
            let g = Shape::Polygon(seq![wkt::box_ring(b)]);
            let r = region(c, QueryKind::Area, g, q, numerals, m)->Ok_0;
            let p = Coord { x: places[i][j][k].lon, y: c.y.values@[r.y[i] as int] };
            let ring = places[i][j][k].rings@[0];
            &&& c.wf()
            &&& region(c, QueryKind::Area, g, q, numerals, m) is Ok
            &&& says_what_is_covered(c, g, r.x, r.y, m.inside@, places)
            &&& 0 <= i < r.y.len()
            &&& 0 <= j < r.x.len()
            &&& 0 <= k < 3
            &&& b.west.finite() && b.south.finite() && b.east.finite() && b.north.finite()
            &&& wkt::within(b, p)
            &&& wkt::true_to_box(b, ring, p)
            &&& forall|e: int|
                0 <= e < 4 ==> !(#[trigger] ring.edges@[e]).west.nan() && !ring.edges@[e].east.nan()
                    && !ring.edges@[e].south.nan() && !ring.edges@[e].north.nan()
        }),
    ensures
        ({
            let g = Shape::Polygon(seq![wkt::box_ring(b)]);
            let r = region(c, QueryKind::Area, g, q, numerals, m)->Ok_0;
            &&& selects(r, (r.y[i], r.x[j]))
            &&& region(c, QueryKind::Cube, g, q, numerals, m) is Ok
            &&& selects(
                region(c, QueryKind::Cube, g, q, numerals, m)->Ok_0,
                (r.y[i], r.x[j]),
            )
        }),
{
    let g = Shape::Polygon(seq![wkt::box_ring(b)]);
    let r = region(c, QueryKind::Area, g, q, numerals, m)->Ok_0;
    let place = places[i][j][k];
    let lat = c.y.values@[r.y[i] as int];
    wkt::a_box_covers_its_points(b, place.rings@[0], Coord { x: place.lon, y: lat });
    assert(placed(c, r.x[j], g, places[i][j]));
    assert(wkt::measured(seq![wkt::box_ring(b)], place.rings@));
    assert(place.rings@ =~= seq![place.rings@[0]]);
    assert(covered_at(g, place, lat));
    an_area_selects_the_cells_it_covers(c, g, q, numerals, m, places, i, j);
}

/// Whether a cell is the nearest to a position: no latitude is closer to it than the
/// cell's, nor any longitude, round the circle where the axis wraps.
pub open spec fn is_nearest(c: &Collection, m: PointMeasure, cell: (usize, usize)) -> bool {
    &&& cell.0 < c.y.values@.len() && cell.1 < c.x.values@.len()
    &&& forall|i: int|
        0 <= i < c.y.values@.len() ==> m.y_distances@[cell.0 as int].at_most(
            #[trigger] m.y_distances@[i],
        )
    &&& c.lon_global ==> forall|j: int|
        0 <= j < c.x.values@.len() ==> m.x_around@[cell.1 as int].at_most(
            #[trigger] m.x_around@[j],
        )
    &&& !c.lon_global ==> forall|j: int|
        0 <= j < c.x.values@.len() ==> m.x_distances@[cell.1 as int].at_most(
            #[trigger] m.x_distances@[j],
        )
}

/// Whether a measure of a position is true to it: the distances grow away from it
/// along either axis, and those round the circle go by an end of the axis where they
/// are the lesser.
pub open spec fn true_to(c: &Collection, p: Coord, m: PointMeasure) -> bool {
    &&& axis::measures(c.y.values@, p.y, m.y_distances@)
    &&& axis::measures(c.x.values@, m.native, m.x_distances@)
    &&& catalog::goes_round(m.x_distances@, m.x_around@)
}

/// A position query selects for each of its points the cell nearest to it, and
/// selects no cell that is nearest to none of them.
pub proof fn a_position_selects_the_nearest_cells(
    c: &Collection,
    g: Shape,
    q: Seq<(Seq<char>, Seq<char>)>,
    numerals: Map<Seq<char>, Double>,
    m: SpaceMeasure,
)
    requires
        c.wf(),
        axis::monotonic(c.x.values@),
        axis::monotonic(c.y.values@),
        !(g is Polygon),
        m.points@.len() == g.corners().len(),
        forall|i: int|
            0 <= i < m.points@.len() ==> true_to(c, g.corners()[i], #[trigger] m.points@[i]),
    ensures
        region(c, QueryKind::Position, g, q, numerals, m) matches Ok(r) && (forall|i: int|
            0 <= i < m.points@.len() ==> one_is_nearest(c, #[trigger] m.points@[i], r)) && forall|
            cell: (usize, usize),
        | #[trigger]
            selects(r, cell) ==> nearest_to_one(c, m.points@, cell),
{
    let points = g.corners();
    let s = cells_at(c, points, m.points@);
    let r = scattered(s);
    scattered_holds_its_cells(s);
    assert(c.y.values@.len() == c.y.values.len() && c.x.values@.len() == c.x.values.len());
    assert forall|i: int| 0 <= i < points.len() implies is_nearest(
        c,
        #[trigger] m.points@[i],
        s[i],
    ) by {
        let p = m.points@[i];
        assert(true_to(c, points[i], p));
        axis::nearest_is_closest(c.y.values@, points[i].y, p.y_distances@);
        axis::nearest_is_closest(c.x.values@, p.native, p.x_distances@);
        if c.lon_global {
            catalog::wrapping_lookups_settle_on_the_closest(
                c.x.values@,
                p.native,
                p.x_distances@,
                p.x_around@,
            );
        }
    }
    assert forall|i: int| 0 <= i < m.points@.len() implies one_is_nearest(
        c,
        #[trigger] m.points@[i],
        r,
    ) by {
        assert(s.contains(s[i]));
        assert(selects(r, s[i]) && is_nearest(c, m.points@[i], s[i]));
    }
    assert forall|cell: (usize, usize)| #[trigger] selects(r, cell) implies nearest_to_one(
        c,
        m.points@,
        cell,
    ) by {
        assert(s.contains(cell));
        let i = choose|i: int| 0 <= i < s.len() && s[i] == cell;
        assert(is_nearest(c, m.points@[i], cell));
    }
}

/// Whether a region selects a cell that is nearest to a position.
pub open spec fn one_is_nearest(c: &Collection, m: PointMeasure, r: Region) -> bool {
    exists|cell: (usize, usize)| #[trigger] selects(r, cell) && is_nearest(c, m, cell)
}

/// Whether a cell is nearest to one of some positions.
pub open spec fn nearest_to_one(
    c: &Collection,
    m: Seq<PointMeasure>,
    cell: (usize, usize),
) -> bool {
    exists|i: int| 0 <= i < m.len() && is_nearest(c, #[trigger] m[i], cell)
}

/// Scattered cells make a region that selects them and no others.
pub proof fn scattered_holds_its_cells(s: Seq<(usize, usize)>)
    ensures
        forall|cell: (usize, usize)| #[trigger] selects(scattered(s), cell) <==> s.contains(cell),
{
    let (y, x) = (cells::ascending(rows(s)), cells::ascending(columns(s)));
    cells::ascending_is_exact(rows(s));
    cells::ascending_is_exact(columns(s));
    let all = cells::rectangle(y, x);
    let set = s.to_set();
    assert forall|cell: (usize, usize)| #[trigger] set.contains(cell) implies all.contains(cell) by {
        let k = choose|k: int| 0 <= k < s.len() && s[k] == cell;
        assert(rows(s)[k] == cell.0 && columns(s)[k] == cell.1);
        assert(rows(s).contains(cell.0) && columns(s).contains(cell.1));
    }
    assert forall|i: int, j: int| 0 <= i < y.len() && 0 <= j < y.len() && i != j implies y[i]
        != y[j] by {
        assert(i < j ==> y[i] < y[j]);
        assert(j < i ==> y[j] < y[i]);
    }
    assert forall|i: int, j: int| 0 <= i < x.len() && 0 <= j < x.len() && i != j implies x[i]
        != x[j] by {
        assert(i < j ==> x[i] < x[j]);
        assert(j < i ==> x[j] < x[i]);
    }
    if scattered(s).mask is None {
        cells::rectangle_size(y, x);
        vstd::set_lib::lemma_subset_equality(set, all);
    }
    assert forall|cell: (usize, usize)| #[trigger] selects(scattered(s), cell) <==> s.contains(
        cell,
    ) by {
        assert(set.contains(cell) <==> s.contains(cell));
        assert(all.contains(cell) <==> y.contains(cell.0) && x.contains(cell.1));
    }
}

/// A query is refused for a geometry that its kind does not take: a position a
/// polygon, a radius anything but a point, an area anything but a polygon.
pub proof fn a_kind_takes_its_own_geometries(
    c: &Collection,
    kind: QueryKind,
    g: Shape,
    q: Seq<(Seq<char>, Seq<char>)>,
    numerals: Map<Seq<char>, Double>,
    m: SpaceMeasure,
)
    requires
        kind == QueryKind::Position && g is Polygon || kind == QueryKind::Radius && !(g is Point)
            || kind == QueryKind::Area && !(g is Polygon),
    ensures
        region(c, kind, g, q, numerals, m) matches Err(e) && e is BadRequest,
{
}

/// A longitude lies in a range if and only if it is no further east of the range's
/// western edge than the range reaches; one on the edge itself lies in it.
pub proof fn a_range_reaches_east_from_its_edge(m: CircleMeasure, i: int)
    requires
        0 <= i < m.offsets@.len(),
        !m.span.equal(Double { bits: 0 }),
    ensures
        in_arc(m, i) <==> !m.offsets@[i].nan() && !m.reach.nan() && m.offsets@[i].rank()
            <= m.reach.rank(),
{
}

/// Whether the centre of a cell of the grid is no further from that of a radius than
/// the radius is long.
pub open spec fn lies_within(c: &Collection, m: SpaceMeasure, i: int, j: int) -> bool {
    &&& 0 <= i < c.y.values@.len()
    &&& 0 <= j < c.x.values@.len()
    &&& !m.distances@[i * c.x.values@.len() + j].nan() && !m.metres.nan()
    &&& !m.metres.less(m.distances@[i * c.x.values@.len() + j])
}

/// A radius query selects exactly the cells that are no further from its centre than
/// the radius, where there are any; the grid it is laid out on has the rows and the
/// columns that the circle spans, and those of every cell within it.
pub proof fn a_radius_query_selects_the_cells_within_it(
    c: &Collection,
    centre: Coord,
    q: Seq<(Seq<char>, Seq<char>)>,
    numerals: Map<Seq<char>, Double>,
    m: SpaceMeasure,
    i: int,
    j: int,
)
    requires
        region(c, QueryKind::Radius, Shape::Point(centre), q, numerals, m) is Ok,
        0 <= i < c.y.values@.len(),
        0 <= j < c.x.values@.len(),
        exists|a: int, b: int| lies_within(c, m, a, b),
    ensures
        ({
            let r = region(c, QueryKind::Radius, Shape::Point(centre), q, numerals, m)->Ok_0;
            &&& selects(r, (i as usize, j as usize)) <==> lies_within(c, m, i, j)
            &&& r.y.contains(i as usize) <==> axis::in_range(c.y.values@, m.south, m.north, i) || (
            exists|b: int| lies_within(c, m, i, b))
            &&& r.x.contains(j as usize) <==> (Double { bits: TURN }).at_most(m.circle.width)
                || in_arc(m.circle, j) || (exists|a: int| lies_within(c, m, a, j))
        }),
{
    assert(c.y.values@.len() == c.y.values.len() && c.x.values@.len() == c.x.values.len());
    assert forall|a: int, b: int| #[trigger] lies_within(c, m, a, b) == reached(c, m, a, b) by {}
    let (a, b) = choose|a: int, b: int| lies_within(c, m, a, b);
    assert(reached(c, m, a, b));
    assert(reached_cells(c, m).contains((a as usize, b as usize)));
    a_radius_selects_what_it_reaches(c, centre, m, (i as usize, j as usize));
    let rows = |k: int|
        axis::in_range(c.y.values@, m.south, m.north, k) || row_reached(c, m, k);
    let columns = |k: int|
        (Double { bits: TURN }).at_most(m.circle.width) || in_arc(m.circle, k) || column_reached(
            c,
            m,
            k,
        );
    axis::kept_is_exact(c.y.values@.len(), rows);
    axis::kept_is_exact(c.x.values@.len(), columns);
    assert(disc_rows(c, m) == axis::kept(c.y.values@.len(), rows));
    assert(disc_columns(c, m) == axis::kept(c.x.values@.len(), columns));
    assert(rows(i) == disc_rows(c, m).contains(i as usize));
    assert(columns(j) == disc_columns(c, m).contains(j as usize));
    if row_reached(c, m, i) {
        let k = choose|k: int| reached(c, m, i, k);
        assert(lies_within(c, m, i, k));
    }
    if exists|k: int| lies_within(c, m, i, k) {
        let k = choose|k: int| lies_within(c, m, i, k);
        assert(reached(c, m, i, k));
    }
    if column_reached(c, m, j) {
        let k = choose|k: int| reached(c, m, k, j);
        assert(lies_within(c, m, k, j));
    }
    if exists|k: int| lies_within(c, m, k, j) {
        let k = choose|k: int| lies_within(c, m, k, j);
        assert(reached(c, m, k, j));
    }
}

/// Whether a latitude of the grid is neither south nor north of a box.
pub open spec fn at_latitude(c: &Collection, b: Bounds, i: int) -> bool {
    0 <= i < c.y.values@.len() && b.south.at_most(c.y.values@[i]) && c.y.values@[i].at_most(
        b.north,
    )
}

/// Whether a longitude of the grid lies in a range, or the range goes all the way
/// round.
pub open spec fn at_longitude(c: &Collection, m: CircleMeasure, j: int) -> bool {
    0 <= j < c.x.values@.len() && ((Double { bits: 0x4076_8000_0000_0000 }).at_most(m.width)
        || in_arc(m, j))
}

/// A cube and an area are refused as malformed where the south edge of their box is
/// north of its north edge, find nothing where no row or no column of the grid lies
/// in the box, and are served otherwise: with the rows and the columns that do.
pub proof fn a_box_is_served_where_it_meets_the_grid(
    c: &Collection,
    g: Shape,
    q: Seq<(Seq<char>, Seq<char>)>,
    numerals: Map<Seq<char>, Double>,
    m: SpaceMeasure,
    i: int,
    j: int,
)
    requires
        0 <= i < c.y.values@.len(),
        0 <= j < c.x.values@.len(),
    ensures
        ({
            let b = wkt::bounds(g.corners());
            let r = region(c, QueryKind::Cube, g, q, numerals, m);
            let inverted = b.north.less(b.south);
            let met = (exists|k: int| at_latitude(c, b, k)) && (exists|k: int|
                at_longitude(c, m.circle, k));
            &&& inverted ==> r is Err && r->Err_0 is BadRequest
            &&& b.south.at_most(b.north) && !met ==> r is Err && r->Err_0 is NotFound
            &&& b.south.at_most(b.north) && met ==> r is Ok
            &&& r is Ok && b.south.at_most(b.north) ==> {
                &&& r->Ok_0.mask is None
                &&& r->Ok_0.y.contains(i as usize) <==> at_latitude(c, b, i)
                &&& r->Ok_0.x.contains(j as usize) <==> at_longitude(c, m.circle, j)
            }
            &&& g is Polygon ==> match region(c, QueryKind::Area, g, q, numerals, m) {
                Ok(a) => r is Ok && a.x == r->Ok_0.x && a.y == r->Ok_0.y && a.mask is Some,
                Err(e) => r == Err::<Region, Fault>(e),
            }
        }),
{
    assert(c.y.values@.len() == c.y.values.len() && c.x.values@.len() == c.x.values.len());
    let b = wkt::bounds(g.corners());
    let (ny, nx) = (c.y.values@.len(), c.x.values@.len());
    let rows = |k: int| axis::in_range(c.y.values@, b.south, b.north, k);
    let columns = |k: int| (Double { bits: TURN }).at_most(m.circle.width) || in_arc(m.circle, k);
    axis::kept_is_exact(ny, rows);
    axis::kept_is_exact(nx, columns);
    let (y, x) = (axis::kept(ny, rows), axis::kept(nx, columns));
    assert(arc(nx, m.circle) == x);
    assert(rows(i) == y.contains(i as usize));
    assert(columns(j) == x.contains(j as usize));
    if b.south.at_most(b.north) {
        if exists|k: int| at_latitude(c, b, k) {
            let k = choose|k: int| at_latitude(c, b, k);
            assert(rows(k));
            assert(y.contains(k as usize));
        }
        if y.len() > 0 {
            assert(rows(y[0] as int));
            assert(at_latitude(c, b, y[0] as int));
        }
    }
    if exists|k: int| at_longitude(c, m.circle, k) {
        let k = choose|k: int| at_longitude(c, m.circle, k);
        assert(columns(k));
        assert(x.contains(k as usize));
    }
    if x.len() > 0 {
        assert(columns(x[0] as int));
        assert(at_longitude(c, m.circle, x[0] as int));
    }
}

/// A cube reaches from the west of its own box to its east, and any other query from
/// the least longitude of its geometry to the greatest.
pub proof fn a_cube_reaches_over_its_own_box(
    kind: QueryKind,
    q: Seq<(Seq<char>, Seq<char>)>,
    g: Shape,
    numerals: Map<Seq<char>, Double>,
)
    ensures
        kind == QueryKind::Cube ==> (params::queried_box(q, numerals) matches Ok(Some(b))
            ==> ranged(kind, q, g, numerals) == (b.0.west, b.0.east)),
        kind != QueryKind::Cube ==> ranged(kind, q, g, numerals) == (
            wkt::bounds(g.corners()).west,
            wkt::bounds(g.corners()).east,
        ),
{
}

/// A radius query is served exactly where it gives its centre as a point and its
/// radius; what is wrong with the radius is what it is refused for.
pub proof fn a_radius_query_needs_its_radius(
    c: &Collection,
    centre: Coord,
    q: Seq<(Seq<char>, Seq<char>)>,
    numerals: Map<Seq<char>, Double>,
    m: SpaceMeasure,
)
    ensures
        match params::queried_radius(q, numerals) {
            Ok(_) => region(c, QueryKind::Radius, Shape::Point(centre), q, numerals, m) is Ok,
            Err(e) => region(c, QueryKind::Radius, Shape::Point(centre), q, numerals, m) == Err::<
                Region,
                Fault,
            >(e),
        },
{
}

/// A range that spans nothing holds, besides what it reaches, the longitudes within
/// one billionth of its edge on either side.
pub proof fn a_range_that_spans_nothing_holds_its_edge(m: CircleMeasure, i: int)
    requires
        0 <= i < m.offsets@.len(),
        m.offsets@.len() == m.gaps@.len(),
        m.span.equal(Double { bits: 0 }),
        !m.offsets@[i].nan(),
        !m.gaps@[i].nan(),
    ensures
        in_arc(m, i) <==> m.offsets@[i].at_most(m.reach) || m.offsets@[i].less(
            Double { bits: 0x3e11_2e0b_e826_d695 },
        ) || m.gaps@[i].less(Double { bits: 0x3e11_2e0b_e826_d695 }),
{
}

} // verus!
