//! What a scan brings back, placed on the axes that were asked for.
//!
//! Surface variables are `(time, latitude, longitude)` and pressure-level
//! variables are `(time, level, latitude, longitude)`. A single scan cannot mix
//! the two, so a request spanning both runs one query per group and the results
//! are merged.
use std::collections::HashMap;
use vstd::prelude::*;

use crate::catalog::{self, Collection};
use crate::cells::CellSet;
use crate::double::Double;
use crate::edr::query::{self, DataRequest, Selection};
use crate::edr::region;
use crate::edr::scan;
use crate::names::NameMap;
use crate::text;

verus! {

/// A dense, axis-indexed result ready to encode.
#[derive(Debug)]
pub struct ResultSet {
    /// Longitudes in CRS84, in output order.
    pub x: Vec<Double>,
    pub y: Vec<Double>,
    /// Vertical levels; empty when no parameter in the response uses them.
    pub z: Vec<Double>,
    /// Times as epoch microseconds.
    pub t: Vec<i64>,
    /// For scattered selections (points, polygon, radius), the `(y, x)` output
    /// index pairs that carry data.
    pub cells: Option<Vec<(usize, usize)>>,
    pub params: NameMap<ParamValues>,
}

/// One parameter's values, laid out row-major over its own axes.
#[derive(Debug)]
pub struct ParamValues {
    /// Axis names in layout order: `["t", "z", "y", "x"]` or `["t", "y", "x"]`.
    pub axis_names: Vec<&'static str>,
    pub shape: Vec<usize>,
    pub values: Vec<Option<Double>>,
}

/// One cell of a result: a position in time, space and height, with the value
/// of each parameter there.
#[derive(Debug)]
pub struct ResultRow {
    pub t: i64,
    /// The vertical level, when the result has a vertical axis.
    pub z: Option<Double>,
    pub y: Double,
    /// Longitude in CRS84.
    pub x: Double,
    /// One entry per parameter, in the result's parameter order.
    pub values: Vec<Option<Double>>,
}

/// What a [`ResultRow`] holds.
pub struct Row {
    pub t: i64,
    pub z: Option<Double>,
    pub y: Double,
    pub x: Double,
    pub values: Seq<Option<Double>>,
}

impl View for ResultRow {
    type V = Row;

    open spec fn view(&self) -> Row {
        Row { t: self.t, z: self.z, y: self.y, x: self.x, values: self.values@ }
    }
}

/// The names of a list of axes.
pub open spec fn axes_of(v: Seq<&'static str>) -> Seq<Seq<char>> {
    Seq::new(v.len(), |i: int| v[i]@)
}

impl ParamValues {
    /// Whether the parameter varies with height.
    pub open spec fn has_z(&self) -> bool {
        axes_of(self.axis_names@).contains("z"@)
    }

    /// Whether one of the axes is the vertical one.
    pub fn spans_z(&self) -> (r: bool)
        ensures
            r == self.has_z(),
    {
        let mut i: usize = 0;
        while i < self.axis_names.len()
            invariant
                i <= self.axis_names@.len(),
                forall|j: int| 0 <= j < i ==> (#[trigger] self.axis_names@[j])@ != "z"@,
            decreases self.axis_names@.len() - i,
        {
            if text::same_text(self.axis_names[i], "z") {
                assert(axes_of(self.axis_names@)[i as int] == "z"@);
                return true;
            }
            i += 1;
        }
        assert(!self.has_z()) by {
            if self.has_z() {
                let j = choose|j: int|
                    0 <= j < self.axis_names@.len() && axes_of(self.axis_names@)[j] == "z"@;
                assert(self.axis_names@[j]@ == "z"@);
            }
        }
        false
    }
}

/// The place of a cell in values that are laid out row-major.
pub open spec fn flat(ti: int, nz: int, zi: int, ny: int, yi: int, nx: int, xi: int) -> int {
    ((ti * nz + zi) * ny + yi) * nx + xi
}

/// Where a position stands in values that are laid out row-major along named axes,
/// the last axis running fastest.
pub open spec fn place_along(
    axes: Seq<Seq<char>>,
    shape: Seq<usize>,
    at: spec_fn(Seq<char>) -> int,
) -> int
    decreases axes.len(),
{
    if axes.len() == 0 {
        0
    } else {
        place_along(axes.drop_last(), shape.drop_last(), at) * shape.last() + at(axes.last())
    }
}

/// A position by the names of the axes.
pub open spec fn spot(t: int, z: int, y: int, x: int) -> spec_fn(Seq<char>) -> int {
    |name: Seq<char>|
        if name == "t"@ {
            t
        } else if name == "z"@ {
            z
        } else if name == "y"@ {
            y
        } else {
            x
        }
}

/// The axes of a parameter that varies with height, and of one that does not.
pub open spec fn tall() -> Seq<Seq<char>> {
    seq!["t"@, "z"@, "y"@, "x"@]
}

pub open spec fn level() -> Seq<Seq<char>> {
    seq!["t"@, "y"@, "x"@]
}

/// The value at a place; `None` where there is none.
pub open spec fn value_at(values: Seq<Option<Double>>, at: int) -> Option<Double> {
    if 0 <= at < values.len() {
        values[at]
    } else {
        None
    }
}

/// `a * b + c`, where it fits.
fn step(a: usize, b: usize, c: usize) -> (r: Option<usize>)
    ensures
        match r {
            Some(v) => v == a * b + c,
            None => a * b + c > usize::MAX,
        },
{
    match a.checked_mul(b) {
        Some(p) => p.checked_add(c),
        None => None,
    }
}

/// Read the value of a cell out of values that are laid out row-major.
pub fn read_at(
    values: &Vec<Option<Double>>,
    ti: usize,
    nz: usize,
    zi: usize,
    ny: usize,
    yi: usize,
    nx: usize,
    xi: usize,
) -> (r: Option<Double>)
    requires
        yi < ny,
        xi < nx,
    ensures
        r == value_at(
            values@,
            flat(ti as int, nz as int, zi as int, ny as int, yi as int, nx as int, xi as int),
        ),
{
    let ghost (a, b, c) = (
        ti * nz + zi,
        (ti * nz + zi) * ny + yi,
        ((ti * nz + zi) * ny + yi) * nx + xi,
    );
    proof {
        assert(ti * nz >= 0) by (nonlinear_arith);
        assert(a * ny >= a) by (nonlinear_arith)
            requires
                a >= 0,
                ny >= 1,
        ;
        assert(b * nx >= b) by (nonlinear_arith)
            requires
                b >= 0,
                nx >= 1,
        ;
    }
    let len: usize = values.len();
    let at: usize = match step(ti, nz, zi) {
        Some(v) => {
            assert(v == a);
            match step(v, ny, yi) {
                Some(w) => {
                    assert(w == b);
                    match step(w, nx, xi) {
                        Some(at) => at,
                        None => {
                            assert(c > usize::MAX);
                            return None;
                        },
                    }
                },
                None => {
                    assert(b > usize::MAX);
                    return None;
                },
            }
        },
        None => {
            return None;
        },
    };
    if at < len {
        values[at]
    } else {
        None
    }
}

/// The sizes along time, height, latitude and longitude that a shape gives.
pub open spec fn dims(shape: Seq<usize>) -> (int, int, int, int) {
    if shape.len() == 4 {
        (shape[0] as int, shape[1] as int, shape[2] as int, shape[3] as int)
    } else if shape.len() == 3 {
        (shape[0] as int, 1, shape[1] as int, shape[2] as int)
    } else {
        (1, 1, 1, 1)
    }
}

impl ResultSet {
    /// Whether each parameter's values are laid out over the result's latitudes
    /// and longitudes, and the cells that carry data stand among them.
    pub open spec fn wf(&self) -> bool {
        &&& self.params.wf()
        &&& forall|p: int|
            0 <= p < self.params.entries@.len() ==> dims(
                (#[trigger] self.params.entries@[p]).1.shape@,
            ).2 == self.y@.len() && dims(self.params.entries@[p].1.shape@).3 == self.x@.len()
        &&& self.cells matches Some(cells) ==> forall|i: int|
            0 <= i < cells@.len() ==> (#[trigger] cells@[i]).0 < self.y@.len() && cells@[i].1
                < self.x@.len()
    }

    pub open spec fn levels(&self) -> int {
        query::at_least_one(self.z@.len() as int)
    }

    /// How many cells a result has at one time and level.
    pub open spec fn cell_count(&self) -> int {
        match self.cells {
            Some(cells) => cells@.len() as int,
            None => (self.y@.len() * self.x@.len()) as int,
        }
    }

    /// The cells of a result at one time and level, in order.
    pub open spec fn cell(&self, i: int) -> (int, int) {
        match self.cells {
            Some(cells) => (cells@[i].0 as int, cells@[i].1 as int),
            None => (i / (self.x@.len() as int), i % (self.x@.len() as int)),
        }
    }

    /// What a parameter holds at a time, a level and a cell. One that does not
    /// vary with height holds the same at every level.
    pub open spec fn at(&self, p: ParamValues, ti: int, zi: int, yi: int, xi: int) -> Option<
        Double,
    > {
        let (ny, nx) = (self.y@.len() as int, self.x@.len() as int);
        value_at(
            p.values@,
            if p.has_z() {
                flat(ti, self.levels(), zi, ny, yi, nx, xi)
            } else {
                flat(ti, 1, 0, ny, yi, nx, xi)
            },
        )
    }

    /// The row at a time, a level and a cell.
    pub open spec fn row(&self, ti: int, zi: int, ci: int) -> Row {
        let (yi, xi) = self.cell(ci);
        Row {
            t: self.t@[ti],
            z: if zi < self.z@.len() {
                Some(self.z@[zi])
            } else {
                None
            },
            y: self.y@[yi],
            x: self.x@[xi],
            values: Seq::new(
                self.params.entries@.len(),
                |p: int| self.at(self.params.entries@[p].1, ti, zi, yi, xi),
            ),
        }
    }

    /// Every row of a result, in time, level, latitude, longitude order.
    pub open spec fn all_rows(&self) -> Seq<Row> {
        let (l, n) = (self.levels(), self.cell_count());
        Seq::new(
            (self.t@.len() * l * n) as nat,
            |k: int| self.row((k / n) / l, (k / n) % l, k % n),
        )
    }

    /// True when no parameter has a single non-null value.
    pub fn is_empty(&self) -> (r: bool)
        ensures
            r == (forall|p: int, i: int|
                0 <= p < self.params.entries@.len() && 0 <= i
                    < self.params.entries@[p].1.values@.len() ==> (
                #[trigger] self.params.entries@[p].1.values@[i]) is None),
    {
        let mut p: usize = 0;
        while p < self.params.entries.len()
            invariant
                p <= self.params.entries@.len(),
                forall|q: int, i: int|
                    0 <= q < p && 0 <= i < self.params.entries@[q].1.values@.len() ==> (
                    #[trigger] self.params.entries@[q].1.values@[i]) is None,
            decreases self.params.entries@.len() - p,
        {
            let values = &self.params.entries[p].1.values;
            let mut i: usize = 0;
            while i < values.len()
                invariant
                    p < self.params.entries@.len(),
                    values@ == self.params.entries@[p as int].1.values@,
                    i <= values@.len(),
                    forall|j: int| 0 <= j < i ==> (#[trigger] values@[j]) is None,
                decreases values@.len() - i,
            {
                if values[i].is_some() {
                    assert(self.params.entries@[p as int].1.values@[i as int] is Some);
                    return false;
                }
                i += 1;
            }
            p += 1;
        }
        true
    }

    /// The parameter names, in the order [`Self::rows`] reports their values.
    pub fn parameter_names(&self) -> (r: Vec<String>)
        ensures
            text::texts(r@) == self.params.names(),
    {
        let mut out: Vec<String> = Vec::new();
        let mut i: usize = 0;
        while i < self.params.entries.len()
            invariant
                i <= self.params.entries@.len(),
                out@.len() == i,
                forall|j: int| 0 <= j < i ==> (#[trigger] out@[j])@ == self.params.entries@[j].0@,
            decreases self.params.entries@.len() - i,
        {
            out.push(self.params.entries[i].0.clone());
            i += 1;
        }
        assert(text::texts(out@) =~= self.params.names());
        out
    }

    fn make_row(&self, ti: usize, zi: usize, yi: usize, xi: usize, Ghost(ci): Ghost<int>) -> (r:
        ResultRow)
        requires
            ti < self.t@.len(),
            yi < self.y@.len(),
            xi < self.x@.len(),
            self.cell(ci) == (yi as int, xi as int),
        ensures
            r@ == self.row(ti as int, zi as int, ci),
    {
        let levels: usize = if self.z.len() >= 1 {
            self.z.len()
        } else {
            1
        };
        let (ny, nx) = (self.y.len(), self.x.len());
        let mut values: Vec<Option<Double>> = Vec::new();
        let mut p: usize = 0;
        while p < self.params.entries.len()
            invariant
                p <= self.params.entries@.len(),
                yi < ny,
                xi < nx,
                ny == self.y@.len(),
                nx == self.x@.len(),
                levels == self.levels(),
                values@.len() == p,
                forall|q: int|
                    0 <= q < p ==> #[trigger] values@[q] == self.at(
                        self.params.entries@[q].1,
                        ti as int,
                        zi as int,
                        yi as int,
                        xi as int,
                    ),
            decreases self.params.entries@.len() - p,
        {
            let held = &self.params.entries[p].1;
            let v = if held.spans_z() {
                read_at(&held.values, ti, levels, zi, ny, yi, nx, xi)
            } else {
                read_at(&held.values, ti, 1, 0, ny, yi, nx, xi)
            };
            values.push(v);
            p += 1;
        }
        let z = if zi < self.z.len() {
            Some(self.z[zi])
        } else {
            None
        };
        let r = ResultRow { t: self.t[ti], z, y: self.y[yi], x: self.x[xi], values };
        assert(r@.values =~= self.row(ti as int, zi as int, ci).values);
        r
    }
}

proof fn split_index(q: int, r: int, d: int)
    requires
        d > 0,
        0 <= r < d,
    ensures
        (q * d + r) / d == q,
        (q * d + r) % d == r,
{
    vstd::arithmetic::div_mod::lemma_fundamental_div_mod_converse(q * d + r, d, q, r);
}

proof fn row_index(t: int, l: int, n: int, ti: int, zi: int, ci: int)
    requires
        0 <= ti < t,
        0 <= zi < l,
        0 <= ci < n,
    ensures
        0 <= (ti * l + zi) * n + ci < t * l * n,
        (((ti * l + zi) * n + ci) / n) / l == ti,
        (((ti * l + zi) * n + ci) / n) % l == zi,
        ((ti * l + zi) * n + ci) % n == ci,
{
    split_index(ti * l + zi, ci, n);
    split_index(ti, zi, l);
    assert(0 <= ti * l + zi < t * l) by (nonlinear_arith)
        requires
            0 <= ti < t,
            0 <= zi < l,
    ;
    let q = ti * l + zi;
    assert(0 <= q * n + ci < t * l * n) by (nonlinear_arith)
        requires
            0 <= q < t * l,
            0 <= ci < n,
    ;
}

impl ResultSet {
    /// The cells of a result at one time and level, in order.
    pub fn cell_list(&self) -> (r: Vec<(usize, usize)>)
        requires
            self.wf(),
        ensures
            r@.len() == self.cell_count(),
            forall|i: int|
                0 <= i < r@.len() ==> (#[trigger] r@[i]).0 < self.y@.len() && r@[i].1
                    < self.x@.len() && self.cell(i) == (r@[i].0 as int, r@[i].1 as int),
    {
        let mut out: Vec<(usize, usize)> = Vec::new();
        match &self.cells {
            Some(cells) => {
                let mut i: usize = 0;
                while i < cells.len()
                    invariant
                        self.wf(),
                        self.cells == Some(*cells),
                        i <= cells@.len(),
                        out@ == cells@.take(i as int),
                    decreases cells@.len() - i,
                {
                    out.push(cells[i]);
                    i += 1;
                }
                assert(cells@.take(i as int) == cells@);
            },
            None => {
                let (ny, nx) = (self.y.len(), self.x.len());
                let mut y: usize = 0;
                while y < ny
                    invariant
                        self.cells is None,
                        ny == self.y@.len(),
                        nx == self.x@.len(),
                        y <= ny,
                        out@.len() == y * nx,
                        forall|i: int|
                            0 <= i < out@.len() ==> (#[trigger] out@[i]).0 < ny && out@[i].1 < nx
                                && self.cell(i) == (out@[i].0 as int, out@[i].1 as int),
                    decreases ny - y,
                {
                    let mut x: usize = 0;
                    while x < nx
                        invariant
                            self.cells is None,
                            ny == self.y@.len(),
                            nx == self.x@.len(),
                            y < ny,
                            x <= nx,
                            out@.len() == y * nx + x,
                            forall|i: int|
                                0 <= i < out@.len() ==> (#[trigger] out@[i]).0 < ny && out@[i].1
                                    < nx && self.cell(i) == (out@[i].0 as int, out@[i].1 as int),
                        decreases nx - x,
                    {
                        proof {
                            split_index(y as int, x as int, nx as int);
                        }
                        out.push((y, x));
                        x += 1;
                    }
                    assert((y + 1) * nx == y * nx + nx) by (nonlinear_arith);
                    y += 1;
                }
            },
        }
        out
    }

    /// Walk the result cell by cell, in time, level, latitude, longitude order,
    /// through at most `most` rows.
    ///
    /// A parameter that does not vary with height repeats down the vertical
    /// axis: a 2 m temperature is the same reading whichever pressure level the
    /// row is showing, so repeating it states that, where a gap would suggest
    /// the value is unknown there.
    pub fn rows_up_to(&self, most: usize) -> (r: Vec<ResultRow>)
        requires
            self.wf(),
        ensures
            r@.len() == (if self.all_rows().len() <= most {
                self.all_rows().len() as int
            } else {
                most as int
            }),
            forall|k: int| 0 <= k < r@.len() ==> (#[trigger] r@[k])@ == self.all_rows()[k],
    {
        let cells = self.cell_list();
        let levels: usize = if self.z.len() >= 1 {
            self.z.len()
        } else {
            1
        };
        let ghost (t, l, n) = (self.t@.len() as int, levels as int, cells@.len() as int);
        let ghost all = self.all_rows();
        let mut out: Vec<ResultRow> = Vec::new();
        let mut ti: usize = 0;
        assert(0 * l * n == 0) by (nonlinear_arith);
        while ti < self.t.len()
            invariant
                t == self.t@.len(),
                l == levels,
                l == self.levels(),
                n == cells@.len(),
                n == self.cell_count(),
                all == self.all_rows(),
                forall|i: int|
                    0 <= i < cells@.len() ==> (#[trigger] cells@[i]).0 < self.y@.len()
                        && cells@[i].1 < self.x@.len() && self.cell(i) == (
                        cells@[i].0 as int,
                        cells@[i].1 as int,
                    ),
                ti <= t,
                out@.len() <= most,
                out@.len() == ti * l * n,
                forall|k: int| 0 <= k < out@.len() ==> (#[trigger] out@[k])@ == all[k],
            decreases t - ti,
        {
            let mut zi: usize = 0;
            assert((ti * l + 0) * n == ti * l * n);
            while zi < levels
                invariant
                    ti < t,
                    t == self.t@.len(),
                    l == levels,
                    l == self.levels(),
                    n == cells@.len(),
                    n == self.cell_count(),
                    all == self.all_rows(),
                    forall|i: int|
                        0 <= i < cells@.len() ==> (#[trigger] cells@[i]).0 < self.y@.len()
                            && cells@[i].1 < self.x@.len() && self.cell(i) == (
                            cells@[i].0 as int,
                            cells@[i].1 as int,
                        ),
                    zi <= levels,
                    out@.len() <= most,
                    out@.len() == (ti * l + zi) * n,
                    forall|k: int| 0 <= k < out@.len() ==> (#[trigger] out@[k])@ == all[k],
                decreases levels - zi,
            {
                let mut ci: usize = 0;
                while ci < cells.len()
                    invariant
                        ti < t,
                        zi < levels,
                        t == self.t@.len(),
                        l == levels,
                        l == self.levels(),
                        n == cells@.len(),
                        n == self.cell_count(),
                        all == self.all_rows(),
                        forall|i: int|
                            0 <= i < cells@.len() ==> (#[trigger] cells@[i]).0 < self.y@.len()
                                && cells@[i].1 < self.x@.len() && self.cell(i) == (
                                cells@[i].0 as int,
                                cells@[i].1 as int,
                            ),
                        ci <= n,
                        out@.len() <= most,
                        out@.len() == (ti * l + zi) * n + ci,
                        forall|k: int| 0 <= k < out@.len() ==> (#[trigger] out@[k])@ == all[k],
                    decreases n - ci,
                {
                    proof {
                        row_index(t, l, n, ti as int, zi as int, ci as int);
                    }
                    if out.len() == most {
                        return out;
                    }
                    let (yi, xi) = cells[ci];
                    let row = self.make_row(ti, zi, yi, xi, Ghost(ci as int));
                    out.push(row);
                    ci += 1;
                }
                assert((ti * l + (zi + 1)) * n == (ti * l + zi) * n + n) by (nonlinear_arith);
                zi += 1;
            }
            assert((ti + 1) * l * n == (ti * l + l) * n) by (nonlinear_arith);
            ti += 1;
        }
        out
    }

    /// Walk the result cell by cell, in time, level, latitude, longitude order.
    pub fn rows(&self) -> (r: Vec<ResultRow>)
        requires
            self.wf(),
            self.all_rows().len() <= usize::MAX,
        ensures
            r@.len() == self.all_rows().len(),
            forall|k: int| 0 <= k < r@.len() ==> (#[trigger] r@[k])@ == self.all_rows()[k],
    {
        self.rows_up_to(usize::MAX)
    }
}

/// The cells of a result that is not scattered are all of its grid, row by row.
pub proof fn a_grid_walks_its_cells_row_by_row(r: ResultSet, y: int, x: int)
    requires
        r.cells is None,
        0 <= y < r.y@.len(),
        0 <= x < r.x@.len(),
    ensures
        r.cell_count() == r.y@.len() * r.x@.len(),
        0 <= y * r.x@.len() + x < r.cell_count(),
        r.cell(y * r.x@.len() + x) == (y, x),
{
    let (ny, nx) = (r.y@.len() as int, r.x@.len() as int);
    vstd::arithmetic::div_mod::lemma_fundamental_div_mod_converse(y * nx + x, nx, y, x);
    assert(0 <= y * nx + x < ny * nx) by (nonlinear_arith)
        requires
            0 <= y < ny,
            0 <= x < nx,
    ;
}

/// The rows of a result run through its times, at each through its levels, and at
/// each of these through its cells. A row carries the time, level, latitude and
/// longitude that it is of, and of each parameter, in the order of their names,
/// the value that is read there by the parameter's own axes and shape.
pub proof fn a_row_reads_the_result_at_its_place(r: ResultSet, ti: int, zi: int, ci: int, p: int)
    requires
        r.wf(),
        0 <= ti < r.t@.len(),
        0 <= zi < r.z@.len() || (zi == 0 && r.z@.len() == 0),
        0 <= ci < r.cell_count(),
        0 <= p < r.params.entries@.len(),
        r.params.entries@[p].1@.laid_out(),
        r.params.entries@[p].1@.axes == tall() ==> r.z@.len() > 0
            && r.params.entries@[p].1.shape@[1] == r.z@.len(),
    ensures
        ({
            let levels = if r.z@.len() == 0 {
                1
            } else {
                r.z@.len() as int
            };
            let k = (ti * levels + zi) * r.cell_count() + ci;
            let row = r.all_rows()[k];
            let (y, x) = r.cell(ci);
            &&& 0 <= k < r.all_rows().len()
            &&& r.all_rows().len() == r.t@.len() * levels * r.cell_count()
            &&& row.t == r.t@[ti]
            &&& r.z@.len() > 0 ==> row.z == Some(r.z@[zi])
            &&& r.z@.len() == 0 ==> row.z is None
            &&& row.y == r.y@[y] && row.x == r.x@[x]
            &&& row.values.len() == r.params.entries@.len()
            &&& row.values[p] == r.params.entries@[p].1@.reads(ti, zi, y, x)
        }),
{
    let levels = if r.z@.len() == 0 {
        1
    } else {
        r.z@.len() as int
    };
    let n = r.cell_count();
    let g = ti * levels + zi;
    let k = g * n + ci;
    let q = r.params.entries@[p].1;
    assert(levels == r.levels());
    vstd::arithmetic::div_mod::lemma_fundamental_div_mod_converse(k, n, g, ci);
    vstd::arithmetic::div_mod::lemma_fundamental_div_mod_converse(g, levels, ti, zi);
    assert(0 <= k < r.t@.len() * levels * n) by (nonlinear_arith)
        requires
            0 <= ti < r.t@.len(),
            0 <= zi < levels,
            0 <= ci < n,
            g == ti * levels + zi,
            k == g * n + ci,
    ;
    let (y, x) = r.cell(ci);
    axis_names_differ();
    places_by_axes(q.shape@, ti, zi, y, x);
    assert(dims(q.shape@).2 == r.y@.len());
    assert(q@.axes == axes_of(q.axis_names@));
    assert(r.all_rows()[k] == r.row(ti, zi, ci));
    if q@.axes == tall() {
        assert(q.has_z());
    } else {
        assert(!q.has_z());
        let (ny, nx) = (r.y@.len() as int, r.x@.len() as int);
        assert(ti * 1 + 0 == ti);
        assert(flat(ti, 1, 0, ny, y, nx, x) == (ti * ny + y) * nx + x);
        assert(q.shape@[1] == ny && q.shape@[2] == nx);
    }
}

/// A parameter that does not vary with height repeats down the vertical axis:
/// what its rows hold is the same at every level.
pub proof fn a_flat_parameter_repeats_down_the_levels(
    r: ResultSet,
    p: ParamValues,
    ti: int,
    a: int,
    b: int,
    yi: int,
    xi: int,
)
    requires
        !p.has_z(),
    ensures
        r.at(p, ti, a, yi, xi) == r.at(p, ti, b, yi, xi),
{
}

/// The rows that one scan brought back, column by column. A value that is null
/// is `None`; the levels are empty where the scan does not name them.
#[derive(Debug)]
pub struct Rows {
    pub times: Vec<i64>,
    pub lat: Vec<Double>,
    pub lon: Vec<Double>,
    pub lev: Vec<Double>,
    /// For each parameter of the scan, its value in each row.
    pub values: Vec<Vec<Option<Double>>>,
}

impl Rows {
    /// Whether the columns are of one length, with one for each of `n`
    /// parameters.
    pub open spec fn wf(&self, n: nat, uses_z: bool) -> bool {
        &&& self.lat@.len() == self.times@.len()
        &&& self.lon@.len() == self.times@.len()
        &&& uses_z ==> self.lev@.len() == self.times@.len()
        &&& self.values@.len() == n
        &&& forall|p: int|
            0 <= p < n ==> (#[trigger] self.values@[p])@.len() == self.times@.len()
    }
}

/// Where a key last stands in a list.
pub open spec fn last_at<K>(s: Seq<K>, k: K) -> Option<usize>
    decreases s.len(),
{
    if s.len() == 0 {
        None
    } else if s.last() == k {
        Some((s.len() - 1) as usize)
    } else {
        last_at(s.drop_last(), k)
    }
}

proof fn last_at_is_last<K>(s: Seq<K>, k: K)
    requires
        s.len() <= usize::MAX,
    ensures
        match last_at(s, k) {
            Some(i) => i < s.len() && s[i as int] == k,
            None => !s.contains(k),
        },
    decreases s.len(),
{
    if s.len() > 0 && s.last() != k {
        let front = s.drop_last();
        last_at_is_last(front, k);
        if last_at(front, k) is None && s.contains(k) {
            let i = choose|i: int| 0 <= i < s.len() && s[i] == k;
            assert(front[i] == k);
        }
    }
}

/// The place of each key of a list: the last one where it stands.
fn places(keys: &Vec<u64>) -> (r: HashMap<u64, usize>)
    ensures
        forall|k: u64| #[trigger] r@.contains_key(k) <==> last_at(keys@, k) is Some,
        forall|k: u64| #[trigger] r@.contains_key(k) ==> Some(r@[k]) == last_at(keys@, k),
        forall|k: u64| #[trigger] r@.contains_key(k) ==> r@[k] < keys@.len(),
{
    broadcast use vstd::std_specs::hash::group_hash_axioms;

    let mut out: HashMap<u64, usize> = HashMap::new();
    let mut i: usize = 0;
    while i < keys.len()
        invariant
            i <= keys@.len(),
            forall|k: u64| #[trigger]
                out@.contains_key(k) <==> last_at(keys@.take(i as int), k) is Some,
            forall|k: u64| #[trigger]
                out@.contains_key(k) ==> Some(out@[k]) == last_at(keys@.take(i as int), k),
        decreases keys@.len() - i,
    {
        broadcast use vstd::std_specs::hash::group_hash_axioms;

        assert(keys@.take(i + 1).drop_last() == keys@.take(i as int));
        out.insert(keys[i], i);
        i += 1;
    }
    proof {
        assert(keys@.take(i as int) == keys@);
        assert forall|k: u64| #[trigger] out@.contains_key(k) implies out@[k] < keys@.len() by {
            last_at_is_last(keys@, k);
        }
    }
    out
}

/// The bits of some numbers.
pub open spec fn bits_of(s: Seq<Double>) -> Seq<u64> {
    Seq::new(s.len(), |i: int| s[i].bits)
}

fn bits(v: &Vec<Double>) -> (r: Vec<u64>)
    ensures
        r@ == bits_of(v@),
{
    let mut out: Vec<u64> = Vec::new();
    let mut i: usize = 0;
    while i < v.len()
        invariant
            i <= v@.len(),
            out@ == bits_of(v@).take(i as int),
        decreases v@.len() - i,
    {
        out.push(v[i].bits);
        assert(bits_of(v@).take(i + 1) == bits_of(v@).take(i as int).push(bits_of(v@)[i as int]));
        i += 1;
    }
    assert(bits_of(v@).take(i as int) == bits_of(v@));
    out
}

/// Times and indices as keys, told apart by their bits.
pub open spec fn time_key(t: i64) -> u64 {
    t as u64
}

proof fn time_keys_differ(a: i64, b: i64)
    ensures
        time_key(a) == time_key(b) ==> a == b,
{
    assert(a as u64 == b as u64 ==> a == b) by (bit_vector);
}

pub open spec fn time_keys(s: Seq<i64>) -> Seq<u64> {
    Seq::new(s.len(), |i: int| time_key(s[i]))
}

fn keys_of_times(v: &Vec<i64>) -> (r: Vec<u64>)
    ensures
        r@ == time_keys(v@),
{
    let mut out: Vec<u64> = Vec::new();
    let mut i: usize = 0;
    while i < v.len()
        invariant
            i <= v@.len(),
            out@ == time_keys(v@).take(i as int),
        decreases v@.len() - i,
    {
        out.push(v[i] as u64);
        assert(time_keys(v@).take(i + 1) == time_keys(v@).take(i as int).push(
            time_keys(v@)[i as int],
        ));
        i += 1;
    }
    assert(time_keys(v@).take(i as int) == time_keys(v@));
    out
}

proof fn last_time(s: Seq<i64>, t: i64)
    ensures
        last_at(time_keys(s), time_key(t)) == last_at(s, t),
    decreases s.len(),
{
    if s.len() > 0 {
        let front = s.drop_last();
        last_time(front, t);
        assert(time_keys(s).drop_last() == time_keys(front));
        time_keys_differ(s.last(), t);
    }
}

/// The numbers that stand at some indices.
pub open spec fn chosen(values: Seq<Double>, indices: Seq<usize>) -> Seq<Double> {
    Seq::new(indices.len(), |i: int| values[indices[i] as int])
}

fn choose_from(values: &Vec<Double>, indices: &Vec<usize>) -> (r: Vec<Double>)
    requires
        region::below(indices@, values@.len()),
    ensures
        r@ == chosen(values@, indices@),
{
    let mut out: Vec<Double> = Vec::new();
    let mut i: usize = 0;
    while i < indices.len()
        invariant
            region::below(indices@, values@.len()),
            i <= indices@.len(),
            out@ == chosen(values@, indices@).take(i as int),
        decreases indices@.len() - i,
    {
        out.push(values[indices[i]]);
        assert(chosen(values@, indices@).take(i + 1) == chosen(values@, indices@).take(
            i as int,
        ).push(chosen(values@, indices@)[i as int]));
        i += 1;
    }
    assert(chosen(values@, indices@).take(i as int) == chosen(values@, indices@));
    out
}

pub open spec fn chosen_times(values: Seq<i64>, indices: Seq<usize>) -> Seq<i64> {
    Seq::new(indices.len(), |i: int| values[indices[i] as int])
}

fn choose_times(values: &Vec<i64>, indices: &Vec<usize>) -> (r: Vec<i64>)
    requires
        region::below(indices@, values@.len()),
    ensures
        r@ == chosen_times(values@, indices@),
{
    let mut out: Vec<i64> = Vec::new();
    let mut i: usize = 0;
    while i < indices.len()
        invariant
            region::below(indices@, values@.len()),
            i <= indices@.len(),
            out@ == chosen_times(values@, indices@).take(i as int),
        decreases indices@.len() - i,
    {
        out.push(values[indices[i]]);
        assert(chosen_times(values@, indices@).take(i + 1) == chosen_times(
            values@,
            indices@,
        ).take(i as int).push(chosen_times(values@, indices@)[i as int]));
        i += 1;
    }
    assert(chosen_times(values@, indices@).take(i as int) == chosen_times(values@, indices@));
    out
}

/// The axes of an answer: where each row that comes back belongs. Longitudes are
/// matched as the store writes them.
pub struct Grid {
    pub lon: Seq<u64>,
    pub lat: Seq<u64>,
    pub lev: Seq<u64>,
    pub t: Seq<i64>,
    pub mask: Option<Set<(usize, usize)>>,
}

/// A mask re-expressed in output indices.
pub open spec fn output_mask(s: query::Picked) -> Option<Set<(usize, usize)>> {
    match s.mask {
        Some(m) => Some(
            Set::new(
                |c: (usize, usize)|
                    exists|cell: (usize, usize)| #[trigger]
                        m.contains(cell) && last_at(s.y, cell.0) == Some(c.0) && last_at(
                            s.x,
                            cell.1,
                        ) == Some(c.1),
            ),
        ),
        None => None,
    }
}

pub open spec fn levels_of(c: Collection, s: query::Picked) -> Seq<Double> {
    match c.z {
        Some(levels) => chosen(levels.values@, s.z),
        None => Seq::empty(),
    }
}

pub open spec fn grid(c: Collection, s: query::Picked) -> Grid {
    Grid {
        lon: bits_of(chosen(c.x_native@, s.x)),
        lat: bits_of(chosen(c.y.values@, s.y)),
        lev: bits_of(levels_of(c, s)),
        t: chosen_times(c.t.values@, s.t),
        mask: output_mask(s),
    }
}

/// Where a row's values belong; `None` for a row outside the requested axes, or
/// for a cell that is masked out.
pub open spec fn slot(g: Grid, rows: Rows, uses_z: bool, r: int) -> Option<int> {
    match (
        last_at(g.t, rows.times@[r]),
        last_at(g.lat, rows.lat@[r].bits),
        last_at(g.lon, rows.lon@[r].bits),
    ) {
        (Some(ti), Some(yi), Some(xi)) => if g.mask is Some && !g.mask->0.contains((yi, xi)) {
            None
        } else {
            let (ny, nx) = (g.lat.len() as int, g.lon.len() as int);
            if uses_z {
                match last_at(g.lev, rows.lev@[r].bits) {
                    Some(zi) => Some(
                        flat(
                            ti as int,
                            g.lev.len() as int,
                            zi as int,
                            ny,
                            yi as int,
                            nx,
                            xi as int,
                        ),
                    ),
                    None => None,
                }
            } else {
                Some(flat(ti as int, 1, 0, ny, yi as int, nx, xi as int))
            }
        },
        _ => None,
    }
}

/// What the first `n` rows put in a place: the last value that belongs there and
/// is not null.
pub open spec fn settled(
    g: Grid,
    rows: Rows,
    uses_z: bool,
    p: int,
    at: int,
    n: nat,
) -> Option<Double>
    decreases n,
{
    if n == 0 {
        None
    } else if slot(g, rows, uses_z, n - 1) == Some(at) && rows.values@[p]@[n - 1] is Some {
        rows.values@[p]@[n - 1]
    } else {
        settled(g, rows, uses_z, p, at, (n - 1) as nat)
    }
}

/// How many values a parameter of the group has.
pub open spec fn volume(g: Grid, uses_z: bool) -> int {
    g.t.len() * (if uses_z {
        g.lev.len() as int
    } else {
        1
    }) * g.lat.len() * g.lon.len()
}

/// A grid's axes, for looking rows up.
struct Places {
    t: HashMap<u64, usize>,
    lat: HashMap<u64, usize>,
    lon: HashMap<u64, usize>,
    lev: HashMap<u64, usize>,
    mask: Option<CellSet>,
    nt: usize,
    nz: usize,
    ny: usize,
    nx: usize,
}

/// Whether a table holds the places of some keys.
spec fn tabled(m: Map<u64, usize>, keys: Seq<u64>) -> bool {
    &&& forall|k: u64| #[trigger] m.contains_key(k) <==> last_at(keys, k) is Some
    &&& forall|k: u64| #[trigger] m.contains_key(k) ==> Some(m[k]) == last_at(keys, k)
    &&& forall|k: u64| #[trigger] m.contains_key(k) ==> m[k] < keys.len()
}

impl Places {
    spec fn of(&self, g: Grid) -> bool {
        &&& tabled(self.t@, time_keys(g.t))
        &&& tabled(self.lat@, g.lat)
        &&& tabled(self.lon@, g.lon)
        &&& tabled(self.lev@, g.lev)
        &&& region::mask_of(self.mask) == g.mask
        &&& self.mask matches Some(m) ==> m.wf()
        &&& self.nt == g.t.len()
        &&& self.nz == g.lev.len()
        &&& self.ny == g.lat.len()
        &&& self.nx == g.lon.len()
    }
}

proof fn flat_is_within(
    nt: int,
    nz: int,
    ny: int,
    nx: int,
    ti: int,
    zi: int,
    yi: int,
    xi: int,
)
    requires
        0 <= ti < nt,
        0 <= zi < nz,
        0 <= yi < ny,
        0 <= xi < nx,
    ensures
        0 <= ti * nz + zi <= flat(ti, nz, zi, ny, yi, nx, xi),
        0 <= (ti * nz + zi) * ny + yi <= flat(ti, nz, zi, ny, yi, nx, xi),
        flat(ti, nz, zi, ny, yi, nx, xi) < nt * nz * ny * nx,
{
    let a = ti * nz + zi;
    assert(0 <= a < nt * nz) by (nonlinear_arith)
        requires
            0 <= ti < nt,
            0 <= zi < nz,
            a == ti * nz + zi,
    ;
    let b = a * ny + yi;
    assert(a <= b < nt * nz * ny) by (nonlinear_arith)
        requires
            0 <= a < nt * nz,
            0 <= yi < ny,
            b == a * ny + yi,
    ;
    assert(b <= b * nx + xi < nt * nz * ny * nx) by (nonlinear_arith)
        requires
            0 <= b < nt * nz * ny,
            0 <= xi < nx,
    ;
}

/// Two cells of a grid have the same place only where they are the same cell.
pub proof fn places_are_distinct(
    nz: int,
    ny: int,
    nx: int,
    a: (int, int, int, int),
    b: (int, int, int, int),
)
    requires
        0 <= a.1 < nz && 0 <= b.1 < nz,
        0 <= a.2 < ny && 0 <= b.2 < ny,
        0 <= a.3 < nx && 0 <= b.3 < nx,
        flat(a.0, nz, a.1, ny, a.2, nx, a.3) == flat(b.0, nz, b.1, ny, b.2, nx, b.3),
    ensures
        a == b,
{
    split_index((a.0 * nz + a.1) * ny + a.2, a.3, nx);
    split_index((b.0 * nz + b.1) * ny + b.2, b.3, nx);
    split_index(a.0 * nz + a.1, a.2, ny);
    split_index(b.0 * nz + b.1, b.2, ny);
    split_index(a.0, a.1, nz);
    split_index(b.0, b.1, nz);
}

/// Where a row's values belong.
fn slot_of(places: &Places, rows: &Rows, uses_z: bool, r: usize, Ghost(g): Ghost<Grid>) -> (s:
    Option<usize>)
    requires
        places.of(g),
        volume(g, uses_z) <= usize::MAX,
        r < rows.times@.len(),
        rows.lat@.len() == rows.times@.len(),
        rows.lon@.len() == rows.times@.len(),
        uses_z ==> rows.lev@.len() == rows.times@.len(),
    ensures
        match s {
            Some(at) => slot(g, *rows, uses_z, r as int) == Some(at as int) && at < volume(
                g,
                uses_z,
            ),
            None => slot(g, *rows, uses_z, r as int) is None,
        },
{
    broadcast use vstd::std_specs::hash::group_hash_axioms;

    proof {
        last_time(g.t, rows.times@[r as int]);
    }
    let ti: usize = match places.t.get(&(rows.times[r] as u64)) {
        Some(i) => *i,
        None => {
            return None;
        },
    };
    let yi: usize = match places.lat.get(&rows.lat[r].bits) {
        Some(i) => *i,
        None => {
            return None;
        },
    };
    let xi: usize = match places.lon.get(&rows.lon[r].bits) {
        Some(i) => *i,
        None => {
            return None;
        },
    };
    if let Some(mask) = &places.mask {
        if !mask.contains((yi, xi)) {
            return None;
        }
    }
    let (nz, zi): (usize, usize) = if uses_z {
        match places.lev.get(&rows.lev[r].bits) {
            Some(i) => (places.nz, *i),
            None => {
                return None;
            },
        }
    } else {
        (1, 0)
    };
    proof {
        flat_is_within(
            places.nt as int,
            nz as int,
            places.ny as int,
            places.nx as int,
            ti as int,
            zi as int,
            yi as int,
            xi as int,
        );
    }
    let ghost v = flat(
        ti as int,
        nz as int,
        zi as int,
        places.ny as int,
        yi as int,
        places.nx as int,
        xi as int,
    );
    if let Some(a) = step(ti, nz, zi) {
        assert(a == ti * nz + zi);
        if let Some(b) = step(a, places.ny, yi) {
            assert(b == (ti * nz + zi) * places.ny + yi);
            if let Some(c) = step(b, places.nx, xi) {
                assert(c == v);
                return Some(c);
            }
        }
    }
    assert(false);
    None
}

/// One parameter's values, each in the place where it belongs.
fn place_values(
    values: &Vec<Option<Double>>,
    slots: &Vec<Option<usize>>,
    size: usize,
    Ghost(g): Ghost<Grid>,
    Ghost(rows): Ghost<Rows>,
    Ghost(uses_z): Ghost<bool>,
    Ghost(p): Ghost<int>,
) -> (r: Vec<Option<Double>>)
    requires
        values@ == rows.values@[p]@,
        values@.len() == slots@.len(),
        forall|i: int|
            0 <= i < slots@.len() ==> match #[trigger] slots@[i] {
                Some(at) => slot(g, rows, uses_z, i) == Some(at as int) && at < size,
                None => slot(g, rows, uses_z, i) is None,
            },
    ensures
        r@.len() == size,
        forall|at: int|
            0 <= at < size ==> #[trigger] r@[at] == settled(
                g,
                rows,
                uses_z,
                p,
                at,
                slots@.len(),
            ),
{
    let mut out: Vec<Option<Double>> = Vec::new();
    let mut i: usize = 0;
    while i < size
        invariant
            i <= size,
            out@.len() == i,
            forall|at: int|
                0 <= at < i ==> #[trigger] out@[at] == settled(g, rows, uses_z, p, at, 0),
        decreases size - i,
    {
        out.push(None);
        i += 1;
    }
    let mut r: usize = 0;
    while r < slots.len()
        invariant
            values@ == rows.values@[p]@,
            values@.len() == slots@.len(),
            forall|i: int|
                0 <= i < slots@.len() ==> match #[trigger] slots@[i] {
                    Some(at) => slot(g, rows, uses_z, i) == Some(at as int) && at < size,
                    None => slot(g, rows, uses_z, i) is None,
                },
            r <= slots@.len(),
            out@.len() == size,
            forall|at: int|
                0 <= at < size ==> #[trigger] out@[at] == settled(
                    g,
                    rows,
                    uses_z,
                    p,
                    at,
                    r as nat,
                ),
        decreases slots@.len() - r,
    {
        let ghost before = out@;
        let v = values[r];
        if let Some(at) = slots[r] {
            if v.is_some() {
                out.set(at, v);
            }
        }
        assert forall|at: int| 0 <= at < size implies #[trigger] out@[at] == settled(
            g,
            rows,
            uses_z,
            p,
            at,
            (r + 1) as nat,
        ) by {
            assert(before[at] == settled(g, rows, uses_z, p, at, r as nat));
        }
        r += 1;
    }
    out
}

/// What a [`ParamValues`] holds.
pub struct Range {
    pub axes: Seq<Seq<char>>,
    pub shape: Seq<usize>,
    pub values: Seq<Option<Double>>,
}

impl View for ParamValues {
    type V = Range;

    open spec fn view(&self) -> Range {
        Range { axes: axes_of(self.axis_names@), shape: self.shape@, values: self.values@ }
    }
}

impl Range {
    /// Whether the values are laid out over the axes of a parameter that varies
    /// with height, or of one that does not.
    pub open spec fn laid_out(self) -> bool {
        ||| self.axes == tall() && self.shape.len() == 4
        ||| self.axes == level() && self.shape.len() == 3
    }

    /// What a reader finds at a position, by the names of the axes and the shape;
    /// nothing where the values do not reach that far.
    pub open spec fn reads(self, t: int, z: int, y: int, x: int) -> Option<Double> {
        let at = place_along(self.axes, self.shape, spot(t, z, y, x));
        if 0 <= at < self.values.len() {
            self.values[at]
        } else {
            None
        }
    }
}

pub proof fn axis_names_differ()
    ensures
        "t"@ != "z"@ && "t"@ != "y"@ && "t"@ != "x"@,
        "z"@ != "y"@ && "z"@ != "x"@ && "y"@ != "x"@,
        tall().contains("z"@) && !level().contains("z"@),
{
    reveal_strlit("t");
    reveal_strlit("z");
    reveal_strlit("y");
    reveal_strlit("x");
    assert("t"@[0] == 't' && "z"@[0] == 'z' && "y"@[0] == 'y' && "x"@[0] == 'x');
    assert(tall()[1] == "z"@);
    let l = level();
    assert(l[0] == "t"@ && l[1] == "y"@ && l[2] == "x"@);
}

/// Where a position stands among values over the two sets of axes.
pub proof fn places_by_axes(shape: Seq<usize>, t: int, z: int, y: int, x: int)
    ensures
        shape.len() == 4 ==> place_along(tall(), shape, spot(t, z, y, x)) == ((t * shape[1] + z)
            * shape[2] + y) * shape[3] + x,
        shape.len() == 3 ==> place_along(level(), shape, spot(t, z, y, x)) == (t * shape[1] + y)
            * shape[2] + x,
{
    axis_names_differ();
    reveal_with_fuel(place_along, 5);
    if shape.len() == 4 {
        let a = tall();
        assert(a.drop_last() =~= seq!["t"@, "z"@, "y"@]);
        assert(a.drop_last().drop_last() =~= seq!["t"@, "z"@]);
        assert(a.drop_last().drop_last().drop_last() =~= seq!["t"@]);
        let s = shape;
        assert(s.drop_last().last() == s[2] && s.drop_last().drop_last().last() == s[1]);
        assert(s.drop_last().drop_last().drop_last().last() == s[0]);
        assert(0 * s[0] + t == t);
    }
    if shape.len() == 3 {
        let a = level();
        assert(a.drop_last() =~= seq!["t"@, "y"@]);
        assert(a.drop_last().drop_last() =~= seq!["t"@]);
        let s = shape;
        assert(s.drop_last().last() == s[1] && s.drop_last().drop_last().last() == s[0]);
        assert(0 * s[0] + t == t);
    }
}

/// The values of a group's parameter on the grid.
pub open spec fn range(g: Grid, rows: Rows, uses_z: bool, p: int) -> Range {
    Range {
        axes: group_axes(uses_z),
        shape: group_shape(g, uses_z),
        values: Seq::new(
            volume(g, uses_z) as nat,
            |at: int| settled(g, rows, uses_z, p, at, rows.times@.len()),
        ),
    }
}

pub open spec fn group_axes(uses_z: bool) -> Seq<Seq<char>> {
    (if uses_z {
        Seq::<Seq<char>>::empty().push("t"@).push("z"@)
    } else {
        Seq::<Seq<char>>::empty().push("t"@)
    }).push("y"@).push("x"@)
}

pub open spec fn group_shape(g: Grid, uses_z: bool) -> Seq<usize> {
    (if uses_z {
        Seq::<usize>::empty().push(g.t.len() as usize).push(g.lev.len() as usize)
    } else {
        Seq::<usize>::empty().push(g.t.len() as usize)
    }).push(g.lat.len() as usize).push(g.lon.len() as usize)
}

/// Place the values of one group's parameters and hold them under their names.
fn place_group(
    places: &Places,
    names: &Vec<String>,
    rows: &Rows,
    uses_z: bool,
    params: &mut NameMap<ParamValues>,
    Ghost(g): Ghost<Grid>,
)
    requires
        old(params).wf(),
        places.of(g),
        volume(g, uses_z) <= usize::MAX,
        rows.wf(names@.len(), uses_z),
        text::texts(names@).no_duplicates(),
    ensures
        final(params).wf(),
        forall|name: Seq<char>| #[trigger]
            final(params).content().contains_key(name) <==> old(params).content().contains_key(
                name,
            ) || text::texts(names@).contains(name),
        forall|name: Seq<char>|
            old(params).content().contains_key(name) && !text::texts(names@).contains(name)
                ==> #[trigger] final(params).content()[name] == old(params).content()[name],
        forall|p: int|
            0 <= p < names@.len() ==> (#[trigger] final(params).content()[text::texts(
                names@,
            )[p]])@ == range(g, *rows, uses_z, p),
{
    let mut slots: Vec<Option<usize>> = Vec::new();
    let n: usize = rows.times.len();
    let mut r: usize = 0;
    while r < n
        invariant
            n == rows.times@.len(),
            places.of(g),
            volume(g, uses_z) <= usize::MAX,
            rows.wf(names@.len(), uses_z),
            r <= n,
            slots@.len() == r,
            forall|i: int|
                0 <= i < slots@.len() ==> match #[trigger] slots@[i] {
                    Some(at) => slot(g, *rows, uses_z, i) == Some(at as int) && at < volume(
                        g,
                        uses_z,
                    ),
                    None => slot(g, *rows, uses_z, i) is None,
                },
        decreases n - r,
    {
        slots.push(slot_of(places, rows, uses_z, r, Ghost(g)));
        r += 1;
    }
    let depth: usize = if uses_z {
        places.nz
    } else {
        1
    };
    let size: usize = group_size(places, depth, Ghost(g), uses_z);
    let ghost ns = text::texts(names@);
    let ghost was = params.content();
    let mut p: usize = 0;
    while p < names.len()
        invariant
            n == rows.times@.len(),
            places.of(g),
            rows.wf(names@.len(), uses_z),
            ns == text::texts(names@),
            ns.no_duplicates(),
            size == volume(g, uses_z),
            slots@.len() == n,
            forall|i: int|
                0 <= i < slots@.len() ==> match #[trigger] slots@[i] {
                    Some(at) => slot(g, *rows, uses_z, i) == Some(at as int) && at < size,
                    None => slot(g, *rows, uses_z, i) is None,
                },
            p <= names@.len(),
            params.wf(),
            forall|name: Seq<char>| #[trigger]
                params.content().contains_key(name) <==> was.contains_key(name) || ns.take(
                    p as int,
                ).contains(name),
            forall|name: Seq<char>|
                was.contains_key(name) && !ns.take(p as int).contains(name)
                    ==> #[trigger] params.content()[name] == was[name],
            forall|q: int|
                0 <= q < p ==> (#[trigger] params.content()[ns[q]])@ == range(
                    g,
                    *rows,
                    uses_z,
                    q,
                ),
        decreases names@.len() - p,
    {
        let ghost before = params.content();
        assert(rows.values@[p as int]@.len() == n);
        let values = place_values(
            &rows.values[p],
            &slots,
            size,
            Ghost(g),
            Ghost(*rows),
            Ghost(uses_z),
            Ghost(p as int),
        );
        let mut axis_names: Vec<&'static str> = Vec::new();
        let mut shape: Vec<usize> = Vec::new();
        axis_names.push("t");
        shape.push(places.nt);
        if uses_z {
            axis_names.push("z");
            shape.push(places.nz);
        }
        axis_names.push("y");
        shape.push(places.ny);
        axis_names.push("x");
        shape.push(places.nx);
        let held = ParamValues { axis_names, shape, values };
        proof {
            assert(held@.axes =~= group_axes(uses_z));
            assert(held@.shape =~= group_shape(g, uses_z));
            assert(held@.values =~= range(g, *rows, uses_z, p as int).values);
        }
        params.insert(names[p].clone(), held);
        proof {
            let (s, t) = (ns.take(p as int), ns.take(p + 1));
            assert(t == s.push(ns[p as int]));
            assert forall|name: Seq<char>| #[trigger]
                params.content().contains_key(name) <==> was.contains_key(name) || t.contains(
                name,
            ) by {
                assert(before.contains_key(name) <==> was.contains_key(name) || s.contains(name));
                if s.contains(name) {
                    let k = choose|k: int| 0 <= k < s.len() && s[k] == name;
                    assert(t[k] == name);
                }
                if t.contains(name) {
                    let k = choose|k: int| 0 <= k < t.len() && t[k] == name;
                    if k < s.len() {
                        assert(s[k] == name);
                    }
                }
                assert(t[p as int] == ns[p as int]);
            }
            assert forall|name: Seq<char>|
                was.contains_key(name) && !t.contains(name) implies #[trigger] params.content()[name]
                == was[name] by {
                if s.contains(name) {
                    let k = choose|k: int| 0 <= k < s.len() && s[k] == name;
                    assert(t[k] == name);
                }
                assert(t[p as int] == ns[p as int]);
                assert(before[name] == was[name]);
            }
            assert forall|q: int| 0 <= q < p + 1 implies (#[trigger] params.content()[ns[q]])@
                == range(g, *rows, uses_z, q) by {
                if q < p {
                    assert(ns[q] != ns[p as int]);
                    assert(before[ns[q]]@ == range(g, *rows, uses_z, q));
                }
            }
        }
        p += 1;
    }
    assert(ns.take(p as int) == ns);
}

fn group_size(places: &Places, depth: usize, Ghost(g): Ghost<Grid>, uses_z: bool) -> (r: usize)
    requires
        places.of(g),
        volume(g, uses_z) <= usize::MAX,
        depth == (if uses_z {
            g.lev.len() as int
        } else {
            1
        }),
    ensures
        r == volume(g, uses_z),
{
    if places.nt == 0 || depth == 0 || places.ny == 0 || places.nx == 0 {
        proof {
            let (a, b, c, d) = (
                places.nt as int,
                depth as int,
                places.ny as int,
                places.nx as int,
            );
            assert(a * b * c * d == 0) by (nonlinear_arith)
                requires
                    a == 0 || b == 0 || c == 0 || d == 0,
            ;
        }
        return 0;
    }
    proof {
        let (a, b, c, d) = (places.nt as int, depth as int, places.ny as int, places.nx as int);
        assert(0 <= a * b <= a * b * c <= a * b * c * d) by (nonlinear_arith)
            requires
                a >= 1,
                b >= 1,
                c >= 1,
                d >= 1,
        ;
    }
    places.nt * depth * places.ny * places.nx
}

pub open spec fn index_keys(s: Seq<usize>) -> Seq<u64> {
    Seq::new(s.len(), |i: int| s[i] as u64)
}

fn keys_of_indices(v: &Vec<usize>) -> (r: Vec<u64>)
    ensures
        r@ == index_keys(v@),
{
    let mut out: Vec<u64> = Vec::new();
    let mut i: usize = 0;
    while i < v.len()
        invariant
            i <= v@.len(),
            out@ == index_keys(v@).take(i as int),
        decreases v@.len() - i,
    {
        out.push(v[i] as u64);
        assert(index_keys(v@).take(i + 1) == index_keys(v@).take(i as int).push(
            index_keys(v@)[i as int],
        ));
        i += 1;
    }
    assert(index_keys(v@).take(i as int) == index_keys(v@));
    out
}

proof fn last_index(s: Seq<usize>, k: usize)
    ensures
        last_at(index_keys(s), k as u64) == last_at(s, k),
    decreases s.len(),
{
    if s.len() > 0 {
        let front = s.drop_last();
        last_index(front, k);
        assert(index_keys(s).drop_last() == index_keys(front));
    }
}

/// Re-express a selection's mask in output indices.
fn mask_in_output(s: &Selection) -> (r: Option<CellSet>)
    requires
        s.wf(),
    ensures
        region::mask_of(r) == output_mask(s@),
        r matches Some(m) ==> m.wf() && forall|c: (usize, usize)| #[trigger]
            m@.contains(c) ==> c.0 < s.y_idx@.len() && c.1 < s.x_idx@.len(),
{
    broadcast use vstd::std_specs::hash::group_hash_axioms;

    let mask = match &s.mask {
        Some(m) => m,
        None => {
            return None;
        },
    };
    let y_out = places(&keys_of_indices(&s.y_idx));
    let x_out = places(&keys_of_indices(&s.x_idx));
    let mut out = CellSet::new();
    let mut i: usize = 0;
    let ghost (ys, xs) = (s.y_idx@, s.x_idx@);
    while i < mask.cells.len()
        invariant
            i <= mask.cells@.len(),
            ys == s.y_idx@,
            xs == s.x_idx@,
            tabled(y_out@, index_keys(ys)),
            tabled(x_out@, index_keys(xs)),
            out.wf(),
            forall|c: (usize, usize)| #[trigger]
                out@.contains(c) <==> exists|k: int|
                    0 <= k < i && last_at(ys, (#[trigger] mask.cells@[k]).0) == Some(c.0)
                        && last_at(xs, mask.cells@[k].1) == Some(c.1),
            forall|c: (usize, usize)| #[trigger]
                out@.contains(c) ==> c.0 < ys.len() && c.1 < xs.len(),
        decreases mask.cells@.len() - i,
    {
        broadcast use vstd::std_specs::hash::group_hash_axioms;

        let (cy, cx) = mask.cells[i];
        let ghost before = out@;
        proof {
            last_index(ys, cy);
            last_index(xs, cx);
        }
        match (y_out.get(&(cy as u64)), x_out.get(&(cx as u64))) {
            (Some(oy), Some(ox)) => {
                out.insert((*oy, *ox));
            },
            _ => {},
        }
        assert forall|c: (usize, usize)| #[trigger]
            out@.contains(c) <==> exists|k: int|
                0 <= k < i + 1 && last_at(ys, (#[trigger] mask.cells@[k]).0) == Some(c.0)
                    && last_at(xs, mask.cells@[k].1) == Some(c.1) by {
            if before.contains(c) {
                let k = choose|k: int|
                    0 <= k < i && last_at(ys, (#[trigger] mask.cells@[k]).0) == Some(c.0)
                        && last_at(xs, mask.cells@[k].1) == Some(c.1);
                assert(0 <= k < i + 1 && last_at(ys, mask.cells@[k].0) == Some(c.0));
            }
            if exists|k: int|
                0 <= k < i + 1 && last_at(ys, (#[trigger] mask.cells@[k]).0) == Some(c.0)
                    && last_at(xs, mask.cells@[k].1) == Some(c.1) {
                let k = choose|k: int|
                    0 <= k < i + 1 && last_at(ys, (#[trigger] mask.cells@[k]).0) == Some(c.0)
                        && last_at(xs, mask.cells@[k].1) == Some(c.1);
                if k < i {
                    assert(before.contains(c));
                } else {
                    assert(mask.cells@[k] == (cy, cx));
                }
            }
            assert(mask.cells@[i as int] == (cy, cx));
        }
        i += 1;
    }
    proof {
        let want = output_mask(s@)->0;
        assert forall|c: (usize, usize)| #[trigger] out@.contains(c) <==> want.contains(c) by {
            if out@.contains(c) {
                let k = choose|k: int|
                    0 <= k < i && last_at(ys, (#[trigger] mask.cells@[k]).0) == Some(c.0)
                        && last_at(xs, mask.cells@[k].1) == Some(c.1);
                let cell = mask.cells@[k];
                assert(mask@.contains(cell));
            }
            if want.contains(c) {
                let cell = choose|cell: (usize, usize)| #[trigger]
                    mask@.contains(cell) && last_at(ys, cell.0) == Some(c.0) && last_at(xs, cell.1)
                        == Some(c.1);
                let k = choose|k: int| 0 <= k < mask.cells@.len() && mask.cells@[k] == cell;
                assert(last_at(ys, mask.cells@[k].0) == Some(c.0));
            }
        }
        assert(out@ =~= want);
    }
    Some(out)
}

/// The groups of parameters that are scanned, those that do not vary with height
/// first, each with whether it does.
pub open spec fn groups(c: Collection, names: Seq<Seq<char>>) -> Seq<(Seq<Seq<char>>, bool)> {
    let flat = catalog::grouped(c.parameters.content(), names, false);
    let spanning = catalog::grouped(c.parameters.content(), names, true);
    (if flat.len() > 0 {
        Seq::<(Seq<Seq<char>>, bool)>::empty().push((flat, false))
    } else {
        Seq::empty()
    }) + (if spanning.len() > 0 {
        Seq::<(Seq<Seq<char>>, bool)>::empty().push((spanning, true))
    } else {
        Seq::empty()
    })
}

/// One scan: the parameters it reads, whether they vary with height, and its
/// SQL.
#[derive(Debug)]
pub struct Scan {
    pub names: Vec<String>,
    pub uses_z: bool,
    pub sql: String,
}

proof fn group_is_vertical(c: Collection, names: Seq<Seq<char>>)
    requires
        c.wf(),
        catalog::grouped(c.parameters.content(), names, true).len() > 0,
    ensures
        c.z is Some,
    decreases names.len(),
{
    if !catalog::vertical(c.parameters.content(), names.last()) {
        group_is_vertical(c, names.drop_last());
    }
}

impl DataRequest {
    /// The scans that read a request: surface and pressure-level variables have
    /// different dimensionality and cannot share one, so each group is its own.
    pub fn scans(&self) -> (r: Vec<Scan>)
        requires
            self.wf(),
        ensures
            r@.len() == groups(*self.collection, text::texts(self.parameters@)).len(),
            forall|i: int|
                0 <= i < r@.len() ==> {
                    let g = groups(*self.collection, text::texts(self.parameters@))[i];
                    &&& text::texts((#[trigger] r@[i]).names@) == g.0
                    &&& r@[i].uses_z == g.1
                    &&& r@[i].sql@ == scan::scan(*self.collection, self.selection@, g.0, g.1)
                },
    {
        let c: &Collection = &self.collection;
        let (spanning, flat) = c.split_by_vertical(&self.parameters);
        let ghost names = text::texts(self.parameters@);
        let mut out: Vec<Scan> = Vec::new();
        if flat.len() > 0 {
            let sql = scan::build_sql(c, &self.selection, &flat, false);
            out.push(Scan { names: flat, uses_z: false, sql });
        }
        if spanning.len() > 0 {
            proof {
                group_is_vertical(*c, names);
                assert(self.selection.z_idx@.len() == 0 ==> region::below(
                    self.selection.z_idx@,
                    c.z->0.values@.len(),
                ));
            }
            let sql = scan::build_sql(c, &self.selection, &spanning, true);
            out.push(Scan { names: spanning, uses_z: true, sql });
        }
        out
    }

    /// Whether the answer's arrays are of a size that memory can be addressed
    /// for.
    pub open spec fn fits(&self) -> bool {
        &&& volume(grid(*self.collection, self.selection@), false) <= usize::MAX
        &&& volume(grid(*self.collection, self.selection@), true) <= usize::MAX
    }
}

/// A group holds the names that belong to it, each once where it was named once.
pub proof fn groups_part_the_names(
    ps: Map<Seq<char>, catalog::Parameter>,
    names: Seq<Seq<char>>,
    uses_z: bool,
)
    ensures
        forall|n: Seq<char>| #[trigger]
            catalog::grouped(ps, names, uses_z).contains(n) <==> names.contains(n)
                && catalog::vertical(ps, n) == uses_z,
        names.no_duplicates() ==> catalog::grouped(ps, names, uses_z).no_duplicates(),
    decreases names.len(),
{
    if names.len() > 0 {
        let front = names.drop_last();
        groups_part_the_names(ps, front, uses_z);
        let (f, r) = (catalog::grouped(ps, front, uses_z), catalog::grouped(ps, names, uses_z));
        assert forall|n: Seq<char>| #[trigger] r.contains(n) <==> names.contains(n)
            && catalog::vertical(ps, n) == uses_z by {
            if f.contains(n) {
                let k = choose|k: int| 0 <= k < f.len() && f[k] == n;
                assert(r[k] == n);
            }
            if r.contains(n) {
                let k = choose|k: int| 0 <= k < r.len() && r[k] == n;
                if k < f.len() {
                    assert(f[k] == n);
                }
            }
            if front.contains(n) {
                let k = choose|k: int| 0 <= k < front.len() && front[k] == n;
                assert(names[k] == n);
            }
            if names.contains(n) {
                let k = choose|k: int| 0 <= k < names.len() && names[k] == n;
                if k < front.len() {
                    assert(front[k] == n);
                }
            }
            assert(names[names.len() - 1] == names.last());
            if r.len() > f.len() {
                assert(r[f.len() as int] == names.last());
            }
        }
        if names.no_duplicates() {
            assert(front.no_duplicates());
            if r.len() > f.len() {
                assert(!f.contains(names.last())) by {
                    if f.contains(names.last()) {
                        assert(front.contains(names.last()));
                        let k = choose|k: int| 0 <= k < front.len() && front[k] == names.last();
                        assert(names[k] == names[names.len() - 1]);
                    }
                }
                assert forall|i: int, j: int|
                    0 <= i < r.len() && 0 <= j < r.len() && i != j implies r[i] != r[j] by {
                    if i < f.len() {
                        assert(f.contains(f[i]));
                    }
                    if j < f.len() {
                        assert(f.contains(f[j]));
                    }
                }
            }
        }
    }
}

/// Whether what scans brought back is of a request's groups.
pub open spec fn brought(request: &DataRequest, rows: Seq<Rows>) -> bool {
    let gs = groups(*request.collection, text::texts(request.parameters@));
    &&& rows.len() == gs.len()
    &&& forall|i: int| 0 <= i < rows.len() ==> (#[trigger] rows[i]).wf(gs[i].0.len(), gs[i].1)
}

proof fn cells_fit(s: Seq<(usize, usize)>, ny: int, nx: int)
    requires
        crate::cells::row_major(s),
        forall|i: int| 0 <= i < s.len() ==> (#[trigger] s[i]).0 < ny && s[i].1 < nx,
    ensures
        s.len() > 0 ==> s.len() <= s.last().0 * nx + s.last().1 + 1,
        s.len() <= ny * nx || s.len() == 0,
    decreases s.len(),
{
    if s.len() > 0 {
        let front = s.drop_last();
        assert(crate::cells::row_major(front)) by {
            assert forall|i: int, j: int| 0 <= i < j < front.len() implies crate::cells::earlier(
                #[trigger] front[i],
                #[trigger] front[j],
            ) by {
                assert(crate::cells::earlier(s[i], s[j]));
            }
        }
        assert forall|i: int| 0 <= i < front.len() implies (#[trigger] front[i]).0 < ny
            && front[i].1 < nx by {
            assert(front[i] == s[i]);
        }
        cells_fit(front, ny, nx);
        let n = s.len() - 1;
        assert(s[n] == s.last());
        let (y, x) = (s.last().0 as int, s.last().1 as int);
        if n > 0 {
            assert(crate::cells::earlier(s[n - 1], s[n]));
            let (b, a) = (s[n - 1].0 as int, s[n - 1].1 as int);
            assert(front.last() == s[n - 1]);
            assert(b * nx + a + 1 <= y * nx + x) by (nonlinear_arith)
                requires
                    b < y || (b == y && a < x),
                    0 <= a < nx,
                    0 <= x,
            ;
        } else {
            assert(0 <= y * nx + x) by (nonlinear_arith)
                requires
                    0 <= y,
                    0 <= x < nx,
            ;
        }
        assert(y * nx + x + 1 <= ny * nx) by (nonlinear_arith)
            requires
                0 <= y < ny,
                0 <= x < nx,
        ;
    }
}

proof fn rows_fit(r: ResultSet, g: Grid)
    requires
        r.wf(),
        r.cells matches Some(cells) ==> crate::cells::row_major(cells@),
        g.lat.len() == r.y@.len(),
        g.lon.len() == r.x@.len(),
        g.lev.len() == r.z@.len(),
        g.t.len() == r.t@.len(),
        volume(g, false) <= usize::MAX,
        volume(g, true) <= usize::MAX,
    ensures
        r.all_rows().len() <= usize::MAX,
{
    let (t, y, x) = (r.t@.len() as int, r.y@.len() as int, r.x@.len() as int);
    let (l, n) = (r.levels(), r.cell_count());
    assert(0 <= n <= y * x) by {
        assert(0 <= y * x) by (nonlinear_arith)
            requires
                y >= 0,
                x >= 0,
        ;
        if let Some(cells) = r.cells {
            cells_fit(cells@, y, x);
        }
    }
    assert(0 <= t * l * n <= t * l * y * x) by (nonlinear_arith)
        requires
            t >= 0,
            l >= 1,
            0 <= n <= y * x,
    ;
}

/// Place what the scans brought back on the axes that were asked for.
pub fn assemble(request: &DataRequest, rows: &Vec<Rows>) -> (r: ResultSet)
    requires
        request.wf(),
        request.fits(),
        brought(request, rows@),
    ensures
        r.wf(),
        r.all_rows().len() <= usize::MAX,
        r.x@ == chosen(request.collection.x_crs84@, request.selection.x_idx@),
        r.y@ == chosen(request.collection.y.values@, request.selection.y_idx@),
        r.z@ == levels_of(*request.collection, request.selection@),
        r.t@ == chosen_times(request.collection.t.values@, request.selection.t_idx@),
        match output_mask(request.selection@) {
            Some(m) => r.cells is Some && crate::cells::row_major(r.cells->0@)
                && r.cells->0@.to_set() == m,
            None => r.cells is None,
        },
        forall|name: Seq<char>| #[trigger]
            r.params.content().contains_key(name) <==> text::texts(request.parameters@).contains(
                name,
            ),
        forall|i: int, p: int|
            #![trigger groups(*request.collection, text::texts(request.parameters@))[i].0[p]]
            {
                let gs = groups(*request.collection, text::texts(request.parameters@));
                0 <= i < gs.len() && 0 <= p < gs[i].0.len() ==> r.params.content()[gs[i].0[p]]@
                    == range(
                    grid(*request.collection, request.selection@),
                    rows@[i],
                    gs[i].1,
                    p,
                )
            },
{
    let c: &Collection = &request.collection;
    let s = &request.selection;
    let ghost g = grid(*c, s@);
    let ghost names = text::texts(request.parameters@);
    let ghost gs = groups(*c, names);
    let x = choose_from(&c.x_crs84, &s.x_idx);
    let y = choose_from(&c.y.values, &s.y_idx);
    let z = match &c.z {
        Some(levels) => {
            assert(s.z_idx@.len() == 0 ==> region::below(s.z_idx@, levels.values@.len()));
            choose_from(&levels.values, &s.z_idx)
        },
        None => Vec::new(),
    };
    let t = choose_times(&c.t.values, &s.t_idx);
    assert(z@ == levels_of(*c, s@));
    let native = choose_from(&c.x_native, &s.x_idx);
    let mask = mask_in_output(s);
    let table = Places {
        t: places(&keys_of_times(&t)),
        lat: places(&bits(&y)),
        lon: places(&bits(&native)),
        lev: places(&bits(&z)),
        mask,
        nt: t.len(),
        nz: z.len(),
        ny: y.len(),
        nx: x.len(),
    };
    assert(table.of(g));
    let (spanning, flat_names) = c.split_by_vertical(&request.parameters);
    proof {
        groups_part_the_names(c.parameters.content(), names, false);
        groups_part_the_names(c.parameters.content(), names, true);
    }
    let ghost (fs, vs) = (text::texts(flat_names@), text::texts(spanning@));
    let mut params: NameMap<ParamValues> = NameMap::new();
    let mut i: usize = 0;
    if flat_names.len() > 0 {
        assert(gs[0] == (fs, false));
        assert(rows@[0].wf(gs[0].0.len(), gs[0].1));
        place_group(&table, &flat_names, &rows[0], false, &mut params, Ghost(g));
        i = 1;
    }
    let ghost first = params.content();
    assert(forall|name: Seq<char>| #[trigger] first.contains_key(name) <==> fs.contains(name));
    if spanning.len() > 0 {
        assert(gs[i as int] == (vs, true));
        assert(rows@[i as int].wf(gs[i as int].0.len(), gs[i as int].1));
        place_group(&table, &spanning, &rows[i], true, &mut params, Ghost(g));
    }
    proof {
        assert forall|name: Seq<char>| #[trigger]
            params.content().contains_key(name) <==> names.contains(name) by {
            assert(first.contains_key(name) <==> fs.contains(name));
            assert(fs.contains(name) <==> names.contains(name) && !catalog::vertical(
                c.parameters.content(),
                name,
            ));
            assert(vs.contains(name) <==> names.contains(name) && catalog::vertical(
                c.parameters.content(),
                name,
            ));
        }
        assert forall|k: int, p: int|
            #![trigger gs[k].0[p]]
            0 <= k < gs.len() && 0 <= p < gs[k].0.len() implies params.content()[gs[k].0[p]]@
            == range(g, rows@[k], gs[k].1, p) by {
            let name = gs[k].0[p];
            if gs[k].1 {
                assert(gs[k].0 == vs);
                assert(k == i);
                assert(params.content()[vs[p]]@ == range(g, rows@[k], true, p));
            } else {
                assert(gs[k].0 == fs);
                assert(fs.contains(name));
                assert(!vs.contains(name));
                assert(first.contains_key(name));
                assert(first[fs[p]]@ == range(g, rows@[0], false, p));
                assert(params.content()[name] == first[name]);
            }
        }
    }
    proof {
        if let Some(m) = &table.mask {
            assert forall|k: int| 0 <= k < m.cells@.len() implies (#[trigger] m.cells@[k]).0
                < y@.len() && m.cells@[k].1 < x@.len() by {
                assert(m@.contains(m.cells@[k]));
            }
        }
    }
    proof {
        assert forall|k: int| 0 <= k < params.entries@.len() implies dims(
            (#[trigger] params.entries@[k]).1.shape@,
        ).2 == y@.len() && dims(params.entries@[k].1.shape@).3 == x@.len() by {
            params.content_at(k);
            let name = params.entries@[k].0@;
            assert(names.contains(name));
            let held = params.content()[name];
            if catalog::vertical(c.parameters.content(), name) {
                assert(vs.contains(name));
                let p = choose|p: int| 0 <= p < vs.len() && vs[p] == name;
                assert(gs[i as int].0[p] == name);
                assert(held@ == range(g, rows@[i as int], true, p));
            } else {
                assert(fs.contains(name));
                let p = choose|p: int| 0 <= p < fs.len() && fs[p] == name;
                assert(gs[0].0[p] == name);
                assert(held@ == range(g, rows@[0], false, p));
            }
        }
    }
    let cells = match table.mask {
        Some(m) => Some(m.cells),
        None => None,
    };
    let r = ResultSet { x, y, z, t, cells, params };
    proof {
        rows_fit(r, g);
    }
    r
}

/// The product of four sizes, where it fits.
fn product_of(a: usize, b: usize, c: usize, d: usize) -> (r: Option<usize>)
    ensures
        match r {
            Some(v) => v == a * b * c * d,
            None => a * b * c * d > usize::MAX,
        },
{
    if a == 0 || b == 0 || c == 0 || d == 0 {
        assert(a * b * c * d == 0) by (nonlinear_arith)
            requires
                a == 0 || b == 0 || c == 0 || d == 0,
        ;
        return Some(0);
    }
    assert(0 <= a * b <= a * b * c <= a * b * c * d) by (nonlinear_arith)
        requires
            a >= 1,
            b >= 1,
            c >= 1,
            d >= 1,
    ;
    match a.checked_mul(b) {
        Some(p) => {
            assert(p == a * b);
            match p.checked_mul(c) {
                Some(q) => {
                    assert(q == a * b * c);
                    q.checked_mul(d)
                },
                None => None,
            }
        },
        None => None,
    }
}

impl DataRequest {
    /// Whether the answer's arrays are of a size that memory can be addressed
    /// for.
    pub fn is_addressable(&self) -> (r: bool)
        requires
            self.wf(),
        ensures
            r == self.fits(),
    {
        let s = &self.selection;
        let nz: usize = if self.collection.z.is_some() {
            s.z_idx.len()
        } else {
            0
        };
        product_of(s.t_idx.len(), 1, s.y_idx.len(), s.x_idx.len()).is_some() && product_of(
            s.t_idx.len(),
            nz,
            s.y_idx.len(),
            s.x_idx.len(),
        ).is_some()
    }
}

/// A request whose scan is below the greatest number that can be counted to fits
/// in memory's address space.
pub proof fn a_countable_scan_fits(d: DataRequest)
    requires
        d.wf(),
        d.selection@.scanned() <= usize::MAX,
        !d.selection@.empty(),
    ensures
        d.fits(),
{
    let p = d.selection@;
    let whole = query::Picked { mask: None, ..p };
    query::the_scan_holds_every_value(whole);
    let (t, y, x) = (p.t.len() as int, p.y.len() as int, p.x.len() as int);
    let z = p.z.len() as int;
    let c: &Collection = &d.collection;
    let g = grid(*c, p);
    assert(whole.values() == x * y * t * query::at_least_one(z));
    assert(t * 1 * y * x <= x * y * t * query::at_least_one(z)) by (nonlinear_arith)
        requires
            t >= 0,
            y >= 0,
            x >= 0,
            query::at_least_one(z) >= 1,
    ;
    let lev = g.lev.len() as int;
    assert(0 <= lev <= query::at_least_one(z));
    assert(t * lev * y * x <= x * y * t * query::at_least_one(z)) by (nonlinear_arith)
        requires
            t >= 0,
            y >= 0,
            x >= 0,
            0 <= lev <= query::at_least_one(z),
    ;
}

proof fn settled_has_a_row(g: Grid, rows: Rows, uses_z: bool, p: int, at: int, n: nat)
    requires
        settled(g, rows, uses_z, p, at, n) is Some,
    ensures
        exists|r: int|
            0 <= r < n && #[trigger] slot(g, rows, uses_z, r) == Some(at) && rows.values@[p]@[r]
                == settled(g, rows, uses_z, p, at, n),
    decreases n,
{
    if slot(g, rows, uses_z, n - 1) == Some(at) && rows.values@[p]@[n - 1] is Some {
        assert(slot(g, rows, uses_z, n - 1) == Some(at));
    } else {
        settled_has_a_row(g, rows, uses_z, p, at, (n - 1) as nat);
        let r = choose|r: int|
            0 <= r < n - 1 && #[trigger] slot(g, rows, uses_z, r) == Some(at)
                && rows.values@[p]@[r] == settled(g, rows, uses_z, p, at, (n - 1) as nat);
        assert(0 <= r < n && slot(g, rows, uses_z, r) == Some(at));
    }
}

/// Whether a row has the coordinates of a place on a grid.
pub open spec fn stands_at(
    g: Grid,
    rows: Rows,
    uses_z: bool,
    r: int,
    ti: int,
    zi: int,
    yi: int,
    xi: int,
) -> bool {
    &&& rows.times@[r] == g.t[ti]
    &&& rows.lat@[r].bits == g.lat[yi]
    &&& rows.lon@[r].bits == g.lon[xi]
    &&& uses_z ==> rows.lev@[r].bits == g.lev[zi]
}

/// A value of an answer comes from a row that has the coordinates it is
/// presented at: no value is paired with the wrong coordinates.
pub proof fn values_stand_at_their_coordinates(
    g: Grid,
    rows: Rows,
    uses_z: bool,
    p: int,
    ti: int,
    zi: int,
    yi: int,
    xi: int,
)
    requires
        0 <= ti < g.t.len() <= usize::MAX,
        0 <= yi < g.lat.len() <= usize::MAX,
        0 <= xi < g.lon.len() <= usize::MAX,
        if uses_z {
            0 <= zi < g.lev.len() <= usize::MAX
        } else {
            zi == 0
        },
        settled(
            g,
            rows,
            uses_z,
            p,
            place_in(g, uses_z, ti, zi, yi, xi),
            rows.times@.len(),
        ) is Some,
    ensures
        exists|r: int|
            0 <= r < rows.times@.len() && #[trigger] stands_at(
                g,
                rows,
                uses_z,
                r,
                ti,
                zi,
                yi,
                xi,
            ) && rows.values@[p]@[r] == settled(
                g,
                rows,
                uses_z,
                p,
                place_in(g, uses_z, ti, zi, yi, xi),
                rows.times@.len(),
            ),
{
    let at = place_in(g, uses_z, ti, zi, yi, xi);
    let n = rows.times@.len();
    settled_has_a_row(g, rows, uses_z, p, at, n);
    let r = choose|r: int|
        0 <= r < n && #[trigger] slot(g, rows, uses_z, r) == Some(at) && rows.values@[p]@[r]
            == settled(g, rows, uses_z, p, at, n);
    let (t, y, x) = (
        last_at(g.t, rows.times@[r])->0,
        last_at(g.lat, rows.lat@[r].bits)->0,
        last_at(g.lon, rows.lon@[r].bits)->0,
    );
    last_at_is_last(g.t, rows.times@[r]);
    last_at_is_last(g.lat, rows.lat@[r].bits);
    last_at_is_last(g.lon, rows.lon@[r].bits);
    let (ny, nx) = (g.lat.len() as int, g.lon.len() as int);
    if uses_z {
        let z = last_at(g.lev, rows.lev@[r].bits)->0;
        last_at_is_last(g.lev, rows.lev@[r].bits);
        places_are_distinct(
            g.lev.len() as int,
            ny,
            nx,
            (t as int, z as int, y as int, x as int),
            (ti, zi, yi, xi),
        );
    } else {
        places_are_distinct(1, ny, nx, (t as int, 0, y as int, x as int), (ti, 0, yi, xi));
    }
    assert(stands_at(g, rows, uses_z, r, ti, zi, yi, xi));
}

/// The place of a cell in the values of a group.
pub open spec fn place_in(g: Grid, uses_z: bool, ti: int, zi: int, yi: int, xi: int) -> int {
    let (ny, nx) = (g.lat.len() as int, g.lon.len() as int);
    if uses_z {
        flat(ti, g.lev.len() as int, zi, ny, yi, nx, xi)
    } else {
        flat(ti, 1, 0, ny, yi, nx, xi)
    }
}

proof fn settled_once_found(
    g: Grid,
    rows: Rows,
    uses_z: bool,
    p: int,
    at: int,
    r: int,
    n: nat,
)
    requires
        0 <= r < n,
        slot(g, rows, uses_z, r) == Some(at),
        rows.values@[p]@[r] is Some,
    ensures
        settled(g, rows, uses_z, p, at, n) is Some,
    decreases n,
{
    if r < n - 1 {
        settled_once_found(g, rows, uses_z, p, at, r, (n - 1) as nat);
    }
}

/// A row that has the coordinates of a cell that was asked for, and a value, is
/// not lost: the answer has a value there. Coordinates stand once on each axis.
pub proof fn rows_that_belong_are_kept(
    g: Grid,
    rows: Rows,
    uses_z: bool,
    p: int,
    r: int,
    ti: int,
    zi: int,
    yi: int,
    xi: int,
)
    requires
        g.t.no_duplicates() && g.lat.no_duplicates() && g.lon.no_duplicates()
            && g.lev.no_duplicates(),
        0 <= ti < g.t.len() <= usize::MAX,
        0 <= yi < g.lat.len() <= usize::MAX,
        0 <= xi < g.lon.len() <= usize::MAX,
        if uses_z {
            0 <= zi < g.lev.len() <= usize::MAX
        } else {
            zi == 0
        },
        0 <= r < rows.times@.len(),
        stands_at(g, rows, uses_z, r, ti, zi, yi, xi),
        rows.values@[p]@[r] is Some,
        g.mask matches Some(m) ==> m.contains((yi as usize, xi as usize)),
    ensures
        settled(
            g,
            rows,
            uses_z,
            p,
            place_in(g, uses_z, ti, zi, yi, xi),
            rows.times@.len(),
        ) is Some,
{
    last_at_is_last(g.t, rows.times@[r]);
    last_at_is_last(g.lat, rows.lat@[r].bits);
    last_at_is_last(g.lon, rows.lon@[r].bits);
    assert(g.t.contains(rows.times@[r])) by {
        assert(g.t[ti] == rows.times@[r]);
    }
    assert(g.lat.contains(rows.lat@[r].bits)) by {
        assert(g.lat[yi] == rows.lat@[r].bits);
    }
    assert(g.lon.contains(rows.lon@[r].bits)) by {
        assert(g.lon[xi] == rows.lon@[r].bits);
    }
    if uses_z {
        last_at_is_last(g.lev, rows.lev@[r].bits);
        assert(g.lev.contains(rows.lev@[r].bits)) by {
            assert(g.lev[zi] == rows.lev@[r].bits);
        }
    }
    let at = place_in(g, uses_z, ti, zi, yi, xi);
    assert(slot(g, rows, uses_z, r) == Some(at));
    settled_once_found(g, rows, uses_z, p, at, r, rows.times@.len());
}

/// Whether a row that a scan brought back has the coordinates of a place in an
/// answer: the time, latitude, longitude as the store writes it, and level, that
/// the selection gives there.
pub open spec fn has_coordinates(
    c: Collection,
    s: query::Picked,
    rows: Rows,
    uses_z: bool,
    r: int,
    at: (int, int, int, int),
) -> bool {
    let (ti, zi, yi, xi) = at;
    &&& 0 <= r < rows.times@.len()
    &&& rows.times@[r] == c.t.values@[s.t[ti] as int]
    &&& rows.lat@[r].bits == c.y.values@[s.y[yi] as int].bits
    &&& rows.lon@[r].bits == c.x_native@[s.x[xi] as int].bits
    &&& uses_z ==> c.z is Some && rows.lev@[r].bits == c.z->0.values@[s.z[zi] as int].bits
}

/// Whether a place lies in an answer.
pub open spec fn lies_in(s: query::Picked, uses_z: bool, at: (int, int, int, int)) -> bool {
    &&& 0 <= at.0 < s.t.len() <= usize::MAX
    &&& 0 <= at.2 < s.y.len() <= usize::MAX
    &&& 0 <= at.3 < s.x.len() <= usize::MAX
    &&& if uses_z {
        0 <= at.1 < s.z.len() <= usize::MAX
    } else {
        at.1 == 0
    }
}

/// What an answer holds at a place, read by its own axes and shape, was brought back
/// by a row that has the coordinates of that place, under that parameter; and it
/// holds something only at cells that are selected.
pub proof fn an_answer_holds_what_a_row_brought(
    c: Collection,
    s: query::Picked,
    rows: Rows,
    uses_z: bool,
    p: int,
    at: (int, int, int, int),
)
    requires
        lies_in(s, uses_z, at),
        uses_z ==> c.z is Some,
        s.z.len() <= usize::MAX,
    ensures
        ({
            let a = range(grid(c, s), rows, uses_z, p);
            let v = a.reads(at.0, at.1, at.2, at.3);
            &&& a.laid_out()
            &&& a.axes == if uses_z {
                tall()
            } else {
                level()
            }
            &&& v is Some ==> exists|r: int|
                #[trigger] has_coordinates(c, s, rows, uses_z, r, at) && rows.values@[p]@[r] == v
            &&& v is Some && s.mask is Some ==> s.mask->0.contains(
                (s.y[at.2], s.x[at.3]),
            )
        }),
{
    let g = grid(c, s);
    let (ti, zi, yi, xi) = at;
    let a = range(g, rows, uses_z, p);
    let k = place_in(g, uses_z, ti, zi, yi, xi);
    range_is_read_by_place(c, s, rows, uses_z, p, at);
    let v = a.reads(ti, zi, yi, xi);
    let n = rows.times@.len();
    if v is Some {
        settled_has_a_row(g, rows, uses_z, p, k, n);
        let r = choose|r: int|
            0 <= r < n && #[trigger] slot(g, rows, uses_z, r) == Some(k) && rows.values@[p]@[r]
                == settled(g, rows, uses_z, p, k, n);
        let (t, y, x) = (
            last_at(g.t, rows.times@[r])->0,
            last_at(g.lat, rows.lat@[r].bits)->0,
            last_at(g.lon, rows.lon@[r].bits)->0,
        );
        last_at_is_last(g.t, rows.times@[r]);
        last_at_is_last(g.lat, rows.lat@[r].bits);
        last_at_is_last(g.lon, rows.lon@[r].bits);
        let (ny, nx) = (g.lat.len() as int, g.lon.len() as int);
        if uses_z {
            let z = last_at(g.lev, rows.lev@[r].bits)->0;
            last_at_is_last(g.lev, rows.lev@[r].bits);
            places_are_distinct(
                g.lev.len() as int,
                ny,
                nx,
                (t as int, z as int, y as int, x as int),
                (ti, zi, yi, xi),
            );
        } else {
            places_are_distinct(1, ny, nx, (t as int, 0, y as int, x as int), (ti, 0, yi, xi));
        }
        assert(has_coordinates(c, s, rows, uses_z, r, at));
        if s.mask is Some {
            let m = s.mask->0;
            assert(g.mask->0.contains((y, x)));
            let cell = choose|cell: (usize, usize)| #[trigger]
                m.contains(cell) && last_at(s.y, cell.0) == Some(y) && last_at(s.x, cell.1)
                    == Some(x);
            last_at_is_last(s.y, cell.0);
            last_at_is_last(s.x, cell.1);
            assert(cell == (s.y[yi], s.x[xi]));
        }
    }
}

proof fn range_is_read_by_place(
    c: Collection,
    s: query::Picked,
    rows: Rows,
    uses_z: bool,
    p: int,
    at: (int, int, int, int),
)
    requires
        lies_in(s, uses_z, at),
        uses_z ==> c.z is Some,
        s.z.len() <= usize::MAX,
    ensures
        range(grid(c, s), rows, uses_z, p).laid_out(),
        range(grid(c, s), rows, uses_z, p).axes == if uses_z {
            tall()
        } else {
            level()
        },
        range(grid(c, s), rows, uses_z, p).reads(at.0, at.1, at.2, at.3) == settled(
            grid(c, s),
            rows,
            uses_z,
            p,
            place_in(grid(c, s), uses_z, at.0, at.1, at.2, at.3),
            rows.times@.len(),
        ),
{
    let g = grid(c, s);
    let (ti, zi, yi, xi) = at;
    let a = range(g, rows, uses_z, p);
    let (nt, ny, nx) = (g.t.len() as int, g.lat.len() as int, g.lon.len() as int);
    axis_names_differ();
    places_by_axes(a.shape, ti, zi, yi, xi);
    if uses_z {
        assert(a.axes =~= tall());
        let nz = g.lev.len() as int;
        assert(a.shape =~= seq![nt as usize, nz as usize, ny as usize, nx as usize]);
        flat_is_within(nt, nz, ny, nx, ti, zi, yi, xi);
    } else {
        assert(a.axes =~= level());
        assert(a.shape =~= seq![nt as usize, ny as usize, nx as usize]);
        flat_is_within(nt, 1, ny, nx, ti, 0, yi, xi);
        assert(ti * 1 + 0 == ti);
        assert(nt * 1 * ny * nx == volume(g, false));
    }
}

/// A row is not lost: where a row has the coordinates of a selected place and a value
/// of a parameter, the answer holds a value there, and it is that of the last such
/// row. Coordinates stand once on each axis.
pub proof fn an_answer_loses_no_row(
    c: Collection,
    s: query::Picked,
    rows: Rows,
    uses_z: bool,
    p: int,
    at: (int, int, int, int),
    r: int,
)
    requires
        lies_in(s, uses_z, at),
        uses_z ==> c.z is Some,
        s.z.len() <= usize::MAX,
        grid(c, s).t.no_duplicates() && grid(c, s).lat.no_duplicates() && grid(
            c,
            s,
        ).lon.no_duplicates() && grid(c, s).lev.no_duplicates(),
        s.x.no_duplicates() && s.y.no_duplicates(),
        has_coordinates(c, s, rows, uses_z, r, at),
        rows.values@[p]@[r] is Some,
        s.mask matches Some(m) ==> m.contains((s.y[at.2], s.x[at.3])),
        forall|k: int|
            r < k < rows.times@.len() && #[trigger] has_coordinates(c, s, rows, uses_z, k, at)
                ==> rows.values@[p]@[k] is None,
    ensures
        range(grid(c, s), rows, uses_z, p).reads(at.0, at.1, at.2, at.3) == rows.values@[p]@[r],
{
    let g = grid(c, s);
    let (ti, zi, yi, xi) = at;
    let k = place_in(g, uses_z, ti, zi, yi, xi);
    let n = rows.times@.len();
    range_is_read_by_place(c, s, rows, uses_z, p, at);
    assert(stands_at(g, rows, uses_z, r, ti, zi, yi, xi));
    if let Some(m) = s.mask {
        let cell = (s.y[yi], s.x[xi]);
        last_at_is_last(s.y, cell.0);
        last_at_is_last(s.x, cell.1);
        assert(m.contains(cell) && last_at(s.y, cell.0) == Some(yi as usize) && last_at(
            s.x,
            cell.1,
        ) == Some(xi as usize));
        assert(g.mask->0.contains((yi as usize, xi as usize)));
    }
    rows_that_belong_are_kept(g, rows, uses_z, p, r, ti, zi, yi, xi);
    settled_is_the_last(c, s, rows, uses_z, p, at, r, n);
}

proof fn settled_is_the_last(
    c: Collection,
    s: query::Picked,
    rows: Rows,
    uses_z: bool,
    p: int,
    at: (int, int, int, int),
    r: int,
    n: nat,
)
    requires
        lies_in(s, uses_z, at),
        uses_z ==> c.z is Some,
        s.z.len() <= usize::MAX,
        0 <= r < n <= rows.times@.len(),
        rows.values@[p]@[r] is Some,
        has_coordinates(c, s, rows, uses_z, r, at),
        grid(c, s).t.no_duplicates() && grid(c, s).lat.no_duplicates() && grid(
            c,
            s,
        ).lon.no_duplicates() && grid(c, s).lev.no_duplicates(),
        grid(c, s).mask matches Some(m) ==> m.contains((at.2 as usize, at.3 as usize)),
        forall|k: int|
            r < k < rows.times@.len() && #[trigger] has_coordinates(c, s, rows, uses_z, k, at)
                ==> rows.values@[p]@[k] is None,
    ensures
        settled(
            grid(c, s),
            rows,
            uses_z,
            p,
            place_in(grid(c, s), uses_z, at.0, at.1, at.2, at.3),
            n,
        ) == rows.values@[p]@[r],
    decreases n,
{
    let g = grid(c, s);
    let (ti, zi, yi, xi) = at;
    let k = place_in(g, uses_z, ti, zi, yi, xi);
    let j = n - 1;
    if slot(g, rows, uses_z, j) == Some(k) {
        slot_gives_coordinates(c, s, rows, uses_z, j, at);
    }
    if j > r {
        settled_is_the_last(c, s, rows, uses_z, p, at, r, j as nat);
    } else {
        last_at_is_last(g.t, rows.times@[r]);
        last_at_is_last(g.lat, rows.lat@[r].bits);
        last_at_is_last(g.lon, rows.lon@[r].bits);
        assert(g.t[ti] == rows.times@[r] && g.lat[yi] == rows.lat@[r].bits && g.lon[xi]
            == rows.lon@[r].bits);
        assert(g.t.contains(rows.times@[r]) && g.lat.contains(rows.lat@[r].bits)
            && g.lon.contains(rows.lon@[r].bits));
        if uses_z {
            last_at_is_last(g.lev, rows.lev@[r].bits);
            assert(g.lev[zi] == rows.lev@[r].bits);
            assert(g.lev.contains(rows.lev@[r].bits));
        }
        assert(slot(g, rows, uses_z, r) == Some(k));
    }
}

proof fn slot_gives_coordinates(
    c: Collection,
    s: query::Picked,
    rows: Rows,
    uses_z: bool,
    r: int,
    at: (int, int, int, int),
)
    requires
        lies_in(s, uses_z, at),
        uses_z ==> c.z is Some,
        s.z.len() <= usize::MAX,
        0 <= r < rows.times@.len(),
        slot(grid(c, s), rows, uses_z, r) == Some(
            place_in(grid(c, s), uses_z, at.0, at.1, at.2, at.3),
        ),
    ensures
        has_coordinates(c, s, rows, uses_z, r, at),
{
    let g = grid(c, s);
    let (ti, zi, yi, xi) = at;
    let (t, y, x) = (
        last_at(g.t, rows.times@[r])->0,
        last_at(g.lat, rows.lat@[r].bits)->0,
        last_at(g.lon, rows.lon@[r].bits)->0,
    );
    last_at_is_last(g.t, rows.times@[r]);
    last_at_is_last(g.lat, rows.lat@[r].bits);
    last_at_is_last(g.lon, rows.lon@[r].bits);
    let (ny, nx) = (g.lat.len() as int, g.lon.len() as int);
    if uses_z {
        let z = last_at(g.lev, rows.lev@[r].bits)->0;
        last_at_is_last(g.lev, rows.lev@[r].bits);
        places_are_distinct(
            g.lev.len() as int,
            ny,
            nx,
            (t as int, z as int, y as int, x as int),
            (ti, zi, yi, xi),
        );
    } else {
        places_are_distinct(1, ny, nx, (t as int, 0, y as int, x as int), (ti, 0, yi, xi));
    }
}

/// The cells of an answer are those that are selected, by where their row and their
/// column stand in it.
pub proof fn an_answer_marks_the_selected_cells(s: query::Picked, y: usize, x: usize)
    requires
        s.mask is Some,
        y < s.y.len() <= usize::MAX,
        x < s.x.len() <= usize::MAX,
        s.x.no_duplicates(),
        s.y.no_duplicates(),
    ensures
        output_mask(s) is Some,
        output_mask(s)->0.contains((y, x)) <==> s.mask->0.contains((s.y[y as int], s.x[x as int])),
{
    let m = s.mask->0;
    let cell = (s.y[y as int], s.x[x as int]);
    last_at_is_last(s.y, cell.0);
    last_at_is_last(s.x, cell.1);
    assert(s.y.contains(cell.0) && s.x.contains(cell.1));
    if m.contains(cell) {
        assert(m.contains(cell) && last_at(s.y, cell.0) == Some(y) && last_at(s.x, cell.1)
            == Some(x));
    }
    if output_mask(s)->0.contains((y, x)) {
        let other = choose|other: (usize, usize)| #[trigger]
            m.contains(other) && last_at(s.y, other.0) == Some(y) && last_at(s.x, other.1)
                == Some(x);
        last_at_is_last(s.y, other.0);
        last_at_is_last(s.x, other.1);
        assert(other == cell);
    }
}

} // verus!
