//! What collections exist and what they contain.
//!
//! A collection is a single Zarr store registered as one table. At startup we
//! learn three things about it: its schema, the values of its coordinate axes,
//! and its CF attributes (`units`, `long_name`, …), which EDR needs for
//! `parameter_names`.
use std::sync::Arc;
use vstd::prelude::*;

use crate::axis::{self, NumericAxis, TimeAxis};
use crate::double::Double;
use crate::error::{EdrError, EdrResult, Fault};
use crate::names::NameMap;
use crate::text;

verus! {

/// One queryable parameter: a Zarr data variable.
#[derive(Debug)]
pub struct Parameter {
    /// Zarr array name; also the EDR parameter name and the SQL column.
    pub name: String,
    pub label: String,
    pub description: Option<String>,
    /// CF `units`. `None` means the store did not record any, in which case the
    /// EDR response says so rather than inventing a unit.
    pub unit: Option<String>,
    pub standard_name: Option<String>,
    /// Whether this variable spans the vertical coordinate. Surface and
    /// pressure-level variables cannot be read in one scan, so this is what
    /// splits a request into separate queries.
    pub uses_z: bool,
    /// CoverageJSON range data type: "float" or "integer".
    pub cov_data_type: &'static str,
}

/// A collection: one Zarr store, its axes, and its parameters.
#[derive(Debug)]
pub struct Collection {
    pub id: String,
    pub title: String,
    pub description: String,
    /// Name the store is registered under.
    pub table: String,
    pub keywords: Vec<String>,
    pub x_name: String,
    pub y_name: String,
    pub z_name: Option<String>,
    pub t_name: String,
    pub x: NumericAxis,
    pub y: NumericAxis,
    pub z: Option<NumericAxis>,
    pub t: TimeAxis,
    /// Each longitude as CRS84.
    pub x_crs84: Vec<Double>,
    /// Each longitude folded from CRS84 back onto the store's own convention,
    /// as it comes back in a row.
    pub x_native: Vec<Double>,
    /// Each coordinate written with ten decimals, as it stands in SQL.
    pub x_texts: Vec<String>,
    pub y_texts: Vec<String>,
    pub z_texts: Vec<String>,
    /// True when the longitude axis runs 0…360 (ERA5) rather than -180…180, so
    /// CRS84 input has to be folded before it can be matched against the axis.
    pub lon_0_360: bool,
    /// True when the longitude axis wraps the globe, so its two ends are
    /// neighbours rather than the extremes of a bounded range.
    pub lon_global: bool,
    /// Vertical axis units, e.g. "Hectopascal(hPa)".
    pub z_units: Option<String>,
    /// Time range the provider declares as actually populated, from the store's
    /// root attributes. ERA5's time axis is pre-allocated out to 2050, so the
    /// axis alone would advertise decades of empty grids.
    pub valid_time: Option<(i64, i64)>,
    pub parameters: NameMap<Parameter>,
}

/// The bits of 180 degrees east and west.
pub const EAST: u64 = 0x4066_8000_0000_0000;

pub const WEST: u64 = 0xc066_8000_0000_0000;

/// A CRS84 longitude in the store's convention, where `folded` is the longitude
/// folded onto 0…360.
pub open spec fn native_lon(lon_0_360: bool, lon: Double, folded: Double) -> Double {
    if lon_0_360 {
        folded
    } else {
        lon
    }
}

/// A stored longitude as CRS84, where `shifted` is the longitude less a full
/// turn.
pub open spec fn crs84_lon(lon_0_360: bool, native: Double, shifted: Double) -> Double {
    if lon_0_360 && (Double { bits: EAST }).less(native) {
        shifted
    } else {
        native
    }
}

/// Of an index and the two ends of an axis of `n` values, the one at which
/// `around` is least; of equals, the first of these three.
pub open spec fn closest_around(linear: int, n: int, around: Seq<Double>) -> int {
    let first = if around[0].place() < around[linear].place() {
        0
    } else {
        linear
    };
    if around[n - 1].place() < around[first].place() {
        n - 1
    } else {
        first
    }
}

/// The index of the longitude that a lookup settles on.
pub open spec fn nearest_lon(
    x: Seq<Double>,
    lon_global: bool,
    native: Double,
    distances: Seq<Double>,
    around: Seq<Double>,
) -> int {
    let linear = axis::nearest_to(x, native, distances);
    if lon_global {
        closest_around(linear, x.len() as int, around)
    } else {
        linear
    }
}

/// The span that an axis covers, within a validity window where there is one.
pub open spec fn extent(t: Seq<i64>, valid: Option<(i64, i64)>) -> (i64, i64) {
    let first = if t.len() > 0 {
        t.first()
    } else {
        0
    };
    let last = if t.len() > 0 {
        t.last()
    } else {
        0
    };
    match valid {
        Some(w) => (
            if w.0 >= first {
                w.0
            } else {
                first
            },
            if w.1 <= last {
                w.1
            } else {
                last
            },
        ),
        None => (first, last),
    }
}

/// Whether a parameter spans the vertical axis.
pub open spec fn vertical(parameters: Map<Seq<char>, Parameter>, name: Seq<char>) -> bool {
    parameters.contains_key(name) && parameters[name].uses_z
}

/// The names that do, or do not, span the vertical axis, in order.
pub open spec fn grouped(
    parameters: Map<Seq<char>, Parameter>,
    names: Seq<Seq<char>>,
    uses_z: bool,
) -> Seq<Seq<char>>
    decreases names.len(),
{
    if names.len() == 0 {
        Seq::empty()
    } else if vertical(parameters, names.last()) == uses_z {
        grouped(parameters, names.drop_last(), uses_z).push(names.last())
    } else {
        grouped(parameters, names.drop_last(), uses_z)
    }
}

impl Collection {
    pub open spec fn wf(&self) -> bool {
        &&& self.x.wf() && self.x.values@.len() > 0
        &&& self.y.wf() && self.y.values@.len() > 0
        &&& self.t.values@.len() > 0
        &&& self.z matches Some(z) ==> z.wf() && z.values@.len() > 0 && self.z_texts@.len()
            == z.values@.len()
        &&& self.z is Some == self.z_name is Some
        &&& self.x_crs84@.len() == self.x.values@.len()
        &&& self.x_native@.len() == self.x.values@.len()
        &&& self.x_texts@.len() == self.x.values@.len()
        &&& self.y_texts@.len() == self.y.values@.len()
        &&& self.parameters.wf()
        &&& forall|name: Seq<char>| #[trigger]
            self.parameters.content().contains_key(name)
                && self.parameters.content()[name].uses_z ==> self.z is Some
    }

    pub fn parameter(&self, name: &str) -> (r: Option<&Parameter>)
        requires
            self.wf(),
        ensures
            match r {
                Some(p) => self.parameters.content().contains_key(name@) && *p
                    == self.parameters.content()[name@],
                None => !self.parameters.content().contains_key(name@),
            },
    {
        self.parameters.get(name)
    }

    /// Fold a CRS84 longitude (-180…180) onto the store's own convention, where
    /// `folded` is the longitude folded onto 0…360.
    pub fn to_native_lon(&self, lon: Double, folded: Double) -> (r: Double)
        ensures
            r == native_lon(self.lon_0_360, lon, folded),
    {
        if self.lon_0_360 {
            folded
        } else {
            lon
        }
    }

    /// Present a stored longitude as CRS84, where `shifted` is the longitude
    /// less a full turn.
    pub fn to_crs84_lon(&self, native: Double, shifted: Double) -> (r: Double)
        ensures
            r == crs84_lon(self.lon_0_360, native, shifted),
    {
        to_crs84(self.lon_0_360, native, shifted)
    }

    /// Index of the longitude cell nearest a longitude in the store's own
    /// convention, where `distances` holds how far each longitude is from it
    /// along the axis, and `around` how far round the circle.
    ///
    /// On a wrapping axis the distance is measured around the circle: a point
    /// just west of the prime meridian is nearer to the first cell of a 0…360
    /// axis than to its last, which a straight search on the stored values
    /// would get backwards.
    pub fn nearest_x(&self, native: Double, distances: &Vec<Double>, around: &Vec<Double>) -> (r:
        usize)
        requires
            self.wf(),
            distances@.len() == self.x.values@.len(),
            around@.len() == self.x.values@.len(),
        ensures
            r < self.x.values@.len(),
            r == nearest_lon(
                self.x.values@,
                self.lon_global,
                native,
                distances@,
                around@,
            ),
    {
        let linear: usize = self.x.nearest_index(native, distances);
        if !self.lon_global {
            return linear;
        }
        let n: usize = self.x.len();
        let first: usize = if around[0].precedes(around[linear]) {
            0
        } else {
            linear
        };
        if around[n - 1].precedes(around[first]) {
            n - 1
        } else {
            first
        }
    }

    /// The spatial extent: west, south, east, north.
    pub open spec fn corners(self) -> Seq<Double> {
        let (x, y) = (self.x.values@, self.y.values@);
        Seq::empty().push(
            if self.lon_global {
                Double { bits: WEST }
            } else {
                self.x_crs84@[axis::upward(x, 0)]
            },
        ).push(y[axis::upward(y, 0)]).push(
            if self.lon_global {
                Double { bits: EAST }
            } else {
                self.x_crs84@[axis::upward(x, x.len() - 1)]
            },
        ).push(y[axis::upward(y, y.len() - 1)])
    }

    /// Spatial extent in CRS84 order: `[west, south, east, north]`.
    ///
    /// A wrapping axis covers the whole world; it is reported as such rather
    /// than as 0…359.75, which would read as a partial extent.
    pub fn bbox(&self) -> (r: [Double; 4])
        requires
            self.wf(),
        ensures
            r@ == self.corners(),
    {
        let south = self.y.min();
        let north = self.y.max();
        let last: usize = self.x.len() - 1;
        let (west, east) = if self.lon_global {
            (Double { bits: WEST }, Double { bits: EAST })
        } else if self.x.ascending {
            (self.x_crs84[0], self.x_crs84[last])
        } else {
            (self.x_crs84[last], self.x_crs84[0])
        };
        let r = [west, south, east, north];
        assert(r@ =~= self.corners());
        r
    }

    /// Temporal extent in epoch microseconds: the declared validity window,
    /// clipped to the axis, falling back to the axis itself.
    pub fn time_extent(&self) -> (r: (i64, i64))
        ensures
            r == extent(self.t.values@, self.valid_time),
    {
        let n: usize = self.t.values.len();
        let first: i64 = if n > 0 {
            self.t.values[0]
        } else {
            0
        };
        let last: i64 = if n > 0 {
            self.t.values[n - 1]
        } else {
            0
        };
        match self.valid_time {
            Some((lo, hi)) => (
                if lo >= first {
                    lo
                } else {
                    first
                },
                if hi <= last {
                    hi
                } else {
                    last
                },
            ),
            None => (first, last),
        }
    }

    /// Parameters split into the two groups that must be queried separately:
    /// those spanning the vertical axis and those that do not.
    pub fn split_by_vertical(&self, names: &Vec<String>) -> (r: (Vec<String>, Vec<String>))
        requires
            self.wf(),
        ensures
            text::texts(r.0@) == grouped(self.parameters.content(), text::texts(names@), true),
            text::texts(r.1@) == grouped(self.parameters.content(), text::texts(names@), false),
    {
        let mut spanning: Vec<String> = Vec::new();
        let mut flat: Vec<String> = Vec::new();
        let mut i: usize = 0;
        let ghost all = text::texts(names@);
        let ghost ps = self.parameters.content();
        assert(text::texts(spanning@) == Seq::<Seq<char>>::empty());
        assert(text::texts(flat@) == Seq::<Seq<char>>::empty());
        while i < names.len()
            invariant
                self.wf(),
                i <= names.len(),
                all == text::texts(names@),
                ps == self.parameters.content(),
                text::texts(spanning@) == grouped(ps, all.take(i as int), true),
                text::texts(flat@) == grouped(ps, all.take(i as int), false),
            decreases names.len() - i,
        {
            proof {
                assert(all.take(i + 1).drop_last() == all.take(i as int));
                assert(all.take(i + 1).last() == names@[i as int]@);
            }
            let ghost (s, f) = (text::texts(spanning@), text::texts(flat@));
            if self.spans(names[i].as_str()) {
                spanning.push(names[i].clone());
                assert(text::texts(spanning@) == s.push(all[i as int]));
            } else {
                flat.push(names[i].clone());
                assert(text::texts(flat@) == f.push(all[i as int]));
            }
            i += 1;
        }
        assert(all.take(i as int) == all);
        (spanning, flat)
    }

    /// Whether a parameter spans the vertical axis.
    pub fn spans(&self, name: &str) -> (r: bool)
        requires
            self.wf(),
        ensures
            r == vertical(self.parameters.content(), name@),
    {
        match self.parameter(name) {
            Some(p) => p.uses_z,
            None => false,
        }
    }
}

/// A stored longitude as CRS84, where `shifted` is the longitude less a full
/// turn.
pub fn to_crs84(lon_0_360: bool, native: Double, shifted: Double) -> (r: Double)
    ensures
        r == crs84_lon(lon_0_360, native, shifted),
{
    if lon_0_360 && (Double { bits: EAST }).is_less(native) {
        shifted
    } else {
        native
    }
}

/// The registered collections.
#[derive(Debug)]
pub struct Catalog {
    pub collections: NameMap<Arc<Collection>>,
}

impl Catalog {
    pub open spec fn wf(&self) -> bool {
        self.collections.wf()
    }

    pub fn collection(&self, id: &str) -> (r: EdrResult<&Arc<Collection>>)
        requires
            self.wf(),
        ensures
            match r {
                Ok(c) => self.collections.content().contains_key(id@) && *c
                    == self.collections.content()[id@],
                Err(e) => !self.collections.content().contains_key(id@) && e@ == Fault::NotFound(
                    "No collection with id '"@ + id@ + "'"@,
                ),
            },
    {
        match self.collections.get(id) {
            Some(c) => Ok(c),
            None => {
                let mut m: String = "No collection with id '".to_owned();
                m.append(id);
                m.append("'");
                Err(EdrError::NotFound(m))
            },
        }
    }
}

/// Quote a SQL identifier. ERA5 variable names start with digits
/// (`2m_temperature`), so nothing may go unquoted.
pub open spec fn quoted(name: Seq<char>) -> Seq<char> {
    seq!['"'] + text::replaced_char(name, '"', "\"\""@) + seq!['"']
}

pub fn quote_ident(name: &str) -> (r: String)
    ensures
        r@ == quoted(name@),
{
    let chars = text::chars_of(name);
    let inner = text::replace_char(chars.as_slice(), '"', "\"\"");
    let mut out: String = String::new();
    out.push('"');
    out.append(text::string_of(inner.as_slice()).as_str());
    out.push('"');
    assert(out@ == quoted(name@));
    out
}

/// Whether `around` holds distances round the circle, where `distances` holds
/// those along the axis: none is the greater, and where one is the lesser it goes
/// by way of an end of the axis, which is then no further off.
pub open spec fn goes_round(distances: Seq<Double>, around: Seq<Double>) -> bool {
    &&& around.len() == distances.len()
    &&& forall|j: int|
        0 <= j < around.len() ==> {
            let d = #[trigger] around[j];
            &&& d.at_most(distances[j])
            &&& d.less(distances[j]) ==> around[0].at_most(d) || around[around.len() - 1].at_most(
                d,
            )
        }
}

/// On an axis that wraps, a lookup settles on a longitude than which no other is
/// closer round the circle.
pub proof fn wrapping_lookups_settle_on_the_closest(
    x: Seq<Double>,
    native: Double,
    distances: Seq<Double>,
    around: Seq<Double>,
)
    requires
        x.len() > 0,
        axis::monotonic(x),
        axis::measures(x, native, distances),
        goes_round(distances, around),
    ensures
        0 <= nearest_lon(x, true, native, distances, around) < x.len(),
        forall|j: int|
            0 <= j < x.len() ==> around[nearest_lon(
                x,
                true,
                native,
                distances,
                around,
            )].at_most(#[trigger] around[j]),
{
    axis::nearest_is_closest(x, native, distances);
    let linear = axis::nearest_to(x, native, distances);
    let found = nearest_lon(x, true, native, distances, around);
    let last = x.len() - 1;
    assert(around[linear].at_most(distances[linear]));
    assert(around[0].at_most(distances[0]) && around[last].at_most(distances[last]));
    assert forall|j: int| 0 <= j < x.len() implies around[found].at_most(#[trigger] around[j]) by {
        assert(distances[linear].at_most(distances[j]));
    }
}

proof fn doubling_is_injective(a: Seq<char>, b: Seq<char>)
    requires
        text::replaced_char(a, '"', "\"\""@) == text::replaced_char(b, '"', "\"\""@),
    ensures
        a == b,
    decreases a.len(),
{
    reveal_strlit("\"\"");
    let to = "\"\""@;
    let (u, v) = (text::replaced_char(a, '"', to), text::replaced_char(b, '"', to));
    if a.len() == 0 || b.len() == 0 {
        if b.len() > 0 {
            assert(v.len() > 0);
        }
        if a.len() > 0 {
            assert(u.len() > 0);
        }
        assert(a =~= b);
    } else {
        let (p, q) = (a.drop_last(), b.drop_last());
        let (x, y) = (text::replaced_char(p, '"', to), text::replaced_char(q, '"', to));
        assert(u.last() == a.last());
        assert(v.last() == b.last());
        if a.last() == '"' {
            assert(x =~= u.take(u.len() - 2));
            assert(y =~= v.take(v.len() - 2));
        } else {
            assert(x =~= u.drop_last());
            assert(y =~= v.drop_last());
        }
        doubling_is_injective(p, q);
        assert(a =~= p.push(a.last()));
        assert(b =~= q.push(b.last()));
    }
}

/// Different names are quoted differently.
pub proof fn quoting_is_injective(a: Seq<char>, b: Seq<char>)
    requires
        quoted(a) == quoted(b),
    ensures
        a == b,
{
    let (u, v) = (
        text::replaced_char(a, '"', "\"\""@),
        text::replaced_char(b, '"', "\"\""@),
    );
    assert(quoted(a).len() == u.len() + 2);
    assert(quoted(b).len() == v.len() + 2);
    assert(quoted(a).subrange(1, quoted(a).len() - 1) =~= u);
    assert(quoted(b).subrange(1, quoted(b).len() - 1) =~= v);
    doubling_is_injective(a, b);
}

/// An instant lies within a collection's temporal extent if and only if it lies
/// between the first time of the axis and the last, and within the validity window
/// where one is declared.
pub proof fn the_extent_is_what_is_declared_of_the_axis(
    t: Seq<i64>,
    valid: Option<(i64, i64)>,
    at: i64,
)
    requires
        t.len() > 0,
    ensures
        extent(t, valid).0 <= at <= extent(t, valid).1 <==> t[0] <= at <= t[t.len() - 1] && (
        valid matches Some(w) ==> w.0 <= at <= w.1),
{
}

/// The spatial extent runs from the least latitude to the greatest; and from 180
/// degrees west to 180 east where the axis wraps, or else from the least stored
/// longitude to the greatest, as CRS84 presents them.
pub proof fn the_corners_enclose_the_grid(c: Collection, i: int, j: int)
    requires
        c.wf(),
        axis::monotonic(c.x.values@),
        axis::monotonic(c.y.values@),
        0 <= i < c.y.values@.len(),
        0 <= j < c.x.values@.len(),
    ensures
        c.corners().len() == 4,
        c.corners()[1].at_most(c.y.values@[i]) && c.y.values@[i].at_most(c.corners()[3]),
        c.y.values@.contains(c.corners()[1]) && c.y.values@.contains(c.corners()[3]),
        c.lon_global ==> c.corners()[0] == (Double { bits: 0xc066_8000_0000_0000 }) && c.corners()[2] == (Double {
            bits: 0x4066_8000_0000_0000,
        }),
        !c.lon_global ==> exists|w: int, e: int|
            {
                &&& 0 <= w < c.x.values@.len() && 0 <= e < c.x.values@.len()
                &&& c.corners()[0] == #[trigger] c.x_crs84@[w]
                &&& c.corners()[2] == #[trigger] c.x_crs84@[e]
                &&& c.x.values@[w].at_most(c.x.values@[j]) && c.x.values@[j].at_most(
                    c.x.values@[e],
                )
            },
{
    let (x, y) = (c.x.values@, c.y.values@);
    let (nx, ny) = (x.len() as int, y.len() as int);
    ends_are_extreme(y, i);
    ends_are_extreme(x, j);
    assert(y[axis::upward(y, 0)] == c.corners()[1]);
    assert(y[axis::upward(y, ny - 1)] == c.corners()[3]);
    if !c.lon_global {
        let (w, e) = (axis::upward(x, 0), axis::upward(x, nx - 1));
        assert(c.corners()[0] == c.x_crs84@[w] && c.corners()[2] == c.x_crs84@[e]);
    }
}

pub(crate) proof fn ends_are_extreme(v: Seq<Double>, i: int)
    requires
        axis::monotonic(v),
        0 <= i < v.len(),
    ensures
        v[axis::upward(v, 0)].at_most(v[i]),
        v[i].at_most(v[axis::upward(v, v.len() - 1)]),
        0 <= axis::upward(v, 0) < v.len(),
        0 <= axis::upward(v, v.len() - 1) < v.len(),
{
    let k = axis::upward(v, i);
    assert(axis::upward(v, k) == i);
    assert(v[axis::upward(v, 0)].at_most(v[axis::upward(v, k)]));
    assert(v[axis::upward(v, k)].at_most(v[axis::upward(v, v.len() - 1)]));
}

/// A longitude is presented as it is stored, but for those past 180 degrees east on
/// an axis that runs to 360, which are presented a full turn less; and a longitude of
/// CRS84 is folded onto 0 to 360 on such an axis alone.
pub proof fn longitudes_are_presented_as_stored_but_past_the_east(
    native: Double,
    shifted: Double,
    folded: Double,
)
    ensures
        crs84_lon(false, native, shifted) == native,
        !(Double { bits: 0x4066_8000_0000_0000 }).less(native) ==> crs84_lon(true, native, shifted) == native,
        (Double { bits: 0x4066_8000_0000_0000 }).less(native) ==> crs84_lon(true, native, shifted) == shifted,
        native_lon(false, native, folded) == native,
        native_lon(true, native, folded) == folded,
{
}

/// The names of parameters fall into two groups by whether the parameter spans the
/// vertical axis: each is in its own and not in the other, and both keep the order.
pub proof fn a_name_falls_into_its_own_group(
    parameters: Map<Seq<char>, Parameter>,
    names: Seq<Seq<char>>,
    uses_z: bool,
    name: Seq<char>,
)
    ensures
        grouped(parameters, names, uses_z).contains(name) <==> names.contains(name) && (
        parameters.contains_key(name) && parameters[name].uses_z) == uses_z,
        grouped(parameters, names, true).len() + grouped(parameters, names, false).len()
            == names.len(),
    decreases names.len(),
{
    if names.len() > 0 {
        let front = names.drop_last();
        a_name_falls_into_its_own_group(parameters, front, uses_z, name);
        a_name_falls_into_its_own_group(parameters, front, !uses_z, name);
        let (f, r) = (grouped(parameters, front, uses_z), grouped(parameters, names, uses_z));
        if names.contains(name) && names.last() != name {
            let k = choose|k: int| 0 <= k < names.len() && names[k] == name;
            assert(front[k] == name);
        }
        if front.contains(name) {
            let k = choose|k: int| 0 <= k < front.len() && front[k] == name;
            assert(names[k] == name);
        }
        if names.last() == name {
            assert(names[names.len() - 1] == name);
        }
        if f.contains(name) {
            let k = choose|k: int| 0 <= k < f.len() && f[k] == name;
            assert(r[k] == name);
        }
        if r.contains(name) {
            let k = choose|k: int| 0 <= k < r.len() && r[k] == name;
            if k < f.len() {
                assert(f[k] == name);
            }
        }
        if r.len() > f.len() {
            assert(r[f.len() as int] == names.last());
        }
    }
}

/// A name is quoted as it is, but for a quotation mark, which is doubled.
pub proof fn a_quotation_mark_is_doubled(a: Seq<char>, b: Seq<char>)
    requires
        text::free_of(a, '"'),
        text::free_of(b, '"'),
    ensures
        quoted(a) == seq!['"'] + a + seq!['"'],
        quoted(a + seq!['"'] + b) == seq!['"'] + a + seq!['"', '"'] + b + seq!['"'],
{
    reveal_strlit("\"\"");
    let to = "\"\""@;
    assert(to =~= seq!['"', '"']);
    text::a_character_is_replaced_wherever_it_stands(a, seq!['"'], '"', to);
    text::a_character_is_replaced_wherever_it_stands(b, b, '"', to);
    text::a_character_is_replaced_wherever_it_stands(a + seq!['"'], b, '"', to);
    assert(quoted(a + seq!['"'] + b) =~= seq!['"'] + a + seq!['"', '"'] + b + seq!['"']);
}

} // verus!
