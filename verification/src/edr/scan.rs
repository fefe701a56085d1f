//! The SQL that reads a selection.
//!
//! Coordinates are only ever constrained to contiguous ranges. A scattered
//! selection (a box across the prime meridian, a thinned grid, a list of
//! pressure levels) is widened to the range that spans it rather than written
//! as an `IN` list: the store resolves an `IN` list to a set of scattered
//! indices, and when that axis is not the outermost dimension of the variable it
//! pairs the values it reads with the wrong coordinates.
//!
//! Widening is cheap where it matters: an ERA5 chunk spans the whole globe (and
//! every level) at one timestep, so a wider longitude, latitude or level range
//! reads the same chunks. The surplus rows are discarded when values are placed,
//! because only the coordinates actually selected have a slot.
use vstd::prelude::*;

use crate::axis::{NumericAxis, TimeAxis};
use crate::catalog::{self, quote_ident, Collection};
use crate::clock;
use crate::double::Double;
use crate::edr::query::{self, format_number, span_of, Selection};
use crate::edr::region;
use crate::text;

verus! {

/// The bits of the two infinities.
pub const INFINITY: u64 = 0x7ff0_0000_0000_0000;

pub const NEG_INFINITY: u64 = 0xfff0_0000_0000_0000;

/// The value at a place, where there is one.
pub open spec fn value_at(values: Seq<Double>, at: Option<usize>, otherwise: u64) -> Double {
    match at {
        Some(i) => values[i as int],
        None => Double { bits: otherwise },
    }
}

/// Which of some indices has the least value; the first of equals.
pub open spec fn lowest(values: Seq<Double>, indices: Seq<usize>) -> Option<usize>
    decreases indices.len(),
{
    if indices.len() == 0 {
        None
    } else {
        let best = lowest(values, indices.drop_last());
        if values[indices.last() as int].less(value_at(values, best, INFINITY)) {
            Some(indices.last())
        } else {
            best
        }
    }
}

/// Which of some indices has the greatest value; the first of equals.
pub open spec fn highest(values: Seq<Double>, indices: Seq<usize>) -> Option<usize>
    decreases indices.len(),
{
    if indices.len() == 0 {
        None
    } else {
        let best = highest(values, indices.drop_last());
        if value_at(values, best, NEG_INFINITY).less(values[indices.last() as int]) {
            Some(indices.last())
        } else {
            best
        }
    }
}

fn extremes(values: &Vec<Double>, indices: &Vec<usize>) -> (r: (Option<usize>, Option<usize>))
    requires
        region::below(indices@, values@.len()),
    ensures
        r.0 == lowest(values@, indices@),
        r.1 == highest(values@, indices@),
        r.0 matches Some(i) ==> i < values@.len(),
        r.1 matches Some(i) ==> i < values@.len(),
{
    let mut lo: Option<usize> = None;
    let mut hi: Option<usize> = None;
    let mut i: usize = 0;
    while i < indices.len()
        invariant
            region::below(indices@, values@.len()),
            i <= indices@.len(),
            lo == lowest(values@, indices@.take(i as int)),
            hi == highest(values@, indices@.take(i as int)),
            lo matches Some(k) ==> k < values@.len(),
            hi matches Some(k) ==> k < values@.len(),
        decreases indices@.len() - i,
    {
        assert(indices@.take(i + 1).drop_last() == indices@.take(i as int));
        let at: usize = indices[i];
        let v = values[at];
        let least = match lo {
            Some(k) => values[k],
            None => Double { bits: INFINITY },
        };
        let most = match hi {
            Some(k) => values[k],
            None => Double { bits: NEG_INFINITY },
        };
        if v.is_less(least) {
            lo = Some(at);
        }
        if most.is_less(v) {
            hi = Some(at);
        }
        i += 1;
    }
    assert(indices@.take(i as int) == indices@);
    (lo, hi)
}

/// How one coordinate axis is constrained. Only contiguous forms are produced.
#[derive(Debug, Clone, Copy, PartialEq, Eq, Structural)]
pub enum AxisPredicate {
    Eq(Double),
    /// A contiguous index run, expressed as value bounds.
    Between(Double, Double),
}

/// The predicate that bounds some indices of an axis.
pub open spec fn bounding(values: Seq<Double>, indices: Seq<usize>) -> AxisPredicate {
    let lo = value_at(values, lowest(values, indices), INFINITY);
    let hi = value_at(values, highest(values, indices), NEG_INFINITY);
    if lo.equal(hi) {
        AxisPredicate::Eq(lo)
    } else {
        AxisPredicate::Between(lo, hi)
    }
}

/// The value range spanning `indices`, regardless of axis direction.
pub fn bounding_predicate(axis: &NumericAxis, indices: &Vec<usize>) -> (r: AxisPredicate)
    requires
        region::below(indices@, axis.values@.len()),
    ensures
        r == bounding(axis.values@, indices@),
{
    let (at_lo, at_hi) = extremes(&axis.values, indices);
    let lo = match at_lo {
        Some(k) => axis.values[k],
        None => Double { bits: INFINITY },
    };
    let hi = match at_hi {
        Some(k) => axis.values[k],
        None => Double { bits: NEG_INFINITY },
    };
    if lo.is_equal(hi) {
        AxisPredicate::Eq(lo)
    } else {
        AxisPredicate::Between(lo, hi)
    }
}

impl AxisPredicate {
    /// Whether the predicate holds of a value.
    pub open spec fn admits(self, v: Double) -> bool {
        match self {
            AxisPredicate::Eq(at) => v.equal(at),
            AxisPredicate::Between(lo, hi) => lo.at_most(v) && v.at_most(hi),
        }
    }

    /// The predicate in SQL, where `lo` and `hi` are its bounds in fixed point.
    pub open spec fn rendered(self, column: Seq<char>, lo: Seq<char>, hi: Seq<char>) -> Seq<char> {
        match self {
            AxisPredicate::Eq(_) => catalog::quoted(column) + " = "@ + query::shortened(lo),
            AxisPredicate::Between(_, _) => catalog::quoted(column) + " BETWEEN "@
                + query::shortened(lo) + " AND "@ + query::shortened(hi),
        }
    }

    pub fn render(&self, column: &str, lo: &str, hi: &str) -> (r: String)
        ensures
            r@ == self.rendered(column@, lo@, hi@),
    {
        let mut out: String = quote_ident(column);
        match self {
            AxisPredicate::Eq(_) => {
                out.append(" = ");
                out.append(format_number(lo).as_str());
            },
            AxisPredicate::Between(_, _) => {
                out.append(" BETWEEN ");
                out.append(format_number(lo).as_str());
                out.append(" AND ");
                out.append(format_number(hi).as_str());
            },
        }
        out
    }
}

proof fn extremes_span(values: Seq<Double>, indices: Seq<usize>)
    requires
        forall|i: int|
            0 <= i < indices.len() ==> values[(#[trigger] indices[i]) as int].finite(),
    ensures
        ({
            let lo = value_at(values, lowest(values, indices), INFINITY);
            let hi = value_at(values, highest(values, indices), NEG_INFINITY);
            &&& !lo.nan() && !hi.nan()
            &&& indices.len() > 0 ==> lo.finite() && hi.finite()
            &&& indices.len() == 0 ==> lo.bits == INFINITY && hi.bits == NEG_INFINITY
            &&& forall|i: int|
                0 <= i < indices.len() ==> lo.at_most(values[(#[trigger] indices[i]) as int])
                    && values[indices[i] as int].at_most(hi)
        }),
    decreases indices.len(),
{
    if indices.len() > 0 {
        let front = indices.drop_last();
        assert forall|i: int| 0 <= i < front.len() implies values[(
        #[trigger] front[i]) as int].finite() by {
            assert(front[i] == indices[i]);
        }
        extremes_span(values, front);
        let last = values[indices.last() as int];
        assert(indices[indices.len() - 1] == indices.last());
        assert(last.finite());
        let lo = value_at(values, lowest(values, indices), INFINITY);
        let hi = value_at(values, highest(values, indices), NEG_INFINITY);
        assert forall|i: int| 0 <= i < indices.len() implies lo.at_most(
            values[(#[trigger] indices[i]) as int],
        ) && values[indices[i] as int].at_most(hi) by {
            if i < front.len() {
                assert(front[i] == indices[i]);
            }
        }
    }
}

/// The predicate on an axis admits every coordinate that is selected on it:
/// widening loses none.
pub proof fn a_bounding_predicate_admits_the_selection(values: Seq<Double>, indices: Seq<usize>)
    requires
        forall|i: int|
            0 <= i < indices.len() ==> values[(#[trigger] indices[i]) as int].finite(),
    ensures
        forall|i: int|
            0 <= i < indices.len() ==> bounding(values, indices).admits(
                values[(#[trigger] indices[i]) as int],
            ),
{
    extremes_span(values, indices);
}

/// A coordinate axis, its values in fixed point, and the indices selected on it.
#[derive(Debug, Clone, Copy)]
pub struct AxisSelection<'a> {
    pub name: &'a str,
    pub axis: &'a NumericAxis,
    pub texts: &'a Vec<String>,
    pub indices: &'a Vec<usize>,
}

/// A value in fixed point, where there is one.
pub open spec fn fixed_at(texts: Seq<Seq<char>>, at: Option<usize>, otherwise: Seq<char>) -> Seq<
    char,
> {
    match at {
        Some(i) => texts[i as int],
        None => otherwise,
    }
}

/// The predicate on an axis in SQL.
pub open spec fn axis_predicate(
    name: Seq<char>,
    values: Seq<Double>,
    texts: Seq<Seq<char>>,
    indices: Seq<usize>,
) -> Seq<char> {
    bounding(values, indices).rendered(
        name,
        fixed_at(texts, lowest(values, indices), "inf"@),
        fixed_at(texts, highest(values, indices), "-inf"@),
    )
}

impl<'a> AxisSelection<'a> {
    pub open spec fn wf(&self) -> bool {
        &&& region::below(self.indices@, self.axis.values@.len())
        &&& self.texts@.len() == self.axis.values@.len()
    }

    pub open spec fn predicate(&self) -> Seq<char> {
        axis_predicate(
            self.name@,
            self.axis.values@,
            text::texts(self.texts@),
            self.indices@,
        )
    }
}

/// The predicates on some axes, in order.
pub open spec fn predicates(axes: Seq<AxisSelection>) -> Seq<Seq<char>> {
    Seq::new(axes.len(), |i: int| axes[i].predicate())
}

/// Constrain each coordinate axis to a contiguous range.
pub fn spatial_predicates(axes: &Vec<AxisSelection>) -> (r: Vec<String>)
    requires
        forall|i: int| 0 <= i < axes@.len() ==> (#[trigger] axes@[i]).wf(),
    ensures
        text::texts(r@) == predicates(axes@),
{
    let mut out: Vec<String> = Vec::new();
    let mut i: usize = 0;
    while i < axes.len()
        invariant
            forall|k: int| 0 <= k < axes@.len() ==> (#[trigger] axes@[k]).wf(),
            i <= axes@.len(),
            out@.len() == i,
            forall|k: int| 0 <= k < i ==> (#[trigger] out@[k])@ == axes@[k].predicate(),
        decreases axes@.len() - i,
    {
        let a = &axes[i];
        assert(axes@[i as int].wf());
        let (at_lo, at_hi) = extremes(&a.axis.values, a.indices);
        let lo: &str = match at_lo {
            Some(k) => a.texts[k].as_str(),
            None => "inf",
        };
        let hi: &str = match at_hi {
            Some(k) => a.texts[k].as_str(),
            None => "-inf",
        };
        out.push(bounding_predicate(a.axis, a.indices).render(a.name, lo, hi));
        i += 1;
    }
    assert(text::texts(out@) =~= predicates(axes@));
    out
}

/// A timestamp literal.
pub open spec fn sql_instant(micros: i64) -> Seq<char> {
    match clock::written_micros(micros, clock::sql_format()) {
        Some(s) => s,
        None => ""@,
    }
}

/// A timestamp literal compared against a UTC timestamp column.
fn sql_time(micros: i64) -> (r: String)
    ensures
        r@ == sql_instant(micros),
{
    match clock::write_micros(micros, "%Y-%m-%dT%H:%M:%S%.f") {
        Some(s) => s,
        None => "".to_owned(),
    }
}

/// The predicate that holds a column between two timestamps, or to one.
pub open spec fn time_clause(
    column: Seq<char>,
    first: Seq<char>,
    last: Seq<char>,
    single: bool,
) -> Seq<char> {
    if single {
        catalog::quoted(column) + " = '"@ + first + "'"@
    } else {
        catalog::quoted(column) + " BETWEEN '"@ + first + "' AND '"@ + last + "'"@
    }
}

/// Write the predicate that holds a column between two timestamps, or to one.
pub fn between_times(column: &str, first: &str, last: &str, single: bool) -> (r: String)
    ensures
        r@ == time_clause(column@, first@, last@, single),
{
    let mut out: String = quote_ident(column);
    if single {
        out.append(" = '");
        out.append(first);
    } else {
        out.append(" BETWEEN '");
        out.append(first);
        out.append("' AND '");
        out.append(last);
    }
    out.append("'");
    out
}

/// The predicate on the time column: the range that spans the times.
pub open spec fn time_bounds(column: Seq<char>, indices: Seq<usize>, t: Seq<i64>) -> Seq<char> {
    if indices.len() == 0 {
        catalog::quoted(column) + " IS NULL"@
    } else {
        let (first, last) = (query::least(indices), query::greatest(indices));
        time_clause(column, sql_instant(t[first]), sql_instant(t[last]), first == last)
    }
}

/// The time selection is always contiguous by construction, so it too is a
/// range rather than a list of instants.
pub fn time_predicate(column: &str, indices: &Vec<usize>, axis: &TimeAxis) -> (r: String)
    requires
        region::below(indices@, axis.values@.len()),
    ensures
        r@ == time_bounds(column@, indices@, axis.values@),
{
    if indices.len() == 0 {
        let mut out: String = quote_ident(column);
        out.append(" IS NULL");
        return out;
    }
    let (first, last) = span_of(indices);
    proof {
        let i = choose|i: int| 0 <= i < indices@.len() && indices@[i] == first;
        let j = choose|j: int| 0 <= j < indices@.len() && indices@[j] == last;
        assert(indices@[i] < axis.values@.len() && indices@[j] < axis.values@.len());
    }
    between_times(
        column,
        sql_time(axis.values[first]).as_str(),
        sql_time(axis.values[last]).as_str(),
        first == last,
    )
}

/// Names quoted for SQL.
pub open spec fn quoted_all(names: Seq<Seq<char>>) -> Seq<Seq<char>> {
    Seq::new(names.len(), |i: int| catalog::quoted(names[i]))
}

/// The columns that a scan reads: the coordinates, then the parameters.
pub open spec fn projection(c: Collection, names: Seq<Seq<char>>, uses_z: bool) -> Seq<Seq<char>> {
    (if uses_z {
        Seq::<Seq<char>>::empty().push(catalog::quoted(c.t_name@)).push(
            catalog::quoted(c.z_name->0@),
        )
    } else {
        Seq::<Seq<char>>::empty().push(catalog::quoted(c.t_name@))
    }).push(catalog::quoted(c.y_name@)).push(catalog::quoted(c.x_name@)) + quoted_all(names)
}

/// The conditions of a scan: a range on each axis.
pub open spec fn conditions(c: Collection, s: query::Picked, uses_z: bool) -> Seq<Seq<char>> {
    let space = Seq::<Seq<char>>::empty().push(
        axis_predicate(c.y_name@, c.y.values@, text::texts(c.y_texts@), s.y),
    ).push(axis_predicate(c.x_name@, c.x.values@, text::texts(c.x_texts@), s.x));
    (if uses_z {
        space.push(
            axis_predicate(
                c.z_name->0@,
                c.z->0.values@,
                text::texts(c.z_texts@),
                s.z,
            ),
        )
    } else {
        space
    }).push(time_bounds(c.t_name@, s.t, c.t.values@))
}

/// The scan for one dimensionality group.
pub open spec fn scan(
    c: Collection,
    s: query::Picked,
    names: Seq<Seq<char>>,
    uses_z: bool,
) -> Seq<char> {
    "SELECT "@ + text::joined(projection(c, names, uses_z), ", "@) + " FROM "@ + catalog::quoted(
        c.table@,
    ) + " WHERE "@ + text::joined(conditions(c, s, uses_z), " AND "@)
}

/// Build the scan for one dimensionality group.
///
/// The vertical coordinate is named only in the pressure-level group: naming it
/// while projecting a surface variable makes the store declare a column it then
/// elides from the batch.
pub fn build_sql(c: &Collection, selection: &Selection, names: &Vec<String>, uses_z: bool) -> (r:
    String)
    requires
        c.wf(),
        region::below(selection.x_idx@, c.x.values@.len()),
        region::below(selection.y_idx@, c.y.values@.len()),
        region::below(selection.t_idx@, c.t.values@.len()),
        uses_z ==> c.z is Some && region::below(selection.z_idx@, c.z->0.values@.len()),
    ensures
        r@ == scan(*c, selection@, text::texts(names@), uses_z),
{
    let mut columns: Vec<String> = Vec::new();
    let mut axes: Vec<AxisSelection> = Vec::new();
    columns.push(quote_ident(c.t_name.as_str()));
    axes.push(
        AxisSelection {
            name: c.y_name.as_str(),
            axis: &c.y,
            texts: &c.y_texts,
            indices: &selection.y_idx,
        },
    );
    axes.push(
        AxisSelection {
            name: c.x_name.as_str(),
            axis: &c.x,
            texts: &c.x_texts,
            indices: &selection.x_idx,
        },
    );
    if uses_z {
        if let (Some(name), Some(levels)) = (&c.z_name, &c.z) {
            columns.push(quote_ident(name.as_str()));
            axes.push(
                AxisSelection {
                    name: name.as_str(),
                    axis: levels,
                    texts: &c.z_texts,
                    indices: &selection.z_idx,
                },
            );
        }
    }
    columns.push(quote_ident(c.y_name.as_str()));
    columns.push(quote_ident(c.x_name.as_str()));
    let ghost base = text::texts(columns@);
    let ghost ns = text::texts(names@);
    let mut i: usize = 0;
    assert(base + quoted_all(ns).take(0) == base);
    while i < names.len()
        invariant
            i <= names@.len(),
            ns == text::texts(names@),
            text::texts(columns@) == base + quoted_all(ns).take(i as int),
        decreases names@.len() - i,
    {
        let ghost before = text::texts(columns@);
        columns.push(quote_ident(names[i].as_str()));
        proof {
            let q = quoted_all(ns);
            assert(text::texts(columns@) == before.push(q[i as int]));
            assert(base + q.take(i + 1) == (base + q.take(i as int)).push(q[i as int]));
        }
        i += 1;
    }
    proof {
        assert(quoted_all(ns).take(i as int) == quoted_all(ns));
        assert(text::texts(columns@) == projection(*c, ns, uses_z));
    }
    let mut clauses = spatial_predicates(&axes);
    let ghost space = text::texts(clauses@);
    clauses.push(time_predicate(c.t_name.as_str(), &selection.t_idx, &c.t));
    proof {
        let all = conditions(*c, selection@, uses_z);
        assert(space[0] == axes@[0].predicate() && space[0] == all[0]);
        assert(space[1] == axes@[1].predicate() && space[1] == all[1]);
        if uses_z {
            assert(space[2] == axes@[2].predicate() && space[2] == all[2]);
        }
        assert(text::texts(clauses@) == space.push(all.last()));
        assert(text::texts(clauses@) =~= all);
    }
    let mut out: String = "SELECT ".to_owned();
    out.append(text::join(&columns, ", ").as_str());
    out.append(" FROM ");
    out.append(quote_ident(c.table.as_str()).as_str());
    out.append(" WHERE ");
    out.append(text::join(&clauses, " AND ").as_str());
    out
}

/// A scan of parameters that do not vary with height takes nothing from the
/// vertical axis: it is the same whatever the axis is called, holds, or had
/// selected of it.
pub proof fn a_flat_scan_ignores_the_levels(
    c: Collection,
    d: Collection,
    s: query::Picked,
    r: query::Picked,
    names: Seq<Seq<char>>,
)
    requires
        (Collection {
            z: d.z,
            z_name: d.z_name,
            z_texts: d.z_texts,
            z_units: d.z_units,
            ..c
        }) == d,
        (query::Picked { z: r.z, ..s }) == r,
    ensures
        scan(c, s, names, false) == scan(d, r, names, false),
{
}

/// The predicate on an axis admits a number exactly where it lies between two
/// coordinates that are selected.
pub proof fn a_bounding_predicate_admits_the_span_alone(
    values: Seq<Double>,
    indices: Seq<usize>,
    v: Double,
)
    requires
        indices.len() > 0,
        forall|i: int|
            0 <= i < indices.len() ==> values[(#[trigger] indices[i]) as int].finite(),
    ensures
        bounding(values, indices).admits(v) <==> (exists|i: int|
            0 <= i < indices.len() && values[(#[trigger] indices[i]) as int].at_most(v)) && (exists|
            i: int,
        |
            0 <= i < indices.len() && v.at_most(values[(#[trigger] indices[i]) as int])),
{
    extremes_span(values, indices);
    extremes_are_selected(values, indices);
}

proof fn extremes_are_selected(values: Seq<Double>, indices: Seq<usize>)
    requires
        indices.len() > 0,
        forall|i: int|
            0 <= i < indices.len() ==> values[(#[trigger] indices[i]) as int].finite(),
    ensures
        lowest(values, indices) is Some,
        highest(values, indices) is Some,
        exists|i: int|
            0 <= i < indices.len() && (#[trigger] indices[i]) == lowest(values, indices)->0,
        exists|i: int|
            0 <= i < indices.len() && (#[trigger] indices[i]) == highest(values, indices)->0,
    decreases indices.len(),
{
    let n = indices.len() - 1;
    let front = indices.drop_last();
    assert(indices[n] == indices.last());
    assert(values[indices[n] as int].finite());
    if n > 0 {
        assert forall|i: int| 0 <= i < front.len() implies values[(
        #[trigger] front[i]) as int].finite() by {
            assert(front[i] == indices[i]);
        }
        extremes_are_selected(values, front);
        let i = choose|i: int|
            0 <= i < front.len() && (#[trigger] front[i]) == lowest(values, front)->0;
        let j = choose|i: int|
            0 <= i < front.len() && (#[trigger] front[i]) == highest(values, front)->0;
        assert(indices[i] == front[i] && indices[j] == front[j]);
    } else {
        assert(front.len() == 0);
    }
}

/// The range of an axis in SQL runs from the text of a selected coordinate that
/// none lies below to that of one that none lies above, and is a single value
/// where the two are equal.
pub proof fn a_range_is_written_from_lowest_to_highest(
    name: Seq<char>,
    values: Seq<Double>,
    fixed: Seq<Seq<char>>,
    indices: Seq<usize>,
)
    requires
        indices.len() > 0,
        forall|i: int|
            0 <= i < indices.len() ==> values[(#[trigger] indices[i]) as int].finite(),
    ensures
        exists|a: int, b: int|
            {
                &&& 0 <= a < indices.len() && 0 <= b < indices.len()
                &&& forall|i: int|
                    0 <= i < indices.len() ==> values[indices[a] as int].at_most(
                        values[(#[trigger] indices[i]) as int],
                    ) && values[indices[i] as int].at_most(values[indices[b] as int])
                &&& axis_predicate(name, values, fixed, indices) == if values[(
                #[trigger] indices[a]) as int].equal(values[(#[trigger] indices[b]) as int]) {
                    catalog::quoted(name) + " = "@ + query::shortened(fixed[indices[a] as int])
                } else {
                    catalog::quoted(name) + " BETWEEN "@ + query::shortened(
                        fixed[indices[a] as int],
                    ) + " AND "@ + query::shortened(fixed[indices[b] as int])
                }
            },
{
    extremes_span(values, indices);
    extremes_are_selected(values, indices);
    let a = choose|i: int|
        0 <= i < indices.len() && (#[trigger] indices[i]) == lowest(values, indices)->0;
    let b = choose|i: int|
        0 <= i < indices.len() && (#[trigger] indices[i]) == highest(values, indices)->0;
    assert(0 <= a < indices.len() && 0 <= b < indices.len());
    assert(indices[a] == lowest(values, indices)->0);
    assert(indices[b] == highest(values, indices)->0);
}

/// The range of times in SQL runs from the earliest selected time to the latest,
/// and is a single time where only one is selected.
pub proof fn times_are_written_from_first_to_last(
    column: Seq<char>,
    indices: Seq<usize>,
    t: Seq<i64>,
    a: int,
    b: int,
)
    requires
        0 <= a < indices.len(),
        0 <= b < indices.len(),
        forall|i: int|
            0 <= i < indices.len() ==> indices[a] <= (#[trigger] indices[i]) <= indices[b],
    ensures
        time_bounds(column, indices, t) == if indices[a] == indices[b] {
            catalog::quoted(column) + " = '"@ + sql_instant(t[indices[a] as int]) + "'"@
        } else {
            catalog::quoted(column) + " BETWEEN '"@ + sql_instant(t[indices[a] as int])
                + "' AND '"@ + sql_instant(t[indices[b] as int]) + "'"@
        },
{
    let (i, j) = query::ends_of(indices);
    assert(indices[i] == indices[a] && indices[j] == indices[b]);
}

/// A scan reads the coordinates and, after them, each parameter in turn.
pub open spec fn reads_columns(
    c: Collection,
    names: Seq<Seq<char>>,
    uses_z: bool,
    columns: Seq<Seq<char>>,
) -> bool {
    let first = if uses_z {
        4int
    } else {
        3
    };
    &&& columns.len() == first + names.len()
    &&& columns[0] == catalog::quoted(c.t_name@)
    &&& uses_z ==> columns[1] == catalog::quoted(c.z_name->0@)
    &&& columns[first - 2] == catalog::quoted(c.y_name@)
    &&& columns[first - 1] == catalog::quoted(c.x_name@)
    &&& forall|k: int|
        0 <= k < names.len() ==> columns[first + k] == catalog::quoted(#[trigger] names[k])
}

/// A scan holds each axis that it reads to the range of what is selected on it.
pub open spec fn holds_axes(
    c: Collection,
    s: query::Picked,
    uses_z: bool,
    clauses: Seq<Seq<char>>,
) -> bool {
    &&& clauses.len() == if uses_z {
        4int
    } else {
        3
    }
    &&& clauses[0] == axis_predicate(c.y_name@, c.y.values@, text::texts(c.y_texts@), s.y)
    &&& clauses[1] == axis_predicate(c.x_name@, c.x.values@, text::texts(c.x_texts@), s.x)
    &&& uses_z ==> clauses[2] == axis_predicate(
        c.z_name->0@,
        c.z->0.values@,
        text::texts(c.z_texts@),
        s.z,
    )
    &&& clauses.last() == time_bounds(c.t_name@, s.t, c.t.values@)
}

/// A scan selects the columns of the coordinates and the parameters from the
/// collection's table, where every axis is held to its range.
pub proof fn a_scan_reads_the_selection(
    c: Collection,
    s: query::Picked,
    names: Seq<Seq<char>>,
    uses_z: bool,
)
    ensures
        exists|columns: Seq<Seq<char>>, clauses: Seq<Seq<char>>|
            {
                &&& #[trigger] reads_columns(c, names, uses_z, columns)
                &&& #[trigger] holds_axes(c, s, uses_z, clauses)
                &&& scan(c, s, names, uses_z) == "SELECT "@ + text::joined(columns, ", "@)
                    + " FROM "@ + catalog::quoted(c.table@) + " WHERE "@ + text::joined(
                    clauses,
                    " AND "@,
                )
            },
{
    let columns = projection(c, names, uses_z);
    let clauses = conditions(c, s, uses_z);
    assert(reads_columns(c, names, uses_z, columns));
    assert(holds_axes(c, s, uses_z, clauses));
}

} // verus!
