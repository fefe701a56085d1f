//! Turning an EDR data query into a selection of a collection's axes.
//!
//! Every data query resolves to a set of indices on each coordinate axis, with
//! the cells to keep where they are not a full rectangle.
use std::sync::Arc;
use vstd::prelude::*;

use crate::axis::{self, NumericAxis};
use crate::catalog::{self, Collection};
use crate::cells::{self, CellSet};
use crate::clock;
use crate::double::Double;
use crate::edr::params::{self, Levels, Query, TemporalSelection, VerticalSelection};
use crate::edr::region::{self, QueryKind, Region, SpaceMeasure};
use crate::edr::wkt::Geometry;
use crate::error::{EdrError, EdrResult, Fault};
use crate::numerals::Numerals;
use crate::text;

verus! {

/// The grid cells, levels and times a request resolves to.
#[derive(Debug)]
pub struct Selection {
    /// Indices into the collection's longitude axis, in output order.
    pub x_idx: Vec<usize>,
    pub y_idx: Vec<usize>,
    /// Indices into the vertical axis; empty when the collection has none.
    pub z_idx: Vec<usize>,
    pub t_idx: Vec<usize>,
    /// `(y, x)` index pairs to keep when the selection is not a full rectangle:
    /// a polygon, a radius, or scattered points. The SQL still selects the
    /// bounding rectangle, because a chunk covering one cell of an ERA5 field
    /// covers the whole globe at that timestep anyway.
    pub mask: Option<CellSet>,
}

/// What a [`Selection`] holds.
pub struct Picked {
    pub x: Seq<usize>,
    pub y: Seq<usize>,
    pub z: Seq<usize>,
    pub t: Seq<usize>,
    pub mask: Option<Set<(usize, usize)>>,
}

impl View for Selection {
    type V = Picked;

    open spec fn view(&self) -> Picked {
        Picked {
            x: self.x_idx@,
            y: self.y_idx@,
            z: self.z_idx@,
            t: self.t_idx@,
            mask: region::mask_of(self.mask),
        }
    }
}

/// A number, or the greatest that fits.
pub open spec fn saturated(n: int) -> int {
    if n > usize::MAX {
        usize::MAX as int
    } else {
        n
    }
}

pub open spec fn at_least_one(n: int) -> int {
    if n >= 1 {
        n
    } else {
        1
    }
}

/// The least and the greatest of a list of indices.
pub open spec fn least(s: Seq<usize>) -> int
    decreases s.len(),
{
    if s.len() <= 1 {
        s[0] as int
    } else if s.last() < least(s.drop_last()) {
        s.last() as int
    } else {
        least(s.drop_last())
    }
}

pub open spec fn greatest(s: Seq<usize>) -> int
    decreases s.len(),
{
    if s.len() <= 1 {
        s[0] as int
    } else if s.last() > greatest(s.drop_last()) {
        s.last() as int
    } else {
        greatest(s.drop_last())
    }
}

/// The least and the greatest of a list of indices that is not empty.
pub fn span_of(v: &Vec<usize>) -> (r: (usize, usize))
    requires
        v@.len() > 0,
    ensures
        r.0 == least(v@),
        r.1 == greatest(v@),
        r.0 <= r.1,
        v@.contains(r.0),
        v@.contains(r.1),
{
    let mut lo: usize = v[0];
    let mut hi: usize = v[0];
    let mut i: usize = 1;
    assert(v@.take(1).len() == 1);
    assert(v@[0] == lo);
    while i < v.len()
        invariant
            1 <= i <= v.len(),
            lo == least(v@.take(i as int)),
            hi == greatest(v@.take(i as int)),
            lo <= hi,
            v@.contains(lo),
            v@.contains(hi),
        decreases v.len() - i,
    {
        let x: usize = v[i];
        assert(v@.take(i + 1).drop_last() == v@.take(i as int));
        assert(v@[i as int] == x);
        if x < lo {
            lo = x;
        }
        if x > hi {
            hi = x;
        }
        i += 1;
    }
    assert(v@.take(i as int) == v@);
    (lo, hi)
}

/// Number of indices a bounding range would cover.
pub open spec fn hull(s: Seq<usize>) -> int {
    if s.len() == 0 {
        0
    } else {
        greatest(s) - least(s) + 1
    }
}

/// Number of indices a bounding range would cover.
pub fn hull_len(v: &Vec<usize>) -> (r: usize)
    ensures
        r == saturated(hull(v@)),
{
    if v.len() == 0 {
        return 0;
    }
    let (lo, hi) = span_of(v);
    let span: usize = hi - lo;
    if span == usize::MAX {
        span
    } else {
        span + 1
    }
}

/// A product, or the greatest number that fits.
pub fn product(a: usize, b: usize) -> (r: usize)
    ensures
        r == saturated(a * b),
{
    match a.checked_mul(b) {
        Some(p) => p,
        None => usize::MAX,
    }
}

proof fn saturated_product(a: int, b: int)
    requires
        a >= 0,
        b >= 0,
    ensures
        saturated(saturated(a) * b) == saturated(a * b),
        saturated(a * saturated(b)) == saturated(a * b),
{
    if a > usize::MAX && b >= 1 {
        assert(usize::MAX * b >= usize::MAX && a * b >= usize::MAX * b) by (nonlinear_arith)
            requires
                a > usize::MAX,
                b >= 1,
        ;
        assert(a * b > usize::MAX) by (nonlinear_arith)
            requires
                a > usize::MAX,
                b >= 1,
        ;
        if b == 1 {
            assert(saturated(a) * b == usize::MAX);
        } else {
            assert(usize::MAX * b > usize::MAX) by (nonlinear_arith)
                requires
                    b > 1,
            ;
        }
    }
    if b > usize::MAX && a >= 1 {
        assert(a * b > usize::MAX) by (nonlinear_arith)
            requires
                b > usize::MAX,
                a >= 1,
        ;
        if a == 1 {
            assert(a * saturated(b) == usize::MAX);
        } else {
            assert(a * usize::MAX > usize::MAX) by (nonlinear_arith)
                requires
                    a > 1,
            ;
        }
    }
    if b == 0 {
        assert(saturated(a) * b == 0 && a * b == 0) by (nonlinear_arith)
            requires
                b == 0,
        ;
    }
    if a == 0 {
        assert(a * saturated(b) == 0 && a * b == 0) by (nonlinear_arith)
            requires
                a == 0,
        ;
    }
}

impl Picked {
    /// Number of grid cells selected.
    pub open spec fn cells(self) -> int {
        match self.mask {
            Some(m) => m.len() as int,
            None => (self.x.len() * self.y.len()) as int,
        }
    }

    /// Number of data values one parameter would occupy.
    pub open spec fn values(self) -> int {
        self.cells() * self.t.len() * at_least_one(self.z.len() as int)
    }

    /// Rows that the widened scan covers.
    pub open spec fn scanned(self) -> int {
        hull(self.x) * hull(self.y) * at_least_one(hull(self.z)) * self.t.len()
    }

    pub open spec fn empty(self) -> bool {
        ||| self.x.len() == 0
        ||| self.y.len() == 0
        ||| self.t.len() == 0
        ||| self.mask matches Some(m) && m.len() == 0
    }
}

impl Selection {
    pub open spec fn wf(&self) -> bool {
        self.mask matches Some(m) ==> m.wf()
    }

    /// Number of grid cells selected.
    fn cell_count(&self) -> (r: usize)
        requires
            self.wf(),
        ensures
            r == saturated(self@.cells()),
    {
        match &self.mask {
            Some(mask) => mask.len(),
            None => product(self.x_idx.len(), self.y_idx.len()),
        }
    }

    /// Number of data values one parameter would occupy.
    pub fn value_count(&self) -> (r: usize)
        requires
            self.wf(),
        ensures
            r == saturated(self@.values()),
    {
        let cells: usize = self.cell_count();
        let levels: usize = if self.z_idx.len() >= 1 {
            self.z_idx.len()
        } else {
            1
        };
        proof {
            let (c, t, z) = (self@.cells(), self@.t.len() as int, levels as int);
            assert(c >= 0) by {
                assert(self@.x.len() * self@.y.len() >= 0) by (nonlinear_arith);
            }
            assert(c * t >= 0) by (nonlinear_arith)
                requires
                    c >= 0,
                    t >= 0,
            ;
            saturated_product(c, t);
            saturated_product(c * t, z);
        }
        product(product(cells, self.t_idx.len()), levels)
    }

    /// Rows the widened scan will materialise, which for a scattered selection
    /// exceeds [`Self::value_count`].
    pub fn scan_row_count(&self) -> (r: usize)
        ensures
            r == saturated(self@.scanned()),
    {
        let x: usize = hull_len(&self.x_idx);
        let y: usize = hull_len(&self.y_idx);
        let depth: usize = hull_len(&self.z_idx);
        let z: usize = if depth >= 1 {
            depth
        } else {
            1
        };
        proof {
            hull_is_not_negative(self@.x);
            hull_is_not_negative(self@.y);
            hull_is_not_negative(self@.z);
            let (a, b, c) = (hull(self@.x), hull(self@.y), at_least_one(hull(self@.z)));
            let t = self@.t.len() as int;
            saturated_product(a, b);
            saturated_product(saturated(a), b);
            assert(z == saturated(c));
            assert(a * b >= 0) by (nonlinear_arith)
                requires
                    a >= 0,
                    b >= 0,
            ;
            saturated_product(a * b, c);
            saturated_product(saturated(a * b), c);
            assert(a * b * c >= 0) by (nonlinear_arith)
                requires
                    a * b >= 0,
                    c >= 0,
            ;
            saturated_product(a * b * c, t);
        }
        product(product(product(x, y), z), self.t_idx.len())
    }

    pub fn is_empty(&self) -> (r: bool)
        requires
            self.wf(),
        ensures
            r == self@.empty(),
    {
        let hollow = match &self.mask {
            Some(mask) => mask.len() == 0,
            None => false,
        };
        self.x_idx.len() == 0 || self.y_idx.len() == 0 || self.t_idx.len() == 0 || hollow
    }
}

proof fn hull_is_not_negative(s: Seq<usize>)
    ensures
        hull(s) >= 0,
        s.len() > 0 ==> hull(s) >= 1,
        s.len() > 0 ==> forall|i: int|
            0 <= i < s.len() ==> least(s) <= #[trigger] s[i] <= greatest(s),
    decreases s.len(),
{
    if s.len() > 1 {
        let front = s.drop_last();
        hull_is_not_negative(front);
        assert forall|i: int| 0 <= i < s.len() implies least(s) <= #[trigger] s[i] <= greatest(s) by {
            if i < front.len() {
                assert(front[i] == s[i]);
            }
        }
        assert(s[0] == front[0]);
    }
}

/// A range spans at least as many indices as are selected from it.
proof fn hull_holds_all(s: Seq<usize>)
    requires
        s.no_duplicates(),
    ensures
        s.len() <= hull(s),
{
    hull_is_not_negative(s);
    if s.len() > 0 {
        let (lo, hi) = (least(s), greatest(s));
        let ints = s.map_values(|i: usize| i as int);
        assert(ints.no_duplicates()) by {
            assert forall|i: int, j: int|
                0 <= i < ints.len() && 0 <= j < ints.len() && i != j implies ints[i] != ints[j] by {
                assert(s[i] != s[j]);
            }
        }
        let range = vstd::set_lib::set_int_range(lo, hi + 1);
        vstd::set_lib::lemma_int_range(lo, hi + 1);
        ints.unique_seq_to_set();
        assert(ints.to_set().subset_of(range)) by {
            assert forall|x: int| #[trigger] ints.to_set().contains(x) implies range.contains(x) by {
                let k = choose|k: int| 0 <= k < ints.len() && ints[k] == x;
                assert(ints[k] == s[k]);
            }
        }
        vstd::set_lib::lemma_len_subset(ints.to_set(), range);
    }
}

/// Widening a selection to the ranges that span it never reads fewer rows than
/// it selects values of one parameter.
pub proof fn the_scan_holds_every_value(p: Picked)
    requires
        p.x.no_duplicates() && p.y.no_duplicates() && p.z.no_duplicates(),
        p.mask matches Some(m) ==> forall|cell: (usize, usize)| #[trigger]
            m.contains(cell) ==> p.y.contains(cell.0) && p.x.contains(cell.1),
    ensures
        p.values() <= p.scanned(),
{
    hull_holds_all(p.x);
    hull_holds_all(p.y);
    hull_holds_all(p.z);
    let (nx, ny, nz) = (p.x.len() as int, p.y.len() as int, at_least_one(p.z.len() as int));
    let (hx, hy, hz) = (hull(p.x), hull(p.y), at_least_one(hull(p.z)));
    let t = p.t.len() as int;
    let all = cells::rectangle(p.y, p.x);
    cells::rectangle_size(p.y, p.x);
    assert(p.cells() <= nx * ny) by {
        if let Some(m) = p.mask {
            assert(m.subset_of(all));
            vstd::set_lib::lemma_len_subset(m, all);
            assert(ny * nx == nx * ny) by (nonlinear_arith);
        }
    }
    let c = p.cells();
    assert(c >= 0) by {
        assert(nx * ny >= 0) by (nonlinear_arith)
            requires
                nx >= 0,
                ny >= 0,
        ;
    }
    assert(nx * ny <= hx * hy) by (nonlinear_arith)
        requires
            0 <= nx <= hx,
            0 <= ny <= hy,
    ;
    assert(c * t * nz <= hx * hy * hz * t) by (nonlinear_arith)
        requires
            0 <= c <= hx * hy,
            0 <= t,
            0 <= nz <= hz,
    ;
}

/// A fully validated request, ready to run.
#[derive(Debug)]
pub struct DataRequest {
    pub kind: QueryKind,
    pub collection: Arc<Collection>,
    pub parameters: Vec<String>,
    pub selection: Selection,
}

/// The two ceilings a request is held to. They answer different questions and
/// must not be conflated: one protects the server from an expensive read, the
/// other caps how much the caller gets back.
#[derive(Debug, Clone, Copy, PartialEq, Eq, Structural)]
pub struct Limits {
    /// Most grid rows the scan may materialise. A server-side resource guard,
    /// never lowered by the caller.
    pub max_scan_rows: usize,
    /// `limit` to apply when the request does not carry one.
    pub default_limit: usize,
}

/// A list without those of its neighbours that repeat the one before.
pub open spec fn deduped(s: Seq<usize>) -> Seq<usize>
    decreases s.len(),
{
    if s.len() == 0 {
        s
    } else {
        let front = deduped(s.drop_last());
        if front.len() > 0 && front.last() == s.last() {
            front
        } else {
            front.push(s.last())
        }
    }
}

/// Evenly spaced entries of a list, `target` of them, from its first to its
/// last.
pub open spec fn spread(s: Seq<usize>, target: int) -> Seq<usize> {
    Seq::new(target as nat, |i: int| s[(i * (s.len() - 1)) / (target - 1)])
}

/// A list thinned to at most `target` entries.
pub open spec fn thinned(s: Seq<usize>, target: int) -> Seq<usize> {
    if target >= s.len() || s.len() == 0 {
        s
    } else if target == 1 {
        seq![s[0]]
    } else {
        deduped(spread(s, target))
    }
}

proof fn spread_stays(n: int, target: int, i: int)
    requires
        n >= 1,
        target >= 2,
        0 <= i < target,
    ensures
        0 <= (i * (n - 1)) / (target - 1) < n,
        i == 0 ==> (i * (n - 1)) / (target - 1) == 0,
        i == target - 1 ==> (i * (n - 1)) / (target - 1) == n - 1,
{
    let (a, d) = (i * (n - 1), target - 1);
    assert(0 <= a <= d * (n - 1)) by (nonlinear_arith)
        requires
            0 <= i <= d,
            n - 1 >= 0,
            a == i * (n - 1),
    ;
    vstd::arithmetic::div_mod::lemma_div_is_ordered(a, d * (n - 1), d);
    vstd::arithmetic::div_mod::lemma_div_is_ordered(0, a, d);
    vstd::arithmetic::div_mod::lemma_div_multiples_vanish(n - 1, d);
    vstd::arithmetic::div_mod::lemma_div_basics(d);
    if i == 0 {
        assert(a == 0) by (nonlinear_arith)
            requires
                i == 0,
                a == i * (n - 1),
        ;
    }
}

/// Pick `target` evenly spaced entries, always keeping both ends.
pub fn thin(indices: Vec<usize>, target: usize) -> (r: Vec<usize>)
    requires
        target >= 1,
    ensures
        r@ == thinned(indices@, target as int),
{
    let n: usize = indices.len();
    if target >= n || n == 0 {
        return indices;
    }
    let mut out: Vec<usize> = Vec::new();
    if target == 1 {
        out.push(indices[0]);
        assert(out@ == seq![indices@[0]]);
        return out;
    }
    let last: usize = n - 1;
    let ghost all = spread(indices@, target as int);
    let mut i: usize = 0;
    while i < target
        invariant
            n == indices@.len(),
            n >= 1,
            last == n - 1,
            2 <= target < n,
            i <= target,
            all == spread(indices@, target as int),
            out@ == deduped(all.take(i as int)),
        decreases target - i,
    {
        proof {
            spread_stays(n as int, target as int, i as int);
            assert(i * last <= 0xffff_ffff_ffff_ffff * 0xffff_ffff_ffff_ffff) by (nonlinear_arith)
                requires
                    i <= 0xffff_ffff_ffff_ffff,
                    last <= 0xffff_ffff_ffff_ffff,
            ;
            assert(all.take(i + 1).drop_last() == all.take(i as int));
        }
        let at: usize = ((i as u128 * last as u128) / (target - 1) as u128) as usize;
        let x: usize = indices[at];
        if out.len() == 0 || out[out.len() - 1] != x {
            out.push(x);
        }
        i += 1;
    }
    assert(all.take(i as int) == all);
    out
}

proof fn deduped_keeps_ends(s: Seq<usize>)
    ensures
        deduped(s).len() <= s.len(),
        s.len() > 0 ==> deduped(s).len() > 0,
        s.len() > 0 ==> deduped(s).first() == s.first() && deduped(s).last() == s.last(),
        forall|i: int| 0 <= i < deduped(s).len() ==> s.contains(#[trigger] deduped(s)[i]),
    decreases s.len(),
{
    if s.len() > 0 {
        let front = s.drop_last();
        deduped_keeps_ends(front);
        let d = deduped(front);
        assert forall|i: int| 0 <= i < deduped(s).len() implies s.contains(
            #[trigger] deduped(s)[i],
        ) by {
            if i < d.len() {
                assert(deduped(s)[i] == d[i]);
                assert(front.contains(d[i]));
                let k = choose|k: int| 0 <= k < front.len() && front[k] == d[i];
                assert(s[k] == d[i]);
            } else {
                assert(s[s.len() - 1] == deduped(s)[i]);
            }
        }
        if front.len() > 0 {
            assert(front.first() == s.first());
        }
    }
}

/// Thinning keeps both ends of a list, or its first entry where there is room
/// for one alone, never more entries than asked for, and none that were not in
/// the list.
pub proof fn thinning_keeps_both_ends(s: Seq<usize>, target: int)
    requires
        target >= 1,
        s.len() > 0,
    ensures
        thinned(s, target).len() > 0,
        thinned(s, target).first() == s.first(),
        target >= 2 ==> thinned(s, target).last() == s.last(),
        thinned(s, target).len() <= s.len(),
        s.len() > target ==> thinned(s, target).len() <= target,
        forall|i: int|
            0 <= i < thinned(s, target).len() ==> s.contains(#[trigger] thinned(s, target)[i]),
{
    if target >= s.len() {
    } else if target == 1 {
        assert(s[0] == s.first());
    } else {
        let all = spread(s, target);
        deduped_keeps_ends(all);
        spread_stays(s.len() as int, target, 0);
        spread_stays(s.len() as int, target, target - 1);
        assert forall|i: int| 0 <= i < thinned(s, target).len() implies s.contains(
            #[trigger] thinned(s, target)[i],
        ) by {
            assert(all.contains(thinned(s, target)[i]));
            let k = choose|k: int| 0 <= k < all.len() && all[k] == thinned(s, target)[i];
            spread_stays(s.len() as int, target, k);
            assert(s[(k * (s.len() - 1)) / (target - 1)] == all[k]);
        }
    }
}

/// The parameters that are asked for, each once in the order it was first
/// named, or the first name that the collection does not have.
pub open spec fn known(
    parameters: Map<Seq<char>, catalog::Parameter>,
    names: Seq<Seq<char>>,
    id: Seq<char>,
) -> Result<Seq<Seq<char>>, Fault>
    decreases names.len(),
{
    if names.len() == 0 {
        Ok(Seq::empty())
    } else {
        match known(parameters, names.drop_last(), id) {
            Err(e) => Err(e),
            Ok(found) => if !parameters.contains_key(names.last()) {
                Err(
                    Fault::BadRequest(
                        "'"@ + names.last() + "' is not a parameter of collection '"@ + id + "'"@,
                    ),
                )
            } else if found.contains(names.last()) {
                Ok(found)
            } else {
                Ok(found.push(names.last()))
            },
        }
    }
}

proof fn known_err(
    parameters: Map<Seq<char>, catalog::Parameter>,
    names: Seq<Seq<char>>,
    id: Seq<char>,
    k: int,
)
    requires
        0 <= k <= names.len(),
        known(parameters, names.take(k), id) is Err,
    ensures
        known(parameters, names, id) == known(parameters, names.take(k), id),
    decreases names.len() - k,
{
    if k == names.len() {
        assert(names.take(k) == names);
    } else {
        assert(names.take(k + 1).drop_last() == names.take(k));
        known_err(parameters, names, id, k + 1);
    }
}

/// The parameters of a request. Without `parameter-name` there is no sensible
/// default across hundreds of variables: returning all of them would read the
/// whole store.
pub open spec fn requested_parameters(c: Collection, q: Seq<(Seq<char>, Seq<char>)>) -> Result<
    Seq<Seq<char>>,
    Fault,
> {
    let names = params::named_parameters(q);
    if names.len() == 0 {
        Err(
            Fault::BadRequest(
                "'parameter-name' is required for this collection; it has "@ + text::digits(
                    c.parameters.entries@.len(),
                ) + " parameters. See /collections/"@ + c.id@ + "/ for the list."@,
            ),
        )
    } else {
        known(c.parameters.content(), names, c.id@)
    }
}

/// Whether a list holds a text.
fn holds_text(v: &Vec<String>, s: &str) -> (r: bool)
    ensures
        r == text::texts(v@).contains(s@),
{
    let mut i: usize = 0;
    while i < v.len()
        invariant
            i <= v.len(),
            forall|j: int| 0 <= j < i ==> (#[trigger] v@[j])@ != s@,
        decreases v.len() - i,
    {
        if text::same_text(v[i].as_str(), s) {
            assert(text::texts(v@)[i as int] == s@);
            return true;
        }
        i += 1;
    }
    assert(!text::texts(v@).contains(s@)) by {
        if text::texts(v@).contains(s@) {
            let j = choose|j: int| 0 <= j < v@.len() && text::texts(v@)[j] == s@;
            assert(v@[j]@ == s@);
        }
    }
    false
}

pub fn resolve_parameters(c: &Collection, query: &Query) -> (r: EdrResult<Vec<String>>)
    requires
        c.wf(),
    ensures
        match r {
            Ok(v) => requested_parameters(*c, query@) == Ok::<Seq<Seq<char>>, Fault>(
                text::texts(v@),
            ),
            Err(e) => requested_parameters(*c, query@) == Err::<Seq<Seq<char>>, Fault>(e@),
        },
{
    let names = match query.parameter_names() {
        Some(names) => names,
        None => {
            let mut m: String =
                "'parameter-name' is required for this collection; it has ".to_owned();
            m.append(text::decimal(c.parameters.len()).as_str());
            m.append(" parameters. See /collections/");
            m.append(c.id.as_str());
            m.append("/ for the list.");
            return Err(EdrError::BadRequest(m));
        },
    };
    let ghost all = text::texts(names@);
    let ghost ps = c.parameters.content();
    let mut out: Vec<String> = Vec::new();
    let mut i: usize = 0;
    assert(text::texts(out@) == Seq::<Seq<char>>::empty());
    while i < names.len()
        invariant
            c.wf(),
            i <= names.len(),
            all == text::texts(names@),
            ps == c.parameters.content(),
            all == params::named_parameters(query@),
            all.len() > 0,
            known(ps, all.take(i as int), c.id@) == Ok::<Seq<Seq<char>>, Fault>(text::texts(out@)),
        decreases names.len() - i,
    {
        let name = names[i].as_str();
        proof {
            assert(all.take(i + 1).drop_last() == all.take(i as int));
            assert(all.take(i + 1).last() == name@);
        }
        if c.parameter(name).is_none() {
            let mut m: String = "'".to_owned();
            m.append(name);
            m.append("' is not a parameter of collection '");
            m.append(c.id.as_str());
            m.append("'");
            proof {
                known_err(ps, all, c.id@, i + 1);
            }
            return Err(EdrError::BadRequest(m));
        }
        if !holds_text(&out, name) {
            let ghost before = text::texts(out@);
            out.push(names[i].clone());
            assert(text::texts(out@) == before.push(name@));
        }
        i += 1;
    }
    assert(all.take(i as int) == all);
    Ok(out)
}

/// Every parameter of a request is one of the collection's, stands once, and
/// was named.
pub proof fn known_is_exact(
    parameters: Map<Seq<char>, catalog::Parameter>,
    names: Seq<Seq<char>>,
    id: Seq<char>,
)
    requires
        known(parameters, names, id) is Ok,
    ensures
        known(parameters, names, id)->Ok_0.no_duplicates(),
        forall|n: Seq<char>| #[trigger]
            known(parameters, names, id)->Ok_0.contains(n) <==> names.contains(n),
        forall|i: int| 0 <= i < names.len() ==> parameters.contains_key(#[trigger] names[i]),
        names.len() > 0 ==> known(parameters, names, id)->Ok_0.len() > 0,
    decreases names.len(),
{
    if names.len() > 0 {
        let front = names.drop_last();
        known_is_exact(parameters, front, id);
        let f = known(parameters, front, id)->Ok_0;
        let r = known(parameters, names, id)->Ok_0;
        assert(names[names.len() - 1] == names.last());
        assert forall|n: Seq<char>| #[trigger] r.contains(n) <==> names.contains(n) by {
            if names.contains(n) {
                let k = choose|k: int| 0 <= k < names.len() && names[k] == n;
                if k < front.len() {
                    assert(front[k] == n);
                    assert(f.contains(n));
                    let j = choose|j: int| 0 <= j < f.len() && f[j] == n;
                    assert(r[j] == n);
                } else if !f.contains(names.last()) {
                    assert(r[f.len() as int] == n);
                }
            }
            if r.contains(n) {
                let j = choose|j: int| 0 <= j < r.len() && r[j] == n;
                if j < f.len() {
                    assert(f[j] == n);
                    assert(f.contains(n));
                    let k = choose|k: int| 0 <= k < front.len() && front[k] == n;
                    assert(names[k] == n);
                }
            }
        }
        assert forall|i: int| 0 <= i < names.len() implies parameters.contains_key(
            #[trigger] names[i],
        ) by {
            if i < front.len() {
                assert(front[i] == names[i]);
            }
        }
    }
}

/// A time as it was written, or what stands for one that cannot be.
pub open spec fn or_unknown(written: Option<Seq<char>>) -> Seq<char> {
    match written {
        Some(s) => s,
        None => "unknown"@,
    }
}

pub fn settle_time(written: Option<String>) -> (r: String)
    ensures
        r@ == or_unknown(params::text_of(written)),
{
    match written {
        Some(s) => s,
        None => "unknown".to_owned(),
    }
}

/// A time in a response.
pub open spec fn shown_time(micros: i64) -> Seq<char> {
    or_unknown(clock::written_micros(micros, clock::instant_format()))
}

pub fn format_time(micros: i64) -> (r: String)
    ensures
        r@ == shown_time(micros),
{
    settle_time(clock::write_micros(micros, "%Y-%m-%dT%H:%M:%SZ"))
}

/// The indices from `a` up to `b`.
pub open spec fn run_of(a: int, b: int) -> Seq<usize> {
    Seq::new(
        if a < b {
            (b - a) as nat
        } else {
            0
        },
        |i: int| (a + i) as usize,
    )
}

fn collect(a: usize, b: usize) -> (r: Vec<usize>)
    ensures
        r@ == run_of(a as int, b as int),
{
    let mut out: Vec<usize> = Vec::new();
    let mut i: usize = a;
    while i < b
        invariant
            a <= i,
            a < b ==> i <= b,
            a >= b ==> i == a,
            out@.len() == i - a,
            forall|k: int| 0 <= k < out@.len() ==> out@[k] == a + k,
        decreases b - i,
    {
        out.push(i);
        i += 1;
    }
    assert(out@ =~= run_of(a as int, b as int));
    out
}

pub open spec fn outside_extent(t: i64, lo: i64, hi: i64) -> Fault {
    Fault::NotFound(
        shown_time(t) + " is outside the collection's temporal extent ("@ + shown_time(lo) + " to "@
            + shown_time(hi) + ")"@,
    )
}

pub open spec fn no_overlap_in_time(lo: i64, hi: i64) -> Fault {
    Fault::NotFound(
        "The requested interval does not overlap the collection's temporal extent ("@
            + shown_time(lo) + " to "@ + shown_time(hi) + ")"@,
    )
}

/// A lookup's place as a list of at most one.
pub open spec fn at_most_one(place: Option<int>) -> Seq<usize> {
    match place {
        Some(i) => seq![i as usize],
        None => Seq::empty(),
    }
}

fn listed(place: Option<usize>) -> (r: Vec<usize>)
    ensures
        match place {
            Some(i) => r@ == seq![i],
            None => r@ == Seq::<usize>::empty(),
        },
{
    let mut out: Vec<usize> = Vec::new();
    if let Some(i) = place {
        out.push(i);
        assert(out@ == seq![i]);
    }
    out
}

/// The times of a request: the latest within the extent where none is asked for,
/// that within the extent which is nearest to an instant, or those of an interval
/// clipped to it. Where the axis has no time there, none.
pub open spec fn requested_times(c: Collection, datetime: Option<TemporalSelection>) -> Result<
    Seq<usize>,
    Fault,
> {
    let (lo, hi) = catalog::extent(c.t.values@, c.valid_time);
    let v = c.t.values@;
    match datetime {
        None => Ok(at_most_one(axis::latest_within(v, lo, hi))),
        Some(TemporalSelection::Instant(t)) => if t < lo || t > hi {
            Err(outside_extent(t, lo, hi))
        } else {
            Ok(at_most_one(axis::nearest_within(v, lo, hi, t)))
        },
        Some(TemporalSelection::Interval(start, end)) => {
            let from = if start is Some && start->0 > lo {
                start->0
            } else {
                lo
            };
            let to = if end is Some && end->0 < hi {
                end->0
            } else {
                hi
            };
            if from > to {
                Err(no_overlap_in_time(lo, hi))
            } else {
                Ok(run_of(axis::leading(v, from, false), axis::leading(v, to, true)))
            }
        },
    }
}

/// Map a `datetime` selection onto time-axis indices, clipped to the span the
/// store declares as populated.
pub fn resolve_time(c: &Collection, datetime: Option<TemporalSelection>) -> (r: EdrResult<
    Vec<usize>,
>)
    requires
        c.wf(),
    ensures
        match r {
            Ok(v) => requested_times(*c, datetime) == Ok::<Seq<usize>, Fault>(v@) && region::below(
                v@,
                c.t.values@.len(),
            ),
            Err(e) => requested_times(*c, datetime) == Err::<Seq<usize>, Fault>(e@),
        },
{
    let (lo, hi) = c.time_extent();
    match datetime {
        None => Ok(listed(c.t.latest_in_range(lo, hi))),
        Some(TemporalSelection::Instant(t)) => {
            if t < lo || t > hi {
                let mut m: String = format_time(t);
                m.append(" is outside the collection's temporal extent (");
                m.append(format_time(lo).as_str());
                m.append(" to ");
                m.append(format_time(hi).as_str());
                m.append(")");
                return Err(EdrError::NotFound(m));
            }
            Ok(listed(c.t.nearest_in_range(lo, hi, t)))
        },
        Some(TemporalSelection::Interval(start, end)) => {
            let mut from: i64 = lo;
            if let Some(s) = start {
                if s > lo {
                    from = s;
                }
            }
            let mut to: i64 = hi;
            if let Some(e) = end {
                if e < hi {
                    to = e;
                }
            }
            if from > to {
                let mut m: String =
                    "The requested interval does not overlap the collection's temporal extent (".to_owned();
                m.append(format_time(lo).as_str());
                m.append(" to ");
                m.append(format_time(hi).as_str());
                m.append(")");
                return Err(EdrError::NotFound(m));
            }
            let range = c.t.indices_in_range(from, to);
            Ok(collect(range.start, range.end))
        },
    }
}

/// No time that a request selects lies outside the collection's temporal extent,
/// on a time axis that rises.
pub proof fn times_stay_in_extent(c: Collection, datetime: Option<TemporalSelection>)
    requires
        axis::rising(c.t.values@),
        requested_times(c, datetime) is Ok,
    ensures
        forall|i: int|
            0 <= i < requested_times(c, datetime)->Ok_0.len() ==> {
                let t = c.t.values@[(#[trigger] requested_times(c, datetime)->Ok_0[i]) as int];
                catalog::extent(c.t.values@, c.valid_time).0 <= t <= catalog::extent(
                    c.t.values@,
                    c.valid_time,
                ).1
            },
{
    let (lo, hi) = catalog::extent(c.t.values@, c.valid_time);
    let v = c.t.values@;
    let n: usize = c.t.values.len();
    assert(v.len() == n);
    match datetime {
        None => {
            axis::latest_within_is_last(v, lo, hi);
        },
        Some(TemporalSelection::Instant(t)) => {
            axis::nearest_within_is_closest(v, lo, hi, t);
        },
        Some(TemporalSelection::Interval(start, end)) => {
            let from = if start is Some && start->0 > lo {
                start->0
            } else {
                lo
            };
            let to = if end is Some && end->0 < hi {
                end->0
            } else {
                hi
            };
            axis::leading_is_exact(v, from, false);
            axis::leading_is_exact(v, to, true);
            let s = run_of(axis::leading(v, from, false), axis::leading(v, to, true));
            assert(requested_times(c, datetime)->Ok_0 == s);
            assert forall|i: int| 0 <= i < s.len() implies lo <= v[(#[trigger] s[i]) as int]
                <= hi by {
                assert(s[i] as int == axis::leading(v, from, false) + i);
            }
        },
    }
}

/// On a time axis that rises, an interval selects the index of a time if and only
/// if the time lies within the collection's extent, is not before the start where
/// one is given, and is not after the end where one is given. The indices come in
/// order, each once. It is refused if and only if no instant at all is like that.
pub proof fn an_interval_selects_the_times_within_it(
    c: Collection,
    start: Option<i64>,
    end: Option<i64>,
    k: usize,
)
    requires
        axis::rising(c.t.values@),
        k < c.t.values@.len(),
    ensures
        ({
            let (lo, hi) = catalog::extent(c.t.values@, c.valid_time);
            let t = c.t.values@[k as int];
            match requested_times(c, Some(TemporalSelection::Interval(start, end))) {
                Ok(found) => {
                    &&& found.contains(k) <==> lo <= t <= hi && (start is Some ==> start->0 <= t)
                        && (end is Some ==> t <= end->0)
                    &&& forall|i: int, j: int| 0 <= i < j < found.len() ==> found[i] < found[j]
                },
                Err(e) => {
                    &&& e is NotFound
                    &&& forall|at: i64|
                        !(lo <= at <= hi && (start is Some ==> start->0 <= at) && (end is Some
                            ==> #[trigger] at_most(at, end->0)))
                },
            }
        }),
{
    let (lo, hi) = catalog::extent(c.t.values@, c.valid_time);
    let v = c.t.values@;
    let n: usize = c.t.values.len();
    assert(v.len() == n);
    let from = if start is Some && start->0 > lo {
        start->0
    } else {
        lo
    };
    let to = if end is Some && end->0 < hi {
        end->0
    } else {
        hi
    };
    axis::leading_is_exact(v, from, false);
    axis::leading_is_exact(v, to, true);
    let (a, b) = (axis::leading(v, from, false), axis::leading(v, to, true));
    if from <= to {
        let found = requested_times(c, Some(TemporalSelection::Interval(start, end)))->Ok_0;
        let s = run_of(a, b);
        assert(found == s);
        if a <= k < b {
            assert(s[k - a] == k);
        }
        if s.contains(k) {
            let i = choose|i: int| 0 <= i < s.len() && s[i] == k;
            assert(k as int == a + i);
        }
        assert forall|i: int, j: int| 0 <= i < j < found.len() implies found[i] < found[j] by {
            assert(s[i] as int == a + i && s[j] as int == a + j);
        }
    }
}

/// `a <= b`, by name.
pub open spec fn at_most(a: i64, b: i64) -> bool {
    a <= b
}

/// An instant selects one time, within the extent, than which no other time within
/// it is closer; where the axis has none within the extent it selects none, and an
/// instant outside the extent is refused.
pub proof fn an_instant_selects_the_closest_time(c: Collection, t: i64)
    requires
        axis::rising(c.t.values@),
    ensures
        ({
            let (lo, hi) = catalog::extent(c.t.values@, c.valid_time);
            let v = c.t.values@;
            match requested_times(c, Some(TemporalSelection::Instant(t))) {
                Ok(found) => {
                    &&& lo <= t <= hi
                    &&& found.len() == 0 ==> forall|j: int|
                        0 <= j < v.len() ==> !(lo <= #[trigger] v[j] <= hi)
                    &&& found.len() <= 1
                    &&& found.len() == 1 ==> found[0] < v.len() && lo <= v[found[0] as int] <= hi
                        && forall|j: int|
                        0 <= j < v.len() && lo <= #[trigger] v[j] <= hi ==> axis::apart(
                            v[found[0] as int],
                            t,
                        ) <= axis::apart(v[j], t)
                },
                Err(e) => e is NotFound && !(lo <= t <= hi),
            }
        }),
{
    let (lo, hi) = catalog::extent(c.t.values@, c.valid_time);
    let n: usize = c.t.values.len();
    assert(c.t.values@.len() == n);
    if lo <= t <= hi {
        axis::nearest_within_is_closest(c.t.values@, lo, hi, t);
    }
}

/// Without a `datetime` the last time within the extent is selected, and no time
/// where the axis has none there.
pub proof fn no_datetime_selects_the_latest_time(c: Collection)
    ensures
        ({
            let (lo, hi) = catalog::extent(c.t.values@, c.valid_time);
            let v = c.t.values@;
            &&& requested_times(c, None) matches Ok(found)
            &&& found.len() <= 1
            &&& found.len() == 1 ==> found[0] < v.len() && lo <= v[found[0] as int] <= hi
                && forall|j: int| found[0] < j < v.len() ==> !(lo <= #[trigger] v[j] <= hi)
            &&& found.len() == 0 ==> forall|j: int|
                0 <= j < v.len() ==> !(lo <= #[trigger] v[j] <= hi)
        }),
{
    let (lo, hi) = catalog::extent(c.t.values@, c.valid_time);
    let n: usize = c.t.values.len();
    assert(c.t.values@.len() == n);
    axis::latest_within_is_last(c.t.values@, lo, hi);
}

/// A fixed-point text without the zeros it ends in, nor the point then left at
/// its end.
pub open spec fn shortened(fixed: Seq<char>) -> Seq<char> {
    let t = shed(shed(fixed, '0'), '.');
    if t.len() == 0 || t == "-"@ {
        "0"@
    } else {
        t
    }
}

/// `s` without the copies of `c` that it ends with.
pub open spec fn shed(s: Seq<char>, c: char) -> Seq<char>
    decreases s.len(),
{
    if s.len() > 0 && s.last() == c {
        shed(s.drop_last(), c)
    } else {
        s
    }
}

fn shed_end(s: &[char], c: char) -> (r: &[char])
    ensures
        r@ == shed(s@, c),
{
    let mut end: usize = s.len();
    assert(s@.take(end as int) == s@);
    while end > 0 && s[end - 1] == c
        invariant
            end <= s.len(),
            shed(s@.take(end as int), c) == shed(s@, c),
        decreases end,
    {
        assert(s@.take(end as int).drop_last() == s@.take(end - 1));
        end -= 1;
    }
    let r = vstd::slice::slice_subrange(s, 0, end);
    assert(r@ == s@.take(end as int));
    r
}

/// Shorten a number written with a fixed count of decimals. There is no
/// exponent in it, which the SQL parser would read as an identifier.
pub fn format_number(fixed: &str) -> (r: String)
    ensures
        r@ == shortened(fixed@),
{
    let chars = text::chars_of(fixed);
    let t = shed_end(shed_end(chars.as_slice(), '0'), '.');
    if t.len() == 0 || text::spells(t, "-") {
        "0".to_owned()
    } else {
        text::string_of(t)
    }
}

pub open spec fn shortened_all(v: Seq<Seq<char>>) -> Seq<Seq<char>> {
    Seq::new(v.len(), |i: int| shortened(v[i]))
}

/// A list of numbers for a message: the first eight, and how many there are.
pub open spec fn summary(fixed: Seq<Seq<char>>) -> Seq<char> {
    if fixed.len() > 8 {
        text::joined(shortened_all(fixed.take(8)), ", "@) + ", … ("@ + text::digits(fixed.len())
            + " in total)"@
    } else {
        text::joined(shortened_all(fixed), ", "@)
    }
}

pub fn summarise(fixed: &Vec<String>) -> (r: String)
    ensures
        r@ == summary(text::texts(fixed@)),
{
    let ghost all = text::texts(fixed@);
    let n: usize = if fixed.len() > 8 {
        8
    } else {
        fixed.len()
    };
    let mut shown: Vec<String> = Vec::new();
    let mut i: usize = 0;
    while i < n
        invariant
            i <= n <= fixed@.len(),
            all == text::texts(fixed@),
            shown@.len() == i,
            forall|j: int| 0 <= j < i ==> (#[trigger] shown@[j])@ == shortened(all[j]),
        decreases n - i,
    {
        shown.push(format_number(fixed[i].as_str()));
        i += 1;
    }
    assert(text::texts(shown@) == shortened_all(all.take(n as int)));
    assert(fixed@.len() <= 8 ==> all.take(n as int) == all);
    let mut out: String = text::join(&shown, ", ");
    if fixed.len() > 8 {
        out.append(", … (");
        out.append(text::decimal(fixed.len()).as_str());
        out.append(" in total)");
    }
    out
}

/// What is worked out of the levels that are asked for: how far each level of
/// the axis is from each value, and each value, or the two ends of an interval,
/// as they are shown.
#[derive(Debug, Clone)]
pub struct LevelMeasure {
    pub distances: Vec<Vec<Double>>,
    pub shown: Vec<String>,
}

/// Whether a measure is of the levels that are asked for, on an axis of `n`.
pub open spec fn measured(levels: Option<Levels>, m: LevelMeasure, n: nat) -> bool {
    match levels {
        Some(Levels::Values(v)) => {
            &&& m.distances@.len() == v.len()
            &&& m.shown@.len() == v.len()
            &&& forall|i: int| 0 <= i < v.len() ==> (#[trigger] m.distances@[i])@.len() == n
        },
        Some(Levels::Interval(_, _)) => m.shown@.len() == 2,
        _ => true,
    }
}

/// The bits of the tolerance for a level, 1e-6.
pub const LEVEL_TOLERANCE: u64 = 0x3eb0_c6f7_a0b5_ed8d;

/// The levels nearest to values, each once, or the first value that is not a
/// level.
pub open spec fn matched_levels(
    axis_values: Seq<Double>,
    fixed: Seq<Seq<char>>,
    values: Seq<Double>,
    distances: Seq<Vec<Double>>,
    shown: Seq<String>,
) -> Result<Seq<usize>, Fault>
    decreases values.len(),
{
    if values.len() == 0 {
        Ok(Seq::empty())
    } else {
        let k = values.len() - 1;
        match matched_levels(axis_values, fixed, values.drop_last(), distances, shown) {
            Err(e) => Err(e),
            Ok(found) => {
                let at = axis::nearest_to(axis_values, values[k], distances[k]@);
                if (Double { bits: LEVEL_TOLERANCE }).less(distances[k]@[at]) {
                    Err(
                        Fault::BadRequest(
                            "z="@ + shown[k]@
                                + " is not a level of this collection; available levels are "@
                                + summary(fixed),
                        ),
                    )
                } else if found.contains(at as usize) {
                    Ok(found)
                } else {
                    Ok(found.push(at as usize))
                }
            },
        }
    }
}

proof fn matched_levels_err(
    axis_values: Seq<Double>,
    fixed: Seq<Seq<char>>,
    values: Seq<Double>,
    distances: Seq<Vec<Double>>,
    shown: Seq<String>,
    k: int,
)
    requires
        0 <= k <= values.len(),
        matched_levels(axis_values, fixed, values.take(k), distances, shown) is Err,
    ensures
        matched_levels(axis_values, fixed, values, distances, shown) == matched_levels(
            axis_values,
            fixed,
            values.take(k),
            distances,
            shown,
        ),
    decreases values.len() - k,
{
    if k == values.len() {
        assert(values.take(k) == values);
    } else {
        assert(values.take(k + 1).drop_last() == values.take(k));
        matched_levels_err(axis_values, fixed, values, distances, shown, k + 1);
    }
}

fn match_levels(
    levels: &NumericAxis,
    fixed: &Vec<String>,
    values: &Vec<Double>,
    m: &LevelMeasure,
) -> (r: EdrResult<Vec<usize>>)
    requires
        levels.wf(),
        levels.values@.len() > 0,
        measured(Some(Levels::Values(values@)), *m, levels.values@.len()),
    ensures
        match r {
            Ok(v) => matched_levels(
                levels.values@,
                text::texts(fixed@),
                values@,
                m.distances@,
                m.shown@,
            ) == Ok::<Seq<usize>, Fault>(v@) && region::below(v@, levels.values@.len())
                && v@.no_duplicates(),
            Err(e) => matched_levels(
                levels.values@,
                text::texts(fixed@),
                values@,
                m.distances@,
                m.shown@,
            ) == Err::<Seq<usize>, Fault>(e@),
        },
{
    let mut out: Vec<usize> = Vec::new();
    let mut i: usize = 0;
    while i < values.len()
        invariant
            levels.wf(),
            levels.values@.len() > 0,
            measured(Some(Levels::Values(values@)), *m, levels.values@.len()),
            i <= values@.len(),
            matched_levels(
                levels.values@,
                text::texts(fixed@),
                values@.take(i as int),
                m.distances@,
                m.shown@,
            ) == Ok::<Seq<usize>, Fault>(out@),
            region::below(out@, levels.values@.len()),
            out@.no_duplicates(),
        decreases values@.len() - i,
    {
        assert(m.distances@[i as int]@.len() == levels.values@.len());
        assert(values@.take(i + 1).drop_last() == values@.take(i as int));
        let at: usize = levels.nearest_index(values[i], &m.distances[i]);
        if (Double { bits: LEVEL_TOLERANCE }).is_less(m.distances[i][at]) {
            let mut msg: String = "z=".to_owned();
            msg.append(m.shown[i].as_str());
            msg.append(" is not a level of this collection; available levels are ");
            msg.append(summarise(fixed).as_str());
            proof {
                matched_levels_err(
                    levels.values@,
                    text::texts(fixed@),
                    values@,
                    m.distances@,
                    m.shown@,
                    i + 1,
                );
            }
            return Err(EdrError::BadRequest(msg));
        }
        if !holds_index(&out, at) {
            out.push(at);
        }
        i += 1;
    }
    assert(values@.take(i as int) == values@);
    Ok(out)
}

fn holds_index(v: &Vec<usize>, x: usize) -> (r: bool)
    ensures
        r == v@.contains(x),
{
    let mut i: usize = 0;
    while i < v.len()
        invariant
            i <= v.len(),
            forall|j: int| 0 <= j < i ==> v@[j] != x,
        decreases v.len() - i,
    {
        if v[i] == x {
            assert(v@[i as int] == x);
            return true;
        }
        i += 1;
    }
    false
}

/// Whether any of the parameters spans the vertical axis.
pub open spec fn any_vertical(c: Collection, names: Seq<Seq<char>>) -> bool {
    exists|i: int|
        0 <= i < names.len() && catalog::vertical(c.parameters.content(), #[trigger] names[i])
}

/// The levels of a request. `implied` are the vertical bounds that a box
/// carries: they stand in for a `z` that is not given, where levels apply at
/// all.
pub open spec fn requested_levels(
    c: Collection,
    levels: Option<Levels>,
    implied: Option<(Double, Double)>,
    names: Seq<Seq<char>>,
    m: LevelMeasure,
) -> Result<Seq<usize>, Fault> {
    match c.z {
        None => if levels is Some {
            Err(
                Fault::BadRequest(
                    "This collection has no vertical axis, so 'z' cannot be used"@,
                ),
            )
        } else {
            Ok(Seq::empty())
        },
        Some(z) => if !any_vertical(c, names) {
            if levels is Some {
                Err(
                    Fault::BadRequest(
                        "None of the requested parameters vary with '"@ + (match c.z_name {
                            Some(n) => n@,
                            None => "z"@,
                        }) + "', so 'z' does not apply"@,
                    ),
                )
            } else {
                Ok(Seq::empty())
            }
        } else {
            match effective_levels(levels, implied) {
                Levels::All => Ok(run_of(0, z.values@.len() as int)),
                Levels::Values(v) => matched_levels(
                    z.values@,
                    text::texts(c.z_texts@),
                    v,
                    m.distances@,
                    m.shown@,
                ),
                Levels::Interval(lo, hi) => {
                    let kept = axis::kept(
                        z.values@.len(),
                        |i: int| axis::in_range(z.values@, lo, hi, i),
                    );
                    if kept.len() == 0 {
                        Err(
                            Fault::NotFound(
                                "No level lies between "@ + m.shown@[0]@ + " and "@ + m.shown@[1]@
                                    + "; available levels are "@ + summary(text::texts(c.z_texts@)),
                            ),
                        )
                    } else {
                        Ok(kept)
                    }
                },
            }
        },
    }
}

/// The levels asked for: those of `z`, else those that a box implies, else all.
pub open spec fn effective_levels(
    levels: Option<Levels>,
    implied: Option<(Double, Double)>,
) -> Levels {
    match (levels, implied) {
        (Some(l), _) => l,
        (None, Some(b)) => Levels::Interval(b.0.lesser(b.1), b.0.greater(b.1)),
        (None, None) => Levels::All,
    }
}

/// A selection of levels by what it holds.
pub open spec fn levels_of(v: Option<VerticalSelection>) -> Option<Levels> {
    match v {
        Some(s) => Some(s@),
        None => None,
    }
}

/// Settle which levels are asked for: those of `z`, else those that a box
/// implies, else all.
pub fn levels_asked(vertical: Option<VerticalSelection>, implied: Option<(Double, Double)>) -> (r:
    VerticalSelection)
    ensures
        r@ == effective_levels(levels_of(vertical), implied),
{
    match vertical {
        Some(v) => v,
        None => match implied {
            Some((a, b)) => VerticalSelection::Interval(a.min(b), a.max(b)),
            None => VerticalSelection::All,
        },
    }
}

/// Map a `z` selection onto vertical-axis indices.
///
/// An omitted `z` means every level. For ERA5 that is free: one chunk holds all
/// 37 levels of a timestep, so a narrower selection reads no less.
pub fn resolve_vertical(
    c: &Collection,
    vertical: Option<VerticalSelection>,
    implied: Option<(Double, Double)>,
    names: &Vec<String>,
    m: &LevelMeasure,
) -> (r: EdrResult<Vec<usize>>)
    requires
        c.wf(),
        c.z matches Some(z) ==> measured(
            Some(effective_levels(levels_of(vertical), implied)),
            *m,
            z.values@.len(),
        ),
    ensures
        match r {
            Ok(v) => {
                &&& requested_levels(*c, levels_of(vertical), implied, text::texts(names@), *m)
                    == Ok::<Seq<usize>, Fault>(v@)
                &&& v@.no_duplicates()
                &&& v@.len() > 0 ==> c.z is Some && region::below(v@, c.z->0.values@.len())
            },
            Err(e) => requested_levels(
                *c,
                levels_of(vertical),
                implied,
                text::texts(names@),
                *m,
            ) == Err::<Seq<usize>, Fault>(e@),
        },
{
    let levels = match &c.z {
        Some(levels) => levels,
        None => {
            if vertical.is_some() {
                return Err(
                    EdrError::BadRequest(
                        "This collection has no vertical axis, so 'z' cannot be used".to_owned(),
                    ),
                );
            }
            return Ok(Vec::new());
        },
    };
    let mut spanning = false;
    let mut i: usize = 0;
    while i < names.len() && !spanning
        invariant
            c.wf(),
            i <= names@.len(),
            spanning ==> any_vertical(*c, text::texts(names@)),
            !spanning ==> forall|j: int|
                0 <= j < i ==> !catalog::vertical(
                    c.parameters.content(),
                    #[trigger] text::texts(names@)[j],
                ),
        decreases names@.len() - i,
    {
        if c.spans(names[i].as_str()) {
            assert(catalog::vertical(c.parameters.content(), text::texts(names@)[i as int]));
            spanning = true;
        }
        i += 1;
    }
    if !spanning {
        if vertical.is_some() {
            let mut msg: String = "None of the requested parameters vary with '".to_owned();
            match &c.z_name {
                Some(n) => msg.append(n.as_str()),
                None => msg.append("z"),
            }
            msg.append("', so 'z' does not apply");
            return Err(EdrError::BadRequest(msg));
        }
        return Ok(Vec::new());
    }
    match levels_asked(vertical, implied) {
        VerticalSelection::All => {
            let out = collect(0, levels.len());
            Ok(out)
        },
        VerticalSelection::Values(values) => match_levels(levels, &c.z_texts, &values, m),
        VerticalSelection::Interval(lo, hi) => {
            let out = levels.indices_in_range(lo, hi);
            let n: usize = levels.len();
            proof {
                axis::kept_is_exact(
                    n as nat,
                    |i: int| axis::in_range(levels.values@, lo, hi, i),
                );
            }
            if out.len() == 0 {
                let mut msg: String = "No level lies between ".to_owned();
                msg.append(m.shown[0].as_str());
                msg.append(" and ");
                msg.append(m.shown[1].as_str());
                msg.append("; available levels are ");
                msg.append(summarise(&c.z_texts).as_str());
                return Err(EdrError::NotFound(msg));
            }
            Ok(out)
        },
    }
}

/// Everything that is worked out of a request's numbers: what its numerals
/// stand for, the values of a repeated `z`, and what the levels and the geometry
/// come to on the collection's axes.
#[derive(Debug)]
pub struct Measures {
    pub numerals: Numerals,
    pub rungs: Vec<Double>,
    pub levels: LevelMeasure,
    pub space: SpaceMeasure,
}

/// The vertical bounds that a cube's box carries.
pub open spec fn implied_levels(
    kind: QueryKind,
    q: Seq<(Seq<char>, Seq<char>)>,
    numerals: Map<Seq<char>, Double>,
) -> Option<(Double, Double)> {
    match (kind, params::queried_box(q, numerals)) {
        (QueryKind::Cube, Ok(Some(b))) => b.1,
        _ => None,
    }
}

/// Read the vertical bounds that a cube's box carries.
pub fn bounds_implied(kind: QueryKind, query: &Query, numerals: &Numerals) -> (r: Option<
    (Double, Double),
>)
    requires
        numerals.wf(),
    ensures
        r == implied_levels(kind, query@, numerals@),
{
    match kind {
        QueryKind::Cube => match query.bbox(numerals) {
            Ok(Some((_, bounds))) => bounds,
            _ => None,
        },
        _ => None,
    }
}

/// The levels that a query's `z` comes to.
pub open spec fn asked_levels(
    q: Seq<(Seq<char>, Seq<char>)>,
    numerals: Map<Seq<char>, Double>,
    rungs: Seq<Double>,
) -> Result<Option<Levels>, Fault> {
    match params::queried_levels(q, numerals) {
        Err(e) => Err(e),
        Ok(None) => Ok(None),
        Ok(Some(params::LevelRequest::Levels(l))) => Ok(Some(l)),
        Ok(Some(params::LevelRequest::Repeat { .. })) => Ok(Some(Levels::Values(rungs))),
    }
}

impl Measures {
    /// Whether the measures are of a request: of its geometry, of the values of
    /// a repeated `z`, as many as are asked for and the first its start, and of the
    /// levels that it asks for.
    pub open spec fn fits(
        &self,
        c: &Collection,
        kind: QueryKind,
        g: crate::edr::wkt::Shape,
        q: Seq<(Seq<char>, Seq<char>)>,
    ) -> bool {
        &&& self.numerals.wf()
        &&& self.space.fits(c, kind, g, q, self.numerals@)
        &&& params::queried_levels(q, self.numerals@) matches Ok(
            Some(params::LevelRequest::Repeat { count, start, .. }),
        ) ==> self.rungs@.len() == count && self.rungs@[0] == start
        &&& asked_levels(q, self.numerals@, self.rungs@) matches Ok(levels) ==> (
        c.z matches Some(z) ==> measured(
            Some(effective_levels(levels, implied_levels(kind, q, self.numerals@))),
            self.levels,
            z.values@.len(),
        ))
    }
}

/// A selection with its axes in ascending order of their coordinates. Longitude
/// matters most: a box across the prime meridian selects indices from both ends
/// of a 0…360 axis, which in storage order would hand a client a grid whose x
/// axis jumps from 0.5 to -0.5.
pub open spec fn arranged(c: Collection, r: Region, z: Seq<usize>, t: Seq<usize>) -> Picked {
    Picked {
        x: cells::ordered_by(r.x, c.x_crs84@),
        y: cells::ordered_by(r.y, c.y.values@),
        z: match c.z {
            Some(levels) => cells::ordered_by(z, levels.values@),
            None => z,
        },
        t,
        mask: r.mask,
    }
}

pub open spec fn thinned_to(s: Seq<usize>, target: Option<usize>) -> Seq<usize> {
    match target {
        Some(n) => thinned(s, n as int),
        None => s,
    }
}

/// A selection thinned to the resolutions that a query asks for. A mask keeps
/// the cells whose row and column are left.
pub open spec fn at_resolution(
    c: Collection,
    p: Picked,
    q: Seq<(Seq<char>, Seq<char>)>,
) -> Result<Picked, Fault> {
    match params::queried_resolution(q, "x"@) {
        Err(e) => Err(e),
        Ok(rx) => match params::queried_resolution(q, "y"@) {
            Err(e) => Err(e),
            Ok(ry) => match params::queried_resolution(q, "z"@) {
                Err(e) => Err(e),
                Ok(rz) => if c.z is None && rz is Some {
                    Err(
                        Fault::BadRequest(
                            "This collection has no vertical axis, so 'resolution-z' does not apply"@,
                        ),
                    )
                } else {
                    let (x, y) = (thinned_to(p.x, rx), thinned_to(p.y, ry));
                    Ok(
                        Picked {
                            x,
                            y,
                            z: thinned_to(p.z, rz),
                            t: p.t,
                            mask: match p.mask {
                                Some(m) => Some(cells::retained(m, y, x)),
                                None => None,
                            },
                        },
                    )
                },
            },
        },
    }
}

pub open spec fn nothing_selected() -> Fault {
    Fault::NotFound(
        "The query selects no data: nothing in this collection matches that location, time and vertical level"@,
    )
}

pub open spec fn too_spread_out(scanned: int, ceiling: usize) -> Fault {
    Fault::TooLarge(
        "The query is too spread out: reading it needs "@ + text::digits(scanned as nat)
            + " grid rows, above this server's ceiling of "@ + text::digits(ceiling as nat)
            + ". Positions far apart are read as the range spanning them, so request them separately, or narrow 'datetime'."@,
    )
}

pub open spec fn too_many_values(p: Picked, parameters: nat, total: int, limit: int) -> Fault {
    Fault::TooLarge(
        "The query selects "@ + text::digits(total as nat) + " values ("@ + text::digits(
            saturated(p.cells()) as nat,
        ) + " cells x "@ + text::digits(at_least_one(p.z.len() as int) as nat) + " levels x "@
            + text::digits(p.t.len()) + " times x "@ + text::digits(parameters)
            + " parameters), above the limit of "@ + text::digits(limit as nat)
            + ". Narrow 'datetime', the area, 'z', or 'parameter-name', or thin the grid with 'resolution-x' and 'resolution-y'."@,
    )
}

/// The limit that a request is held to: its own or the default, and never more
/// than the scan ceiling.
pub open spec fn effective_limit(limit: usize, limits: Limits) -> int {
    if limit <= limits.max_scan_rows {
        limit as int
    } else {
        limits.max_scan_rows as int
    }
}

/// A selection held to the limits. The read is bounded by the server's own
/// ceiling, which the caller's `limit` does not lower, and the answer by the
/// limit.
pub open spec fn admitted(
    p: Picked,
    parameters: nat,
    q: Seq<(Seq<char>, Seq<char>)>,
    limits: Limits,
) -> Result<Picked, Fault> {
    let scanned = saturated(p.scanned());
    if p.empty() {
        Err(nothing_selected())
    } else if scanned > limits.max_scan_rows {
        Err(too_spread_out(scanned, limits.max_scan_rows))
    } else {
        match params::limit_of(q, limits.default_limit) {
            Err(e) => Err(e),
            Ok(limit) => {
                let total = saturated(p.values() * parameters);
                let bound = effective_limit(limit, limits);
                if total > bound {
                    Err(too_many_values(p, parameters, total, bound))
                } else {
                    Ok(p)
                }
            },
        }
    }
}

/// What a request resolves to: its parameters and what is selected of each axis.
pub open spec fn resolved(
    c: Collection,
    kind: QueryKind,
    g: crate::edr::wkt::Shape,
    q: Seq<(Seq<char>, Seq<char>)>,
    limits: Limits,
    m: Measures,
) -> Result<(Seq<Seq<char>>, Picked), Fault> {
    match planned(c, kind, q, m) {
        Err(e) => Err(e),
        Ok(plan) => match region::region(&c, kind, g, q, m.numerals@, m.space) {
            Err(e) => Err(e),
            Ok(r) => match at_resolution(c, arranged(c, r, plan.2, plan.1), q) {
                Err(e) => Err(e),
                Ok(p) => match admitted(p, plan.0.len(), q, limits) {
                    Err(e) => Err(e),
                    Ok(p) => Ok((plan.0, p)),
                },
            },
        },
    }
}

/// The parameters, times and levels of a request, which are settled before its
/// geometry is.
pub open spec fn planned(
    c: Collection,
    kind: QueryKind,
    q: Seq<(Seq<char>, Seq<char>)>,
    m: Measures,
) -> Result<(Seq<Seq<char>>, Seq<usize>, Seq<usize>), Fault> {
    match params::crs_accepted(q) {
        Err(e) => Err(e),
        Ok(_) => match requested_parameters(c, q) {
            Err(e) => Err(e),
            Ok(names) => match params::queried_times(q) {
                Err(e) => Err(e),
                Ok(datetime) => match requested_times(c, datetime) {
                    Err(e) => Err(e),
                    Ok(t) => match asked_levels(q, m.numerals@, m.rungs@) {
                        Err(e) => Err(e),
                        Ok(levels) => match requested_levels(
                            c,
                            levels,
                            implied_levels(kind, q, m.numerals@),
                            names,
                            m.levels,
                        ) {
                            Err(e) => Err(e),
                            Ok(z) => Ok((names, t, z)),
                        },
                    },
                },
            },
        },
    }
}

/// The parameters, times and levels of a request.
#[derive(Debug)]
pub struct Plan {
    pub parameters: Vec<String>,
    pub t_idx: Vec<usize>,
    pub z_idx: Vec<usize>,
}

/// Settle everything of a request but its geometry.
pub fn plan(c: &Collection, kind: QueryKind, query: &Query, m: &Measures) -> (r: EdrResult<Plan>)
    requires
        c.wf(),
        m.numerals.wf(),
        asked_levels(query@, m.numerals@, m.rungs@) matches Ok(levels) ==> (
        c.z matches Some(z) ==> measured(
            Some(effective_levels(levels, implied_levels(kind, query@, m.numerals@))),
            m.levels,
            z.values@.len(),
        )),
    ensures
        match r {
            Ok(p) => {
                &&& planned(*c, kind, query@, *m) == Ok::<
                    (Seq<Seq<char>>, Seq<usize>, Seq<usize>),
                    Fault,
                >((text::texts(p.parameters@), p.t_idx@, p.z_idx@))
                &&& region::below(p.t_idx@, c.t.values@.len())
                &&& p.z_idx@.no_duplicates()
                &&& p.z_idx@.len() > 0 ==> c.z is Some && region::below(
                    p.z_idx@,
                    c.z->0.values@.len(),
                )
            },
            Err(e) => planned(*c, kind, query@, *m) == Err::<
                (Seq<Seq<char>>, Seq<usize>, Seq<usize>),
                Fault,
            >(e@),
        },
{
    if let Err(e) = query.crs() {
        return Err(e);
    }
    let parameters = match resolve_parameters(c, query) {
        Ok(v) => v,
        Err(e) => {
            return Err(e);
        },
    };
    let datetime = match query.datetime() {
        Ok(v) => v,
        Err(e) => {
            return Err(e);
        },
    };
    let t_idx = match resolve_time(c, datetime) {
        Ok(v) => v,
        Err(e) => {
            return Err(e);
        },
    };
    let vertical = match query.vertical(&m.numerals) {
        Ok(None) => None,
        Ok(Some(request)) => Some(request.selection(copy_doubles(&m.rungs))),
        Err(e) => {
            return Err(e);
        },
    };
    let implied = bounds_implied(kind, query, &m.numerals);
    match resolve_vertical(c, vertical, implied, &parameters, &m.levels) {
        Ok(z_idx) => Ok(Plan { parameters, t_idx, z_idx }),
        Err(e) => Err(e),
    }
}

fn copy_doubles(v: &Vec<Double>) -> (r: Vec<Double>)
    ensures
        r@ == v@,
{
    let mut out: Vec<Double> = Vec::new();
    let mut i: usize = 0;
    while i < v.len()
        invariant
            i <= v@.len(),
            out@ == v@.take(i as int),
        decreases v@.len() - i,
    {
        out.push(v[i]);
        assert(v@.take(i + 1) == v@.take(i as int).push(v@[i as int]));
        i += 1;
    }
    assert(v@.take(i as int) == v@);
    out
}

impl DataRequest {
    /// Whether a request lies on its collection: each index does and stands
    /// once, and a mask holds cells of the selection alone.
    pub open spec fn wf(&self) -> bool {
        &&& self.collection.wf()
        &&& self.selection.wf()
        &&& text::texts(self.parameters@).no_duplicates()
        &&& region::below(self.selection.x_idx@, self.collection.x.values@.len())
        &&& region::below(self.selection.y_idx@, self.collection.y.values@.len())
        &&& region::below(self.selection.t_idx@, self.collection.t.values@.len())
        &&& self.selection.z_idx@.len() > 0 ==> self.collection.z is Some && region::below(
            self.selection.z_idx@,
            self.collection.z->0.values@.len(),
        )
        &&& self.selection.x_idx@.no_duplicates()
        &&& self.selection.y_idx@.no_duplicates()
        &&& self.selection.z_idx@.no_duplicates()
        &&& self.selection@.mask matches Some(m) ==> forall|cell: (usize, usize)| #[trigger]
            m.contains(cell) ==> self.selection.y_idx@.contains(cell.0)
                && self.selection.x_idx@.contains(cell.1)
    }
}

proof fn same_members(s: Seq<usize>, t: Seq<usize>, n: nat)
    requires
        s.to_multiset() == t.to_multiset(),
        s.no_duplicates(),
    ensures
        t.no_duplicates(),
        region::below(s, n) ==> region::below(t, n),
        forall|x: usize| s.contains(x) <==> t.contains(x),
{
    broadcast use vstd::seq_lib::group_to_multiset_ensures;

    s.lemma_multiset_has_no_duplicates();
    t.lemma_multiset_has_no_duplicates_conv();
    assert forall|x: usize| s.contains(x) <==> t.contains(x) by {
        assert(s.contains(x) <==> s.to_multiset().count(x) > 0);
        assert(t.contains(x) <==> t.to_multiset().count(x) > 0);
    }
    if region::below(s, n) {
        assert forall|i: int| 0 <= i < t.len() implies (#[trigger] t[i]) < n by {
            assert(t.contains(t[i]));
            assert(s.contains(t[i]));
        }
    }
}

proof fn spread_climbs(n: int, target: int, i: int, j: int)
    requires
        2 <= target < n,
        0 <= i < j < target,
    ensures
        (i * (n - 1)) / (target - 1) < (j * (n - 1)) / (target - 1),
    decreases j - i,
{
    let (l, d) = (n - 1, target - 1);
    if j == i + 1 {
        assert(j * l == i * l + l) by (nonlinear_arith)
            requires
                j == i + 1,
        ;
        vstd::arithmetic::div_mod::lemma_div_is_ordered(i * l + d, i * l + l, d);
        vstd::arithmetic::div_mod::lemma_div_plus_one(i * l, d);
    } else {
        spread_climbs(n, target, i, j - 1);
        spread_climbs(n, target, j - 1, j);
    }
}

proof fn deduped_of_distinct(s: Seq<usize>)
    requires
        s.no_duplicates(),
    ensures
        deduped(s) == s,
    decreases s.len(),
{
    if s.len() > 0 {
        let front = s.drop_last();
        assert(front.no_duplicates());
        deduped_of_distinct(front);
        if front.len() > 0 {
            assert(s[front.len() - 1] != s[s.len() - 1]);
        }
        assert(s == front.push(s.last()));
    }
}

proof fn thinned_stays(s: Seq<usize>, target: Option<usize>, n: nat)
    requires
        s.no_duplicates(),
        target matches Some(k) ==> k >= 1,
    ensures
        thinned_to(s, target).no_duplicates(),
        region::below(s, n) ==> region::below(thinned_to(s, target), n),
        forall|x: usize| #[trigger] thinned_to(s, target).contains(x) ==> s.contains(x),
        thinned_to(s, target).len() > 0 ==> s.len() > 0,
{
    if let Some(k) = target {
        let r = thinned(s, k as int);
        if s.len() > 0 {
            thinning_keeps_both_ends(s, k as int);
            if 2 <= k < s.len() {
                let all = spread(s, k as int);
                assert forall|i: int, j: int|
                    0 <= i < all.len() && 0 <= j < all.len() && i != j implies all[i]
                    != all[j] by {
                    let len = s.len() as int;
                    spread_stays(len, k as int, i);
                    spread_stays(len, k as int, j);
                    if i < j {
                        spread_climbs(len, k as int, i, j);
                    } else {
                        spread_climbs(len, k as int, j, i);
                    }
                }
                deduped_of_distinct(all);
            }
            assert forall|x: usize| #[trigger] r.contains(x) implies s.contains(x) by {
                let i = choose|i: int| 0 <= i < r.len() && r[i] == x;
                assert(s.contains(r[i]));
            }
            if region::below(s, n) {
                assert forall|i: int| 0 <= i < r.len() implies (#[trigger] r[i]) < n by {
                    assert(s.contains(r[i]));
                    let j = choose|j: int| 0 <= j < s.len() && s[j] == r[i];
                }
            }
        }
    }
}

fn thin_axis(indices: Vec<usize>, target: Option<usize>) -> (r: Vec<usize>)
    requires
        target matches Some(k) ==> k >= 1,
    ensures
        r@ == thinned_to(indices@, target),
{
    match target {
        Some(k) => thin(indices, k),
        None => indices,
    }
}

/// Apply `resolution-x` / `resolution-y` / `resolution-z` by thinning the
/// selected indices to at most the requested number of points.
fn thin_to_resolution(c: &Collection, selection: Selection, query: &Query) -> (r: EdrResult<
    Selection,
>)
    requires
        selection.wf(),
        region::below(selection.x_idx@, c.x.values@.len()),
        region::below(selection.y_idx@, c.y.values@.len()),
        selection@.mask matches Some(m) ==> forall|cell: (usize, usize)| #[trigger]
            m.contains(cell) ==> selection.y_idx@.contains(cell.0) && selection.x_idx@.contains(
                cell.1,
            ),
    ensures
        match r {
            Ok(s) => at_resolution(*c, selection@, query@) == Ok::<Picked, Fault>(s@) && s.wf(),
            Err(e) => at_resolution(*c, selection@, query@) == Err::<Picked, Fault>(e@),
        },
{
    let rx = match query.resolution("x") {
        Ok(v) => v,
        Err(e) => {
            return Err(e);
        },
    };
    let ry = match query.resolution("y") {
        Ok(v) => v,
        Err(e) => {
            return Err(e);
        },
    };
    let rz = match query.resolution("z") {
        Ok(v) => v,
        Err(e) => {
            return Err(e);
        },
    };
    if c.z.is_none() && rz.is_some() {
        return Err(
            EdrError::BadRequest(
                "This collection has no vertical axis, so 'resolution-z' does not apply".to_owned(),
            ),
        );
    }
    let ghost was = selection@;
    let Selection { x_idx, y_idx, z_idx, t_idx, mask } = selection;
    let x = thin_axis(x_idx, rx);
    let y = thin_axis(y_idx, ry);
    let z = thin_axis(z_idx, rz);
    let kept = match mask {
        Some(m) => {
            assert forall|cell: (usize, usize)| #[trigger] m@.contains(cell) implies cell.0
                < c.y.values@.len() && cell.1 < c.x.values@.len() by {
                assert(was.y.contains(cell.0) && was.x.contains(cell.1));
                let i = choose|i: int| 0 <= i < was.y.len() && was.y[i] == cell.0;
                let j = choose|j: int| 0 <= j < was.x.len() && was.x[j] == cell.1;
                assert(was.y[i] < c.y.values@.len() && was.x[j] < c.x.values@.len());
            }
            Some(m.retain(&y, &x, c.y.len(), c.x.len()))
        },
        None => None,
    };
    Ok(Selection { x_idx: x, y_idx: y, z_idx: z, t_idx, mask: kept })
}

/// A request, or why there is none, by what it resolves to.
pub open spec fn request_of(r: EdrResult<DataRequest>) -> Result<(Seq<Seq<char>>, Picked), Fault> {
    match r {
        Ok(d) => Ok((text::texts(d.parameters@), d.selection@)),
        Err(e) => Err(e@),
    }
}

/// Hold a selection to the limits.
fn hold_to_limits(selection: &Selection, parameters: usize, query: &Query, limits: Limits) -> (r: EdrResult<
    (),
>)
    requires
        selection.wf(),
    ensures
        match r {
            Ok(_) => admitted(selection@, parameters as nat, query@, limits) == Ok::<
                Picked,
                Fault,
            >(selection@),
            Err(e) => admitted(selection@, parameters as nat, query@, limits) == Err::<
                Picked,
                Fault,
            >(e@),
        },
{
    if selection.is_empty() {
        return Err(
            EdrError::NotFound(
                "The query selects no data: nothing in this collection matches that location, time and vertical level".to_owned(),
            ),
        );
    }
    let scanned: usize = selection.scan_row_count();
    if scanned > limits.max_scan_rows {
        let mut m: String = "The query is too spread out: reading it needs ".to_owned();
        m.append(text::decimal(scanned).as_str());
        m.append(" grid rows, above this server's ceiling of ");
        m.append(text::decimal(limits.max_scan_rows).as_str());
        m.append(
            ". Positions far apart are read as the range spanning them, so request them separately, or narrow 'datetime'.",
        );
        return Err(EdrError::TooLarge(m));
    }
    let limit: usize = match query.limit(limits.default_limit) {
        Ok(n) => if n <= limits.max_scan_rows {
            n
        } else {
            limits.max_scan_rows
        },
        Err(e) => {
            return Err(e);
        },
    };
    proof {
        let (v, n) = (selection@.values(), parameters as int);
        values_are_not_negative(selection@);
        saturated_product(v, n);
    }
    let total: usize = product(selection.value_count(), parameters);
    if total > limit {
        let levels: usize = if selection.z_idx.len() >= 1 {
            selection.z_idx.len()
        } else {
            1
        };
        let mut m: String = "The query selects ".to_owned();
        m.append(text::decimal(total).as_str());
        m.append(" values (");
        m.append(text::decimal(selection.cell_count()).as_str());
        m.append(" cells x ");
        m.append(text::decimal(levels).as_str());
        m.append(" levels x ");
        m.append(text::decimal(selection.t_idx.len()).as_str());
        m.append(" times x ");
        m.append(text::decimal(parameters).as_str());
        m.append(" parameters), above the limit of ");
        m.append(text::decimal(limit).as_str());
        m.append(
            ". Narrow 'datetime', the area, 'z', or 'parameter-name', or thin the grid with 'resolution-x' and 'resolution-y'.",
        );
        return Err(EdrError::TooLarge(m));
    }
    Ok(())
}

proof fn values_are_not_negative(p: Picked)
    ensures
        p.values() >= 0,
{
    let (c, t, z) = (p.cells(), p.t.len() as int, at_least_one(p.z.len() as int));
    assert(p.x.len() * p.y.len() >= 0) by (nonlinear_arith);
    assert(c >= 0);
    assert(c * t * z >= 0) by (nonlinear_arith)
        requires
            c >= 0,
            t >= 0,
            z >= 0,
    ;
}

/// Resolve the geometry, `datetime`, `z` and `parameter-name` of a request
/// against a collection's axes, where `m` is what was worked out of the
/// request's numbers.
pub fn resolve(
    collection: Arc<Collection>,
    kind: QueryKind,
    geometry: &Geometry,
    query: &Query,
    limits: Limits,
    m: &Measures,
) -> (r: EdrResult<DataRequest>)
    requires
        collection.wf(),
        m.fits(&*collection, kind, geometry@, query@),
    ensures
        request_of(r) == resolved(*collection, kind, geometry@, query@, limits, *m),
        r matches Ok(d) ==> d.kind == kind && d.collection == collection && d.wf(),
{
    let c: &Collection = &collection;
    let Plan { parameters, t_idx, z_idx } = match plan(c, kind, query, m) {
        Ok(p) => p,
        Err(e) => {
            return Err(e);
        },
    };
    let space = match region::resolve_spatial(c, kind, geometry, query, &m.numerals, &m.space) {
        Ok(s) => s,
        Err(e) => {
            return Err(e);
        },
    };
    let x_idx = cells::order_by(&space.x_idx, &c.x_crs84);
    let y_idx = cells::order_by(&space.y_idx, &c.y.values);
    let z_sorted = match &c.z {
        Some(levels) => cells::order_by(&z_idx, &levels.values),
        None => z_idx,
    };
    proof {
        assert(space.x_idx@.no_duplicates() && space.y_idx@.no_duplicates());
        same_members(space.x_idx@, x_idx@, c.x.values@.len());
        same_members(space.y_idx@, y_idx@, c.y.values@.len());
        if let Some(levels) = &c.z {
            same_members(z_idx@, z_sorted@, levels.values@.len());
        }
    }
    let selection = Selection { x_idx, y_idx, z_idx: z_sorted, t_idx, mask: space.mask };
    let ghost full = selection@;
    assert(full == arranged(*c, space@, z_idx@, t_idx@));
    let thinned_selection = match thin_to_resolution(c, selection, query) {
        Ok(s) => s,
        Err(e) => {
            return Err(e);
        },
    };
    if let Err(e) = hold_to_limits(&thinned_selection, parameters.len(), query, limits) {
        return Err(e);
    }
    proof {
        let rx = params::queried_resolution(query@, "x"@)->Ok_0;
        let ry = params::queried_resolution(query@, "y"@)->Ok_0;
        let rz = params::queried_resolution(query@, "z"@)->Ok_0;
        thinned_stays(full.x, rx, c.x.values@.len());
        thinned_stays(full.y, ry, c.y.values@.len());
        let depth = match &c.z {
            Some(levels) => levels.values@.len(),
            None => 0,
        };
        thinned_stays(full.z, rz, depth);
        known_is_exact(
            c.parameters.content(),
            params::named_parameters(query@),
            c.id@,
        );
    }
    Ok(DataRequest { kind, collection, parameters, selection: thinned_selection })
}

/// A caller's `limit` never changes whether a read is affordable: with any two
/// limits that are well formed, a request is refused as too spread out with both
/// or with neither.
pub proof fn the_limit_does_not_lower_the_ceiling(
    p: Picked,
    n: nat,
    q: Seq<(Seq<char>, Seq<char>)>,
    r: Seq<(Seq<char>, Seq<char>)>,
    limits: Limits,
)
    ensures
        !p.empty() ==> (saturated(p.scanned()) > limits.max_scan_rows <==> admitted(p, n, q, limits)
            == Err::<Picked, Fault>(
            too_spread_out(saturated(p.scanned()), limits.max_scan_rows),
        ) && admitted(p, n, r, limits) == Err::<Picked, Fault>(
            too_spread_out(saturated(p.scanned()), limits.max_scan_rows),
        )),
{
    let scanned = saturated(p.scanned());
    if !p.empty() && scanned <= limits.max_scan_rows {
        if let Ok(limit) = params::limit_of(q, limits.default_limit) {
            let a = too_spread_out(scanned, limits.max_scan_rows);
            let b = too_many_values(
                p,
                n,
                saturated(p.values() * n),
                effective_limit(limit, limits),
            );
            if a == b {
                let (s, t) = (
                    "The query is too spread out: reading it needs "@,
                    "The query selects "@,
                );
                reveal_strlit("The query is too spread out: reading it needs ");
                reveal_strlit("The query selects ");
                let x = a->TooLarge_0;
                let y = b->TooLarge_0;
                assert(x[10] == s[10]);
                assert(y[10] == t[10]);
                assert(s[10] == 'i' && t[10] == 's');
            }
        }
    }
}

/// What a request that is served selects fits its limits: the scan is within
/// the server's ceiling, and the values, over all parameters, within it and
/// within the request's own limit.
pub proof fn served_requests_fit_their_limits(
    c: Collection,
    kind: QueryKind,
    g: crate::edr::wkt::Shape,
    q: Seq<(Seq<char>, Seq<char>)>,
    limits: Limits,
    m: Measures,
)
    requires
        resolved(c, kind, g, q, limits, m) is Ok,
    ensures
        ({
            let (names, p) = resolved(c, kind, g, q, limits, m)->Ok_0;
            &&& saturated(p.scanned()) <= limits.max_scan_rows
            &&& params::limit_of(q, limits.default_limit) is Ok
            &&& saturated(p.values() * names.len()) <= params::limit_of(
                q,
                limits.default_limit,
            )->Ok_0
            &&& saturated(p.values() * names.len()) <= limits.max_scan_rows
            &&& !p.empty()
        }),
{
}

proof fn deduped_keeps_order(s: Seq<usize>, keys: Seq<crate::double::Double>)
    requires
        cells::in_key_order(s, keys),
    ensures
        cells::in_key_order(deduped(s), keys),
        forall|i: int| 0 <= i < deduped(s).len() ==> s.contains(#[trigger] deduped(s)[i]),
    decreases s.len(),
{
    if s.len() > 0 {
        let front = s.drop_last();
        assert(cells::in_key_order(front, keys)) by {
            assert forall|i: int, j: int| 0 <= i < j < front.len() implies keys[(
            #[trigger] front[i]) as int].place() <= keys[(#[trigger] front[j]) as int].place() by {
                assert(front[i] == s[i] && front[j] == s[j]);
            }
        }
        deduped_keeps_order(front, keys);
        let d = deduped(front);
        let r = deduped(s);
        let last = s[s.len() - 1];
        assert forall|i: int| 0 <= i < d.len() implies s.contains(#[trigger] d[i]) && keys[
            d[i] as int
        ].place() <= keys[last as int].place() by {
            let k = choose|k: int| 0 <= k < front.len() && front[k] == d[i];
            assert(s[k] == d[i]);
        }
        assert forall|i: int| 0 <= i < r.len() implies s.contains(#[trigger] r[i]) by {
            if i < d.len() {
                assert(r[i] == d[i]);
            } else {
                assert(r[i] == last);
            }
        }
        assert forall|i: int, j: int| 0 <= i < j < r.len() implies keys[(
        #[trigger] r[i]) as int].place() <= keys[(#[trigger] r[j]) as int].place() by {
            assert(r[i] == d[i]);
            if j < d.len() {
                assert(r[j] == d[j]);
            }
        }
    }
}

proof fn thinning_keeps_order(
    s: Seq<usize>,
    target: Option<usize>,
    keys: Seq<crate::double::Double>,
)
    requires
        cells::in_key_order(s, keys),
        target matches Some(k) ==> k >= 1,
    ensures
        cells::in_key_order(thinned_to(s, target), keys),
{
    if let Some(k) = target {
        if 2 <= k < s.len() {
            let all = spread(s, k as int);
            let n = s.len() as int;
            assert forall|i: int, j: int| 0 <= i < j < all.len() implies keys[(
            #[trigger] all[i]) as int].place() <= keys[(#[trigger] all[j]) as int].place() by {
                spread_stays(n, k as int, i);
                spread_stays(n, k as int, j);
                spread_climbs(n, k as int, i, j);
                let (a, b) = ((i * (n - 1)) / (k - 1), (j * (n - 1)) / (k - 1));
                assert(all[i] == s[a] && all[j] == s[b]);
            }
            deduped_keeps_order(all, keys);
        }
    }
}

/// The axes of a request that is served stand in ascending order: longitudes as
/// CRS84 presents them, latitudes, and levels, whichever way the store runs and
/// however the axes were thinned.
pub proof fn axes_come_out_ascending(
    c: Collection,
    kind: QueryKind,
    g: crate::edr::wkt::Shape,
    q: Seq<(Seq<char>, Seq<char>)>,
    limits: Limits,
    m: Measures,
)
    requires
        resolved(c, kind, g, q, limits, m) is Ok,
    ensures
        ({
            let p = resolved(c, kind, g, q, limits, m)->Ok_0.1;
            &&& cells::in_key_order(p.x, c.x_crs84@)
            &&& cells::in_key_order(p.y, c.y.values@)
            &&& c.z matches Some(z) ==> cells::in_key_order(p.z, z.values@)
        }),
{
    let plan = planned(c, kind, q, m)->Ok_0;
    let r = region::region(&c, kind, g, q, m.numerals@, m.space)->Ok_0;
    let a = arranged(c, r, plan.2, plan.1);
    cells::ordering_is_exact(r.x, c.x_crs84@);
    cells::ordering_is_exact(r.y, c.y.values@);
    thinning_keeps_order(a.x, params::queried_resolution(q, "x"@)->Ok_0, c.x_crs84@);
    thinning_keeps_order(a.y, params::queried_resolution(q, "y"@)->Ok_0, c.y.values@);
    if let Some(z) = c.z {
        cells::ordering_is_exact(plan.2, z.values@);
        thinning_keeps_order(a.z, params::queried_resolution(q, "z"@)->Ok_0, z.values@);
    }
}

/// A request is refused for its parameters if and only if it names none, or one that
/// the collection does not have.
pub proof fn parameters_are_refused_if_one_is_unknown(
    c: Collection,
    q: Seq<(Seq<char>, Seq<char>)>,
)
    ensures
        requested_parameters(c, q) is Ok <==> params::named_parameters(q).len() > 0 && forall|i: int|
            0 <= i < params::named_parameters(q).len() ==> c.parameters.content().contains_key(
                #[trigger] params::named_parameters(q)[i],
            ),
        requested_parameters(c, q) matches Err(e) ==> e is BadRequest,
        requested_parameters(c, q) matches Ok(found) ==> found.no_duplicates() && forall|
            n: Seq<char>,
        | #[trigger]
            found.contains(n) <==> params::named_parameters(q).contains(n),
{
    let names = params::named_parameters(q);
    known_unless_unknown(c.parameters.content(), names, c.id@);
    if names.len() > 0 && known(c.parameters.content(), names, c.id@) is Ok {
        known_is_exact(c.parameters.content(), names, c.id@);
    }
}

proof fn known_unless_unknown(
    parameters: Map<Seq<char>, catalog::Parameter>,
    names: Seq<Seq<char>>,
    id: Seq<char>,
)
    ensures
        known(parameters, names, id) is Ok <==> forall|i: int|
            0 <= i < names.len() ==> parameters.contains_key(#[trigger] names[i]),
        known(parameters, names, id) matches Err(e) ==> e is BadRequest,
    decreases names.len(),
{
    if names.len() > 0 {
        let front = names.drop_last();
        known_unless_unknown(parameters, front, id);
        assert(names[names.len() - 1] == names.last());
        if forall|i: int| 0 <= i < names.len() ==> parameters.contains_key(#[trigger] names[i]) {
            assert forall|i: int| 0 <= i < front.len() implies parameters.contains_key(
                #[trigger] front[i],
            ) by {
                assert(front[i] == names[i]);
            }
        }
        if known(parameters, names, id) is Ok {
            assert forall|i: int| 0 <= i < names.len() implies parameters.contains_key(
                #[trigger] names[i],
            ) by {
                if i < front.len() {
                    assert(front[i] == names[i]);
                }
            }
        }
    }
}

/// Parameters stand in the order in which they were first named.
pub proof fn parameters_stand_in_the_order_they_are_named(
    parameters: Map<Seq<char>, catalog::Parameter>,
    names: Seq<Seq<char>>,
    id: Seq<char>,
    i: int,
    j: int,
)
    requires
        known(parameters, names, id) is Ok,
        0 <= i < j < known(parameters, names, id)->Ok_0.len(),
    ensures
        exists|a: int|
            0 <= a < names.len() && #[trigger] names[a] == known(parameters, names, id)->Ok_0[i]
                && forall|b: int|
                0 <= b <= a ==> #[trigger] names[b] != known(parameters, names, id)->Ok_0[j],
    decreases names.len(),
{
    let front = names.drop_last();
    let f = known(parameters, front, id)->Ok_0;
    let r = known(parameters, names, id)->Ok_0;
    known_is_exact(parameters, front, id);
    assert(r[i] == f[i]);
    if j < f.len() {
        assert(r[j] == f[j]);
        parameters_stand_in_the_order_they_are_named(parameters, front, id, i, j);
        let a = choose|a: int|
            0 <= a < front.len() && #[trigger] front[a] == f[i] && forall|b: int|
                0 <= b <= a ==> #[trigger] front[b] != f[j];
        assert(names[a] == r[i]);
        assert forall|b: int| 0 <= b <= a implies #[trigger] names[b] != r[j] by {
            assert(front[b] == names[b]);
        }
    } else {
        assert(r[j] == names.last());
        assert(f.contains(f[i]));
        let a = choose|a: int| 0 <= a < front.len() && front[a] == f[i];
        assert(names[a] == r[i]);
        assert forall|b: int| 0 <= b <= a implies #[trigger] names[b] != r[j] by {
            assert(front[b] == names[b]);
            assert(front.contains(front[b]));
        }
    }
}

/// Thinned to `target` entries, a list of different indices has as many, the first
/// and the last among them, and the gaps between them are as even as they can be:
/// they differ by one at most.
pub proof fn thinning_is_even(s: Seq<usize>, target: int)
    requires
        s.no_duplicates(),
        2 <= target <= s.len(),
    ensures
        thinned(s, target).len() == target,
        exists|at: Seq<int>|
            {
                let even = (s.len() - 1) / (target - 1);
                &&& #[trigger] at.len() == target
                &&& at[0] == 0 && at[target - 1] == s.len() - 1
                &&& forall|i: int|
                    0 <= i < target ==> 0 <= #[trigger] at[i] < s.len() && thinned(s, target)[i]
                        == s[at[i]]
                &&& forall|i: int|
                    0 <= i < target - 1 ==> even <= at[i + 1] - #[trigger] at[i] <= even + 1
            },
{
    let n = s.len() as int;
    let even = (n - 1) / (target - 1);
    if target == n {
        let at = Seq::new(n as nat, |i: int| i);
        assert(even == 1) by (nonlinear_arith)
            requires
                target == n,
                n >= 2,
                even == (n - 1) / (target - 1),
        ;
        assert(at.len() == target);
    } else {
        let d = target - 1;
        let at = Seq::new(target as nat, |i: int| (i * (n - 1)) / d);
        assert(even >= 1) by (nonlinear_arith)
            requires
                n - 1 >= d,
                d >= 1,
                even == (n - 1) / d,
        ;
        assert forall|i: int| 0 <= i < target implies 0 <= #[trigger] at[i] < n by {
            spread_stays(n, target, i);
        }
        spread_stays(n, target, 0);
        spread_stays(n, target, d);
        assert forall|i: int| 0 <= i < d implies even <= at[i + 1] - #[trigger] at[i] <= even
            + 1 by {
            gaps_are_even(i, n - 1, d);
        }
        let all = spread(s, target);
        assert forall|i: int| 0 <= i < target - 1 implies #[trigger] all[i] != all[i + 1] by {
            assert(all[i] == s[at[i]] && all[i + 1] == s[at[i + 1]]);
            assert(at[i] < at[i + 1]);
        }
        nothing_to_dedupe(all);
        assert(at.len() == target);
    }
}

proof fn gaps_are_even(i: int, m: int, d: int)
    requires
        0 <= i,
        0 <= m,
        1 <= d,
    ensures
        m / d <= ((i + 1) * m) / d - (i * m) / d <= m / d + 1,
{
    let (a, b) = (i * m, (i + 1) * m);
    assert(b == a + m) by (nonlinear_arith)
        requires
            a == i * m,
            b == (i + 1) * m,
    ;
    vstd::arithmetic::div_mod::lemma_fundamental_div_mod(a, d);
    vstd::arithmetic::div_mod::lemma_fundamental_div_mod(b, d);
    vstd::arithmetic::div_mod::lemma_fundamental_div_mod(m, d);
    vstd::arithmetic::div_mod::lemma_mod_bound(a, d);
    vstd::arithmetic::div_mod::lemma_mod_bound(b, d);
    vstd::arithmetic::div_mod::lemma_mod_bound(m, d);
    let (x, y, z) = (a / d, b / d, m / d);
    assert(d * (y - x - z) == d * y - d * x - d * z) by (nonlinear_arith);
    assert(-1 < y - x - z < 2) by (nonlinear_arith)
        requires
            d >= 1,
            -d < d * (y - x - z) < 2 * d,
    ;
}

proof fn nothing_to_dedupe(s: Seq<usize>)
    requires
        forall|i: int| 0 <= i < s.len() - 1 ==> #[trigger] s[i] != s[i + 1],
    ensures
        deduped(s) == s,
    decreases s.len(),
{
    if s.len() > 0 {
        let front = s.drop_last();
        assert forall|i: int| 0 <= i < front.len() - 1 implies #[trigger] front[i]
            != front[i + 1] by {
            assert(s[i] != s[i + 1]);
        }
        nothing_to_dedupe(front);
        if front.len() > 0 {
            assert(s[front.len() - 1] != s[front.len() - 1 + 1]);
        }
        assert(front.push(s.last()) =~= s);
    }
}

/// What spans some indices runs from the least to the greatest of them.
pub proof fn a_hull_spans_its_indices(s: Seq<usize>)
    requires
        s.len() > 0,
    ensures
        exists|i: int, j: int|
            {
                &&& 0 <= i < s.len() && 0 <= j < s.len()
                &&& hull(s) == #[trigger] s[j] - #[trigger] s[i] + 1
                &&& forall|k: int| 0 <= k < s.len() ==> s[i] <= #[trigger] s[k] <= s[j]
            },
{
    let (i, j) = ends_of(s);
    hull_is_not_negative(s);
    assert(hull(s) == s[j] - s[i] + 1);
}

pub(crate) proof fn ends_of(s: Seq<usize>) -> (r: (int, int))
    requires
        s.len() > 0,
    ensures
        0 <= r.0 < s.len(),
        0 <= r.1 < s.len(),
        s[r.0] == least(s),
        s[r.1] == greatest(s),
        forall|k: int| 0 <= k < s.len() ==> least(s) <= #[trigger] s[k] <= greatest(s),
    decreases s.len(),
{
    if s.len() == 1 {
        (0, 0)
    } else {
        let front = s.drop_last();
        let (a, b) = ends_of(front);
        let n = s.len() - 1;
        assert(front[a] == s[a] && front[b] == s[b]);
        assert forall|k: int| 0 <= k < s.len() implies least(s) <= #[trigger] s[k]
            <= greatest(s) by {
            if k < n {
                assert(front[k] == s[k]);
            }
        }
        (
            if s.last() < least(front) {
                n
            } else {
                a
            },
            if s.last() > greatest(front) {
                n
            } else {
                b
            },
        )
    }
}

/// Where the collection has no vertical axis, or no parameter varies with height, no
/// level is selected, and asking for one is refused.
pub proof fn levels_need_an_axis_that_is_used(
    c: Collection,
    levels: Option<Levels>,
    implied: Option<(crate::double::Double, crate::double::Double)>,
    names: Seq<Seq<char>>,
    m: LevelMeasure,
)
    requires
        c.z is None || forall|i: int|
            0 <= i < names.len() ==> !(c.parameters.content().contains_key(#[trigger] names[i])
                && c.parameters.content()[names[i]].uses_z),
    ensures
        match requested_levels(c, levels, implied, names, m) {
            Ok(found) => levels is None && found.len() == 0,
            Err(e) => levels is Some && e is BadRequest,
        },
{
}

/// Whether a parameter among those named varies with height.
pub open spec fn one_varies(c: Collection, names: Seq<Seq<char>>, i: int) -> bool {
    &&& 0 <= i < names.len()
    &&& c.parameters.content().contains_key(names[i])
    &&& c.parameters.content()[names[i]].uses_z
}

/// Where nothing is said of levels, or all are asked for, each of the axis is
/// selected, once and in order.
pub proof fn every_level_is_selected_by_default(
    c: Collection,
    levels: Option<Levels>,
    names: Seq<Seq<char>>,
    m: LevelMeasure,
    i: int,
)
    requires
        c.z is Some,
        one_varies(c, names, i),
        levels is None || levels == Some(Levels::All),
    ensures
        requested_levels(c, levels, None, names, m) matches Ok(found) && found.len()
            == c.z->0.values@.len() && forall|k: int|
            0 <= k < found.len() ==> #[trigger] found[k] == k,
{
    let n: usize = c.z->0.values.len();
    assert(c.z->0.values@.len() == n);
}

/// Levels between two ends are those of the axis that are not below the lower end nor
/// above the upper, and no others; it is refused where there is none. A box's own
/// bounds, whichever way round, count where `z` says nothing, and only then.
pub proof fn an_interval_of_levels_selects_those_within_it(
    c: Collection,
    lo: crate::double::Double,
    hi: crate::double::Double,
    implied: Option<(crate::double::Double, crate::double::Double)>,
    names: Seq<Seq<char>>,
    m: LevelMeasure,
    i: int,
    k: usize,
)
    requires
        c.z is Some,
        one_varies(c, names, i),
        lo.at_most(hi),
        k < c.z->0.values@.len(),
    ensures
        ({
            let v = c.z->0.values@[k as int];
            match requested_levels(c, Some(Levels::Interval(lo, hi)), implied, names, m) {
                Ok(found) => found.contains(k) <==> lo.at_most(v) && v.at_most(hi),
                Err(e) => e is NotFound && !(lo.at_most(v) && v.at_most(hi)),
            }
        }),
        implied == Some((lo, hi)) || implied == Some((hi, lo)) ==> ({
            let v = c.z->0.values@[k as int];
            match requested_levels(c, None, implied, names, m) {
                Ok(found) => found.contains(k) <==> lo.at_most(v) && v.at_most(hi),
                Err(e) => e is NotFound && !(lo.at_most(v) && v.at_most(hi)),
            }
        }),
{
    let z = c.z->0.values@;
    let n: usize = c.z->0.values.len();
    assert(z.len() == n);
    assert(any_vertical(c, names));
    axis::kept_is_exact(z.len(), |j: int| axis::in_range(z, lo, hi, j));
    let keep = |j: int| axis::in_range(z, lo, hi, j);
    assert(axis::kept(z.len(), keep).contains(k as int as usize) <==> keep(k as int));
    if let Some(b) = implied {
        let (x, y) = (b.0.lesser(b.1), b.0.greater(b.1));
        axis::kept_is_exact(z.len(), |j: int| axis::in_range(z, x, y, j));
        let also = |j: int| axis::in_range(z, x, y, j);
        assert(axis::kept(z.len(), also).contains(k as int as usize) <==> also(k as int));
    }
}

/// Whether a level is at a value, from which the levels of the axis are as far as is
/// given: within the tolerance, and none is closer.
pub open spec fn is_level_of(distances: Seq<crate::double::Double>, at: usize) -> bool {
    &&& at < distances.len()
    &&& !(crate::double::Double { bits: 0x3eb0_c6f7_a0b5_ed8d }).less(distances[at as int])
    &&& forall|j: int|
        0 <= j < distances.len() ==> distances[at as int].at_most(#[trigger] distances[j])
}

/// Whether one of some levels is at a value.
pub open spec fn one_is_level_of(found: Seq<usize>, distances: Seq<crate::double::Double>) -> bool {
    exists|j: int| 0 <= j < found.len() && is_level_of(distances, #[trigger] found[j])
}

/// Whether a level is at one of the first `n` values.
pub open spec fn is_level_of_one(
    distances: Seq<Vec<crate::double::Double>>,
    n: int,
    at: usize,
) -> bool {
    exists|k: int| 0 <= k < n && is_level_of((#[trigger] distances[k])@, at)
}

/// Whether no level of the axis is within the tolerance of a value.
pub open spec fn no_level_near(distances: Seq<crate::double::Double>) -> bool {
    forall|at: int|
        0 <= at < distances.len() ==> (crate::double::Double { bits: 0x3eb0_c6f7_a0b5_ed8d }).less(
            #[trigger] distances[at],
        )
}

/// Levels asked for by value: each value selects the level nearest to it, which is
/// within the tolerance and than which none is closer, and no level is selected that
/// no value asks for. It is refused if and only if some value has no level within
/// the tolerance.
pub proof fn values_select_the_levels_at_them(
    axis_values: Seq<crate::double::Double>,
    fixed: Seq<Seq<char>>,
    values: Seq<crate::double::Double>,
    distances: Seq<Vec<crate::double::Double>>,
    shown: Seq<String>,
)
    requires
        axis::monotonic(axis_values),
        0 < axis_values.len() <= usize::MAX,
        distances.len() >= values.len(),
        forall|k: int|
            0 <= k < values.len() ==> axis::measures(
                axis_values,
                values[k],
                (#[trigger] distances[k])@,
            ),
    ensures
        match matched_levels(axis_values, fixed, values, distances, shown) {
            Ok(found) => {
                &&& forall|k: int|
                    0 <= k < values.len() ==> one_is_level_of(found, (#[trigger] distances[k])@)
                &&& forall|j: int|
                    0 <= j < found.len() ==> is_level_of_one(
                        distances,
                        values.len() as int,
                        #[trigger] found[j],
                    )
            },
            Err(e) => e is BadRequest && exists|k: int|
                0 <= k < values.len() && no_level_near((#[trigger] distances[k])@),
        },
    decreases values.len(),
{
    if values.len() > 0 {
        let front = values.drop_last();
        let n = values.len() - 1;
        assert forall|k: int| 0 <= k < front.len() implies axis::measures(
            axis_values,
            front[k],
            (#[trigger] distances[k])@,
        ) by {
            assert(front[k] == values[k]);
        }
        values_select_the_levels_at_them(axis_values, fixed, front, distances, shown);
        let near = distances[n]@;
        assert(axis::measures(axis_values, values[n], near));
        axis::nearest_is_closest(axis_values, values[n], near);
        let at = axis::nearest_to(axis_values, values[n], near);
        match matched_levels(axis_values, fixed, front, distances, shown) {
            Ok(f) => {
                if let Ok(found) = matched_levels(axis_values, fixed, values, distances, shown) {
                    assert(is_level_of(near, at as usize));
                    one_more_level(distances, f, found, n, at as usize);
                } else {
                    assert forall|j: int| 0 <= j < near.len() implies (
                    crate::double::Double { bits: 0x3eb0_c6f7_a0b5_ed8d }).less(#[trigger] near[j]) by {
                        assert(near[at].at_most(near[j]));
                    }
                    assert(no_level_near(distances[n]@));
                }
            },
            Err(e) => {
                let k = choose|k: int|
                    0 <= k < front.len() && no_level_near((#[trigger] distances[k])@);
                assert(0 <= k < values.len() && no_level_near(distances[k]@));
            },
        }
    }
}

proof fn one_more_level(
    distances: Seq<Vec<crate::double::Double>>,
    f: Seq<usize>,
    found: Seq<usize>,
    n: int,
    at: usize,
)
    requires
        0 <= n < distances.len(),
        is_level_of(distances[n]@, at),
        found == if f.contains(at) {
            f
        } else {
            f.push(at)
        },
        forall|k: int| 0 <= k < n ==> one_is_level_of(f, (#[trigger] distances[k])@),
        forall|j: int| 0 <= j < f.len() ==> is_level_of_one(distances, n, #[trigger] f[j]),
    ensures
        forall|k: int| 0 <= k < n + 1 ==> one_is_level_of(found, (#[trigger] distances[k])@),
        forall|j: int|
            0 <= j < found.len() ==> is_level_of_one(distances, n + 1, #[trigger] found[j]),
{
    assert(found.contains(at)) by {
        if !f.contains(at) {
            assert(found[f.len() as int] == at);
        }
    }
    let spot = choose|j: int| 0 <= j < found.len() && found[j] == at;
    assert forall|k: int| 0 <= k < n + 1 implies one_is_level_of(
        found,
        (#[trigger] distances[k])@,
    ) by {
        if k < n {
            assert(one_is_level_of(f, distances[k]@));
            let j = choose|j: int|
                0 <= j < f.len() && is_level_of(distances[k]@, #[trigger] f[j]);
            assert(is_level_of(distances[k]@, found[j]));
        } else {
            assert(is_level_of(distances[k]@, found[spot]));
        }
    }
    assert forall|j: int| 0 <= j < found.len() implies is_level_of_one(
        distances,
        n + 1,
        #[trigger] found[j],
    ) by {
        if j < f.len() {
            assert(found[j] == f[j]);
            assert(is_level_of_one(distances, n, f[j]));
            let k = choose|k: int| 0 <= k < n && is_level_of((#[trigger] distances[k])@, f[j]);
            assert(is_level_of(distances[k]@, found[j]));
        } else {
            assert(is_level_of(distances[n]@, found[j]));
        }
    }
}

/// A request that is served selects what it asks for: the parameters that it names,
/// the times of its `datetime`, the levels of its `z`, and the cells of its geometry.
pub proof fn a_served_request_selects_what_it_asks_for(
    c: Collection,
    kind: QueryKind,
    g: crate::edr::wkt::Shape,
    q: Seq<(Seq<char>, Seq<char>)>,
    limits: Limits,
    m: Measures,
    cell: (usize, usize),
    level: usize,
)
    requires
        resolved(c, kind, g, q, limits, m) is Ok,
        params::value(q, "resolution-"@ + "x"@) is None,
        params::value(q, "resolution-"@ + "y"@) is None,
        params::value(q, "resolution-"@ + "z"@) is None,
    ensures
        ({
            let (names, p) = resolved(c, kind, g, q, limits, m)->Ok_0;
            let r = region::region(&c, kind, g, q, m.numerals@, m.space);
            &&& params::crs_accepted(q) is Ok
            &&& requested_parameters(c, q) == Ok::<Seq<Seq<char>>, Fault>(names)
            &&& params::queried_times(q) matches Ok(datetime) && requested_times(c, datetime)
                == Ok::<Seq<usize>, Fault>(p.t)
            &&& asked_levels(q, m.numerals@, m.rungs@) matches Ok(levels) && requested_levels(
                c,
                levels,
                implied_levels(kind, q, m.numerals@),
                names,
                m.levels,
            ) matches Ok(z) && (p.z.contains(level) <==> z.contains(level)) && p.z.len() == z.len()
            &&& r is Ok && (p.y.contains(cell.0) && p.x.contains(cell.1) && (p.mask is Some
                ==> p.mask->0.contains(cell)) <==> region::selects(r->Ok_0, cell))
            &&& p.x.len() == r->Ok_0.x.len() && p.y.len() == r->Ok_0.y.len()
        }),
{
    let plan = planned(c, kind, q, m)->Ok_0;
    let r = region::region(&c, kind, g, q, m.numerals@, m.space)->Ok_0;
    let a = arranged(c, r, plan.2, plan.1);
    ordering_keeps(r.x, c.x_crs84@, cell.1);
    ordering_keeps(r.y, c.y.values@, cell.0);
    if let Some(z) = c.z {
        ordering_keeps(plan.2, z.values@, level);
    }
    let p = resolved(c, kind, g, q, limits, m)->Ok_0.1;
    assert(p.x == a.x && p.y == a.y && p.z == a.z);
    if let Some(mask) = r.mask {
        assert(p.mask->0.contains(cell) <==> mask.contains(cell) && a.y.contains(cell.0)
            && a.x.contains(cell.1));
    }
}

proof fn ordering_keeps(s: Seq<usize>, keys: Seq<crate::double::Double>, k: usize)
    ensures
        cells::ordered_by(s, keys).contains(k) <==> s.contains(k),
        cells::ordered_by(s, keys).len() == s.len(),
{
    cells::ordering_is_exact(s, keys);
    let o = cells::ordered_by(s, keys);
    vstd::seq_lib::to_multiset_contains(s, k);
    vstd::seq_lib::to_multiset_contains(o, k);
}

/// Asked for fewer points along an axis, a request keeps points that it would have
/// without, both ends among them where there is room for two; a cell is kept where
/// its row and its column are, and no other is.
pub proof fn a_thinned_request_keeps_some_of_its_points(
    c: Collection,
    p: Picked,
    q: Seq<(Seq<char>, Seq<char>)>,
    cell: (usize, usize),
)
    requires
        at_resolution(c, p, q) is Ok,
        p.x.len() > 0,
        p.y.len() > 0,
    ensures
        ({
            let r = at_resolution(c, p, q)->Ok_0;
            let rx = params::queried_resolution(q, "x"@)->Ok_0;
            let ry = params::queried_resolution(q, "y"@)->Ok_0;
            &&& r.t == p.t
            &&& r.x.contains(cell.1) ==> p.x.contains(cell.1)
            &&& r.y.contains(cell.0) ==> p.y.contains(cell.0)
            &&& r.x.len() > 0 && r.x.first() == p.x.first()
            &&& r.y.len() > 0 && r.y.first() == p.y.first()
            &&& rx is None ==> r.x == p.x
            &&& ry is None ==> r.y == p.y
            &&& rx matches Some(n) ==> r.x.len() <= n && (n >= 2 ==> r.x.last() == p.x.last())
            &&& ry matches Some(n) ==> r.y.len() <= n && (n >= 2 ==> r.y.last() == p.y.last())
            &&& p.mask is Some == r.mask is Some
            &&& p.mask matches Some(m) ==> (r.mask->0.contains(cell) <==> m.contains(cell)
                && r.x.contains(cell.1) && r.y.contains(cell.0))
        }),
{
    let r = at_resolution(c, p, q)->Ok_0;
    if let Some(n) = params::queried_resolution(q, "x"@)->Ok_0 {
        thinning_keeps_both_ends(p.x, n as int);
        if r.x.contains(cell.1) {
            let k = choose|k: int| 0 <= k < r.x.len() && r.x[k] == cell.1;
            assert(p.x.contains(r.x[k]));
        }
    }
    if let Some(n) = params::queried_resolution(q, "y"@)->Ok_0 {
        thinning_keeps_both_ends(p.y, n as int);
        if r.y.contains(cell.0) {
            let k = choose|k: int| 0 <= k < r.y.len() && r.y[k] == cell.0;
            assert(p.y.contains(r.y[k]));
        }
    }
}

/// A selection is served if and only if it selects something, its scan is within the
/// server's ceiling, and its values, one for each cell, level, time and parameter,
/// are within both the ceiling and the limit; and then it is served as it is. One
/// that is too large is refused as such, one that selects nothing as not found.
pub proof fn a_selection_is_served_if_it_fits(
    p: Picked,
    parameters: nat,
    q: Seq<(Seq<char>, Seq<char>)>,
    limits: Limits,
    limit: usize,
)
    requires
        params::limit_of(q, limits.default_limit) == Ok::<usize, Fault>(limit),
        limits.max_scan_rows < usize::MAX,
    ensures
        ({
            let levels = if p.z.len() == 0 {
                1
            } else {
                p.z.len() as int
            };
            let count = if p.mask is Some {
                p.mask->0.len() as int
            } else {
                (p.x.len() * p.y.len()) as int
            };
            let total = count * p.t.len() * levels * parameters;
            match admitted(p, parameters, q, limits) {
                Ok(served) => served == p && total <= limit && total <= limits.max_scan_rows
                    && p.scanned() <= limits.max_scan_rows && p.x.len() > 0 && p.y.len() > 0
                    && p.t.len() > 0 && !(p.mask is Some && p.mask->0.len() == 0),
                Err(Fault::NotFound(_)) => p.x.len() == 0 || p.y.len() == 0 || p.t.len() == 0 || (
                p.mask is Some && p.mask->0.len() == 0),
                Err(Fault::TooLarge(_)) => p.scanned() > limits.max_scan_rows || total > limit
                    || total > limits.max_scan_rows,
                Err(_) => false,
            }
        }),
{
    let levels = if p.z.len() == 0 {
        1
    } else {
        p.z.len() as int
    };
    assert(at_least_one(p.z.len() as int) == levels);
}

proof fn shed_of_copies(s: Seq<char>, c: char, n: nat)
    ensures
        shed(s + Seq::new(n, |i: int| c), c) == shed(s, c),
    decreases n,
{
    let all = s + Seq::new(n, |i: int| c);
    if n == 0 {
        assert(all =~= s);
    } else {
        let m = (n - 1) as nat;
        shed_of_copies(s, c, m);
        assert(all.last() == c);
        assert(all.drop_last() =~= s + Seq::new(m, |i: int| c));
    }
}

/// A number in fixed point loses the zeros that its decimals end in, and its point
/// where no decimal is left.
pub proof fn a_number_loses_its_last_zeros(whole: Seq<char>, decimals: Seq<char>, zeros: nat)
    requires
        whole.len() > 0,
        whole.last() != '.',
        whole != "-"@,
    ensures
        shortened(whole + seq!['.'] + Seq::new(zeros, |i: int| '0')) == whole,
        decimals.len() > 0 && decimals.last() != '0' && decimals.last() != '.' ==> shortened(
            whole + seq!['.'] + decimals + Seq::new(zeros, |i: int| '0'),
        ) == whole + seq!['.'] + decimals,
{
    reveal_strlit("-");
    let pointed = whole + seq!['.'];
    shed_of_copies(pointed, '0', zeros);
    assert(pointed.last() == '.');
    assert(pointed.drop_last() =~= whole);
    assert(shed(pointed, '0') == pointed);
    assert(shed(pointed, '.') == shed(whole, '.'));
    if decimals.len() > 0 && decimals.last() != '0' && decimals.last() != '.' {
        let full = pointed + decimals;
        shed_of_copies(full, '0', zeros);
        assert(full.last() == decimals.last());
        assert(full.len() > 1);
    }
}

/// A cube's box cuts the levels where it carries vertical bounds and `z` says nothing,
/// in whichever order they stand; the box of any other query does not.
pub proof fn a_cube_is_cut_at_the_levels_of_its_box(
    kind: QueryKind,
    q: Seq<(Seq<char>, Seq<char>)>,
    numerals: Map<Seq<char>, Double>,
    z: Levels,
)
    ensures
        kind != QueryKind::Cube ==> implied_levels(kind, q, numerals) is None,
        kind == QueryKind::Cube ==> (params::queried_box(q, numerals) matches Ok(Some(b))
            ==> implied_levels(kind, q, numerals) == b.1),
        effective_levels(Some(z), implied_levels(kind, q, numerals)) == z,
        implied_levels(kind, q, numerals) is None ==> effective_levels(
            None,
            implied_levels(kind, q, numerals),
        ) == Levels::All,
        implied_levels(kind, q, numerals) matches Some(b) ==> ({
            let (lo, hi) = b;
            !lo.nan() && !hi.nan() ==> effective_levels(None, Some(b)) == if hi.less(lo) {
                Levels::Interval(hi, lo)
            } else {
                Levels::Interval(
                    lo,
                    if lo.less(hi) {
                        hi
                    } else {
                        lo
                    },
                )
            }
        }),
{
}

/// A `z` that lists or ranges over levels asks for those, and one that repeats asks
/// for the values that it steps through.
pub proof fn a_repeated_level_asks_for_its_steps(
    q: Seq<(Seq<char>, Seq<char>)>,
    numerals: Map<Seq<char>, Double>,
    rungs: Seq<Double>,
)
    ensures
        params::queried_levels(q, numerals) matches Err(e) ==> asked_levels(q, numerals, rungs)
            == Err::<Option<Levels>, Fault>(e),
        params::queried_levels(q, numerals) == Ok::<Option<params::LevelRequest>, Fault>(None)
            ==> asked_levels(q, numerals, rungs) == Ok::<Option<Levels>, Fault>(None),
        params::queried_levels(q, numerals) matches Ok(Some(params::LevelRequest::Levels(l)))
            ==> asked_levels(q, numerals, rungs) == Ok::<Option<Levels>, Fault>(Some(l)),
        params::queried_levels(q, numerals) matches Ok(
            Some(params::LevelRequest::Repeat { .. }),
        ) ==> asked_levels(q, numerals, rungs) == Ok::<Option<Levels>, Fault>(
            Some(Levels::Values(rungs)),
        ),
{
}

/// What is read of the store for a selection is the box that spans it: along each
/// axis from the least index selected to the greatest, at each time; an axis without
/// levels counts once.
pub proof fn the_scan_is_the_box_that_spans_the_selection(p: Picked)
    requires
        p.x.len() > 0,
        p.y.len() > 0,
    ensures
        p.z.len() == 0 ==> p.scanned() == hull(p.x) * hull(p.y) * p.t.len(),
        p.z.len() > 0 ==> p.scanned() == hull(p.x) * hull(p.y) * hull(p.z) * p.t.len(),
{
    if p.z.len() > 0 {
        hull_is_not_negative(p.z);
        let (i, j) = ends_of(p.z);
        assert(p.z[i] <= p.z[j]);
    }
    assert(hull(p.x) * hull(p.y) * 1 == hull(p.x) * hull(p.y)) by (nonlinear_arith);
}

/// A selection is thinned wherever each resolution that is given is a count, and that
/// of the levels is given only of a collection that has some.
pub proof fn a_resolution_of_levels_needs_levels(
    c: Collection,
    p: Picked,
    q: Seq<(Seq<char>, Seq<char>)>,
)
    ensures
        at_resolution(c, p, q) is Ok <==> {
            &&& params::queried_resolution(q, "x"@) is Ok
            &&& params::queried_resolution(q, "y"@) is Ok
            &&& params::queried_resolution(q, "z"@) is Ok
            &&& c.z is Some || params::queried_resolution(q, "z"@)->Ok_0 is None
        },
        at_resolution(c, p, q) matches Err(e) ==> e is BadRequest || params::queried_resolution(
            q,
            "x"@,
        ) is Err || params::queried_resolution(q, "y"@) is Err || params::queried_resolution(
            q,
            "z"@,
        ) is Err,
        at_resolution(c, p, q) matches Ok(r) ==> r.t == p.t && (r.mask is Some <==> p.mask is Some),
{
}

} // verus!
