//! Coordinate axes read out of the store.
//!
//! Every query eventually becomes "which indices of which axis", so the axes
//! are materialised once at startup and all snapping, range selection and
//! extent reporting is done against the real coordinate values rather than an
//! assumed grid.
use vstd::prelude::*;

use crate::double::Double;

verus! {

/// A monotonic 1-D numeric coordinate axis (latitude, longitude, level).
///
/// Latitude is commonly stored descending (90 to -90), so ascending order is
/// recorded rather than assumed and every lookup goes through it.
#[derive(Debug, Clone)]
pub struct NumericAxis {
    pub values: Vec<Double>,
    /// Whether the first value is not above the last.
    pub ascending: bool,
}

/// How an axis is spaced: the gap between its first two values, how far a gap
/// may stray from it, and how far each gap between neighbours does.
#[derive(Debug, Clone)]
pub struct Spacing {
    pub step: Double,
    pub tolerance: Double,
    pub deviations: Vec<Double>,
}

impl Spacing {
    /// Whether there is a deviation for each gap between neighbours of an axis
    /// of `n` values.
    pub open spec fn fits(&self, n: nat) -> bool {
        n >= 2 ==> self.deviations@.len() + 1 == n
    }
}

/// Whether an axis runs upwards: its first value is not above its last.
pub open spec fn runs_up(v: Seq<Double>) -> bool {
    v.len() < 2 || v.first().at_most(v.last())
}

/// The index of the value that stands at place `i` in ascending order.
pub open spec fn upward(v: Seq<Double>, i: int) -> int {
    if runs_up(v) {
        i
    } else {
        v.len() - 1 - i
    }
}

/// Whether the values rise, or fall, from one end of the axis to the other.
pub open spec fn monotonic(v: Seq<Double>) -> bool {
    forall|i: int, j: int|
        #![trigger v[upward(v, i)], v[upward(v, j)]]
        0 <= i <= j < v.len() ==> v[upward(v, i)].at_most(v[upward(v, j)])
}

/// Whether `k` is where `target` would be inserted in ascending order: all
/// values before it are below the target and, unless it is the last place, the
/// value at it is not.
pub open spec fn insertion(v: Seq<Double>, target: Double, k: int) -> bool {
    &&& 0 <= k < v.len()
    &&& forall|i: int| 0 <= i < k ==> #[trigger] v[upward(v, i)].less(target)
    &&& k < v.len() - 1 ==> !v[upward(v, k)].less(target)
}

/// Where halving the axis between two places, towards a target, ends.
pub open spec fn bisected(v: Seq<Double>, target: Double, lo: int, hi: int) -> int
    decreases hi - lo,
{
    if lo < hi {
        let mid = lo + (hi - lo) / 2;
        if v[upward(v, mid)].less(target) {
            bisected(v, target, mid + 1, hi)
        } else {
            bisected(v, target, lo, mid)
        }
    } else {
        lo
    }
}

/// The place that a lookup of `target` arrives at.
pub open spec fn place_of(v: Seq<Double>, target: Double) -> int {
    bisected(v, target, 0, v.len() - 1)
}

/// The index that a lookup of `target` settles on.
pub open spec fn nearest_to(v: Seq<Double>, target: Double, distances: Seq<Double>) -> int {
    nearest(v, distances, place_of(v, target))
}

/// A lookup stays on the axis.
pub proof fn place_is_on_axis(v: Seq<Double>, target: Double, lo: int, hi: int)
    requires
        lo <= hi,
    ensures
        lo <= bisected(v, target, lo, hi) <= hi,
    decreases hi - lo,
{
    if lo < hi {
        let mid = lo + (hi - lo) / 2;
        place_is_on_axis(v, target, mid + 1, hi);
        place_is_on_axis(v, target, lo, mid);
    }
}

proof fn bisected_is_insertion(v: Seq<Double>, target: Double, lo: int, hi: int)
    requires
        monotonic(v),
        0 <= lo <= hi < v.len(),
        forall|i: int| 0 <= i < lo ==> #[trigger] v[upward(v, i)].less(target),
        hi < v.len() - 1 ==> !v[upward(v, hi)].less(target),
    ensures
        insertion(v, target, bisected(v, target, lo, hi)),
    decreases hi - lo,
{
    if lo < hi {
        let mid = lo + (hi - lo) / 2;
        if v[upward(v, mid)].less(target) {
            assert forall|i: int| 0 <= i < mid + 1 implies #[trigger] v[upward(v, i)].less(
                target,
            ) by {
                assert(v[upward(v, i)].at_most(v[upward(v, mid)]));
            }
            bisected_is_insertion(v, target, mid + 1, hi);
        } else {
            bisected_is_insertion(v, target, lo, mid);
        }
    }
}

/// On an axis that rises or falls, a lookup arrives at the place at which the
/// target would be inserted.
pub proof fn place_is_insertion(v: Seq<Double>, target: Double)
    requires
        monotonic(v),
        v.len() > 0,
    ensures
        insertion(v, target, place_of(v, target)),
{
    bisected_is_insertion(v, target, 0, v.len() - 1);
}

/// Of the values at the insertion place and just below it, the index of the
/// one at the smaller distance, the lower one where the distances are equal.
pub open spec fn nearest(v: Seq<Double>, distances: Seq<Double>, k: int) -> int {
    if k > 0 && distances[upward(v, k - 1)].at_most(distances[upward(v, k)]) {
        upward(v, k - 1)
    } else {
        upward(v, k)
    }
}

/// Whether the value at `i` lies between the bounds, whichever way round they
/// are given.
pub open spec fn in_range(v: Seq<Double>, lo: Double, hi: Double, i: int) -> bool {
    if lo.at_most(hi) {
        lo.at_most(v[i]) && v[i].at_most(hi)
    } else {
        hi.at_most(v[i]) && v[i].at_most(lo)
    }
}

/// The indices below `n` that satisfy `keep`, in order.
pub open spec fn kept(n: nat, keep: spec_fn(int) -> bool) -> Seq<usize>
    decreases n,
{
    if n == 0 {
        Seq::empty()
    } else if keep(n - 1) {
        kept((n - 1) as nat, keep).push((n - 1) as usize)
    } else {
        kept((n - 1) as nat, keep)
    }
}

/// What [`kept`] holds: the indices that satisfy the condition, each once, in
/// order.
pub proof fn kept_is_exact(n: nat, keep: spec_fn(int) -> bool)
    requires
        n <= usize::MAX + 1,
    ensures
        forall|i: int| 0 <= i < n ==> (kept(n, keep).contains(i as usize) <==> #[trigger] keep(i)),
        forall|j: int|
            0 <= j < kept(n, keep).len() ==> 0 <= (#[trigger] kept(n, keep)[j]) < n && keep(
                kept(n, keep)[j] as int,
            ),
        forall|j: int, k: int|
            0 <= j < k < kept(n, keep).len() ==> kept(n, keep)[j] < kept(n, keep)[k],
    decreases n,
{
    if n > 0 {
        let m = (n - 1) as nat;
        let t = kept(m, keep);
        kept_is_exact(m, keep);
        assert forall|i: int| 0 <= i < n implies (kept(n, keep).contains(i as usize)
            <==> #[trigger] keep(i)) by {
            if keep(m as int) {
                let s = kept(n, keep);
                assert(s == t.push(m as usize));
                if i == m {
                    assert(s[t.len() as int] == m as usize);
                } else {
                    if t.contains(i as usize) {
                        let j = choose|j: int| 0 <= j < t.len() && t[j] == i as usize;
                        assert(s[j] == i as usize);
                    }
                    if s.contains(i as usize) {
                        let j = choose|j: int| 0 <= j < s.len() && s[j] == i as usize;
                        assert(j < t.len());
                        assert(t[j] == i as usize);
                    }
                }
            } else if i == m && t.contains(i as usize) {
                let j = choose|j: int| 0 <= j < t.len() && t[j] == i as usize;
                assert(t[j] < m);
            }
        }
    }
}

impl NumericAxis {
    /// The direction on record is the one that the values have.
    pub open spec fn wf(&self) -> bool {
        self.ascending == runs_up(self.values@)
    }

    pub fn new(values: Vec<Double>) -> (r: NumericAxis)
        ensures
            r.values@ == values@,
            r.wf(),
    {
        let ascending = values.len() < 2 || values[0].is_at_most(values[values.len() - 1]);
        NumericAxis { values, ascending }
    }

    pub fn len(&self) -> (r: usize)
        ensures
            r == self.values@.len(),
    {
        self.values.len()
    }

    pub fn is_empty(&self) -> (r: bool)
        ensures
            r == (self.values@.len() == 0),
    {
        self.values.len() == 0
    }

    /// The lower end of the axis.
    pub fn min(&self) -> (r: Double)
        requires
            self.wf(),
            self.values@.len() > 0,
        ensures
            r == self.values@[upward(self.values@, 0)],
    {
        if self.ascending {
            self.values[0]
        } else {
            self.values[self.values.len() - 1]
        }
    }

    /// The upper end of the axis.
    pub fn max(&self) -> (r: Double)
        requires
            self.wf(),
            self.values@.len() > 0,
        ensures
            r == self.values@[upward(self.values@, self.values@.len() - 1)],
    {
        if self.ascending {
            self.values[self.values.len() - 1]
        } else {
            self.values[0]
        }
    }

    /// Nominal spacing, or `None` for an irregular axis such as a set of
    /// pressure levels. `spacing` is how the values of this axis are spaced.
    pub fn step(&self, spacing: &Spacing) -> (r: Option<Double>)
        requires
            spacing.fits(self.values@.len()),
        ensures
            r == (if self.values@.len() >= 2 && forall|i: int|
                0 <= i < spacing.deviations@.len() ==> (#[trigger] spacing.deviations@[i]).less(
                    spacing.tolerance,
                ) {
                Some(spacing.step)
            } else {
                None
            }),
    {
        if self.values.len() < 2 {
            return None;
        }
        let mut i: usize = 0;
        while i < spacing.deviations.len()
            invariant
                i <= spacing.deviations@.len(),
                forall|j: int|
                    0 <= j < i ==> (#[trigger] spacing.deviations@[j]).less(spacing.tolerance),
            decreases spacing.deviations@.len() - i,
        {
            if !spacing.deviations[i].is_less(spacing.tolerance) {
                return None;
            }
            i += 1;
        }
        Some(spacing.step)
    }

    /// Index of the coordinate closest to `target`, where `distances` holds
    /// how far each coordinate is from it.
    pub fn nearest_index(&self, target: Double, distances: &Vec<Double>) -> (r: usize)
        requires
            self.wf(),
            self.values@.len() > 0,
            distances@.len() == self.values@.len(),
        ensures
            r < self.values@.len(),
            r == nearest_to(self.values@, target, distances@),
    {
        let n: usize = self.values.len();
        let ghost v = self.values@;
        let mut lo: usize = 0;
        let mut hi: usize = n - 1;
        while lo < hi
            invariant
                self.wf(),
                v == self.values@,
                n == v.len(),
                lo <= hi < n,
                place_of(v, target) == bisected(v, target, lo as int, hi as int),
            decreases hi - lo,
        {
            let mid: usize = lo + (hi - lo) / 2;
            let at: usize = if self.ascending {
                mid
            } else {
                n - 1 - mid
            };
            assert(at == upward(v, mid as int));
            if self.values[at].is_less(target) {
                lo = mid + 1;
            } else {
                hi = mid;
            }
        }
        let at: usize = if self.ascending {
            lo
        } else {
            n - 1 - lo
        };
        if lo > 0 {
            let below: usize = if self.ascending {
                lo - 1
            } else {
                n - lo
            };
            assert(below == upward(v, lo - 1));
            if distances[below].is_at_most(distances[at]) {
                return below;
            }
        }
        at
    }

    /// All indices whose value falls in `[lo, hi]`, in axis storage order.
    pub fn indices_in_range(&self, lo: Double, hi: Double) -> (r: Vec<usize>)
        ensures
            r@ == kept(self.values@.len(), |i: int| in_range(self.values@, lo, hi, i)),
    {
        let mut out: Vec<usize> = Vec::new();
        let mut i: usize = 0;
        let ghost keep = |i: int| in_range(self.values@, lo, hi, i);
        while i < self.values.len()
            invariant
                i <= self.values@.len(),
                out@ == kept(i as nat, keep),
                keep == (|i: int| in_range(self.values@, lo, hi, i)),
            decreases self.values@.len() - i,
        {
            if self.lies_between(lo, hi, i) {
                out.push(i);
            }
            i += 1;
        }
        out
    }

    /// Whether the value at `i` lies between the bounds, whichever way round they
    /// are given.
    pub fn lies_between(&self, lo: Double, hi: Double, i: usize) -> (r: bool)
        requires
            i < self.values@.len(),
        ensures
            r == in_range(self.values@, lo, hi, i as int),
    {
        let v = self.values[i];
        if lo.is_at_most(hi) {
            lo.is_at_most(v) && v.is_at_most(hi)
        } else {
            hi.is_at_most(v) && v.is_at_most(lo)
        }
    }
}

/// There is one place at which a target is inserted.
pub proof fn insertion_is_unique(v: Seq<Double>, target: Double, a: int, b: int)
    requires
        insertion(v, target, a),
        insertion(v, target, b),
    ensures
        a == b,
{
    if a < b {
        assert(v[upward(v, a)].less(target));
    } else if b < a {
        assert(v[upward(v, b)].less(target));
    }
}

/// Whether `distances` grows away from `target` on either side: of two values
/// on one side of it, the one further out is not the nearer.
pub open spec fn measures(v: Seq<Double>, target: Double, distances: Seq<Double>) -> bool {
    &&& distances.len() == v.len()
    &&& forall|i: int| 0 <= i < v.len() ==> !(#[trigger] distances[i]).nan()
    &&& forall|i: int, j: int|
        #![trigger distances[upward(v, i)], distances[upward(v, j)]]
        0 <= i <= j < v.len() && v[upward(v, j)].less(target) ==> distances[upward(
            v,
            j,
        )].at_most(distances[upward(v, i)])
    &&& forall|i: int, j: int|
        #![trigger distances[upward(v, i)], distances[upward(v, j)]]
        0 <= i <= j < v.len() && !v[upward(v, i)].less(target) ==> distances[upward(
            v,
            i,
        )].at_most(distances[upward(v, j)])
}

/// The index that a lookup settles on is that of a coordinate than which none
/// is closer to the target.
pub proof fn nearest_is_closest(v: Seq<Double>, target: Double, distances: Seq<Double>)
    requires
        monotonic(v),
        v.len() > 0,
        measures(v, target, distances),
    ensures
        0 <= nearest_to(v, target, distances) < v.len(),
        forall|j: int|
            0 <= j < v.len() ==> distances[nearest_to(v, target, distances)].at_most(
                #[trigger] distances[j],
            ),
{
    let n = v.len();
    let k = place_of(v, target);
    place_is_insertion(v, target);
    assert forall|j: int| 0 <= j < n implies distances[nearest(v, distances, k)].at_most(
        #[trigger] distances[j],
    ) by {
        let p = upward(v, j);
        assert(upward(v, p) == j);
        let at = distances[upward(v, k)];
        if p >= k {
            if v[upward(v, k)].less(target) {
                assert(k == n - 1);
                assert(p == k);
            } else {
                assert(at.at_most(distances[upward(v, p)]));
            }
            assert(at.at_most(distances[j]));
        } else {
            assert(v[upward(v, k - 1)].less(target));
            assert(distances[upward(v, k - 1)].at_most(distances[upward(v, p)]));
        }
    }
}

/// The time axis, held as microseconds since the Unix epoch.
#[derive(Debug, Clone)]
pub struct TimeAxis {
    pub values: Vec<i64>,
}

/// Whether the times rise.
pub open spec fn rising(v: Seq<i64>) -> bool {
    forall|i: int, j: int| 0 <= i <= j < v.len() ==> v[i] <= v[j]
}

/// Where halving the times between two places, towards the first that is not
/// before `t`, or with `through` the first after it, ends.
pub open spec fn halved(v: Seq<i64>, t: i64, through: bool, lo: int, hi: int) -> int
    decreases hi - lo,
{
    if lo < hi {
        let mid = lo + (hi - lo) / 2;
        if v[mid] < t || (through && v[mid] == t) {
            halved(v, t, through, mid + 1, hi)
        } else {
            halved(v, t, through, lo, mid)
        }
    } else {
        lo
    }
}

/// How many leading times are before `t`, or, with `through`, not after it.
pub open spec fn leading(v: Seq<i64>, t: i64, through: bool) -> int {
    halved(v, t, through, 0, v.len() as int)
}

/// The index of the time that a lookup settles on; of two equally close, the
/// earlier.
pub open spec fn nearest_time(v: Seq<i64>, target: i64) -> int {
    let i = leading(v, target, false);
    if i == 0 {
        0
    } else if i >= v.len() {
        v.len() - 1
    } else if target - v[i - 1] <= v[i] - target {
        i - 1
    } else {
        i
    }
}

/// The last place whose time lies within a span, where there is one.
pub open spec fn latest_within(v: Seq<i64>, lo: i64, hi: i64) -> Option<int>
    decreases v.len(),
{
    if v.len() == 0 {
        None
    } else if lo <= v.last() <= hi {
        Some(v.len() - 1)
    } else {
        latest_within(v.drop_last(), lo, hi)
    }
}

/// The place that a lookup settles on among the times within a span: the one it
/// settles on among all of them, or the end of the span that is next to it.
pub open spec fn nearest_within(v: Seq<i64>, lo: i64, hi: i64, target: i64) -> Option<int> {
    let start = leading(v, lo, false);
    let end = leading(v, hi, true);
    let at = nearest_time(v, target);
    if start >= end {
        None
    } else if at < start {
        Some(start)
    } else if at >= end {
        Some(end - 1)
    } else {
        Some(at)
    }
}

proof fn halved_is_boundary(v: Seq<i64>, t: i64, through: bool, lo: int, hi: int)
    requires
        0 <= lo <= hi <= v.len(),
    ensures
        lo <= halved(v, t, through, lo, hi) <= hi,
        rising(v) && (forall|i: int| 0 <= i < lo ==> #[trigger] v[i] < t || (through && v[i] == t))
            && (forall|i: int|
            hi <= i < v.len() ==> !(#[trigger] v[i] < t || (through && v[i] == t))) ==> {
            &&& forall|i: int|
                0 <= i < halved(v, t, through, lo, hi) ==> #[trigger] v[i] < t || (through && v[i]
                    == t)
            &&& forall|i: int|
                halved(v, t, through, lo, hi) <= i < v.len() ==> !(#[trigger] v[i] < t || (through
                    && v[i] == t))
        },
    decreases hi - lo,
{
    if lo < hi {
        let mid = lo + (hi - lo) / 2;
        halved_is_boundary(v, t, through, mid + 1, hi);
        halved_is_boundary(v, t, through, lo, mid);
    }
}

/// On an axis that rises, the leading times are those before `t`, or not after
/// it, and no others.
pub proof fn leading_is_exact(v: Seq<i64>, t: i64, through: bool)
    ensures
        0 <= leading(v, t, through) <= v.len(),
        rising(v) ==> forall|i: int|
            0 <= i < v.len() ==> (i < leading(v, t, through) <==> (#[trigger] v[i] < t || (through
                && v[i] == t))),
{
    halved_is_boundary(v, t, through, 0, v.len() as int);
}

pub open spec fn apart(a: i64, b: i64) -> int {
    if a <= b {
        b - a
    } else {
        a - b
    }
}

impl TimeAxis {
    pub fn new(values: Vec<i64>) -> (r: TimeAxis)
        ensures
            r.values@ == values@,
    {
        TimeAxis { values }
    }

    pub fn len(&self) -> (r: usize)
        ensures
            r == self.values@.len(),
    {
        self.values.len()
    }

    pub fn is_empty(&self) -> (r: bool)
        ensures
            r == (self.values@.len() == 0),
    {
        self.values.len() == 0
    }

    /// Nominal spacing in microseconds, or `None` if the axis is irregular.
    ///
    /// Used to step a time picker by the cadence the store actually holds, so
    /// an instant between two timesteps cannot be chosen.
    pub fn step(&self) -> (r: Option<i64>)
        ensures
            match r {
                Some(step) => {
                    &&& step > 0
                    &&& self.values@.len() >= 2
                    &&& forall|i: int|
                        0 <= i < self.values@.len() - 1 ==> #[trigger] self.values@[i] + step
                            == self.values@[i + 1]
                },
                None => {
                    ||| self.values@.len() < 2
                    ||| !(0 < self.values@[1] - self.values@[0] <= i64::MAX)
                    ||| exists|i: int|
                        0 <= i < self.values@.len() - 1 && #[trigger] self.values@[i] + (
                        self.values@[1] - self.values@[0]) != self.values@[i + 1]
                },
            },
    {
        let n: usize = self.values.len();
        if n < 2 {
            return None;
        }
        let step: i128 = self.values[1] as i128 - self.values[0] as i128;
        if step <= 0 || step > i64::MAX as i128 {
            return None;
        }
        let mut i: usize = 0;
        while i < n - 1
            invariant
                n == self.values@.len(),
                n >= 2,
                i <= n - 1,
                step == self.values@[1] - self.values@[0],
                forall|j: int|
                    0 <= j < i ==> #[trigger] self.values@[j] + step == self.values@[j + 1],
            decreases n - i,
        {
            if self.values[i + 1] as i128 - self.values[i] as i128 != step {
                assert(self.values@[i as int] + step != self.values@[i + 1]);
                return None;
            }
            i += 1;
        }
        Some(step as i64)
    }

    /// How many leading times are before `t`, or, with `through`, not after it.
    fn count_before(&self, t: i64, through: bool) -> (r: usize)
        ensures
            r == leading(self.values@, t, through),
            r <= self.values@.len(),
    {
        let ghost v = self.values@;
        let mut lo: usize = 0;
        let mut hi: usize = self.values.len();
        while lo < hi
            invariant
                v == self.values@,
                lo <= hi <= v.len(),
                leading(v, t, through) == halved(v, t, through, lo as int, hi as int),
            decreases hi - lo,
        {
            let mid: usize = lo + (hi - lo) / 2;
            let at: i64 = self.values[mid];
            if at < t || (through && at == t) {
                lo = mid + 1;
            } else {
                hi = mid;
            }
        }
        lo
    }

    /// Index of the time closest to `target`; of two equally close, the
    /// earlier. An empty axis gives 0.
    pub fn nearest_index(&self, target: i64) -> (r: usize)
        ensures
            r == nearest_time(self.values@, target),
            self.values@.len() > 0 ==> r < self.values@.len(),
    {
        let n: usize = self.values.len();
        let i: usize = self.count_before(target, false);
        if i == 0 {
            return 0;
        }
        if i >= n {
            return n - 1;
        }
        let below: i128 = target as i128 - self.values[i - 1] as i128;
        let above: i128 = self.values[i] as i128 - target as i128;
        if below <= above {
            i - 1
        } else {
            i
        }
    }

    /// Index of the last time within `lo` and `hi`, or `None` where the axis has
    /// no time there.
    pub fn latest_in_range(&self, lo: i64, hi: i64) -> (r: Option<usize>)
        ensures
            match r {
                Some(i) => {
                    &&& latest_within(self.values@, lo, hi) == Some(i as int)
                    &&& i < self.values@.len()
                },
                None => latest_within(self.values@, lo, hi) is None,
            },
    {
        let ghost v = self.values@;
        let mut i: usize = self.values.len();
        assert(v.take(i as int) == v);
        while i > 0
            invariant
                v == self.values@,
                i <= v.len(),
                latest_within(v, lo, hi) == latest_within(v.take(i as int), lo, hi),
            decreases i,
        {
            assert(v.take(i as int).last() == v[i - 1]);
            assert(v.take(i as int).drop_last() == v.take(i - 1));
            let at: i64 = self.values[i - 1];
            if lo <= at && at <= hi {
                return Some(i - 1);
            }
            i -= 1;
        }
        None
    }

    /// Index of the time closest to `target` among those within `lo` and `hi`; of
    /// two equally close, the earlier. `None` where the axis has no time there.
    pub fn nearest_in_range(&self, lo: i64, hi: i64, target: i64) -> (r: Option<usize>)
        ensures
            match r {
                Some(i) => {
                    &&& nearest_within(self.values@, lo, hi, target) == Some(i as int)
                    &&& i < self.values@.len()
                },
                None => nearest_within(self.values@, lo, hi, target) is None,
            },
    {
        let range = self.indices_in_range(lo, hi);
        if range.start >= range.end {
            return None;
        }
        let at: usize = self.nearest_index(target);
        if at < range.start {
            Some(range.start)
        } else if at >= range.end {
            Some(range.end - 1)
        } else {
            Some(at)
        }
    }

    /// Inclusive range lookup: the indices with `lo <= t <= hi`.
    pub fn indices_in_range(&self, lo: i64, hi: i64) -> (r: core::ops::Range<usize>)
        ensures
            r.start == leading(self.values@, lo, false),
            r.end == leading(self.values@, hi, true),
            r.start <= self.values@.len(),
            r.end <= self.values@.len(),
            rising(self.values@) ==> forall|i: int|
                0 <= i < self.values@.len() ==> (r.start <= i < r.end <==> lo <= (
                #[trigger] self.values@[i]) <= hi),
    {
        let start: usize = self.count_before(lo, false);
        let end: usize = self.count_before(hi, true);
        proof {
            leading_is_exact(self.values@, lo, false);
            leading_is_exact(self.values@, hi, true);
        }
        start..end
    }
}

/// On an axis that rises, the time that a lookup settles on is one than which
/// none is closer to the target, and no earlier one is as close.
pub proof fn nearest_time_is_closest(v: Seq<i64>, target: i64)
    requires
        rising(v),
        v.len() > 0,
    ensures
        0 <= nearest_time(v, target) < v.len(),
        forall|j: int|
            0 <= j < v.len() ==> apart(v[nearest_time(v, target)], target) <= apart(
                #[trigger] v[j],
                target,
            ),
        forall|j: int|
            0 <= j < nearest_time(v, target) && #[trigger] v[j] != v[nearest_time(v, target)]
                ==> apart(v[nearest_time(v, target)], target) < apart(v[j], target),
{
    leading_is_exact(v, target, false);
}

/// The last place within a span holds a time of the span, and no later place
/// does; where there is none, no time lies within it.
pub proof fn latest_within_is_last(v: Seq<i64>, lo: i64, hi: i64)
    ensures
        match latest_within(v, lo, hi) {
            Some(k) => {
                &&& 0 <= k < v.len()
                &&& lo <= v[k] <= hi
                &&& forall|j: int| k < j < v.len() ==> !(lo <= #[trigger] v[j] <= hi)
            },
            None => forall|j: int| 0 <= j < v.len() ==> !(lo <= #[trigger] v[j] <= hi),
        },
    decreases v.len(),
{
    if v.len() > 0 && !(lo <= v.last() <= hi) {
        let front = v.drop_last();
        latest_within_is_last(front, lo, hi);
        assert forall|j: int| 0 <= j < v.len() implies (#[trigger] v[j] == v.last() || v[j]
            == front[j]) by {
            if j < front.len() {
                assert(front[j] == v[j]);
            }
        }
        match latest_within(front, lo, hi) {
            Some(k) => {
                assert forall|j: int| k < j < v.len() implies !(lo <= #[trigger] v[j] <= hi) by {
                    if j < front.len() {
                        assert(front[j] == v[j]);
                    }
                }
            },
            None => {
                assert forall|j: int| 0 <= j < v.len() implies !(lo <= #[trigger] v[j] <= hi) by {
                    if j < front.len() {
                        assert(front[j] == v[j]);
                    }
                }
            },
        }
    }
}

/// On an axis that rises, a lookup within a span settles on a time of the span
/// than which no other of the span is closer to the target, and no earlier one as
/// close; where there is none, no time lies within it.
pub proof fn nearest_within_is_closest(v: Seq<i64>, lo: i64, hi: i64, target: i64)
    requires
        rising(v),
        lo <= target <= hi,
    ensures
        match nearest_within(v, lo, hi, target) {
            Some(k) => {
                &&& 0 <= k < v.len()
                &&& lo <= v[k] <= hi
                &&& forall|j: int|
                    0 <= j < v.len() && lo <= #[trigger] v[j] <= hi ==> apart(v[k], target)
                        <= apart(v[j], target)
                &&& forall|j: int|
                    0 <= j < k && lo <= #[trigger] v[j] <= hi && v[j] != v[k] ==> apart(
                        v[k],
                        target,
                    ) < apart(v[j], target)
            },
            None => forall|j: int| 0 <= j < v.len() ==> !(lo <= #[trigger] v[j] <= hi),
        },
{
    leading_is_exact(v, lo, false);
    leading_is_exact(v, hi, true);
    leading_is_exact(v, target, false);
    if v.len() > 0 {
        nearest_time_is_closest(v, target);
    }
}

/// A target that is as far from the coordinate below it as from the one above
/// settles on the one below.
pub proof fn of_two_as_close_the_lower_counts(
    v: Seq<Double>,
    target: Double,
    distances: Seq<Double>,
    k: int,
)
    requires
        monotonic(v),
        0 < k < v.len(),
        v[upward(v, k - 1)].less(target),
        target.at_most(v[upward(v, k)]),
        distances[upward(v, k - 1)].equal(distances[upward(v, k)]),
    ensures
        nearest_to(v, target, distances) == upward(v, k - 1),
{
    place_is_insertion(v, target);
    assert forall|i: int| 0 <= i < k implies v[#[trigger] upward(v, i)].less(target) by {
        assert(v[upward(v, i)].at_most(v[upward(v, k - 1)]));
    }
    assert(insertion(v, target, k));
    insertion_is_unique(v, target, place_of(v, target), k);
}

/// A coordinate lies in a range where it is between its two ends, in whichever order
/// they are given.
pub proof fn a_range_has_no_direction(v: Seq<Double>, lo: Double, hi: Double, i: int)
    requires
        !lo.nan(),
        !hi.nan(),
    ensures
        in_range(v, lo, hi, i) == in_range(v, hi, lo, i),
        lo.at_most(hi) ==> (in_range(v, lo, hi, i) <==> !v[i].nan() && !v[i].less(lo)
            && !hi.less(v[i])),
{
}

} // verus!
