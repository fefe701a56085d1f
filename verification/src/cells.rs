//! Index lists and sets of grid cells.
use vstd::prelude::*;

use crate::double::Double;

verus! {

/// Whether every index is below those after it.
pub open spec fn climbing(s: Seq<usize>) -> bool {
    forall|i: int, j: int| 0 <= i < j < s.len() ==> s[i] < s[j]
}

/// Two climbing lists of the same indices are the same list.
pub proof fn climbing_is_canonical(s: Seq<usize>, t: Seq<usize>)
    requires
        climbing(s),
        climbing(t),
        s.to_set() == t.to_set(),
    ensures
        s == t,
    decreases s.len(),
{
    assert forall|i: int| 0 <= i < s.len() implies t.contains(#[trigger] s[i]) by {
        assert(s.to_set().contains(s[i]));
        assert(t.to_set().contains(s[i]));
    }
    assert forall|i: int| 0 <= i < t.len() implies s.contains(#[trigger] t[i]) by {
        assert(t.to_set().contains(t[i]));
        assert(s.to_set().contains(t[i]));
    }
    same_climb(s, t);
}

proof fn same_climb(s: Seq<usize>, t: Seq<usize>)
    requires
        climbing(s),
        climbing(t),
        forall|i: int| 0 <= i < s.len() ==> t.contains(#[trigger] s[i]),
        forall|i: int| 0 <= i < t.len() ==> s.contains(#[trigger] t[i]),
    ensures
        s == t,
    decreases s.len(),
{
    if s.len() == 0 {
        if t.len() > 0 {
            assert(s.contains(t[0]));
        }
    } else {
        let (m, n) = (s.len() - 1, t.len() - 1);
        assert(t.contains(s[m]));
        let p = choose|p: int| 0 <= p < t.len() && t[p] == s[m];
        assert(s.contains(t[n]));
        let q = choose|q: int| 0 <= q < s.len() && s[q] == t[n];
        assert(p == n && q == m);
        let (u, v) = (s.drop_last(), t.drop_last());
        assert forall|i: int| 0 <= i < u.len() implies v.contains(#[trigger] u[i]) by {
            assert(t.contains(s[i]));
            let k = choose|k: int| 0 <= k < t.len() && t[k] == s[i];
            assert(k != n);
            assert(v[k] == s[i]);
        }
        assert forall|i: int| 0 <= i < v.len() implies u.contains(#[trigger] v[i]) by {
            assert(s.contains(t[i]));
            let k = choose|k: int| 0 <= k < s.len() && s[k] == t[i];
            assert(k != m);
            assert(u[k] == t[i]);
        }
        same_climb(u, v);
        assert(s == u.push(s[m]));
        assert(t == v.push(t[n]));
    }
}

/// The indices of a list, each once, in ascending order.
pub open spec fn ascending(s: Seq<usize>) -> Seq<usize> {
    choose|t: Seq<usize>| climbing(t) && #[trigger] t.to_set() == s.to_set()
}

/// Put the indices of a list in ascending order, each once.
pub fn distinct(v: &Vec<usize>) -> (r: Vec<usize>)
    ensures
        climbing(r@),
        r@.to_set() == v@.to_set(),
        r@ == ascending(v@),
{
    let mut out: Vec<usize> = Vec::new();
    let mut i: usize = 0;
    assert(out@.to_set() == v@.take(0).to_set());
    while i < v.len()
        invariant
            i <= v.len(),
            climbing(out@),
            out@.to_set() == v@.take(i as int).to_set(),
        decreases v.len() - i,
    {
        let x: usize = v[i];
        let ghost before = out@;
        let mut lo: usize = 0;
        let mut hi: usize = out.len();
        while lo < hi
            invariant
                lo <= hi <= out@.len(),
                climbing(out@),
                forall|j: int| 0 <= j < lo ==> out@[j] < x,
                forall|j: int| hi <= j < out@.len() ==> out@[j] >= x,
            decreases hi - lo,
        {
            let mid: usize = lo + (hi - lo) / 2;
            if out[mid] < x {
                lo = mid + 1;
            } else {
                hi = mid;
            }
        }
        if lo == out.len() || out[lo] != x {
            out.insert(lo, x);
            proof {
                assert forall|y: usize| out@.to_set().contains(y) <==> before.to_set().insert(
                    x,
                ).contains(y) by {
                    if before.contains(y) {
                        let j = choose|j: int| 0 <= j < before.len() && before[j] == y;
                        assert(out@[if j < lo {
                            j
                        } else {
                            j + 1
                        }] == y);
                    }
                    if out@.contains(y) {
                        let j = choose|j: int| 0 <= j < out@.len() && out@[j] == y;
                        if j < lo {
                            assert(before[j] == y);
                        } else if j > lo {
                            assert(before[j - 1] == y);
                        }
                    }
                    assert(out@[lo as int] == x);
                }
                assert(out@.to_set() =~= before.to_set().insert(x));
            }
        } else {
            assert(before.to_set() =~= before.to_set().insert(x)) by {
                assert(before[lo as int] == x);
                assert(before.to_set().contains(x));
            }
        }
        proof {
            let (s, t) = (v@.take(i as int), v@.take(i + 1));
            assert(t == s.push(x));
            assert forall|y: usize| t.to_set().contains(y) <==> s.to_set().insert(x).contains(
                y,
            ) by {
                if s.contains(y) {
                    let j = choose|j: int| 0 <= j < s.len() && s[j] == y;
                    assert(t[j] == y);
                }
                if t.contains(y) {
                    let j = choose|j: int| 0 <= j < t.len() && t[j] == y;
                    if j < s.len() {
                        assert(s[j] == y);
                    }
                }
                assert(t[s.len() as int] == x);
            }
            assert(t.to_set() =~= s.to_set().insert(x));
        }
        i += 1;
    }
    proof {
        assert(v@.take(i as int) == v@);
        climbing_is_canonical(out@, ascending(v@));
    }
    out
}

/// Whether a cell comes before another: rows first, then columns.
pub open spec fn earlier(a: (usize, usize), b: (usize, usize)) -> bool {
    a.0 < b.0 || (a.0 == b.0 && a.1 < b.1)
}

/// A set of `(y, x)` cells, held in row-major order.
#[derive(Debug)]
pub struct CellSet {
    pub cells: Vec<(usize, usize)>,
}

/// Whether cells stand in row-major order, each once.
pub open spec fn row_major(s: Seq<(usize, usize)>) -> bool {
    forall|i: int, j: int| 0 <= i < j < s.len() ==> earlier(#[trigger] s[i], #[trigger] s[j])
}

impl View for CellSet {
    type V = Set<(usize, usize)>;

    open spec fn view(&self) -> Set<(usize, usize)> {
        self.cells@.to_set()
    }
}

impl CellSet {
    pub open spec fn wf(&self) -> bool {
        row_major(self.cells@)
    }

    pub fn new() -> (r: CellSet)
        ensures
            r.wf(),
            r@ == Set::<(usize, usize)>::empty(),
    {
        let r = CellSet { cells: Vec::new() };
        assert(r@ =~= Set::<(usize, usize)>::empty());
        r
    }

    /// How many cells the set holds.
    pub fn len(&self) -> (r: usize)
        requires
            self.wf(),
        ensures
            r == self@.len(),
            r == self.cells@.len(),
            self@.finite(),
    {
        proof {
            assert(self.cells@.no_duplicates());
            self.cells@.unique_seq_to_set();
        }
        self.cells.len()
    }

    /// Where a cell stands, or where it would be inserted.
    fn place(&self, cell: (usize, usize)) -> (r: (bool, usize))
        requires
            self.wf(),
        ensures
            r.1 <= self.cells@.len(),
            r.0 == self@.contains(cell),
            r.0 ==> r.1 < self.cells@.len() && self.cells@[r.1 as int] == cell,
            !r.0 ==> forall|j: int| 0 <= j < r.1 ==> earlier(#[trigger] self.cells@[j], cell),
            !r.0 ==> forall|j: int|
                r.1 <= j < self.cells@.len() ==> earlier(cell, #[trigger] self.cells@[j]),
    {
        let mut lo: usize = 0;
        let mut hi: usize = self.cells.len();
        while lo < hi
            invariant
                self.wf(),
                lo <= hi <= self.cells@.len(),
                forall|j: int| 0 <= j < lo ==> earlier(#[trigger] self.cells@[j], cell),
                forall|j: int|
                    hi <= j < self.cells@.len() ==> earlier(cell, #[trigger] self.cells@[j]),
            decreases hi - lo,
        {
            let mid: usize = lo + (hi - lo) / 2;
            let (y, x) = self.cells[mid];
            if y == cell.0 && x == cell.1 {
                assert(self.cells@[mid as int] == cell);
                return (true, mid);
            }
            if y < cell.0 || (y == cell.0 && x < cell.1) {
                lo = mid + 1;
            } else {
                hi = mid;
            }
        }
        assert(!self@.contains(cell)) by {
            if self.cells@.contains(cell) {
                let j = choose|j: int| 0 <= j < self.cells@.len() && self.cells@[j] == cell;
                assert(earlier(self.cells@[j], cell) || earlier(cell, self.cells@[j]));
            }
        }
        (false, lo)
    }

    pub fn contains(&self, cell: (usize, usize)) -> (r: bool)
        requires
            self.wf(),
        ensures
            r == self@.contains(cell),
    {
        self.place(cell).0
    }

    pub fn insert(&mut self, cell: (usize, usize))
        requires
            old(self).wf(),
        ensures
            final(self).wf(),
            final(self)@ == old(self)@.insert(cell),
    {
        let (found, at) = self.place(cell);
        let ghost before = self.cells@;
        if found {
            assert(self@ =~= self@.insert(cell));
            return;
        }
        self.cells.insert(at, cell);
        proof {
            let now = self.cells@;
            assert forall|i: int, j: int| 0 <= i < j < now.len() implies earlier(
                #[trigger] now[i],
                #[trigger] now[j],
            ) by {
                let back = |k: int| if k < at {
                    k
                } else {
                    k - 1
                };
                if i != at {
                    assert(now[i] == before[back(i)]);
                }
                if j != at {
                    assert(now[j] == before[back(j)]);
                }
            }
            assert forall|c: (usize, usize)| now.to_set().contains(c)
                <==> before.to_set().insert(cell).contains(c) by {
                if before.contains(c) {
                    let j = choose|j: int| 0 <= j < before.len() && before[j] == c;
                    assert(now[if j < at {
                        j
                    } else {
                        j + 1
                    }] == c);
                }
                if now.contains(c) {
                    let j = choose|j: int| 0 <= j < now.len() && now[j] == c;
                    if j < at {
                        assert(before[j] == c);
                    } else if j > at {
                        assert(before[j - 1] == c);
                    }
                }
                assert(now[at as int] == cell);
            }
            assert(now.to_set() =~= before.to_set().insert(cell));
        }
    }

    /// The cells of a list.
    pub fn of(list: &Vec<(usize, usize)>) -> (r: CellSet)
        ensures
            r.wf(),
            r@ == list@.to_set(),
    {
        let mut out = CellSet::new();
        let mut i: usize = 0;
        assert(out@ == list@.take(0).to_set());
        while i < list.len()
            invariant
                i <= list.len(),
                out.wf(),
                out@ == list@.take(i as int).to_set(),
            decreases list.len() - i,
        {
            out.insert(list[i]);
            proof {
                let (s, t) = (list@.take(i as int), list@.take(i + 1));
                let x = list@[i as int];
                assert(t == s.push(x));
                assert forall|y: (usize, usize)| t.to_set().contains(y)
                    <==> s.to_set().insert(x).contains(y) by {
                    if s.contains(y) {
                        let j = choose|j: int| 0 <= j < s.len() && s[j] == y;
                        assert(t[j] == y);
                    }
                    if t.contains(y) {
                        let j = choose|j: int| 0 <= j < t.len() && t[j] == y;
                        if j < s.len() {
                            assert(s[j] == y);
                        }
                    }
                    assert(t[s.len() as int] == x);
                }
                assert(t.to_set() =~= s.to_set().insert(x));
            }
            i += 1;
        }
        assert(list@.take(i as int) == list@);
        out
    }
}

/// An index put behind those of a list, ordered by key, whose keys are not
/// above its own.
pub open spec fn placed_by(s: Seq<usize>, keys: Seq<Double>, x: usize) -> Seq<usize>
    decreases s.len(),
{
    if s.len() == 0 || keys[s.last() as int].place() <= keys[x as int].place() {
        s.push(x)
    } else {
        placed_by(s.drop_last(), keys, x).push(s.last())
    }
}

/// Indices in the order of their keys; of equals, the one that came first.
pub open spec fn ordered_by(s: Seq<usize>, keys: Seq<Double>) -> Seq<usize>
    decreases s.len(),
{
    if s.len() == 0 {
        s
    } else {
        placed_by(ordered_by(s.drop_last(), keys), keys, s.last())
    }
}

/// Whether indices stand in the order of their keys.
pub open spec fn in_key_order(s: Seq<usize>, keys: Seq<Double>) -> bool {
    forall|i: int, j: int|
        0 <= i < j < s.len() ==> keys[(#[trigger] s[i]) as int].place() <= keys[(
        #[trigger] s[j]) as int].place()
}

proof fn placed_is_insert(s: Seq<usize>, keys: Seq<Double>, x: usize, p: int)
    requires
        0 <= p <= s.len(),
        p > 0 ==> keys[s[p - 1] as int].place() <= keys[x as int].place(),
        forall|j: int|
            p <= j < s.len() ==> keys[(#[trigger] s[j]) as int].place() > keys[x as int].place(),
    ensures
        placed_by(s, keys, x) == s.insert(p, x),
    decreases s.len(),
{
    if p < s.len() {
        assert(s[s.len() - 1] == s.last());
        let front = s.drop_last();
        assert forall|j: int| p <= j < front.len() implies keys[(#[trigger] front[j]) as int].place()
            > keys[x as int].place() by {
            assert(front[j] == s[j]);
        }
        placed_is_insert(front, keys, x, p);
        assert(s.insert(p, x) == front.insert(p, x).push(s.last()));
    } else {
        assert(s.insert(p, x) == s.push(x));
    }
}

/// Ordering by key keeps the indices and puts their keys in order.
pub proof fn ordering_is_exact(s: Seq<usize>, keys: Seq<Double>)
    ensures
        in_key_order(ordered_by(s, keys), keys),
        ordered_by(s, keys).to_multiset() == s.to_multiset(),
        ordered_by(s, keys).len() == s.len(),
    decreases s.len(),
{
    if s.len() > 0 {
        let front = s.drop_last();
        ordering_is_exact(front, keys);
        let o = ordered_by(front, keys);
        placing_is_exact(o, keys, s.last());
        assert(s == front.push(s.last()));
        vstd::seq_lib::to_multiset_build(front, s.last());
    }
}

proof fn placing_is_exact(s: Seq<usize>, keys: Seq<Double>, x: usize)
    requires
        in_key_order(s, keys),
    ensures
        in_key_order(placed_by(s, keys, x), keys),
        placed_by(s, keys, x).to_multiset() == s.to_multiset().insert(x),
        placed_by(s, keys, x).len() == s.len() + 1,
        forall|j: int|
            0 <= j < placed_by(s, keys, x).len() ==> #[trigger] placed_by(s, keys, x)[j] == x
                || s.contains(placed_by(s, keys, x)[j]),
    decreases s.len(),
{
    if s.len() == 0 || keys[s.last() as int].place() <= keys[x as int].place() {
        vstd::seq_lib::to_multiset_build(s, x);
        let r = s.push(x);
        assert forall|i: int, j: int| 0 <= i < j < r.len() implies keys[(
        #[trigger] r[i]) as int].place() <= keys[(#[trigger] r[j]) as int].place() by {
            if j == s.len() {
                if i < s.len() - 1 {
                    assert(keys[s[i] as int].place() <= keys[s[s.len() - 1] as int].place());
                }
            }
        }
        assert forall|j: int| 0 <= j < r.len() implies #[trigger] r[j] == x || s.contains(r[j]) by {
            if j < s.len() {
                assert(s[j] == r[j]);
            }
        }
    } else {
        let front = s.drop_last();
        placing_is_exact(front, keys, x);
        let o = placed_by(front, keys, x);
        let r = o.push(s.last());
        assert(s == front.push(s.last()));
        vstd::seq_lib::to_multiset_build(front, s.last());
        vstd::seq_lib::to_multiset_build(o, s.last());
        assert(r.to_multiset() =~= s.to_multiset().insert(x));
        assert forall|j: int| 0 <= j < o.len() implies keys[(#[trigger] o[j]) as int].place()
            <= keys[s.last() as int].place() by {
            if o[j] != x {
                assert(front.contains(o[j]));
                let k = choose|k: int| 0 <= k < front.len() && front[k] == o[j];
                assert(s[k] == o[j]);
                assert(keys[s[k] as int].place() <= keys[s[s.len() - 1] as int].place());
            }
        }
        assert forall|j: int| 0 <= j < r.len() implies #[trigger] r[j] == x || s.contains(r[j]) by {
            if j < o.len() {
                assert(r[j] == o[j]);
                if o[j] != x {
                    let k = choose|k: int| 0 <= k < front.len() && front[k] == o[j];
                    assert(s[k] == o[j]);
                }
            } else {
                assert(s[s.len() - 1] == r[j]);
            }
        }
    }
}

/// Put indices in the order of their keys; of equals, the one that came first.
pub fn order_by(v: &Vec<usize>, keys: &Vec<Double>) -> (r: Vec<usize>)
    requires
        forall|i: int| 0 <= i < v@.len() ==> (#[trigger] v@[i]) < keys@.len(),
    ensures
        r@ == ordered_by(v@, keys@),
        in_key_order(r@, keys@),
        r@.to_multiset() == v@.to_multiset(),
        r@.len() == v@.len(),
        forall|i: int| 0 <= i < r@.len() ==> (#[trigger] r@[i]) < keys@.len(),
{
    let mut out: Vec<usize> = Vec::new();
    let mut i: usize = 0;
    while i < v.len()
        invariant
            i <= v.len(),
            forall|k: int| 0 <= k < v@.len() ==> (#[trigger] v@[k]) < keys@.len(),
            forall|k: int| 0 <= k < out@.len() ==> (#[trigger] out@[k]) < keys@.len(),
            out@ == ordered_by(v@.take(i as int), keys@),
            in_key_order(out@, keys@),
        decreases v.len() - i,
    {
        let x: usize = v[i];
        let key = keys[x];
        let ghost before = out@;
        let mut lo: usize = 0;
        let mut hi: usize = out.len();
        while lo < hi
            invariant
                lo <= hi <= out@.len(),
                x < keys@.len(),
                key == keys@[x as int],
                forall|k: int| 0 <= k < out@.len() ==> (#[trigger] out@[k]) < keys@.len(),
                in_key_order(out@, keys@),
                lo > 0 ==> keys@[out@[lo - 1] as int].place() <= key.place(),
                forall|j: int|
                    hi <= j < out@.len() ==> keys@[(#[trigger] out@[j]) as int].place()
                        > key.place(),
            decreases hi - lo,
        {
            let mid: usize = lo + (hi - lo) / 2;
            if key.precedes(keys[out[mid]]) {
                hi = mid;
            } else {
                lo = mid + 1;
            }
        }
        out.insert(lo, x);
        proof {
            placed_is_insert(before, keys@, x, lo as int);
            placing_is_exact(before, keys@, x);
            assert(v@.take(i + 1).drop_last() == v@.take(i as int));
            assert forall|k: int| 0 <= k < out@.len() implies (#[trigger] out@[k]) < keys@.len() by {
                if out@[k] != x {
                    let j = choose|j: int| 0 <= j < before.len() && before[j] == out@[k];
                    assert(before[j] < keys@.len());
                }
            }
        }
        i += 1;
    }
    proof {
        assert(v@.take(i as int) == v@);
        ordering_is_exact(v@, keys@);
    }
    out
}

/// The cells of a rectangle: every row with every column.
pub open spec fn rectangle(y: Seq<usize>, x: Seq<usize>) -> Set<(usize, usize)> {
    Set::new(|c: (usize, usize)| y.contains(c.0) && x.contains(c.1))
}

proof fn row_size(k: usize, x: Seq<usize>)
    requires
        x.no_duplicates(),
    ensures
        rectangle(seq![k], x).finite(),
        rectangle(seq![k], x).len() == x.len(),
    decreases x.len(),
{
    if x.len() == 0 {
        assert(rectangle(seq![k], x) =~= Set::<(usize, usize)>::empty());
    } else {
        let front = x.drop_last();
        row_size(k, front);
        let (a, b) = (rectangle(seq![k], front), rectangle(seq![k], x));
        assert(seq![k][0] == k);
        assert forall|c: (usize, usize)| b.contains(c) <==> a.insert((k, x.last())).contains(
            c,
        ) by {
            if front.contains(c.1) {
                let j = choose|j: int| 0 <= j < front.len() && front[j] == c.1;
                assert(x[j] == c.1);
            }
            if x.contains(c.1) {
                let j = choose|j: int| 0 <= j < x.len() && x[j] == c.1;
                if j < front.len() {
                    assert(front[j] == c.1);
                }
            }
            assert(x[x.len() - 1] == x.last());
            assert(seq![k].contains(k));
        }
        assert(b =~= a.insert((k, x.last())));
        assert(!front.contains(x.last())) by {
            if front.contains(x.last()) {
                let j = choose|j: int| 0 <= j < front.len() && front[j] == x.last();
                assert(x[j] == x[x.len() - 1]);
            }
        }
    }
}

/// A rectangle has as many cells as its rows times its columns.
pub proof fn rectangle_size(y: Seq<usize>, x: Seq<usize>)
    requires
        y.no_duplicates(),
        x.no_duplicates(),
    ensures
        rectangle(y, x).finite(),
        rectangle(y, x).len() == y.len() * x.len(),
    decreases y.len(),
{
    if y.len() == 0 {
        assert(rectangle(y, x) =~= Set::<(usize, usize)>::empty());
    } else {
        let front = y.drop_last();
        rectangle_size(front, x);
        row_size(y.last(), x);
        let (a, b) = (rectangle(front, x), rectangle(seq![y.last()], x));
        let all = rectangle(y, x);
        assert(seq![y.last()][0] == y.last());
        assert forall|c: (usize, usize)| all.contains(c) <==> a.union(b).contains(c) by {
            if front.contains(c.0) {
                let j = choose|j: int| 0 <= j < front.len() && front[j] == c.0;
                assert(y[j] == c.0);
            }
            if y.contains(c.0) {
                let j = choose|j: int| 0 <= j < y.len() && y[j] == c.0;
                if j < front.len() {
                    assert(front[j] == c.0);
                } else {
                    assert(seq![y.last()].contains(c.0));
                }
            }
            assert(y[y.len() - 1] == y.last());
        }
        assert(all =~= a.union(b));
        assert(!front.contains(y.last())) by {
            if front.contains(y.last()) {
                let j = choose|j: int| 0 <= j < front.len() && front[j] == y.last();
                assert(y[j] == y[y.len() - 1]);
            }
        }
        assert(a.disjoint(b));
        vstd::set_lib::lemma_set_disjoint_lens(a, b);
        assert(y.len() * x.len() == front.len() * x.len() + x.len()) by (nonlinear_arith)
            requires
                y.len() == front.len() + 1,
        ;
    }
}

/// For each index below `n`, whether a list holds it.
fn membership(v: &Vec<usize>, n: usize) -> (r: Vec<bool>)
    ensures
        r@.len() == n,
        forall|i: int| 0 <= i < n ==> #[trigger] r@[i] == v@.contains(i as usize),
{
    let mut out: Vec<bool> = Vec::new();
    let mut i: usize = 0;
    while i < n
        invariant
            i <= n,
            out@.len() == i,
            forall|k: int| 0 <= k < i ==> !#[trigger] out@[k],
        decreases n - i,
    {
        out.push(false);
        i += 1;
    }
    let mut j: usize = 0;
    while j < v.len()
        invariant
            j <= v@.len(),
            out@.len() == n,
            forall|k: int|
                0 <= k < n ==> #[trigger] out@[k] == v@.take(j as int).contains(k as usize),
        decreases v@.len() - j,
    {
        let x: usize = v[j];
        let ghost before = out@;
        if x < n {
            out.set(x, true);
        }
        assert forall|k: int| 0 <= k < n implies #[trigger] out@[k] == v@.take(
            j + 1,
        ).contains(k as usize) by {
            let (s, t) = (v@.take(j as int), v@.take(j + 1));
            assert(t == s.push(x));
            if s.contains(k as usize) {
                let p = choose|p: int| 0 <= p < s.len() && s[p] == k as usize;
                assert(t[p] == k as usize);
            }
            if t.contains(k as usize) {
                let p = choose|p: int| 0 <= p < t.len() && t[p] == k as usize;
                if p < s.len() {
                    assert(s[p] == k as usize);
                }
            }
            assert(t[j as int] == x);
            assert(before[k] == s.contains(k as usize));
        }
        j += 1;
    }
    assert(v@.take(j as int) == v@);
    out
}

/// The cells of a set that stand in rows and columns that are kept.
pub open spec fn retained(m: Set<(usize, usize)>, y: Seq<usize>, x: Seq<usize>) -> Set<
    (usize, usize),
> {
    m.filter(|c: (usize, usize)| y.contains(c.0) && x.contains(c.1))
}

impl CellSet {
    /// The cells that stand in rows and columns that are kept, on a grid of
    /// `ny` rows and `nx` columns.
    pub fn retain(&self, y: &Vec<usize>, x: &Vec<usize>, ny: usize, nx: usize) -> (r: CellSet)
        requires
            self.wf(),
            forall|c: (usize, usize)| #[trigger] self@.contains(c) ==> c.0 < ny && c.1 < nx,
        ensures
            r.wf(),
            r@ == retained(self@, y@, x@),
    {
        let keep_y = membership(y, ny);
        let keep_x = membership(x, nx);
        let mut out: Vec<(usize, usize)> = Vec::new();
        let mut i: usize = 0;
        while i < self.cells.len()
            invariant
                self.wf(),
                forall|c: (usize, usize)| #[trigger] self@.contains(c) ==> c.0 < ny && c.1 < nx,
                keep_y@.len() == ny,
                keep_x@.len() == nx,
                forall|k: int| 0 <= k < ny ==> #[trigger] keep_y@[k] == y@.contains(k as usize),
                forall|k: int| 0 <= k < nx ==> #[trigger] keep_x@[k] == x@.contains(k as usize),
                i <= self.cells@.len(),
                row_major(out@),
                forall|k: int|
                    0 <= k < out@.len() && i < self.cells@.len() ==> earlier(
                        #[trigger] out@[k],
                        self.cells@[i as int],
                    ),
                forall|c: (usize, usize)| #[trigger]
                    out@.contains(c) <==> self.cells@.take(i as int).contains(c) && y@.contains(
                        c.0,
                    ) && x@.contains(c.1),
            decreases self.cells@.len() - i,
        {
            let cell = self.cells[i];
            let ghost before = out@;
            assert(self@.contains(cell)) by {
                assert(self.cells@[i as int] == cell);
            }
            if keep_y[cell.0] && keep_x[cell.1] {
                out.push(cell);
            }
            proof {
                let (s, t) = (self.cells@.take(i as int), self.cells@.take(i + 1));
                assert(t == s.push(cell));
                assert forall|c: (usize, usize)| #[trigger]
                    out@.contains(c) <==> t.contains(c) && y@.contains(c.0) && x@.contains(
                    c.1,
                ) by {
                    assert(before.contains(c) <==> s.contains(c) && y@.contains(c.0) && x@.contains(
                        c.1,
                    ));
                    if before.contains(c) {
                        let p = choose|p: int| 0 <= p < before.len() && before[p] == c;
                        assert(out@[p] == c);
                    }
                    if out@.contains(c) {
                        let p = choose|p: int| 0 <= p < out@.len() && out@[p] == c;
                        if p < before.len() {
                            assert(before[p] == c);
                        }
                    }
                    if s.contains(c) {
                        let p = choose|p: int| 0 <= p < s.len() && s[p] == c;
                        assert(t[p] == c);
                    }
                    if t.contains(c) {
                        let p = choose|p: int| 0 <= p < t.len() && t[p] == c;
                        if p < s.len() {
                            assert(s[p] == c);
                        }
                    }
                    assert(t[i as int] == cell);
                    if out@.len() > before.len() {
                        assert(out@[before.len() as int] == cell);
                    }
                }
                if i + 1 < self.cells@.len() {
                    assert forall|k: int| 0 <= k < out@.len() implies earlier(
                        #[trigger] out@[k],
                        self.cells@[i + 1],
                    ) by {
                        assert(earlier(self.cells@[i as int], self.cells@[i + 1]));
                        if k < before.len() {
                            assert(earlier(before[k], cell));
                        }
                    }
                }
            }
            i += 1;
        }
        proof {
            assert(self.cells@.take(i as int) == self.cells@);
            assert(out@.to_set() =~= retained(self@, y@, x@));
        }
        CellSet { cells: out }
    }
}

/// Indices put in ascending order climb, and are those of the list.
pub proof fn ascending_is_exact(s: Seq<usize>)
    ensures
        climbing(ascending(s)),
        ascending(s).to_set() == s.to_set(),
        forall|k: usize| #[trigger] ascending(s).contains(k) <==> s.contains(k),
{
    let t = climb_of(s);
    assert(climbing(t) && t.to_set() == s.to_set());
    assert forall|k: usize| #[trigger] ascending(s).contains(k) <==> s.contains(k) by {
        assert(ascending(s).to_set().contains(k) <==> s.to_set().contains(k));
    }
}

proof fn climb_of(s: Seq<usize>) -> (t: Seq<usize>)
    ensures
        climbing(t),
        t.to_set() == s.to_set(),
    decreases s.len(),
{
    if s.len() == 0 {
        s
    } else {
        let front = s.drop_last();
        let x = s.last();
        let f = climb_of(front);
        let p = place_in(f, x);
        let t = if p < f.len() && f[p] == x {
            f
        } else {
            f.insert(p, x)
        };
        assert forall|y: usize| t.to_set().contains(y) <==> s.to_set().contains(y) by {
            assert(f.to_set().contains(y) <==> front.to_set().contains(y));
            if s.contains(y) {
                let j = choose|j: int| 0 <= j < s.len() && s[j] == y;
                if j < front.len() {
                    assert(front[j] == y);
                    let k = choose|k: int| 0 <= k < f.len() && f[k] == y;
                    assert(t[if t.len() == f.len() || k < p {
                        k
                    } else {
                        k + 1
                    }] == y);
                } else {
                    assert(t[p] == y);
                }
            }
            if t.contains(y) {
                let j = choose|j: int| 0 <= j < t.len() && t[j] == y;
                if t.len() == f.len() {
                    assert(f[j] == y);
                    assert(front.contains(y));
                    let k = choose|k: int| 0 <= k < front.len() && front[k] == y;
                    assert(s[k] == y);
                } else if j == p {
                    assert(s[s.len() - 1] == y);
                } else {
                    assert(f[if j < p {
                        j
                    } else {
                        j - 1
                    }] == y);
                    assert(front.contains(y));
                    let k = choose|k: int| 0 <= k < front.len() && front[k] == y;
                    assert(s[k] == y);
                }
            }
        }
        assert(t.to_set() =~= s.to_set());
        t
    }
}

proof fn place_in(f: Seq<usize>, x: usize) -> (p: int)
    requires
        climbing(f),
    ensures
        0 <= p <= f.len(),
        forall|j: int| 0 <= j < p ==> f[j] < x,
        forall|j: int| p <= j < f.len() ==> f[j] >= x,
    decreases f.len(),
{
    if f.len() == 0 || f.last() < x {
        f.len() as int
    } else {
        let front = f.drop_last();
        let p = place_in(front, x);
        assert forall|j: int| 0 <= j < p implies f[j] < x by {
            assert(front[j] == f[j]);
        }
        assert forall|j: int| p <= j < f.len() implies f[j] >= x by {
            if j < front.len() {
                assert(front[j] == f[j]);
            }
        }
        p
    }
}

/// A cell is retained if and only if it was there, and its row and its column are.
pub proof fn a_cell_is_retained_with_its_row_and_column(
    m: Set<(usize, usize)>,
    y: Seq<usize>,
    x: Seq<usize>,
    cell: (usize, usize),
)
    ensures
        retained(m, y, x).contains(cell) <==> m.contains(cell) && y.contains(cell.0) && x.contains(
            cell.1,
        ),
{
}

} // verus!
