//! Maps keyed by name, walked in the order of their names.
use vstd::prelude::*;

use crate::text::chars_of;

verus! {

/// Whether `a` comes before `b` in dictionary order of their characters.
pub open spec fn before(a: Seq<char>, b: Seq<char>) -> bool
    decreases b.len(),
{
    if b.len() == 0 {
        false
    } else if a.len() == 0 {
        true
    } else if a.first() != b.first() {
        (a.first() as int) < (b.first() as int)
    } else {
        before(a.drop_first(), b.drop_first())
    }
}

/// No name comes before itself, and of two names that come before one another
/// in a chain the first comes before the last.
pub proof fn before_is_an_order(a: Seq<char>, b: Seq<char>, c: Seq<char>)
    ensures
        !before(a, a),
        before(a, b) && before(b, c) ==> before(a, c),
    decreases a.len(), b.len(), c.len(),
{
    if a.len() > 0 {
        let (x, y, z) = (a.drop_first(), b.drop_first(), c.drop_first());
        if b.len() > 0 && c.len() > 0 {
            before_is_an_order(x, y, z);
        } else {
            before_is_an_order(x, x, x);
        }
    }
}

/// Of two different names, one comes before the other.
pub proof fn before_is_total(a: Seq<char>, b: Seq<char>)
    ensures
        a != b ==> before(a, b) || before(b, a),
        before(a, b) ==> !before(b, a),
    decreases a.len(),
{
    if a.len() > 0 && b.len() > 0 {
        before_is_total(a.drop_first(), b.drop_first());
        if a.first() == b.first() && a.drop_first() == b.drop_first() {
            assert(a =~= seq![a.first()] + a.drop_first());
            assert(b =~= seq![b.first()] + b.drop_first());
        }
    } else if a.len() == 0 && b.len() == 0 {
        assert(a =~= b);
    }
}

/// Whether `a` comes before `b`, is `b` or comes after it: -1, 0 or 1.
pub fn compare(a: &str, b: &str) -> (r: i8)
    ensures
        r == (if a@ == b@ {
            0int
        } else if before(a@, b@) {
            -1
        } else {
            1
        }),
{
    let x = chars_of(a);
    let y = chars_of(b);
    let mut i: usize = 0;
    assert(a@.skip(0) == a@ && b@.skip(0) == b@);
    while i < x.len() && i < y.len()
        invariant
            x@ == a@,
            y@ == b@,
            i <= x.len(),
            i <= y.len(),
            before(a@, b@) == before(a@.skip(i as int), b@.skip(i as int)),
            forall|j: int| 0 <= j < i ==> a@[j] == b@[j],
        decreases x.len() - i,
    {
        let ghost (s, t) = (a@.skip(i as int), b@.skip(i as int));
        if x[i] != y[i] {
            assert(a@ != b@) by {
                assert(a@[i as int] != b@[i as int]);
            }
            if x[i] < y[i] {
                return -1;
            }
            return 1;
        }
        assert(s.drop_first() == a@.skip(i + 1));
        assert(t.drop_first() == b@.skip(i + 1));
        i += 1;
    }
    if x.len() == y.len() {
        assert(a@ =~= b@);
        0
    } else if x.len() < y.len() {
        -1
    } else {
        1
    }
}

/// A map whose entries stand in the order of their names, each name once.
#[derive(Debug)]
pub struct NameMap<V> {
    pub entries: Vec<(String, V)>,
}

/// The names of a list of entries.
pub open spec fn names_of<V>(s: Seq<(String, V)>) -> Seq<Seq<char>> {
    Seq::new(s.len(), |i: int| s[i].0@)
}

impl<V> NameMap<V> {
    pub open spec fn names(self) -> Seq<Seq<char>> {
        names_of(self.entries@)
    }

    pub open spec fn wf(self) -> bool {
        forall|i: int, j: int|
            0 <= i < j < self.entries@.len() ==> before(
                #[trigger] self.entries@[i].0@,
                #[trigger] self.entries@[j].0@,
            )
    }

    /// Whether the entry at `i` bears the name.
    pub open spec fn bears(self, name: Seq<char>, i: int) -> bool {
        0 <= i < self.entries@.len() && self.entries@[i].0@ == name
    }

    /// What the map holds under each name.
    pub open spec fn content(self) -> Map<Seq<char>, V> {
        Map::new(
            |name: Seq<char>| exists|i: int| self.bears(name, i),
            |name: Seq<char>| self.entries@[choose|i: int| self.bears(name, i)].1,
        )
    }

    /// In a map in order, no name stands twice.
    pub proof fn bears_once(self, name: Seq<char>, i: int, j: int)
        requires
            self.wf(),
            self.bears(name, i),
            self.bears(name, j),
        ensures
            i == j,
    {
        before_is_an_order(name, name, name);
    }

    /// What is held under the name of an entry is the entry's value.
    pub proof fn content_at(self, i: int)
        requires
            self.wf(),
            0 <= i < self.entries@.len(),
        ensures
            self.content().contains_key(self.entries@[i].0@),
            self.content()[self.entries@[i].0@] == self.entries@[i].1,
    {
        let name = self.entries@[i].0@;
        assert(self.bears(name, i));
        let j = choose|j: int| self.bears(name, j);
        self.bears_once(name, i, j);
    }

    pub fn new() -> (r: NameMap<V>)
        ensures
            r.wf(),
            r.entries@.len() == 0,
            r.content() == Map::<Seq<char>, V>::empty(),
    {
        let r = NameMap { entries: Vec::new() };
        assert(r.content() =~= Map::<Seq<char>, V>::empty());
        r
    }

    pub fn len(&self) -> (r: usize)
        ensures
            r == self.entries@.len(),
    {
        self.entries.len()
    }

    /// The place of a name: where it stands, or where it would be inserted.
    pub fn place(&self, name: &str) -> (r: (bool, usize))
        requires
            self.wf(),
        ensures
            r.1 <= self.entries@.len(),
            r.0 ==> self.bears(name@, r.1 as int),
            !r.0 ==> !self.content().contains_key(name@),
            !r.0 ==> forall|j: int|
                0 <= j < r.1 ==> before(#[trigger] self.entries@[j].0@, name@),
            !r.0 ==> forall|j: int|
                r.1 <= j < self.entries@.len() ==> before(name@, #[trigger] self.entries@[j].0@),
    {
        let mut lo: usize = 0;
        let mut hi: usize = self.entries.len();
        while lo < hi
            invariant
                self.wf(),
                lo <= hi <= self.entries@.len(),
                forall|j: int| 0 <= j < lo ==> before(#[trigger] self.entries@[j].0@, name@),
                forall|j: int|
                    hi <= j < self.entries@.len() ==> before(
                        name@,
                        #[trigger] self.entries@[j].0@,
                    ),
            decreases hi - lo,
        {
            let mid: usize = lo + (hi - lo) / 2;
            let at = self.entries[mid].0.as_str();
            let c: i8 = compare(at, name);
            if c == 0 {
                return (true, mid);
            }
            proof {
                before_is_total(at@, name@);
            }
            if c < 0 {
                assert forall|j: int| 0 <= j < mid + 1 implies before(
                    #[trigger] self.entries@[j].0@,
                    name@,
                ) by {
                    if j < mid {
                        before_is_an_order(self.entries@[j].0@, at@, name@);
                    }
                }
                lo = mid + 1;
            } else {
                assert forall|j: int| mid <= j < self.entries@.len() implies before(
                    name@,
                    #[trigger] self.entries@[j].0@,
                ) by {
                    if j > mid {
                        before_is_an_order(name@, at@, self.entries@[j].0@);
                    }
                }
                hi = mid;
            }
        }
        proof {
            if exists|j: int| self.bears(name@, j) {
                let j = choose|j: int| self.bears(name@, j);
                before_is_an_order(name@, name@, name@);
                assert(self.entries@[j].0@ == name@);
            }
        }
        (false, lo)
    }

    pub fn get(&self, name: &str) -> (r: Option<&V>)
        requires
            self.wf(),
        ensures
            match r {
                Some(v) => self.content().contains_key(name@) && *v == self.content()[name@],
                None => !self.content().contains_key(name@),
            },
    {
        let (found, i) = self.place(name);
        if found {
            proof {
                self.content_at(i as int);
            }
            Some(&self.entries[i].1)
        } else {
            None
        }
    }

    /// Hold `value` under `name`, in place of what was held there.
    pub fn insert(&mut self, name: String, value: V)
        requires
            old(self).wf(),
        ensures
            final(self).wf(),
            final(self).content() == old(self).content().insert(name@, value),
    {
        let (found, i) = self.place(name.as_str());
        let ghost was = *self;
        if found {
            let ghost entry = (name, value);
            self.entries.set(i, (name, value));
            proof {
                let now = *self;
                assert forall|n: Seq<char>| #[trigger]
                    now.content().contains_key(n) == was.content().insert(
                        name@,
                        value,
                    ).contains_key(n) by {
                    if exists|j: int| was.bears(n, j) {
                        let j = choose|j: int| was.bears(n, j);
                        assert(now.bears(n, j));
                    }
                    if exists|j: int| now.bears(n, j) {
                        let j = choose|j: int| now.bears(n, j);
                        assert(was.bears(n, j));
                    }
                    assert(now.bears(name@, i as int));
                }
                assert(now.wf());
                assert forall|n: Seq<char>| #[trigger]
                    now.content().contains_key(n) implies now.content()[n] == was.content().insert(
                    name@,
                    value,
                )[n] by {
                    let j = choose|j: int| now.bears(n, j);
                    assert(now.bears(n, j));
                    now.content_at(j);
                    assert(was.bears(n, j));
                    was.content_at(j);
                    if n == name@ {
                        now.bears_once(n, i as int, j);
                    } else {
                        assert(j != i);
                    }
                }
                assert(now.content() =~= was.content().insert(name@, value));
            }
        } else {
            self.entries.insert(i, (name, value));
            proof {
                let now = *self;
                let shift = |j: int| if j < i {
                    j
                } else {
                    j + 1
                };
                assert forall|a: int, b: int| 0 <= a < b < now.entries@.len() implies before(
                    #[trigger] now.entries@[a].0@,
                    #[trigger] now.entries@[b].0@,
                ) by {
                    let back = |j: int| if j < i {
                        j
                    } else {
                        j - 1
                    };
                    if a != i {
                        assert(now.entries@[a] == was.entries@[back(a)]);
                    }
                    if b != i {
                        assert(now.entries@[b] == was.entries@[back(b)]);
                    }
                }
                assert(now.wf());
                assert forall|n: Seq<char>| #[trigger]
                    now.content().contains_key(n) == was.content().insert(
                        name@,
                        value,
                    ).contains_key(n) by {
                    if exists|j: int| was.bears(n, j) {
                        let j = choose|j: int| was.bears(n, j);
                        assert(now.bears(n, shift(j)));
                    }
                    if exists|j: int| now.bears(n, j) {
                        let j = choose|j: int| now.bears(n, j);
                        if j < i {
                            assert(was.bears(n, j));
                        } else if j > i {
                            assert(was.bears(n, j - 1));
                        }
                    }
                    assert(now.bears(name@, i as int));
                }
                assert forall|n: Seq<char>| #[trigger]
                    now.content().contains_key(n) implies now.content()[n] == was.content().insert(
                    name@,
                    value,
                )[n] by {
                    let j = choose|j: int| now.bears(n, j);
                    assert(now.bears(n, j));
                    now.content_at(j);
                    if j < i {
                        assert(was.bears(n, j));
                        was.content_at(j);
                    } else if j > i {
                        assert(was.bears(n, j - 1));
                        was.content_at(j - 1);
                    }
                    if j != i {
                        assert(n != name@) by {
                            if n == name@ {
                                now.bears_once(n, i as int, j);
                            }
                        }
                    }
                }
                assert(now.content() =~= was.content().insert(name@, value));
            }
        }
    }
}

/// Two maps in order that hold the same under the same names have the same
/// names in the same places.
pub proof fn names_are_canonical<V>(a: NameMap<V>, b: NameMap<V>)
    requires
        a.wf(),
        b.wf(),
        a.content() == b.content(),
    ensures
        a.names() == b.names(),
{
    let (s, t) = (a.names(), b.names());
    assert forall|i: int| 0 <= i < s.len() implies t.contains(#[trigger] s[i]) by {
        a.content_at(i);
        assert(b.content().contains_key(s[i]));
        let j = choose|j: int| b.bears(s[i], j);
        assert(b.bears(s[i], j));
        assert(t[j] == s[i]);
    }
    assert forall|i: int| 0 <= i < t.len() implies s.contains(#[trigger] t[i]) by {
        b.content_at(i);
        assert(a.content().contains_key(t[i]));
        let j = choose|j: int| a.bears(t[i], j);
        assert(a.bears(t[i], j));
        assert(s[j] == t[i]);
    }
    same_order(a.names(), b.names());
}

/// Whether every name comes before those after it.
spec fn in_order(s: Seq<Seq<char>>) -> bool {
    forall|i: int, j: int| 0 <= i < j < s.len() ==> before(#[trigger] s[i], #[trigger] s[j])
}

proof fn same_order(s: Seq<Seq<char>>, t: Seq<Seq<char>>)
    requires
        in_order(s),
        in_order(t),
        forall|i: int| 0 <= i < s.len() ==> t.contains(#[trigger] s[i]),
        forall|i: int| 0 <= i < t.len() ==> s.contains(#[trigger] t[i]),
    ensures
        s == t,
    decreases s.len(),
{
    if s.len() == 0 {
        if t.len() > 0 {
            assert(s.contains(t[0]));
        }
        assert(s =~= t);
    } else {
        assert(t.contains(s.last()));
        let (m, n) = (s.len() - 1, t.len() - 1);
        let p = choose|p: int| 0 <= p < t.len() && t[p] == s[m];
        assert(s.contains(t[n]));
        let q = choose|q: int| 0 <= q < s.len() && s[q] == t[n];
        before_is_an_order(s[m], s[m], s[m]);
        before_is_total(s[m], t[n]);
        assert(p == n && q == m);
        let (u, v) = (s.drop_last(), t.drop_last());
        assert forall|i: int| 0 <= i < u.len() implies v.contains(#[trigger] u[i]) by {
            assert(t.contains(s[i]));
            let k = choose|k: int| 0 <= k < t.len() && t[k] == s[i];
            before_is_an_order(s[i], s[m], s[i]);
            assert(k != n);
            assert(v[k] == s[i]);
        }
        assert forall|i: int| 0 <= i < v.len() implies u.contains(#[trigger] v[i]) by {
            assert(s.contains(t[i]));
            let k = choose|k: int| 0 <= k < s.len() && s[k] == t[i];
            before_is_an_order(t[i], t[n], t[i]);
            assert(k != m);
            assert(u[k] == t[i]);
        }
        same_order(u, v);
        assert(s =~= u.push(s.last()));
        assert(t =~= v.push(t.last()));
    }
}

/// Of two names that agree up to a character, the one whose character is lower comes
/// first; and a name comes before any that it begins.
pub proof fn names_go_by_their_first_difference(
    common: Seq<char>,
    x: char,
    y: char,
    a: Seq<char>,
    b: Seq<char>,
)
    ensures
        before(common + seq![x] + a, common + seq![y] + b) <==> (x as int) < (y as int) || (x == y
            && before(a, b)),
        before(common, common + seq![y] + b),
        !before(common + seq![x] + a, common),
    decreases common.len(),
{
    let (s, t) = (common + seq![x] + a, common + seq![y] + b);
    if common.len() > 0 {
        let rest = common.drop_first();
        names_go_by_their_first_difference(rest, x, y, a, b);
        assert(s.drop_first() =~= rest + seq![x] + a);
        assert(t.drop_first() =~= rest + seq![y] + b);
        assert(s.first() == common.first() && t.first() == common.first());
    } else {
        assert(s.drop_first() =~= a);
        assert(t.drop_first() =~= b);
        assert(s.first() == x && t.first() == y);
    }
}

} // verus!
