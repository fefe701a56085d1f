//! The slice of WKT that OGC API - EDR's `coords` parameter uses.
//!
//! EDR passes geometry as WKT in the query string, so only the 2-D geometry
//! types the data queries accept are parsed here: POINT, MULTIPOINT,
//! LINESTRING and POLYGON.
use vstd::prelude::*;
use vstd::slice::slice_subrange;

use crate::double::Double;
use crate::error::{EdrError, EdrResult, Fault};
use crate::numerals::{self, Numerals};
use crate::text::{self, chars_of, copied, find, items, spells, string_of, trim, words};

verus! {

#[derive(Debug, Clone, Copy, PartialEq, Eq, Structural)]
pub struct Coord {
    /// Longitude, degrees east, CRS84.
    pub x: Double,
    /// Latitude, degrees north.
    pub y: Double,
}

#[derive(Debug, Clone, PartialEq, Eq)]
pub enum Geometry {
    Point(Coord),
    MultiPoint(Vec<Coord>),
    LineString(Vec<Coord>),
    /// Exterior ring followed by any interior rings (holes).
    Polygon(Vec<Vec<Coord>>),
}

/// What a [`Geometry`] holds.
pub enum Shape {
    Point(Coord),
    MultiPoint(Seq<Coord>),
    LineString(Seq<Coord>),
    Polygon(Seq<Seq<Coord>>),
}

/// What a list of rings holds.
pub open spec fn rings_of(v: Seq<Vec<Coord>>) -> Seq<Seq<Coord>> {
    Seq::new(v.len(), |i: int| v[i]@)
}

impl View for Geometry {
    type V = Shape;

    open spec fn view(&self) -> Shape {
        match self {
            Geometry::Point(c) => Shape::Point(*c),
            Geometry::MultiPoint(cs) => Shape::MultiPoint(cs@),
            Geometry::LineString(cs) => Shape::LineString(cs@),
            Geometry::Polygon(rings) => Shape::Polygon(rings_of(rings@)),
        }
    }
}

/// A geometry read from text, or what is wrong with the text.
pub open spec fn shape_of(r: EdrResult<Geometry>) -> Result<Shape, Fault> {
    match r {
        Ok(g) => Ok(g@),
        Err(e) => Err(e@),
    }
}

/// How a geometry's coordinates are grouped.
#[derive(Debug, Clone, Copy, PartialEq, Eq, Structural)]
pub enum Form {
    /// One position.
    Point,
    /// The positions of a MULTIPOINT in one list.
    Positions,
    /// The positions of a MULTIPOINT, each in parentheses of its own.
    Members,
    Line,
    Rings,
}

/// A geometry whose coordinates are still text: one list of positions, or one
/// for each group.
#[derive(Debug)]
pub struct Outline {
    pub form: Form,
    pub lists: Vec<Vec<char>>,
}

pub open spec fn bad_coords(message: Seq<char>) -> Fault {
    Fault::BadRequest("Invalid coords: "@ + message)
}

fn bad(message: &str) -> (r: EdrError)
    ensures
        r@ == bad_coords(message@),
{
    let mut m: String = "Invalid coords: ".to_owned();
    m.append(message);
    EdrError::BadRequest(m)
}

/// `s` without the copies of `p` that it ends with.
pub open spec fn shorn(s: Seq<char>, p: Seq<char>) -> Seq<char>
    decreases s.len(),
{
    if p.len() > 0 && text::closes(s, p) {
        shorn(s.take(s.len() - p.len()), p)
    } else {
        s
    }
}

fn shear<'a>(s: &'a [char], p: &str) -> (r: &'a [char])
    requires
        p@.len() > 0,
    ensures
        r@ == shorn(s@, p@),
{
    let k: usize = chars_of(p).len();
    let mut end: usize = s.len();
    assert(s@.take(end as int) == s@);
    loop
        invariant
            k == p@.len(),
            k > 0,
            end <= s.len(),
            shorn(s@.take(end as int), p@) == shorn(s@, p@),
        decreases end,
    {
        let head = slice_subrange(s, 0, end);
        assert(head@ == s@.take(end as int));
        if !text::ends_with(head, p) {
            return head;
        }
        assert(head@.take(end - k) == s@.take(end - k));
        end = end - k;
    }
}

/// The geometry type's name and what follows it, from its opening parenthesis.
/// The Z and M qualifiers are allowed; their ordinates are dropped.
pub open spec fn keyword(text: Seq<char>) -> Seq<char> {
    let name = text::trimmed(text.take(text::first_at(text, '(') as int));
    text::trimmed(shorn(shorn(shorn(name, " ZM"@), " Z"@), " M"@))
}

/// What stands between the parentheses that enclose a text.
pub open spec fn enclosed(text: Seq<char>) -> Option<Seq<char>> {
    let t = text::trimmed(text);
    if t.len() >= 2 && t.first() == '(' && t.last() == ')' {
        Some(text::trimmed(t.subrange(1, t.len() - 1)))
    } else {
        None
    }
}

fn strip_parens(text: &[char]) -> (r: Option<&[char]>)
    ensures
        match r {
            Some(b) => enclosed(text@) == Some(b@),
            None => enclosed(text@) is None,
        },
{
    let t = trim(text);
    if t.len() >= 2 && t[0] == '(' && t[t.len() - 1] == ')' {
        Some(trim(slice_subrange(t, 1, t.len() - 1)))
    } else {
        None
    }
}

/// How far a text has been split into its parenthesised groups: how many
/// parentheses are open, what the open group holds, and the closed groups.
pub struct Grouping {
    pub depth: nat,
    pub current: Seq<char>,
    pub groups: Seq<Seq<char>>,
}

/// A grouping with one more character read; `None` for a parenthesis that
/// closes nothing.
pub open spec fn grouped_with(g: Grouping, c: char) -> Option<Grouping> {
    if c == '(' && g.depth == 0 {
        Some(Grouping { depth: 1, current: Seq::empty(), ..g })
    } else if c == '(' {
        Some(Grouping { depth: g.depth + 1, current: g.current.push(c), ..g })
    } else if c == ')' && g.depth == 0 {
        None
    } else if c == ')' && g.depth == 1 {
        Some(Grouping { depth: 0, current: Seq::empty(), groups: g.groups.push(g.current) })
    } else if c == ')' {
        Some(Grouping { depth: (g.depth - 1) as nat, current: g.current.push(c), ..g })
    } else if g.depth >= 1 {
        Some(Grouping { current: g.current.push(c), ..g })
    } else {
        Some(g)
    }
}

pub open spec fn grouped(s: Seq<char>) -> Option<Grouping>
    decreases s.len(),
{
    if s.len() == 0 {
        Some(Grouping { depth: 0, current: Seq::empty(), groups: Seq::empty() })
    } else {
        match grouped(s.drop_last()) {
            Some(g) => grouped_with(g, s.last()),
            None => None,
        }
    }
}

/// The groups of `(a),(b)`, or what is wrong with the text.
pub open spec fn groups(s: Seq<char>) -> Result<Seq<Seq<char>>, Fault> {
    match grouped(s) {
        Some(g) => if g.depth != 0 {
            Err(bad_coords("unbalanced parentheses"@))
        } else if g.groups.len() == 0 {
            Err(bad_coords("expected a parenthesised coordinate list"@))
        } else {
            Ok(g.groups)
        },
        None => Err(bad_coords("unbalanced parentheses"@)),
    }
}

proof fn grouped_none(s: Seq<char>, k: int)
    requires
        0 <= k <= s.len(),
        grouped(s.take(k)) is None,
    ensures
        grouped(s) is None,
    decreases s.len() - k,
{
    if k == s.len() {
        assert(s.take(k) == s);
    } else {
        assert(s.take(k + 1).drop_last() == s.take(k));
        grouped_none(s, k + 1);
    }
}

/// Split `(a),(b)` into its parenthesised groups.
fn split_groups(text: &[char]) -> (r: EdrResult<Vec<Vec<char>>>)
    ensures
        match r {
            Ok(v) => groups(text@) == Ok::<Seq<Seq<char>>, Fault>(
                text::views(v@),
            ),
            Err(e) => groups(text@) == Err::<Seq<Seq<char>>, Fault>(e@),
        },
{
    let mut done: Vec<Vec<char>> = Vec::new();
    let mut depth: usize = 0;
    let mut current: Vec<char> = Vec::new();
    let mut i: usize = 0;
    assert(text@.take(0) == Seq::<char>::empty());
    assert(text::views(done@) == Seq::<Seq<char>>::empty());
    while i < text.len()
        invariant
            i <= text.len(),
            depth <= i,
            grouped(text@.take(i as int)) == Some(
                Grouping {
                    depth: depth as nat,
                    current: current@,
                    groups: text::views(done@),
                },
            ),
        decreases text.len() - i,
    {
        let c = text[i];
        proof {
            assert(text@.take(i + 1).drop_last() == text@.take(i as int));
            assert(text@.take(i + 1).last() == c);
        }
        if c == '(' {
            if depth == 0 {
                current = Vec::new();
            } else {
                current.push(c);
            }
            depth = depth + 1;
        } else if c == ')' {
            if depth == 0 {
                proof {
                    grouped_none(text@, i + 1);
                }
                return Err(bad("unbalanced parentheses"));
            }
            depth = depth - 1;
            if depth == 0 {
                let ghost before = text::views(done@);
                let ghost group = current@;
                done.push(current);
                current = Vec::new();
                assert(text::views(done@) == before.push(group));
            } else {
                current.push(c);
            }
        } else if depth >= 1 {
            current.push(c);
        }
        i += 1;
    }
    assert(text@.take(i as int) == text@);
    if depth != 0 {
        return Err(bad("unbalanced parentheses"));
    }
    if done.len() == 0 {
        return Err(bad("expected a parenthesised coordinate list"));
    }
    Ok(done)
}

/// What the text of a geometry comes to before its numbers are read.
pub open spec fn outlined(input: Seq<char>) -> Result<(Form, Seq<Seq<char>>), Fault> {
    let text = text::trimmed(input);
    let open = text::first_at(text, '(') as int;
    if open >= text.len() {
        Err(bad_coords("expected a WKT geometry such as POINT(0 51.5)"@))
    } else {
        let word = keyword(text);
        let body = enclosed(text.skip(open));
        if word != "POINT"@ && word != "MULTIPOINT"@ && word != "LINESTRING"@ && word
            != "POLYGON"@ {
            Err(
                Fault::NotSupported(
                    "Geometry type '"@ + word
                        + "' is not supported; use POINT, MULTIPOINT, LINESTRING or POLYGON"@,
                ),
            )
        } else {
            match body {
                None => Err(bad_coords("unbalanced parentheses"@)),
                Some(b) => if word == "POINT"@ {
                    Ok((Form::Point, seq![b]))
                } else if word == "LINESTRING"@ {
                    Ok((Form::Line, seq![b]))
                } else if word == "MULTIPOINT"@ && !b.contains('(') {
                    Ok((Form::Positions, seq![b]))
                } else {
                    match groups(b) {
                        Ok(g) => Ok(
                            (
                                if word == "POLYGON"@ {
                                    Form::Rings
                                } else {
                                    Form::Members
                                },
                                g,
                            ),
                        ),
                        Err(e) => Err(e),
                    }
                },
            }
        }
    }
}

/// An outline's result, by what it holds.
pub open spec fn outline_of(r: EdrResult<Outline>) -> Result<
    (Form, Seq<Seq<char>>),
    Fault,
> {
    match r {
        Ok(o) => Ok((o.form, text::views(o.lists@))),
        Err(e) => Err(e@),
    }
}

fn one_list(form: Form, body: &[char]) -> (r: Outline)
    ensures
        r.form == form,
        text::views(r.lists@) == seq![body@],
{
    let mut lists: Vec<Vec<char>> = Vec::new();
    lists.push(copied(body));
    assert(text::views(lists@) == seq![body@]);
    Outline { form, lists }
}

/// Read a geometry's type and the text of its coordinate lists.
pub fn outline(input: &str) -> (r: EdrResult<Outline>)
    ensures
        outline_of(r) == outlined(input@),
{
    let chars = chars_of(input);
    let text = trim(chars.as_slice());
    let open: usize = find(text, '(');
    if open >= text.len() {
        return Err(bad("expected a WKT geometry such as POINT(0 51.5)"));
    }
    proof {
        reveal_strlit(" ZM");
        reveal_strlit(" Z");
        reveal_strlit(" M");
        reveal_strlit("POINT");
        reveal_strlit("MULTIPOINT");
        reveal_strlit("LINESTRING");
        reveal_strlit("POLYGON");
    }
    let before = slice_subrange(text, 0, open);
    assert(before@ == text@.take(open as int));
    let word = trim(shear(shear(shear(trim(before), " ZM"), " Z"), " M"));
    let rest = slice_subrange(text, open, text.len());
    assert(rest@ == text@.skip(open as int));
    let point = spells(word, "POINT");
    let multipoint = spells(word, "MULTIPOINT");
    let line = spells(word, "LINESTRING");
    let polygon = spells(word, "POLYGON");
    if !point && !multipoint && !line && !polygon {
        let mut m: String = "Geometry type '".to_owned();
        m.append(string_of(word).as_str());
        m.append("' is not supported; use POINT, MULTIPOINT, LINESTRING or POLYGON");
        return Err(EdrError::NotSupported(m));
    }
    let body = match strip_parens(rest) {
        Some(b) => b,
        None => {
            return Err(bad("unbalanced parentheses"));
        },
    };
    if point {
        return Ok(one_list(Form::Point, body));
    }
    if line {
        return Ok(one_list(Form::Line, body));
    }
    let nested = find(body, '(') < body.len();
    proof {
        text::first_at_is_first(body@, '(');
        assert(nested == body@.contains('('));
    }
    if multipoint && !nested {
        return Ok(one_list(Form::Positions, body));
    }
    match split_groups(body) {
        Ok(lists) => Ok(
            Outline {
                form: if polygon {
                    Form::Rings
                } else {
                    Form::Members
                },
                lists,
            },
        ),
        Err(e) => Err(e),
    }
}

/// The position that a pair of numerals gives. Trailing ordinates are dropped.
pub open spec fn position(pair: Seq<char>, m: Map<Seq<char>, Double>) -> Option<Coord> {
    let w = text::spaced(pair);
    if w.len() < 2 {
        None
    } else {
        match (numerals::reading(m, w[0]), numerals::reading(m, w[1])) {
            (Some(x), Some(y)) => if x.finite() && y.finite() {
                Some(Coord { x, y })
            } else {
                None
            },
            _ => None,
        }
    }
}

/// The positions of a list of pairs, or the first pair that is none.
pub open spec fn positions(pairs: Seq<Seq<char>>, m: Map<Seq<char>, Double>) -> Result<
    Seq<Coord>,
    Fault,
>
    decreases pairs.len(),
{
    if pairs.len() == 0 {
        Ok(Seq::empty())
    } else {
        match positions(pairs.drop_last(), m) {
            Err(e) => Err(e),
            Ok(cs) => match position(pairs.last(), m) {
                Some(c) => Ok(cs.push(c)),
                None => Err(bad_coords("'"@ + pairs.last() + "' is not an 'x y' position"@)),
            },
        }
    }
}

/// The positions of a comma-separated list.
pub open spec fn listed(text: Seq<char>, m: Map<Seq<char>, Double>) -> Result<
    Seq<Coord>,
    Fault,
> {
    positions(text::solid(text::pieces(text, ',')), m)
}

proof fn positions_err(pairs: Seq<Seq<char>>, m: Map<Seq<char>, Double>, k: int)
    requires
        0 <= k <= pairs.len(),
        positions(pairs.take(k), m) is Err,
    ensures
        positions(pairs, m) == positions(pairs.take(k), m),
    decreases pairs.len() - k,
{
    if k == pairs.len() {
        assert(pairs.take(k) == pairs);
    } else {
        assert(pairs.take(k + 1).drop_last() == pairs.take(k));
        positions_err(pairs, m, k + 1);
    }
}

fn read_position(pair: &[char], numerals: &Numerals) -> (r: Option<Coord>)
    requires
        numerals.wf(),
    ensures
        r == position(pair@, numerals@),
{
    let w = words(pair);
    assert(text::views(w@) == text::spaced(pair@));
    if w.len() < 2 {
        return None;
    }
    assert(text::views(w@)[0] == w@[0]@);
    assert(text::views(w@)[1] == w@[1]@);
    match (numerals.value(w[0].as_slice()), numerals.value(w[1].as_slice())) {
        (Some(x), Some(y)) => if x.is_finite() && y.is_finite() {
            Some(Coord { x, y })
        } else {
            None
        },
        _ => None,
    }
}

fn parse_coord_list(text: &[char], numerals: &Numerals) -> (r: EdrResult<Vec<Coord>>)
    requires
        numerals.wf(),
    ensures
        match r {
            Ok(v) => listed(text@, numerals@) == Ok::<Seq<Coord>, Fault>(v@),
            Err(e) => listed(text@, numerals@) == Err::<Seq<Coord>, Fault>(e@),
        },
{
    let pairs = items(text, ',');
    let ghost all = text::views(pairs@);
    let mut out: Vec<Coord> = Vec::new();
    let mut i: usize = 0;
    while i < pairs.len()
        invariant
            numerals.wf(),
            i <= pairs.len(),
            all == text::views(pairs@),
            all == text::solid(text::pieces(text@, ',')),
            positions(all.take(i as int), numerals@) == Ok::<Seq<Coord>, Fault>(out@),
        decreases pairs.len() - i,
    {
        proof {
            assert(all.take(i + 1).drop_last() == all.take(i as int));
            assert(all.take(i + 1).last() == pairs@[i as int]@);
        }
        match read_position(pairs[i].as_slice(), numerals) {
            Some(c) => {
                out.push(c);
            },
            None => {
                let mut m: String = "'".to_owned();
                m.append(string_of(pairs[i].as_slice()).as_str());
                m.append("' is not an 'x y' position");
                proof {
                    positions_err(all, numerals@, i + 1);
                }
                return Err(bad(m.as_str()));
            },
        }
        i += 1;
    }
    assert(all.take(i as int) == all);
    Ok(out)
}

/// The rings of a polygon's lists, or the first fault among them.
pub open spec fn ring_lists(lists: Seq<Seq<char>>, m: Map<Seq<char>, Double>) -> Result<
    Seq<Seq<Coord>>,
    Fault,
>
    decreases lists.len(),
{
    if lists.len() == 0 {
        Ok(Seq::empty())
    } else {
        match ring_lists(lists.drop_last(), m) {
            Err(e) => Err(e),
            Ok(rings) => match listed(lists.last(), m) {
                Err(e) => Err(e),
                Ok(ring) => Ok(rings.push(ring)),
            },
        }
    }
}

/// The members of a MULTIPOINT's lists, or the first fault among them.
pub open spec fn members(lists: Seq<Seq<char>>, m: Map<Seq<char>, Double>) -> Result<
    Seq<Coord>,
    Fault,
>
    decreases lists.len(),
{
    if lists.len() == 0 {
        Ok(Seq::empty())
    } else {
        match members(lists.drop_last(), m) {
            Err(e) => Err(e),
            Ok(cs) => match listed(lists.last(), m) {
                Err(e) => Err(e),
                Ok(list) => if list.len() == 1 {
                    Ok(cs.push(list[0]))
                } else {
                    Err(bad_coords("each MULTIPOINT member is one position"@))
                },
            },
        }
    }
}

proof fn lists_err(lists: Seq<Seq<char>>, m: Map<Seq<char>, Double>, k: int)
    requires
        0 <= k <= lists.len(),
    ensures
        ring_lists(lists.take(k), m) is Err ==> ring_lists(lists, m) == ring_lists(
            lists.take(k),
            m,
        ),
        members(lists.take(k), m) is Err ==> members(lists, m) == members(lists.take(k), m),
    decreases lists.len() - k,
{
    if k == lists.len() {
        assert(lists.take(k) == lists);
    } else {
        assert(lists.take(k + 1).drop_last() == lists.take(k));
        lists_err(lists, m, k + 1);
    }
}

fn read_rings(lists: &Vec<Vec<char>>, numerals: &Numerals) -> (r: EdrResult<Vec<Vec<Coord>>>)
    requires
        numerals.wf(),
    ensures
        match r {
            Ok(v) => ring_lists(text::views(lists@), numerals@) == Ok::<
                Seq<Seq<Coord>>,
                Fault,
            >(rings_of(v@)),
            Err(e) => ring_lists(text::views(lists@), numerals@) == Err::<
                Seq<Seq<Coord>>,
                Fault,
            >(e@),
        },
{
    let ghost all = text::views(lists@);
    let mut out: Vec<Vec<Coord>> = Vec::new();
    let mut i: usize = 0;
    assert(rings_of(out@) == Seq::<Seq<Coord>>::empty());
    while i < lists.len()
        invariant
            numerals.wf(),
            i <= lists.len(),
            all == text::views(lists@),
            ring_lists(all.take(i as int), numerals@) == Ok::<
                Seq<Seq<Coord>>,
                Fault,
            >(rings_of(out@)),
        decreases lists.len() - i,
    {
        proof {
            assert(all.take(i + 1).drop_last() == all.take(i as int));
            assert(all.take(i + 1).last() == lists@[i as int]@);
            lists_err(all, numerals@, i + 1);
        }
        let ghost before = rings_of(out@);
        match parse_coord_list(lists[i].as_slice(), numerals) {
            Ok(ring) => {
                out.push(ring);
                assert(rings_of(out@) == before.push(ring@));
            },
            Err(e) => {
                return Err(e);
            },
        }
        i += 1;
    }
    assert(all.take(i as int) == all);
    Ok(out)
}

fn read_members(lists: &Vec<Vec<char>>, numerals: &Numerals) -> (r: EdrResult<Vec<Coord>>)
    requires
        numerals.wf(),
    ensures
        match r {
            Ok(v) => members(text::views(lists@), numerals@) == Ok::<
                Seq<Coord>,
                Fault,
            >(v@),
            Err(e) => members(text::views(lists@), numerals@) == Err::<
                Seq<Coord>,
                Fault,
            >(e@),
        },
{
    let ghost all = text::views(lists@);
    let mut out: Vec<Coord> = Vec::new();
    let mut i: usize = 0;
    while i < lists.len()
        invariant
            numerals.wf(),
            i <= lists.len(),
            all == text::views(lists@),
            members(all.take(i as int), numerals@) == Ok::<Seq<Coord>, Fault>(out@),
        decreases lists.len() - i,
    {
        proof {
            assert(all.take(i + 1).drop_last() == all.take(i as int));
            assert(all.take(i + 1).last() == lists@[i as int]@);
            lists_err(all, numerals@, i + 1);
        }
        match parse_coord_list(lists[i].as_slice(), numerals) {
            Ok(list) => {
                if list.len() != 1 {
                    return Err(bad("each MULTIPOINT member is one position"));
                }
                out.push(list[0]);
            },
            Err(e) => {
                return Err(e);
            },
        }
        i += 1;
    }
    assert(all.take(i as int) == all);
    Ok(out)
}

/// Whether two positions have the same coordinates.
pub open spec fn same_place(a: Coord, b: Coord) -> bool {
    a.x.equal(b.x) && a.y.equal(b.y)
}

/// The geometry that an outline's lists give.
pub open spec fn filled(form: Form, lists: Seq<Seq<char>>, m: Map<Seq<char>, Double>) -> Result<
    Shape,
    Fault,
> {
    match form {
        Form::Point => match listed(lists[0], m) {
            Err(e) => Err(e),
            Ok(cs) => if cs.len() == 1 {
                Ok(Shape::Point(cs[0]))
            } else {
                Err(bad_coords("POINT takes exactly one position"@))
            },
        },
        Form::Line => match listed(lists[0], m) {
            Err(e) => Err(e),
            Ok(cs) => if cs.len() < 2 {
                Err(bad_coords("LINESTRING needs at least two positions"@))
            } else {
                Ok(Shape::LineString(cs))
            },
        },
        Form::Rings => match ring_lists(lists, m) {
            Err(e) => Err(e),
            Ok(rings) => if rings.len() == 0 || rings[0].len() < 4 {
                Err(
                    bad_coords(
                        "POLYGON needs a closed exterior ring of at least four positions"@,
                    ),
                )
            } else if !same_place(rings[0].first(), rings[0].last()) {
                Err(bad_coords("POLYGON exterior ring is not closed"@))
            } else {
                Ok(Shape::Polygon(rings))
            },
        },
        _ => {
            let read = if form == Form::Members {
                members(lists, m)
            } else {
                listed(lists[0], m)
            };
            match read {
                Err(e) => Err(e),
                Ok(cs) => if cs.len() == 0 {
                    Err(bad_coords("MULTIPOINT is empty"@))
                } else {
                    Ok(Shape::MultiPoint(cs))
                },
            }
        },
    }
}

/// The geometry that a text gives, its numerals read by `m`.
pub open spec fn parsed(input: Seq<char>, m: Map<Seq<char>, Double>) -> Result<
    Shape,
    Fault,
> {
    match outlined(input) {
        Err(e) => Err(e),
        Ok(o) => filled(o.0, o.1, m),
    }
}

impl Outline {
    /// Each form but the grouped ones has one list.
    pub open spec fn wf(&self) -> bool {
        self.form == Form::Members || self.form == Form::Rings || self.lists@.len() == 1
    }

    /// Read the positions and check what the geometry's type asks of them.
    pub fn fill(&self, numerals: &Numerals) -> (r: EdrResult<Geometry>)
        requires
            self.wf(),
            numerals.wf(),
        ensures
            shape_of(r) == filled(self.form, text::views(self.lists@), numerals@),
    {
        match self.form {
            Form::Point => match parse_coord_list(self.lists[0].as_slice(), numerals) {
                Err(e) => Err(e),
                Ok(cs) => if cs.len() == 1 {
                    Ok(Geometry::Point(cs[0]))
                } else {
                    Err(bad("POINT takes exactly one position"))
                },
            },
            Form::Line => match parse_coord_list(self.lists[0].as_slice(), numerals) {
                Err(e) => Err(e),
                Ok(cs) => if cs.len() < 2 {
                    Err(bad("LINESTRING needs at least two positions"))
                } else {
                    Ok(Geometry::LineString(cs))
                },
            },
            Form::Rings => match read_rings(&self.lists, numerals) {
                Err(e) => Err(e),
                Ok(rings) => {
                    if rings.len() == 0 || rings[0].len() < 4 {
                        return Err(
                            bad("POLYGON needs a closed exterior ring of at least four positions"),
                        );
                    }
                    let first = rings[0][0];
                    let last = rings[0][rings[0].len() - 1];
                    if !(first.x.is_equal(last.x) && first.y.is_equal(last.y)) {
                        return Err(bad("POLYGON exterior ring is not closed"));
                    }
                    Ok(Geometry::Polygon(rings))
                },
            },
            Form::Members => match read_members(&self.lists, numerals) {
                Err(e) => Err(e),
                Ok(cs) => if cs.len() == 0 {
                    Err(bad("MULTIPOINT is empty"))
                } else {
                    Ok(Geometry::MultiPoint(cs))
                },
            },
            Form::Positions => match parse_coord_list(self.lists[0].as_slice(), numerals) {
                Err(e) => Err(e),
                Ok(cs) => if cs.len() == 0 {
                    Err(bad("MULTIPOINT is empty"))
                } else {
                    Ok(Geometry::MultiPoint(cs))
                },
            },
        }
    }
}

/// The texts that stand where a pair's numbers belong.
pub open spec fn pair_numerals(pair: Seq<char>) -> Seq<Seq<char>> {
    let w = text::spaced(pair);
    if w.len() <= 2 {
        w
    } else {
        w.take(2)
    }
}

pub open spec fn pairs_numerals(pairs: Seq<Seq<char>>) -> Seq<Seq<char>>
    decreases pairs.len(),
{
    if pairs.len() == 0 {
        Seq::empty()
    } else {
        pairs_numerals(pairs.drop_last()) + pair_numerals(pairs.last())
    }
}

/// The texts that stand where numbers belong in a geometry's lists.
pub open spec fn lists_numerals(lists: Seq<Seq<char>>) -> Seq<Seq<char>>
    decreases lists.len(),
{
    if lists.len() == 0 {
        Seq::empty()
    } else {
        lists_numerals(lists.drop_last()) + pairs_numerals(
            text::solid(text::pieces(lists.last(), ',')),
        )
    }
}

impl Outline {
    /// The texts that stand where numbers belong, in order.
    pub fn numerals(&self) -> (r: Vec<String>)
        ensures
            text::texts(r@) == lists_numerals(text::views(self.lists@)),
    {
        let ghost all = text::views(self.lists@);
        let mut out: Vec<String> = Vec::new();
        let mut i: usize = 0;
        assert(text::texts(out@) == Seq::<Seq<char>>::empty());
        while i < self.lists.len()
            invariant
                i <= self.lists.len(),
                all == text::views(self.lists@),
                text::texts(out@) == lists_numerals(all.take(i as int)),
            decreases self.lists.len() - i,
        {
            let pairs = items(self.lists[i].as_slice(), ',');
            let ghost base = text::texts(out@);
            let ghost ps = text::views(pairs@);
            let mut j: usize = 0;
            assert(base + pairs_numerals(ps.take(0)) == base);
            while j < pairs.len()
                invariant
                    j <= pairs.len(),
                    ps == text::views(pairs@),
                    text::texts(out@) == base + pairs_numerals(ps.take(j as int)),
                decreases pairs.len() - j,
            {
                let w = words(pairs[j].as_slice());
                let ghost ws = text::views(w@);
                let ghost before = text::texts(out@);
                let n: usize = if w.len() <= 2 {
                    w.len()
                } else {
                    2
                };
                let mut k: usize = 0;
                assert(before + ws.take(0) == before);
                while k < n
                    invariant
                        k <= n <= w.len(),
                        ws == text::views(w@),
                        text::texts(out@) == before + ws.take(k as int),
                    decreases n - k,
                {
                    let ghost sofar = text::texts(out@);
                    out.push(string_of(w[k].as_slice()));
                    proof {
                        assert(text::texts(out@) == sofar.push(ws[k as int]));
                        assert(ws.take(k + 1) == ws.take(k as int).push(ws[k as int]));
                        assert(before + ws.take(k + 1) == (before + ws.take(k as int)).push(
                            ws[k as int],
                        ));
                    }
                    k += 1;
                }
                proof {
                    assert(ws.take(n as int) == pair_numerals(pairs@[j as int]@)) by {
                        if w.len() <= 2 {
                            assert(ws.take(n as int) == ws);
                        }
                    }
                    assert(ps.take(j + 1).drop_last() == ps.take(j as int));
                    assert(ps.take(j + 1).last() == pairs@[j as int]@);
                    assert(base + (pairs_numerals(ps.take(j as int)) + ws.take(n as int)) == (base
                        + pairs_numerals(ps.take(j as int))) + ws.take(n as int));
                }
                j += 1;
            }
            proof {
                assert(ps.take(j as int) == ps);
                assert(all.take(i + 1).drop_last() == all.take(i as int));
                assert(all.take(i + 1).last() == self.lists@[i as int]@);
            }
            i += 1;
        }
        assert(all.take(i as int) == all);
        out
    }
}

/// Whether two readings agree on every text of a list.
pub open spec fn agree(
    m: Map<Seq<char>, Double>,
    n: Map<Seq<char>, Double>,
    on: Seq<Seq<char>>,
) -> bool {
    forall|i: int|
        0 <= i < on.len() ==> numerals::reading(m, #[trigger] on[i]) == numerals::reading(n, on[i])
}

proof fn positions_agree(
    pairs: Seq<Seq<char>>,
    m: Map<Seq<char>, Double>,
    n: Map<Seq<char>, Double>,
)
    requires
        agree(m, n, pairs_numerals(pairs)),
    ensures
        positions(pairs, m) == positions(pairs, n),
    decreases pairs.len(),
{
    if pairs.len() > 0 {
        let a = pairs_numerals(pairs.drop_last());
        let b = pair_numerals(pairs.last());
        let s = pairs_numerals(pairs);
        assert forall|i: int| 0 <= i < a.len() implies numerals::reading(m, #[trigger] a[i])
            == numerals::reading(n, a[i]) by {
            assert(s[i] == a[i]);
        }
        positions_agree(pairs.drop_last(), m, n);
        let w = text::spaced(pairs.last());
        if w.len() >= 2 {
            assert(s[a.len() as int] == b[0] && b[0] == w[0]);
            assert(s[a.len() as int + 1] == b[1] && b[1] == w[1]);
        }
    }
}

proof fn lists_agree(lists: Seq<Seq<char>>, m: Map<Seq<char>, Double>, n: Map<Seq<char>, Double>)
    requires
        agree(m, n, lists_numerals(lists)),
    ensures
        ring_lists(lists, m) == ring_lists(lists, n),
        members(lists, m) == members(lists, n),
        forall|i: int|
            0 <= i < lists.len() ==> listed(#[trigger] lists[i], m) == listed(lists[i], n),
    decreases lists.len(),
{
    if lists.len() > 0 {
        let front = lists.drop_last();
        let a = lists_numerals(front);
        let b = pairs_numerals(text::solid(text::pieces(lists.last(), ',')));
        let s = lists_numerals(lists);
        assert forall|i: int| 0 <= i < a.len() implies numerals::reading(m, #[trigger] a[i])
            == numerals::reading(n, a[i]) by {
            assert(s[i] == a[i]);
        }
        assert forall|i: int| 0 <= i < b.len() implies numerals::reading(m, #[trigger] b[i])
            == numerals::reading(n, b[i]) by {
            assert(s[a.len() as int + i] == b[i]);
        }
        lists_agree(front, m, n);
        positions_agree(text::solid(text::pieces(lists.last(), ',')), m, n);
        assert forall|i: int| 0 <= i < lists.len() implies listed(#[trigger] lists[i], m)
            == listed(lists[i], n) by {
            if i < front.len() {
                assert(front[i] == lists[i]);
            }
        }
    }
}

/// A geometry depends on no numerals but those its outline lists: two readings
/// that agree on them give the same geometry, or the same fault.
pub proof fn listed_numerals_suffice(
    input: Seq<char>,
    m: Map<Seq<char>, Double>,
    n: Map<Seq<char>, Double>,
)
    requires
        outlined(input) is Ok ==> agree(m, n, lists_numerals(outlined(input)->Ok_0.1)),
    ensures
        parsed(input, m) == parsed(input, n),
{
    match outlined(input) {
        Ok(o) => {
            lists_agree(o.1, m, n);
        },
        Err(e) => {},
    }
}

/// Parse an EDR `coords` value, its numerals read beforehand.
pub fn parse(input: &str, numerals: &Numerals) -> (r: EdrResult<Geometry>)
    requires
        numerals.wf(),
    ensures
        shape_of(r) == parsed(input@, numerals@),
{
    match outline(input) {
        Ok(o) => o.fill(numerals),
        Err(e) => Err(e),
    }
}

/// The rings one after the other.
pub open spec fn chained(rings: Seq<Seq<Coord>>) -> Seq<Coord>
    decreases rings.len(),
{
    if rings.len() == 0 {
        Seq::empty()
    } else {
        chained(rings.drop_last()) + rings.last()
    }
}

impl Shape {
    /// Every vertex.
    pub open spec fn corners(self) -> Seq<Coord> {
        match self {
            Shape::Point(c) => seq![c],
            Shape::MultiPoint(cs) => cs,
            Shape::LineString(cs) => cs,
            Shape::Polygon(rings) => chained(rings),
        }
    }
}

/// The bits of the greatest finite number.
pub const MAX: u64 = 0x7fef_ffff_ffff_ffff;

/// The bits of the least finite number.
pub const MIN: u64 = 0xffef_ffff_ffff_ffff;

/// West, south, east and north of a list of positions.
pub struct Bounds {
    pub west: Double,
    pub south: Double,
    pub east: Double,
    pub north: Double,
}

pub open spec fn bounds(cs: Seq<Coord>) -> Bounds
    decreases cs.len(),
{
    if cs.len() == 0 {
        Bounds {
            west: Double { bits: MAX },
            south: Double { bits: MAX },
            east: Double { bits: MIN },
            north: Double { bits: MIN },
        }
    } else {
        let b = bounds(cs.drop_last());
        let c = cs.last();
        Bounds {
            west: b.west.lesser(c.x),
            south: b.south.lesser(c.y),
            east: b.east.greater(c.x),
            north: b.north.greater(c.y),
        }
    }
}

/// Whether a position lies within bounds, their edges included.
pub open spec fn within(b: Bounds, c: Coord) -> bool {
    b.west.at_most(c.x) && c.x.at_most(b.east) && b.south.at_most(c.y) && c.y.at_most(b.north)
}

/// Every vertex with finite coordinates lies within the bounds of its
/// geometry, which are finite too.
pub proof fn bounds_enclose(cs: Seq<Coord>)
    requires
        forall|i: int| 0 <= i < cs.len() ==> (#[trigger] cs[i]).x.finite() && cs[i].y.finite(),
    ensures
        forall|i: int| 0 <= i < cs.len() ==> within(bounds(cs), #[trigger] cs[i]),
        bounds(cs).west.finite() && bounds(cs).south.finite(),
        bounds(cs).east.finite() && bounds(cs).north.finite(),
    decreases cs.len(),
{
    if cs.len() > 0 {
        let front = cs.drop_last();
        assert forall|i: int| 0 <= i < front.len() implies (#[trigger] front[i]).x.finite()
            && front[i].y.finite() by {
            assert(front[i] == cs[i]);
        }
        bounds_enclose(front);
        assert(cs.last() == cs[cs.len() - 1]);
        assert forall|i: int| 0 <= i < cs.len() implies within(bounds(cs), #[trigger] cs[i]) by {
            if i < front.len() {
                assert(within(bounds(front), front[i]));
            }
        }
    }
}

/// What is worked out of an edge and a point: the edge's box, widened by the
/// tolerance on each side, and the point's distance from the edge's line.
#[derive(Debug, Clone, Copy, PartialEq, Eq, Structural)]
pub struct EdgeMeasure {
    pub west: Double,
    pub south: Double,
    pub east: Double,
    pub north: Double,
    pub offset: Double,
}

/// What is worked out of a ring and a point: for each edge from a vertex to
/// the next its measure, and for each vertex the longitude at which the line
/// from it to the vertex before it, the last one for the first, meets the
/// point's latitude.
#[derive(Debug, Clone)]
pub struct RingMeasure {
    pub edges: Vec<EdgeMeasure>,
    pub crossings: Vec<Double>,
}

/// The bits of the tolerance for a point on an edge, 1e-9 degrees: far below
/// the grid spacing of the collections served here.
pub const EPSILON: u64 = 0x3e11_2e0b_e826_d695;

/// Whether a point is on an edge.
pub open spec fn on_edge(e: EdgeMeasure, p: Coord) -> bool {
    !p.x.less(e.west) && !e.east.less(p.x) && !p.y.less(e.south) && !e.north.less(p.y)
        && e.offset.at_most(Double { bits: EPSILON })
}

pub open spec fn on_any_edge(edges: Seq<EdgeMeasure>, p: Coord) -> bool {
    exists|i: int| 0 <= i < edges.len() && on_edge(#[trigger] edges[i], p)
}

/// Whether the line from a vertex to the one before it crosses the ray that
/// runs east from the point. Half-open in latitude, so that a vertex counts
/// for one of its edges only.
pub open spec fn crosses(ring: Seq<Coord>, crossings: Seq<Double>, p: Coord, i: int) -> bool {
    let a = ring[i];
    let b = ring[if i == 0 {
        ring.len() - 1
    } else {
        i - 1
    }];
    p.y.less(a.y) != p.y.less(b.y) && p.x.less(crossings[i])
}

/// How many of a ring's first `n` lines cross the ray.
pub open spec fn crossed(ring: Seq<Coord>, crossings: Seq<Double>, p: Coord, n: nat) -> nat
    decreases n,
{
    if n == 0 {
        0
    } else {
        crossed(ring, crossings, p, (n - 1) as nat) + if crosses(ring, crossings, p, n - 1) {
            1nat
        } else {
            0nat
        }
    }
}

/// Whether a ring winds round a point: the ray crosses it an odd number of
/// times.
pub open spec fn surrounds(ring: Seq<Coord>, crossings: Seq<Double>, p: Coord) -> bool {
    ring.len() >= 3 && crossed(ring, crossings, p, ring.len()) % 2 == 1
}

/// Whether measures fit the rings that they are of.
pub open spec fn measured(rings: Seq<Seq<Coord>>, measures: Seq<RingMeasure>) -> bool {
    &&& measures.len() == rings.len()
    &&& forall|i: int|
        0 <= i < rings.len() ==> (#[trigger] measures[i]).crossings@.len() == rings[i].len()
}

/// Whether a polygon covers a point: on an edge of any ring, or inside the
/// exterior ring and inside none of the others. No other geometry covers
/// anything.
pub open spec fn covers(g: Shape, measures: Seq<RingMeasure>, p: Coord) -> bool {
    match g {
        Shape::Polygon(rings) => {
            &&& rings.len() > 0
            &&& {
                ||| exists|i: int|
                    0 <= i < rings.len() && on_any_edge(#[trigger] measures[i].edges@, p)
                ||| surrounds(rings[0], measures[0].crossings@, p) && forall|i: int|
                    1 <= i < rings.len() ==> !surrounds(
                        #[trigger] rings[i],
                        measures[i].crossings@,
                        p,
                    )
            }
        },
        _ => false,
    }
}

/// Whether `p` lies on any edge of a ring.
fn on_boundary(edges: &Vec<EdgeMeasure>, p: Coord) -> (r: bool)
    ensures
        r == on_any_edge(edges@, p),
{
    let mut i: usize = 0;
    while i < edges.len()
        invariant
            i <= edges.len(),
            forall|j: int| 0 <= j < i ==> !on_edge(#[trigger] edges@[j], p),
        decreases edges.len() - i,
    {
        let e = edges[i];
        if !p.x.is_less(e.west) && !e.east.is_less(p.x) && !p.y.is_less(e.south)
            && !e.north.is_less(p.y) && e.offset.is_at_most(Double { bits: EPSILON }) {
            assert(on_edge(edges@[i as int], p));
            return true;
        }
        i += 1;
    }
    false
}

fn ring_contains(ring: &Vec<Coord>, crossings: &Vec<Double>, p: Coord) -> (r: bool)
    requires
        crossings@.len() == ring@.len(),
    ensures
        r == surrounds(ring@, crossings@, p),
{
    let n: usize = ring.len();
    if n < 3 {
        return false;
    }
    let mut inside = false;
    let mut j: usize = n - 1;
    let mut i: usize = 0;
    while i < n
        invariant
            n == ring@.len(),
            n >= 3,
            crossings@.len() == n,
            i <= n,
            j == (if i == 0 {
                n - 1
            } else {
                i - 1
            }),
            inside == (crossed(ring@, crossings@, p, i as nat) % 2 == 1),
        decreases n - i,
    {
        let (a, b) = (ring[i], ring[j]);
        if p.y.is_less(a.y) != p.y.is_less(b.y) && p.x.is_less(crossings[i]) {
            inside = !inside;
        }
        j = i;
        i += 1;
    }
    inside
}

impl Geometry {
    /// Every vertex, for extent computation.
    pub fn vertices(&self) -> (r: Vec<Coord>)
        ensures
            r@ == self@.corners(),
    {
        let mut out: Vec<Coord> = Vec::new();
        match self {
            Geometry::Point(c) => {
                out.push(*c);
                assert(out@ == seq![*c]);
            },
            Geometry::MultiPoint(cs) => {
                add_all(&mut out, cs);
            },
            Geometry::LineString(cs) => {
                add_all(&mut out, cs);
            },
            Geometry::Polygon(rings) => {
                let ghost all = rings_of(rings@);
                let mut i: usize = 0;
                while i < rings.len()
                    invariant
                        i <= rings.len(),
                        all == rings_of(rings@),
                        out@ == chained(all.take(i as int)),
                    decreases rings.len() - i,
                {
                    add_all(&mut out, &rings[i]);
                    proof {
                        assert(all.take(i + 1).drop_last() == all.take(i as int));
                        assert(all.take(i + 1).last() == rings@[i as int]@);
                    }
                    i += 1;
                }
                assert(all.take(i as int) == all);
            },
        }
        out
    }

    /// `[west, south, east, north]` over all vertices.
    pub fn bbox(&self) -> (r: [Double; 4])
        ensures
            (Bounds { west: r[0], south: r[1], east: r[2], north: r[3] }) == bounds(
                self@.corners(),
            ),
    {
        let vertices = self.vertices();
        let mut west: Double = Double { bits: MAX };
        let mut south: Double = Double { bits: MAX };
        let mut east: Double = Double { bits: MIN };
        let mut north: Double = Double { bits: MIN };
        let mut i: usize = 0;
        while i < vertices.len()
            invariant
                i <= vertices.len(),
                bounds(vertices@.take(i as int)) == (Bounds { west, south, east, north }),
            decreases vertices.len() - i,
        {
            let c = vertices[i];
            assert(vertices@.take(i + 1).drop_last() == vertices@.take(i as int));
            west = west.min(c.x);
            south = south.min(c.y);
            east = east.max(c.x);
            north = north.max(c.y);
            i += 1;
        }
        assert(vertices@.take(i as int) == vertices@);
        [west, south, east, north]
    }

    /// Ray-casting test against the exterior ring, minus any hole that contains
    /// the point. Non-polygon geometries are treated as covering nothing.
    ///
    /// A point exactly on a boundary counts as inside, so an area query over a
    /// rectangle returns the same cells as the equivalent cube: on a 0.25°
    /// grid a great many cell centres land precisely on a whole-degree edge,
    /// and dropping them would punch holes along the border.
    pub fn contains(&self, p: Coord, measures: &Vec<RingMeasure>) -> (r: bool)
        requires
            self@ matches Shape::Polygon(rings) ==> measured(rings, measures@),
        ensures
            r == covers(self@, measures@, p),
    {
        match self {
            Geometry::Polygon(rings) => {
                let ghost all = rings_of(rings@);
                if rings.len() == 0 {
                    return false;
                }
                let mut i: usize = 0;
                while i < rings.len()
                    invariant
                        i <= rings.len(),
                        measures@.len() == rings@.len(),
                        forall|j: int|
                            0 <= j < i ==> !on_any_edge(#[trigger] measures@[j].edges@, p),
                        all == rings_of(rings@),
                        self@ == Shape::Polygon(all),
                    decreases rings.len() - i,
                {
                    if on_boundary(&measures[i].edges, p) {
                        assert(on_any_edge(measures@[i as int].edges@, p));
                        return true;
                    }
                    i += 1;
                }
                assert(all[0] == rings@[0]@);
                if !ring_contains(&rings[0], &measures[0].crossings, p) {
                    return false;
                }
                let mut k: usize = 1;
                while k < rings.len()
                    invariant
                        1 <= k <= rings.len(),
                        measured(all, measures@),
                        all == rings_of(rings@),
                        self@ == Shape::Polygon(all),
                        forall|j: int|
                            0 <= j < rings.len() ==> !on_any_edge(#[trigger] measures@[j].edges@, p),
                        forall|j: int|
                            1 <= j < k ==> !surrounds(
                                #[trigger] all[j],
                                measures@[j].crossings@,
                                p,
                            ),
                    decreases rings.len() - k,
                {
                    assert(measures@[k as int].crossings@.len() == all[k as int].len());
                    if ring_contains(&rings[k], &measures[k].crossings, p) {
                        assert(surrounds(all[k as int], measures@[k as int].crossings@, p));
                        return false;
                    }
                    k += 1;
                }
                true
            },
            _ => false,
        }
    }
}

fn add_all(out: &mut Vec<Coord>, cs: &Vec<Coord>)
    ensures
        final(out)@ == old(out)@ + cs@,
{
    let mut i: usize = 0;
    while i < cs.len()
        invariant
            i <= cs.len(),
            out@ == old(out)@ + cs@.take(i as int),
        decreases cs.len() - i,
    {
        out.push(cs[i]);
        assert(cs@.take(i + 1) == cs@.take(i as int).push(cs@[i as int]));
        i += 1;
    }
    assert(cs@.take(i as int) == cs@);
}

/// The closed ring round a box.
pub open spec fn box_ring(b: Bounds) -> Seq<Coord> {
    Seq::<Coord>::empty().push(Coord { x: b.west, y: b.south }).push(
        Coord { x: b.east, y: b.south },
    ).push(Coord { x: b.east, y: b.north }).push(Coord { x: b.west, y: b.north }).push(
        Coord { x: b.west, y: b.south },
    )
}

/// Whether a measure of a box's ring is true to it for a point: an edge's
/// widened box holds the edge, a point on an edge's line is within the tolerance
/// of it, and the line of an upright edge meets every latitude at its own
/// longitude.
pub open spec fn true_to_box(b: Bounds, m: RingMeasure, p: Coord) -> bool {
    let ring = box_ring(b);
    &&& m.edges@.len() == 4
    &&& m.crossings@.len() == 5
    &&& forall|i: int|
        0 <= i < 4 ==> {
            let e = #[trigger] m.edges@[i];
            &&& !ring[i].x.less(e.west) && !ring[i + 1].x.less(e.west)
            &&& !e.east.less(ring[i].x) && !e.east.less(ring[i + 1].x)
            &&& !ring[i].y.less(e.south) && !ring[i + 1].y.less(e.south)
            &&& !e.north.less(ring[i].y) && !e.north.less(ring[i + 1].y)
            &&& (p.x.equal(ring[i].x) && p.x.equal(ring[i + 1].x)) || (p.y.equal(ring[i].y)
                && p.y.equal(ring[i + 1].y)) ==> e.offset.at_most(Double { bits: EPSILON })
        }
    &&& m.crossings@[2].equal(b.east)
    &&& m.crossings@[4].equal(b.west)
}

/// A box covers every point within it, its corners and edges included.
pub proof fn a_box_covers_its_points(b: Bounds, m: RingMeasure, p: Coord)
    requires
        b.west.finite() && b.south.finite() && b.east.finite() && b.north.finite(),
        within(b, p),
        true_to_box(b, m, p),
        forall|i: int|
            0 <= i < 4 ==> !(#[trigger] m.edges@[i]).west.nan() && !m.edges@[i].east.nan()
                && !m.edges@[i].south.nan() && !m.edges@[i].north.nan(),
    ensures
        covers(Shape::Polygon(seq![box_ring(b)]), seq![m], p),
{
    let ring = box_ring(b);
    let rings = seq![ring];
    let measures = seq![m];
    assert(rings[0] == ring && measures[0] == m);
    if p.x.equal(b.east) {
        let e = m.edges@[1];
        assert(on_edge(e, p));
        assert(on_any_edge(measures[0].edges@, p));
    } else if p.y.equal(b.north) {
        let e = m.edges@[2];
        assert(on_edge(e, p));
        assert(on_any_edge(measures[0].edges@, p));
    } else {
        let c = m.crossings@;
        reveal_with_fuel(crossed, 6);
        assert(!crosses(ring, c, p, 0));
        assert(!crosses(ring, c, p, 1));
        assert(crosses(ring, c, p, 2));
        assert(!crosses(ring, c, p, 3));
        assert(!crosses(ring, c, p, 4));
        assert(crossed(ring, c, p, 5) == 1);
        assert(surrounds(ring, c, p));
    }
}

/// A box covers no point outside it, but for those that its edges, widened by the
/// tolerance, take in.
pub proof fn a_box_leaves_out_other_points(b: Bounds, m: RingMeasure, p: Coord)
    requires
        b.west.at_most(b.east) && b.south.at_most(b.north),
        !within(b, p),
        !on_any_edge(m.edges@, p),
        true_to_box(b, m, p),
    ensures
        !covers(Shape::Polygon(seq![box_ring(b)]), seq![m], p),
{
    let ring = box_ring(b);
    let rings = seq![ring];
    let measures = seq![m];
    let c = m.crossings@;
    assert(rings[0] == ring && measures[0] == m);
    assert forall|i: int| 0 <= i < rings.len() implies !on_any_edge(
        #[trigger] measures[i].edges@,
        p,
    ) by {
        assert(i == 0);
    }
    reveal_with_fuel(crossed, 6);
    assert(!crosses(ring, c, p, 0));
    assert(!crosses(ring, c, p, 1));
    assert(!crosses(ring, c, p, 3));
    assert(crosses(ring, c, p, 2) == crosses(ring, c, p, 4));
}

/// The ring that two rings make when they are glued along the edge between the
/// first vertex and the last of each: the one runs from `u` to `w`, the other from
/// `w` back to `u`.
pub open spec fn glued(s: Seq<Coord>, t: Seq<Coord>) -> Seq<Coord> {
    s + t.subrange(1, t.len() - 1)
}

/// Whether two rings share the edge between first and last vertex, with one place
/// at which its line meets the point's latitude, and `crossings` are those of the
/// ring that they are glued to.
pub open spec fn share_an_edge(
    s: Seq<Coord>,
    of_s: Seq<Double>,
    t: Seq<Coord>,
    of_t: Seq<Double>,
    crossings: Seq<Double>,
) -> bool {
    &&& s.len() >= 3 && t.len() >= 3
    &&& of_s.len() == s.len() && of_t.len() == t.len()
    &&& s.first() == t.last() && s.last() == t.first()
    &&& of_s[0] == of_t[0]
    &&& crossings.len() == s.len() + t.len() - 2
    &&& crossings[0] == of_t[t.len() - 1]
    &&& forall|i: int| 1 <= i < s.len() ==> #[trigger] crossings[i] == of_s[i]
    &&& forall|k: int|
        1 <= k < t.len() - 1 ==> crossings[s.len() + k - 1] == #[trigger] of_t[k]
}

proof fn glued_starts_as_the_first(
    s: Seq<Coord>,
    of_s: Seq<Double>,
    t: Seq<Coord>,
    of_t: Seq<Double>,
    c: Seq<Double>,
    p: Coord,
    n: nat,
)
    requires
        share_an_edge(s, of_s, t, of_t, c),
        1 <= n <= s.len(),
    ensures
        crossed(glued(s, t), c, p, n) - crossed(glued(s, t), c, p, 1) == crossed(s, of_s, p, n)
            - crossed(s, of_s, p, 1),
    decreases n,
{
    if n > 1 {
        glued_starts_as_the_first(s, of_s, t, of_t, c, p, (n - 1) as nat);
        let g = glued(s, t);
        assert(g[n - 1] == s[n - 1] && g[n - 2] == s[n - 2]);
        assert(c[n - 1] == of_s[n - 1]);
        assert(crosses(g, c, p, n - 1) == crosses(s, of_s, p, n - 1));
    }
}

proof fn glued_ends_as_the_second(
    s: Seq<Coord>,
    of_s: Seq<Double>,
    t: Seq<Coord>,
    of_t: Seq<Double>,
    c: Seq<Double>,
    p: Coord,
    n: nat,
)
    requires
        share_an_edge(s, of_s, t, of_t, c),
        n <= t.len() - 2,
    ensures
        crossed(glued(s, t), c, p, (s.len() + n) as nat) - crossed(glued(s, t), c, p, s.len())
            == crossed(t, of_t, p, (n + 1) as nat) - crossed(t, of_t, p, 1),
    decreases n,
{
    if n > 0 {
        glued_ends_as_the_second(s, of_s, t, of_t, c, p, (n - 1) as nat);
        let g = glued(s, t);
        let i = s.len() + n - 1;
        assert(g[i] == t[n as int]);
        assert(g[i - 1] == t[n - 1]);
        assert(c[s.len() + n - 1] == of_t[n as int]);
        assert(crosses(g, c, p, i) == crosses(t, of_t, p, n as int));
    }
}

/// A ring glued of two rings along a shared edge surrounds a point if and only if
/// exactly one of the two does, whatever their shapes.
pub proof fn a_glued_ring_surrounds_what_one_part_does(
    s: Seq<Coord>,
    of_s: Seq<Double>,
    t: Seq<Coord>,
    of_t: Seq<Double>,
    crossings: Seq<Double>,
    p: Coord,
)
    requires
        share_an_edge(s, of_s, t, of_t, crossings),
    ensures
        surrounds(glued(s, t), crossings, p) <==> surrounds(s, of_s, p) != surrounds(t, of_t, p),
{
    let g = glued(s, t);
    let (a, b) = (s.len(), t.len());
    glued_starts_as_the_first(s, of_s, t, of_t, crossings, p, a);
    glued_ends_as_the_second(s, of_s, t, of_t, crossings, p, (b - 2) as nat);
    assert(g.len() == a + b - 2);
    reveal_with_fuel(crossed, 2);
    assert(g[0] == t[b - 1] && g[g.len() - 1] == t[b - 2]);
    assert(crosses(g, crossings, p, 0) == crosses(t, of_t, p, b - 1));
    assert(crosses(s, of_s, p, 0) == crosses(t, of_t, p, 0));
    assert((a + (b - 2)) as nat == g.len());
}

/// A corner laid anywhere on the way round a ring, and the way back from it, leaves
/// what the ring surrounds as it is: the two lines cross the ray both or neither.
pub proof fn a_detour_changes_nothing(
    ring: Seq<Coord>,
    crossings: Seq<Double>,
    corner: Coord,
    over: Double,
    p: Coord,
)
    requires
        ring.len() >= 3,
        crossings.len() == ring.len(),
    ensures
        surrounds(ring.push(corner).push(ring.last()), crossings.push(over).push(over), p)
            <==> surrounds(ring, crossings, p),
{
    let n = ring.len() as int;
    let longer = ring.push(corner).push(ring.last());
    let c = crossings.push(over).push(over);
    detour_starts_as_the_ring(ring, crossings, corner, over, p, n as nat);
    reveal_with_fuel(crossed, 3);
    assert(longer[n] == corner && longer[n + 1] == ring.last());
    assert(longer[n - 1] == ring.last());
    assert(c[n] == over && c[n + 1] == over);
    assert(crosses(longer, c, p, n) == crosses(longer, c, p, n + 1));
}

proof fn detour_starts_as_the_ring(
    ring: Seq<Coord>,
    crossings: Seq<Double>,
    corner: Coord,
    over: Double,
    p: Coord,
    n: nat,
)
    requires
        ring.len() >= 3,
        crossings.len() == ring.len(),
        n <= ring.len(),
    ensures
        crossed(
            ring.push(corner).push(ring.last()),
            crossings.push(over).push(over),
            p,
            n,
        ) == crossed(ring, crossings, p, n),
    decreases n,
{
    if n > 0 {
        detour_starts_as_the_ring(ring, crossings, corner, over, p, (n - 1) as nat);
    }
}

/// A triangle surrounds a point if and only if the ray east of it crosses exactly
/// one of its sides: a side whose ends lie on either side of the point's latitude
/// and whose line meets that latitude east of the point.
pub proof fn a_triangle_surrounds_by_one_side(
    a: Coord,
    b: Coord,
    c: Coord,
    ab: Double,
    bc: Double,
    ca: Double,
    p: Coord,
)
    ensures
        ({
            let over = |u: Coord, v: Coord, at: Double|
                (p.y.less(u.y) <==> !p.y.less(v.y)) && p.x.less(at);
            let (x, y, z) = (over(a, b, ab), over(b, c, bc), over(c, a, ca));
            surrounds(seq![a, b, c], seq![ca, ab, bc], p) <==> (x && !y && !z) || (!x && y && !z)
                || (!x && !y && z)
        }),
{
    reveal_with_fuel(crossed, 4);
    let r = seq![a, b, c];
    let k = seq![ca, ab, bc];
    assert(r[0] == a && r[1] == b && r[2] == c);
    assert(k[0] == ca && k[1] == ab && k[2] == bc);
}

/// A point on an edge of any ring is covered, a hole's edge included.
pub proof fn an_edge_is_covered(
    rings: Seq<Seq<Coord>>,
    measures: Seq<RingMeasure>,
    p: Coord,
    i: int,
    k: int,
)
    requires
        0 <= i < rings.len(),
        0 <= k < measures[i].edges@.len(),
        ({
            let e = measures[i].edges@[k];
            &&& !p.x.less(e.west) && !e.east.less(p.x) && !p.y.less(e.south) && !e.north.less(p.y)
            &&& e.offset.at_most(Double { bits: EPSILON })
        }),
    ensures
        covers(Shape::Polygon(rings), measures, p),
{
    assert(on_edge(measures[i].edges@[k], p));
    assert(on_any_edge(measures[i].edges@, p));
}

/// A hole takes out of a polygon what it surrounds itself, and nothing else: off
/// all edges, the polygon with the hole covers a point if and only if the polygon
/// without it does and the hole, taken for a polygon, does not.
pub proof fn a_hole_takes_out_what_it_surrounds(
    rings: Seq<Seq<Coord>>,
    measures: Seq<RingMeasure>,
    hole: Seq<Coord>,
    of_hole: RingMeasure,
    p: Coord,
)
    requires
        rings.len() > 0,
        measures.len() == rings.len(),
        forall|i: int, k: int|
            0 <= i < measures.len() && 0 <= k < measures[i].edges@.len() ==> !on_edge(
                #[trigger] measures[i].edges@[k],
                p,
            ),
        forall|k: int|
            0 <= k < of_hole.edges@.len() ==> !on_edge(#[trigger] of_hole.edges@[k], p),
    ensures
        covers(Shape::Polygon(rings.push(hole)), measures.push(of_hole), p) <==> covers(
            Shape::Polygon(rings),
            measures,
            p,
        ) && !covers(Shape::Polygon(seq![hole]), seq![of_hole], p),
{
    let (r, m) = (rings.push(hole), measures.push(of_hole));
    let n = rings.len() as int;
    assert(r[n] == hole && m[n] == of_hole);
    assert(r[0] == rings[0] && m[0] == measures[0]);
    assert forall|i: int| 0 <= i < r.len() implies !on_any_edge(#[trigger] m[i].edges@, p) by {
        if i < n {
            assert(m[i] == measures[i]);
        }
    }
    assert forall|i: int| 0 <= i < n implies !on_any_edge(
        #[trigger] measures[i].edges@,
        p,
    ) by {
    }
    let (h, mh) = (seq![hole], seq![of_hole]);
    assert(h[0] == hole && mh[0] == of_hole);
    assert forall|i: int| 0 <= i < h.len() implies !on_any_edge(#[trigger] mh[i].edges@, p) by {
        assert(i == 0);
    }
    assert forall|i: int| 1 <= i < n implies r[i] == rings[i] && m[i] == measures[i] by {
    }
    if covers(Shape::Polygon(r), m, p) {
        assert forall|i: int| 1 <= i < n implies !surrounds(
            #[trigger] rings[i],
            measures[i].crossings@,
            p,
        ) by {
            assert(!surrounds(r[i], m[i].crossings@, p));
        }
        assert(!surrounds(r[n], m[n].crossings@, p));
    }
    if covers(Shape::Polygon(rings), measures, p) && !covers(Shape::Polygon(h), mh, p) {
        assert(!surrounds(h[0], mh[0].crossings@, p)) by {
            if surrounds(h[0], mh[0].crossings@, p) {
                assert(forall|i: int|
                    1 <= i < h.len() ==> !surrounds(#[trigger] h[i], mh[i].crossings@, p));
            }
        }
        assert forall|i: int| 1 <= i < r.len() implies !surrounds(
            #[trigger] r[i],
            m[i].crossings@,
            p,
        ) by {
            if i < n {
                assert(!surrounds(rings[i], measures[i].crossings@, p));
            }
        }
    }
}

/// Whether a text can stand for a number within a list of positions, and stands for
/// a finite one.
pub open spec fn numeral(s: Seq<char>, m: Map<Seq<char>, Double>) -> bool {
    &&& text::one_word(s)
    &&& text::free_of(s, ',') && text::free_of(s, '(') && text::free_of(s, ')')
    &&& m.contains_key(s) && m[s].finite()
}

/// Positions as they are written: longitude before latitude, a space between the
/// two, and a comma between the positions.
pub open spec fn written(ps: Seq<(Seq<char>, Seq<char>)>) -> Seq<char> {
    text::joined(Seq::new(ps.len(), |i: int| ps[i].0 + " "@ + ps[i].1), ","@)
}

/// The positions that pairs of numerals stand for.
pub open spec fn meant(ps: Seq<(Seq<char>, Seq<char>)>, m: Map<Seq<char>, Double>) -> Seq<Coord> {
    Seq::new(ps.len(), |i: int| Coord { x: m[ps[i].0], y: m[ps[i].1] })
}

/// Whether all of some pairs are of numerals.
pub open spec fn all_numerals(
    ps: Seq<(Seq<char>, Seq<char>)>,
    m: Map<Seq<char>, Double>,
) -> bool {
    forall|i: int|
        0 <= i < ps.len() ==> numeral((#[trigger] ps[i]).0, m) && numeral(ps[i].1, m)
}

proof fn positions_of_pairs(
    pairs: Seq<Seq<char>>,
    ps: Seq<(Seq<char>, Seq<char>)>,
    m: Map<Seq<char>, Double>,
)
    requires
        all_numerals(ps, m),
        pairs.len() == ps.len(),
        forall|i: int|
            0 <= i < ps.len() ==> #[trigger] pairs[i] == ps[i].0 + " "@ + ps[i].1,
    ensures
        positions(pairs, m) == Ok::<Seq<Coord>, Fault>(meant(ps, m)),
    decreases pairs.len(),
{
    if pairs.len() > 0 {
        let (a, b) = (pairs.drop_last(), ps.drop_last());
        assert forall|i: int| 0 <= i < b.len() implies numeral((#[trigger] b[i]).0, m) && numeral(
            b[i].1,
            m,
        ) by {
            assert(b[i] == ps[i]);
        }
        assert forall|i: int| 0 <= i < b.len() implies #[trigger] a[i] == b[i].0 + " "@
            + b[i].1 by {
            assert(a[i] == pairs[i] && b[i] == ps[i]);
        }
        positions_of_pairs(a, b, m);
        let last = ps[ps.len() - 1];
        assert(numeral(last.0, m) && numeral(last.1, m));
        assert(pairs[pairs.len() - 1] == last.0 + " "@ + last.1);
        text::words_of_two(last.0, last.1);
        assert(meant(ps, m) =~= meant(b, m).push(Coord { x: m[last.0], y: m[last.1] }));
    } else {
        assert(meant(ps, m) =~= Seq::<Coord>::empty());
    }
}

proof fn written_is_clean(ps: Seq<(Seq<char>, Seq<char>)>, m: Map<Seq<char>, Double>)
    requires
        ps.len() > 0,
        all_numerals(ps, m),
    ensures
        text::bounded(written(ps)),
        text::free_of(written(ps), '('),
        text::free_of(written(ps), ')'),
    decreases ps.len(),
{
    reveal_strlit(" ");
    reveal_strlit(",");
    let pairs = Seq::new(ps.len(), |i: int| ps[i].0 + " "@ + ps[i].1);
    let n = ps.len() - 1;
    assert(numeral(ps[n].0, m) && numeral(ps[n].1, m));
    text::words_of_two(ps[n].0, ps[n].1);
    let last = pairs[n];
    assert(text::free_of(last, '(') && text::free_of(last, ')'));
    if n > 0 {
        let front = ps.drop_last();
        assert forall|i: int| 0 <= i < front.len() implies numeral((#[trigger] front[i]).0, m)
            && numeral(front[i].1, m) by {
            assert(front[i] == ps[i]);
        }
        written_is_clean(front, m);
        assert(pairs.drop_last() =~= Seq::new(
            front.len(),
            |i: int| front[i].0 + " "@ + front[i].1,
        ));
        let w = written(front);
        assert(written(ps) == w + ","@ + last);
        assert(written(ps)[0] == w[0]);
        assert(written(ps).last() == last.last());
        assert forall|i: int| 0 <= i < written(ps).len() implies written(ps)[i] != '('
            && written(ps)[i] != ')' by {
            if i < w.len() {
                assert(written(ps)[i] == w[i]);
            } else if i > w.len() {
                assert(written(ps)[i] == last[i - w.len() - 1]);
            }
        }
    } else {
        assert(written(ps) == last);
    }
}

/// A list of positions reads back: each comes out in its place, with the first
/// numeral for its longitude and the second for its latitude.
pub proof fn a_written_list_reads_back(ps: Seq<(Seq<char>, Seq<char>)>, m: Map<Seq<char>, Double>)
    requires
        ps.len() > 0,
        all_numerals(ps, m),
    ensures
        listed(written(ps), m) == Ok::<Seq<Coord>, Fault>(meant(ps, m)),
{
    reveal_strlit(",");
    reveal_strlit(" ");
    assert(","@ =~= seq![',']);
    let pairs = Seq::new(ps.len(), |i: int| ps[i].0 + " "@ + ps[i].1);
    assert forall|i: int| 0 <= i < pairs.len() implies text::free_of(#[trigger] pairs[i], ',')
        && text::bounded(pairs[i]) by {
        assert(numeral(ps[i].0, m) && numeral(ps[i].1, m));
        text::words_of_two(ps[i].0, ps[i].1);
    }
    text::pieces_of_joined(pairs, ',');
    text::what_is_bounded_is_solid(pairs);
    positions_of_pairs(pairs, ps, m);
}

proof fn names_stay_whole()
    ensures
        forall|w: Seq<char>|
            w == "POINT"@ || w == "MULTIPOINT"@ || w == "LINESTRING"@ || w == "POLYGON"@ ==> {
                &&& #[trigger] text::bounded(w)
                &&& text::free_of(w, '(')
                &&& text::trimmed(shorn(shorn(shorn(w, " ZM"@), " Z"@), " M"@)) == w
            },
        "POINT"@ != "MULTIPOINT"@ && "POINT"@ != "LINESTRING"@ && "POINT"@ != "POLYGON"@,
        "MULTIPOINT"@ != "LINESTRING"@ && "MULTIPOINT"@ != "POLYGON"@,
        "LINESTRING"@ != "POLYGON"@,
{
    reveal_strlit("POINT");
    reveal_strlit("MULTIPOINT");
    reveal_strlit("LINESTRING");
    reveal_strlit("POLYGON");
    reveal_strlit(" ZM");
    reveal_strlit(" Z");
    reveal_strlit(" M");
    assert("POINT"@.len() == 5 && "MULTIPOINT"@.len() == 10);
    assert("LINESTRING"@.len() == 10 && "POLYGON"@.len() == 7);
    assert("MULTIPOINT"@[0] == 'M' && "LINESTRING"@[0] == 'L');
    assert forall|w: Seq<char>|
        w == "POINT"@ || w == "MULTIPOINT"@ || w == "LINESTRING"@ || w == "POLYGON"@ implies {
        &&& #[trigger] text::bounded(w)
        &&& text::free_of(w, '(')
        &&& text::trimmed(shorn(shorn(shorn(w, " ZM"@), " Z"@), " M"@)) == w
    } by {
        let n = w.len() as int;
        assert(w[n - 1] == 'T' || w[n - 1] == 'G' || w[n - 1] == 'N');
        assert(w[0] == 'P' || w[0] == 'M' || w[0] == 'L');
        assert forall|p: Seq<char>|
            p == " ZM"@ || p == " Z"@ || p == " M"@ implies !#[trigger] text::closes(w, p) by {
            if text::closes(w, p) {
                let tail = w.skip(n - p.len());
                assert(tail[p.len() - 1] == w[n - 1]);
                assert(p[p.len() - 1] == 'M' || p[p.len() - 1] == 'Z');
            }
        }
        assert(shorn(w, " ZM"@) == w);
        assert(shorn(w, " Z"@) == w);
        assert(shorn(w, " M"@) == w);
        text::trimming_leaves_what_is_bounded(w);
    }
}

proof fn an_outline_reads_back(word: Seq<char>, body: Seq<char>)
    requires
        word == "POINT"@ || word == "MULTIPOINT"@ || word == "LINESTRING"@ || word == "POLYGON"@,
        text::bounded(body),
    ensures
        ({
            let s = text::trimmed(word + "("@ + body + ")"@);
            &&& (text::first_at(s, '(') as int) < s.len()
            &&& keyword(s) == word
            &&& enclosed(s.skip(text::first_at(s, '(') as int)) == Some(body)
        }),
{
    names_stay_whole();
    reveal_strlit("(");
    reveal_strlit(")");
    let s = word + "("@ + body + ")"@;
    let n = word.len() as int;
    assert(text::bounded(word));
    assert(s[0] == word[0] && s[n] == '(' && s[s.len() - 1] == ')');
    text::trimming_leaves_what_is_bounded(s);
    assert forall|i: int| 0 <= i < n implies s[i] != '(' by {
        assert(s[i] == word[i]);
    }
    text::first_at_unique(s, '(', n);
    assert(s.take(n) =~= word);
    text::trimming_leaves_what_is_bounded(word);
    let t = s.skip(n);
    assert(t[0] == '(' && t[t.len() - 1] == ')');
    text::trimming_leaves_what_is_bounded(t);
    assert(t.subrange(1, t.len() - 1) =~= body);
    text::trimming_leaves_what_is_bounded(body);
}

/// A point reads back as it is written, longitude first.
pub proof fn a_written_point_reads_back(x: Seq<char>, y: Seq<char>, m: Map<Seq<char>, Double>)
    requires
        numeral(x, m),
        numeral(y, m),
    ensures
        parsed("POINT"@ + "("@ + written(seq![(x, y)]) + ")"@, m) == Ok::<Shape, Fault>(
            Shape::Point(Coord { x: m[x], y: m[y] }),
        ),
{
    let ps = seq![(x, y)];
    assert(ps[0] == (x, y));
    written_is_clean(ps, m);
    a_written_list_reads_back(ps, m);
    an_outline_reads_back("POINT"@, written(ps));
    names_stay_whole();
    assert(meant(ps, m) =~= seq![Coord { x: m[x], y: m[y] }]);
}

/// A line of two or more positions reads back as it is written.
pub proof fn a_written_line_reads_back(ps: Seq<(Seq<char>, Seq<char>)>, m: Map<Seq<char>, Double>)
    requires
        ps.len() >= 2,
        all_numerals(ps, m),
    ensures
        parsed("LINESTRING"@ + "("@ + written(ps) + ")"@, m) == Ok::<Shape, Fault>(
            Shape::LineString(meant(ps, m)),
        ),
{
    written_is_clean(ps, m);
    a_written_list_reads_back(ps, m);
    an_outline_reads_back("LINESTRING"@, written(ps));
    names_stay_whole();
}

/// Points in one list read back as they are written.
pub proof fn written_points_read_back(ps: Seq<(Seq<char>, Seq<char>)>, m: Map<Seq<char>, Double>)
    requires
        ps.len() >= 1,
        all_numerals(ps, m),
    ensures
        parsed("MULTIPOINT"@ + "("@ + written(ps) + ")"@, m) == Ok::<Shape, Fault>(
            Shape::MultiPoint(meant(ps, m)),
        ),
{
    written_is_clean(ps, m);
    a_written_list_reads_back(ps, m);
    an_outline_reads_back("MULTIPOINT"@, written(ps));
    names_stay_whole();
    assert(!written(ps).contains('('));
}

/// Lists as they are written in groups: each in parentheses, a comma between them.
pub open spec fn in_groups(lists: Seq<Seq<char>>) -> Seq<char> {
    text::joined(Seq::new(lists.len(), |i: int| "("@ + lists[i] + ")"@), ","@)
}

proof fn grouped_through(s: Seq<char>, list: Seq<char>, n: nat, g: Grouping)
    requires
        grouped(s) == Some(g),
        g.depth == 1,
        g.current == Seq::<char>::empty(),
        text::free_of(list, '('),
        text::free_of(list, ')'),
        n <= list.len(),
    ensures
        grouped(s + list.take(n as int)) == Some(
            Grouping { depth: 1, current: list.take(n as int), groups: g.groups },
        ),
    decreases n,
{
    let now = s + list.take(n as int);
    if n > 0 {
        grouped_through(s, list, (n - 1) as nat, g);
        assert(now.drop_last() =~= s + list.take(n - 1));
        assert(now.last() == list[n - 1]);
        assert(list.take(n - 1).push(list[n - 1]) =~= list.take(n as int));
    } else {
        assert(now =~= s);
        assert(list.take(0) =~= Seq::<char>::empty());
    }
}

proof fn groups_read_back(lists: Seq<Seq<char>>)
    requires
        lists.len() > 0,
        forall|i: int|
            0 <= i < lists.len() ==> text::free_of(#[trigger] lists[i], '(') && text::free_of(
                lists[i],
                ')',
            ),
    ensures
        grouped(in_groups(lists)) == Some(
            Grouping { depth: 0, current: Seq::empty(), groups: lists },
        ),
        text::bounded(in_groups(lists)),
        in_groups(lists).first() == '(',
    decreases lists.len(),
{
    reveal_strlit("(");
    reveal_strlit(")");
    reveal_strlit(",");
    let n = lists.len() - 1;
    let all = Seq::new(lists.len(), |i: int| "("@ + lists[i] + ")"@);
    let last = lists[n];
    assert(text::free_of(last, '(') && text::free_of(last, ')'));
    let front = lists.drop_last();
    let (before, so_far) = if n > 0 {
        (in_groups(front) + ","@, front)
    } else {
        (Seq::<char>::empty(), Seq::<Seq<char>>::empty())
    };
    if n > 0 {
        assert forall|i: int| 0 <= i < front.len() implies text::free_of(#[trigger] front[i], '(')
            && text::free_of(front[i], ')') by {
            assert(front[i] == lists[i]);
        }
        groups_read_back(front);
        assert(before.drop_last() =~= in_groups(front));
        assert(before.last() == ',');
        assert(all.drop_last() =~= Seq::new(front.len(), |i: int| "("@ + front[i] + ")"@));
        assert(in_groups(lists) =~= before + ("("@ + last + ")"@));
        assert(in_groups(lists)[0] == in_groups(front)[0]);
    } else {
        assert(front =~= Seq::<Seq<char>>::empty());
        assert(in_groups(lists) =~= before + ("("@ + last + ")"@));
    }
    assert(grouped(before) == Some(
        Grouping { depth: 0, current: Seq::<char>::empty(), groups: so_far },
    ));
    let opened = before.push('(');
    assert(opened.drop_last() =~= before);
    let g = Grouping { depth: 1, current: Seq::<char>::empty(), groups: so_far };
    assert(grouped(opened) == Some(g));
    grouped_through(opened, last, last.len(), g);
    assert(last.take(last.len() as int) =~= last);
    let closed = (opened + last).push(')');
    assert(closed.drop_last() =~= opened + last);
    assert(in_groups(lists) =~= closed);
    assert(so_far.push(last) =~= lists);
}

proof fn rings_read_back(
    rings: Seq<Seq<(Seq<char>, Seq<char>)>>,
    lists: Seq<Seq<char>>,
    m: Map<Seq<char>, Double>,
)
    requires
        lists.len() == rings.len(),
        forall|i: int|
            0 <= i < rings.len() ==> (#[trigger] rings[i]).len() > 0 && all_numerals(rings[i], m)
                && lists[i] == written(rings[i]),
    ensures
        ring_lists(lists, m) == Ok::<Seq<Seq<Coord>>, Fault>(
            Seq::new(rings.len(), |i: int| meant(rings[i], m)),
        ),
        (forall|i: int| 0 <= i < rings.len() ==> (#[trigger] rings[i]).len() == 1) ==> members(
            lists,
            m,
        ) == Ok::<Seq<Coord>, Fault>(Seq::new(rings.len(), |i: int| meant(rings[i], m)[0])),
    decreases rings.len(),
{
    let want = Seq::new(rings.len(), |i: int| meant(rings[i], m));
    let points = Seq::new(rings.len(), |i: int| meant(rings[i], m)[0]);
    if rings.len() > 0 {
        let (a, b) = (rings.drop_last(), lists.drop_last());
        assert forall|i: int| 0 <= i < a.len() implies (#[trigger] a[i]).len() > 0
            && all_numerals(a[i], m) && b[i] == written(a[i]) by {
            assert(a[i] == rings[i] && b[i] == lists[i]);
        }
        rings_read_back(a, b, m);
        let n = rings.len() - 1;
        assert(rings[n].len() > 0);
        a_written_list_reads_back(rings[n], m);
        assert(want =~= Seq::new(a.len(), |i: int| meant(a[i], m)).push(meant(rings[n], m)));
        if forall|i: int| 0 <= i < rings.len() ==> (#[trigger] rings[i]).len() == 1 {
            assert forall|i: int| 0 <= i < a.len() implies (#[trigger] a[i]).len() == 1 by {
                assert(a[i] == rings[i]);
            }
            assert(points =~= Seq::new(a.len(), |i: int| meant(a[i], m)[0]).push(
                meant(rings[n], m)[0],
            ));
        }
    } else {
        assert(want =~= Seq::<Seq<Coord>>::empty());
        assert(points =~= Seq::<Coord>::empty());
    }
}

/// A polygon reads back as it is written: its rings in order, the exterior one
/// first, each with its positions in order.
pub proof fn a_written_polygon_reads_back(
    rings: Seq<Seq<(Seq<char>, Seq<char>)>>,
    m: Map<Seq<char>, Double>,
)
    requires
        rings.len() > 0,
        forall|i: int|
            0 <= i < rings.len() ==> (#[trigger] rings[i]).len() > 0 && all_numerals(rings[i], m),
        rings[0].len() >= 4,
        rings[0].first() == rings[0].last(),
    ensures
        parsed(
            "POLYGON"@ + "("@ + in_groups(
                Seq::new(rings.len(), |i: int| written(rings[i])),
            ) + ")"@,
            m,
        ) == Ok::<Shape, Fault>(
            Shape::Polygon(Seq::new(rings.len(), |i: int| meant(rings[i], m))),
        ),
{
    let lists = Seq::new(rings.len(), |i: int| written(rings[i]));
    assert forall|i: int| 0 <= i < lists.len() implies text::free_of(#[trigger] lists[i], '(')
        && text::free_of(lists[i], ')') by {
        assert(rings[i].len() > 0);
        written_is_clean(rings[i], m);
    }
    groups_read_back(lists);
    an_outline_reads_back("POLYGON"@, in_groups(lists));
    names_stay_whole();
    rings_read_back(rings, lists, m);
    let ring = meant(rings[0], m);
    let k = ring.len() - 1;
    assert(numeral(rings[0][0].0, m) && numeral(rings[0][0].1, m));
    assert(ring[0] == ring[k]);
}

/// Points in parentheses of their own read back as they are written.
pub proof fn written_members_read_back(
    ps: Seq<(Seq<char>, Seq<char>)>,
    m: Map<Seq<char>, Double>,
)
    requires
        ps.len() >= 1,
        all_numerals(ps, m),
    ensures
        parsed(
            "MULTIPOINT"@ + "("@ + in_groups(
                Seq::new(ps.len(), |i: int| written(seq![ps[i]])),
            ) + ")"@,
            m,
        ) == Ok::<Shape, Fault>(Shape::MultiPoint(meant(ps, m))),
{
    let rings = Seq::new(ps.len(), |i: int| seq![ps[i]]);
    let lists = Seq::new(ps.len(), |i: int| written(seq![ps[i]]));
    assert forall|i: int| 0 <= i < rings.len() implies (#[trigger] rings[i]).len() > 0
        && all_numerals(rings[i], m) && lists[i] == written(rings[i]) by {
        assert(numeral(ps[i].0, m) && numeral(ps[i].1, m));
    }
    assert forall|i: int| 0 <= i < lists.len() implies text::free_of(#[trigger] lists[i], '(')
        && text::free_of(lists[i], ')') by {
        assert(rings[i].len() > 0);
        written_is_clean(rings[i], m);
    }
    groups_read_back(lists);
    an_outline_reads_back("MULTIPOINT"@, in_groups(lists));
    names_stay_whole();
    rings_read_back(rings, lists, m);
    assert(in_groups(lists)[0] == '(');
    assert(in_groups(lists).contains('('));
    assert(Seq::new(rings.len(), |i: int| meant(rings[i], m)[0]) =~= meant(ps, m));
}

/// Ordinates after the second are dropped: a position with more reads as the one
/// without them.
pub proof fn further_ordinates_are_dropped(
    x: Seq<char>,
    y: Seq<char>,
    more: Seq<char>,
    m: Map<Seq<char>, Double>,
)
    requires
        numeral(x, m),
        numeral(y, m),
    ensures
        position(x + " "@ + (y + " "@ + more), m) == Some(Coord { x: m[x], y: m[y] }),
{
    text::words_of_more(x, y + " "@ + more);
    text::words_of_more(y, more);
}

/// What is read of a text is as its type asks: a point is one position with finite
/// coordinates, a line has two positions or more, and a polygon an exterior ring of
/// four or more that ends where it begins.
pub proof fn what_is_read_is_as_its_type_asks(input: Seq<char>, m: Map<Seq<char>, Double>)
    ensures
        parsed(input, m) matches Ok(g) ==> match g {
            Shape::Point(c) => c.x.finite() && c.y.finite(),
            Shape::MultiPoint(cs) => cs.len() >= 1,
            Shape::LineString(cs) => cs.len() >= 2,
            Shape::Polygon(rings) => {
                &&& rings.len() >= 1 && rings[0].len() >= 4
                &&& rings[0].first().x.equal(rings[0].last().x)
                &&& rings[0].first().y.equal(rings[0].last().y)
            },
        },
{
    if let Ok(o) = outlined(input) {
        if o.0 == Form::Point {
            positions_are_finite(text::solid(text::pieces(o.1[0], ',')), m);
        }
    }
}

proof fn positions_are_finite(pairs: Seq<Seq<char>>, m: Map<Seq<char>, Double>)
    ensures
        positions(pairs, m) matches Ok(cs) ==> forall|i: int|
            0 <= i < cs.len() ==> (#[trigger] cs[i]).x.finite() && cs[i].y.finite(),
    decreases pairs.len(),
{
    if pairs.len() > 0 {
        positions_are_finite(pairs.drop_last(), m);
    }
}

/// The bounds of positions with finite coordinates are no wider than they have to
/// be: each is a coordinate of one of them.
pub proof fn bounds_are_attained(cs: Seq<Coord>)
    requires
        cs.len() > 0,
        forall|i: int| 0 <= i < cs.len() ==> (#[trigger] cs[i]).x.finite() && cs[i].y.finite(),
    ensures
        exists|i: int| 0 <= i < cs.len() && bounds(cs).west.equal((#[trigger] cs[i]).x),
        exists|i: int| 0 <= i < cs.len() && bounds(cs).south.equal((#[trigger] cs[i]).y),
        exists|i: int| 0 <= i < cs.len() && bounds(cs).east.equal((#[trigger] cs[i]).x),
        exists|i: int| 0 <= i < cs.len() && bounds(cs).north.equal((#[trigger] cs[i]).y),
    decreases cs.len(),
{
    let n = cs.len() - 1;
    let last = cs[n];
    assert(last.x.finite() && last.y.finite());
    let front = cs.drop_last();
    if n > 0 {
        assert forall|i: int| 0 <= i < front.len() implies (#[trigger] front[i]).x.finite()
            && front[i].y.finite() by {
            assert(front[i] == cs[i]);
        }
        bounds_are_attained(front);
        let b = bounds(front);
        let w = choose|i: int| 0 <= i < front.len() && b.west.equal((#[trigger] front[i]).x);
        let s = choose|i: int| 0 <= i < front.len() && b.south.equal((#[trigger] front[i]).y);
        let e = choose|i: int| 0 <= i < front.len() && b.east.equal((#[trigger] front[i]).x);
        let t = choose|i: int| 0 <= i < front.len() && b.north.equal((#[trigger] front[i]).y);
        assert(cs[w] == front[w] && cs[s] == front[s] && cs[e] == front[e] && cs[t] == front[t]);
        assert(bounds(cs).west.equal(cs[w].x) || bounds(cs).west.equal(cs[n].x));
        assert(bounds(cs).south.equal(cs[s].y) || bounds(cs).south.equal(cs[n].y));
        assert(bounds(cs).east.equal(cs[e].x) || bounds(cs).east.equal(cs[n].x));
        assert(bounds(cs).north.equal(cs[t].y) || bounds(cs).north.equal(cs[n].y));
    } else {
        assert(front.len() == 0);
        assert(bounds(front).west == (Double { bits: MAX }));
        assert(bounds(cs).west.equal(cs[0].x));
        assert(bounds(cs).south.equal(cs[0].y));
        assert(bounds(cs).east.equal(cs[0].x));
        assert(bounds(cs).north.equal(cs[0].y));
    }
}

/// The vertices of a polygon are those of its rings, one ring after the other.
pub proof fn a_polygon_has_the_vertices_of_its_rings(rings: Seq<Seq<Coord>>, c: Coord)
    ensures
        Shape::Polygon(rings).corners().contains(c) <==> exists|i: int|
            0 <= i < rings.len() && (#[trigger] rings[i]).contains(c),
    decreases rings.len(),
{
    if rings.len() > 0 {
        let front = rings.drop_last();
        a_polygon_has_the_vertices_of_its_rings(front, c);
        let (a, b) = (chained(front), rings.last());
        if (a + b).contains(c) {
            let k = choose|k: int| 0 <= k < (a + b).len() && (a + b)[k] == c;
            if k < a.len() {
                assert(a[k] == c);
                let i = choose|i: int| 0 <= i < front.len() && (#[trigger] front[i]).contains(c);
                assert(rings[i].contains(c));
            } else {
                assert(b[k - a.len()] == c);
                assert(rings[rings.len() - 1].contains(c));
            }
        }
        if exists|i: int| 0 <= i < rings.len() && (#[trigger] rings[i]).contains(c) {
            let i = choose|i: int| 0 <= i < rings.len() && (#[trigger] rings[i]).contains(c);
            if i < front.len() {
                assert(front[i].contains(c));
                let k = choose|k: int| 0 <= k < a.len() && a[k] == c;
                assert((a + b)[k] == c);
            } else {
                let k = choose|k: int| 0 <= k < b.len() && b[k] == c;
                assert((a + b)[a.len() + k] == c);
            }
        }
    }
}

/// A point is on an edge exactly where it lies in the edge's box and no further from
/// its line than the tolerance of one billionth, the binary64 number nearest to which
/// is given by its bits.
pub proof fn a_point_is_on_an_edge_within_the_tolerance(e: EdgeMeasure, p: Coord)
    ensures
        on_edge(e, p) <==> {
            &&& !p.x.less(e.west) && !e.east.less(p.x)
            &&& !p.y.less(e.south) && !e.north.less(p.y)
            &&& !e.offset.nan() && !(Double { bits: 0x3e11_2e0b_e826_d695 }).less(e.offset)
        },
{
}

} // verus!
