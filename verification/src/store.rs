//! Store introspection: what a Zarr store's metadata says of a collection.
//!
//! The schema and the axis values come from scanning the store; the CF
//! attributes (`units`, `long_name`, …) are read from the store's own metadata
//! documents, which EDR needs for `parameter_names`.
use vstd::prelude::*;

use crate::axis::{self, NumericAxis, TimeAxis};
use crate::catalog::{self, quote_ident, Collection, Parameter};
use crate::clock;
use crate::config::{self, CollectionConfig};
use crate::double::Double;
use crate::error::{EdrError, EdrResult, Fault};
use crate::json;
use crate::names::NameMap;
use crate::text::{self, chars_of, lower, same_text, string_of};

verus! {

/// A metadata text without the literals that JSON does not have. Zarr metadata
/// legitimately contains `NaN` and `Infinity` (ERA5 records a
/// `GRIB_missingValue` of `Infinity`).
pub open spec fn sanitized(s: Seq<char>) -> Seq<char> {
    text::replaced(
        text::replaced(text::replaced(s, "NaN"@, "null"@), "-Infinity"@, "null"@),
        "Infinity"@,
        "null"@,
    )
}

pub fn sanitize_json(s: &str) -> (r: String)
    ensures
        r@ == sanitized(s@),
{
    proof {
        reveal_strlit("NaN");
        reveal_strlit("-Infinity");
        reveal_strlit("Infinity");
    }
    let chars = chars_of(s);
    let a = text::replace(chars.as_slice(), "NaN", "null");
    let b = text::replace(a.as_slice(), "-Infinity", "null");
    let c = text::replace(b.as_slice(), "Infinity", "null");
    string_of(c.as_slice())
}

/// CF attributes read from a Zarr store: the members of the root's attributes,
/// and for each array the JSON text of its own.
#[derive(Debug)]
pub struct StoreAttrs {
    pub root: NameMap<String>,
    pub arrays: NameMap<String>,
}

/// What is held under a name.
pub open spec fn held(m: NameMap<String>, name: Seq<char>) -> Option<Seq<char>> {
    if m.content().contains_key(name) {
        Some(m.content()[name]@)
    } else {
        None
    }
}

/// The text of the member of an object under a name; the last where there are
/// several.
pub open spec fn member(ms: Seq<(Seq<char>, Seq<char>)>, name: Seq<char>) -> Option<Seq<char>>
    decreases ms.len(),
{
    if ms.len() == 0 {
        None
    } else if ms.last().0 == name {
        Some(ms.last().1)
    } else {
        member(ms.drop_last(), name)
    }
}

/// The text of the member of a JSON object under a name.
pub open spec fn member_of(object: Seq<char>, name: Seq<char>) -> Option<Seq<char>> {
    match json::json_members(object) {
        Some(ms) => member(ms, name),
        None => None,
    }
}

/// The string that a JSON object holds under a name.
pub open spec fn string_in(object: Seq<char>, name: Seq<char>) -> Option<Seq<char>> {
    match member_of(object, name) {
        Some(raw) => json::json_string(raw),
        None => None,
    }
}

/// The text of the member of an object under a name.
pub fn find_member(ms: &Vec<(String, String)>, name: &str) -> (r: Option<String>)
    ensures
        config::text_view(r) == member(json::members_of(ms@), name@),
{
    let ghost all = json::members_of(ms@);
    let mut i: usize = ms.len();
    assert(all.take(i as int) == all);
    while i > 0
        invariant
            i <= ms@.len(),
            all == json::members_of(ms@),
            member(all, name@) == member(all.take(i as int), name@),
        decreases i,
    {
        proof {
            assert(all.take(i as int).drop_last() == all.take(i - 1));
            assert(all.take(i as int).last() == all[i - 1]);
        }
        if same_text(ms[i - 1].0.as_str(), name) {
            return Some(ms[i - 1].1.clone());
        }
        i -= 1;
    }
    None
}

fn read_member(object: &str, name: &str) -> (r: Option<String>)
    ensures
        config::text_view(r) == member_of(object@, name@),
{
    match json::read_members(object) {
        Some(ms) => find_member(&ms, name),
        None => None,
    }
}

/// The documents of a consolidated metadata text: a map of every member of a
/// list, the last under each name.
pub open spec fn gathered(ms: Seq<(Seq<char>, Seq<char>)>) -> Map<Seq<char>, Seq<char>>
    decreases ms.len(),
{
    if ms.len() == 0 {
        Map::empty()
    } else {
        gathered(ms.drop_last()).insert(ms.last().0, ms.last().1)
    }
}

/// Whether a map of texts holds the same as another.
pub open spec fn holds(m: NameMap<String>, want: Map<Seq<char>, Seq<char>>) -> bool {
    &&& forall|k: Seq<char>| #[trigger] m.content().contains_key(k) <==> want.contains_key(k)
    &&& forall|k: Seq<char>| #[trigger] want.contains_key(k) ==> m.content()[k]@ == want[k]
}

/// Hold every member of a list under its name.
pub fn gather(ms: &Vec<(String, String)>) -> (r: NameMap<String>)
    ensures
        r.wf(),
        holds(r, gathered(json::members_of(ms@))),
{
    let ghost all = json::members_of(ms@);
    let mut out: NameMap<String> = NameMap::new();
    let mut i: usize = 0;
    assert(all.take(0) == Seq::<(Seq<char>, Seq<char>)>::empty());
    while i < ms.len()
        invariant
            i <= ms@.len(),
            all == json::members_of(ms@),
            out.wf(),
            holds(out, gathered(all.take(i as int))),
        decreases ms@.len() - i,
    {
        proof {
            assert(all.take(i + 1).drop_last() == all.take(i as int));
            assert(all.take(i + 1).last() == all[i as int]);
        }
        out.insert(ms[i].0.clone(), ms[i].1.clone());
        i += 1;
    }
    assert(all.take(i as int) == all);
    out
}

/// The suffix of the documents that hold an array's attributes.
pub open spec fn zattrs_suffix() -> Seq<char> {
    "/.zattrs"@
}

/// The attribute documents of the arrays in a consolidated metadata object,
/// under the arrays' names.
pub open spec fn array_documents(ms: Seq<(Seq<char>, Seq<char>)>) -> Map<Seq<char>, Seq<char>>
    decreases ms.len(),
{
    if ms.len() == 0 {
        Map::empty()
    } else {
        let key = ms.last().0;
        if text::closes(key, zattrs_suffix()) {
            array_documents(ms.drop_last()).insert(
                key.take(key.len() - zattrs_suffix().len()),
                ms.last().1,
            )
        } else {
            array_documents(ms.drop_last())
        }
    }
}

/// Hold the attribute documents of the arrays in a consolidated metadata object
/// under the arrays' names.
pub fn gather_arrays(ms: &Vec<(String, String)>) -> (r: NameMap<String>)
    ensures
        r.wf(),
        holds(r, array_documents(json::members_of(ms@))),
{
    let ghost all = json::members_of(ms@);
    let suffix_len: usize = chars_of("/.zattrs").len();
    let mut out: NameMap<String> = NameMap::new();
    let mut i: usize = 0;
    assert(all.take(0) == Seq::<(Seq<char>, Seq<char>)>::empty());
    while i < ms.len()
        invariant
            suffix_len == zattrs_suffix().len(),
            i <= ms@.len(),
            all == json::members_of(ms@),
            out.wf(),
            holds(out, array_documents(all.take(i as int))),
        decreases ms@.len() - i,
    {
        proof {
            assert(all.take(i + 1).drop_last() == all.take(i as int));
            assert(all.take(i + 1).last() == all[i as int]);
        }
        let key = chars_of(ms[i].0.as_str());
        if text::ends_with(key.as_slice(), "/.zattrs") {
            let name = vstd::slice::slice_subrange(key.as_slice(), 0, key.len() - suffix_len);
            assert(name@ == key@.take(key@.len() - zattrs_suffix().len()));
            out.insert(string_of(name), ms[i].1.clone());
        }
        i += 1;
    }
    assert(all.take(i as int) == all);
    out
}

/// What a consolidated metadata text comes to: the members of the root's
/// attributes and the attribute documents of the arrays, or what is wrong with
/// the text.
pub open spec fn consolidated_in(source: Seq<char>) -> Result<
    (Map<Seq<char>, Seq<char>>, Map<Seq<char>, Seq<char>>),
    Seq<char>,
> {
    let doc = sanitized(source);
    match json::json_fault(doc) {
        Some(e) => Err("Malformed .zmetadata: "@ + e),
        None => match metadata_members(doc) {
            None => Err("'.zmetadata' has no 'metadata' object"@),
            Some(ms) => Ok((root_members(member(ms, ".zattrs"@)), array_documents(ms))),
        },
    }
}

pub open spec fn metadata_members(doc: Seq<char>) -> Option<Seq<(Seq<char>, Seq<char>)>> {
    match member_of(doc, "metadata"@) {
        Some(raw) => json::json_members(raw),
        None => None,
    }
}

/// The members of the root's attribute document; none where there is no such
/// document or it is no object.
pub open spec fn root_members(doc: Option<Seq<char>>) -> Map<Seq<char>, Seq<char>> {
    match doc {
        Some(raw) => match json::json_members(raw) {
            Some(ms) => gathered(ms),
            None => Map::empty(),
        },
        None => Map::empty(),
    }
}

fn read_root(doc: Option<String>) -> (r: NameMap<String>)
    ensures
        r.wf(),
        holds(r, root_members(config::text_view(doc))),
{
    match doc {
        Some(raw) => match json::read_members(raw.as_str()) {
            Some(ms) => gather(&ms),
            None => NameMap::new(),
        },
        None => NameMap::new(),
    }
}

/// The populated span that root attributes declare, given what each of its dates
/// reads as: the midnight it begins with.
///
/// The start is the first instant of its day and the stop is the last: a store
/// valid through 2026-04-30 holds that day's 23:00 step, so reading the stop as
/// midnight would hide 23 hours of data. The plain stop is the fully validated
/// end; `_era5t` extends into the preliminary window. The later of the two that
/// are given counts.
pub open spec fn window(start: Option<i64>, stop: Option<i64>, era5t: Option<i64>) -> Option<
    (int, int),
> {
    match (start, later(stop, era5t)) {
        (Some(a), Some(b)) => Some((a as int, b + LAST_INSTANT)),
        _ => None,
    }
}

/// The microseconds from a day's midnight to its last instant.
pub const LAST_INSTANT: i64 = 86_399_999_999;

pub open spec fn later(a: Option<i64>, b: Option<i64>) -> Option<i64> {
    match (a, b) {
        (Some(x), Some(y)) => if y > x {
            Some(y)
        } else {
            Some(x)
        },
        (Some(x), None) => Some(x),
        (None, _) => b,
    }
}

/// A stop date is inclusive of its day, whichever of the two attributes gives
/// it: every instant from the start to the end of that day is in the window.
pub proof fn a_stop_date_covers_its_day(
    start: i64,
    stop: Option<i64>,
    era5t: Option<i64>,
    date: i64,
    instant: int,
)
    requires
        stop == Some(date) || era5t == Some(date),
        start <= instant <= date + LAST_INSTANT,
    ensures
        window(Some(start), stop, era5t) matches Some(w) && w.0 <= instant <= w.1,
{
}

pub fn make_window(start: Option<i64>, stop: Option<i64>, era5t: Option<i64>) -> (r: Option<
    (i64, i64),
>)
    requires
        stop matches Some(d) ==> d <= i64::MAX - LAST_INSTANT,
        era5t matches Some(d) ==> d <= i64::MAX - LAST_INSTANT,
    ensures
        match r {
            Some(w) => window(start, stop, era5t) == Some((w.0 as int, w.1 as int)),
            None => window(start, stop, era5t) is None,
        },
{
    let end: Option<i64> = match (stop, era5t) {
        (Some(x), Some(y)) => if y > x {
            Some(y)
        } else {
            Some(x)
        },
        (Some(x), None) => Some(x),
        (None, _) => era5t,
    };
    match (start, end) {
        (Some(a), Some(b)) => Some((a, b + LAST_INSTANT)),
        _ => None,
    }
}

impl StoreAttrs {
    pub open spec fn wf(&self) -> bool {
        self.root.wf() && self.arrays.wf()
    }

    /// No attributes.
    pub fn none() -> (r: StoreAttrs)
        ensures
            r.wf(),
            r.root.content() == Map::<Seq<char>, String>::empty(),
            r.arrays.content() == Map::<Seq<char>, String>::empty(),
    {
        StoreAttrs { root: NameMap::new(), arrays: NameMap::new() }
    }

    /// An attribute of an array, where it is a string.
    pub open spec fn attribute(&self, array: Seq<char>, key: Seq<char>) -> Option<Seq<char>> {
        match held(self.arrays, array) {
            Some(doc) => string_in(doc, key),
            None => None,
        }
    }

    pub fn string(&self, array: &str, key: &str) -> (r: Option<String>)
        requires
            self.wf(),
        ensures
            config::text_view(r) == self.attribute(array@, key@),
    {
        match self.arrays.get(array) {
            Some(doc) => match read_member(doc.as_str(), key) {
                Some(raw) => json::read_string(raw.as_str()),
                None => None,
            },
            None => None,
        }
    }

    pub fn units(&self, array: &str) -> (r: Option<String>)
        requires
            self.wf(),
        ensures
            config::text_view(r) == self.attribute(array@, "units"@),
    {
        self.string(array, "units")
    }

    /// The date that a root attribute holds, as its midnight.
    pub open spec fn root_date(&self, key: Seq<char>) -> Option<i64> {
        match held(self.root, key) {
            Some(raw) => match json::json_string(raw) {
                Some(s) => clock::date_micros(s, "%Y-%m-%d"@),
                None => None,
            },
            None => None,
        }
    }

    fn date(&self, key: &str) -> (r: Option<i64>)
        requires
            self.wf(),
        ensures
            r == self.root_date(key@),
            r matches Some(d) ==> d <= i64::MAX - LAST_INSTANT,
    {
        match self.root.get(key) {
            Some(raw) => match json::read_string(raw.as_str()) {
                Some(s) => clock::read_date(s.as_str(), "%Y-%m-%d"),
                None => None,
            },
            None => None,
        }
    }

    /// ARCO-ERA5 records the populated span in the root attributes; the time
    /// axis itself is pre-allocated well past it.
    pub fn validity_window(&self) -> (r: Option<(i64, i64)>)
        requires
            self.wf(),
        ensures
            match r {
                Some(w) => self.declared_window() == Some((w.0 as int, w.1 as int)),
                None => self.declared_window() is None,
            },
    {
        make_window(
            self.date("valid_time_start"),
            self.date("valid_time_stop"),
            self.date("valid_time_stop_era5t"),
        )
    }

    pub open spec fn declared_window(&self) -> Option<(int, int)> {
        window(
            self.root_date("valid_time_start"@),
            self.root_date("valid_time_stop"@),
            self.root_date("valid_time_stop_era5t"@),
        )
    }

    /// Attributes from Zarr v2 consolidated metadata, the text of `.zmetadata`.
    pub fn consolidated(source: &str) -> (r: Result<StoreAttrs, String>)
        ensures
            match r {
                Ok(a) => {
                    &&& a.wf()
                    &&& consolidated_in(source@) is Ok
                    &&& holds(a.root, consolidated_in(source@)->Ok_0.0)
                    &&& holds(a.arrays, consolidated_in(source@)->Ok_0.1)
                },
                Err(e) => consolidated_in(source@) == Err::<
                    (Map<Seq<char>, Seq<char>>, Map<Seq<char>, Seq<char>>),
                    Seq<char>,
                >(e@),
            },
    {
        let doc = sanitize_json(source);
        if let Some(e) = json::check(doc.as_str()) {
            let mut m: String = "Malformed .zmetadata: ".to_owned();
            m.append(e.as_str());
            return Err(m);
        }
        let members = match read_member(doc.as_str(), "metadata") {
            Some(raw) => json::read_members(raw.as_str()),
            None => None,
        };
        match members {
            None => Err("'.zmetadata' has no 'metadata' object".to_owned()),
            Some(ms) => {
                let root = read_root(find_member(&ms, ".zattrs"));
                let arrays = gather_arrays(&ms);
                Ok(StoreAttrs { root, arrays })
            },
        }
    }

    /// Attributes of an unconsolidated store: the root's document and those of
    /// the arrays that have one. Data-variable attributes are not among them: a
    /// store can hold hundreds of variables and the units are enrichment, not
    /// correctness.
    pub fn separate(root: Option<String>, arrays: &Vec<(String, String)>) -> (r: StoreAttrs)
        ensures
            r.wf(),
            holds(r.root, root_members(config::text_view(root))),
            holds(r.arrays, gathered(json::members_of(arrays@))),
    {
        StoreAttrs { root: read_root(root), arrays: gather(arrays) }
    }
}

/// The document that a `.zattrs` file holds, where it is JSON.
pub open spec fn plain_document(source: Seq<char>) -> Option<Seq<char>> {
    if json::json_fault(sanitized(source)) is None {
        Some(sanitized(source))
    } else {
        None
    }
}

/// Read a v2 `.zattrs` file.
pub fn zattrs_document(source: &str) -> (r: Option<String>)
    ensures
        config::text_view(r) == plain_document(source@),
{
    let doc = sanitize_json(source);
    match json::check(doc.as_str()) {
        Some(_) => None,
        None => Some(doc),
    }
}

/// The attributes in the envelope of a v3 `zarr.json` file.
pub open spec fn enveloped_document(source: Seq<char>) -> Option<Seq<char>> {
    match plain_document(source) {
        Some(doc) => member_of(doc, "attributes"@),
        None => None,
    }
}

/// Read the attributes out of a v3 `zarr.json` file.
pub fn envelope_attributes(source: &str) -> (r: Option<String>)
    ensures
        config::text_view(r) == enveloped_document(source@),
{
    match zattrs_document(source) {
        Some(doc) => read_member(doc.as_str(), "attributes"),
        None => None,
    }
}

/// The type of a column.
#[derive(Debug)]
pub enum FieldType {
    Int8,
    Int16,
    Int32,
    Int64,
    Timestamp,
    /// Dictionary-encoded values of a type.
    Dictionary(Box<FieldType>),
    Other,
}

impl FieldType {
    /// Whether a column holds times, dictionary-encoded or not.
    pub open spec fn temporal(self) -> bool {
        match self {
            FieldType::Timestamp => true,
            FieldType::Dictionary(inner) => *inner is Timestamp,
            _ => false,
        }
    }

    pub open spec fn integral(self) -> bool {
        self is Int8 || self is Int16 || self is Int32 || self is Int64
    }

    pub fn is_time(&self) -> (r: bool)
        ensures
            r == self.temporal(),
    {
        match self {
            FieldType::Timestamp => true,
            FieldType::Dictionary(inner) => match &**inner {
                FieldType::Timestamp => true,
                _ => false,
            },
            _ => false,
        }
    }

    pub fn is_integer(&self) -> (r: bool)
        ensures
            r == self.integral(),
    {
        match self {
            FieldType::Int8 => true,
            FieldType::Int16 => true,
            FieldType::Int32 => true,
            FieldType::Int64 => true,
            _ => false,
        }
    }
}

/// What a store's metadata says of a coordinate array.
#[derive(Debug)]
pub struct CoordMeta {
    pub name: String,
    /// Whether it carries CF time attributes.
    pub cf_time: bool,
    /// The type of its column, where the schema has one.
    pub column: Option<FieldType>,
    /// Its length.
    pub len: usize,
}

/// What a store's metadata says of a data variable.
#[derive(Debug)]
pub struct VariableMeta {
    pub name: String,
    /// The recorded dimension names, where there are any.
    pub dimensions: Option<Vec<String>>,
    /// How many dimensions it has.
    pub rank: usize,
    /// The type of its column, where the schema has one.
    pub column: Option<FieldType>,
}

/// Which coordinates are which axes, as far as they have been told apart.
pub struct Roles {
    pub x: Option<Seq<char>>,
    pub y: Option<Seq<char>>,
    pub z: Option<Seq<char>>,
    pub t: Option<Seq<char>>,
}

pub open spec fn is_time(c: CoordMeta) -> bool {
    c.cf_time || (c.column is Some && c.column->0.temporal())
}

/// The axes with one more coordinate told apart. Each goes to the first axis
/// that it answers to and that is still free; what answers to none is vertical.
pub open spec fn roles_with(r: Roles, c: CoordMeta, units: Seq<char>) -> Roles {
    let name = c.name@;
    let u = text::lowered(units);
    if is_time(c) && r.t is None {
        Roles { t: Some(name), ..r }
    } else if (text::begins(u, "degrees_north"@) || name == "latitude"@ || name == "lat"@ || name
        == "y"@) && r.y is None {
        Roles { y: Some(name), ..r }
    } else if (text::begins(u, "degrees_east"@) || name == "longitude"@ || name == "lon"@ || name
        == "x"@) && r.x is None {
        Roles { x: Some(name), ..r }
    } else if r.z is None {
        Roles { z: Some(name), ..r }
    } else {
        r
    }
}

pub open spec fn roles(coords: Seq<CoordMeta>, units: Seq<Seq<char>>) -> Roles
    decreases coords.len(),
{
    if coords.len() == 0 {
        Roles { x: None, y: None, z: None, t: None }
    } else {
        roles_with(
            roles(coords.drop_last(), units),
            coords.last(),
            units[coords.len() - 1],
        )
    }
}

pub open spec fn coord_names(coords: Seq<CoordMeta>) -> Seq<Seq<char>> {
    Seq::new(coords.len(), |i: int| coords[i].name@)
}

/// The names of a collection's axes.
#[derive(Debug)]
pub struct AxisNames {
    pub x: String,
    pub y: String,
    pub z: Option<String>,
    pub t: String,
}

pub open spec fn no_axes(location: Seq<char>, coords: Seq<CoordMeta>) -> Fault {
    Fault::Internal(
        "'"@ + location + "' has no recognisable x/y/time coordinates (found: "@ + text::joined(
            coord_names(coords),
            ", "@,
        ) + ")"@,
    )
}

/// Classify coordinates into the EDR axes, where `units` holds the units of
/// each, empty where there are none.
pub fn classify(location: &str, coords: &Vec<CoordMeta>, units: &Vec<String>) -> (r: EdrResult<
    AxisNames,
>)
    requires
        units@.len() == coords@.len(),
    ensures
        ({
            let found = roles(coords@, text::texts(units@));
            match r {
                Ok(n) => {
                    &&& found.x == Some(n.x@)
                    &&& found.y == Some(n.y@)
                    &&& found.z == config::text_view(n.z)
                    &&& found.t == Some(n.t@)
                },
                Err(e) => {
                    &&& found.x is None || found.y is None || found.t is None
                    &&& e@ == no_axes(location@, coords@)
                },
            }
        }),
{
    let ghost us = text::texts(units@);
    let mut x: Option<String> = None;
    let mut y: Option<String> = None;
    let mut z: Option<String> = None;
    let mut t: Option<String> = None;
    let mut i: usize = 0;
    while i < coords.len()
        invariant
            i <= coords@.len(),
            us == text::texts(units@),
            units@.len() == coords@.len(),
            roles(coords@.take(i as int), us) == (Roles {
                x: config::text_view(x),
                y: config::text_view(y),
                z: config::text_view(z),
                t: config::text_view(t),
            }),
        decreases coords@.len() - i,
    {
        let c = &coords[i];
        proof {
            assert(coords@.take(i + 1).drop_last() == coords@.take(i as int));
            assert(coords@.take(i + 1).last() == *c);
        }
        let name = c.name.as_str();
        let u = lower(chars_of(units[i].as_str()).as_slice());
        let timed = c.cf_time || match &c.column {
            Some(f) => f.is_time(),
            None => false,
        };
        let northern = text::starts_with(u.as_slice(), "degrees_north") || same_text(
            name,
            "latitude",
        ) || same_text(name, "lat") || same_text(name, "y");
        let eastern = text::starts_with(u.as_slice(), "degrees_east") || same_text(
            name,
            "longitude",
        ) || same_text(name, "lon") || same_text(name, "x");
        if timed && t.is_none() {
            t = Some(c.name.clone());
        } else if northern && y.is_none() {
            y = Some(c.name.clone());
        } else if eastern && x.is_none() {
            x = Some(c.name.clone());
        } else if z.is_none() {
            z = Some(c.name.clone());
        }
        i += 1;
    }
    assert(coords@.take(i as int) == coords@);
    match (x, y, t) {
        (Some(x), Some(y), Some(t)) => Ok(AxisNames { x, y, z, t }),
        _ => {
            let mut names: Vec<String> = Vec::new();
            let mut k: usize = 0;
            while k < coords.len()
                invariant
                    k <= coords@.len(),
                    names@.len() == k,
                    forall|j: int| 0 <= j < k ==> (#[trigger] names@[j])@ == coords@[j].name@,
                decreases coords@.len() - k,
            {
                names.push(coords[k].name.clone());
                k += 1;
            }
            assert(text::texts(names@) =~= coord_names(coords@));
            let mut m: String = "'".to_owned();
            m.append(location);
            m.append("' has no recognisable x/y/time coordinates (found: ");
            m.append(text::join(&names, ", ").as_str());
            m.append(")");
            Err(EdrError::Internal(m))
        },
    }
}

/// The units that attributes record of an array, empty where there are none.
pub open spec fn units_or_blank(a: StoreAttrs, name: Seq<char>) -> Seq<char> {
    match a.attribute(name, "units"@) {
        Some(u) => u,
        None => ""@,
    }
}

/// The units of each coordinate, empty where there are none.
pub fn coord_units(attrs: &StoreAttrs, coords: &Vec<CoordMeta>) -> (r: Vec<String>)
    requires
        attrs.wf(),
    ensures
        r@.len() == coords@.len(),
        forall|i: int|
            0 <= i < r@.len() ==> (#[trigger] r@[i])@ == units_or_blank(*attrs, coords@[i].name@),
{
    let mut out: Vec<String> = Vec::new();
    let mut i: usize = 0;
    while i < coords.len()
        invariant
            attrs.wf(),
            i <= coords@.len(),
            out@.len() == i,
            forall|k: int|
                0 <= k < i ==> (#[trigger] out@[k])@ == units_or_blank(*attrs, coords@[k].name@),
        decreases coords@.len() - i,
    {
        match attrs.units(coords[i].name.as_str()) {
            Some(u) => out.push(u),
            None => out.push("".to_owned()),
        }
        i += 1;
    }
    out
}

/// What attributes say of a variable.
#[derive(Debug)]
pub struct Described {
    pub long_name: Option<String>,
    pub comment: Option<String>,
    pub units: Option<String>,
    pub standard_name: Option<String>,
}

/// Whether what is described is what attributes say of a variable.
pub open spec fn describes(d: Described, a: StoreAttrs, name: Seq<char>) -> bool {
    &&& config::text_view(d.long_name) == a.attribute(name, "long_name"@)
    &&& config::text_view(d.comment) == a.attribute(name, "comment"@)
    &&& config::text_view(d.units) == a.attribute(name, "units"@)
    &&& config::text_view(d.standard_name) == a.attribute(name, "standard_name"@)
}

/// Read what attributes say of a variable.
pub fn describe(attrs: &StoreAttrs, name: &str) -> (r: Described)
    requires
        attrs.wf(),
    ensures
        describes(r, *attrs, name@),
{
    Described {
        long_name: attrs.string(name, "long_name"),
        comment: attrs.string(name, "comment"),
        units: attrs.units(name),
        standard_name: attrs.string(name, "standard_name"),
    }
}

/// Whether a list of texts holds a text.
pub open spec fn listed(v: Seq<String>, s: Seq<char>) -> bool {
    exists|i: int| 0 <= i < v.len() && (#[trigger] v[i])@ == s
}

fn is_listed(v: &Vec<String>, s: &str) -> (r: bool)
    ensures
        r == listed(v@, s@),
{
    let mut i: usize = 0;
    while i < v.len()
        invariant
            i <= v@.len(),
            forall|k: int| 0 <= k < i ==> (#[trigger] v@[k])@ != s@,
        decreases v@.len() - i,
    {
        if same_text(v[i].as_str(), s) {
            assert(v@[i as int]@ == s@);
            return true;
        }
        i += 1;
    }
    false
}

/// Whether a variable spans the vertical axis: one of its recorded dimensions is
/// that axis, or, for a store that records none, it has as many dimensions as
/// there are coordinates.
pub open spec fn spans(v: VariableMeta, z_name: Option<Seq<char>>, coords: nat) -> bool {
    match z_name {
        None => false,
        Some(z) => if v.dimensions is None || v.dimensions->0@.len() == 0 {
            v.rank == coords
        } else {
            listed(v.dimensions->0@, z)
        },
    }
}

/// The parameter that a variable is.
pub open spec fn parameter_of(
    v: VariableMeta,
    d: Described,
    z_name: Option<Seq<char>>,
    coords: nat,
    p: Parameter,
) -> bool {
    &&& p.name@ == v.name@
    &&& p.label@ == (match d.long_name {
        Some(l) => l@,
        None => v.name@,
    })
    &&& config::text_view(p.description) == config::text_view(d.comment)
    &&& config::text_view(p.unit) == config::text_view(d.units)
    &&& config::text_view(p.standard_name) == config::text_view(d.standard_name)
    &&& p.uses_z == spans(v, z_name, coords)
    &&& p.cov_data_type@ == (if v.column is Some && v.column->0.integral() {
        "integer"@
    } else {
        "float"@
    })
}

/// Make a parameter of a variable.
pub fn make_parameter(v: &VariableMeta, d: Described, z_name: &Option<String>, coords: usize) -> (p:
    Parameter)
    ensures
        parameter_of(*v, d, config::text_view(*z_name), coords as nat, p),
{
    let uses_z = match z_name {
        None => false,
        Some(z) => match &v.dimensions {
            None => v.rank == coords,
            Some(dims) => if dims.len() == 0 {
                v.rank == coords
            } else {
                is_listed(dims, z.as_str())
            },
        },
    };
    let integer = match &v.column {
        Some(f) => f.is_integer(),
        None => false,
    };
    Parameter {
        name: v.name.clone(),
        label: match d.long_name {
            Some(l) => l,
            None => v.name.clone(),
        },
        description: d.comment,
        unit: d.units,
        standard_name: d.standard_name,
        uses_z,
        cov_data_type: if integer {
            "integer"
        } else {
            "float"
        },
    }
}

/// Whether a configuration exposes a variable.
pub open spec fn exposed(only: Option<Vec<String>>, name: Seq<char>) -> bool {
    match only {
        Some(names) => listed(names@, name),
        None => true,
    }
}

/// Whether a variable is the last exposed one of its name.
pub open spec fn source_of(
    vars: Seq<VariableMeta>,
    only: Option<Vec<String>>,
    name: Seq<char>,
    i: int,
) -> bool {
    &&& 0 <= i < vars.len()
    &&& vars[i].name@ == name
    &&& exposed(only, name)
    &&& forall|j: int| i < j < vars.len() ==> (#[trigger] vars[j]).name@ != name
}

/// Whether parameters are those of a store's exposed variables, enriched from
/// its attributes.
pub open spec fn parameters_from(
    m: Map<Seq<char>, Parameter>,
    vars: Seq<VariableMeta>,
    only: Option<Vec<String>>,
    a: StoreAttrs,
    z_name: Option<Seq<char>>,
    coords: nat,
) -> bool {
    &&& forall|name: Seq<char>| #[trigger]
        m.contains_key(name) <==> exists|i: int| source_of(vars, only, name, i)
    &&& forall|name: Seq<char>, i: int|
        #[trigger] source_of(vars, only, name, i) ==> exists|d: Described|
            describes(d, a, name) && #[trigger] parameter_of(
                vars[i],
                d,
                z_name,
                coords,
                m[name],
            )
}

/// Every data variable that is exposed, enriched from the store attributes.
pub fn parameters(
    vars: &Vec<VariableMeta>,
    only: &Option<Vec<String>>,
    attrs: &StoreAttrs,
    z_name: &Option<String>,
    coords: usize,
) -> (r: NameMap<Parameter>)
    requires
        attrs.wf(),
    ensures
        r.wf(),
        parameters_from(
            r.content(),
            vars@,
            *only,
            *attrs,
            config::text_view(*z_name),
            coords as nat,
        ),
        forall|name: Seq<char>| #[trigger]
            r.content().contains_key(name) && r.content()[name].uses_z ==> z_name is Some,
{
    let ghost zn = config::text_view(*z_name);
    let mut out: NameMap<Parameter> = NameMap::new();
    let mut i: usize = 0;
    while i < vars.len()
        invariant
            attrs.wf(),
            zn == config::text_view(*z_name),
            i <= vars@.len(),
            out.wf(),
            parameters_from(
                out.content(),
                vars@.take(i as int),
                *only,
                *attrs,
                zn,
                coords as nat,
            ),
            forall|name: Seq<char>| #[trigger]
                out.content().contains_key(name) && out.content()[name].uses_z ==> z_name is Some,
        decreases vars@.len() - i,
    {
        let v = &vars[i];
        let ghost before = out.content();
        let ghost (s, t) = (vars@.take(i as int), vars@.take(i + 1));
        let ghost name0 = v.name@;
        let shown = match only {
            Some(names) => is_listed(names, v.name.as_str()),
            None => true,
        };
        assert(t == s.push(*v));
        if shown {
            let d = describe(attrs, v.name.as_str());
            let p = make_parameter(v, d, z_name, coords);
            out.insert(v.name.clone(), p);
            proof {
                let m = out.content();
                assert(source_of(t, *only, name0, i as int));
                assert forall|name: Seq<char>| #[trigger]
                    m.contains_key(name) <==> exists|k: int| source_of(t, *only, name, k) by {
                    if name != name0 {
                        if before.contains_key(name) {
                            let k = choose|k: int| source_of(s, *only, name, k);
                            assert(source_of(t, *only, name, k));
                        }
                        if exists|k: int| source_of(t, *only, name, k) {
                            let k = choose|k: int| source_of(t, *only, name, k);
                            assert(source_of(s, *only, name, k));
                        }
                    }
                }
                assert forall|name: Seq<char>, k: int| #[trigger]
                    source_of(t, *only, name, k) implies exists|e: Described|
                    describes(e, *attrs, name) && #[trigger] parameter_of(
                        t[k],
                        e,
                        zn,
                        coords as nat,
                        m[name],
                    ) by {
                    if k == i {
                        assert(parameter_of(t[k], d, zn, coords as nat, m[name]));
                    } else {
                        assert(t[i as int].name@ != name);
                        assert(source_of(s, *only, name, k));
                        let e = choose|e: Described|
                            describes(e, *attrs, name) && #[trigger] parameter_of(
                                s[k],
                                e,
                                zn,
                                coords as nat,
                                before[name],
                            );
                        assert(parameter_of(t[k], e, zn, coords as nat, m[name]));
                    }
                }
            }
        } else {
            proof {
                let m = out.content();
                assert forall|name: Seq<char>| #[trigger]
                    m.contains_key(name) <==> exists|k: int| source_of(t, *only, name, k) by {
                    if before.contains_key(name) {
                        let k = choose|k: int| source_of(s, *only, name, k);
                        assert(name != name0);
                        assert(source_of(t, *only, name, k));
                    }
                    if exists|k: int| source_of(t, *only, name, k) {
                        let k = choose|k: int| source_of(t, *only, name, k);
                        assert(k < i);
                        assert(source_of(s, *only, name, k));
                    }
                }
                assert forall|name: Seq<char>, k: int| #[trigger]
                    source_of(t, *only, name, k) implies exists|e: Described|
                    describes(e, *attrs, name) && #[trigger] parameter_of(
                        t[k],
                        e,
                        zn,
                        coords as nat,
                        m[name],
                    ) by {
                    assert(k < i);
                    assert(source_of(s, *only, name, k));
                    let e = choose|e: Described|
                        describes(e, *attrs, name) && #[trigger] parameter_of(
                            s[k],
                            e,
                            zn,
                            coords as nat,
                            before[name],
                        );
                    assert(parameter_of(t[k], e, zn, coords as nat, m[name]));
                }
            }
        }
        i += 1;
    }
    assert(vars@.take(i as int) == vars@);
    out
}

/// A text in upper case.
pub uninterp spec fn uppercased(text: Seq<char>) -> Seq<char>;

/// `str::to_uppercase`: the upper-case equivalent of a text, a function of the
/// text alone.
#[verifier::external_body]
fn to_upper(s: &str) -> (r: String)
    ensures
        r@ == uppercased(s@),
{
    s.to_uppercase()
}

/// The table name of a collection.
pub open spec fn table_of(id: Seq<char>) -> Seq<char> {
    text::replaced_char(id, '-', "_"@)
}

pub fn table_name(id: &str) -> (r: String)
    ensures
        r@ == table_of(id@),
{
    let chars = chars_of(id);
    string_of(text::replace_char(chars.as_slice(), '-', "_").as_slice())
}

/// The statement that registers a store under a table name.
pub open spec fn registration(table: Seq<char>, location: Seq<char>) -> Seq<char> {
    "CREATE EXTERNAL TABLE "@ + catalog::quoted(table) + " STORED AS ZARR LOCATION '"@
        + text::replaced_char(location, '\'', "''"@) + "'"@
}

pub fn registration_sql(table: &str, location: &str) -> (r: String)
    ensures
        r@ == registration(table@, location@),
{
    let chars = chars_of(location);
    let mut out: String = "CREATE EXTERNAL TABLE ".to_owned();
    out.append(quote_ident(table).as_str());
    out.append(" STORED AS ZARR LOCATION '");
    out.append(string_of(text::replace_char(chars.as_slice(), '\'', "''").as_slice()).as_str());
    out.append("'");
    out
}

/// The query that reads one coordinate axis. A coordinate-only projection with a
/// limit is answered from the coordinate array, without materialising the
/// product of every coordinate.
pub open spec fn axis_query(table: Seq<char>, name: Seq<char>, len: usize) -> Seq<char> {
    "SELECT "@ + catalog::quoted(name) + " FROM "@ + catalog::quoted(table) + " LIMIT "@
        + text::digits(
        if len >= 1 {
            len as nat
        } else {
            1
        },
    )
}

pub fn axis_sql(table: &str, name: &str, len: usize) -> (r: String)
    ensures
        r@ == axis_query(table@, name@, len),
{
    let limit: usize = if len >= 1 {
        len
    } else {
        1
    };
    let mut out: String = "SELECT ".to_owned();
    out.append(quote_ident(name).as_str());
    out.append(" FROM ");
    out.append(quote_ident(table).as_str());
    out.append(" LIMIT ");
    out.append(text::decimal(limit).as_str());
    out
}

/// The length that a coordinate's metadata gives it; 0 where there is no such
/// coordinate.
pub open spec fn len_of(coords: Seq<CoordMeta>, name: Seq<char>) -> usize
    decreases coords.len(),
{
    if coords.len() == 0 {
        0
    } else if coords.last().name@ == name {
        coords.last().len
    } else {
        len_of(coords.drop_last(), name)
    }
}

pub fn axis_len(coords: &Vec<CoordMeta>, name: &str) -> (r: usize)
    ensures
        r == len_of(coords@, name@),
{
    let mut i: usize = coords.len();
    assert(coords@.take(i as int) == coords@);
    while i > 0
        invariant
            i <= coords@.len(),
            len_of(coords@, name@) == len_of(coords@.take(i as int), name@),
        decreases i,
    {
        assert(coords@.take(i as int).drop_last() == coords@.take(i - 1));
        if same_text(coords[i - 1].name.as_str(), name) {
            return coords[i - 1].len;
        }
        i -= 1;
    }
    0
}

/// The axis that a coordinate's values make; there is none without values.
pub fn numeric_axis(name: &str, values: Vec<Double>) -> (r: EdrResult<NumericAxis>)
    ensures
        match r {
            Ok(a) => a.values@ == values@ && a.wf() && values@.len() > 0,
            Err(e) => values@.len() == 0 && e@ == Fault::Internal(
                "Axis '"@ + name@ + "' read back empty"@,
            ),
        },
{
    if values.len() == 0 {
        let mut m: String = "Axis '".to_owned();
        m.append(name);
        m.append("' read back empty");
        return Err(EdrError::Internal(m));
    }
    Ok(NumericAxis::new(values))
}

/// The axis that times make; there is none without times.
pub fn time_axis(name: &str, values: Vec<i64>) -> (r: EdrResult<TimeAxis>)
    ensures
        match r {
            Ok(a) => a.values@ == values@ && values@.len() > 0,
            Err(e) => values@.len() == 0 && e@ == Fault::Internal(
                "Time axis '"@ + name@ + "' read back empty"@,
            ),
        },
{
    if values.len() == 0 {
        let mut m: String = "Time axis '".to_owned();
        m.append(name);
        m.append("' read back empty");
        return Err(EdrError::Internal(m));
    }
    Ok(TimeAxis::new(values))
}

/// Whether a longitude axis runs 0…360: its upper end is past 180 degrees east.
pub open spec fn past_east(x: Seq<Double>) -> bool {
    (Double { bits: catalog::EAST }).less(x[axis::upward(x, x.len() - 1)])
}

pub fn runs_past_east(x: &NumericAxis) -> (r: bool)
    requires
        x.wf(),
        x.values@.len() > 0,
    ensures
        r == past_east(x.values@),
{
    (Double { bits: catalog::EAST }).is_less(x.max())
}

/// The bits of the tolerance for an axis that closes the circle, 1e-6.
pub const CLOSING_TOLERANCE: u64 = 0x3eb0_c6f7_a0b5_ed8d;

/// Whether a longitude axis wraps the globe: it is evenly spaced, and its span
/// plus one cell misses a full turn by no more than the tolerance. `gap` is how
/// much it misses it by.
pub open spec fn wraps(step: Option<Double>, gap: Double) -> bool {
    step is Some && gap.less(Double { bits: CLOSING_TOLERANCE })
}

/// Stored longitudes as CRS84.
pub open spec fn crs84_all(x: Seq<Double>, shifted: Seq<Double>) -> Seq<Double> {
    Seq::new(x.len(), |i: int| catalog::crs84_lon(past_east(x), x[i], shifted[i]))
}

/// Present stored longitudes as CRS84, where `shifted` is each less a full turn.
pub fn longitudes(x: &NumericAxis, shifted: &Vec<Double>) -> (r: Vec<Double>)
    requires
        x.wf(),
        x.values@.len() > 0,
        shifted@.len() == x.values@.len(),
    ensures
        r@ == crs84_all(x.values@, shifted@),
{
    let turn = runs_past_east(x);
    let ghost all = crs84_all(x.values@, shifted@);
    let mut out: Vec<Double> = Vec::new();
    let mut i: usize = 0;
    while i < x.values.len()
        invariant
            shifted@.len() == x.values@.len(),
            turn == past_east(x.values@),
            all == crs84_all(x.values@, shifted@),
            i <= x.values@.len(),
            out@ == all.take(i as int),
        decreases x.values@.len() - i,
    {
        out.push(catalog::to_crs84(turn, x.values[i], shifted[i]));
        assert(all.take(i + 1) == all.take(i as int).push(all[i as int]));
        i += 1;
    }
    assert(all.take(i as int) == all);
    out
}

/// A collection's axes, with what was worked out of them: each longitude less a
/// full turn, each as CRS84 folded onto 0…360, the longitudes' spacing and by how
/// much they miss closing the circle, and each coordinate with ten decimals.
#[derive(Debug)]
pub struct Axes {
    pub x: NumericAxis,
    pub y: NumericAxis,
    pub z: Option<NumericAxis>,
    pub t: TimeAxis,
    pub shifted: Vec<Double>,
    pub folded: Vec<Double>,
    pub spacing: axis::Spacing,
    pub gap: Double,
    pub x_texts: Vec<String>,
    pub y_texts: Vec<String>,
    pub z_texts: Vec<String>,
}

impl Axes {
    pub open spec fn wf(&self) -> bool {
        &&& self.x.wf() && self.x.values@.len() > 0
        &&& self.y.wf() && self.y.values@.len() > 0
        &&& self.t.values@.len() > 0
        &&& self.z matches Some(z) ==> z.wf() && z.values@.len() > 0 && self.z_texts@.len()
            == z.values@.len()
        &&& self.shifted@.len() == self.x.values@.len()
        &&& self.folded@.len() == self.x.values@.len()
        &&& self.spacing.fits(self.x.values@.len())
        &&& self.x_texts@.len() == self.x.values@.len()
        &&& self.y_texts@.len() == self.y.values@.len()
    }
}

/// Stored longitudes as they come back in a row.
pub open spec fn native_all(x: Seq<Double>, shifted: Seq<Double>, folded: Seq<Double>) -> Seq<
    Double,
> {
    Seq::new(
        x.len(),
        |i: int| catalog::native_lon(past_east(x), crs84_all(x, shifted)[i], folded[i]),
    )
}

/// The nominal spacing of an axis, where it is evenly spaced.
pub open spec fn even_step(n: nat, s: axis::Spacing) -> Option<Double> {
    if n >= 2 && forall|i: int|
        0 <= i < s.deviations@.len() ==> (#[trigger] s.deviations@[i]).less(s.tolerance) {
        Some(s.step)
    } else {
        None
    }
}

/// Make a collection of a configuration, a store's attributes, its axes and its
/// parameters.
pub fn make_collection(
    cfg: &CollectionConfig,
    names: AxisNames,
    attrs: &StoreAttrs,
    axes: Axes,
    parameters: NameMap<Parameter>,
) -> (r: EdrResult<Collection>)
    requires
        attrs.wf(),
        axes.wf(),
        axes.z is Some == names.z is Some,
        parameters.wf(),
        forall|name: Seq<char>| #[trigger]
            parameters.content().contains_key(name) && parameters.content()[name].uses_z
                ==> names.z is Some,
    ensures
        match r {
            Ok(c) => {
                &&& c.wf()
                &&& parameters.entries@.len() > 0
                &&& c.id@ == cfg.id@
                &&& c.title@ == (match cfg.title {
                    Some(t) => t@,
                    None => uppercased(cfg.id@),
                })
                &&& c.description@ == (match cfg.description {
                    Some(d) => d@,
                    None => "Zarr store at "@ + cfg.location@,
                })
                &&& c.table@ == table_of(cfg.id@)
                &&& text::texts(c.keywords@) == text::texts(cfg.keywords@)
                &&& c.x_name@ == names.x@ && c.y_name@ == names.y@ && c.t_name@ == names.t@
                &&& config::text_view(c.z_name) == config::text_view(names.z)
                &&& c.x.values@ == axes.x.values@ && c.y.values@ == axes.y.values@
                &&& c.z == axes.z && c.t.values@ == axes.t.values@
                &&& c.x_crs84@ == crs84_all(axes.x.values@, axes.shifted@)
                &&& c.x_native@ == native_all(axes.x.values@, axes.shifted@, axes.folded@)
                &&& c.x_texts@ == axes.x_texts@ && c.y_texts@ == axes.y_texts@
                &&& c.z_texts@ == axes.z_texts@
                &&& c.lon_0_360 == past_east(axes.x.values@)
                &&& c.lon_global == wraps(
                    even_step(axes.x.values@.len(), axes.spacing),
                    axes.gap,
                )
                &&& config::text_view(c.z_units) == (match names.z {
                    Some(z) => attrs.attribute(z@, "units"@),
                    None => None,
                })
                &&& match c.valid_time {
                    Some(w) => attrs.declared_window() == Some((w.0 as int, w.1 as int)),
                    None => attrs.declared_window() is None,
                }
                &&& c.parameters == parameters
            },
            Err(e) => parameters.entries@.len() == 0 && e@ == Fault::Internal(
                "'"@ + cfg.location@ + "' exposes no data variables"@,
            ),
        },
{
    if parameters.len() == 0 {
        let mut m: String = "'".to_owned();
        m.append(cfg.location.as_str());
        m.append("' exposes no data variables");
        return Err(EdrError::Internal(m));
    }
    let lon_0_360 = runs_past_east(&axes.x);
    let lon_global = axes.x.step(&axes.spacing).is_some() && axes.gap.is_less(
        Double { bits: CLOSING_TOLERANCE },
    );
    let x_crs84 = longitudes(&axes.x, &axes.shifted);
    let ghost native = native_all(axes.x.values@, axes.shifted@, axes.folded@);
    let mut x_native: Vec<Double> = Vec::new();
    let mut i: usize = 0;
    while i < x_crs84.len()
        invariant
            axes.folded@.len() == axes.x.values@.len(),
            x_crs84@ == crs84_all(axes.x.values@, axes.shifted@),
            lon_0_360 == past_east(axes.x.values@),
            native == native_all(axes.x.values@, axes.shifted@, axes.folded@),
            i <= x_crs84@.len(),
            x_native@ == native.take(i as int),
        decreases x_crs84@.len() - i,
    {
        if lon_0_360 {
            x_native.push(axes.folded[i]);
        } else {
            x_native.push(x_crs84[i]);
        }
        assert(native.take(i + 1) == native.take(i as int).push(native[i as int]));
        i += 1;
    }
    assert(native.take(i as int) == native);
    let mut keywords: Vec<String> = Vec::new();
    let mut k: usize = 0;
    while k < cfg.keywords.len()
        invariant
            k <= cfg.keywords@.len(),
            keywords@.len() == k,
            forall|j: int| 0 <= j < k ==> (#[trigger] keywords@[j])@ == cfg.keywords@[j]@,
        decreases cfg.keywords@.len() - k,
    {
        keywords.push(cfg.keywords[k].clone());
        k += 1;
    }
    assert(text::texts(keywords@) =~= text::texts(cfg.keywords@));
    let title = match &cfg.title {
        Some(t) => t.clone(),
        None => to_upper(cfg.id.as_str()),
    };
    let description = match &cfg.description {
        Some(d) => d.clone(),
        None => {
            let mut d: String = "Zarr store at ".to_owned();
            d.append(cfg.location.as_str());
            d
        },
    };
    let z_units = match &names.z {
        Some(z) => attrs.units(z.as_str()),
        None => None,
    };
    let valid_time = attrs.validity_window();
    Ok(
        Collection {
            id: cfg.id.clone(),
            title,
            description,
            table: table_name(cfg.id.as_str()),
            keywords,
            x_name: names.x,
            y_name: names.y,
            z_name: names.z,
            t_name: names.t,
            x: axes.x,
            y: axes.y,
            z: axes.z,
            t: axes.t,
            x_crs84,
            x_native,
            x_texts: axes.x_texts,
            y_texts: axes.y_texts,
            z_texts: axes.z_texts,
            lon_0_360,
            lon_global,
            z_units,
            valid_time,
            parameters,
        },
    )
}

/// Of several members under a name the last counts, and a map of members holds just
/// what is found under each name.
pub proof fn the_last_member_counts(ms: Seq<(Seq<char>, Seq<char>)>, k: int)
    requires
        0 <= k < ms.len(),
        forall|i: int| k < i < ms.len() ==> (#[trigger] ms[i]).0 != ms[k].0,
    ensures
        member(ms, ms[k].0) == Some(ms[k].1),
        gathered(ms).contains_key(ms[k].0),
        gathered(ms)[ms[k].0] == ms[k].1,
    decreases ms.len(),
{
    assert(ms[ms.len() - 1] == ms.last());
    if k < ms.len() - 1 {
        let front = ms.drop_last();
        assert(front[k] == ms[k]);
        assert forall|i: int| k < i < front.len() implies (#[trigger] front[i]).0
            != front[k].0 by {
            assert(front[i] == ms[i]);
        }
        the_last_member_counts(front, k);
    }
}

/// No member is found under a name that none bears.
pub proof fn no_member_is_made_up(ms: Seq<(Seq<char>, Seq<char>)>, name: Seq<char>)
    requires
        forall|i: int| 0 <= i < ms.len() ==> (#[trigger] ms[i]).0 != name,
    ensures
        member(ms, name) is None,
        !gathered(ms).contains_key(name),
    decreases ms.len(),
{
    if ms.len() > 0 {
        assert(ms[ms.len() - 1] == ms.last());
        let front = ms.drop_last();
        assert forall|i: int| 0 <= i < front.len() implies (#[trigger] front[i]).0 != name by {
            assert(front[i] == ms[i]);
        }
        no_member_is_made_up(front, name);
    }
}

/// The attributes of an array are those that consolidated metadata holds under its
/// name and `/.zattrs`, and an array without such a member has none.
pub proof fn an_array_has_the_attributes_under_its_name(
    ms: Seq<(Seq<char>, Seq<char>)>,
    name: Seq<char>,
)
    ensures
        match member(ms, name + "/.zattrs"@) {
            Some(doc) => array_documents(ms).contains_key(name) && array_documents(ms)[name]
                == doc,
            None => !array_documents(ms).contains_key(name),
        },
    decreases ms.len(),
{
    let suffix = "/.zattrs"@;
    if ms.len() > 0 {
        an_array_has_the_attributes_under_its_name(ms.drop_last(), name);
        let key = ms.last().0;
        let whole = name + suffix;
        if text::closes(key, suffix) {
            let stem = key.take(key.len() - suffix.len());
            assert(key =~= stem + suffix) by {
                assert(key.skip(key.len() - suffix.len()) == suffix);
                assert(key =~= stem + key.skip(key.len() - suffix.len()));
            }
            if stem == name {
                assert(key == whole);
            }
            if key == whole {
                assert(stem =~= name);
            }
        } else if key == whole {
            assert(key.skip(key.len() - suffix.len()) =~= suffix);
        }
    }
}

/// An instant is in the validity window exactly where it is not before the start and
/// not after the day of one of the two stops.
pub proof fn the_window_runs_to_the_end_of_the_later_stop(
    start: Option<i64>,
    stop: Option<i64>,
    era5t: Option<i64>,
    at: int,
)
    ensures
        window(start, stop, era5t) is Some <==> start is Some && (stop is Some || era5t is Some),
        window(start, stop, era5t) matches Some(w) ==> w.0 == start->0 && (w.0 <= at <= w.1
            <==> start->0 <= at && ((stop is Some && at < stop->0 + 86_400_000_000) || (era5t
            is Some && at < era5t->0 + 86_400_000_000))),
{
}

/// Whether a coordinate is a latitude by its units or its name.
pub open spec fn answers_north(c: CoordMeta, units: Seq<char>) -> bool {
    text::begins(text::lowered(units), "degrees_north"@) || c.name@ == "latitude"@ || c.name@
        == "lat"@ || c.name@ == "y"@
}

/// Whether a coordinate is a longitude by its units or its name.
pub open spec fn answers_east(c: CoordMeta, units: Seq<char>) -> bool {
    text::begins(text::lowered(units), "degrees_east"@) || c.name@ == "longitude"@ || c.name@
        == "lon"@ || c.name@ == "x"@
}

proof fn roles_stay(coords: Seq<CoordMeta>, units: Seq<Seq<char>>, k: int)
    requires
        0 <= k <= coords.len(),
    ensures
        ({
            let (r, s) = (roles(coords.take(k), units), roles(coords, units));
            &&& r.t is Some ==> s.t == r.t
            &&& r.y is Some ==> s.y == r.y
            &&& r.x is Some ==> s.x == r.x
            &&& r.z is Some ==> s.z == r.z
        }),
    decreases coords.len() - k,
{
    if k < coords.len() {
        assert(coords.take(k + 1).drop_last() =~= coords.take(k));
        roles_stay(coords, units, k + 1);
    } else {
        assert(coords.take(k) =~= coords);
    }
}

proof fn roles_are_free(coords: Seq<CoordMeta>, units: Seq<Seq<char>>)
    ensures
        (forall|i: int| 0 <= i < coords.len() ==> !is_time(#[trigger] coords[i])) <==> roles(
            coords,
            units,
        ).t is None,
        (forall|i: int| 0 <= i < coords.len() ==> !answers_north(#[trigger] coords[i], units[i]))
            ==> roles(coords, units).y is None,
        (forall|i: int| 0 <= i < coords.len() ==> !answers_east(#[trigger] coords[i], units[i]))
            ==> roles(coords, units).x is None,
    decreases coords.len(),
{
    if coords.len() > 0 {
        let front = coords.drop_last();
        let n = front.len() as int;
        roles_are_free(front, units);
        assert(coords[n] == coords.last());
        assert forall|i: int| 0 <= i < n implies #[trigger] front[i] == coords[i] by {}
        if forall|i: int| 0 <= i < coords.len() ==> !is_time(#[trigger] coords[i]) {
            assert forall|i: int| 0 <= i < front.len() implies !is_time(#[trigger] front[i]) by {
                assert(!is_time(coords[i]));
            }
            assert(!is_time(coords[n]));
        }
        if roles(coords, units).t is None {
            assert forall|i: int| 0 <= i < coords.len() implies !is_time(
                #[trigger] coords[i],
            ) by {
                if i < n {
                    assert(!is_time(front[i]));
                }
            }
        }
        if forall|i: int| 0 <= i < coords.len() ==> !answers_north(#[trigger] coords[i], units[i]) {
            assert forall|i: int| 0 <= i < front.len() implies !answers_north(
                #[trigger] front[i],
                units[i],
            ) by {
                assert(!answers_north(coords[i], units[i]));
            }
            assert(!answers_north(coords[n], units[n]));
        }
        if forall|i: int| 0 <= i < coords.len() ==> !answers_east(#[trigger] coords[i], units[i]) {
            assert forall|i: int| 0 <= i < front.len() implies !answers_east(
                #[trigger] front[i],
                units[i],
            ) by {
                assert(!answers_east(coords[i], units[i]));
            }
            assert(!answers_east(coords[n], units[n]));
        }
    }
}

/// The first time coordinate is the time axis; the first latitude that is no time
/// is the northward axis; the first longitude that is neither is the eastward axis;
/// and the first coordinate that is none of these is vertical, unless one before it
/// was left over.
pub proof fn a_coordinate_becomes_the_axis_it_answers_to(
    coords: Seq<CoordMeta>,
    units: Seq<Seq<char>>,
    k: int,
)
    requires
        0 <= k < coords.len(),
    ensures
        ({
            let r = roles(coords, units);
            let (c, name) = (coords[k], coords[k].name@);
            let (north, east) = (answers_north(c, units[k]), answers_east(c, units[k]));
            &&& is_time(c) && (forall|i: int| 0 <= i < k ==> !is_time(#[trigger] coords[i]))
                ==> r.t == Some(name)
            &&& !is_time(c) && north && (forall|i: int|
                0 <= i < k ==> !answers_north(#[trigger] coords[i], units[i])) ==> r.y == Some(
                name,
            )
            &&& !is_time(c) && !north && east && (forall|i: int|
                0 <= i < k ==> !answers_east(#[trigger] coords[i], units[i])) ==> r.x == Some(
                name,
            )
            &&& !is_time(c) && !north && !east && roles(coords.take(k), units).z is None ==> r.z
                == Some(name)
        }),
{
    let before = coords.take(k);
    let after = coords.take(k + 1);
    assert(after.drop_last() =~= before);
    assert(after.last() == coords[k]);
    roles_are_free(before, units);
    roles_stay(coords, units, k + 1);
    assert forall|i: int| 0 <= i < k implies #[trigger] before[i] == coords[i] by {}
    if forall|i: int| 0 <= i < k ==> !is_time(#[trigger] coords[i]) {
        assert forall|i: int| 0 <= i < before.len() implies !is_time(#[trigger] before[i]) by {
            assert(!is_time(coords[i]));
        }
    }
    if forall|i: int| 0 <= i < k ==> !answers_north(#[trigger] coords[i], units[i]) {
        assert forall|i: int| 0 <= i < before.len() implies !answers_north(
            #[trigger] before[i],
            units[i],
        ) by {
            assert(!answers_north(coords[i], units[i]));
        }
    }
    if forall|i: int| 0 <= i < k ==> !answers_east(#[trigger] coords[i], units[i]) {
        assert forall|i: int| 0 <= i < before.len() implies !answers_east(
            #[trigger] before[i],
            units[i],
        ) by {
            assert(!answers_east(coords[i], units[i]));
        }
    }
}

/// A store in which no coordinate is a time, none a latitude or none a longitude is
/// short of an axis.
pub proof fn an_axis_needs_a_coordinate(coords: Seq<CoordMeta>, units: Seq<Seq<char>>)
    ensures
        (forall|i: int| 0 <= i < coords.len() ==> !is_time(#[trigger] coords[i])) ==> roles(
            coords,
            units,
        ).t is None,
        (forall|i: int| 0 <= i < coords.len() ==> !answers_north(#[trigger] coords[i], units[i]))
            ==> roles(coords, units).y is None,
        (forall|i: int| 0 <= i < coords.len() ==> !answers_east(#[trigger] coords[i], units[i]))
            ==> roles(coords, units).x is None,
{
    roles_are_free(coords, units);
}

/// A table is named as its collection, with an underscore for each hyphen.
pub proof fn a_table_is_named_without_hyphens(id: Seq<char>)
    ensures
        table_of(id).len() == id.len(),
        forall|i: int|
            0 <= i < id.len() ==> #[trigger] table_of(id)[i] == if id[i] == '-' {
                '_'
            } else {
                id[i]
            },
    decreases id.len(),
{
    reveal_strlit("_");
    if id.len() > 0 {
        a_table_is_named_without_hyphens(id.drop_last());
    }
}

/// A store is registered at its location as it is, but for an apostrophe, which is
/// doubled.
pub proof fn an_apostrophe_in_a_location_is_doubled(
    table: Seq<char>,
    a: Seq<char>,
    b: Seq<char>,
)
    requires
        text::free_of(a, '\''),
        text::free_of(b, '\''),
    ensures
        registration(table, a) == "CREATE EXTERNAL TABLE "@ + catalog::quoted(table)
            + " STORED AS ZARR LOCATION '"@ + a + "'"@,
        registration(table, a + seq!['\''] + b) == "CREATE EXTERNAL TABLE "@ + catalog::quoted(
            table,
        ) + " STORED AS ZARR LOCATION '"@ + (a + "''"@ + b) + "'"@,
{
    let to = "''"@;
    text::a_character_is_replaced_wherever_it_stands(a, seq!['\''], '\'', to);
    text::a_character_is_replaced_wherever_it_stands(b, b, '\'', to);
    text::a_character_is_replaced_wherever_it_stands(a + seq!['\''], b, '\'', to);
}

/// An axis is read from its own column and its own table, as many values as it has.
pub proof fn an_axis_is_read_in_full(table: Seq<char>, name: Seq<char>, len: usize)
    requires
        len > 0,
    ensures
        axis_query(table, name, len) == "SELECT "@ + catalog::quoted(name) + " FROM "@
            + catalog::quoted(table) + " LIMIT "@ + text::digits(len as nat),
{
}

/// A coordinate's length is what its metadata says.
pub proof fn a_length_is_that_of_its_coordinate(coords: Seq<CoordMeta>, k: int)
    requires
        0 <= k < coords.len(),
        forall|i: int| k < i < coords.len() ==> (#[trigger] coords[i]).name@ != coords[k].name@,
    ensures
        len_of(coords, coords[k].name@) == coords[k].len,
    decreases coords.len(),
{
    assert(coords[coords.len() - 1] == coords.last());
    if k < coords.len() - 1 {
        let front = coords.drop_last();
        assert(front[k] == coords[k]);
        assert forall|i: int| k < i < front.len() implies (#[trigger] front[i]).name@
            != front[k].name@ by {
            assert(front[i] == coords[i]);
        }
        a_length_is_that_of_its_coordinate(front, k);
    }
}

/// A longitude axis runs past 180 degrees east exactly where one of its values does.
pub proof fn an_axis_runs_past_the_east_if_a_value_does(x: Seq<Double>)
    requires
        x.len() > 0,
        axis::monotonic(x),
    ensures
        past_east(x) <==> exists|i: int|
            0 <= i < x.len() && (Double { bits: 0x4066_8000_0000_0000 }).less(#[trigger] x[i]),
{
    let top = axis::upward(x, x.len() - 1);
    catalog::ends_are_extreme(x, 0);
    if past_east(x) {
        assert((Double { bits: 0x4066_8000_0000_0000 }).less(x[top]));
    }
    if exists|i: int|
        0 <= i < x.len() && (Double { bits: 0x4066_8000_0000_0000 }).less(#[trigger] x[i]) {
        let i = choose|i: int|
            0 <= i < x.len() && (Double { bits: 0x4066_8000_0000_0000 }).less(#[trigger] x[i]);
        catalog::ends_are_extreme(x, i);
    }
}

/// Longitudes of an axis that stays within 180 degrees east are presented and come
/// back as they are stored; on one that runs past it, those past it are presented a
/// full turn less, and each comes back folded.
pub proof fn longitudes_are_presented_by_their_axis(
    x: Seq<Double>,
    shifted: Seq<Double>,
    folded: Seq<Double>,
    i: int,
)
    requires
        0 <= i < x.len(),
        shifted.len() == x.len(),
        folded.len() == x.len(),
    ensures
        crs84_all(x, shifted).len() == x.len(),
        native_all(x, shifted, folded).len() == x.len(),
        !past_east(x) ==> crs84_all(x, shifted)[i] == x[i] && native_all(x, shifted, folded)[i]
            == x[i],
        past_east(x) ==> native_all(x, shifted, folded)[i] == folded[i],
        past_east(x) && (Double { bits: 0x4066_8000_0000_0000 }).less(x[i]) ==> crs84_all(
            x,
            shifted,
        )[i] == shifted[i],
        past_east(x) && !(Double { bits: 0x4066_8000_0000_0000 }).less(x[i]) ==> crs84_all(
            x,
            shifted,
        )[i] == x[i],
{
}

/// A document without numbers that JSON does not know stays as it is.
pub proof fn a_sound_document_stays_as_it_is(s: Seq<char>)
    requires
        !text::holds(s, "NaN"@),
        !text::holds(s, "Infinity"@),
    ensures
        sanitized(s) == s,
{
    reveal_strlit("-Infinity");
    reveal_strlit("Infinity");
    let (whole, part) = ("-Infinity"@, "Infinity"@);
    assert(whole.skip(1) =~= part);
    if text::holds(s, whole) {
        let i = choose|i: int|
            0 <= i <= s.len() - whole.len() && #[trigger] s.subrange(i, i + whole.len()) == whole;
        assert(s.subrange(i + 1, i + 1 + part.len()) =~= s.subrange(i, i + whole.len()).skip(1));
    }
    text::what_does_not_stand_is_not_replaced(s, "NaN"@, "null"@);
    text::what_does_not_stand_is_not_replaced(s, whole, "null"@);
    text::what_does_not_stand_is_not_replaced(s, part, "null"@);
}

/// What is not a number becomes null, and what stands around it stays.
pub proof fn what_is_no_number_becomes_null(a: Seq<char>, b: Seq<char>)
    requires
        !text::holds(a + "null"@ + b, "Infinity"@),
        !text::holds(b, "NaN"@),
        forall|i: int|
            0 <= i < a.len() ==> #[trigger] (a + "NaN"@ + b).subrange(i, i + "NaN"@.len())
                != "NaN"@,
    ensures
        sanitized(a + "NaN"@ + b) == a + "null"@ + b,
{
    reveal_strlit("NaN");
    reveal_strlit("-Infinity");
    reveal_strlit("Infinity");
    text::a_text_is_replaced_where_it_first_stands(a, "NaN"@, b, "null"@);
    text::what_does_not_stand_is_not_replaced(b, "NaN"@, "null"@);
    let s = a + "null"@ + b;
    let (whole, part) = ("-Infinity"@, "Infinity"@);
    assert(whole.skip(1) =~= part);
    if text::holds(s, whole) {
        let i = choose|i: int|
            0 <= i <= s.len() - whole.len() && #[trigger] s.subrange(i, i + whole.len()) == whole;
        assert(s.subrange(i + 1, i + 1 + part.len()) =~= s.subrange(i, i + whole.len()).skip(1));
    }
    text::what_does_not_stand_is_not_replaced(s, whole, "null"@);
    text::what_does_not_stand_is_not_replaced(s, part, "null"@);
}

/// A longitude axis wraps the globe exactly where it is evenly spaced and misses a
/// full turn by less than one millionth of a degree; and it is evenly spaced where it
/// has two values and no step deviates from the nominal one by its tolerance.
pub proof fn an_axis_wraps_where_it_closes_the_circle(
    n: nat,
    s: axis::Spacing,
    gap: Double,
)
    ensures
        wraps(even_step(n, s), gap) <==> n >= 2 && (forall|i: int|
            0 <= i < s.deviations@.len() ==> (#[trigger] s.deviations@[i]).less(s.tolerance))
            && gap.less(Double { bits: 0x3eb0_c6f7_a0b5_ed8d }),
        even_step(n, s) matches Some(step) ==> step == s.step,
{
}

/// A parameter bears its variable's name, is labelled by its `long_name` or else by
/// that name, and takes its description, unit and standard name from the attributes
/// `comment`, `units` and `standard_name`; it is an integer where its column is.
pub proof fn a_parameter_says_what_is_recorded_of_it(
    v: VariableMeta,
    d: Described,
    a: StoreAttrs,
    z_name: Option<Seq<char>>,
    coords: nat,
    p: Parameter,
)
    requires
        describes(d, a, v.name@),
        parameter_of(v, d, z_name, coords, p),
    ensures
        p.name@ == v.name@,
        p.label@ == (match a.attribute(v.name@, "long_name"@) {
            Some(l) => l,
            None => v.name@,
        }),
        config::text_view(p.description) == a.attribute(v.name@, "comment"@),
        config::text_view(p.unit) == a.attribute(v.name@, "units"@),
        config::text_view(p.standard_name) == a.attribute(v.name@, "standard_name"@),
        p.cov_data_type@ == "integer"@ || p.cov_data_type@ == "float"@,
        (v.column matches Some(f) && (f is Int8 || f is Int16 || f is Int32 || f is Int64))
            ==> p.cov_data_type@ == "integer"@,
        v.column is None ==> p.cov_data_type@ == "float"@,
{
}

/// A parameter varies with height exactly where the vertical axis is among the
/// dimensions recorded of its variable; where none are recorded, where it has as many
/// as there are coordinates; and never without such an axis.
pub proof fn a_parameter_varies_with_height_by_its_dimensions(
    v: VariableMeta,
    z: Seq<char>,
    coords: nat,
)
    ensures
        !spans(v, None, coords),
        v.dimensions is None ==> (spans(v, Some(z), coords) <==> v.rank == coords),
        v.dimensions matches Some(dims) && dims@.len() == 0 ==> (spans(v, Some(z), coords)
            <==> v.rank == coords),
        v.dimensions matches Some(dims) ==> (dims@.len() > 0 ==> (spans(v, Some(z), coords)
            <==> exists|i: int| 0 <= i < dims@.len() && (#[trigger] dims@[i])@ == z)),
{
}

/// The parameters of a store are its variables, or of those only the ones that are
/// named where some are.
pub proof fn a_variable_is_exposed_unless_others_are_named(
    m: Map<Seq<char>, Parameter>,
    vars: Seq<VariableMeta>,
    only: Option<Vec<String>>,
    a: StoreAttrs,
    z_name: Option<Seq<char>>,
    coords: nat,
    name: Seq<char>,
)
    requires
        parameters_from(m, vars, only, a, z_name, coords),
    ensures
        m.contains_key(name) <==> (exists|i: int|
            0 <= i < vars.len() && (#[trigger] vars[i]).name@ == name) && (
        only matches Some(names) ==> exists|i: int|
            0 <= i < names@.len() && (#[trigger] names@[i])@ == name),
        m.contains_key(name) ==> m[name].name@ == name,
{
    if m.contains_key(name) {
        let i = choose|i: int| source_of(vars, only, name, i);
        assert(source_of(vars, only, name, i));
        assert(vars[i].name@ == name);
    }
    if exists|i: int| 0 <= i < vars.len() && (#[trigger] vars[i]).name@ == name {
        let i = last_of_name(vars, name);
        if exposed(only, name) {
            assert(source_of(vars, only, name, i));
        }
    }
}

proof fn last_of_name(vars: Seq<VariableMeta>, name: Seq<char>) -> (k: int)
    requires
        exists|i: int| 0 <= i < vars.len() && (#[trigger] vars[i]).name@ == name,
    ensures
        0 <= k < vars.len(),
        vars[k].name@ == name,
        forall|j: int| k < j < vars.len() ==> (#[trigger] vars[j]).name@ != name,
    decreases vars.len(),
{
    let n = vars.len() - 1;
    if vars[n].name@ == name {
        n
    } else {
        let front = vars.drop_last();
        let i = choose|i: int| 0 <= i < vars.len() && (#[trigger] vars[i]).name@ == name;
        assert(front[i].name@ == name);
        let k = last_of_name(front, name);
        assert forall|j: int| k < j < vars.len() implies (#[trigger] vars[j]).name@ != name by {
            if j < n {
                assert(front[j] == vars[j]);
            }
        }
        k
    }
}

} // verus!
