//! Parsing and validation of the EDR query-string parameters.
use vstd::prelude::*;
use vstd::slice::slice_subrange;

use crate::clock;
use crate::double::Double;
use crate::edr::wkt::Bounds;
use crate::error::{self, EdrError, EdrResult, Fault};
use crate::numerals::{self, Numerals};
use crate::text::{
    self, chars_of, items, lower, parse_count, same_text, spells, split, split_once,
    string_of, trim, upper,
};

verus! {

/// Response encodings this server produces.
#[derive(Debug, Clone, Copy, PartialEq, Eq, Structural)]
pub enum Format {
    CoverageJson,
    GeoJson,
}

/// The encoding that a name stands for; CoverageJSON where none is named.
pub open spec fn format_named(raw: Seq<char>) -> Result<Format, Fault> {
    let name = text::lowered(text::trimmed(raw));
    if name == ""@ || name == "covjson"@ || name == "coveragejson"@ || name
        == "application/prs.coverage+json"@ {
        Ok(Format::CoverageJson)
    } else if name == "geojson"@ || name == "application/geo+json"@ {
        Ok(Format::GeoJson)
    } else {
        Err(
            Fault::NotSupported(
                "Output format '"@ + name + "' is not supported; use CoverageJSON or GeoJSON"@,
            ),
        )
    }
}

impl Format {
    pub open spec fn media(self) -> Seq<char> {
        match self {
            Format::CoverageJson => "application/prs.coverage+json"@,
            Format::GeoJson => "application/geo+json"@,
        }
    }

    pub fn media_type(self) -> (r: &'static str)
        ensures
            r@ == self.media(),
    {
        match self {
            Format::CoverageJson => "application/prs.coverage+json",
            Format::GeoJson => "application/geo+json",
        }
    }

    pub fn parse(raw: &str) -> (r: EdrResult<Format>)
        ensures
            error::outcome(r) == format_named(raw@),
    {
        let chars = chars_of(raw);
        let name = lower(trim(chars.as_slice()));
        let n = name.as_slice();
        if spells(n, "") || spells(n, "covjson") || spells(n, "coveragejson") || spells(
            n,
            "application/prs.coverage+json",
        ) {
            return Ok(Format::CoverageJson);
        }
        if spells(n, "geojson") || spells(n, "application/geo+json") {
            return Ok(Format::GeoJson);
        }
        let mut m: String = "Output format '".to_owned();
        m.append(string_of(n).as_str());
        m.append("' is not supported; use CoverageJSON or GeoJSON");
        Err(EdrError::NotSupported(m))
    }
}

/// A `bbox` value: the horizontal box, plus the vertical bounds that the
/// six-element form carries.
pub type BoundingBox = ([Double; 4], Option<(Double, Double)>);

/// A `datetime` selection: a single instant or a (possibly half-open) interval.
#[derive(Debug, Clone, Copy, PartialEq, Eq, Structural)]
pub enum TemporalSelection {
    Instant(i64),
    Interval(Option<i64>, Option<i64>),
}

/// A `z` selection, in the vertical coordinate's own units.
#[derive(Debug, Clone, PartialEq, Eq)]
pub enum VerticalSelection {
    All,
    Values(Vec<Double>),
    Interval(Double, Double),
}

/// A `z` value as it is written: a selection, or the start and step of `count`
/// values that are still to be worked out.
#[derive(Debug, Clone, PartialEq, Eq)]
pub enum VerticalRequest {
    All,
    Values(Vec<Double>),
    Interval(Double, Double),
    Repeat { count: usize, start: Double, step: Double },
}

/// What a [`VerticalSelection`] holds.
pub enum Levels {
    All,
    Values(Seq<Double>),
    Interval(Double, Double),
}

/// What a [`VerticalRequest`] holds.
pub enum LevelRequest {
    Levels(Levels),
    Repeat { count: usize, start: Double, step: Double },
}

impl View for VerticalSelection {
    type V = Levels;

    open spec fn view(&self) -> Levels {
        match self {
            VerticalSelection::All => Levels::All,
            VerticalSelection::Values(v) => Levels::Values(v@),
            VerticalSelection::Interval(lo, hi) => Levels::Interval(*lo, *hi),
        }
    }
}

impl View for VerticalRequest {
    type V = LevelRequest;

    open spec fn view(&self) -> LevelRequest {
        match self {
            VerticalRequest::All => LevelRequest::Levels(Levels::All),
            VerticalRequest::Values(v) => LevelRequest::Levels(Levels::Values(v@)),
            VerticalRequest::Interval(lo, hi) => LevelRequest::Levels(Levels::Interval(*lo, *hi)),
            VerticalRequest::Repeat { count, start, step } => LevelRequest::Repeat {
                count: *count,
                start: *start,
                step: *step,
            },
        }
    }
}

impl VerticalRequest {
    /// The selection that is asked for, where `rungs` are the values of a
    /// repeated one: its start, and each further step from it.
    pub fn selection(self, rungs: Vec<Double>) -> (r: VerticalSelection)
        ensures
            r@ == (match self@ {
                LevelRequest::Levels(levels) => levels,
                LevelRequest::Repeat { .. } => Levels::Values(rungs@),
            }),
    {
        match self {
            VerticalRequest::All => VerticalSelection::All,
            VerticalRequest::Values(v) => VerticalSelection::Values(v),
            VerticalRequest::Interval(lo, hi) => VerticalSelection::Interval(lo, hi),
            VerticalRequest::Repeat { .. } => VerticalSelection::Values(rungs),
        }
    }
}

/// The query string, normalised to lowercase keys.
///
/// A key may appear more than once. EDR spells a list of parameters
/// `parameter-name=a,b`, but an HTML `<select multiple>` submits one
/// `parameter-name=` per selected option, and both have to mean the same
/// thing, so every value is kept rather than the last overwriting the rest.
#[derive(Debug, Clone)]
pub struct Query {
    pub pairs: Vec<(String, String)>,
}

/// A query string by what its keys and values hold.
pub open spec fn pairs_of(v: Seq<(String, String)>) -> Seq<(Seq<char>, Seq<char>)> {
    Seq::new(v.len(), |i: int| (v[i].0@, v[i].1@))
}

impl View for Query {
    type V = Seq<(Seq<char>, Seq<char>)>;

    open spec fn view(&self) -> Seq<(Seq<char>, Seq<char>)> {
        pairs_of(self.pairs@)
    }
}

/// Pairs with every key in lower case.
pub open spec fn normalised(pairs: Seq<(Seq<char>, Seq<char>)>) -> Seq<(Seq<char>, Seq<char>)> {
    Seq::new(pairs.len(), |i: int| (text::lowered(pairs[i].0), pairs[i].1))
}

/// Every value of a key, in the order they were sent.
pub open spec fn raw_values(q: Seq<(Seq<char>, Seq<char>)>, key: Seq<char>) -> Seq<Seq<char>>
    decreases q.len(),
{
    if q.len() == 0 {
        Seq::empty()
    } else if q.last().0 == key {
        raw_values(q.drop_last(), key).push(q.last().1)
    } else {
        raw_values(q.drop_last(), key)
    }
}

/// Every value of a key that is not blank, trimmed, in the order they were
/// sent.
pub open spec fn values(q: Seq<(Seq<char>, Seq<char>)>, key: Seq<char>) -> Seq<Seq<char>> {
    text::solid(raw_values(q, key))
}

/// The first value of a key that is not blank.
pub open spec fn value(q: Seq<(Seq<char>, Seq<char>)>, key: Seq<char>) -> Option<Seq<char>> {
    if values(q, key).len() > 0 {
        Some(values(q, key)[0])
    } else {
        None
    }
}

/// A text, or its absence, by what it holds.
pub open spec fn text_of(r: Option<String>) -> Option<Seq<char>> {
    match r {
        Some(s) => Some(s@),
        None => None,
    }
}

pub open spec fn missing(key: Seq<char>) -> Fault {
    Fault::BadRequest("Required parameter '"@ + key + "' is missing"@)
}

/// Whether a coordinate reference system is CRS84 under one of its names.
pub open spec fn crs84(crs: Seq<char>) -> bool {
    let name = text::raised(text::trimmed(crs));
    text::holds(name, "CRS84"@) || text::holds(name, "CRS:84"@) || text::closes(name, "4326"@)
        || name == "WGS84"@
}

/// The texts that the items of comma-separated values come to.
pub open spec fn listed_names(values: Seq<Seq<char>>) -> Seq<Seq<char>>
    decreases values.len(),
{
    if values.len() == 0 {
        Seq::empty()
    } else {
        listed_names(values.drop_last()) + text::solid(text::pieces(values.last(), ','))
    }
}

/// The parameters that a query names, under either spelling of the key.
pub open spec fn named_parameters(q: Seq<(Seq<char>, Seq<char>)>) -> Seq<Seq<char>> {
    listed_names(values(q, "parameter-name"@) + values(q, "parameter_name"@))
}

impl Query {
    pub fn new(pairs: Vec<(String, String)>) -> (r: Query)
        ensures
            r@ == normalised(pairs_of(pairs@)),
    {
        let mut out: Vec<(String, String)> = Vec::new();
        let mut i: usize = 0;
        while i < pairs.len()
            invariant
                i <= pairs.len(),
                pairs_of(out@) == normalised(pairs_of(pairs@)).take(i as int),
            decreases pairs.len() - i,
        {
            let key = chars_of(pairs[i].0.as_str());
            let ghost before = pairs_of(out@);
            let name = string_of(lower(key.as_slice()).as_slice());
            out.push((name, pairs[i].1.clone()));
            proof {
                let all = normalised(pairs_of(pairs@));
                assert(pairs_of(out@) == before.push(all[i as int]));
                assert(all.take(i + 1) == all.take(i as int).push(all[i as int]));
            }
            i += 1;
        }
        assert(normalised(pairs_of(pairs@)).take(i as int) == normalised(pairs_of(pairs@)));
        Query { pairs: out }
    }

    /// Every non-blank value for a key, in the order they were sent.
    fn all(&self, key: &str) -> (r: Vec<String>)
        ensures
            text::texts(r@) == values(self@, key@),
    {
        let mut out: Vec<String> = Vec::new();
        let mut i: usize = 0;
        assert(text::texts(out@) == values(self@.take(0), key@));
        while i < self.pairs.len()
            invariant
                i <= self.pairs.len(),
                text::texts(out@) == values(self@.take(i as int), key@),
            decreases self.pairs.len() - i,
        {
            let ghost q = self@.take(i + 1);
            proof {
                assert(q.drop_last() == self@.take(i as int));
                assert(q.last() == self@[i as int]);
            }
            if same_text(self.pairs[i].0.as_str(), key) {
                let chars = chars_of(self.pairs[i].1.as_str());
                let t = trim(chars.as_slice());
                proof {
                    let raw = raw_values(q, key@);
                    assert(raw.drop_last() == raw_values(q.drop_last(), key@));
                    assert(raw.last() == q.last().1);
                }
                if t.len() > 0 {
                    let ghost before = text::texts(out@);
                    out.push(string_of(t));
                    assert(text::texts(out@) == before.push(t@));
                }
            }
            i += 1;
        }
        assert(self@.take(i as int) == self@);
        out
    }

    /// The first non-blank value carried for a key.
    ///
    /// A submitted form sends every field, so an untouched one arrives as an
    /// empty value; that is the same as not having been given.
    pub fn get(&self, key: &str) -> (r: Option<String>)
        ensures
            text_of(r) == value(self@, key@),
    {
        let all = self.all(key);
        if all.len() > 0 {
            assert(text::texts(all@)[0] == all@[0]@);
            Some(all[0].clone())
        } else {
            assert(text::texts(all@).len() == 0);
            None
        }
    }

    /// Set a parameter that was implied by another one: the key then has this
    /// value alone.
    pub fn insert(&mut self, key: &str, value: String)
        ensures
            final(self)@ == without(old(self)@, text::lowered(key@)).push(
                (text::lowered(key@), value@),
            ),
    {
        let chars = chars_of(key);
        let name = string_of(lower(chars.as_slice()).as_slice());
        let mut out: Vec<(String, String)> = Vec::new();
        let mut i: usize = 0;
        assert(pairs_of(out@) == without(self@.take(0), name@));
        while i < self.pairs.len()
            invariant
                i <= self.pairs.len(),
                self@ == old(self)@,
                pairs_of(out@) == without(self@.take(i as int), name@),
            decreases self.pairs.len() - i,
        {
            proof {
                assert(self@.take(i + 1).drop_last() == self@.take(i as int));
                assert(self@.take(i + 1).last() == self@[i as int]);
            }
            if !same_text(self.pairs[i].0.as_str(), name.as_str()) {
                let ghost before = pairs_of(out@);
                out.push((self.pairs[i].0.clone(), self.pairs[i].1.clone()));
                assert(pairs_of(out@) == before.push(self@[i as int]));
            }
            i += 1;
        }
        proof {
            assert(self@.take(i as int) == self@);
        }
        let ghost kept = pairs_of(out@);
        let ghost entry = (name@, value@);
        out.push((name, value));
        assert(pairs_of(out@) == kept.push(entry));
        self.pairs = out;
    }

    pub fn required(&self, key: &str) -> (r: EdrResult<String>)
        ensures
            match r {
                Ok(s) => value(self@, key@) == Some(s@),
                Err(e) => value(self@, key@) is None && e@ == missing(key@),
            },
    {
        match self.get(key) {
            Some(s) => Ok(s),
            None => {
                let mut m: String = "Required parameter '".to_owned();
                m.append(key);
                m.append("' is missing");
                Err(EdrError::BadRequest(m))
            },
        }
    }

    pub fn format(&self) -> (r: EdrResult<Format>)
        ensures
            error::outcome(r) == format_named(
                match value(self@, "f"@) {
                    Some(v) => v,
                    None => ""@,
                },
            ),
    {
        match self.get("f") {
            Some(v) => Format::parse(v.as_str()),
            None => Format::parse(""),
        }
    }

    /// EDR permits `crs`, but this server only serves CRS84.
    pub fn crs(&self) -> (r: EdrResult<()>)
        ensures
            error::outcome(r) == crs_accepted(self@),
    {
        match self.get("crs") {
            None => Ok(()),
            Some(crs) => {
                let chars = chars_of(crs.as_str());
                let name = upper(trim(chars.as_slice()));
                let n = name.as_slice();
                if text::contains(n, "CRS84") || text::contains(n, "CRS:84") || text::ends_with(
                    n,
                    "4326",
                ) || spells(n, "WGS84") {
                    return Ok(());
                }
                let mut m: String = "CRS '".to_owned();
                m.append(crs.as_str());
                m.append("' is not supported; this collection is served in CRS84");
                Err(EdrError::NotSupported(m))
            },
        }
    }

    pub fn limit(&self, default: usize) -> (r: EdrResult<usize>)
        ensures
            error::outcome(r) == limit_of(self@, default),
    {
        match self.get("limit") {
            None => Ok(default),
            Some(raw) => {
                let chars = chars_of(raw.as_str());
                match parse_count(chars.as_slice()) {
                    Some(n) => if n > 0 {
                        return Ok(n);
                    },
                    None => {},
                }
                let mut m: String = "'limit' must be a positive integer, got '".to_owned();
                m.append(raw.as_str());
                m.append("'");
                Err(EdrError::BadRequest(m))
            },
        }
    }

    /// The requested parameters; `None` when none were named.
    ///
    /// Accepts both spellings of the list, comma-separated in one value or one
    /// value per parameter, and both spellings of the key, since
    /// `parameter_name` is common in the wild and costs nothing to allow.
    pub fn parameter_names(&self) -> (r: Option<Vec<String>>)
        ensures
            match r {
                Some(v) => text::texts(v@) == named_parameters(self@) && v@.len() > 0,
                None => named_parameters(self@).len() == 0,
            },
    {
        let mut given = self.all("parameter-name");
        let mut others = self.all("parameter_name");
        let ghost first = text::texts(given@);
        let ghost second = text::texts(others@);
        given.append(&mut others);
        let ghost all = text::texts(given@);
        assert(all == first + second);
        let mut out: Vec<String> = Vec::new();
        let mut i: usize = 0;
        assert(text::texts(out@) == listed_names(all.take(0)));
        while i < given.len()
            invariant
                i <= given.len(),
                all == text::texts(given@),
                text::texts(out@) == listed_names(all.take(i as int)),
            decreases given.len() - i,
        {
            let chars = chars_of(given[i].as_str());
            let names = items(chars.as_slice(), ',');
            let ghost ns = text::views(names@);
            let ghost base = text::texts(out@);
            let mut j: usize = 0;
            assert(base + ns.take(0) == base);
            while j < names.len()
                invariant
                    j <= names.len(),
                    ns == text::views(names@),
                    text::texts(out@) == base + ns.take(j as int),
                decreases names.len() - j,
            {
                let ghost before = text::texts(out@);
                out.push(string_of(names[j].as_slice()));
                proof {
                    assert(text::texts(out@) == before.push(ns[j as int]));
                    assert(base + ns.take(j + 1) == (base + ns.take(j as int)).push(ns[j as int]));
                }
                j += 1;
            }
            proof {
                assert(ns.take(j as int) == ns);
                assert(all.take(i + 1).drop_last() == all.take(i as int));
                assert(all.take(i + 1).last() == given@[i as int]@);
            }
            i += 1;
        }
        assert(all.take(i as int) == all);
        if out.len() > 0 {
            Some(out)
        } else {
            assert(text::texts(out@).len() == 0);
            None
        }
    }
}

/// Pairs without those under a key.
pub open spec fn without(q: Seq<(Seq<char>, Seq<char>)>, key: Seq<char>) -> Seq<
    (Seq<char>, Seq<char>),
>
    decreases q.len(),
{
    if q.len() == 0 {
        Seq::empty()
    } else if q.last().0 == key {
        without(q.drop_last(), key)
    } else {
        without(q.drop_last(), key).push(q.last())
    }
}

/// Whether a query's `crs` is one that is served.
pub open spec fn crs_accepted(q: Seq<(Seq<char>, Seq<char>)>) -> Result<(), Fault> {
    match value(q, "crs"@) {
        None => Ok(()),
        Some(crs) => if crs84(crs) {
            Ok(())
        } else {
            Err(
                Fault::NotSupported(
                    "CRS '"@ + crs + "' is not supported; this collection is served in CRS84"@,
                ),
            )
        },
    }
}

/// A count above zero, where a text spells one.
pub open spec fn positive(raw: Seq<char>) -> Option<usize> {
    match text::count_of(raw) {
        Some(n) => if n > 0 {
            Some(n)
        } else {
            None
        },
        None => None,
    }
}

/// A query's `limit`, or the default.
pub open spec fn limit_of(q: Seq<(Seq<char>, Seq<char>)>, default: usize) -> Result<usize, Fault> {
    match value(q, "limit"@) {
        None => Ok(default),
        Some(raw) => match positive(raw) {
            Some(n) => Ok(n),
            None => Err(
                Fault::BadRequest("'limit' must be a positive integer, got '"@ + raw + "'"@),
            ),
        },
    }
}

/// The first reading of an instant that succeeded.
pub open spec fn first_reading(readings: Seq<Option<i64>>) -> Option<i64>
    decreases readings.len(),
{
    if readings.len() == 0 {
        None
    } else if readings.first() is Some {
        readings.first()
    } else {
        first_reading(readings.drop_first())
    }
}

pub open spec fn no_instant(raw: Seq<char>) -> Fault {
    Fault::BadRequest("'"@ + raw + "' is not an RFC 3339 date-time"@)
}

/// The instant that a text was read as, given what each way of reading it made
/// of it, in order of preference.
pub fn settle_instant(raw: &str, readings: &Vec<Option<i64>>) -> (r: EdrResult<i64>)
    ensures
        error::outcome(r) == (match first_reading(readings@) {
            Some(t) => Ok(t),
            None => Err(no_instant(raw@)),
        }),
{
    let mut i: usize = 0;
    assert(readings@.skip(0) == readings@);
    while i < readings.len()
        invariant
            i <= readings.len(),
            first_reading(readings@) == first_reading(readings@.skip(i as int)),
        decreases readings.len() - i,
    {
        if let Some(t) = readings[i] {
            return Ok(t);
        }
        assert(readings@.skip(i as int).drop_first() == readings@.skip(i + 1));
        i += 1;
    }
    let mut m: String = "'".to_owned();
    m.append(raw);
    m.append("' is not an RFC 3339 date-time");
    Err(EdrError::BadRequest(m))
}

/// What each accepted way of writing an instant makes of a text: a full RFC
/// 3339 timestamp, a timestamp without a zone in one of three forms, a date.
pub open spec fn instant_readings(t: Seq<char>) -> Seq<Option<i64>> {
    Seq::<Option<i64>>::empty().push(clock::rfc3339_micros(t)).push(
        clock::naive_micros(t, "%Y-%m-%dT%H:%M:%S%.f"@),
    ).push(clock::naive_micros(t, "%Y-%m-%d %H:%M:%S%.f"@)).push(
        clock::naive_micros(t, "%Y-%m-%dT%H:%M"@),
    ).push(clock::date_micros(t, "%Y-%m-%d"@))
}

/// The instant that a text stands for.
pub open spec fn instant(raw: Seq<char>) -> Result<i64, Fault> {
    let t = text::trimmed(raw);
    match first_reading(instant_readings(t)) {
        Some(v) => Ok(v),
        None => Err(no_instant(t)),
    }
}

/// Parse one instant to epoch microseconds. Accepts a full RFC 3339 timestamp,
/// a timezone-less timestamp (read as UTC), or a bare date.
pub fn parse_instant(raw: &str) -> (r: EdrResult<i64>)
    ensures
        error::outcome(r) == instant(raw@),
{
    let chars = chars_of(raw);
    let t = string_of(trim(chars.as_slice()));
    let mut readings: Vec<Option<i64>> = Vec::new();
    readings.push(clock::read_rfc3339(t.as_str()));
    readings.push(clock::read_naive(t.as_str(), "%Y-%m-%dT%H:%M:%S%.f"));
    readings.push(clock::read_naive(t.as_str(), "%Y-%m-%d %H:%M:%S%.f"));
    readings.push(clock::read_naive(t.as_str(), "%Y-%m-%dT%H:%M"));
    readings.push(clock::read_date(t.as_str(), "%Y-%m-%d"));
    assert(readings@ == instant_readings(t@));
    settle_instant(t.as_str(), &readings)
}

/// One end of an interval: `None` where it is open.
pub open spec fn open_instant(raw: Seq<char>) -> Result<Option<i64>, Fault> {
    let t = text::trimmed(raw);
    if t.len() == 0 || t == ".."@ {
        Ok(None)
    } else {
        match instant(t) {
            Ok(v) => Ok(Some(v)),
            Err(e) => Err(e),
        }
    }
}

fn parse_open_instant(raw: &[char]) -> (r: EdrResult<Option<i64>>)
    ensures
        error::outcome(r) == open_instant(raw@),
{
    let t = trim(raw);
    if t.len() == 0 || spells(t, "..") {
        return Ok(None);
    }
    match parse_instant(string_of(t).as_str()) {
        Ok(v) => Ok(Some(v)),
        Err(e) => Err(e),
    }
}

/// The interval between two ends, at least one of which is bounded and which
/// are in order.
pub open spec fn interval(start: Option<i64>, end: Option<i64>) -> Result<
    TemporalSelection,
    Fault,
> {
    if start is Some && end is Some && start->0 > end->0 {
        Err(Fault::BadRequest("'datetime' interval ends before it starts"@))
    } else if start is None && end is None {
        Err(Fault::BadRequest("'datetime' interval must bound at least one end"@))
    } else {
        Ok(TemporalSelection::Interval(start, end))
    }
}

/// Make an interval of two ends that have been read.
pub fn make_interval(start: Option<i64>, end: Option<i64>) -> (r: EdrResult<TemporalSelection>)
    ensures
        error::outcome(r) == interval(start, end),
{
    if let (Some(s), Some(e)) = (start, end) {
        if s > e {
            return Err(
                EdrError::BadRequest("'datetime' interval ends before it starts".to_owned()),
            );
        }
    }
    if start.is_none() && end.is_none() {
        return Err(
            EdrError::BadRequest("'datetime' interval must bound at least one end".to_owned()),
        );
    }
    Ok(TemporalSelection::Interval(start, end))
}

/// The selection that a `datetime` value asks for.
pub open spec fn datetime_selection(raw: Seq<char>) -> Result<TemporalSelection, Fault> {
    let t = text::trimmed(raw);
    match text::parted(t, '/') {
        Some(ends) => match open_instant(ends.0) {
            Err(e) => Err(e),
            Ok(start) => match open_instant(ends.1) {
                Err(e) => Err(e),
                Ok(end) => interval(start, end),
            },
        },
        None => match instant(t) {
            Ok(v) => Ok(TemporalSelection::Instant(v)),
            Err(e) => Err(e),
        },
    }
}

/// RFC 3339 instants, or an interval `start/end` where either side may be open
/// (`..` or empty).
pub fn parse_datetime(raw: &str) -> (r: EdrResult<TemporalSelection>)
    ensures
        error::outcome(r) == datetime_selection(raw@),
{
    let chars = chars_of(raw);
    let t = trim(chars.as_slice());
    match split_once(t, '/') {
        Some((from, to)) => {
            let start = match parse_open_instant(from) {
                Ok(v) => v,
                Err(e) => {
                    return Err(e);
                },
            };
            let end = match parse_open_instant(to) {
                Ok(v) => v,
                Err(e) => {
                    return Err(e);
                },
            };
            make_interval(start, end)
        },
        None => match parse_instant(string_of(t).as_str()) {
            Ok(v) => Ok(TemporalSelection::Instant(v)),
            Err(e) => Err(e),
        },
    }
}

/// The interval that two form fields compose, an empty one being an open end.
pub open spec fn picked(from: Option<Seq<char>>, to: Option<Seq<char>>) -> Seq<char> {
    (match from {
        Some(v) => v,
        None => ".."@,
    }) + "/"@ + (match to {
        Some(v) => v,
        None => ".."@,
    })
}

/// The times that a query asks for.
pub open spec fn queried_times(q: Seq<(Seq<char>, Seq<char>)>) -> Result<
    Option<TemporalSelection>,
    Fault,
> {
    let from = value(q, "datetime-from"@);
    let to = value(q, "datetime-to"@);
    let selection = match value(q, "datetime"@) {
        Some(raw) => datetime_selection(raw),
        None => datetime_selection(picked(from, to)),
    };
    if value(q, "datetime"@) is None && from is None && to is None {
        Ok(None)
    } else {
        match selection {
            Ok(s) => Ok(Some(s)),
            Err(e) => Err(e),
        }
    }
}

impl Query {
    /// `datetime`, or the pair of fields the HTML form submits in its place.
    ///
    /// A date-and-time picker holds one instant, so the form carries two of
    /// them and they are composed here into the interval EDR spells with a
    /// slash. `datetime` itself always wins, leaving the API contract alone;
    /// an empty picker means that end is open.
    pub fn datetime(&self) -> (r: EdrResult<Option<TemporalSelection>>)
        ensures
            error::outcome(r) == queried_times(self@),
    {
        let selection = match self.get("datetime") {
            Some(raw) => parse_datetime(raw.as_str()),
            None => {
                let from = self.get("datetime-from");
                let to = self.get("datetime-to");
                if from.is_none() && to.is_none() {
                    return Ok(None);
                }
                let mut m: String = match from {
                    Some(v) => v,
                    None => "..".to_owned(),
                };
                m.append("/");
                match to {
                    Some(v) => m.append(v.as_str()),
                    None => m.append(".."),
                }
                parse_datetime(m.as_str())
            },
        };
        match selection {
            Ok(s) => Ok(Some(s)),
            Err(e) => Err(e),
        }
    }
}

/// An explicit `datetime` is never second-guessed by the form fields: what they
/// hold does not change the selection.
pub proof fn datetime_always_wins(
    q: Seq<(Seq<char>, Seq<char>)>,
    p: Seq<(Seq<char>, Seq<char>)>,
)
    requires
        value(q, "datetime"@) is Some,
        value(p, "datetime"@) == value(q, "datetime"@),
    ensures
        queried_times(q) == queried_times(p),
        queried_times(q) == (match datetime_selection(value(q, "datetime"@)->0) {
            Ok(s) => Ok::<Option<TemporalSelection>, Fault>(Some(s)),
            Err(e) => Err(e),
        }),
{
}

/// The number that a text of a `z` value stands for.
pub open spec fn level(raw: Seq<char>, m: Map<Seq<char>, Double>) -> Result<Double, Fault> {
    match numerals::reading(m, text::trimmed(raw)) {
        Some(n) if n.finite() => Ok(n),
        _ => Err(Fault::BadRequest("'z' contains a non-numeric value: '"@ + raw + "'"@)),
    }
}

fn read_level(raw: &[char], numerals: &Numerals) -> (r: EdrResult<Double>)
    requires
        numerals.wf(),
    ensures
        error::outcome(r) == level(raw@, numerals@),
{
    if let Some(n) = numerals.value(trim(raw)) {
        if n.is_finite() {
            return Ok(n);
        }
    }
    let mut m: String = "'z' contains a non-numeric value: '".to_owned();
    m.append(string_of(raw).as_str());
    m.append("'");
    Err(EdrError::BadRequest(m))
}

/// The numbers of a list of texts, or the first that is none.
pub open spec fn level_list(raws: Seq<Seq<char>>, m: Map<Seq<char>, Double>) -> Result<
    Seq<Double>,
    Fault,
>
    decreases raws.len(),
{
    if raws.len() == 0 {
        Ok(Seq::empty())
    } else {
        match level_list(raws.drop_last(), m) {
            Err(e) => Err(e),
            Ok(vs) => match level(raws.last(), m) {
                Err(e) => Err(e),
                Ok(v) => Ok(vs.push(v)),
            },
        }
    }
}

proof fn level_list_err(raws: Seq<Seq<char>>, m: Map<Seq<char>, Double>, k: int)
    requires
        0 <= k <= raws.len(),
        level_list(raws.take(k), m) is Err,
    ensures
        level_list(raws, m) == level_list(raws.take(k), m),
    decreases raws.len() - k,
{
    if k == raws.len() {
        assert(raws.take(k) == raws);
    } else {
        assert(raws.take(k + 1).drop_last() == raws.take(k));
        level_list_err(raws, m, k + 1);
    }
}

/// A repeated level as it is written, `{count}/{start}/{step}` after the `R`.
pub open spec fn repeated(rest: Seq<char>, m: Map<Seq<char>, Double>) -> Result<
    LevelRequest,
    Fault,
> {
    let parts = text::pieces(rest, '/');
    if parts.len() != 3 {
        Err(Fault::BadRequest("A repeating 'z' must be written R{count}/{start}/{step}"@))
    } else {
        match text::count_of(text::trimmed(parts[0])) {
            None => Err(
                Fault::BadRequest("'z' repeat count '"@ + parts[0] + "' is not a number"@),
            ),
            Some(count) => if count == 0 || count > 10_000 {
                Err(Fault::BadRequest("'z' repeat count must be between 1 and 10000"@))
            } else {
                match level(parts[1], m) {
                    Err(e) => Err(e),
                    Ok(start) => match level(parts[2], m) {
                        Err(e) => Err(e),
                        Ok(step) => Ok(LevelRequest::Repeat { count, start, step }),
                    },
                }
            },
        }
    }
}

/// What a `z` value asks for.
pub open spec fn level_request(raw: Seq<char>, m: Map<Seq<char>, Double>) -> Result<
    LevelRequest,
    Fault,
> {
    let t = text::trimmed(raw);
    if text::lowered(t) == "all"@ {
        Ok(LevelRequest::Levels(Levels::All))
    } else if t.len() > 0 && (t.first() == 'R' || t.first() == 'r') {
        repeated(t.drop_first(), m)
    } else {
        match text::parted(t, '/') {
            Some(ends) => match level(ends.0, m) {
                Err(e) => Err(e),
                Ok(lo) => match level(ends.1, m) {
                    Err(e) => Err(e),
                    Ok(hi) => Ok(
                        LevelRequest::Levels(Levels::Interval(lo.lesser(hi), lo.greater(hi))),
                    ),
                },
            },
            None => match level_list(text::pieces(t, ','), m) {
                Err(e) => Err(e),
                Ok(vs) => Ok(LevelRequest::Levels(Levels::Values(vs))),
            },
        }
    }
}

/// A `z` request, or what is wrong with it, by what it holds.
pub open spec fn request_of(r: EdrResult<VerticalRequest>) -> Result<LevelRequest, Fault> {
    match r {
        Ok(v) => Ok(v@),
        Err(e) => Err(e@),
    }
}

fn parse_repeated(rest: &[char], numerals: &Numerals) -> (r: EdrResult<VerticalRequest>)
    requires
        numerals.wf(),
    ensures
        request_of(r) == repeated(rest@, numerals@),
{
    let parts = split(rest, '/');
    assert(text::views(parts@) == text::pieces(rest@, '/'));
    if parts.len() != 3 {
        return Err(
            EdrError::BadRequest(
                "A repeating 'z' must be written R{count}/{start}/{step}".to_owned(),
            ),
        );
    }
    proof {
        let ps = text::views(parts@);
        assert(ps[0] == parts@[0]@ && ps[1] == parts@[1]@ && ps[2] == parts@[2]@);
    }
    let count: usize = match parse_count(trim(parts[0].as_slice())) {
        Some(n) => n,
        None => {
            let mut m: String = "'z' repeat count '".to_owned();
            m.append(string_of(parts[0].as_slice()).as_str());
            m.append("' is not a number");
            return Err(EdrError::BadRequest(m));
        },
    };
    if count == 0 || count > 10_000 {
        return Err(
            EdrError::BadRequest("'z' repeat count must be between 1 and 10000".to_owned()),
        );
    }
    let start = match read_level(parts[1].as_slice(), numerals) {
        Ok(v) => v,
        Err(e) => {
            return Err(e);
        },
    };
    let step = match read_level(parts[2].as_slice(), numerals) {
        Ok(v) => v,
        Err(e) => {
            return Err(e);
        },
    };
    Ok(VerticalRequest::Repeat { count, start, step })
}

/// `z=500`, `z=850,700,500`, `z=500/850`, `z=R5/1000/-100`, or `z=all`, its
/// numerals read beforehand.
pub fn parse_z(raw: &str, numerals: &Numerals) -> (r: EdrResult<VerticalRequest>)
    requires
        numerals.wf(),
    ensures
        request_of(r) == level_request(raw@, numerals@),
{
    let chars = chars_of(raw);
    let t = trim(chars.as_slice());
    if spells(lower(t).as_slice(), "all") {
        return Ok(VerticalRequest::All);
    }
    if t.len() > 0 && (t[0] == 'R' || t[0] == 'r') {
        let rest = slice_subrange(t, 1, t.len());
        assert(rest@ == t@.drop_first());
        return parse_repeated(rest, numerals);
    }
    if let Some((a, b)) = split_once(t, '/') {
        let lo = match read_level(a, numerals) {
            Ok(v) => v,
            Err(e) => {
                return Err(e);
            },
        };
        let hi = match read_level(b, numerals) {
            Ok(v) => v,
            Err(e) => {
                return Err(e);
            },
        };
        return Ok(VerticalRequest::Interval(lo.min(hi), lo.max(hi)));
    }
    let parts = split(t, ',');
    let ghost all = text::views(parts@);
    let mut out: Vec<Double> = Vec::new();
    let mut i: usize = 0;
    while i < parts.len()
        invariant
            numerals.wf(),
            i <= parts.len(),
            all == text::views(parts@),
            level_list(all.take(i as int), numerals@) == Ok::<Seq<Double>, Fault>(out@),
            all == text::pieces(t@, ','),
            text::parted(t@, '/') is None,
            text::lowered(t@) != "all"@,
            !(t@.len() > 0 && (t@.first() == 'R' || t@.first() == 'r')),
            t@ == text::trimmed(raw@),
        decreases parts.len() - i,
    {
        proof {
            assert(all.take(i + 1).drop_last() == all.take(i as int));
            assert(all.take(i + 1).last() == parts@[i as int]@);
        }
        match read_level(parts[i].as_slice(), numerals) {
            Ok(v) => {
                out.push(v);
            },
            Err(e) => {
                proof {
                    level_list_err(all, numerals@, i + 1);
                }
                return Err(e);
            },
        }
        i += 1;
    }
    assert(all.take(i as int) == all);
    Ok(VerticalRequest::Values(out))
}

/// The texts that stand where numbers belong in a `z` value.
pub open spec fn level_numerals(raw: Seq<char>) -> Seq<Seq<char>> {
    let t = text::trimmed(raw);
    if t.len() > 0 && (t.first() == 'R' || t.first() == 'r') {
        trimmed_all(text::pieces(t.drop_first(), '/'))
    } else {
        match text::parted(t, '/') {
            Some(ends) => Seq::<Seq<char>>::empty().push(text::trimmed(ends.0)).push(
                text::trimmed(ends.1),
            ),
            None => trimmed_all(text::pieces(t, ',')),
        }
    }
}

pub open spec fn trimmed_all(v: Seq<Seq<char>>) -> Seq<Seq<char>> {
    Seq::new(v.len(), |i: int| text::trimmed(v[i]))
}

fn trim_all(v: &Vec<Vec<char>>) -> (r: Vec<String>)
    ensures
        text::texts(r@) == trimmed_all(text::views(v@)),
{
    let mut out: Vec<String> = Vec::new();
    let mut i: usize = 0;
    while i < v.len()
        invariant
            i <= v.len(),
            out@.len() == i,
            forall|j: int| 0 <= j < i ==> (#[trigger] out@[j])@ == text::trimmed(v@[j]@),
        decreases v.len() - i,
    {
        out.push(string_of(trim(v[i].as_slice())));
        i += 1;
    }
    assert(text::texts(out@) =~= trimmed_all(text::views(v@)));
    out
}

/// List the texts that stand where numbers belong in a `z` value.
pub fn z_numerals(raw: &str) -> (r: Vec<String>)
    ensures
        text::texts(r@) == level_numerals(raw@),
{
    let chars = chars_of(raw);
    let t = trim(chars.as_slice());
    if t.len() > 0 && (t[0] == 'R' || t[0] == 'r') {
        let rest = slice_subrange(t, 1, t.len());
        assert(rest@ == t@.drop_first());
        return trim_all(&split(rest, '/'));
    }
    if let Some((a, b)) = split_once(t, '/') {
        let mut out: Vec<String> = Vec::new();
        out.push(string_of(trim(a)));
        out.push(string_of(trim(b)));
        assert(text::texts(out@) =~= level_numerals(raw@));
        return out;
    }
    trim_all(&split(t, ','))
}

proof fn level_list_agrees(
    raws: Seq<Seq<char>>,
    m: Map<Seq<char>, Double>,
    n: Map<Seq<char>, Double>,
)
    requires
        crate::edr::wkt::agree(m, n, trimmed_all(raws)),
    ensures
        level_list(raws, m) == level_list(raws, n),
    decreases raws.len(),
{
    if raws.len() > 0 {
        let front = raws.drop_last();
        let all = trimmed_all(raws);
        assert forall|i: int| 0 <= i < trimmed_all(front).len() implies numerals::reading(
            m,
            #[trigger] trimmed_all(front)[i],
        ) == numerals::reading(n, trimmed_all(front)[i]) by {
            assert(all[i] == trimmed_all(front)[i]);
        }
        level_list_agrees(front, m, n);
        assert(all[raws.len() - 1] == text::trimmed(raws.last()));
    }
}

/// A `z` value depends on no numerals but those it lists: two readings that
/// agree on them give the same request, or the same fault.
pub proof fn level_numerals_suffice(
    raw: Seq<char>,
    m: Map<Seq<char>, Double>,
    n: Map<Seq<char>, Double>,
)
    requires
        crate::edr::wkt::agree(m, n, level_numerals(raw)),
    ensures
        level_request(raw, m) == level_request(raw, n),
{
    let t = text::trimmed(raw);
    let listed = level_numerals(raw);
    if t.len() > 0 && (t.first() == 'R' || t.first() == 'r') {
        let parts = text::pieces(t.drop_first(), '/');
        if parts.len() == 3 {
            assert(listed[1] == text::trimmed(parts[1]));
            assert(listed[2] == text::trimmed(parts[2]));
        }
    } else {
        match text::parted(t, '/') {
            Some(ends) => {
                assert(listed[0] == text::trimmed(ends.0));
                assert(listed[1] == text::trimmed(ends.1));
            },
            None => {
                level_list_agrees(text::pieces(t, ','), m, n);
            },
        }
    }
}

/// The `z` that a query asks for.
pub open spec fn queried_levels(
    q: Seq<(Seq<char>, Seq<char>)>,
    m: Map<Seq<char>, Double>,
) -> Result<Option<LevelRequest>, Fault> {
    match value(q, "z"@) {
        None => Ok(None),
        Some(raw) => match level_request(raw, m) {
            Ok(r) => Ok(Some(r)),
            Err(e) => Err(e),
        },
    }
}

/// The numbers of a box's texts, or the first text that is none.
pub open spec fn box_numbers(raws: Seq<Seq<char>>, m: Map<Seq<char>, Double>) -> Result<
    Seq<Double>,
    Fault,
>
    decreases raws.len(),
{
    if raws.len() == 0 {
        Ok(Seq::empty())
    } else {
        match box_numbers(raws.drop_last(), m) {
            Err(e) => Err(e),
            Ok(ns) => match numerals::reading(m, text::trimmed(raws.last())) {
                Some(n) => Ok(ns.push(n)),
                None => Err(
                    Fault::BadRequest(
                        "'bbox' contains a non-numeric value: '"@ + raws.last() + "'"@,
                    ),
                ),
            },
        }
    }
}

proof fn box_numbers_err(raws: Seq<Seq<char>>, m: Map<Seq<char>, Double>, k: int)
    requires
        0 <= k <= raws.len(),
        box_numbers(raws.take(k), m) is Err,
    ensures
        box_numbers(raws, m) == box_numbers(raws.take(k), m),
    decreases raws.len() - k,
{
    if k == raws.len() {
        assert(raws.take(k) == raws);
    } else {
        assert(raws.take(k + 1).drop_last() == raws.take(k));
        box_numbers_err(raws, m, k + 1);
    }
}

/// The box that a `bbox` value gives: west, south, east and north, and the
/// vertical bounds of the six-element form.
pub open spec fn boxed(raw: Seq<char>, m: Map<Seq<char>, Double>) -> Result<
    (Bounds, Option<(Double, Double)>),
    Fault,
> {
    match box_numbers(text::pieces(raw, ','), m) {
        Err(e) => Err(e),
        Ok(n) => if n.len() == 4 {
            Ok((Bounds { west: n[0], south: n[1], east: n[2], north: n[3] }, None))
        } else if n.len() == 6 {
            Ok((Bounds { west: n[0], south: n[1], east: n[3], north: n[4] }, Some((n[2], n[5]))))
        } else {
            Err(
                Fault::BadRequest(
                    "'bbox' must have four values (west,south,east,north) or six with min/max z"@,
                ),
            )
        },
    }
}

/// The box that a query asks for.
pub open spec fn queried_box(
    q: Seq<(Seq<char>, Seq<char>)>,
    m: Map<Seq<char>, Double>,
) -> Result<Option<(Bounds, Option<(Double, Double)>)>, Fault> {
    match value(q, "bbox"@) {
        None => Ok(None),
        Some(raw) => match boxed(raw, m) {
            Ok(b) => Ok(Some(b)),
            Err(e) => Err(e),
        },
    }
}

/// A box, by its bounds.
pub open spec fn box_of(b: BoundingBox) -> (Bounds, Option<(Double, Double)>) {
    (Bounds { west: b.0[0], south: b.0[1], east: b.0[2], north: b.0[3] }, b.1)
}

/// The bits of the metres in a metre, a kilometre, a mile, a nautical mile and
/// a foot.
pub const METRE: u64 = 0x3ff0_0000_0000_0000;

pub const KILOMETRE: u64 = 0x408f_4000_0000_0000;

pub const MILE: u64 = 0x4099_2560_4189_374c;

pub const NAUTICAL_MILE: u64 = 0x409c_f000_0000_0000;

pub const FOOT: u64 = 0x3fd3_81d7_dbf4_87fd;

/// A distance: `value` times the metres of its unit.
#[derive(Debug, Clone, Copy, PartialEq, Eq, Structural)]
pub struct Distance {
    pub value: Double,
    pub per_unit: Double,
}

/// The bits of the metres in a unit of length.
pub open spec fn unit_metres(name: Seq<char>) -> Option<u64> {
    if name == "m"@ || name == "metre"@ || name == "metres"@ || name == "meter"@ || name
        == "meters"@ {
        Some(METRE)
    } else if name == "km"@ || name == "kilometre"@ || name == "kilometres"@ || name
        == "kilometer"@ || name == "kilometers"@ {
        Some(KILOMETRE)
    } else if name == "mi"@ || name == "mile"@ || name == "miles"@ {
        Some(MILE)
    } else if name == "nmi"@ || name == "nm"@ {
        Some(NAUTICAL_MILE)
    } else if name == "ft"@ || name == "feet"@ {
        Some(FOOT)
    } else {
        None
    }
}

fn metres_per(name: &[char]) -> (r: Option<u64>)
    ensures
        r == unit_metres(name@),
{
    if spells(name, "m") || spells(name, "metre") || spells(name, "metres") || spells(
        name,
        "meter",
    ) || spells(name, "meters") {
        Some(METRE)
    } else if spells(name, "km") || spells(name, "kilometre") || spells(name, "kilometres")
        || spells(name, "kilometer") || spells(name, "kilometers") {
        Some(KILOMETRE)
    } else if spells(name, "mi") || spells(name, "mile") || spells(name, "miles") {
        Some(MILE)
    } else if spells(name, "nmi") || spells(name, "nm") {
        Some(NAUTICAL_MILE)
    } else if spells(name, "ft") || spells(name, "feet") {
        Some(FOOT)
    } else {
        None
    }
}

/// The radius that a query asks for.
pub open spec fn queried_radius(
    q: Seq<(Seq<char>, Seq<char>)>,
    m: Map<Seq<char>, Double>,
) -> Result<Distance, Fault> {
    match value(q, "within"@) {
        None => Err(missing("within"@)),
        Some(raw) => match numerals::reading(m, raw) {
            None => Err(Fault::BadRequest("'within' must be a number, got '"@ + raw + "'"@)),
            Some(v) => if !v.finite() || !(Double { bits: 0 }).less(v) {
                Err(Fault::BadRequest("'within' must be a positive distance"@))
            } else {
                let units = text::lowered(
                    text::trimmed(
                        match value(q, "within-units"@) {
                            Some(u) => u,
                            None => "km"@,
                        },
                    ),
                );
                match unit_metres(units) {
                    Some(bits) => Ok(Distance { value: v, per_unit: Double { bits } }),
                    None => Err(
                        Fault::NotSupported(
                            "'within-units' of '"@ + units
                                + "' is not supported; use m, km, mi, nmi or ft"@,
                        ),
                    ),
                }
            },
        },
    }
}

/// The number of points asked for along an axis.
pub open spec fn queried_resolution(
    q: Seq<(Seq<char>, Seq<char>)>,
    axis: Seq<char>,
) -> Result<Option<usize>, Fault> {
    let key = "resolution-"@ + axis;
    match value(q, key) {
        None => Ok(None),
        Some(raw) => match positive(raw) {
            Some(n) => Ok(Some(n)),
            None => Err(
                Fault::BadRequest(
                    "'"@ + key + "' must be a positive number of points, got '"@ + raw + "'"@,
                ),
            ),
        },
    }
}

impl Query {
    /// The `z` parameter, its numerals read beforehand.
    pub fn vertical(&self, numerals: &Numerals) -> (r: EdrResult<Option<VerticalRequest>>)
        requires
            numerals.wf(),
        ensures
            match r {
                Ok(None) => queried_levels(self@, numerals@) == Ok::<Option<LevelRequest>, Fault>(
                    None,
                ),
                Ok(Some(v)) => queried_levels(self@, numerals@) == Ok::<
                    Option<LevelRequest>,
                    Fault,
                >(Some(v@)),
                Err(e) => queried_levels(self@, numerals@) == Err::<Option<LevelRequest>, Fault>(
                    e@,
                ),
            },
    {
        match self.get("z") {
            None => Ok(None),
            Some(raw) => match parse_z(raw.as_str(), numerals) {
                Ok(v) => Ok(Some(v)),
                Err(e) => Err(e),
            },
        }
    }

    /// `bbox=west,south,east,north` (a 6-element form carries min/max z, whose
    /// vertical part is returned separately), its numerals read beforehand.
    pub fn bbox(&self, numerals: &Numerals) -> (r: EdrResult<Option<BoundingBox>>)
        requires
            numerals.wf(),
        ensures
            match r {
                Ok(None) => queried_box(self@, numerals@) == Ok::<
                    Option<(Bounds, Option<(Double, Double)>)>,
                    Fault,
                >(None),
                Ok(Some(b)) => queried_box(self@, numerals@) == Ok::<
                    Option<(Bounds, Option<(Double, Double)>)>,
                    Fault,
                >(Some(box_of(b))),
                Err(e) => queried_box(self@, numerals@) == Err::<
                    Option<(Bounds, Option<(Double, Double)>)>,
                    Fault,
                >(e@),
            },
    {
        let raw = match self.get("bbox") {
            None => {
                return Ok(None);
            },
            Some(raw) => raw,
        };
        let chars = chars_of(raw.as_str());
        let parts = split(chars.as_slice(), ',');
        let ghost all = text::views(parts@);
        let mut n: Vec<Double> = Vec::new();
        let mut i: usize = 0;
        while i < parts.len()
            invariant
                numerals.wf(),
                i <= parts.len(),
                all == text::views(parts@),
                all == text::pieces(raw@, ','),
                value(self@, "bbox"@) == Some(raw@),
                box_numbers(all.take(i as int), numerals@) == Ok::<Seq<Double>, Fault>(n@),
            decreases parts.len() - i,
        {
            proof {
                assert(all.take(i + 1).drop_last() == all.take(i as int));
                assert(all.take(i + 1).last() == parts@[i as int]@);
            }
            match numerals.value(trim(parts[i].as_slice())) {
                Some(v) => {
                    n.push(v);
                },
                None => {
                    let mut m: String = "'bbox' contains a non-numeric value: '".to_owned();
                    m.append(string_of(parts[i].as_slice()).as_str());
                    m.append("'");
                    proof {
                        box_numbers_err(all, numerals@, i + 1);
                    }
                    return Err(EdrError::BadRequest(m));
                },
            }
            i += 1;
        }
        assert(all.take(i as int) == all);
        if n.len() == 4 {
            return Ok(Some(([n[0], n[1], n[2], n[3]], None)));
        }
        if n.len() == 6 {
            return Ok(Some(([n[0], n[1], n[3], n[4]], Some((n[2], n[5])))));
        }
        Err(
            EdrError::BadRequest(
                "'bbox' must have four values (west,south,east,north) or six with min/max z".to_owned(),
            ),
        )
    }

    /// `within` plus `within-units`: a distance, whose product is in metres.
    pub fn radius_metres(&self, numerals: &Numerals) -> (r: EdrResult<Distance>)
        requires
            numerals.wf(),
        ensures
            error::outcome(r) == queried_radius(self@, numerals@),
    {
        let raw = match self.required("within") {
            Ok(raw) => raw,
            Err(e) => {
                return Err(e);
            },
        };
        let chars = chars_of(raw.as_str());
        let v = match numerals.value(chars.as_slice()) {
            Some(v) => v,
            None => {
                let mut m: String = "'within' must be a number, got '".to_owned();
                m.append(raw.as_str());
                m.append("'");
                return Err(EdrError::BadRequest(m));
            },
        };
        if !v.is_finite() || !(Double { bits: 0 }).is_less(v) {
            return Err(EdrError::BadRequest("'within' must be a positive distance".to_owned()));
        }
        let given = match self.get("within-units") {
            Some(u) => u,
            None => "km".to_owned(),
        };
        let given_chars = chars_of(given.as_str());
        let units = lower(trim(given_chars.as_slice()));
        match metres_per(units.as_slice()) {
            Some(bits) => Ok(Distance { value: v, per_unit: Double { bits } }),
            None => {
                let mut m: String = "'within-units' of '".to_owned();
                m.append(string_of(units.as_slice()).as_str());
                m.append("' is not supported; use m, km, mi, nmi or ft");
                Err(EdrError::NotSupported(m))
            },
        }
    }

    /// `resolution-x` / `resolution-y` / `resolution-z`: how many points to
    /// return along an axis, thinning the grid to fit.
    pub fn resolution(&self, axis: &str) -> (r: EdrResult<Option<usize>>)
        ensures
            error::outcome(r) == queried_resolution(self@, axis@),
    {
        let mut key: String = "resolution-".to_owned();
        key.append(axis);
        match self.get(key.as_str()) {
            None => Ok(None),
            Some(raw) => {
                let chars = chars_of(raw.as_str());
                if let Some(n) = parse_count(chars.as_slice()) {
                    if n > 0 {
                        return Ok(Some(n));
                    }
                }
                let mut m: String = "'".to_owned();
                m.append(key.as_str());
                m.append("' must be a positive number of points, got '");
                m.append(raw.as_str());
                m.append("'");
                Err(EdrError::BadRequest(m))
            },
        }
    }

    /// List the texts that stand where numbers belong in `z`, `bbox` and
    /// `within`.
    pub fn numerals(&self) -> (r: Vec<String>)
        ensures
            text::texts(r@) == queried_numerals(self@),
    {
        let mut out: Vec<String> = match self.get("z") {
            Some(raw) => z_numerals(raw.as_str()),
            None => Vec::new(),
        };
        let ghost first = text::texts(out@);
        assert(value(self@, "z"@) is None ==> first == Seq::<Seq<char>>::empty());
        let mut corners: Vec<String> = match self.get("bbox") {
            Some(raw) => {
                let chars = chars_of(raw.as_str());
                trim_all(&split(chars.as_slice(), ','))
            },
            None => Vec::new(),
        };
        let ghost second = text::texts(corners@);
        assert(value(self@, "bbox"@) is None ==> second == Seq::<Seq<char>>::empty());
        out.append(&mut corners);
        assert(text::texts(out@) == first + second);
        let ghost both = text::texts(out@);
        if let Some(raw) = self.get("within") {
            out.push(raw);
            assert(text::texts(out@) == both.push(raw@));
        }
        out
    }
}

/// The texts that stand where numbers belong in a query.
pub open spec fn queried_numerals(q: Seq<(Seq<char>, Seq<char>)>) -> Seq<Seq<char>> {
    let levels = match value(q, "z"@) {
        Some(raw) => level_numerals(raw),
        None => Seq::empty(),
    };
    let corners = match value(q, "bbox"@) {
        Some(raw) => trimmed_all(text::pieces(raw, ',')),
        None => Seq::empty(),
    };
    match value(q, "within"@) {
        Some(raw) => (levels + corners).push(raw),
        None => levels + corners,
    }
}

proof fn box_numbers_agree(
    raws: Seq<Seq<char>>,
    m: Map<Seq<char>, Double>,
    n: Map<Seq<char>, Double>,
)
    requires
        crate::edr::wkt::agree(m, n, trimmed_all(raws)),
    ensures
        box_numbers(raws, m) == box_numbers(raws, n),
    decreases raws.len(),
{
    if raws.len() > 0 {
        let front = raws.drop_last();
        let all = trimmed_all(raws);
        assert forall|i: int| 0 <= i < trimmed_all(front).len() implies numerals::reading(
            m,
            #[trigger] trimmed_all(front)[i],
        ) == numerals::reading(n, trimmed_all(front)[i]) by {
            assert(all[i] == trimmed_all(front)[i]);
        }
        box_numbers_agree(front, m, n);
        assert(all[raws.len() - 1] == text::trimmed(raws.last()));
    }
}

/// A query depends on no numerals but those it lists: two readings that agree
/// on them give the same levels, the same box and the same radius.
pub proof fn queried_numerals_suffice(
    q: Seq<(Seq<char>, Seq<char>)>,
    m: Map<Seq<char>, Double>,
    n: Map<Seq<char>, Double>,
)
    requires
        crate::edr::wkt::agree(m, n, queried_numerals(q)),
    ensures
        queried_levels(q, m) == queried_levels(q, n),
        queried_box(q, m) == queried_box(q, n),
        queried_radius(q, m) == queried_radius(q, n),
{
    let all = queried_numerals(q);
    let levels = match value(q, "z"@) {
        Some(raw) => level_numerals(raw),
        None => Seq::empty(),
    };
    let corners = match value(q, "bbox"@) {
        Some(raw) => trimmed_all(text::pieces(raw, ',')),
        None => Seq::empty(),
    };
    assert forall|i: int| 0 <= i < levels.len() implies numerals::reading(m, #[trigger] levels[i])
        == numerals::reading(n, levels[i]) by {
        assert(all[i] == levels[i]);
    }
    assert forall|i: int| 0 <= i < corners.len() implies numerals::reading(
        m,
        #[trigger] corners[i],
    ) == numerals::reading(n, corners[i]) by {
        assert(all[levels.len() as int + i] == corners[i]);
    }
    if let Some(raw) = value(q, "z"@) {
        level_numerals_suffice(raw, m, n);
    }
    if let Some(raw) = value(q, "bbox"@) {
        box_numbers_agree(text::pieces(raw, ','), m, n);
    }
    if let Some(raw) = value(q, "within"@) {
        assert(all[all.len() - 1] == raw);
    }
}

proof fn raw_values_without(q: Seq<(Seq<char>, Seq<char>)>, key: Seq<char>, other: Seq<char>)
    ensures
        raw_values(without(q, key), other) == (if other == key {
            Seq::empty()
        } else {
            raw_values(q, other)
        }),
    decreases q.len(),
{
    if q.len() > 0 {
        let front = q.drop_last();
        raw_values_without(front, key, other);
        if q.last().0 != key {
            let w = without(front, key).push(q.last());
            assert(w.drop_last() == without(front, key));
        }
    }
}

/// A parameter that is set has the value it was set to and no other, and what
/// is held under other keys stays as it was.
pub proof fn insert_replaces(
    q: Seq<(Seq<char>, Seq<char>)>,
    key: Seq<char>,
    set: Seq<char>,
    other: Seq<char>,
)
    ensures
        raw_values(without(q, key).push((key, set)), other) == (if other == key {
            seq![set]
        } else {
            raw_values(q, other)
        }),
{
    raw_values_without(q, key, other);
    let w = without(q, key).push((key, set));
    assert(w.drop_last() == without(q, key));
    assert(w.last() == (key, set));
    if other == key {
        assert(raw_values(w, other) == seq![set]);
    }
}

/// The items of values as they were sent.
spec fn sent_items(raws: Seq<Seq<char>>) -> Seq<Seq<char>>
    decreases raws.len(),
{
    if raws.len() == 0 {
        Seq::empty()
    } else {
        sent_items(raws.drop_last()) + text::solid(text::pieces(raws.last(), ','))
    }
}

proof fn listed_is_sent(raws: Seq<Seq<char>>)
    ensures
        listed_names(text::solid(raws)) == sent_items(raws),
    decreases raws.len(),
{
    if raws.len() > 0 {
        listed_is_sent(raws.drop_last());
        let v = raws.last();
        let t = text::trimmed(v);
        text::items_of_trimmed(v, ',');
        if t.len() == 0 {
            assert(t == Seq::<char>::empty());
            assert(text::pieces(t, ',') == seq![t]);
            assert(seq![t].drop_last() == Seq::<Seq<char>>::empty());
            assert(text::trimmed(t) == t);
            assert(text::solid(seq![t].drop_last()) == Seq::<Seq<char>>::empty());
            assert(text::solid(seq![t]) == Seq::<Seq<char>>::empty());
            assert(sent_items(raws.drop_last()) + Seq::<Seq<char>>::empty() == sent_items(
                raws.drop_last(),
            ));
        } else {
            let front = text::solid(raws.drop_last());
            assert(front.push(t).drop_last() == front);
        }
    }
}

proof fn listed_of_two(u: Seq<Seq<char>>, v: Seq<Seq<char>>)
    ensures
        listed_names(u + v) == listed_names(u) + listed_names(v),
    decreases v.len(),
{
    if v.len() == 0 {
        assert(u + v == u);
        assert(listed_names(u) + listed_names(v) == listed_names(u));
    } else {
        listed_of_two(u, v.drop_last());
        assert((u + v).drop_last() == u + v.drop_last());
        let x = text::solid(text::pieces(v.last(), ','));
        assert(listed_names(u) + (listed_names(v.drop_last()) + x) == (listed_names(u)
            + listed_names(v.drop_last())) + x);
    }
}

/// One value per parameter means the same as a comma-separated list of them, in
/// either spelling of the key.
pub proof fn repeated_keys_are_a_list(
    q: Seq<(Seq<char>, Seq<char>)>,
    key: Seq<char>,
    a: Seq<char>,
    b: Seq<char>,
)
    requires
        key == "parameter-name"@ || key == "parameter_name"@,
    ensures
        named_parameters(q.push((key, a)).push((key, b))) == named_parameters(
            q.push((key, a.push(',') + b)),
        ),
{
    let (one, two) = ("parameter-name"@, "parameter_name"@);
    assert(one != two) by {
        reveal_strlit("parameter-name");
        reveal_strlit("parameter_name");
        assert(one[9] != two[9]);
    }
    let both = a.push(',') + b;
    let apart = q.push((key, a)).push((key, b));
    let joint = q.push((key, both));
    assert(apart.drop_last() == q.push((key, a)));
    assert(q.push((key, a)).drop_last() == q);
    assert(joint.drop_last() == q);
    text::pieces_of_two(a, b, ',');
    text::solid_of_two(text::pieces(a, ','), text::pieces(b, ','));
    let (x, y) = (text::solid(text::pieces(a, ',')), text::solid(text::pieces(b, ',')));
    let raws = raw_values(q, key);
    let (u, v) = (raws.push(a).push(b), raws.push(both));
    assert(u.drop_last() == raws.push(a) && raws.push(a).drop_last() == raws);
    assert(v.drop_last() == raws);
    assert(sent_items(raws.push(a)) == sent_items(raws) + x);
    assert(sent_items(u) == sent_items(raws) + x + y);
    assert(sent_items(v) == sent_items(raws) + (x + y));
    assert(sent_items(u) == sent_items(v));
    assert(raw_values(q.push((key, a)), key) == raws.push(a));
    assert(raw_values(apart, key) == u && raw_values(joint, key) == v);
    let other = if key == one {
        two
    } else {
        one
    };
    assert(raw_values(q.push((key, a)), other) == raw_values(q, other));
    listed_is_sent(raw_values(apart, one));
    listed_is_sent(raw_values(apart, two));
    listed_is_sent(raw_values(joint, one));
    listed_is_sent(raw_values(joint, two));
    listed_of_two(values(apart, one), values(apart, two));
    listed_of_two(values(joint, one), values(joint, two));
}

proof fn values_grow(q: Seq<(Seq<char>, Seq<char>)>, e: (Seq<char>, Seq<char>), key: Seq<char>)
    ensures
        values(q.push(e), key) == if e.0 == key && text::trimmed(e.1).len() > 0 {
            values(q, key).push(text::trimmed(e.1))
        } else {
            values(q, key)
        },
{
    assert(q.push(e).drop_last() =~= q);
    let raws = raw_values(q, key);
    assert(raws.push(e.1).drop_last() =~= raws);
}

/// Whether the pair at `i` gives a value under a key: it bears the key and is not
/// blank.
pub open spec fn gives(q: Seq<(Seq<char>, Seq<char>)>, key: Seq<char>, i: int) -> bool {
    0 <= i < q.len() && q[i].0 == key && text::trimmed(q[i].1).len() > 0
}

/// What a query has under a key is the first value given there that is not blank,
/// without the white space round it; and nothing where every one is blank or none
/// is given. What stands under other keys does not matter.
pub proof fn the_first_value_counts(q: Seq<(Seq<char>, Seq<char>)>, key: Seq<char>)
    ensures
        match value(q, key) {
            Some(v) => exists|i: int|
                #[trigger] gives(q, key, i) && v == text::trimmed(q[i].1) && forall|j: int|
                    0 <= j < i ==> !#[trigger] gives(q, key, j),
            None => forall|i: int| !#[trigger] gives(q, key, i),
        },
    decreases q.len(),
{
    if q.len() > 0 {
        let front = q.drop_last();
        let n = q.len() - 1;
        the_first_value_counts(front, key);
        values_grow(front, q.last(), key);
        assert(front.push(q.last()) =~= q);
        assert forall|i: int| 0 <= i < n implies gives(front, key, i) == #[trigger] gives(
            q,
            key,
            i,
        ) by {
            assert(front[i] == q[i]);
        }
        if value(front, key) is Some {
            let v = value(front, key)->0;
            let i = choose|i: int|
                #[trigger] gives(front, key, i) && v == text::trimmed(front[i].1) && forall|j: int|
                    0 <= j < i ==> !#[trigger] gives(front, key, j);
            assert(front[i] == q[i]);
            assert(gives(q, key, i));
            assert forall|j: int| 0 <= j < i implies !#[trigger] gives(q, key, j) by {
                assert(!gives(front, key, j));
            }
            assert(values(q, key)[0] == values(front, key)[0]);
            assert(value(q, key) == Some(v));
        } else {
            assert forall|j: int| 0 <= j < n implies !#[trigger] gives(q, key, j) by {
                assert(!gives(front, key, j));
            }
            if gives(q, key, n) {
                assert(q[n] == q.last());
                assert(value(q, key) == Some(text::trimmed(q[n].1)));
            }
        }
    }
}

/// Keys are the same in any case: a query is normalised to one whose keys hold no
/// ASCII capital, and to the same one however the keys were capitalised.
pub proof fn keys_ignore_case(
    p: Seq<(Seq<char>, Seq<char>)>,
    q: Seq<(Seq<char>, Seq<char>)>,
    i: int,
)
    requires
        p.len() == q.len(),
        forall|k: int|
            0 <= k < p.len() ==> #[trigger] p[k] == (text::raised(q[k].0), q[k].1),
        0 <= i < p.len(),
    ensures
        normalised(p) == normalised(q),
        normalised(q).len() == q.len(),
        normalised(q)[i].1 == q[i].1,
        normalised(q)[i].0.len() == q[i].0.len(),
        forall|k: int|
            0 <= k < q[i].0.len() ==> !(65 <= (#[trigger] normalised(q)[i].0[k]) as int <= 90),
        (forall|k: int| 0 <= k < q[i].0.len() ==> !(65 <= (#[trigger] q[i].0[k]) as int <= 90))
            ==> normalised(q)[i].0 == q[i].0,
{
    assert forall|k: int| 0 <= k < p.len() implies normalised(p)[k] == normalised(q)[k] by {
        assert(p[k] == (text::raised(q[k].0), q[k].1));
        text::lower_case_ignores_case(q[k].0);
    }
    assert(normalised(p) =~= normalised(q));
    text::lower_case_ignores_case(q[i].0);
    if forall|k: int| 0 <= k < q[i].0.len() ==> !(65 <= (#[trigger] q[i].0[k]) as int <= 90) {
        assert(normalised(q)[i].0 =~= q[i].0);
    }
}

/// Parameters are named by a list with commas between them: names without commas or
/// white space at their ends come out as they were put in, in their order.
pub proof fn a_list_of_names_reads_back(names: Seq<Seq<char>>, key: Seq<char>)
    requires
        key == "parameter-name"@ || key == "parameter_name"@,
        names.len() > 0,
        forall|i: int|
            0 <= i < names.len() ==> text::bounded(#[trigger] names[i]) && text::free_of(
                names[i],
                ',',
            ),
    ensures
        named_parameters(seq![(key, text::joined(names, seq![',']))]) == names,
{
    let (one, two) = ("parameter-name"@, "parameter_name"@);
    assert(one != two) by {
        reveal_strlit("parameter-name");
        reveal_strlit("parameter_name");
        assert(one[9] != two[9]);
    }
    let list = text::joined(names, seq![',']);
    let none = Seq::<(Seq<char>, Seq<char>)>::empty();
    let q = none.push((key, list));
    assert(q =~= seq![(key, list)]);
    joined_is_bounded(names);
    text::trimming_leaves_what_is_bounded(list);
    values_grow(none, (key, list), one);
    values_grow(none, (key, list), two);
    assert(values(none, one) =~= Seq::<Seq<char>>::empty());
    assert(values(none, two) =~= Seq::<Seq<char>>::empty());
    let all = values(q, one) + values(q, two);
    assert(all =~= seq![list]);
    assert(all.drop_last() =~= Seq::<Seq<char>>::empty());
    text::pieces_of_joined(names, ',');
    text::what_is_bounded_is_solid(names);
    assert(listed_names(all.drop_last()) =~= Seq::<Seq<char>>::empty());
    assert(all.last() == list);
    assert(listed_names(all) =~= names);
}

proof fn joined_is_bounded(v: Seq<Seq<char>>)
    requires
        v.len() > 0,
        forall|i: int| 0 <= i < v.len() ==> text::bounded(#[trigger] v[i]),
    ensures
        text::bounded(text::joined(v, seq![','])),
    decreases v.len(),
{
    let last = v[v.len() - 1];
    assert(text::bounded(last));
    if v.len() > 1 {
        let front = v.drop_last();
        assert forall|i: int| 0 <= i < front.len() implies text::bounded(#[trigger] front[i]) by {
            assert(front[i] == v[i]);
        }
        joined_is_bounded(front);
        let (j, s) = (text::joined(front, seq![',']), text::joined(v, seq![',']));
        assert(s[0] == j[0] && s.last() == last.last());
    }
}

/// An instant is read in the first of the ways in which its text can be read, and in
/// no other: as a full timestamp, as one without a zone, and else as a date.
pub proof fn an_instant_is_read_in_the_first_way_that_fits(raw: Seq<char>)
    ensures
        ({
            let t = text::trimmed(raw);
            let naive = |f: Seq<char>| clock::naive_micros(t, f);
            let (a, b, c) = (
                naive("%Y-%m-%dT%H:%M:%S%.f"@),
                naive("%Y-%m-%d %H:%M:%S%.f"@),
                naive("%Y-%m-%dT%H:%M"@),
            );
            let date = clock::date_micros(t, "%Y-%m-%d"@);
            let full = clock::rfc3339_micros(t);
            &&& full is Some ==> instant(raw) == Ok::<i64, Fault>(full->0)
            &&& full is None && a is Some ==> instant(raw) == Ok::<i64, Fault>(a->0)
            &&& full is None && a is None && b is Some ==> instant(raw) == Ok::<i64, Fault>(b->0)
            &&& full is None && a is None && b is None && c is Some ==> instant(raw) == Ok::<
                i64,
                Fault,
            >(c->0)
            &&& full is None && a is None && b is None && c is None && date is Some ==> instant(
                raw,
            ) == Ok::<i64, Fault>(date->0)
            &&& full is None && a is None && b is None && c is None && date is None ==> instant(
                raw,
            ) is Err && instant(raw)->Err_0 is BadRequest
        }),
{
    let s = instant_readings(text::trimmed(raw));
    reveal_with_fuel(first_reading, 6);
    let s1 = s.drop_first();
    let s2 = s1.drop_first();
    let s3 = s2.drop_first();
    let s4 = s3.drop_first();
    assert(s1[0] == s[1] && s2[0] == s[2] && s3[0] == s[3] && s4[0] == s[4]);
    assert(s4.drop_first().len() == 0);
}

/// Whether a text stands for an instant and for that one.
pub open spec fn stands_for(s: Seq<char>, at: i64) -> bool {
    &&& text::bounded(s) && text::free_of(s, '/') && s != ".."@
    &&& instant(s) == Ok::<i64, Fault>(at)
}

/// `start/end` is the interval from the one to the other, refused if and only if it
/// ends before it starts; `..` or nothing leaves an end open, and at least one is
/// bounded. Without a slash the text is an instant.
#[verifier::rlimit(40)]
pub proof fn an_interval_is_written_from_start_to_end(
    a: Seq<char>,
    b: Seq<char>,
    start: i64,
    end: i64,
)
    requires
        stands_for(a, start),
        stands_for(b, end),
    ensures
        datetime_selection(a) == Ok::<TemporalSelection, Fault>(TemporalSelection::Instant(start)),
        start <= end ==> datetime_selection(a + "/"@ + b) == Ok::<TemporalSelection, Fault>(
            TemporalSelection::Interval(Some(start), Some(end)),
        ),
        start > end ==> datetime_selection(a + "/"@ + b) is Err && datetime_selection(
            a + "/"@ + b,
        )->Err_0 is BadRequest,
        datetime_selection(a + "/"@ + ".."@) == Ok::<TemporalSelection, Fault>(
            TemporalSelection::Interval(Some(start), None),
        ),
        datetime_selection(a + "/"@) == Ok::<TemporalSelection, Fault>(
            TemporalSelection::Interval(Some(start), None),
        ),
        datetime_selection(".."@ + "/"@ + b) == Ok::<TemporalSelection, Fault>(
            TemporalSelection::Interval(None, Some(end)),
        ),
        datetime_selection("/"@ + b) == Ok::<TemporalSelection, Fault>(
            TemporalSelection::Interval(None, Some(end)),
        ),
        datetime_selection(".."@ + "/"@ + ".."@) is Err,
        datetime_selection("/"@) is Err,
{
    reveal_strlit("/");
    reveal_strlit("..");
    let slash = seq!['/'];
    let open = ".."@;
    let none = Seq::<char>::empty();
    assert("/"@ =~= slash);
    assert(text::bounded(open) && text::free_of(open, '/'));
    text::trimming_leaves_what_is_bounded(a);
    text::trimming_leaves_what_is_bounded(b);
    text::trimming_leaves_what_is_bounded(open);
    assert(text::trimmed(none) == none);
    text::parting_finds_none(a, '/');
    parts_of(a, b);
    parts_of(a, open);
    parts_of(a, none);
    parts_of(open, b);
    parts_of(none, b);
    parts_of(open, open);
    parts_of(none, none);
    assert(a + slash + none =~= a + slash);
    assert(none + slash + b =~= slash + b);
    assert(none + slash + none =~= slash);
}

proof fn parts_of(a: Seq<char>, b: Seq<char>)
    requires
        text::free_of(a, '/'),
        a.len() == 0 || text::bounded(a),
        b.len() == 0 || text::bounded(b),
    ensures
        text::parted(text::trimmed(a + seq!['/'] + b), '/') == Some((a, b)),
{
    let s = a + seq!['/'] + b;
    assert(s[a.len() as int] == '/');
    if a.len() > 0 {
        assert(s[0] == a[0]);
    }
    if b.len() > 0 {
        assert(s.last() == b.last());
    } else {
        assert(s.last() == '/');
    }
    text::trimming_leaves_what_is_bounded(s);
    text::parting_finds_the_parts(a, b, '/');
}

/// The two fields of a form ask for what `datetime` asks for with a slash between
/// them, an empty field being an open end; where neither holds anything, nothing is
/// asked for.
pub proof fn two_fields_compose_a_datetime(
    q: Seq<(Seq<char>, Seq<char>)>,
    p: Seq<(Seq<char>, Seq<char>)>,
)
    requires
        value(q, "datetime"@) is None,
    ensures
        ({
            let (from, to) = (value(q, "datetime-from"@), value(q, "datetime-to"@));
            let asked = value(p, "datetime"@);
            &&& from is None && to is None ==> queried_times(q) == Ok::<
                Option<TemporalSelection>,
                Fault,
            >(None)
            &&& from is Some && to is Some && asked == Some(from->0 + "/"@ + to->0)
                ==> queried_times(q) == queried_times(p)
            &&& from is Some && to is None && asked == Some(from->0 + "/"@ + ".."@)
                ==> queried_times(q) == queried_times(p)
            &&& from is None && to is Some && asked == Some(".."@ + "/"@ + to->0)
                ==> queried_times(q) == queried_times(p)
        }),
{
}

/// Whether a text can stand in a list of numbers, and stands for a finite one.
pub open spec fn number_text(s: Seq<char>, m: Map<Seq<char>, Double>) -> bool {
    &&& text::bounded(s) && text::free_of(s, ',') && text::free_of(s, '/')
    &&& s.first() != 'R' && s.first() != 'r' && s.first() != 'a' && s.first() != 'A'
    &&& m.contains_key(s) && m[s].finite()
}

/// A `z` of two numbers with a slash asks for the levels between them, whichever is
/// the greater, so that turning it round changes nothing.
pub proof fn levels_between_two_numbers(a: Seq<char>, b: Seq<char>, m: Map<Seq<char>, Double>)
    requires
        number_text(a, m),
        number_text(b, m),
    ensures
        level_request(a + "/"@ + b, m) matches Ok(LevelRequest::Levels(Levels::Interval(lo, hi)))
            && lo.at_most(hi) && ((lo == m[a] && hi == m[b]) || (lo == m[b] && hi == m[a])
            || (m[a].equal(m[b]) && lo.equal(m[a]) && hi.equal(m[b]))),
{
    reveal_strlit("/");
    reveal_strlit("all");
    assert("/"@ =~= seq!['/']);
    let s = a + seq!['/'] + b;
    parts_of(a, b);
    assert(s[0] == a[0] && s.last() == b.last());
    text::trimming_leaves_what_is_bounded(s);
    text::trimming_leaves_what_is_bounded(a);
    text::trimming_leaves_what_is_bounded(b);
    not_all(s);
}

proof fn not_all(s: Seq<char>)
    requires
        s.len() > 0,
        s.first() != 'a',
        s.first() != 'A',
    ensures
        text::lowered(s) != "all"@,
{
    reveal_strlit("all");
    if text::lowered(s) == "all"@ {
        assert(text::lowered(s)[0] == "all"@[0]);
        assert("all"@[0] == 'a');
        assert(s[0] as int == 97 || s[0] as int + 32 == 97);
    }
}

/// A `z` of numbers with commas between them asks for these levels, in their order;
/// one number asks for one level.
pub proof fn a_list_of_levels_reads_back(vs: Seq<Seq<char>>, m: Map<Seq<char>, Double>)
    requires
        vs.len() > 0,
        forall|i: int| 0 <= i < vs.len() ==> number_text(#[trigger] vs[i], m),
    ensures
        level_request(text::joined(vs, seq![',']), m) == Ok::<LevelRequest, Fault>(
            LevelRequest::Levels(Levels::Values(Seq::new(vs.len(), |i: int| m[vs[i]]))),
        ),
{
    let s = text::joined(vs, seq![',']);
    assert forall|i: int| 0 <= i < vs.len() implies text::bounded(#[trigger] vs[i])
        && text::free_of(vs[i], ',') by {
        assert(number_text(vs[i], m));
    }
    joined_is_bounded(vs);
    text::trimming_leaves_what_is_bounded(s);
    joined_holds(vs, m);
    text::parting_finds_none(s, '/');
    not_all(s);
    text::pieces_of_joined(vs, ',');
    level_list_reads_back(vs, m);
}

proof fn joined_holds(vs: Seq<Seq<char>>, m: Map<Seq<char>, Double>)
    requires
        vs.len() > 0,
        forall|i: int| 0 <= i < vs.len() ==> number_text(#[trigger] vs[i], m),
    ensures
        text::free_of(text::joined(vs, seq![',']), '/'),
        text::joined(vs, seq![',']).len() > 0,
        text::joined(vs, seq![',']).first() == vs[0].first(),
        number_text(vs[0], m),
    decreases vs.len(),
{
    assert(number_text(vs[0], m));
    let last = vs[vs.len() - 1];
    assert(number_text(last, m));
    if vs.len() > 1 {
        let front = vs.drop_last();
        assert forall|i: int| 0 <= i < front.len() implies number_text(#[trigger] front[i], m) by {
            assert(front[i] == vs[i]);
        }
        joined_holds(front, m);
        let (j, s) = (text::joined(front, seq![',']), text::joined(vs, seq![',']));
        assert(s[0] == j[0]);
        assert forall|i: int| 0 <= i < s.len() implies s[i] != '/' by {
            if i < j.len() {
                assert(s[i] == j[i]);
            } else if i > j.len() {
                assert(s[i] == last[i - j.len() - 1]);
            }
        }
    }
}

proof fn level_list_reads_back(vs: Seq<Seq<char>>, m: Map<Seq<char>, Double>)
    requires
        forall|i: int| 0 <= i < vs.len() ==> number_text(#[trigger] vs[i], m),
    ensures
        level_list(vs, m) == Ok::<Seq<Double>, Fault>(Seq::new(vs.len(), |i: int| m[vs[i]])),
    decreases vs.len(),
{
    let want = Seq::new(vs.len(), |i: int| m[vs[i]]);
    if vs.len() > 0 {
        let front = vs.drop_last();
        assert forall|i: int| 0 <= i < front.len() implies number_text(#[trigger] front[i], m) by {
            assert(front[i] == vs[i]);
        }
        level_list_reads_back(front, m);
        assert(number_text(vs[vs.len() - 1], m));
        text::trimming_leaves_what_is_bounded(vs.last());
        assert(want =~= Seq::new(front.len(), |i: int| m[front[i]]).push(m[vs.last()]));
    } else {
        assert(want =~= Seq::<Double>::empty());
    }
}

/// `all`, in any case, asks for every level.
pub proof fn all_asks_for_every_level(raw: Seq<char>, m: Map<Seq<char>, Double>)
    requires
        text::lowered(text::trimmed(raw)) == "all"@,
    ensures
        level_request(raw, m) == Ok::<LevelRequest, Fault>(LevelRequest::Levels(Levels::All)),
{
}

/// `R{count}/{start}/{step}` asks for that many levels from that start by that step,
/// for a count from 1 to 10000, and is refused for any other.
pub proof fn a_repeated_level_reads_back(
    count: usize,
    start: Seq<char>,
    step: Seq<char>,
    m: Map<Seq<char>, Double>,
)
    requires
        number_text(start, m),
        number_text(step, m),
    ensures
        ({
            let raw = "R"@ + text::joined(
                seq![text::digits(count as nat), start, step],
                seq!['/'],
            );
            match level_request(raw, m) {
                Ok(r) => 1 <= count <= 10_000 && r == (LevelRequest::Repeat {
                    count,
                    start: m[start],
                    step: m[step],
                }),
                Err(e) => !(1 <= count <= 10_000) && e is BadRequest,
            }
        }),
{
    reveal_strlit("R");
    reveal_strlit("all");
    let d = text::digits(count as nat);
    text::digits_spell_their_number(count as nat);
    text::a_written_count_reads_back(count);
    let parts = seq![d, start, step];
    assert(text::digit(d[0]) && text::digit(d[d.len() - 1]));
    text::trimming_leaves_what_is_bounded(d);
    text::trimming_leaves_what_is_bounded(start);
    text::trimming_leaves_what_is_bounded(step);
    assert forall|i: int| 0 <= i < d.len() implies d[i] != '/' by {
        assert(text::digit(d[i]));
    }
    assert forall|i: int| 0 <= i < parts.len() implies text::free_of(#[trigger] parts[i], '/') by {
    }
    text::pieces_of_joined(parts, '/');
    let rest = text::joined(parts, seq!['/']);
    assert(parts.drop_last() =~= seq![d, start]);
    assert(seq![d, start].drop_last() =~= seq![d]);
    reveal_with_fuel(text::joined, 4);
    assert(rest =~= d + seq!['/'] + start + seq!['/'] + step);
    let raw = "R"@ + rest;
    assert(raw[0] == 'R' && raw.last() == step.last());
    text::trimming_leaves_what_is_bounded(raw);
    assert(raw.drop_first() =~= rest);
    not_all(raw);
}

/// A box is west, south, east and north in this order; with six numbers the third is
/// the lower vertical bound and the sixth the upper. No other count is a box.
pub proof fn a_written_box_reads_back(vs: Seq<Seq<char>>, m: Map<Seq<char>, Double>)
    requires
        vs.len() > 0,
        forall|i: int|
            0 <= i < vs.len() ==> text::bounded(#[trigger] vs[i]) && text::free_of(vs[i], ',')
                && m.contains_key(vs[i]),
    ensures
        match boxed(text::joined(vs, seq![',']), m) {
            Ok(b) => {
                &&& vs.len() == 4 ==> b.0.west == m[vs[0]] && b.0.south == m[vs[1]] && b.0.east
                    == m[vs[2]] && b.0.north == m[vs[3]] && b.1 is None
                &&& vs.len() == 6 ==> b.0.west == m[vs[0]] && b.0.south == m[vs[1]] && b.0.east
                    == m[vs[3]] && b.0.north == m[vs[4]] && b.1 == Some((m[vs[2]], m[vs[5]]))
                &&& vs.len() == 4 || vs.len() == 6
            },
            Err(e) => e is BadRequest && vs.len() != 4 && vs.len() != 6,
        },
{
    text::pieces_of_joined(vs, ',');
    box_numbers_read_back(vs, m);
}

proof fn box_numbers_read_back(vs: Seq<Seq<char>>, m: Map<Seq<char>, Double>)
    requires
        forall|i: int|
            0 <= i < vs.len() ==> text::bounded(#[trigger] vs[i]) && m.contains_key(vs[i]),
    ensures
        box_numbers(vs, m) == Ok::<Seq<Double>, Fault>(Seq::new(vs.len(), |i: int| m[vs[i]])),
    decreases vs.len(),
{
    let want = Seq::new(vs.len(), |i: int| m[vs[i]]);
    if vs.len() > 0 {
        let front = vs.drop_last();
        assert forall|i: int| 0 <= i < front.len() implies text::bounded(#[trigger] front[i])
            && m.contains_key(front[i]) by {
            assert(front[i] == vs[i]);
        }
        box_numbers_read_back(front, m);
        assert(text::bounded(vs[vs.len() - 1]));
        text::trimming_leaves_what_is_bounded(vs.last());
        assert(want =~= Seq::new(front.len(), |i: int| m[front[i]]).push(m[vs.last()]));
    } else {
        assert(want =~= Seq::<Double>::empty());
    }
}

/// The significand of a positive number of full precision, and the power of two
/// that it is multiplied by.
pub open spec fn significand(bits: u64) -> int {
    0x10_0000_0000_0000 + bits as int % 0x10_0000_0000_0000
}

pub open spec fn power(bits: u64) -> int {
    bits as int / 0x10_0000_0000_0000 - 1075
}

/// Each unit stands for its length in metres: a metre for 1, a kilometre for 1000, a
/// nautical mile for 1852, and a mile and a foot for the numbers nearest 1609.344 and
/// 0.3048. The spellings of a unit stand for the same.
#[verifier::rlimit(40)]
pub proof fn units_stand_for_their_lengths()
    ensures
        ({
            let m = unit_metres("m"@);
            &&& m matches Some(b) && significand(b) == 0x10_0000_0000_0000 && power(b) == -52
            &&& m == unit_metres("metre"@) && m == unit_metres("metres"@) && m == unit_metres(
                "meter"@,
            ) && m == unit_metres("meters"@)
        }),
        ({
            let m = unit_metres("km"@);
            &&& m matches Some(b) && significand(b) == 1000 * 0x800_0000_0000 && power(b) == -43
            &&& m == unit_metres("kilometre"@) && m == unit_metres("kilometres"@) && m
                == unit_metres("kilometer"@) && m == unit_metres("kilometers"@)
        }),
        ({
            let m = unit_metres("mi"@);
            &&& m matches Some(b) && -500 <= significand(b) * 1000 - 1_609_344 * 0x400_0000_0000
                <= 500 && power(b) == -42
            &&& m == unit_metres("mile"@) && m == unit_metres("miles"@)
        }),
        ({
            let m = unit_metres("nmi"@);
            &&& m matches Some(b) && significand(b) == 1852 * 0x400_0000_0000 && power(b) == -42
            &&& m == unit_metres("nm"@)
        }),
        ({
            let m = unit_metres("ft"@);
            &&& m matches Some(b) && -5000 <= significand(b) * 10000 - 3048 * 0x40_0000_0000_0000
                <= 5000 && power(b) == -54
            &&& m == unit_metres("feet"@)
        }),
{
    reveal_strlit("m");
    reveal_strlit("metre");
    reveal_strlit("metres");
    reveal_strlit("meter");
    reveal_strlit("meters");
    reveal_strlit("km");
    reveal_strlit("kilometre");
    reveal_strlit("kilometres");
    reveal_strlit("kilometer");
    reveal_strlit("kilometers");
    reveal_strlit("mi");
    reveal_strlit("mile");
    reveal_strlit("miles");
    reveal_strlit("nmi");
    reveal_strlit("nm");
    reveal_strlit("ft");
    reveal_strlit("feet");
    assert("m"@.len() == 1 && "km"@.len() == 2 && "mi"@.len() == 2 && "nm"@.len() == 2);
    assert("ft"@.len() == 2 && "nmi"@.len() == 3 && "mile"@.len() == 4 && "feet"@.len() == 4);
    assert("metre"@.len() == 5 && "meter"@.len() == 5 && "miles"@.len() == 5);
    assert("metres"@.len() == 6 && "meters"@.len() == 6);
    assert("kilometre"@.len() == 9 && "kilometer"@.len() == 9);
    assert("kilometres"@.len() == 10 && "kilometers"@.len() == 10);
    assert("km"@[0] == 'k' && "mi"@[0] == 'm' && "nm"@[0] == 'n' && "ft"@[0] == 'f');
    assert("mile"@[0] == 'm' && "feet"@[0] == 'f');
    assert("metre"@[1] == 'e' && "meter"@[1] == 'e' && "miles"@[1] == 'i');
}

/// A radius is the number that `within` gives, which is finite and above zero, in the
/// unit that is named, in any case; in kilometres where none is.
pub proof fn a_radius_is_what_is_given(
    q: Seq<(Seq<char>, Seq<char>)>,
    p: Seq<(Seq<char>, Seq<char>)>,
    m: Map<Seq<char>, Double>,
)
    ensures
        queried_radius(q, m) matches Ok(d) ==> {
            &&& value(q, "within"@) is Some && m.contains_key(value(q, "within"@)->0)
            &&& d.value == m[value(q, "within"@)->0]
            &&& d.value.finite() && (Double { bits: 0 }).less(d.value)
        },
        value(q, "within"@) is Some && m.contains_key(value(q, "within"@)->0) && m[value(
            q,
            "within"@,
        )->0].finite() && (Double { bits: 0 }).less(m[value(q, "within"@)->0]) && value(
            q,
            "within-units"@,
        ) is None ==> queried_radius(q, m) is Ok && unit_metres("km"@) == Some(
            queried_radius(q, m)->Ok_0.per_unit.bits,
        ),
        value(q, "within"@) == value(p, "within"@) && value(q, "within-units"@) is Some && value(
            p,
            "within-units"@,
        ) == Some(text::raised(text::trimmed(value(q, "within-units"@)->0))) && text::trimmed(
            value(p, "within-units"@)->0,
        ) == value(p, "within-units"@)->0 ==> queried_radius(q, m) == queried_radius(p, m),
        value(q, "within"@) is None ==> queried_radius(q, m) is Err && queried_radius(
            q,
            m,
        )->Err_0 is BadRequest,
{
    reveal_strlit("km");
    let km = "km"@;
    assert(text::bounded(km));
    text::trimming_leaves_what_is_bounded(km);
    assert(text::lowered(km) =~= km);
    units_stand_for_their_lengths();
    if let Some(u) = value(q, "within-units"@) {
        text::lower_case_ignores_case(text::trimmed(u));
    }
}

/// A limit is a count above zero, and the default where none is given; anything else
/// is refused. So is a number of points along an axis.
pub proof fn a_limit_is_a_count_above_zero(
    q: Seq<(Seq<char>, Seq<char>)>,
    default: usize,
    axis: Seq<char>,
    n: usize,
)
    ensures
        value(q, "limit"@) is None ==> limit_of(q, default) == Ok::<usize, Fault>(default),
        value(q, "limit"@) == Some(text::digits(n as nat)) && n > 0 ==> limit_of(q, default) == Ok::<
            usize,
            Fault,
        >(n),
        value(q, "limit"@) == Some(text::digits(n as nat)) && n == 0 ==> limit_of(
            q,
            default,
        ) is Err && limit_of(q, default)->Err_0 is BadRequest,
        value(q, "limit"@) is Some && limit_of(q, default) is Ok ==> limit_of(q, default)->Ok_0 > 0
            && text::decimal_value(text::unsigned(value(q, "limit"@)->0)) == limit_of(
            q,
            default,
        )->Ok_0,
        value(q, "resolution-"@ + axis) is None ==> queried_resolution(q, axis) == Ok::<
            Option<usize>,
            Fault,
        >(None),
        value(q, "resolution-"@ + axis) == Some(text::digits(n as nat)) && n > 0
            ==> queried_resolution(q, axis) == Ok::<Option<usize>, Fault>(Some(n)),
        value(q, "resolution-"@ + axis) == Some(text::digits(n as nat)) && n == 0
            ==> queried_resolution(q, axis) is Err && queried_resolution(
            q,
            axis,
        )->Err_0 is BadRequest,
{
    text::a_written_count_reads_back(n);
}

/// The encodings are known by the names under which they are offered, in any case,
/// and by their media types; where nothing is named CoverageJSON is meant. What is
/// not known is refused.
pub proof fn encodings_are_known_by_name(raw: Seq<char>)
    ensures
        format_named(""@) == Ok::<Format, Fault>(Format::CoverageJson),
        format_named("CoverageJSON"@) == Ok::<Format, Fault>(Format::CoverageJson),
        format_named("GeoJSON"@) == Ok::<Format, Fault>(Format::GeoJson),
        format_named(Format::CoverageJson.media()) == Ok::<Format, Fault>(Format::CoverageJson),
        format_named(Format::GeoJson.media()) == Ok::<Format, Fault>(Format::GeoJson),
        format_named(text::raised(text::trimmed(raw))) is Ok == format_named(raw) is Ok
            || text::trimmed(text::raised(text::trimmed(raw))) != text::raised(
            text::trimmed(raw),
        ),
        format_named(raw) is Err ==> format_named(raw)->Err_0 is NotSupported,
{
    reveal_strlit("");
    reveal_strlit("CoverageJSON");
    reveal_strlit("GeoJSON");
    reveal_strlit("covjson");
    reveal_strlit("coveragejson");
    reveal_strlit("geojson");
    reveal_strlit("application/prs.coverage+json");
    reveal_strlit("application/geo+json");
    text::lower_case_ignores_case(text::trimmed(raw));
    let (a, b) = ("CoverageJSON"@, "GeoJSON"@);
    let (c, d) = ("application/prs.coverage+json"@, "application/geo+json"@);
    assert(text::trimmed(""@) == ""@);
    assert(text::lowered(""@) =~= ""@);
    assert(text::bounded(a) && text::bounded(b) && text::bounded(c) && text::bounded(d));
    text::trimming_leaves_what_is_bounded(a);
    text::trimming_leaves_what_is_bounded(b);
    text::trimming_leaves_what_is_bounded(c);
    text::trimming_leaves_what_is_bounded(d);
    assert(text::lowered(a) =~= "coveragejson"@);
    assert(text::lowered(b) =~= "geojson"@);
    assert(text::lowered(c) =~= c);
    assert(text::lowered(d) =~= d);
    assert("geojson"@.len() == 7 && "covjson"@.len() == 7 && "coveragejson"@.len() == 12);
    assert("geojson"@[0] == 'g' && "covjson"@[0] == 'c');
    assert(c.len() == 29 && d.len() == 20);
}

/// A reference system is served that is CRS84 by name or EPSG's number for it, at the
/// end of any identifier; and without one nothing is refused.
pub proof fn crs84_is_served_by_its_names(q: Seq<(Seq<char>, Seq<char>)>, prefix: Seq<char>)
    requires
        text::bounded(prefix),
    ensures
        value(q, "crs"@) is None ==> crs_accepted(q) is Ok,
        value(q, "crs"@) == Some(prefix + "CRS84"@) ==> crs_accepted(q) is Ok,
        value(q, "crs"@) == Some(prefix + "4326"@) ==> crs_accepted(q) is Ok,
{
    crs84_by_name(prefix);
    crs84_by_number(prefix);
}

proof fn crs84_by_name(prefix: Seq<char>)
    requires
        text::bounded(prefix),
    ensures
        crs84(prefix + "CRS84"@),
{
    reveal_strlit("CRS84");
    let a = prefix + "CRS84"@;
    let n = prefix.len() as int;
    assert(a[0] == prefix[0] && a.last() == '4');
    text::trimming_leaves_what_is_bounded(a);
    let r = text::raised(a);
    assert(r.subrange(n, n + 5) =~= "CRS84"@);
    assert(text::holds(r, "CRS84"@));
}

proof fn crs84_by_number(prefix: Seq<char>)
    requires
        text::bounded(prefix),
    ensures
        crs84(prefix + "4326"@),
{
    reveal_strlit("4326");
    let b = prefix + "4326"@;
    let n = prefix.len() as int;
    assert(b[0] == prefix[0] && b.last() == '6');
    text::trimming_leaves_what_is_bounded(b);
    let r = text::raised(b);
    assert(r.skip(n) =~= "4326"@);
    assert(text::closes(r, "4326"@));
}

/// A reference system without an 8 in its name, or with one that no 4 follows, is not
/// served unless EPSG's number for CRS84 ends it.
pub proof fn other_systems_are_not_served(q: Seq<(Seq<char>, Seq<char>)>, crs: Seq<char>)
    requires
        value(q, "crs"@) == Some(crs),
        text::bounded(crs),
        forall|i: int| 0 <= i < crs.len() - 1 && crs[i] == '8' ==> #[trigger] crs[i + 1] != '4',
        crs.last() != '6',
    ensures
        crs_accepted(q) is Err,
        crs_accepted(q)->Err_0 is NotSupported,
{
    text::trimming_leaves_what_is_bounded(crs);
    let r = text::raised(crs);
    assert forall|i: int| 0 <= i < r.len() - 1 && r[i] == '8' implies #[trigger] r[i + 1]
        != '4' by {
        assert(crs[i + 1] != '4');
    }
    assert(r.last() != '6');
    no_name_of_crs84(r);
}

proof fn no_name_of_crs84(r: Seq<char>)
    requires
        r.len() > 0,
        forall|i: int| 0 <= i < r.len() - 1 && r[i] == '8' ==> #[trigger] r[i + 1] != '4',
        r.last() != '6',
    ensures
        !text::holds(r, "CRS84"@),
        !text::holds(r, "CRS:84"@),
        !text::closes(r, "4326"@),
        r != "WGS84"@,
{
    reveal_strlit("CRS84");
    reveal_strlit("CRS:84");
    reveal_strlit("4326");
    reveal_strlit("WGS84");
    assert("CRS84"@[3] == '8' && "CRS84"@[4] == '4' && "CRS84"@.len() == 5);
    assert("CRS:84"@[4] == '8' && "CRS:84"@[5] == '4' && "CRS:84"@.len() == 6);
    assert("4326"@[3] == '6' && "4326"@.len() == 4);
    assert("WGS84"@[3] == '8' && "WGS84"@[4] == '4' && "WGS84"@.len() == 5);
    if text::holds(r, "CRS84"@) {
        let i = choose|i: int| 0 <= i <= r.len() - 5 && #[trigger] r.subrange(i, i + 5) == "CRS84"@;
        let w = r.subrange(i, i + 5);
        assert(w[3] == r[i + 3] && w[4] == r[i + 3 + 1]);
    }
    if text::holds(r, "CRS:84"@) {
        let i = choose|i: int|
            0 <= i <= r.len() - 6 && #[trigger] r.subrange(i, i + 6) == "CRS:84"@;
        let w = r.subrange(i, i + 6);
        assert(w[4] == r[i + 4] && w[5] == r[i + 4 + 1]);
    }
    if text::closes(r, "4326"@) {
        let w = r.skip(r.len() - 4);
        assert(w[3] == r.last());
    }
    if r == "WGS84"@ {
        let i: int = 3;
        assert(r[i] == '8' && r[i + 1] == '4');
    }
}

/// A level is a finite number: what is none, or is infinite, is refused.
pub proof fn a_level_is_a_finite_number(raw: Seq<char>, m: Map<Seq<char>, Double>)
    ensures
        match numerals::reading(m, text::trimmed(raw)) {
            Some(n) => if n.magnitude() < 0x7ff0_0000_0000_0000 {
                level(raw, m) == Ok::<Double, Fault>(n)
            } else {
                level(raw, m) is Err && level(raw, m)->Err_0 is BadRequest
            },
            None => level(raw, m) is Err && level(raw, m)->Err_0 is BadRequest,
        },
{
}

} // verus!
