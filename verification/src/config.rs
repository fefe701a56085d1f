//! Server configuration, from the environment or from a file.
use vstd::prelude::*;

use crate::error::{self, EdrError, EdrResult, Fault};
use crate::text::{self, chars_of, items, parse_count, same_text, string_of, trim};

verus! {

/// The public ARCO-ERA5 analysis-ready store: 0.25° hourly, surface variables
/// on (time, latitude, longitude) and 11 variables additionally on 37 pressure
/// levels.
pub const DEFAULT_ERA5_LOCATION: &'static str =
    "gs://gcp-public-data-arco-era5/ar/full_37-1h-0p25deg-chunk-1.zarr-v3";

#[derive(Debug)]
pub struct CollectionConfig {
    pub id: String,
    pub title: Option<String>,
    pub description: Option<String>,
    pub location: String,
    pub keywords: Vec<String>,
    /// Restrict the collection to these variables; `None` exposes all of them.
    pub parameters: Option<Vec<String>>,
}

#[derive(Debug)]
pub struct Config {
    pub bind: String,
    /// Prefix for link `href`s; empty means root-relative links.
    pub base_url: String,
    pub collections: Vec<CollectionConfig>,
    /// Hard ceiling on grid cells × timesteps × parameters per request.
    pub max_values: usize,
    /// `limit` applied when the request does not carry one.
    pub default_limit: usize,
}

/// What a [`CollectionConfig`] holds.
pub struct Store {
    pub id: Seq<char>,
    pub title: Option<Seq<char>>,
    pub description: Option<Seq<char>>,
    pub location: Seq<char>,
    pub keywords: Seq<Seq<char>>,
    pub parameters: Option<Seq<Seq<char>>>,
}

/// What a [`Config`] holds.
pub struct Setup {
    pub bind: Seq<char>,
    pub base_url: Seq<char>,
    pub collections: Seq<Store>,
    pub max_values: usize,
    pub default_limit: usize,
}

pub open spec fn text_view(s: Option<String>) -> Option<Seq<char>> {
    match s {
        Some(t) => Some(t@),
        None => None,
    }
}

pub open spec fn texts_view(v: Option<Vec<String>>) -> Option<Seq<Seq<char>>> {
    match v {
        Some(t) => Some(text::texts(t@)),
        None => None,
    }
}

impl View for CollectionConfig {
    type V = Store;

    open spec fn view(&self) -> Store {
        Store {
            id: self.id@,
            title: text_view(self.title),
            description: text_view(self.description),
            location: self.location@,
            keywords: text::texts(self.keywords@),
            parameters: texts_view(self.parameters),
        }
    }
}

pub open spec fn stores_of(v: Seq<CollectionConfig>) -> Seq<Store> {
    Seq::new(v.len(), |i: int| v[i]@)
}

impl View for Config {
    type V = Setup;

    open spec fn view(&self) -> Setup {
        Setup {
            bind: self.bind@,
            base_url: self.base_url@,
            collections: stores_of(self.collections@),
            max_values: self.max_values,
            default_limit: self.default_limit,
        }
    }
}

pub open spec fn setup_of(r: EdrResult<Config>) -> Result<Setup, Fault> {
    match r {
        Ok(c) => Ok(c@),
        Err(e) => Err(e@),
    }
}

/// What the environment variables hold, each where it is set.
#[derive(Debug)]
pub struct Environment {
    pub bind: Option<String>,
    pub base_url: Option<String>,
    pub max_values: Option<String>,
    pub default_limit: Option<String>,
    pub location: Option<String>,
    pub collection_id: Option<String>,
    pub parameters: Option<String>,
}

/// A variable's text, or a default.
pub open spec fn set_or(s: Option<String>, otherwise: Seq<char>) -> Seq<char> {
    match s {
        Some(t) => t@,
        None => otherwise,
    }
}

/// The count that a variable holds, or the default where it is not set.
pub open spec fn count_set(key: Seq<char>, raw: Option<Seq<char>>, default: usize) -> Result<
    usize,
    Fault,
> {
    match raw {
        None => Ok(default),
        Some(r) => match text::count_of(text::trimmed(r)) {
            Some(n) => Ok(n),
            None => Err(Fault::Internal(key + " must be a positive integer, got "@ + r)),
        },
    }
}

/// Read the count that a variable holds.
pub fn parse_env(key: &str, raw: &Option<String>, default: usize) -> (r: EdrResult<usize>)
    ensures
        error::outcome(r) == count_set(key@, text_view(*raw), default),
{
    match raw {
        None => Ok(default),
        Some(t) => {
            let chars = chars_of(t.as_str());
            match parse_count(trim(chars.as_slice())) {
                Some(n) => Ok(n),
                None => {
                    let mut m: String = key.to_owned();
                    m.append(" must be a positive integer, got ");
                    m.append(t.as_str());
                    Err(EdrError::Internal(m))
                },
            }
        },
    }
}

/// A URL without the slashes it ends in.
pub open spec fn unslashed(s: Seq<char>) -> Seq<char>
    decreases s.len(),
{
    if s.len() > 0 && s.last() == '/' {
        unslashed(s.drop_last())
    } else {
        s
    }
}

fn strip_slashes(s: &str) -> (r: String)
    ensures
        r@ == unslashed(s@),
{
    let chars = chars_of(s);
    let mut end: usize = chars.len();
    assert(chars@.take(end as int) == chars@);
    while end > 0 && chars[end - 1] == '/'
        invariant
            end <= chars@.len(),
            unslashed(chars@.take(end as int)) == unslashed(chars@),
        decreases end,
    {
        assert(chars@.take(end as int).drop_last() == chars@.take(end - 1));
        end -= 1;
    }
    let head = vstd::slice::slice_subrange(chars.as_slice(), 0, end);
    assert(head@ == chars@.take(end as int));
    string_of(head)
}

pub open spec fn era5_keywords() -> Seq<Seq<char>> {
    Seq::<Seq<char>>::empty().push("ERA5"@).push("reanalysis"@).push("ECMWF"@).push(
        "climate"@,
    ).push("weather"@)
}

/// The one collection that is served without a configuration file.
pub open spec fn era5_store(e: Environment) -> Store {
    Store {
        id: set_or(e.collection_id, "era5"@),
        title: Some("ERA5"@),
        description: Some(
            "ECMWF ERA5 global atmospheric reanalysis, analysis-ready 0.25° hourly data served from a cloud-optimised Zarr store."@,
        ),
        location: set_or(e.location, DEFAULT_ERA5_LOCATION@),
        keywords: era5_keywords(),
        parameters: match e.parameters {
            Some(raw) => Some(text::solid(text::pieces(raw@, ','))),
            None => None,
        },
    }
}

/// The configuration that the environment gives.
pub open spec fn setup_from(e: Environment) -> Result<Setup, Fault> {
    match count_set("EDR_MAX_VALUES"@, text_view(e.max_values), 5_000_000) {
        Err(f) => Err(f),
        Ok(max_values) => match count_set(
            "EDR_DEFAULT_LIMIT"@,
            text_view(e.default_limit),
            100_000,
        ) {
            Err(f) => Err(f),
            Ok(default_limit) => Ok(
                Setup {
                    bind: set_or(e.bind, "0.0.0.0:3000"@),
                    base_url: unslashed(set_or(e.base_url, ""@)),
                    collections: seq![era5_store(e)],
                    max_values,
                    default_limit,
                },
            ),
        },
    }
}

fn or_else(s: Option<String>, otherwise: &str) -> (r: String)
    ensures
        r@ == set_or(s, otherwise@),
{
    match s {
        Some(t) => t,
        None => otherwise.to_owned(),
    }
}

fn strings(v: &Vec<Vec<char>>) -> (r: Vec<String>)
    ensures
        text::texts(r@) == text::views(v@),
{
    let mut out: Vec<String> = Vec::new();
    let mut i: usize = 0;
    while i < v.len()
        invariant
            i <= v@.len(),
            out@.len() == i,
            forall|k: int| 0 <= k < i ==> (#[trigger] out@[k])@ == v@[k]@,
        decreases v@.len() - i,
    {
        out.push(string_of(v[i].as_slice()));
        i += 1;
    }
    assert(text::texts(out@) =~= text::views(v@));
    out
}

impl Config {
    /// The configuration that the environment gives: a single ERA5 collection.
    pub fn from_env(e: Environment) -> (r: EdrResult<Config>)
        ensures
            setup_of(r) == setup_from(e),
    {
        let max_values: usize = match parse_env("EDR_MAX_VALUES", &e.max_values, 5_000_000) {
            Ok(n) => n,
            Err(f) => {
                return Err(f);
            },
        };
        let default_limit: usize = match parse_env("EDR_DEFAULT_LIMIT", &e.default_limit, 100_000) {
            Ok(n) => n,
            Err(f) => {
                return Err(f);
            },
        };
        let parameters = match e.parameters {
            Some(raw) => {
                let chars = chars_of(raw.as_str());
                Some(strings(&items(chars.as_slice(), ',')))
            },
            None => None,
        };
        let mut keywords: Vec<String> = Vec::new();
        keywords.push("ERA5".to_owned());
        keywords.push("reanalysis".to_owned());
        keywords.push("ECMWF".to_owned());
        keywords.push("climate".to_owned());
        keywords.push("weather".to_owned());
        assert(text::texts(keywords@) =~= era5_keywords());
        let store = CollectionConfig {
            id: or_else(e.collection_id, "era5"),
            title: Some("ERA5".to_owned()),
            description: Some(
                "ECMWF ERA5 global atmospheric reanalysis, analysis-ready 0.25° hourly data served from a cloud-optimised Zarr store.".to_owned(),
            ),
            location: or_else(e.location, DEFAULT_ERA5_LOCATION),
            keywords,
            parameters,
        };
        let ghost held = store@;
        let mut collections: Vec<CollectionConfig> = Vec::new();
        collections.push(store);
        assert(stores_of(collections@) =~= seq![held]);
        Ok(
            Config {
                bind: or_else(e.bind, "0.0.0.0:3000"),
                base_url: strip_slashes(or_else(e.base_url, "").as_str()),
                collections,
                max_values,
                default_limit,
            },
        )
    }
}

/// A value of a configuration file.
#[derive(Debug)]
pub enum Setting {
    Text(String),
    Integer(i64),
    Texts(Vec<String>),
    /// A value of a kind that no key takes.
    Other,
}

/// What a [`Setting`] holds.
pub enum Given {
    Text(Seq<char>),
    Integer(i64),
    Texts(Seq<Seq<char>>),
    Other,
}

impl View for Setting {
    type V = Given;

    open spec fn view(&self) -> Given {
        match self {
            Setting::Text(s) => Given::Text(s@),
            Setting::Integer(n) => Given::Integer(*n),
            Setting::Texts(v) => Given::Texts(text::texts(v@)),
            Setting::Other => Given::Other,
        }
    }
}

/// The keys of a table, each with its value.
pub open spec fn entries_of(v: Seq<(String, Setting)>) -> Seq<(Seq<char>, Given)> {
    Seq::new(v.len(), |i: int| (v[i].0@, v[i].1@))
}

/// A configuration file: where it was read from, its server-wide keys, and the
/// keys of each of its collections.
#[derive(Debug)]
pub struct ConfigFile {
    pub path: String,
    pub server: Vec<(String, Setting)>,
    pub collections: Vec<Vec<(String, Setting)>>,
}

pub open spec fn tables_of(v: Seq<Vec<(String, Setting)>>) -> Seq<Seq<(Seq<char>, Given)>> {
    Seq::new(v.len(), |i: int| entries_of(v[i]@))
}

pub open spec fn unknown_field(path: Seq<char>, key: Seq<char>) -> Fault {
    Fault::Internal("invalid config "@ + path + ": unknown field `"@ + key + "`"@)
}

pub open spec fn wrong_type(path: Seq<char>, key: Seq<char>) -> Fault {
    Fault::Internal("invalid config "@ + path + ": wrong type for `"@ + key + "`"@)
}

fn unknown(path: &str, key: &str) -> (r: EdrError)
    ensures
        r@ == unknown_field(path@, key@),
{
    let mut m: String = "invalid config ".to_owned();
    m.append(path);
    m.append(": unknown field `");
    m.append(key);
    m.append("`");
    EdrError::Internal(m)
}

pub(crate) fn mistyped(path: &str, key: &str) -> (r: EdrError)
    ensures
        r@ == wrong_type(path@, key@),
{
    let mut m: String = "invalid config ".to_owned();
    m.append(path);
    m.append(": wrong type for `");
    m.append(key);
    m.append("`");
    EdrError::Internal(m)
}

/// The server-wide settings of a file, with their defaults.
pub struct Server {
    pub bind: Seq<char>,
    pub base_url: Seq<char>,
    pub max_values: usize,
    pub default_limit: usize,
}

pub open spec fn default_server() -> Server {
    Server {
        bind: "0.0.0.0:3000"@,
        base_url: ""@,
        max_values: 5_000_000,
        default_limit: 100_000,
    }
}

/// Server-wide settings with one more key applied.
pub open spec fn server_with(s: Server, path: Seq<char>, key: Seq<char>, value: Given) -> Result<
    Server,
    Fault,
> {
    if key == "bind"@ {
        match value {
            Given::Text(t) => Ok(Server { bind: t, ..s }),
            _ => Err(wrong_type(path, key)),
        }
    } else if key == "base_url"@ {
        match value {
            Given::Text(t) => Ok(Server { base_url: unslashed(t), ..s }),
            _ => Err(wrong_type(path, key)),
        }
    } else if key == "max_values"@ {
        match value {
            Given::Integer(n) if 0 <= n <= usize::MAX => Ok(
                Server { max_values: n as usize, ..s },
            ),
            _ => Err(wrong_type(path, key)),
        }
    } else if key == "default_limit"@ {
        match value {
            Given::Integer(n) if 0 <= n <= usize::MAX => Ok(
                Server { default_limit: n as usize, ..s },
            ),
            _ => Err(wrong_type(path, key)),
        }
    } else {
        Err(unknown_field(path, key))
    }
}

/// The server-wide settings that a file's keys give, or the first fault among
/// them.
pub open spec fn server_of(path: Seq<char>, entries: Seq<(Seq<char>, Given)>) -> Result<
    Server,
    Fault,
>
    decreases entries.len(),
{
    if entries.len() == 0 {
        Ok(default_server())
    } else {
        match server_of(path, entries.drop_last()) {
            Err(e) => Err(e),
            Ok(s) => server_with(s, path, entries.last().0, entries.last().1),
        }
    }
}

proof fn server_err(path: Seq<char>, entries: Seq<(Seq<char>, Given)>, k: int)
    requires
        0 <= k <= entries.len(),
        server_of(path, entries.take(k)) is Err,
    ensures
        server_of(path, entries) == server_of(path, entries.take(k)),
    decreases entries.len() - k,
{
    if k == entries.len() {
        assert(entries.take(k) == entries);
    } else {
        assert(entries.take(k + 1).drop_last() == entries.take(k));
        server_err(path, entries, k + 1);
    }
}

/// What a collection's keys give so far.
pub struct Draft {
    pub id: Option<Seq<char>>,
    pub location: Option<Seq<char>>,
    pub title: Option<Seq<char>>,
    pub description: Option<Seq<char>>,
    pub keywords: Seq<Seq<char>>,
    pub parameters: Option<Seq<Seq<char>>>,
}

pub open spec fn blank_draft() -> Draft {
    Draft {
        id: None,
        location: None,
        title: None,
        description: None,
        keywords: Seq::empty(),
        parameters: None,
    }
}

/// A collection with one more key applied.
pub open spec fn draft_with(d: Draft, path: Seq<char>, key: Seq<char>, value: Given) -> Result<
    Draft,
    Fault,
> {
    if key == "id"@ || key == "location"@ || key == "title"@ || key == "description"@ {
        match value {
            Given::Text(t) => Ok(
                if key == "id"@ {
                    Draft { id: Some(t), ..d }
                } else if key == "location"@ {
                    Draft { location: Some(t), ..d }
                } else if key == "title"@ {
                    Draft { title: Some(t), ..d }
                } else {
                    Draft { description: Some(t), ..d }
                },
            ),
            _ => Err(wrong_type(path, key)),
        }
    } else if key == "keywords"@ || key == "parameters"@ {
        match value {
            Given::Texts(v) => Ok(
                if key == "keywords"@ {
                    Draft { keywords: v, ..d }
                } else {
                    Draft { parameters: Some(v), ..d }
                },
            ),
            _ => Err(wrong_type(path, key)),
        }
    } else {
        Err(unknown_field(path, key))
    }
}

pub open spec fn draft_of(path: Seq<char>, entries: Seq<(Seq<char>, Given)>) -> Result<
    Draft,
    Fault,
>
    decreases entries.len(),
{
    if entries.len() == 0 {
        Ok(blank_draft())
    } else {
        match draft_of(path, entries.drop_last()) {
            Err(e) => Err(e),
            Ok(d) => draft_with(d, path, entries.last().0, entries.last().1),
        }
    }
}

proof fn draft_err(path: Seq<char>, entries: Seq<(Seq<char>, Given)>, k: int)
    requires
        0 <= k <= entries.len(),
        draft_of(path, entries.take(k)) is Err,
    ensures
        draft_of(path, entries) == draft_of(path, entries.take(k)),
    decreases entries.len() - k,
{
    if k == entries.len() {
        assert(entries.take(k) == entries);
    } else {
        assert(entries.take(k + 1).drop_last() == entries.take(k));
        draft_err(path, entries, k + 1);
    }
}

/// Whether a character may stand in a URL's path segment as it is.
pub open spec fn unreserved(c: char) -> bool {
    ||| 'a' <= c <= 'z'
    ||| 'A' <= c <= 'Z'
    ||| '0' <= c <= '9'
    ||| c == '-'
    ||| c == '_'
    ||| c == '.'
    ||| c == '~'
}

/// Whether an id can be a path segment in every URL the collection appears at.
pub open spec fn segment(id: Seq<char>) -> bool {
    &&& id.len() > 0
    &&& id != "."@
    &&& id != ".."@
    &&& forall|i: int| 0 <= i < id.len() ==> unreserved(#[trigger] id[i])
}

/// The store that a collection's keys describe. Only `id` and `location` are
/// required.
pub open spec fn store_of(path: Seq<char>, entries: Seq<(Seq<char>, Given)>) -> Result<
    Store,
    Fault,
> {
    match draft_of(path, entries) {
        Err(e) => Err(e),
        Ok(d) => match d.id {
            None => Err(Fault::Internal("invalid config "@ + path + ": missing field `id`"@)),
            Some(id) => if !segment(id) {
                Err(
                    Fault::Internal(
                        "invalid config "@ + path + ": collection id '"@ + id
                            + "' cannot be used as a URL path segment"@,
                    ),
                )
            } else if d.location is None || d.location->0.len() == 0 {
                Err(
                    Fault::Internal(
                        "invalid config "@ + path + ": collection '"@ + id
                            + "' is missing its location"@,
                    ),
                )
            } else {
                Ok(
                    Store {
                        id,
                        title: d.title,
                        description: d.description,
                        location: d.location->0,
                        keywords: d.keywords,
                        parameters: d.parameters,
                    },
                )
            },
        },
    }
}

pub open spec fn has_id(stores: Seq<Store>, id: Seq<char>) -> bool {
    exists|i: int| 0 <= i < stores.len() && #[trigger] stores[i].id == id
}

/// The stores that a file describes, or the first fault among them. An id is
/// used once: ids key the catalogue, so a second would silently replace the
/// first.
pub open spec fn stores_in(path: Seq<char>, tables: Seq<Seq<(Seq<char>, Given)>>) -> Result<
    Seq<Store>,
    Fault,
>
    decreases tables.len(),
{
    if tables.len() == 0 {
        Ok(Seq::empty())
    } else {
        match stores_in(path, tables.drop_last()) {
            Err(e) => Err(e),
            Ok(stores) => match store_of(path, tables.last()) {
                Err(e) => Err(e),
                Ok(s) => if has_id(stores, s.id) {
                    Err(
                        Fault::Internal(
                            "invalid config "@ + path + ": collection id '"@ + s.id
                                + "' is used more than once"@,
                        ),
                    )
                } else {
                    Ok(stores.push(s))
                },
            },
        }
    }
}

proof fn stores_err(path: Seq<char>, tables: Seq<Seq<(Seq<char>, Given)>>, k: int)
    requires
        0 <= k <= tables.len(),
        stores_in(path, tables.take(k)) is Err,
    ensures
        stores_in(path, tables) == stores_in(path, tables.take(k)),
    decreases tables.len() - k,
{
    if k == tables.len() {
        assert(tables.take(k) == tables);
    } else {
        assert(tables.take(k + 1).drop_last() == tables.take(k));
        stores_err(path, tables, k + 1);
    }
}

/// The configuration that settings give: the server's, and each collection's.
pub open spec fn setup_by(
    path: Seq<char>,
    server: Seq<(Seq<char>, Given)>,
    tables: Seq<Seq<(Seq<char>, Given)>>,
) -> Result<Setup, Fault> {
    match server_of(path, server) {
        Err(e) => Err(e),
        Ok(s) => match stores_in(path, tables) {
            Err(e) => Err(e),
            Ok(stores) => if stores.len() == 0 {
                Err(Fault::Internal("invalid config "@ + path + ": no collections configured"@))
            } else {
                Ok(
                    Setup {
                        bind: s.bind,
                        base_url: s.base_url,
                        collections: stores,
                        max_values: s.max_values,
                        default_limit: s.default_limit,
                    },
                )
            },
        },
    }
}

/// The configuration that a file gives.
pub open spec fn setup_in(f: ConfigFile) -> Result<Setup, Fault> {
    setup_by(f.path@, entries_of(f.server@), tables_of(f.collections@))
}

fn copy_texts(v: &Vec<String>) -> (r: Vec<String>)
    ensures
        text::texts(r@) == text::texts(v@),
{
    let mut out: Vec<String> = Vec::new();
    let mut i: usize = 0;
    while i < v.len()
        invariant
            i <= v@.len(),
            out@.len() == i,
            forall|k: int| 0 <= k < i ==> (#[trigger] out@[k])@ == v@[k]@,
        decreases v@.len() - i,
    {
        out.push(v[i].clone());
        i += 1;
    }
    assert(text::texts(out@) =~= text::texts(v@));
    out
}

fn is_segment(id: &str) -> (r: bool)
    ensures
        r == segment(id@),
{
    if same_text(id, ".") || same_text(id, "..") {
        return false;
    }
    let chars = chars_of(id);
    if chars.len() == 0 {
        return false;
    }
    let mut i: usize = 0;
    while i < chars.len()
        invariant
            chars@ == id@,
            i <= chars@.len(),
            forall|k: int| 0 <= k < i ==> unreserved(#[trigger] chars@[k]),
        decreases chars@.len() - i,
    {
        let c = chars[i];
        if !(('a' <= c && c <= 'z') || ('A' <= c && c <= 'Z') || ('0' <= c && c <= '9') || c == '-'
            || c == '_' || c == '.' || c == '~') {
            assert(!unreserved(id@[i as int]));
            return false;
        }
        i += 1;
    }
    true
}

fn read_store(path: &str, entries: &Vec<(String, Setting)>) -> (r: EdrResult<CollectionConfig>)
    ensures
        match r {
            Ok(c) => store_of(path@, entries_of(entries@)) == Ok::<Store, Fault>(c@),
            Err(e) => store_of(path@, entries_of(entries@)) == Err::<Store, Fault>(e@),
        },
{
    let ghost all = entries_of(entries@);
    let mut id: Option<String> = None;
    let mut location: Option<String> = None;
    let mut title: Option<String> = None;
    let mut description: Option<String> = None;
    let mut keywords: Vec<String> = Vec::new();
    let mut parameters: Option<Vec<String>> = None;
    let mut i: usize = 0;
    assert(text::texts(keywords@) =~= Seq::<Seq<char>>::empty());
    while i < entries.len()
        invariant
            i <= entries@.len(),
            all == entries_of(entries@),
            draft_of(path@, all.take(i as int)) == Ok::<Draft, Fault>(
                Draft {
                    id: text_view(id),
                    location: text_view(location),
                    title: text_view(title),
                    description: text_view(description),
                    keywords: text::texts(keywords@),
                    parameters: texts_view(parameters),
                },
            ),
        decreases entries@.len() - i,
    {
        let key = entries[i].0.as_str();
        proof {
            assert(all.take(i + 1).drop_last() == all.take(i as int));
            assert(all.take(i + 1).last() == (key@, entries@[i as int].1@));
        }
        let texty = same_text(key, "id") || same_text(key, "location") || same_text(key, "title")
            || same_text(key, "description");
        let listy = same_text(key, "keywords") || same_text(key, "parameters");
        if texty {
            match &entries[i].1 {
                Setting::Text(t) => {
                    if same_text(key, "id") {
                        id = Some(t.clone());
                    } else if same_text(key, "location") {
                        location = Some(t.clone());
                    } else if same_text(key, "title") {
                        title = Some(t.clone());
                    } else {
                        description = Some(t.clone());
                    }
                },
                _ => {
                    proof {
                        draft_err(path@, all, i + 1);
                    }
                    return Err(mistyped(path, key));
                },
            }
        } else if listy {
            match &entries[i].1 {
                Setting::Texts(v) => {
                    if same_text(key, "keywords") {
                        keywords = copy_texts(v);
                    } else {
                        parameters = Some(copy_texts(v));
                    }
                },
                _ => {
                    proof {
                        draft_err(path@, all, i + 1);
                    }
                    return Err(mistyped(path, key));
                },
            }
        } else {
            proof {
                draft_err(path@, all, i + 1);
            }
            return Err(unknown(path, key));
        }
        i += 1;
    }
    assert(all.take(i as int) == all);
    let mut m: String = "invalid config ".to_owned();
    m.append(path);
    let named = match id {
        Some(s) => s,
        None => {
            m.append(": missing field `id`");
            return Err(EdrError::Internal(m));
        },
    };
    if !is_segment(named.as_str()) {
        m.append(": collection id '");
        m.append(named.as_str());
        m.append("' cannot be used as a URL path segment");
        return Err(EdrError::Internal(m));
    }
    let at = match location {
        Some(s) => s,
        None => "".to_owned(),
    };
    proof {
        reveal_strlit("");
    }
    if chars_of(at.as_str()).len() == 0 {
        m.append(": collection '");
        m.append(named.as_str());
        m.append("' is missing its location");
        return Err(EdrError::Internal(m));
    }
    Ok(CollectionConfig { id: named, title, description, location: at, keywords, parameters })
}

fn id_in_use(stores: &Vec<CollectionConfig>, id: &str) -> (r: bool)
    ensures
        r == has_id(stores_of(stores@), id@),
{
    let ghost all = stores_of(stores@);
    let mut i: usize = 0;
    while i < stores.len()
        invariant
            i <= stores@.len(),
            all == stores_of(stores@),
            forall|k: int| 0 <= k < i ==> #[trigger] all[k].id != id@,
        decreases stores@.len() - i,
    {
        if same_text(stores[i].id.as_str(), id) {
            assert(all[i as int].id == id@);
            return true;
        }
        i += 1;
    }
    false
}

impl Config {
    /// The configuration that a file gives. It is checked whole before any store
    /// is opened, so a typo in an id or a missing location is reported in a
    /// second rather than after a minute of reading axes.
    pub fn from_file(f: &ConfigFile) -> (r: EdrResult<Config>)
        ensures
            setup_of(r) == setup_in(*f),
    {
        let path = f.path.as_str();
        let ghost server = entries_of(f.server@);
        let mut bind: String = "0.0.0.0:3000".to_owned();
        let mut base_url: String = "".to_owned();
        let mut max_values: usize = 5_000_000;
        let mut default_limit: usize = 100_000;
        let mut i: usize = 0;
        assert(server.take(0) == Seq::<(Seq<char>, Given)>::empty());
        while i < f.server.len()
            invariant
                i <= f.server@.len(),
                path@ == f.path@,
                server == entries_of(f.server@),
                server_of(path@, server.take(i as int)) == Ok::<Server, Fault>(
                    Server { bind: bind@, base_url: base_url@, max_values, default_limit },
                ),
            decreases f.server@.len() - i,
        {
            let key = f.server[i].0.as_str();
            proof {
                assert(server.take(i + 1).drop_last() == server.take(i as int));
                assert(server.take(i + 1).last() == (key@, f.server@[i as int].1@));
                if server_of(path@, server.take(i + 1)) is Err {
                    server_err(path@, server, i + 1);
                }
            }
            let value = &f.server[i].1;
            if same_text(key, "bind") {
                match value {
                    Setting::Text(t) => {
                        bind = t.clone();
                    },
                    _ => {
                        return Err(mistyped(path, key));
                    },
                }
            } else if same_text(key, "base_url") {
                match value {
                    Setting::Text(t) => {
                        base_url = strip_slashes(t.as_str());
                    },
                    _ => {
                        return Err(mistyped(path, key));
                    },
                }
            } else if same_text(key, "max_values") || same_text(key, "default_limit") {
                let n: i64 = match value {
                    Setting::Integer(n) => *n,
                    _ => {
                        return Err(mistyped(path, key));
                    },
                };
                if n < 0 || n as u64 > usize::MAX as u64 {
                    return Err(mistyped(path, key));
                }
                if same_text(key, "max_values") {
                    max_values = n as usize;
                } else {
                    default_limit = n as usize;
                }
            } else {
                return Err(unknown(path, key));
            }
            i += 1;
        }
        assert(server.take(i as int) == server);
        let ghost tables = tables_of(f.collections@);
        let mut collections: Vec<CollectionConfig> = Vec::new();
        let mut j: usize = 0;
        assert(stores_of(collections@) =~= Seq::<Store>::empty());
        while j < f.collections.len()
            invariant
                j <= f.collections@.len(),
                path@ == f.path@,
                tables == tables_of(f.collections@),
                stores_in(path@, tables.take(j as int)) == Ok::<Seq<Store>, Fault>(
                    stores_of(collections@),
                ),
                server_of(path@, entries_of(f.server@)) is Ok,
            decreases f.collections@.len() - j,
        {
            proof {
                assert(tables.take(j + 1).drop_last() == tables.take(j as int));
                assert(tables.take(j + 1).last() == entries_of(f.collections@[j as int]@));
                if stores_in(path@, tables.take(j + 1)) is Err {
                    stores_err(path@, tables, j + 1);
                }
            }
            match read_store(path, &f.collections[j]) {
                Err(e) => {
                    return Err(e);
                },
                Ok(store) => {
                    if id_in_use(&collections, store.id.as_str()) {
                        let mut m: String = "invalid config ".to_owned();
                        m.append(path);
                        m.append(": collection id '");
                        m.append(store.id.as_str());
                        m.append("' is used more than once");
                        return Err(EdrError::Internal(m));
                    }
                    let ghost before = stores_of(collections@);
                    let ghost held = store@;
                    collections.push(store);
                    assert(stores_of(collections@) =~= before.push(held));
                },
            }
            j += 1;
        }
        assert(tables.take(j as int) == tables);
        if collections.len() == 0 {
            let mut m: String = "invalid config ".to_owned();
            m.append(path);
            m.append(": no collections configured");
            return Err(EdrError::Internal(m));
        }
        Ok(Config { bind, base_url, collections, max_values, default_limit })
    }
}

/// Whether no two stores share an id.
pub open spec fn distinct_ids(stores: Seq<Store>) -> bool {
    forall|i: int, j: int|
        0 <= i < j < stores.len() ==> (#[trigger] stores[i]).id != (#[trigger] stores[j]).id
}

proof fn stores_are_distinct(path: Seq<char>, tables: Seq<Seq<(Seq<char>, Given)>>)
    requires
        stores_in(path, tables) is Ok,
    ensures
        distinct_ids(stores_in(path, tables)->Ok_0),
        forall|i: int|
            0 <= i < stores_in(path, tables)->Ok_0.len() ==> segment(
                (#[trigger] stores_in(path, tables)->Ok_0[i]).id,
            ) && stores_in(path, tables)->Ok_0[i].location.len() > 0,
    decreases tables.len(),
{
    if tables.len() > 0 {
        stores_are_distinct(path, tables.drop_last());
        let front = stores_in(path, tables.drop_last())->Ok_0;
        let all = stores_in(path, tables)->Ok_0;
        assert forall|i: int, j: int| 0 <= i < j < all.len() implies (#[trigger] all[i]).id != (
        #[trigger] all[j]).id by {
            if j == front.len() {
                assert(front[i].id != all[j].id);
            }
        }
    }
}

/// A file that is accepted serves at least one collection, under ids that are
/// each used once and survive a URL, each with a location.
pub proof fn accepted_files_are_servable(f: ConfigFile)
    requires
        setup_in(f) is Ok,
    ensures
        setup_in(f)->Ok_0.collections.len() > 0,
        distinct_ids(setup_in(f)->Ok_0.collections),
        forall|i: int|
            0 <= i < setup_in(f)->Ok_0.collections.len() ==> segment(
                (#[trigger] setup_in(f)->Ok_0.collections[i]).id,
            ) && setup_in(f)->Ok_0.collections[i].location.len() > 0,
{
    stores_are_distinct(f.path@, tables_of(f.collections@));
}

/// A base URL loses the slashes it ends in, and nothing else.
pub proof fn a_base_loses_its_last_slashes_alone(s: Seq<char>)
    ensures
        unslashed(s).len() <= s.len(),
        unslashed(s) == s.take(unslashed(s).len() as int),
        unslashed(s).len() > 0 ==> unslashed(s).last() != '/',
        forall|i: int| unslashed(s).len() <= i < s.len() ==> #[trigger] s[i] == '/',
    decreases s.len(),
{
    if s.len() > 0 && s.last() == '/' {
        let front = s.drop_last();
        a_base_loses_its_last_slashes_alone(front);
        assert(front.take(unslashed(s).len() as int) =~= s.take(unslashed(s).len() as int));
        assert forall|i: int| unslashed(s).len() <= i < s.len() implies #[trigger] s[i]
            == '/' by {
            if i < front.len() {
                assert(front[i] == s[i]);
            }
        }
    } else {
        assert(s.take(s.len() as int) =~= s);
    }
}

/// The names of the settings are all different.
proof fn setting_names_differ()
    ensures
        "bind"@ != "base_url"@ && "bind"@ != "max_values"@ && "bind"@ != "default_limit"@,
        "base_url"@ != "max_values"@ && "base_url"@ != "default_limit"@,
        "max_values"@ != "default_limit"@,
        "id"@ != "location"@ && "id"@ != "title"@ && "id"@ != "description"@,
        "id"@ != "keywords"@ && "id"@ != "parameters"@,
        "location"@ != "title"@ && "location"@ != "description"@ && "location"@ != "keywords"@,
        "location"@ != "parameters"@,
        "title"@ != "description"@ && "title"@ != "keywords"@ && "title"@ != "parameters"@,
        "description"@ != "keywords"@ && "description"@ != "parameters"@,
        "keywords"@ != "parameters"@,
{
    reveal_strlit("bind");
    reveal_strlit("base_url");
    reveal_strlit("max_values");
    reveal_strlit("default_limit");
    reveal_strlit("id");
    reveal_strlit("location");
    reveal_strlit("title");
    reveal_strlit("description");
    reveal_strlit("keywords");
    reveal_strlit("parameters");
    assert("bind"@.len() == 4 && "base_url"@.len() == 8 && "max_values"@.len() == 10);
    assert("default_limit"@.len() == 13 && "id"@.len() == 2 && "location"@.len() == 8);
    assert("title"@.len() == 5 && "description"@.len() == 11 && "keywords"@.len() == 8);
    assert("parameters"@.len() == 10 && "location"@[0] == 'l' && "keywords"@[0] == 'k');
}

/// Whether a server-wide key is known and its value of the kind it takes.
pub open spec fn fits_server(key: Seq<char>, value: Given) -> bool {
    ||| (key == "bind"@ || key == "base_url"@) && value is Text
    ||| (key == "max_values"@ || key == "default_limit"@) && value is Integer && 0
        <= value->Integer_0 <= usize::MAX
}

/// Whether a key of a collection is known and its value of the kind it takes.
pub open spec fn fits_store(key: Seq<char>, value: Given) -> bool {
    ||| (key == "id"@ || key == "location"@ || key == "title"@ || key == "description"@)
        && value is Text
    ||| (key == "keywords"@ || key == "parameters"@) && value is Texts
}

/// Server-wide settings are accepted exactly where every key is known and has a
/// value of its kind.
pub proof fn settings_are_accepted_if_each_fits(
    path: Seq<char>,
    entries: Seq<(Seq<char>, Given)>,
)
    ensures
        server_of(path, entries) is Ok <==> forall|i: int|
            0 <= i < entries.len() ==> fits_server(#[trigger] entries[i].0, entries[i].1),
    decreases entries.len(),
{
    if entries.len() > 0 {
        let front = entries.drop_last();
        settings_are_accepted_if_each_fits(path, front);
        setting_names_differ();
        assert(entries[entries.len() - 1] == entries.last());
        if server_of(path, entries) is Ok {
            assert forall|i: int| 0 <= i < entries.len() implies fits_server(
                #[trigger] entries[i].0,
                entries[i].1,
            ) by {
                if i < front.len() {
                    assert(front[i] == entries[i]);
                    assert(fits_server(front[i].0, front[i].1));
                }
            }
        }
        if forall|i: int|
            0 <= i < entries.len() ==> fits_server(#[trigger] entries[i].0, entries[i].1) {
            assert forall|i: int| 0 <= i < front.len() implies fits_server(
                #[trigger] front[i].0,
                front[i].1,
            ) by {
                assert(front[i] == entries[i]);
                assert(fits_server(entries[i].0, entries[i].1));
            }
            assert(fits_server(entries[entries.len() - 1].0, entries[entries.len() - 1].1));
        }
    }
}

/// A server-wide setting is what the last entry under its key says.
pub proof fn the_last_server_setting_counts(
    path: Seq<char>,
    entries: Seq<(Seq<char>, Given)>,
    k: int,
)
    requires
        server_of(path, entries) is Ok,
        0 <= k < entries.len(),
        forall|i: int| k < i < entries.len() ==> (#[trigger] entries[i]).0 != entries[k].0,
    ensures
        ({
            let s = server_of(path, entries)->Ok_0;
            let (key, value) = entries[k];
            &&& key == "bind"@ ==> value == Given::Text(s.bind)
            &&& key == "base_url"@ ==> value is Text && s.base_url == unslashed(value->Text_0)
            &&& key == "max_values"@ ==> value is Integer && s.max_values == value->Integer_0
            &&& key == "default_limit"@ ==> value is Integer && s.default_limit
                == value->Integer_0
        }),
    decreases entries.len(),
{
    setting_names_differ();
    assert(entries[entries.len() - 1] == entries.last());
    if k < entries.len() - 1 {
        let front = entries.drop_last();
        assert(front[k] == entries[k]);
        assert forall|i: int| k < i < front.len() implies (#[trigger] front[i]).0
            != front[k].0 by {
            assert(front[i] == entries[i]);
        }
        the_last_server_setting_counts(path, front, k);
        assert(entries[entries.len() - 1].0 != entries[k].0);
    }
}

/// A server-wide setting whose key is not given has its default.
pub proof fn server_settings_have_defaults(
    path: Seq<char>,
    entries: Seq<(Seq<char>, Given)>,
    key: Seq<char>,
)
    requires
        server_of(path, entries) is Ok,
        forall|i: int| 0 <= i < entries.len() ==> (#[trigger] entries[i]).0 != key,
    ensures
        ({
            let s = server_of(path, entries)->Ok_0;
            &&& key == "bind"@ ==> s.bind == "0.0.0.0:3000"@
            &&& key == "base_url"@ ==> s.base_url == ""@
            &&& key == "max_values"@ ==> s.max_values == 5_000_000
            &&& key == "default_limit"@ ==> s.default_limit == 100_000
        }),
    decreases entries.len(),
{
    setting_names_differ();
    if entries.len() > 0 {
        let front = entries.drop_last();
        assert(entries[entries.len() - 1] == entries.last());
        assert forall|i: int| 0 <= i < front.len() implies (#[trigger] front[i]).0 != key by {
            assert(front[i] == entries[i]);
        }
        server_settings_have_defaults(path, front, key);
    }
}

/// The keys of a collection are accepted exactly where every key is known and has a
/// value of its kind.
pub proof fn drafts_are_accepted_if_each_key_fits(
    path: Seq<char>,
    entries: Seq<(Seq<char>, Given)>,
)
    ensures
        draft_of(path, entries) is Ok <==> forall|i: int|
            0 <= i < entries.len() ==> fits_store(#[trigger] entries[i].0, entries[i].1),
    decreases entries.len(),
{
    if entries.len() > 0 {
        let front = entries.drop_last();
        drafts_are_accepted_if_each_key_fits(path, front);
        setting_names_differ();
        assert(entries[entries.len() - 1] == entries.last());
        if draft_of(path, entries) is Ok {
            assert forall|i: int| 0 <= i < entries.len() implies fits_store(
                #[trigger] entries[i].0,
                entries[i].1,
            ) by {
                if i < front.len() {
                    assert(front[i] == entries[i]);
                    assert(fits_store(front[i].0, front[i].1));
                }
            }
        }
        if forall|i: int|
            0 <= i < entries.len() ==> fits_store(#[trigger] entries[i].0, entries[i].1) {
            assert forall|i: int| 0 <= i < front.len() implies fits_store(
                #[trigger] front[i].0,
                front[i].1,
            ) by {
                assert(front[i] == entries[i]);
                assert(fits_store(entries[i].0, entries[i].1));
            }
            assert(fits_store(entries[entries.len() - 1].0, entries[entries.len() - 1].1));
        }
    }
}

proof fn the_last_draft_key_counts(path: Seq<char>, entries: Seq<(Seq<char>, Given)>, k: int)
    requires
        draft_of(path, entries) is Ok,
        0 <= k < entries.len(),
        forall|i: int| k < i < entries.len() ==> (#[trigger] entries[i]).0 != entries[k].0,
    ensures
        ({
            let d = draft_of(path, entries)->Ok_0;
            let (key, value) = entries[k];
            &&& key == "id"@ ==> d.id is Some && value == Given::Text(d.id->0)
            &&& key == "location"@ ==> d.location is Some && value == Given::Text(d.location->0)
            &&& key == "title"@ ==> d.title is Some && value == Given::Text(d.title->0)
            &&& key == "description"@ ==> d.description is Some && value == Given::Text(
                d.description->0,
            )
            &&& key == "keywords"@ ==> value == Given::Texts(d.keywords)
            &&& key == "parameters"@ ==> d.parameters is Some && value == Given::Texts(
                d.parameters->0,
            )
        }),
    decreases entries.len(),
{
    setting_names_differ();
    assert(entries[entries.len() - 1] == entries.last());
    if k < entries.len() - 1 {
        let front = entries.drop_last();
        assert(front[k] == entries[k]);
        assert forall|i: int| k < i < front.len() implies (#[trigger] front[i]).0
            != front[k].0 by {
            assert(front[i] == entries[i]);
        }
        the_last_draft_key_counts(path, front, k);
        assert(entries[entries.len() - 1].0 != entries[k].0);
    }
}

/// What a store holds is what the last entry under each key says.
pub proof fn a_store_is_what_its_keys_say(
    path: Seq<char>,
    entries: Seq<(Seq<char>, Given)>,
    k: int,
)
    requires
        store_of(path, entries) is Ok,
        0 <= k < entries.len(),
        forall|i: int| k < i < entries.len() ==> (#[trigger] entries[i]).0 != entries[k].0,
    ensures
        ({
            let s = store_of(path, entries)->Ok_0;
            let (key, value) = entries[k];
            &&& key == "id"@ ==> value == Given::Text(s.id)
            &&& key == "location"@ ==> value == Given::Text(s.location)
            &&& key == "title"@ ==> s.title is Some && value == Given::Text(s.title->0)
            &&& key == "description"@ ==> s.description is Some && value == Given::Text(
                s.description->0,
            )
            &&& key == "keywords"@ ==> value == Given::Texts(s.keywords)
            &&& key == "parameters"@ ==> s.parameters is Some && value == Given::Texts(
                s.parameters->0,
            )
        }),
{
    the_last_draft_key_counts(path, entries, k);
}

/// What no key says of a store is left out, and a store without an id or a location
/// is refused.
pub proof fn what_no_key_says_is_left_out(
    path: Seq<char>,
    entries: Seq<(Seq<char>, Given)>,
    key: Seq<char>,
)
    requires
        forall|i: int| 0 <= i < entries.len() ==> (#[trigger] entries[i]).0 != key,
    ensures
        key == "id"@ || key == "location"@ ==> store_of(path, entries) is Err,
        store_of(path, entries) matches Ok(s) ==> {
            &&& key == "title"@ ==> s.title is None
            &&& key == "description"@ ==> s.description is None
            &&& key == "keywords"@ ==> s.keywords.len() == 0
            &&& key == "parameters"@ ==> s.parameters is None
        },
{
    if draft_of(path, entries) is Ok {
        what_no_key_says_stays_blank(path, entries, key);
    }
}

proof fn what_no_key_says_stays_blank(
    path: Seq<char>,
    entries: Seq<(Seq<char>, Given)>,
    key: Seq<char>,
)
    requires
        draft_of(path, entries) is Ok,
        forall|i: int| 0 <= i < entries.len() ==> (#[trigger] entries[i]).0 != key,
    ensures
        ({
            let d = draft_of(path, entries)->Ok_0;
            &&& key == "id"@ ==> d.id is None
            &&& key == "location"@ ==> d.location is None
            &&& key == "title"@ ==> d.title is None
            &&& key == "description"@ ==> d.description is None
            &&& key == "keywords"@ ==> d.keywords.len() == 0
            &&& key == "parameters"@ ==> d.parameters is None
        }),
    decreases entries.len(),
{
    setting_names_differ();
    if entries.len() > 0 {
        let front = entries.drop_last();
        assert(entries[entries.len() - 1] == entries.last());
        assert forall|i: int| 0 <= i < front.len() implies (#[trigger] front[i]).0 != key by {
            assert(front[i] == entries[i]);
        }
        what_no_key_says_stays_blank(path, front, key);
    }
}

/// A file that is accepted serves each of its collections, in order, and as its
/// own keys describe it.
pub proof fn each_table_becomes_a_store(
    path: Seq<char>,
    tables: Seq<Seq<(Seq<char>, Given)>>,
    k: int,
)
    requires
        stores_in(path, tables) is Ok,
        0 <= k < tables.len(),
    ensures
        stores_in(path, tables)->Ok_0.len() == tables.len(),
        store_of(path, tables[k]) == Ok::<Store, Fault>(stores_in(path, tables)->Ok_0[k]),
    decreases tables.len(),
{
    let front = tables.drop_last();
    if front.len() > 0 {
        each_table_becomes_a_store(path, front, 0);
    } else {
        assert(stores_in(path, front)->Ok_0.len() == 0);
    }
    if k < front.len() {
        each_table_becomes_a_store(path, front, k);
        assert(front[k] == tables[k]);
    }
}

/// Each variable of the environment sets its own part of the configuration, and
/// what is not set has its default: a base without a slash at its end, and a limit
/// and a ceiling that are counts.
pub proof fn each_variable_sets_its_own_part(e: Environment)
    requires
        setup_from(e) is Ok,
    ensures
        ({
            let s = setup_from(e)->Ok_0;
            &&& s.bind == (match e.bind {
                Some(b) => b@,
                None => "0.0.0.0:3000"@,
            })
            &&& e.base_url matches Some(b) ==> s.base_url == unslashed(b@)
            &&& e.base_url is None ==> s.base_url.len() == 0
            &&& s.collections.len() == 1
            &&& s.collections[0].id == (match e.collection_id {
                Some(id) => id@,
                None => "era5"@,
            })
            &&& e.location matches Some(l) ==> s.collections[0].location == l@
            &&& e.parameters is None ==> s.collections[0].parameters is None
            &&& e.parameters matches Some(raw) ==> s.collections[0].parameters == Some(
                text::solid(text::pieces(raw@, ',')),
            )
            &&& e.max_values is None ==> s.max_values == 5_000_000
            &&& e.max_values matches Some(raw) ==> text::count_of(text::trimmed(raw@)) == Some(
                s.max_values,
            )
            &&& e.default_limit is None ==> s.default_limit == 100_000
            &&& e.default_limit matches Some(raw) ==> text::count_of(text::trimmed(raw@)) == Some(
                s.default_limit,
            )
        }),
{
    reveal_strlit("");
    assert(""@.len() == 0);
}

/// The environment is refused exactly where a variable that is to hold a count is
/// set to something else.
pub proof fn the_environment_is_refused_for_its_counts(e: Environment)
    ensures
        setup_from(e) is Err <==> (e.max_values matches Some(raw) && text::count_of(
            text::trimmed(raw@),
        ) is None) || (e.default_limit matches Some(raw) && text::count_of(text::trimmed(raw@))
            is None),
{
}

/// A file is accepted exactly where its settings are, each of its collections is
/// and there is one; it then has the settings and the collections that it gives.
pub proof fn a_file_is_accepted_whole(
    path: Seq<char>,
    server: Seq<(Seq<char>, Given)>,
    tables: Seq<Seq<(Seq<char>, Given)>>,
)
    ensures
        setup_by(path, server, tables) is Ok <==> server_of(path, server) is Ok && stores_in(
            path,
            tables,
        ) is Ok && tables.len() > 0,
        setup_by(path, server, tables) matches Ok(s) ==> {
            &&& s.bind == server_of(path, server)->Ok_0.bind
            &&& s.base_url == server_of(path, server)->Ok_0.base_url
            &&& s.max_values == server_of(path, server)->Ok_0.max_values
            &&& s.default_limit == server_of(path, server)->Ok_0.default_limit
            &&& s.collections == stores_in(path, tables)->Ok_0
        },
{
    if stores_in(path, tables) is Ok && tables.len() > 0 {
        each_table_becomes_a_store(path, tables, 0);
    }
}

/// Collections are accepted together exactly where each is by itself and no two
/// share an id.
pub proof fn collections_are_accepted_if_their_ids_differ(
    path: Seq<char>,
    tables: Seq<Seq<(Seq<char>, Given)>>,
)
    ensures
        stores_in(path, tables) is Ok <==> (forall|i: int|
            0 <= i < tables.len() ==> store_of(path, #[trigger] tables[i]) is Ok) && (forall|
            i: int,
            j: int,
        |
            0 <= i < j < tables.len() ==> store_of(path, #[trigger] tables[i])->Ok_0.id != store_of(
                path,
                #[trigger] tables[j],
            )->Ok_0.id),
    decreases tables.len(),
{
    if tables.len() > 0 {
        let front = tables.drop_last();
        let n = front.len() as int;
        collections_are_accepted_if_their_ids_differ(path, front);
        assert(tables[n] == tables.last());
        assert forall|i: int| 0 <= i < n implies #[trigger] tables[i] == front[i] by {}
        if stores_in(path, tables) is Ok {
            stores_are_distinct(path, tables);
            let stores = stores_in(path, tables)->Ok_0;
            assert forall|i: int| 0 <= i < tables.len() implies store_of(
                path,
                #[trigger] tables[i],
            ) is Ok by {
                each_table_becomes_a_store(path, tables, i);
            }
            assert forall|i: int, j: int| 0 <= i < j < tables.len() implies store_of(
                path,
                #[trigger] tables[i],
            )->Ok_0.id != store_of(path, #[trigger] tables[j])->Ok_0.id by {
                each_table_becomes_a_store(path, tables, i);
                each_table_becomes_a_store(path, tables, j);
                assert(stores[i].id != stores[j].id);
            }
        }
        if (forall|i: int| 0 <= i < tables.len() ==> store_of(path, #[trigger] tables[i]) is Ok) && (
        forall|i: int, j: int|
            0 <= i < j < tables.len() ==> store_of(path, #[trigger] tables[i])->Ok_0.id != store_of(
                path,
                #[trigger] tables[j],
            )->Ok_0.id) {
            assert forall|i: int| 0 <= i < front.len() implies store_of(
                path,
                #[trigger] front[i],
            ) is Ok by {
                assert(store_of(path, tables[i]) is Ok);
            }
            assert forall|i: int, j: int| 0 <= i < j < front.len() implies store_of(
                path,
                #[trigger] front[i],
            )->Ok_0.id != store_of(path, #[trigger] front[j])->Ok_0.id by {
                assert(store_of(path, tables[i])->Ok_0.id != store_of(path, tables[j])->Ok_0.id);
            }
            let stores = stores_in(path, front)->Ok_0;
            let s = store_of(path, tables[n])->Ok_0;
            if has_id(stores, s.id) {
                let i = choose|i: int| 0 <= i < stores.len() && #[trigger] stores[i].id == s.id;
                if n > 0 {
                    each_table_becomes_a_store(path, front, 0);
                } else {
                    assert(stores.len() == 0);
                }
                each_table_becomes_a_store(path, front, i);
                assert(store_of(path, tables[i])->Ok_0.id != store_of(path, tables[n])->Ok_0.id);
            }
        }
    }
}

} // verus!
