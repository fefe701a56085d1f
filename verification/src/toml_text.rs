//! Configuration files as they are written: TOML, turned into settings.
use vstd::prelude::*;

use crate::config::{self, Config, ConfigFile, Environment, Given, Setting};
use crate::error::{EdrError, EdrResult, Fault};
use crate::json;
use crate::text::{self, same_text};

verus! {

/// A TOML document as JSON text, or what the parser objects to.
pub uninterp spec fn toml_json(text: Seq<char>) -> Result<Seq<char>, Seq<char>>;

/// `toml::from_str` into an object of JSON values, written as text, with the
/// error as its message. Both are functions of the text alone.
#[verifier::external_body]
fn read_toml(text: &str) -> (r: Result<String, String>)
    ensures
        match r {
            Ok(s) => toml_json(text@) == Ok::<Seq<char>, Seq<char>>(s@),
            Err(e) => toml_json(text@) == Err::<Seq<char>, Seq<char>>(e@),
        },
{
    match toml::from_str::<serde_json::Map<String, serde_json::Value>>(text) {
        Ok(m) => Ok(serde_json::Value::Object(m).to_string()),
        Err(e) => Err(e.to_string()),
    }
}

/// The strings that all of some values are; `None` where one is none.
pub open spec fn strings_in(items: Seq<Seq<char>>) -> Option<Seq<Seq<char>>>
    decreases items.len(),
{
    if items.len() == 0 {
        Some(Seq::empty())
    } else {
        match (strings_in(items.drop_last()), json::json_string(items.last())) {
            (Some(front), Some(s)) => Some(front.push(s)),
            _ => None,
        }
    }
}

proof fn strings_none(items: Seq<Seq<char>>, k: int)
    requires
        0 <= k <= items.len(),
        strings_in(items.take(k)) is None,
    ensures
        strings_in(items) is None,
    decreases items.len() - k,
{
    if k < items.len() {
        assert(items.take(k + 1).drop_last() =~= items.take(k));
        strings_none(items, k + 1);
    } else {
        assert(items.take(k) =~= items);
    }
}

/// The setting that a JSON value is.
pub open spec fn setting_in(raw: Seq<char>) -> Given {
    match json::json_string(raw) {
        Some(s) => Given::Text(s),
        None => match json::json_integer(raw) {
            Some(n) => Given::Integer(n),
            None => match json::json_items(raw) {
                Some(items) => match strings_in(items) {
                    Some(v) => Given::Texts(v),
                    None => Given::Other,
                },
                None => Given::Other,
            },
        },
    }
}

fn read_strings(items: &Vec<String>) -> (r: Option<Vec<String>>)
    ensures
        match r {
            Some(v) => strings_in(text::texts(items@)) == Some(text::texts(v@)),
            None => strings_in(text::texts(items@)) is None,
        },
{
    let ghost all = text::texts(items@);
    let mut out: Vec<String> = Vec::new();
    let mut i: usize = 0;
    assert(all.take(0) =~= Seq::<Seq<char>>::empty());
    assert(text::texts(out@) =~= Seq::<Seq<char>>::empty());
    while i < items.len()
        invariant
            i <= items@.len(),
            all == text::texts(items@),
            strings_in(all.take(i as int)) == Some(text::texts(out@)),
        decreases items@.len() - i,
    {
        let ghost before = text::texts(out@);
        proof {
            assert(all.take(i + 1).drop_last() =~= all.take(i as int));
            assert(all.take(i + 1).last() == items@[i as int]@);
        }
        match json::read_string(items[i].as_str()) {
            Some(s) => {
                out.push(s);
                assert(text::texts(out@) =~= before.push(s@));
            },
            None => {
                proof {
                    strings_none(all, i + 1);
                }
                return None;
            },
        }
        i += 1;
    }
    assert(all.take(i as int) =~= all);
    Some(out)
}

fn read_setting(raw: &str) -> (r: Setting)
    ensures
        r@ == setting_in(raw@),
{
    if let Some(s) = json::read_string(raw) {
        return Setting::Text(s);
    }
    if let Some(n) = json::read_integer(raw) {
        return Setting::Integer(n);
    }
    match json::read_items(raw) {
        Some(items) => match read_strings(&items) {
            Some(v) => Setting::Texts(v),
            None => Setting::Other,
        },
        None => Setting::Other,
    }
}

/// The settings that the members of an object are, without the array of
/// collections where `server` says so.
pub open spec fn settings_in(ms: Seq<(Seq<char>, Seq<char>)>, server: bool) -> Seq<
    (Seq<char>, Given),
>
    decreases ms.len(),
{
    if ms.len() == 0 {
        Seq::empty()
    } else if server && ms.last().0 == "collections"@ {
        settings_in(ms.drop_last(), server)
    } else {
        settings_in(ms.drop_last(), server).push((ms.last().0, setting_in(ms.last().1)))
    }
}

fn read_settings(ms: &Vec<(String, String)>, server: bool) -> (r: Vec<(String, Setting)>)
    ensures
        config::entries_of(r@) == settings_in(json::members_of(ms@), server),
{
    let ghost all = json::members_of(ms@);
    let mut out: Vec<(String, Setting)> = Vec::new();
    let mut i: usize = 0;
    assert(config::entries_of(out@) =~= settings_in(all.take(0), server));
    while i < ms.len()
        invariant
            i <= ms@.len(),
            all == json::members_of(ms@),
            config::entries_of(out@) == settings_in(all.take(i as int), server),
        decreases ms@.len() - i,
    {
        let ghost before = config::entries_of(out@);
        let key = ms[i].0.as_str();
        proof {
            assert(all.take(i + 1).drop_last() =~= all.take(i as int));
            assert(all.take(i + 1).last() == (key@, ms@[i as int].1@));
        }
        if !(server && same_text(key, "collections")) {
            let value = read_setting(ms[i].1.as_str());
            let ghost held = (key@, value@);
            out.push((ms[i].0.clone(), value));
            assert(config::entries_of(out@) =~= before.push(held));
        }
        i += 1;
    }
    assert(all.take(i as int) =~= all);
    out
}

/// The settings of each collection, or that one is no table.
pub open spec fn tables_in(path: Seq<char>, items: Seq<Seq<char>>) -> Result<
    Seq<Seq<(Seq<char>, Given)>>,
    Fault,
>
    decreases items.len(),
{
    if items.len() == 0 {
        Ok(Seq::empty())
    } else {
        match tables_in(path, items.drop_last()) {
            Err(e) => Err(e),
            Ok(front) => match json::json_members(items.last()) {
                Some(ms) => Ok(front.push(settings_in(ms, false))),
                None => Err(config::wrong_type(path, "collections"@)),
            },
        }
    }
}

proof fn tables_err(path: Seq<char>, items: Seq<Seq<char>>, k: int)
    requires
        0 <= k <= items.len(),
        tables_in(path, items.take(k)) is Err,
    ensures
        tables_in(path, items) == tables_in(path, items.take(k)),
    decreases items.len() - k,
{
    if k < items.len() {
        assert(items.take(k + 1).drop_last() =~= items.take(k));
        tables_err(path, items, k + 1);
    } else {
        assert(items.take(k) =~= items);
    }
}

fn read_tables(path: &str, items: &Vec<String>) -> (r: EdrResult<Vec<Vec<(String, Setting)>>>)
    ensures
        match r {
            Ok(v) => tables_in(path@, text::texts(items@)) == Ok::<
                Seq<Seq<(Seq<char>, Given)>>,
                Fault,
            >(config::tables_of(v@)),
            Err(e) => tables_in(path@, text::texts(items@)) == Err::<
                Seq<Seq<(Seq<char>, Given)>>,
                Fault,
            >(e@),
        },
{
    let ghost all = text::texts(items@);
    let mut out: Vec<Vec<(String, Setting)>> = Vec::new();
    let mut i: usize = 0;
    assert(all.take(0) =~= Seq::<Seq<char>>::empty());
    assert(config::tables_of(out@) =~= Seq::<Seq<(Seq<char>, Given)>>::empty());
    while i < items.len()
        invariant
            i <= items@.len(),
            all == text::texts(items@),
            tables_in(path@, all.take(i as int)) == Ok::<Seq<Seq<(Seq<char>, Given)>>, Fault>(
                config::tables_of(out@),
            ),
        decreases items@.len() - i,
    {
        let ghost before = config::tables_of(out@);
        proof {
            assert(all.take(i + 1).drop_last() =~= all.take(i as int));
            assert(all.take(i + 1).last() == items@[i as int]@);
        }
        match json::read_members(items[i].as_str()) {
            Some(ms) => {
                let table = read_settings(&ms, false);
                let ghost held = config::entries_of(table@);
                out.push(table);
                assert(config::tables_of(out@) =~= before.push(held));
            },
            None => {
                proof {
                    tables_err(path@, all, i + 1);
                }
                return Err(config::mistyped(path, "collections"));
            },
        }
        i += 1;
    }
    assert(all.take(i as int) =~= all);
    Ok(out)
}

/// What a configuration file is refused for before its settings are looked at.
pub open spec fn malformed(path: Seq<char>, why: Seq<char>) -> Fault {
    Fault::Internal("invalid config "@ + path + ": "@ + why)
}

fn refuse(path: &str, why: &str) -> (r: EdrError)
    ensures
        r@ == malformed(path@, why@),
{
    let mut m: String = "invalid config ".to_owned();
    m.append(path);
    m.append(": ");
    m.append(why);
    EdrError::Internal(m)
}

/// What a configuration file that cannot be read is refused for.
pub open spec fn unread(path: Seq<char>, why: Seq<char>) -> Fault {
    Fault::Internal("cannot read config "@ + path + ": "@ + why)
}

/// The error for a configuration file that cannot be read.
pub fn unreadable(path: &str, why: &str) -> (r: EdrError)
    ensures
        r@ == unread(path@, why@),
{
    let mut m: String = "cannot read config ".to_owned();
    m.append(path);
    m.append(": ");
    m.append(why);
    EdrError::Internal(m)
}

/// The settings of a document: the server's, and each collection's.
pub open spec fn document_in(path: Seq<char>, document: Seq<char>) -> Result<
    (Seq<(Seq<char>, Given)>, Seq<Seq<(Seq<char>, Given)>>),
    Fault,
> {
    match json::json_members(document) {
        None => Err(malformed(path, "not a table"@)),
        Some(ms) => {
            let server = settings_in(ms, true);
            match crate::store::member(ms, "collections"@) {
                None => Ok((server, Seq::empty())),
                Some(raw) => match json::json_items(raw) {
                    None => Err(config::wrong_type(path, "collections"@)),
                    Some(items) => match tables_in(path, items) {
                        Err(e) => Err(e),
                        Ok(tables) => Ok((server, tables)),
                    },
                },
            }
        },
    }
}

/// Lay out the settings of a document, given as JSON text.
pub fn read_document(path: &str, document: &str) -> (r: EdrResult<ConfigFile>)
    ensures
        match r {
            Ok(f) => f.path@ == path@ && document_in(path@, document@) == Ok::<
                (Seq<(Seq<char>, Given)>, Seq<Seq<(Seq<char>, Given)>>),
                Fault,
            >((config::entries_of(f.server@), config::tables_of(f.collections@))),
            Err(e) => document_in(path@, document@) == Err::<
                (Seq<(Seq<char>, Given)>, Seq<Seq<(Seq<char>, Given)>>),
                Fault,
            >(e@),
        },
{
    let ms = match json::read_members(document) {
        Some(ms) => ms,
        None => {
            return Err(refuse(path, "not a table"));
        },
    };
    let server = read_settings(&ms, true);
    let collections = match crate::store::find_member(&ms, "collections") {
        None => {
            let none: Vec<Vec<(String, Setting)>> = Vec::new();
            assert(config::tables_of(none@) =~= Seq::<Seq<(Seq<char>, Given)>>::empty());
            none
        },
        Some(raw) => match json::read_items(raw.as_str()) {
            None => {
                return Err(config::mistyped(path, "collections"));
            },
            Some(items) => match read_tables(path, &items) {
                Ok(tables) => tables,
                Err(e) => {
                    return Err(e);
                },
            },
        },
    };
    Ok(ConfigFile { path: path.to_owned(), server, collections })
}

/// The configuration that a TOML text gives.
pub open spec fn setup_from(path: Seq<char>, source: Seq<char>) -> Result<config::Setup, Fault> {
    match toml_json(source) {
        Err(e) => Err(malformed(path, e)),
        Ok(document) => match document_in(path, document) {
            Err(e) => Err(e),
            Ok((server, tables)) => config::setup_by(path, server, tables),
        },
    }
}

/// Read the configuration in the text of the file at `path`.
pub fn from_toml(path: &str, source: &str) -> (r: EdrResult<Config>)
    ensures
        config::setup_of(r) == setup_from(path@, source@),
{
    match read_toml(source) {
        Err(e) => Err(refuse(path, e.as_str())),
        Ok(document) => match read_document(path, document.as_str()) {
            Ok(f) => Config::from_file(&f),
            Err(e) => Err(e),
        },
    }
}

/// A configuration file that is named: its path, and its text or why it cannot be
/// read.
#[derive(Debug)]
pub struct NamedFile {
    pub path: String,
    pub text: Result<String, String>,
}

/// The configuration that is in force: that of a file where one is named, and
/// otherwise that of the environment.
pub open spec fn setup_in_force(file: Option<NamedFile>, e: Environment) -> Result<
    config::Setup,
    Fault,
> {
    match file {
        Some(f) => match f.text {
            Ok(source) => setup_from(f.path@, source@),
            Err(why) => Err(unread(f.path@, why@)),
        },
        None => config::setup_from(e),
    }
}

/// Settle the configuration: a file that is named settles it, and everything else
/// in the environment is then ignored.
pub fn configuration(file: Option<NamedFile>, e: Environment) -> (r: EdrResult<Config>)
    ensures
        config::setup_of(r) == setup_in_force(file, e),
{
    match file {
        Some(f) => match f.text {
            Ok(source) => from_toml(f.path.as_str(), source.as_str()),
            Err(why) => Err(unreadable(f.path.as_str(), why.as_str())),
        },
        None => Config::from_env(e),
    }
}

/// Where a file is named, the configuration depends on nothing else.
pub proof fn a_named_file_settles_the_configuration(f: NamedFile, a: Environment, b: Environment)
    ensures
        setup_in_force(Some(f), a) == setup_in_force(Some(f), b),
{
}

/// A list of values is a list of strings exactly where every value is one, and then
/// holds them in order.
pub proof fn a_list_is_one_of_strings_if_each_value_is(items: Seq<Seq<char>>)
    ensures
        match strings_in(items) {
            Some(v) => v.len() == items.len() && forall|i: int|
                0 <= i < items.len() ==> json::json_string(#[trigger] items[i]) == Some(v[i]),
            None => exists|i: int|
                0 <= i < items.len() && json::json_string(#[trigger] items[i]) is None,
        },
    decreases items.len(),
{
    if items.len() > 0 {
        let front = items.drop_last();
        let n = front.len() as int;
        a_list_is_one_of_strings_if_each_value_is(front);
        assert(items[n] == items.last());
        match strings_in(items) {
            Some(v) => {
                assert forall|i: int| 0 <= i < items.len() implies json::json_string(
                    #[trigger] items[i],
                ) == Some(v[i]) by {
                    if i < n {
                        assert(front[i] == items[i]);
                    }
                }
            },
            None => {
                if strings_in(front) is None {
                    let i = choose|i: int|
                        0 <= i < front.len() && json::json_string(#[trigger] front[i]) is None;
                    assert(items[i] == front[i]);
                } else {
                    assert(json::json_string(items[n]) is None);
                }
            },
        }
    }
}

/// The settings of a collection are all of its members, in order, each under its own
/// name.
pub proof fn a_collection_has_all_of_its_settings(ms: Seq<(Seq<char>, Seq<char>)>)
    ensures
        settings_in(ms, false).len() == ms.len(),
        forall|i: int|
            0 <= i < ms.len() ==> #[trigger] settings_in(ms, false)[i] == (
                ms[i].0,
                setting_in(ms[i].1),
            ),
    decreases ms.len(),
{
    if ms.len() > 0 {
        let front = ms.drop_last();
        a_collection_has_all_of_its_settings(front);
        assert forall|i: int| 0 <= i < ms.len() implies #[trigger] settings_in(ms, false)[i] == (
            ms[i].0,
            setting_in(ms[i].1),
        ) by {
            if i < front.len() {
                assert(settings_in(ms, false)[i] == settings_in(front, false)[i]);
                assert(front[i] == ms[i]);
            }
        }
    }
}

/// The settings of the server are those of the members that are not the collections,
/// in order.
pub proof fn the_server_has_the_other_settings(ms: Seq<(Seq<char>, Seq<char>)>)
    ensures
        settings_in(ms, true) == settings_in(
            ms.filter(|m: (Seq<char>, Seq<char>)| m.0 != "collections"@),
            false,
        ),
    decreases ms.len(),
{
    reveal(Seq::filter);
    let other = |m: (Seq<char>, Seq<char>)| m.0 != "collections"@;
    if ms.len() > 0 {
        let front = ms.drop_last();
        the_server_has_the_other_settings(front);
        if other(ms.last()) {
            let kept = front.filter(other).push(ms.last());
            assert(ms.filter(other) == kept);
            assert(kept.drop_last() =~= front.filter(other));
        }
    } else {
        assert(ms.filter(other) =~= ms);
        assert(settings_in(ms, true) =~= settings_in(ms, false));
    }
}

/// The tables of a file are those of its items, in order, each with the settings of
/// its own members.
pub proof fn each_item_becomes_a_table(path: Seq<char>, items: Seq<Seq<char>>, k: int)
    requires
        tables_in(path, items) is Ok,
        0 <= k < items.len(),
    ensures
        tables_in(path, items)->Ok_0.len() == items.len(),
        json::json_members(items[k]) matches Some(ms) && tables_in(path, items)->Ok_0[k]
            == settings_in(ms, false),
    decreases items.len(),
{
    let front = items.drop_last();
    if front.len() > 0 {
        each_item_becomes_a_table(path, front, 0);
    } else {
        assert(tables_in(path, front)->Ok_0.len() == 0);
    }
    if k < front.len() {
        each_item_becomes_a_table(path, front, k);
        assert(front[k] == items[k]);
    }
}

/// Without a named file the environment settles the configuration; a named file
/// that cannot be read is an error, and not passed over.
pub proof fn a_file_that_cannot_be_read_is_not_passed_over(f: NamedFile, e: Environment)
    ensures
        setup_in_force(None, e) == config::setup_from(e),
        f.text is Err ==> setup_in_force(Some(f), e) is Err,
        f.text matches Ok(source) ==> setup_in_force(Some(f), e) == setup_from(f.path@, source@),
{
}

/// A value is taken as a text where it is a string, as a number where it is an
/// integer, and as a list where it is one of strings.
pub proof fn a_setting_is_of_the_kind_of_its_value(raw: Seq<char>)
    ensures
        json::json_string(raw) matches Some(s) ==> setting_in(raw) == Given::Text(s),
        json::json_string(raw) is None ==> (json::json_integer(raw) matches Some(n) ==> setting_in(
            raw,
        ) == Given::Integer(n)),
        json::json_string(raw) is None && json::json_integer(raw) is None ==> (
        json::json_items(raw) matches Some(items) ==> (strings_in(items) matches Some(v)
            ==> setting_in(raw) == Given::Texts(v))),
{
}

} // verus!
