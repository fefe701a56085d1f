//! What the pages show: links, form values, and tables.
use vstd::prelude::*;

use crate::api::{self, AppState};
use crate::catalog::{self, Collection, Parameter};
use crate::clock;
use crate::double::Double;
use crate::edr::params::{self, parse_instant, Query};
use crate::edr::query::{self, format_time, DataRequest};
use crate::edr::region::QueryKind;
use crate::edr::result::{self, ResultRow, ResultSet, Row};
use crate::text::{
    self, chars_of, decimal, join, same_text, split, split_once, starts_with, string_of, trim,
};

verus! {

pub const OFFSET: u64 = 0xcbf2_9ce4_8422_2325;

pub const PRIME: u64 = 0x0000_0100_0000_01b3;

/// FNV-1a of some bytes.
pub open spec fn fnv(bytes: Seq<u8>) -> u64
    decreases bytes.len(),
{
    if bytes.len() == 0 {
        OFFSET
    } else {
        ((fnv(bytes.drop_last()) ^ (bytes.last() as u64)) * PRIME % 0x1_0000_0000_0000_0000) as u64
    }
}

/// FNV-1a. Not a security hash: it only has to change when the input does.
pub fn fingerprint(text: &str) -> (r: u64)
    ensures
        r == fnv(vstd::utf8::encode_utf8(text@)),
{
    let bytes = text.as_bytes();
    let mut hash: u64 = OFFSET;
    let mut i: usize = 0;
    while i < bytes.len()
        invariant
            i <= bytes@.len(),
            hash == fnv(bytes@.take(i as int)),
        decreases bytes@.len() - i,
    {
        let ghost before = hash;
        hash = hash ^ (bytes[i] as u64);
        hash = hash.wrapping_mul(PRIME);
        assert(bytes@.take(i + 1).drop_last() =~= bytes@.take(i as int));
        i += 1;
    }
    assert(bytes@.take(i as int) =~= bytes@);
    hash
}

pub open spec fn hex_char(n: nat) -> char {
    if n % 16 < 10 {
        (48 + n % 16) as char
    } else {
        (87 + n % 16) as char
    }
}

/// The last `k` hexadecimal digits of a number.
pub open spec fn hex(n: nat, k: nat) -> Seq<char>
    decreases k,
{
    if k == 0 {
        Seq::empty()
    } else {
        hex(n / 16, (k - 1) as nat).push(hex_char(n))
    }
}

fn hex_digits(n: u64, k: usize) -> (r: String)
    ensures
        r@ == hex(n as nat, k as nat),
    decreases k,
{
    if k == 0 {
        let r = String::new();
        assert(r@ =~= hex(n as nat, 0));
        return r;
    }
    let d: u8 = (n % 16) as u8;
    let c: char = if d < 10 {
        (48 + d) as char
    } else {
        (87 + d) as char
    };
    let mut out: String = hex_digits(n / 16, k - 1);
    out.push(c);
    out
}

/// Path the stylesheet is served from, fingerprinted with a hash of its own
/// content.
///
/// The response is cached hard, so the URL has to change whenever the bytes do;
/// otherwise an edit stays invisible behind a year-long cache entry.
pub fn stylesheet_path(stylesheet: &str) -> (r: String)
    ensures
        r@ == "/static/style."@ + hex(fnv(vstd::utf8::encode_utf8(stylesheet@)) as nat, 16) + ".css"@,
{
    let mut out: String = "/static/style.".to_owned();
    out.append(hex_digits(fingerprint(stylesheet), 16).as_str());
    out.append(".css");
    out
}

/// One breadcrumb entry: a label, and the href to link it to unless it is the
/// current page.
#[derive(Debug)]
pub struct Crumb {
    pub label: String,
    pub href: Option<String>,
}

impl View for Crumb {
    type V = (Seq<char>, Option<Seq<char>>);

    open spec fn view(&self) -> (Seq<char>, Option<Seq<char>>) {
        (self.label@, params::text_of(self.href))
    }
}

impl Crumb {
    pub fn link(label: &str, href: &str) -> (r: Crumb)
        ensures
            r@ == (label@, Some(href@)),
    {
        Crumb { label: label.to_owned(), href: Some(href.to_owned()) }
    }

    pub fn current(label: &str) -> (r: Crumb)
        ensures
            r@ == (label@, None::<Seq<char>>),
    {
        Crumb { label: label.to_owned(), href: None }
    }
}

/// An instant as a `datetime-local` input wants it; nothing where it cannot be
/// written.
pub open spec fn picker_text(micros: i64) -> Seq<char> {
    match clock::written_micros(micros, clock::picker_format()) {
        Some(s) => s,
        None => Seq::empty(),
    }
}

/// An instant as a `datetime-local` input wants it: `YYYY-MM-DDTHH:MM`, no
/// zone marker. The field is documented as UTC, which is what the store uses.
pub fn picker_time(micros: i64) -> (r: String)
    ensures
        r@ == picker_text(micros),
{
    match clock::write_micros(micros, "%Y-%m-%dT%H:%M") {
        Some(s) => s,
        None => String::new(),
    }
}

/// What a picker shows of one end of a time that was asked for, given how it is
/// written where it is an instant. A full timestamp lands in a field that only
/// accepts minutes; anything that is no instant is handed back for correction.
pub open spec fn picker_shown(raw: Seq<char>, written: Option<Seq<char>>) -> Seq<char> {
    let t = text::trimmed(raw);
    if t.len() == 0 || t == ".."@ {
        Seq::empty()
    } else {
        match written {
            Some(s) => s,
            None => t,
        }
    }
}

/// Settle what a picker shows of one end of a time.
pub fn settle_picker(raw: &str, written: Option<String>) -> (r: String)
    ensures
        r@ == picker_shown(raw@, params::text_of(written)),
{
    let chars = chars_of(raw);
    let t = trim(chars.as_slice());
    if t.len() == 0 || text::spells(t, "..") {
        return String::new();
    }
    match written {
        Some(s) => s,
        None => string_of(t),
    }
}

/// What a picker shows of one end of a time that was asked for.
pub open spec fn picker_value(raw: Seq<char>) -> Seq<char> {
    picker_shown(
        raw,
        match params::instant(raw) {
            Ok(micros) => Some(picker_text(micros)),
            Err(_) => None,
        },
    )
}

fn as_picker(raw: &[char]) -> (r: String)
    ensures
        r@ == picker_value(raw@),
{
    let s = string_of(raw);
    let written = match parse_instant(s.as_str()) {
        Ok(micros) => Some(picker_time(micros)),
        Err(_) => None,
    };
    settle_picker(s.as_str(), written)
}

/// What a query holds under a key, or nothing.
pub open spec fn value_or_empty(q: Seq<(Seq<char>, Seq<char>)>, key: Seq<char>) -> Seq<char> {
    match params::value(q, key) {
        Some(s) => s,
        None => Seq::empty(),
    }
}

/// What a query holds under a key, as a form field shows it.
pub fn field_value(values: &Query, key: &str) -> (r: String)
    ensures
        r@ == value_or_empty(values@, key@),
{
    match values.get(key) {
        Some(s) => s,
        None => String::new(),
    }
}

/// The two picker values of a request.
pub open spec fn picker_values(q: Seq<(Seq<char>, Seq<char>)>) -> (Seq<char>, Seq<char>) {
    match params::value(q, "datetime"@) {
        Some(raw) => match text::parted(raw, '/') {
            Some((from, to)) => (picker_value(from), picker_value(to)),
            None => (picker_value(raw), picker_value(raw)),
        },
        None => (
            picker_value(value_or_empty(q, "datetime-from"@)),
            picker_value(value_or_empty(q, "datetime-to"@)),
        ),
    }
}

/// The two picker values, from whichever spelling the request carried.
///
/// A link built for the API says `datetime=start/end`, and the form says
/// `datetime-from`/`datetime-to`; arriving by either route must fill the same
/// two boxes.
pub fn datetime_bounds(values: &Query) -> (r: (String, String))
    ensures
        (r.0@, r.1@) == picker_values(values@),
{
    if let Some(raw) = values.get("datetime") {
        let chars = chars_of(raw.as_str());
        return match split_once(chars.as_slice(), '/') {
            Some((from, to)) => (as_picker(from), as_picker(to)),
            None => (as_picker(chars.as_slice()), as_picker(chars.as_slice())),
        };
    }
    let from = chars_of(field_value(values, "datetime-from").as_str());
    let to = chars_of(field_value(values, "datetime-to").as_str());
    (as_picker(from.as_slice()), as_picker(to.as_slice()))
}

/// Parameter names already chosen, so the form comes back filled in. Resolved
/// exactly as the query resolves them, so what is ticked is what was asked for.
pub fn selected_parameters(values: &Query) -> (r: Vec<String>)
    ensures
        text::texts(r@) == params::named_parameters(values@),
{
    match values.parameter_names() {
        Some(names) => names,
        None => {
            let none: Vec<String> = Vec::new();
            assert(text::texts(none@) =~= params::named_parameters(values@));
            none
        },
    }
}

/// The key of a part of a query string, and its value: nothing where the part
/// has no `=`.
pub open spec fn key_of(part: Seq<char>) -> Seq<char> {
    match text::parted(part, '=') {
        Some((key, _)) => key,
        None => part,
    }
}

pub open spec fn value_of(part: Seq<char>) -> Seq<char> {
    match text::parted(part, '=') {
        Some((_, value)) => value,
        None => Seq::empty(),
    }
}

/// Whether a part is passed on: neither the format nor one of the form's own
/// pickers.
pub open spec fn passed_on(part: Seq<char>) -> bool {
    part.len() > 0 && key_of(part) != "f"@ && key_of(part) != "datetime-from"@ && key_of(part)
        != "datetime-to"@
}

/// The parts that are passed on.
pub open spec fn kept(parts: Seq<Seq<char>>) -> Seq<Seq<char>>
    decreases parts.len(),
{
    if parts.len() == 0 {
        Seq::empty()
    } else if passed_on(parts.last()) {
        kept(parts.drop_last()).push(parts.last())
    } else {
        kept(parts.drop_last())
    }
}

/// The value of the last part with a key; nothing where there is none.
pub open spec fn last_value(parts: Seq<Seq<char>>, key: Seq<char>) -> Seq<char>
    decreases parts.len(),
{
    if parts.len() == 0 {
        Seq::empty()
    } else if parts.last().len() > 0 && key_of(parts.last()) == key {
        value_of(parts.last())
    } else {
        last_value(parts.drop_last(), key)
    }
}

/// An end of an interval in a query string.
pub open spec fn open_end(value: Seq<char>) -> Seq<char> {
    if value.len() == 0 {
        ".."@
    } else {
        value
    }
}

/// Whether one of the parts is a time as EDR spells it.
pub open spec fn timed(parts: Seq<Seq<char>>) -> bool {
    exists|i: int| 0 <= i < parts.len() && text::begins(#[trigger] parts[i], "datetime="@)
}

/// The parts of a query string with the form's two pickers as EDR's one
/// `datetime`. An empty picker counts as absent, and a time that EDR's spelling
/// gives already stands.
pub open spec fn respelled(parts: Seq<Seq<char>>) -> Seq<Seq<char>> {
    let (from, to) = (last_value(parts, "datetime-from"@), last_value(parts, "datetime-to"@));
    if timed(kept(parts)) || (from.len() == 0 && to.len() == 0) {
        kept(parts)
    } else {
        kept(parts).push("datetime="@ + open_end(from) + "/"@ + open_end(to))
    }
}

/// The parts of a query string that asks for `format`.
pub open spec fn reformatted(parts: Seq<Seq<char>>, format: Seq<char>) -> Seq<Seq<char>> {
    respelled(parts).push("f="@ + format)
}

fn is_timed(parts: &Vec<String>) -> (r: bool)
    ensures
        r == timed(text::texts(parts@)),
{
    let ghost all = text::texts(parts@);
    let mut i: usize = 0;
    while i < parts.len()
        invariant
            i <= parts@.len(),
            all == text::texts(parts@),
            forall|k: int| 0 <= k < i ==> !text::begins(#[trigger] all[k], "datetime="@),
        decreases parts@.len() - i,
    {
        let chars = chars_of(parts[i].as_str());
        if starts_with(chars.as_slice(), "datetime=") {
            assert(text::begins(all[i as int], "datetime="@));
            return true;
        }
        i += 1;
    }
    false
}

/// Swap the `f` parameter of an already-encoded query string, and put the
/// form's paired time pickers back into EDR's single `datetime`.
///
/// The links out of a result page are the request in another format, so they
/// have to be a request any EDR client would accept: `datetime-from` is this
/// form's spelling, not the standard's.
pub fn with_format(query_string: &str, format: &str) -> (r: String)
    ensures
        r@ == text::joined(reformatted(text::pieces(query_string@, '&'), format@), "&"@),
{
    let chars = chars_of(query_string);
    let parts = split(chars.as_slice(), '&');
    let ghost all = text::views(parts@);
    let mut out: Vec<String> = Vec::new();
    let mut from: Vec<char> = Vec::new();
    let mut to: Vec<char> = Vec::new();
    let mut i: usize = 0;
    assert(text::texts(out@) =~= kept(all.take(0)));
    assert(from@ =~= last_value(all.take(0), "datetime-from"@));
    assert(to@ =~= last_value(all.take(0), "datetime-to"@));
    while i < parts.len()
        invariant
            i <= parts@.len(),
            all == text::views(parts@),
            text::texts(out@) == kept(all.take(i as int)),
            from@ == last_value(all.take(i as int), "datetime-from"@),
            to@ == last_value(all.take(i as int), "datetime-to"@),
        decreases parts@.len() - i,
    {
        let part = parts[i].as_slice();
        let ghost before = text::texts(out@);
        proof {
            distinct_keys();
            assert(all.take(i + 1).drop_last() =~= all.take(i as int));
            assert(all.take(i + 1).last() == part@);
        }
        if part.len() > 0 {
            let (key, value): (&[char], Vec<char>) = match split_once(part, '=') {
                Some((k, v)) => (k, text::copied(v)),
                None => (part, Vec::new()),
            };
            assert(value@ =~= value_of(part@));
            if text::spells(key, "datetime-from") {
                from = value;
            } else if text::spells(key, "datetime-to") {
                to = value;
            } else if !text::spells(key, "f") {
                out.push(string_of(part));
                assert(text::texts(out@) =~= before.push(part@));
            }
        }
        i += 1;
    }
    assert(all.take(i as int) =~= all);
    let explicit = is_timed(&out);
    let ghost before = text::texts(out@);
    if !explicit && (from.len() > 0 || to.len() > 0) {
        let mut composed: String = "datetime=".to_owned();
        if from.len() > 0 {
            composed.append(string_of(from.as_slice()).as_str());
        } else {
            composed.append("..");
        }
        composed.append("/");
        if to.len() > 0 {
            composed.append(string_of(to.as_slice()).as_str());
        } else {
            composed.append("..");
        }
        out.push(composed);
        assert(text::texts(out@) =~= before.push(composed@));
    }
    let ghost time = text::texts(out@);
    let mut last: String = "f=".to_owned();
    last.append(format);
    out.push(last);
    assert(text::texts(out@) =~= time.push(last@));
    join(&out, "&")
}

/// The keys with a meaning of their own differ.
proof fn distinct_keys()
    ensures
        "f"@ != "datetime-from"@,
        "f"@ != "datetime-to"@,
        "datetime-from"@ != "datetime-to"@,
{
    reveal_strlit("f");
    reveal_strlit("datetime-from");
    reveal_strlit("datetime-to");
    assert("f"@.len() != "datetime-from"@.len());
    assert("f"@.len() != "datetime-to"@.len());
    assert("datetime-from"@.len() != "datetime-to"@.len());
}

proof fn kept_are_passed_on(parts: Seq<Seq<char>>)
    ensures
        forall|i: int| 0 <= i < kept(parts).len() ==> passed_on(#[trigger] kept(parts)[i]),
        forall|i: int|
            0 <= i < kept(parts).len() ==> parts.contains(#[trigger] kept(parts)[i]),
    decreases parts.len(),
{
    if parts.len() > 0 {
        let front = parts.drop_last();
        kept_are_passed_on(front);
        assert forall|i: int| 0 <= i < kept(parts).len() implies passed_on(
            #[trigger] kept(parts)[i],
        ) && parts.contains(kept(parts)[i]) by {
            if i < kept(front).len() {
                assert(kept(parts)[i] == kept(front)[i]);
                let j = choose|j: int| 0 <= j < front.len() && front[j] == kept(front)[i];
                assert(parts[j] == kept(parts)[i]);
            } else {
                assert(parts[parts.len() - 1] == kept(parts)[i]);
            }
        }
    }
}

proof fn kept_of_push(parts: Seq<Seq<char>>, part: Seq<char>)
    ensures
        kept(parts.push(part)) == (if passed_on(part) {
            kept(parts).push(part)
        } else {
            kept(parts)
        }),
{
    assert(parts.push(part).drop_last() =~= parts);
}

/// Parts that are all passed on are kept as they are, and hold no picker.
proof fn kept_again(parts: Seq<Seq<char>>)
    requires
        forall|i: int| 0 <= i < parts.len() ==> passed_on(#[trigger] parts[i]),
    ensures
        kept(parts) == parts,
        last_value(parts, "datetime-from"@).len() == 0,
        last_value(parts, "datetime-to"@).len() == 0,
    decreases parts.len(),
{
    if parts.len() > 0 {
        let front = parts.drop_last();
        assert forall|i: int| 0 <= i < front.len() implies passed_on(#[trigger] front[i]) by {
            assert(front[i] == parts[i]);
        }
        kept_again(front);
        assert(passed_on(parts[parts.len() - 1]));
        assert(front.push(parts.last()) =~= parts);
    } else {
        assert(kept(parts) =~= parts);
    }
}

/// A part that is made of a key, `=` and a value has that key.
proof fn key_of_made(key: Seq<char>, value: Seq<char>)
    requires
        text::free_of(key, '='),
    ensures
        key_of(key.push('=') + value) == key,
{
    let part = key.push('=') + value;
    text::first_at_unique(part, '=', key.len() as int);
    assert(part.take(key.len() as int) =~= key);
}

proof fn last_value_is_apart(parts: Seq<Seq<char>>, key: Seq<char>)
    requires
        forall|i: int| 0 <= i < parts.len() ==> text::free_of(#[trigger] parts[i], '&'),
    ensures
        text::free_of(last_value(parts, key), '&'),
    decreases parts.len(),
{
    if parts.len() > 0 {
        let front = parts.drop_last();
        assert forall|i: int| 0 <= i < front.len() implies text::free_of(
            #[trigger] front[i],
            '&',
        ) by {
            assert(front[i] == parts[i]);
        }
        last_value_is_apart(front, key);
        let part = parts.last();
        assert(text::free_of(parts[parts.len() - 1], '&'));
        text::first_at_is_first(part, '=');
        let at = text::first_at(part, '=') as int;
        if at < part.len() {
            let value = part.skip(at + 1);
            assert forall|k: int| 0 <= k < value.len() implies #[trigger] value[k] != '&' by {
                assert(value[k] == part[at + 1 + k]);
            }
        }
    }
}

/// What the respelled parts of a query string are: each is passed on, and none
/// holds a separator.
proof fn respelled_parts(parts: Seq<Seq<char>>)
    requires
        forall|i: int| 0 <= i < parts.len() ==> text::free_of(#[trigger] parts[i], '&'),
    ensures
        forall|i: int|
            0 <= i < respelled(parts).len() ==> passed_on(#[trigger] respelled(parts)[i])
                && text::free_of(respelled(parts)[i], '&'),
{
    let (from, to) = (last_value(parts, "datetime-from"@), last_value(parts, "datetime-to"@));
    last_value_is_apart(parts, "datetime-from"@);
    last_value_is_apart(parts, "datetime-to"@);
    kept_are_passed_on(parts);
    let made = "datetime="@ + open_end(from) + "/"@ + open_end(to);
    reveal_strlit("datetime=");
    reveal_strlit("datetime");
    reveal_strlit("datetime-from");
    reveal_strlit("datetime-to");
    reveal_strlit("f");
    reveal_strlit("/");
    reveal_strlit("..");
    assert(made =~= "datetime"@.push('=') + (open_end(from) + "/"@ + open_end(to)));
    key_of_made("datetime"@, open_end(from) + "/"@ + open_end(to));
    assert("datetime"@.len() != "f"@.len());
    assert("datetime"@.len() != "datetime-from"@.len());
    assert("datetime"@.len() != "datetime-to"@.len());
    assert(passed_on(made));
    assert(text::free_of(made, '&'));
    assert forall|i: int| 0 <= i < respelled(parts).len() implies passed_on(
        #[trigger] respelled(parts)[i],
    ) && text::free_of(respelled(parts)[i], '&') by {
        if i < kept(parts).len() {
            assert(respelled(parts)[i] == kept(parts)[i]);
            let j = choose|j: int| 0 <= j < parts.len() && parts[j] == kept(parts)[i];
            assert(text::free_of(parts[j], '&'));
        } else {
            assert(respelled(parts)[i] == made);
        }
    }
}

/// A link out of a result is a request any EDR client would accept: split at its
/// separators it gives no part in the form's own spelling, and one format, which
/// comes last.
pub proof fn a_link_is_a_plain_request(query: Seq<char>, format: Seq<char>)
    requires
        text::free_of(format, '&'),
    ensures
        ({
            let link = text::joined(reformatted(text::pieces(query, '&'), format), "&"@);
            let parts = text::pieces(link, '&');
            &&& parts.last() == "f="@ + format
            &&& forall|i: int|
                0 <= i < parts.len() - 1 ==> key_of(#[trigger] parts[i]) != "f"@ && key_of(parts[i])
                    != "datetime-from"@ && key_of(parts[i]) != "datetime-to"@
        }),
{
    let own = text::pieces(query, '&');
    text::pieces_are_apart(query, '&');
    respelled_parts(own);
    let out = reformatted(own, format);
    reveal_strlit("&");
    reveal_strlit("f=");
    assert("&"@ =~= seq!['&']);
    assert forall|i: int| 0 <= i < out.len() implies text::free_of(#[trigger] out[i], '&') by {
        if i < respelled(own).len() {
            assert(out[i] == respelled(own)[i]);
        }
    }
    text::pieces_of_joined(out, '&');
    assert forall|i: int| 0 <= i < out.len() - 1 implies key_of(#[trigger] out[i]) != "f"@ && key_of(
        out[i],
    ) != "datetime-from"@ && key_of(out[i]) != "datetime-to"@ by {
        assert(out[i] == respelled(own)[i]);
        assert(passed_on(respelled(own)[i]));
    }
}

/// A link to another format can be made from a link: what the first link's
/// format was leaves no trace.
pub proof fn a_link_can_be_made_from_a_link(
    query: Seq<char>,
    format: Seq<char>,
    other: Seq<char>,
)
    requires
        text::free_of(format, '&'),
    ensures
        ({
            let link = text::joined(reformatted(text::pieces(query, '&'), format), "&"@);
            reformatted(text::pieces(link, '&'), other) == reformatted(
                text::pieces(query, '&'),
                other,
            )
        }),
{
    let own = text::pieces(query, '&');
    text::pieces_are_apart(query, '&');
    respelled_parts(own);
    let middle = respelled(own);
    let last = "f="@ + format;
    let out = reformatted(own, format);
    reveal_strlit("&");
    reveal_strlit("f=");
    reveal_strlit("f");
    assert("&"@ =~= seq!['&']);
    assert forall|i: int| 0 <= i < out.len() implies text::free_of(#[trigger] out[i], '&') by {
        if i < middle.len() {
            assert(out[i] == middle[i]);
        }
    }
    text::pieces_of_joined(out, '&');
    distinct_keys();
    assert(last =~= "f"@.push('=') + format);
    key_of_made("f"@, format);
    kept_of_push(middle, last);
    kept_again(middle);
    assert(out.drop_last() =~= middle);
    assert(last_value(out, "datetime-from"@) == last_value(middle, "datetime-from"@));
    assert(last_value(out, "datetime-to"@) == last_value(middle, "datetime-to"@));
}

/// How the parameter table is being used.
#[derive(Debug)]
pub enum ParameterMode<'a> {
    /// Browsing a collection: each name links into the position form.
    Browse,
    /// Choosing parameters for a query: each name carries a checkbox.
    Select { selected: &'a Vec<String> },
}

/// One row of the parameter table.
#[derive(Debug)]
pub struct ParameterRow {
    pub name: String,
    pub label: String,
    pub unit: Option<String>,
    pub uses_z: bool,
    /// How the parameter varies with height.
    pub vertical: String,
    /// What the filter looks in.
    pub search: String,
    /// The id of the row's checkbox.
    pub id: String,
    /// The position form with the parameter chosen.
    pub href: String,
    pub checked: bool,
}

/// What a [`ParameterRow`] holds.
pub struct RowText {
    pub name: Seq<char>,
    pub label: Seq<char>,
    pub unit: Option<Seq<char>>,
    pub uses_z: bool,
    pub vertical: Seq<char>,
    pub search: Seq<char>,
    pub id: Seq<char>,
    pub href: Seq<char>,
    pub checked: bool,
}

impl View for ParameterRow {
    type V = RowText;

    open spec fn view(&self) -> RowText {
        RowText {
            name: self.name@,
            label: self.label@,
            unit: params::text_of(self.unit),
            uses_z: self.uses_z,
            vertical: self.vertical@,
            search: self.search@,
            id: self.id@,
            href: self.href@,
            checked: self.checked,
        }
    }
}

/// A text in lower case.
pub uninterp spec fn lowercased(text: Seq<char>) -> Seq<char>;

/// `str::to_lowercase`: the lower-case equivalent of a text, a function of the
/// text alone.
#[verifier::external_body]
fn to_lower(s: &str) -> (r: String)
    ensures
        r@ == lowercased(s@),
{
    s.to_lowercase()
}

/// The name of a collection's vertical axis.
pub open spec fn level_name(c: Collection) -> Seq<char> {
    match c.z_name {
        Some(s) => s@,
        None => "z"@,
    }
}

pub fn level_of(c: &Collection) -> (r: &str)
    ensures
        r@ == level_name(*c),
{
    match &c.z_name {
        Some(s) => s.as_str(),
        None => "z",
    }
}

/// How a parameter varies with height.
pub open spec fn varies(c: Collection, p: Parameter) -> Seq<char> {
    if p.uses_z {
        "varies with "@ + level_name(c)
    } else {
        "surface"@
    }
}

/// The names that are chosen in a mode.
pub open spec fn chosen(mode: ParameterMode) -> Seq<Seq<char>> {
    match mode {
        ParameterMode::Browse => Seq::empty(),
        ParameterMode::Select { selected } => text::texts(selected@),
    }
}

/// The row of one parameter. Its name and label are in lower case for the
/// filter, and the vertical wording is with them, so that typing "surface"
/// narrows to surface variables. What is ticked is what was asked for.
pub open spec fn row_of(base: Seq<char>, c: Collection, names: Seq<Seq<char>>, p: Parameter) -> RowText {
    RowText {
        name: p.name@,
        label: p.label@,
        unit: params::text_of(p.unit),
        uses_z: p.uses_z,
        vertical: varies(c, p),
        search: lowercased(p.name@) + " "@ + lowercased(p.label@) + " "@ + varies(c, p),
        id: "choose-"@ + p.name@,
        href: base + ("/collections/"@ + c.id@ + "/position?parameter-name="@ + p.name@
            + "&f=html"@),
        checked: names.contains(p.name@),
    }
}

/// Whether a text is one of a list.
fn is_one_of(name: &str, all: &Vec<String>) -> (r: bool)
    ensures
        r == text::texts(all@).contains(name@),
{
    let ghost t = text::texts(all@);
    let mut i: usize = 0;
    while i < all.len()
        invariant
            i <= all@.len(),
            t == text::texts(all@),
            forall|k: int| 0 <= k < i ==> #[trigger] t[k] != name@,
        decreases all@.len() - i,
    {
        if same_text(all[i].as_str(), name) {
            assert(t[i as int] == name@);
            return true;
        }
        i += 1;
    }
    false
}

fn copy_of(s: &Option<String>) -> (r: Option<String>)
    ensures
        params::text_of(r) == params::text_of(*s),
{
    match s {
        Some(t) => Some(t.clone()),
        None => None,
    }
}

fn make_row(state: &AppState, c: &Collection, names: &Vec<String>, p: &Parameter) -> (r: ParameterRow)
    ensures
        r@ == row_of(state.config.base_url@, *c, text::texts(names@), *p),
{
    let mut vertical: String = String::new();
    if p.uses_z {
        vertical.append("varies with ");
        vertical.append(level_of(c));
        assert(vertical@ =~= varies(*c, *p));
    } else {
        vertical.append("surface");
        assert(vertical@ =~= varies(*c, *p));
    }
    let mut search: String = to_lower(p.name.as_str());
    search.append(" ");
    search.append(to_lower(p.label.as_str()).as_str());
    search.append(" ");
    search.append(vertical.as_str());
    let mut id: String = "choose-".to_owned();
    id.append(p.name.as_str());
    let mut path: String = "/collections/".to_owned();
    path.append(c.id.as_str());
    path.append("/position?parameter-name=");
    path.append(p.name.as_str());
    path.append("&f=html");
    ParameterRow {
        name: p.name.clone(),
        label: p.label.clone(),
        unit: copy_of(&p.unit),
        uses_z: p.uses_z,
        vertical,
        search,
        id,
        href: state.href(path.as_str()),
        checked: is_one_of(p.name.as_str(), names),
    }
}

/// Every parameter of a collection, as the rows of one filterable table.
///
/// Browsing and choosing show the same facts, name, description, units, and
/// whether the variable varies with height, so they are one table with one
/// extra column, rather than two that drift apart.
pub fn parameter_rows(state: &AppState, c: &Collection, mode: ParameterMode) -> (r: Vec<
    ParameterRow,
>)
    ensures
        r@.len() == c.parameters.entries@.len(),
        forall|i: int|
            0 <= i < r@.len() ==> (#[trigger] r@[i])@ == row_of(
                state.config.base_url@,
                *c,
                chosen(mode),
                c.parameters.entries@[i].1,
            ),
{
    let none: Vec<String> = Vec::new();
    let names: &Vec<String> = match mode {
        ParameterMode::Select { selected } => selected,
        ParameterMode::Browse => &none,
    };
    assert(text::texts(names@) =~= chosen(mode));
    let mut out: Vec<ParameterRow> = Vec::new();
    let mut i: usize = 0;
    while i < c.parameters.entries.len()
        invariant
            i <= c.parameters.entries@.len(),
            out@.len() == i,
            text::texts(names@) == chosen(mode),
            forall|k: int|
                0 <= k < i ==> (#[trigger] out@[k])@ == row_of(
                    state.config.base_url@,
                    *c,
                    chosen(mode),
                    c.parameters.entries@[k].1,
                ),
        decreases c.parameters.entries@.len() - i,
    {
        out.push(make_row(state, c, names, &c.parameters.entries[i].1));
        i += 1;
    }
    out
}

/// What came of running a query, if it was run at all.
#[derive(Debug)]
pub enum Outcome<'a> {
    /// No geometry was given yet: the form is being shown for the first time.
    Blank,
    /// The query ran.
    Data {
        request: &'a DataRequest,
        result: &'a ResultSet,
        /// The request's own query string, for the "as data" links.
        query_string: String,
    },
    /// The query was rejected or found nothing.
    Failed(String),
}

/// A cell of the result table.
#[derive(Debug)]
pub enum Cell {
    Time(String),
    /// A coordinate or level.
    Place(Double),
    /// A value of a parameter.
    Value(Double),
    /// Outside the polygon or radius, or simply not recorded there.
    Missing,
    /// No level at all.
    Blank,
}

/// What a [`Cell`] holds.
pub enum CellText {
    Time(Seq<char>),
    Place(Double),
    Value(Double),
    Missing,
    Blank,
}

impl View for Cell {
    type V = CellText;

    open spec fn view(&self) -> CellText {
        match *self {
            Cell::Time(s) => CellText::Time(s@),
            Cell::Place(v) => CellText::Place(v),
            Cell::Value(v) => CellText::Value(v),
            Cell::Missing => CellText::Missing,
            Cell::Blank => CellText::Blank,
        }
    }
}

pub open spec fn cells_of(v: Seq<Cell>) -> Seq<CellText> {
    Seq::new(v.len(), |i: int| v[i]@)
}

/// How many result rows a page will show before it stops and points at the
/// data representation instead.
pub const MAX_RESULT_ROWS: usize = 500;

/// Where a result that does not vary in space lies.
#[derive(Debug)]
pub struct Facts {
    /// Latitude and longitude, where both are single.
    pub position: Option<(Double, Double)>,
    /// The time, where it is single.
    pub time: Option<String>,
    /// The level, where it is single.
    pub level: Option<Double>,
    /// How many values were asked for, over all parameters.
    pub values: usize,
}

/// The result of a query, as a page shows it.
#[derive(Debug)]
pub struct Table {
    pub facts: Facts,
    pub columns: Vec<String>,
    pub rows: Vec<Vec<Cell>>,
    /// Whether there are more rows than these.
    pub truncated: bool,
}

/// An optional item, as a list of none or one.
pub open spec fn when<T>(shown: bool, item: T) -> Seq<T> {
    if shown {
        seq![item]
    } else {
        Seq::empty()
    }
}

/// The columns of a result: the axes that vary, and the parameters. A column
/// earns its place only if its axis has more than one value; the rest are stated
/// once, above the table.
pub open spec fn columns_of(r: ResultSet, level: Seq<char>) -> Seq<Seq<char>> {
    when(r.t@.len() > 1, "Time"@) + when(r.z@.len() > 1, level) + when(
        r.y@.len() > 1,
        "Latitude"@,
    ) + when(r.x@.len() > 1, "Longitude"@) + r.params.names()
}

pub open spec fn value_cell(v: Option<Double>) -> CellText {
    match v {
        Some(d) => CellText::Value(d),
        None => CellText::Missing,
    }
}

pub open spec fn value_cells(v: Seq<Option<Double>>) -> Seq<CellText> {
    Seq::new(v.len(), |i: int| value_cell(v[i]))
}

/// The cells of one row, one to each column.
pub open spec fn row_cells(r: ResultSet, row: Row) -> Seq<CellText> {
    when(r.t@.len() > 1, CellText::Time(query::shown_time(row.t))) + when(
        r.z@.len() > 1,
        match row.z {
            Some(z) => CellText::Place(z),
            None => CellText::Blank,
        },
    ) + when(r.y@.len() > 1, CellText::Place(row.y)) + when(
        r.x@.len() > 1,
        CellText::Place(row.x),
    ) + value_cells(row.values)
}

fn make_cells(r: &ResultSet, row: &ResultRow) -> (cells: Vec<Cell>)
    ensures
        cells_of(cells@) == row_cells(*r, row@),
{
    let mut out: Vec<Cell> = Vec::new();
    if r.t.len() > 1 {
        out.push(Cell::Time(format_time(row.t)));
    }
    if r.z.len() > 1 {
        out.push(
            match row.z {
                Some(z) => Cell::Place(z),
                None => Cell::Blank,
            },
        );
    }
    if r.y.len() > 1 {
        out.push(Cell::Place(row.y));
    }
    if r.x.len() > 1 {
        out.push(Cell::Place(row.x));
    }
    let ghost head = cells_of(out@);
    assert(head =~= when(r.t@.len() > 1, CellText::Time(query::shown_time(row.t))) + when(
        r.z@.len() > 1,
        match row.z {
            Some(z) => CellText::Place(z),
            None => CellText::Blank,
        },
    ) + when(r.y@.len() > 1, CellText::Place(row.y)) + when(
        r.x@.len() > 1,
        CellText::Place(row.x),
    ));
    let ghost tail = value_cells(row.values@);
    let mut i: usize = 0;
    assert(cells_of(out@) =~= head + tail.take(0));
    while i < row.values.len()
        invariant
            i <= row.values@.len(),
            tail == value_cells(row.values@),
            cells_of(out@) == head + tail.take(i as int),
        decreases row.values@.len() - i,
    {
        let ghost before = cells_of(out@);
        out.push(
            match row.values[i] {
                Some(v) => Cell::Value(v),
                None => Cell::Missing,
            },
        );
        assert(cells_of(out@) =~= before.push(tail[i as int]));
        assert(before.push(tail[i as int]) =~= head + tail.take(i + 1));
        i += 1;
    }
    assert(tail.take(i as int) =~= tail);
    out
}

fn make_columns(r: &ResultSet, level: &str) -> (columns: Vec<String>)
    ensures
        text::texts(columns@) == columns_of(*r, level@),
{
    let mut out: Vec<String> = Vec::new();
    if r.t.len() > 1 {
        out.push("Time".to_owned());
    }
    if r.z.len() > 1 {
        out.push(level.to_owned());
    }
    if r.y.len() > 1 {
        out.push("Latitude".to_owned());
    }
    if r.x.len() > 1 {
        out.push("Longitude".to_owned());
    }
    let ghost head = text::texts(out@);
    assert(head =~= when(r.t@.len() > 1, "Time"@) + when(r.z@.len() > 1, level@) + when(
        r.y@.len() > 1,
        "Latitude"@,
    ) + when(r.x@.len() > 1, "Longitude"@));
    let mut names = r.parameter_names();
    let ghost tail = text::texts(names@);
    out.append(&mut names);
    assert(text::texts(out@) =~= head + tail);
    out
}

/// The result table, with only the axes that actually vary as columns.
pub fn results(request: &DataRequest, r: &ResultSet) -> (table: Table)
    requires
        request.wf(),
        r.wf(),
        r.x@.len() > 0,
        r.y@.len() > 0,
        r.t@.len() > 0,
    ensures
        table.facts.position == (if r.x@.len() == 1 && r.y@.len() == 1 {
            Some((r.y@[0], r.x@[0]))
        } else {
            None
        }),
        params::text_of(table.facts.time) == (if r.t@.len() == 1 {
            Some(query::shown_time(r.t@[0]))
        } else {
            None
        }),
        table.facts.level == (if r.z@.len() == 1 {
            Some(r.z@[0])
        } else {
            None
        }),
        table.facts.values == query::saturated(
            query::saturated(request.selection@.values()) * request.parameters@.len(),
        ),
        text::texts(table.columns@) == columns_of(*r, level_name(*request.collection)),
        table.rows@.len() == (if r.all_rows().len() <= MAX_RESULT_ROWS {
            r.all_rows().len() as int
        } else {
            MAX_RESULT_ROWS as int
        }),
        forall|i: int|
            0 <= i < table.rows@.len() ==> cells_of((#[trigger] table.rows@[i])@) == row_cells(
                *r,
                r.all_rows()[i],
            ),
        table.truncated == (r.all_rows().len() > MAX_RESULT_ROWS),
{
    let rows = r.rows_up_to(MAX_RESULT_ROWS + 1);
    let truncated = rows.len() > MAX_RESULT_ROWS;
    let shown: usize = if truncated {
        MAX_RESULT_ROWS
    } else {
        rows.len()
    };
    let mut out: Vec<Vec<Cell>> = Vec::new();
    let mut i: usize = 0;
    while i < shown
        invariant
            shown <= rows@.len(),
            i <= shown,
            out@.len() == i,
            forall|k: int| 0 <= k < rows@.len() ==> (#[trigger] rows@[k])@ == r.all_rows()[k],
            forall|k: int|
                0 <= k < i ==> cells_of((#[trigger] out@[k])@) == row_cells(*r, r.all_rows()[k]),
        decreases shown - i,
    {
        out.push(make_cells(r, &rows[i]));
        i += 1;
    }
    let position = if r.x.len() <= 1 && r.y.len() <= 1 {
        Some((r.y[0], r.x[0]))
    } else {
        None
    };
    let time = if r.t.len() <= 1 {
        Some(format_time(r.t[0]))
    } else {
        None
    };
    let level = if r.z.len() == 1 {
        Some(r.z[0])
    } else {
        None
    };
    let values: usize = query::product(request.selection.value_count(), request.parameters.len());
    Table {
        facts: Facts { position, time, level, values },
        columns: make_columns(r, level_of(&request.collection)),
        rows: out,
        truncated,
    }
}

/// Every row of a result table has a cell to each column.
pub proof fn rows_match_the_columns(r: ResultSet, level: Seq<char>, k: int)
    requires
        0 <= k < r.all_rows().len(),
    ensures
        row_cells(r, r.all_rows()[k]).len() == columns_of(r, level).len(),
{
}

/// A command that runs a query, to paste into a shell.
pub open spec fn command_text(url: Seq<char>, parameter: Seq<char>, time: Seq<char>) -> Seq<char> {
    "curl -G '"@ + url
        + "' \\\n  --data-urlencode 'coords=POINT(-0.13 51.51)' \\\n  --data-urlencode 'parameter-name="@
        + parameter + "' \\\n  --data-urlencode 'datetime="@ + time + "'"@
}

/// A command that asks a collection for one parameter at its latest time.
pub fn example_command(state: &AppState, c: &Collection, parameter: &str, host: Option<&str>) -> (r:
    String)
    ensures
        r@ == command_text(
            api::pasteable(
                state.config.base_url@,
                "/collections/"@ + c.id@ + "/position"@,
                api::maybe(host),
            ),
            parameter@,
            query::shown_time(catalog::extent(c.t.values@, c.valid_time).1),
        ),
{
    let mut path: String = "/collections/".to_owned();
    path.append(c.id.as_str());
    path.append("/position");
    let (_, end) = c.time_extent();
    let mut out: String = "curl -G '".to_owned();
    out.append(state.absolute_href(path.as_str(), host).as_str());
    out.append(
        "' \\\n  --data-urlencode 'coords=POINT(-0.13 51.51)' \\\n  --data-urlencode 'parameter-name=",
    );
    out.append(parameter);
    out.append("' \\\n  --data-urlencode 'datetime=");
    out.append(format_time(end).as_str());
    out.append("'");
    out
}

/// The parameter of a collection's example: the 2 m temperature where the
/// collection has it, otherwise its first.
pub fn example_parameter(c: &Collection) -> (r: Option<String>)
    requires
        c.wf(),
    ensures
        params::text_of(r) == (if c.parameters.content().contains_key("2m_temperature"@) {
            Some("2m_temperature"@)
        } else if c.parameters.entries@.len() > 0 {
            Some(c.parameters.entries@[0].0@)
        } else {
            None
        }),
{
    if c.parameter("2m_temperature").is_some() {
        return Some("2m_temperature".to_owned());
    }
    if c.parameters.entries.len() > 0 {
        Some(c.parameters.entries[0].0.clone())
    } else {
        None
    }
}

/// What the landing page says of the collections. Naming the collection is more
/// use than a count when there is only one to look at.
pub open spec fn offer(state: AppState) -> Seq<char> {
    let all = state.catalog.collections.entries@;
    if all.len() == 1 {
        let c = all[0].1;
        c.title@ + " — "@ + text::digits(c.parameters.entries@.len()) + " parameters on a "@
            + text::digits(c.x.values@.len()) + "×"@ + text::digits(c.y.values@.len())
            + " grid."@
    } else {
        text::digits(all.len()) + " collections available to query."@
    }
}

pub fn landing_offer(state: &AppState) -> (r: String)
    ensures
        r@ == offer(*state),
{
    let all = &state.catalog.collections.entries;
    if all.len() == 1 {
        let c: &Collection = &all[0].1;
        let mut out: String = c.title.clone();
        out.append(" — ");
        out.append(decimal(c.parameters.len()).as_str());
        out.append(" parameters on a ");
        out.append(decimal(c.x.len()).as_str());
        out.append("×");
        out.append(decimal(c.y.len()).as_str());
        out.append(" grid.");
        return out;
    }
    let mut out: String = decimal(all.len());
    out.append(" collections available to query.");
    out
}

/// What the page of collections says of how many there are.
pub open spec fn collections_text(n: nat) -> Seq<char> {
    if n == 1 {
        "One collection is available to query."@
    } else {
        text::digits(n) + " collections are available to query."@
    }
}

pub fn collections_tagline(n: usize) -> (r: String)
    ensures
        r@ == collections_text(n as nat),
{
    if n == 1 {
        return "One collection is available to query.".to_owned();
    }
    let mut out: String = decimal(n);
    out.append(" collections are available to query.");
    out
}

/// The size of a collection, in words.
pub open spec fn facts_text(c: Collection) -> Seq<char> {
    text::digits(c.parameters.entries@.len()) + " parameters · "@ + text::digits(c.x.values@.len())
        + "×"@ + text::digits(c.y.values@.len()) + " grid · "@ + (match c.z {
        Some(z) => text::digits(z.values@.len()) + " levels · "@,
        None => Seq::empty(),
    }) + text::digits(c.t.values@.len()) + " time steps"@
}

pub fn collection_facts(c: &Collection) -> (r: String)
    ensures
        r@ == facts_text(*c),
{
    let mut levels: String = String::new();
    if let Some(z) = &c.z {
        levels = decimal(z.len());
        levels.append(" levels · ");
    }
    let mut out: String = decimal(c.parameters.len());
    out.append(" parameters · ");
    out.append(decimal(c.x.len()).as_str());
    out.append("×");
    out.append(decimal(c.y.len()).as_str());
    out.append(" grid · ");
    out.append(levels.as_str());
    out.append(decimal(c.t.len()).as_str());
    out.append(" time steps");
    assert(out@ =~= facts_text(*c));
    out
}

/// The name of a conformance class: the last segment of its path.
pub fn class_name(class: &str) -> (r: String)
    ensures
        r@ == text::pieces(class@, '/').last(),
{
    let chars = chars_of(class);
    proof {
        text::pieces_are_apart(class@, '/');
    }
    let parts = split(chars.as_slice(), '/');
    string_of(parts[parts.len() - 1].as_slice())
}

/// Whether each time stands `step` after the one before it.
pub open spec fn evenly(t: Seq<i64>, step: int) -> bool {
    forall|i: int| 0 <= i < t.len() - 1 ==> #[trigger] t[i] + step == t[i + 1]
}

/// The step of times that are evenly spaced, in microseconds.
pub open spec fn cadence(t: Seq<i64>) -> Option<int> {
    if t.len() >= 2 && 0 < t[1] - t[0] <= i64::MAX && evenly(t, t[1] - t[0]) {
        Some(t[1] - t[0])
    } else {
        None
    }
}

/// The step of a time picker in seconds, where the times are evenly spaced.
pub fn picker_step(c: &Collection) -> (r: Option<String>)
    ensures
        params::text_of(r) == (match cadence(c.t.values@) {
            Some(step) => Some(text::digits((step / 1_000_000) as nat)),
            None => None,
        }),
{
    let ghost t = c.t.values@;
    match c.t.step() {
        Some(step) => {
            assert(t[0] + step == t[1]);
            assert(evenly(t, step as int));
            Some(text::decimal_long(step as u64 / 1_000_000))
        },
        None => None,
    }
}

/// The path of a query of a collection.
pub open spec fn query_path(c: Collection, kind: QueryKind) -> Seq<char> {
    "/collections/"@ + c.id@ + "/"@ + kind.segment()
}

pub fn query_action(c: &Collection, kind: QueryKind) -> (r: String)
    ensures
        r@ == query_path(*c, kind),
{
    let mut out: String = "/collections/".to_owned();
    out.append(c.id.as_str());
    out.append("/");
    out.append(kind.path());
    out
}

/// The breadcrumbs of a query's page.
pub fn query_crumbs(c: &Collection, kind: QueryKind) -> (r: Vec<Crumb>)
    ensures
        r@.len() == 4,
        r@[0]@ == ("Home"@, Some("/"@)),
        r@[1]@ == ("Collections"@, Some("/collections"@)),
        r@[2]@ == (c.title@, Some("/collections/"@ + c.id@)),
        r@[3]@ == (kind.segment(), None::<Seq<char>>),
{
    let mut base: String = "/collections/".to_owned();
    base.append(c.id.as_str());
    let mut out: Vec<Crumb> = Vec::new();
    out.push(Crumb::link("Home", "/"));
    out.push(Crumb::link("Collections", "/collections"));
    out.push(Crumb::link(c.title.as_str(), base.as_str()));
    out.push(Crumb::current(kind.path()));
    out
}

/// What is passed on is every part that has a text and whose key is none of the
/// format and the two pickers, in the order in which the parts stand.
pub proof fn a_link_keeps_the_rest_in_order(parts: Seq<Seq<char>>)
    ensures
        kept(parts) == parts.filter(
            |p: Seq<char>|
                p.len() > 0 && key_of(p) != "f"@ && key_of(p) != "datetime-from"@ && key_of(p)
                    != "datetime-to"@,
        ),
    decreases parts.len(),
{
    reveal(Seq::filter);
    if parts.len() > 0 {
        a_link_keeps_the_rest_in_order(parts.drop_last());
    } else {
        assert(kept(parts) =~= Seq::empty());
    }
}

/// A part gives its key before its first `=` and its value behind it; one without
/// `=` is a key without a value.
pub proof fn a_part_gives_its_key_and_value(key: Seq<char>, value: Seq<char>)
    requires
        text::free_of(key, '='),
    ensures
        key_of(key + seq!['='] + value) == key,
        value_of(key + seq!['='] + value) == value,
        key_of(key) == key,
        value_of(key).len() == 0,
{
    text::parting_finds_the_parts(key, value, '=');
    text::parting_finds_none(key, '=');
}

/// Of several parts with a key the last gives its value.
pub proof fn the_last_part_with_a_key_counts(parts: Seq<Seq<char>>, key: Seq<char>, k: int)
    requires
        0 <= k < parts.len(),
        parts[k].len() > 0,
        key_of(parts[k]) == key,
        forall|i: int|
            k < i < parts.len() ==> (#[trigger] parts[i]).len() == 0 || key_of(parts[i]) != key,
    ensures
        last_value(parts, key) == value_of(parts[k]),
    decreases parts.len(),
{
    assert(parts[parts.len() - 1] == parts.last());
    if k < parts.len() - 1 {
        let front = parts.drop_last();
        assert forall|i: int| k < i < front.len() implies (#[trigger] front[i]).len() == 0
            || key_of(front[i]) != key by {
            assert(front[i] == parts[i]);
        }
        assert(front[k] == parts[k]);
        the_last_part_with_a_key_counts(front, key, k);
    }
}

/// A link asks for the format it was made for, and for the interval between the
/// two pickers: an empty picker leaves its end open, and where both are empty, or
/// a `datetime` is there already, no interval is added.
pub proof fn a_link_asks_for_what_the_pickers_hold(parts: Seq<Seq<char>>, format: Seq<char>)
    ensures
        ({
            let out = reformatted(parts, format);
            let from = last_value(parts, "datetime-from"@);
            let to = last_value(parts, "datetime-to"@);
            let n = kept(parts).len();
            let added = !timed(kept(parts)) && (from.len() > 0 || to.len() > 0);
            &&& out.len() == n + if added {
                2int
            } else {
                1
            }
            &&& out.last() == "f="@ + format
            &&& forall|i: int| 0 <= i < n ==> #[trigger] out[i] == kept(parts)[i]
            &&& added && from.len() > 0 && to.len() > 0 ==> out[n as int] == "datetime="@ + from
                + "/"@ + to
            &&& added && from.len() == 0 ==> out[n as int] == "datetime="@ + ".."@ + "/"@ + to
            &&& added && to.len() == 0 ==> out[n as int] == "datetime="@ + from + "/"@ + ".."@
        }),
{
}

/// A request that spells its time as an interval fills the two pickers as one
/// that gives its ends apart does: the first from the start, the second from the
/// end. An instant fills both.
pub proof fn either_spelling_fills_the_pickers(
    q: Seq<(Seq<char>, Seq<char>)>,
    p: Seq<(Seq<char>, Seq<char>)>,
    from: Seq<char>,
    to: Seq<char>,
)
    requires
        text::free_of(from, '/'),
        params::value(q, "datetime"@) == Some(from + seq!['/'] + to),
        params::value(p, "datetime"@) is None,
        value_or_empty(p, "datetime-from"@) == from,
        value_or_empty(p, "datetime-to"@) == to,
    ensures
        picker_values(q) == picker_values(p),
        picker_values(q).0 == picker_value(from),
        picker_values(q).1 == picker_value(to),
{
    text::parting_finds_the_parts(from, to, '/');
}

/// A single time fills both pickers.
pub proof fn an_instant_fills_both_pickers(q: Seq<(Seq<char>, Seq<char>)>, at: Seq<char>)
    requires
        text::free_of(at, '/'),
        params::value(q, "datetime"@) == Some(at),
    ensures
        picker_values(q).0 == picker_value(at),
        picker_values(q).1 == picker_value(at),
{
    text::parting_finds_none(at, '/');
}

/// A picker shows an instant to the minute, an open end and a blank as nothing, and
/// what is no instant as it was given.
pub proof fn a_picker_shows_what_it_can(raw: Seq<char>)
    ensures
        text::trimmed(raw).len() == 0 || text::trimmed(raw) == ".."@ ==> picker_value(raw).len()
            == 0,
        text::trimmed(raw).len() > 0 && text::trimmed(raw) != ".."@ ==> match params::instant(
            raw,
        ) {
            Ok(micros) => picker_value(raw) == picker_text(micros),
            Err(_) => picker_value(raw) == text::trimmed(raw),
        },
{
}

/// How many of the axes vary that are shown before a column.
pub open spec fn varying(r: ResultSet, n: int) -> int {
    (if n > 0 && r.t@.len() > 1 {
        1int
    } else {
        0
    }) + (if n > 1 && r.z@.len() > 1 {
        1int
    } else {
        0
    }) + (if n > 2 && r.y@.len() > 1 {
        1int
    } else {
        0
    }) + (if n > 3 && r.x@.len() > 1 {
        1int
    } else {
        0
    })
}

/// Every cell of a result table stands under the column that it belongs to: a time
/// under `Time`, a level under the name of the axis, a coordinate under its own
/// name, and a value under its parameter. An axis that does not vary has neither.
pub proof fn a_cell_stands_under_its_column(r: ResultSet, level: Seq<char>, row: Row, p: int)
    requires
        row.values.len() == r.params.entries@.len(),
        0 <= p < r.params.entries@.len(),
    ensures
        ({
            let columns = columns_of(r, level);
            let cells = row_cells(r, row);
            let h = varying(r, 4);
            &&& columns.len() == h + r.params.entries@.len() && cells.len() == columns.len()
            &&& r.t@.len() > 1 ==> columns[0] == "Time"@ && cells[0] == CellText::Time(
                query::shown_time(row.t),
            )
            &&& r.z@.len() > 1 ==> columns[varying(r, 1)] == level && cells[varying(r, 1)] == (
            match row.z {
                Some(z) => CellText::Place(z),
                None => CellText::Blank,
            })
            &&& r.y@.len() > 1 ==> columns[varying(r, 2)] == "Latitude"@ && cells[varying(r, 2)]
                == CellText::Place(row.y)
            &&& r.x@.len() > 1 ==> columns[varying(r, 3)] == "Longitude"@ && cells[varying(r, 3)]
                == CellText::Place(row.x)
            &&& columns[h + p] == r.params.entries@[p].0@
            &&& cells[h + p] == (match row.values[p] {
                Some(v) => CellText::Value(v),
                None => CellText::Missing,
            })
        }),
{
    assert(r.params.names().len() == r.params.entries@.len());
    assert(r.params.names()[p] == r.params.entries@[p].0@);
}

/// A row of the parameter table shows its own parameter, and is ticked exactly
/// where the parameter is among those chosen.
pub proof fn a_row_shows_its_parameter(
    base: Seq<char>,
    c: Collection,
    names: Seq<Seq<char>>,
    p: Parameter,
)
    ensures
        ({
            let row = row_of(base, c, names, p);
            &&& row.name == p.name@ && row.label == p.label@ && row.uses_z == p.uses_z
            &&& row.checked <==> exists|i: int| 0 <= i < names.len() && #[trigger] names[i]
                == p.name@
            &&& text::begins(row.search, lowercased(p.name@) + " "@ + lowercased(p.label@))
            &&& text::closes(row.search, row.vertical)
            &&& text::begins(row.href, base + ("/collections/"@ + c.id@))
            &&& text::closes(row.href, p.name@ + "&f=html"@)
            &&& !p.uses_z ==> row.vertical == "surface"@
            &&& p.uses_z && c.z_name is Some ==> text::closes(row.vertical, c.z_name->0@)
        }),
{
    let row = row_of(base, c, names, p);
    let head = lowercased(p.name@) + " "@ + lowercased(p.label@);
    assert(row.search =~= head + (" "@ + row.vertical));
    assert(row.search.take(head.len() as int) =~= head);
    assert(row.search.skip(row.search.len() - row.vertical.len()) =~= row.vertical);
    let first = base + ("/collections/"@ + c.id@);
    let last = p.name@ + "&f=html"@;
    assert(row.href =~= first + "/position?parameter-name="@ + last);
    assert(row.href.take(first.len() as int) =~= first);
    assert(row.href.skip(row.href.len() - last.len()) =~= last);
    if p.uses_z && c.z_name is Some {
        let z = c.z_name->0@;
        assert(row.vertical.skip(row.vertical.len() - z.len()) =~= z);
    }
}

/// Sixteen, so many times.
pub open spec fn sixteens(k: nat) -> nat
    decreases k,
{
    if k == 0 {
        1
    } else {
        16 * sixteens((k - 1) as nat)
    }
}

/// The fingerprint of a stylesheet is written in full: two numbers below a power
/// of sixteen that are written alike in so many digits are the same.
pub proof fn hexadecimal_tells_numbers_apart(n: nat, m: nat, k: nat)
    requires
        n < sixteens(k),
        m < sixteens(k),
        hex(n, k) == hex(m, k),
    ensures
        n == m,
    decreases k,
{
    if k > 0 {
        let j = (k - 1) as nat;
        assert(hex(n, k).drop_last() =~= hex(n / 16, j));
        assert(hex(m, k).drop_last() =~= hex(m / 16, j));
        assert(hex(n, k).last() == hex_char(n));
        assert(hex(m, k).last() == hex_char(m));
        assert(n % 16 == m % 16);
        hexadecimal_tells_numbers_apart(n / 16, m / 16, j);
    }
}

/// A number is written in hexadecimal as its digits say: the last is its remainder
/// by sixteen, in lower case, and those before it write its quotient.
pub proof fn hexadecimal_digits_are_remainders(n: nat, k: nat)
    requires
        k > 0,
    ensures
        hex(n, k).len() == k,
        hex(n, k).last() == "0123456789abcdef"@[(n % 16) as int],
        hex(n, k).drop_last() == hex(n / 16, (k - 1) as nat),
    decreases k,
{
    reveal_strlit("0123456789abcdef");
    if k > 1 {
        hexadecimal_digits_are_remainders(n / 16, (k - 1) as nat);
    }
    assert(hex(n, k).drop_last() =~= hex(n / 16, (k - 1) as nat));
    let d = n % 16;
    assert(d == 0 || d == 1 || d == 2 || d == 3 || d == 4 || d == 5 || d == 6 || d == 7 || d == 8
        || d == 9 || d == 10 || d == 11 || d == 12 || d == 13 || d == 14 || d == 15);
}

/// A fingerprint takes in one byte after another: without any it is the offset, and
/// each further byte is folded in and multiplied by the prime, modulo two to the
/// power of sixty-four.
pub proof fn a_fingerprint_takes_in_every_byte(bytes: Seq<u8>, next: u8)
    ensures
        fnv(Seq::empty()) == 14_695_981_039_346_656_037,
        fnv(bytes.push(next)) as int == (fnv(bytes) ^ (next as u64)) * 1_099_511_628_211
            % 18_446_744_073_709_551_616,
{
    assert(bytes.push(next).drop_last() =~= bytes);
    assert(bytes.push(next).last() == next);
}

proof fn parts_are_held(a: Seq<char>, b: Seq<char>, c: Seq<char>)
    ensures
        text::holds(a + b + c, b),
        text::begins(a + b + c, a),
        text::closes(a + b + c, c),
{
    let s = a + b + c;
    assert(s.subrange(a.len() as int, (a.len() + b.len()) as int) =~= b);
    assert(s.take(a.len() as int) =~= a);
    assert(s.skip(s.len() - c.len()) =~= c);
}

proof fn nine_parts(
    a: Seq<char>,
    b: Seq<char>,
    c: Seq<char>,
    d: Seq<char>,
    e: Seq<char>,
    f: Seq<char>,
    l: Seq<char>,
    t: Seq<char>,
    u: Seq<char>,
)
    ensures
        text::begins(a + b + c + d + e + f + l + t + u, a + b),
        text::holds(a + b + c + d + e + f + l + t + u, c + d + e + f),
        text::holds(a + b + c + d + e + f + l + t + u, l),
        text::closes(a + b + c + d + e + f + l + t + u, t + u),
{
    let all = a + b + c + d + e + f + l + t + u;
    let (p, g, z) = (a + b, c + d + e + f, t + u);
    assert(all =~= p + g + (l + z));
    parts_are_held(p, g, l + z);
    assert(all =~= (p + g) + l + z);
    parts_are_held(p + g, l, z);
}

/// The size of a collection is told by how many parameters it has, how wide and
/// how high its grid is, how many levels it has, if any, and how many time steps.
pub proof fn the_facts_tell_each_size(c: Collection)
    ensures
        text::begins(
            facts_text(c),
            text::digits(c.parameters.entries@.len()) + " parameters · "@,
        ),
        text::holds(
            facts_text(c),
            text::digits(c.x.values@.len()) + "×"@ + text::digits(c.y.values@.len()) + " grid · "@,
        ),
        text::closes(facts_text(c), text::digits(c.t.values@.len()) + " time steps"@),
        c.z matches Some(z) ==> text::holds(
            facts_text(c),
            text::digits(z.values@.len()) + " levels · "@,
        ),
{
    nine_parts(
        text::digits(c.parameters.entries@.len()),
        " parameters · "@,
        text::digits(c.x.values@.len()),
        "×"@,
        text::digits(c.y.values@.len()),
        " grid · "@,
        match c.z {
            Some(z) => text::digits(z.values@.len()) + " levels · "@,
            None => Seq::empty(),
        },
        text::digits(c.t.values@.len()),
        " time steps"@,
    );
}

/// The example command asks the given endpoint for the given parameter at the given
/// time.
pub proof fn the_example_asks_for_what_it_is_given(
    url: Seq<char>,
    parameter: Seq<char>,
    time: Seq<char>,
)
    ensures
        text::begins(command_text(url, parameter, time), "curl -G '"@ + url),
        text::holds(
            command_text(url, parameter, time),
            "' \\\n  --data-urlencode 'coords=POINT(-0.13 51.51)' \\\n  --data-urlencode 'parameter-name="@
                + parameter,
        ),
        text::closes(
            command_text(url, parameter, time),
            "' \\\n  --data-urlencode 'datetime="@ + time + "'"@,
        ),
{
    let (a, b) = ("curl -G '"@, url);
    let (c, d) = (
        "' \\\n  --data-urlencode 'coords=POINT(-0.13 51.51)' \\\n  --data-urlencode 'parameter-name="@,
        parameter,
    );
    let (e, f, g) = ("' \\\n  --data-urlencode 'datetime="@, time, "'"@);
    seven_parts(a, b, c, d, e, f, g);
}

proof fn seven_parts(
    a: Seq<char>,
    b: Seq<char>,
    c: Seq<char>,
    d: Seq<char>,
    e: Seq<char>,
    f: Seq<char>,
    g: Seq<char>,
)
    ensures
        text::begins(a + b + c + d + e + f + g, a + b),
        text::holds(a + b + c + d + e + f + g, c + d),
        text::closes(a + b + c + d + e + f + g, e + f + g),
{
    assert(a + b + c + d + e + f + g =~= (a + b) + (c + d) + (e + f + g));
    parts_are_held(a + b, c + d, e + f + g);
}

/// Times are evenly spaced exactly where every two that follow one another are as
/// far apart as the first two, which are in order.
pub proof fn a_cadence_is_that_of_every_step(t: Seq<i64>, i: int)
    requires
        0 <= i < t.len() - 1,
        cadence(t) is Some,
    ensures
        t[i + 1] - t[i] == cadence(t)->0,
        cadence(t)->0 > 0,
{
    assert(t[i] + cadence(t)->0 == t[i + 1]);
}

} // verus!
