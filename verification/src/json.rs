//! JSON documents: the parts of a text that serde_json reads, and the trees
//! that responses are made of.
use serde_json::value::RawValue;
use std::collections::BTreeMap;
use vstd::prelude::*;

use crate::double::Double;
use crate::text;

verus! {

/// What serde_json objects to in a text, where it is not a JSON document.
pub uninterp spec fn json_fault(text: Seq<char>) -> Option<Seq<char>>;

/// The members of the JSON object that a text is, in the order of their names,
/// each with the text of its value; `None` where the text is no object.
pub uninterp spec fn json_members(text: Seq<char>) -> Option<Seq<(Seq<char>, Seq<char>)>>;

/// The string that a text is, where it is a JSON string.
pub uninterp spec fn json_string(text: Seq<char>) -> Option<Seq<char>>;

/// The texts of the items of the JSON array that a text is; `None` where the text
/// is no array.
pub uninterp spec fn json_items(text: Seq<char>) -> Option<Seq<Seq<char>>>;

/// The integer that a text is, where it is a JSON number that fits.
pub uninterp spec fn json_integer(text: Seq<char>) -> Option<i64>;

/// `serde_json::from_str` into a list of `RawValue`: the items of an array, each
/// as the text it stands as, and any error as `None`. They are a function of the
/// text alone.
#[verifier::external_body]
pub(crate) fn read_items(text: &str) -> (r: Option<Vec<String>>)
    ensures
        match r {
            Some(v) => json_items(text@) == Some(text::texts(v@)),
            None => json_items(text@) is None,
        },
{
    match serde_json::from_str::<Vec<Box<RawValue>>>(text) {
        Ok(v) => Some(v.into_iter().map(|x| x.get().to_owned()).collect()),
        Err(_) => None,
    }
}

/// `serde_json::from_str` into an `i64`, with any error as `None`. The integer is
/// a function of the text alone.
#[verifier::external_body]
pub(crate) fn read_integer(text: &str) -> (r: Option<i64>)
    ensures
        r == json_integer(text@),
{
    match serde_json::from_str::<i64>(text) {
        Ok(n) => Some(n),
        Err(_) => None,
    }
}

/// `serde_json::from_str` into a `Value`, for its error alone: `None` where the
/// text is a JSON document, otherwise the error's message. Both are functions of
/// the text alone.
#[verifier::external_body]
pub(crate) fn check(text: &str) -> (r: Option<String>)
    ensures
        match r {
            Some(e) => json_fault(text@) == Some(e@),
            None => json_fault(text@) is None,
        },
{
    match serde_json::from_str::<serde_json::Value>(text) {
        Ok(_) => None,
        Err(e) => Some(e.to_string()),
    }
}

/// A list of members by what it holds.
pub open spec fn members_of(v: Seq<(String, String)>) -> Seq<(Seq<char>, Seq<char>)> {
    Seq::new(v.len(), |i: int| (v[i].0@, v[i].1@))
}

/// `serde_json::from_str` into a map from names to `RawValue`: the members of an
/// object, each value as the text it stands as, and any error as `None`. They
/// are a function of the text alone.
#[verifier::external_body]
pub(crate) fn read_members(text: &str) -> (r: Option<Vec<(String, String)>>)
    ensures
        match r {
            Some(v) => json_members(text@) == Some(members_of(v@)),
            None => json_members(text@) is None,
        },
{
    match serde_json::from_str::<BTreeMap<String, Box<RawValue>>>(text) {
        Ok(m) => Some(m.into_iter().map(|(k, v)| (k, v.get().to_owned())).collect()),
        Err(_) => None,
    }
}

/// `serde_json::from_str` into a `String`, with any error as `None`. The string
/// is a function of the text alone.
#[verifier::external_body]
pub(crate) fn read_string(text: &str) -> (r: Option<String>)
    ensures
        match r {
            Some(s) => json_string(text@) == Some(s@),
            None => json_string(text@) is None,
        },
{
    match serde_json::from_str::<String>(text) {
        Ok(s) => Some(s),
        Err(_) => None,
    }
}

/// A JSON value of a response. A later field of an object replaces an earlier
/// one of the same name, and a number that is not finite is written as null.
#[derive(Debug)]
pub enum Json {
    Null,
    Bool(bool),
    Number(Double),
    Count(usize),
    Text(String),
    List(Vec<Json>),
    Object(Vec<(String, Json)>),
}

/// What a [`Json`] holds.
pub enum Tree {
    Null,
    Bool(bool),
    Number(Double),
    Count(usize),
    Text(Seq<char>),
    List(Seq<Tree>),
    Object(Seq<(Seq<char>, Tree)>),
}

pub open spec fn tree(j: Json) -> Tree
    decreases j,
{
    match j {
        Json::Null => Tree::Null,
        Json::Bool(b) => Tree::Bool(b),
        Json::Number(n) => Tree::Number(n),
        Json::Count(n) => Tree::Count(n),
        Json::Text(s) => Tree::Text(s@),
        Json::List(v) => Tree::List(
            Seq::new(
                v@.len(),
                |i: int|
                    if 0 <= i < v@.len() {
                        tree(v@[i])
                    } else {
                        Tree::Null
                    },
            ),
        ),
        Json::Object(v) => Tree::Object(
            Seq::new(
                v@.len(),
                |i: int|
                    if 0 <= i < v@.len() {
                        (v@[i].0@, tree(v@[i].1))
                    } else {
                        (Seq::empty(), Tree::Null)
                    },
            ),
        ),
    }
}

/// What a list of values holds.
pub open spec fn trees(v: Seq<Json>) -> Seq<Tree> {
    Seq::new(v.len(), |i: int| tree(v[i]))
}

/// The fields of an object that is being made.
#[derive(Debug)]
pub struct Fields {
    pub entries: Vec<(String, Json)>,
}

impl View for Fields {
    type V = Seq<(Seq<char>, Tree)>;

    open spec fn view(&self) -> Seq<(Seq<char>, Tree)> {
        Seq::new(self.entries@.len(), |i: int| (self.entries@[i].0@, tree(self.entries@[i].1)))
    }
}

/// No fields.
pub open spec fn no_fields() -> Seq<(Seq<char>, Tree)> {
    Seq::empty()
}

/// A text as a JSON value.
pub open spec fn t(s: Seq<char>) -> Tree {
    Tree::Text(s)
}

impl Fields {
    pub fn new() -> (r: Fields)
        ensures
            r@ == no_fields(),
    {
        let r = Fields { entries: Vec::new() };
        assert(r@ =~= no_fields());
        r
    }

    pub fn put(&mut self, key: &str, value: Json)
        ensures
            final(self)@ == old(self)@.push((key@, tree(value))),
    {
        let ghost before = self@;
        self.entries.push((key.to_owned(), value));
        assert(self@ =~= before.push((key@, tree(value))));
    }

    pub fn put_text(&mut self, key: &str, value: &str)
        ensures
            final(self)@ == old(self)@.push((key@, t(value@))),
    {
        self.put(key, Json::Text(value.to_owned()));
    }

    pub fn done(self) -> (r: Json)
        ensures
            tree(r) == Tree::Object(self@),
    {
        let r = Json::Object(self.entries);
        assert(tree(r)->Object_0 =~= self@);
        r
    }
}

/// An object of one field.
pub open spec fn only(key: Seq<char>, value: Tree) -> Tree {
    Tree::Object(no_fields().push((key, value)))
}

pub fn field(key: &str, value: Json) -> (r: Json)
    ensures
        tree(r) == only(key@, tree(value)),
{
    let mut f = Fields::new();
    f.put(key, value);
    f.done()
}

/// A list that is being made.
#[derive(Debug)]
pub struct Items {
    pub values: Vec<Json>,
}

impl View for Items {
    type V = Seq<Tree>;

    open spec fn view(&self) -> Seq<Tree> {
        trees(self.values@)
    }
}

/// No items.
pub open spec fn no_items() -> Seq<Tree> {
    Seq::empty()
}

impl Items {
    pub fn new() -> (r: Items)
        ensures
            r@ == no_items(),
    {
        let r = Items { values: Vec::new() };
        assert(r@ =~= no_items());
        r
    }

    pub fn put(&mut self, value: Json)
        ensures
            final(self)@ == old(self)@.push(tree(value)),
    {
        let ghost before = self@;
        self.values.push(value);
        assert(self@ =~= before.push(tree(value)));
    }

    pub fn done(self) -> (r: Json)
        ensures
            tree(r) == Tree::List(self@),
    {
        list(self.values)
    }
}

/// A list of values as a JSON value.
pub fn list(values: Vec<Json>) -> (r: Json)
    ensures
        tree(r) == Tree::List(trees(values@)),
{
    let r = Json::List(values);
    assert(tree(r)->List_0 =~= trees(values@));
    r
}

pub fn text_json(s: &str) -> (r: Json)
    ensures
        tree(r) == t(s@),
{
    Json::Text(s.to_owned())
}

/// Texts as JSON values.
pub open spec fn text_trees(v: Seq<Seq<char>>) -> Seq<Tree> {
    Seq::new(v.len(), |i: int| t(v[i]))
}

/// A list of texts as a JSON value.
pub fn texts_json(v: &Vec<String>) -> (r: Json)
    ensures
        tree(r) == Tree::List(text_trees(text::texts(v@))),
{
    let mut out: Vec<Json> = Vec::new();
    let mut i: usize = 0;
    while i < v.len()
        invariant
            i <= v@.len(),
            out@.len() == i,
            forall|k: int| 0 <= k < i ==> tree(#[trigger] out@[k]) == t(v@[k]@),
        decreases v@.len() - i,
    {
        out.push(text_json(v[i].as_str()));
        i += 1;
    }
    assert(trees(out@) =~= text_trees(text::texts(v@)));
    list(out)
}

/// Numbers as JSON values.
pub open spec fn number_trees(v: Seq<Double>) -> Seq<Tree> {
    Seq::new(v.len(), |i: int| Tree::Number(v[i]))
}

/// A list of numbers as a JSON value.
pub fn numbers_json(v: &Vec<Double>) -> (r: Json)
    ensures
        tree(r) == Tree::List(number_trees(v@)),
{
    let mut out: Vec<Json> = Vec::new();
    let mut i: usize = 0;
    while i < v.len()
        invariant
            i <= v@.len(),
            out@.len() == i,
            forall|k: int| 0 <= k < i ==> tree(#[trigger] out@[k]) == Tree::Number(v@[k]),
        decreases v@.len() - i,
    {
        out.push(Json::Number(v[i]));
        i += 1;
    }
    assert(trees(out@) =~= number_trees(v@));
    list(out)
}

/// A text in English.
pub open spec fn english_tree(s: Seq<char>) -> Tree {
    Tree::Object(no_fields().push(("en"@, t(s))))
}

pub fn english(s: &str) -> (r: Json)
    ensures
        tree(r) == english_tree(s@),
{
    let mut f = Fields::new();
    f.put_text("en", s);
    f.done()
}

/// What a reader of an object finds under a name: the last field that bears it.
pub open spec fn found(fields: Seq<(Seq<char>, Tree)>, key: Seq<char>) -> Option<Tree>
    decreases fields.len(),
{
    if fields.len() == 0 {
        None
    } else if fields.last().0 == key {
        Some(fields.last().1)
    } else {
        found(fields.drop_last(), key)
    }
}

/// What a reader of a value finds under a name; nothing where it is no object.
pub open spec fn member(j: Tree, key: Seq<char>) -> Option<Tree> {
    match j {
        Tree::Object(fields) => found(fields, key),
        _ => None,
    }
}

/// What a reader finds under a name within what is found under another.
pub open spec fn within(j: Option<Tree>, key: Seq<char>) -> Option<Tree> {
    match j {
        Some(v) => member(v, key),
        None => None,
    }
}

/// A field that is put last is found under its name, and what is found under any
/// other name stays.
pub broadcast proof fn what_is_put_is_found(
    fields: Seq<(Seq<char>, Tree)>,
    field: (Seq<char>, Tree),
    key: Seq<char>,
)
    ensures
        #[trigger] found(fields.push(field), key) == if field.0 == key {
            Some(field.1)
        } else {
            found(fields, key)
        },
{
    assert(fields.push(field).drop_last() =~= fields);
}

/// Of fields whose names differ, each is found under its own.
pub proof fn a_field_is_found(fields: Seq<(Seq<char>, Tree)>, i: int)
    requires
        0 <= i < fields.len(),
        forall|j: int| i < j < fields.len() ==> (#[trigger] fields[j]).0 != fields[i].0,
    ensures
        found(fields, fields[i].0) == Some(fields[i].1),
    decreases fields.len(),
{
    if i < fields.len() - 1 {
        let front = fields.drop_last();
        assert(fields[fields.len() - 1].0 != fields[i].0);
        assert(front[i] == fields[i]);
        assert forall|j: int| i < j < front.len() implies (#[trigger] front[j]).0
            != front[i].0 by {
            assert(front[j] == fields[j]);
        }
        a_field_is_found(front, i);
    }
}

/// What is found under a name is one of the fields, and bears that name.
pub proof fn what_is_found_was_put(fields: Seq<(Seq<char>, Tree)>, key: Seq<char>)
    ensures
        match found(fields, key) {
            Some(v) => fields.contains((key, v)),
            None => forall|i: int| 0 <= i < fields.len() ==> (#[trigger] fields[i]).0 != key,
        },
    decreases fields.len(),
{
    if fields.len() > 0 && fields.last().0 != key {
        let front = fields.drop_last();
        what_is_found_was_put(front, key);
        match found(front, key) {
            Some(v) => {
                let i = choose|i: int| 0 <= i < front.len() && front[i] == (key, v);
                assert(fields[i] == (key, v));
            },
            None => {
                assert forall|i: int| 0 <= i < fields.len() implies (#[trigger] fields[i]).0
                    != key by {
                    if i < front.len() {
                        assert(front[i] == fields[i]);
                    }
                }
            },
        }
    } else if fields.len() > 0 {
        assert(fields[fields.len() - 1] == (key, fields.last().1));
    }
}

} // verus!
