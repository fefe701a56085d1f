//! GeoJSON encoding: one point feature per grid cell, time and level.
//!
//! GeoJSON has no notion of a coverage, so a result is flattened into features.
//! Cells with no data at all are dropped rather than emitted as null features.
use vstd::prelude::*;

use crate::catalog::Collection;
use crate::double::Double;
use crate::edr::covjson;
use crate::edr::query::{self, format_time, DataRequest};
use crate::edr::result::{ResultRow, ResultSet, Row};
use crate::json::{self, Fields, Json, Tree};

verus! {

/// Whether nothing was measured at a cell: each of its values is missing or not
/// a finite number, so that its feature would hold nulls alone.
pub open spec fn bare(row: Row) -> bool {
    forall|i: int|
        0 <= i < row.values.len() ==> (#[trigger] row.values[i]) is None
            || !row.values[i]->0.finite()
}

/// The properties of a feature: its time, its level, then each value under the
/// name of its parameter.
pub open spec fn valued(
    head: Seq<(Seq<char>, Tree)>,
    names: Seq<Seq<char>>,
    values: Seq<Option<Double>>,
    n: nat,
) -> Seq<(Seq<char>, Tree)>
    decreases n,
{
    if n == 0 {
        head
    } else {
        valued(head, names, values, (n - 1) as nat).push(
            (names[n - 1], covjson::value_tree(values[n - 1])),
        )
    }
}

pub open spec fn properties(c: Collection, names: Seq<Seq<char>>, row: Row) -> Seq<
    (Seq<char>, Tree),
> {
    let dated = json::no_fields().push(("datetime"@, json::t(query::shown_time(row.t))));
    let head = match row.z {
        Some(level) => dated.push(
            (
                match c.z_name {
                    Some(n) => n@,
                    None => "z"@,
                },
                Tree::Number(level),
            ),
        ),
        None => dated,
    };
    valued(
        head,
        names,
        row.values,
        if names.len() <= row.values.len() {
            names.len()
        } else {
            row.values.len()
        },
    )
}

/// The feature of a row.
pub open spec fn feature(c: Collection, names: Seq<Seq<char>>, row: Row) -> Tree {
    Tree::Object(
        json::no_fields().push(("type"@, json::t("Feature"@))).push(
            (
                "geometry"@,
                Tree::Object(
                    json::no_fields().push(("type"@, json::t("Point"@))).push(
                        (
                            "coordinates"@,
                            Tree::List(
                                Seq::<Tree>::empty().push(Tree::Number(row.x)).push(
                                    Tree::Number(row.y),
                                ),
                            ),
                        ),
                    ),
                ),
            ),
        ).push(("properties"@, Tree::Object(properties(c, names, row)))),
    )
}

/// The features of some rows, without those where nothing was measured.
pub open spec fn features(c: Collection, names: Seq<Seq<char>>, rows: Seq<Row>) -> Seq<Tree>
    decreases rows.len(),
{
    if rows.len() == 0 {
        Seq::empty()
    } else if bare(rows.last()) {
        features(c, names, rows.drop_last())
    } else {
        features(c, names, rows.drop_last()).push(feature(c, names, rows.last()))
    }
}

fn is_bare(row: &ResultRow) -> (r: bool)
    ensures
        r == bare(row@),
{
    let mut i: usize = 0;
    while i < row.values.len()
        invariant
            i <= row.values@.len(),
            forall|k: int|
                0 <= k < i ==> (#[trigger] row.values@[k]) is None
                    || !row.values@[k]->0.finite(),
        decreases row.values@.len() - i,
    {
        if let Some(v) = row.values[i] {
            if v.is_finite() {
                assert(row@.values[i as int] == Some(v));
                return false;
            }
        }
        i += 1;
    }
    true
}

fn feature_json(c: &Collection, names: &Vec<String>, row: &ResultRow) -> (j: Json)
    ensures
        json::tree(j) == feature(*c, crate::text::texts(names@), row@),
{
    let mut p = Fields::new();
    p.put_text("datetime", format_time(row.t).as_str());
    if let Some(level) = row.z {
        match &c.z_name {
            Some(n) => p.put(n.as_str(), Json::Number(level)),
            None => p.put("z", Json::Number(level)),
        }
    }
    let n: usize = if names.len() <= row.values.len() {
        names.len()
    } else {
        row.values.len()
    };
    let ghost head = p@;
    let ghost ns = crate::text::texts(names@);
    let mut i: usize = 0;
    while i < n
        invariant
            i <= n,
            n <= names@.len(),
            n <= row.values@.len(),
            ns == crate::text::texts(names@),
            p@ == valued(head, ns, row.values@, i as nat),
        decreases n - i,
    {
        p.put(names[i].as_str(), covjson::value_json(row.values[i]));
        i += 1;
    }
    let mut at: Vec<Json> = Vec::new();
    at.push(Json::Number(row.x));
    at.push(Json::Number(row.y));
    assert(json::trees(at@) =~= Seq::<Tree>::empty().push(Tree::Number(row.x)).push(
        Tree::Number(row.y),
    ));
    let mut g = Fields::new();
    g.put_text("type", "Point");
    g.put("coordinates", json::list(at));
    let mut f = Fields::new();
    f.put_text("type", "Feature");
    f.put("geometry", g.done());
    f.put("properties", p.done());
    f.done()
}

/// A result as a collection of features.
pub open spec fn feature_collection(c: Collection, r: ResultSet) -> Tree {
    Tree::Object(
        json::no_fields().push(("type"@, json::t("FeatureCollection"@))).push(
            ("features"@, Tree::List(features(c, r.params.names(), r.all_rows()))),
        ),
    )
}

/// Encode a result as one point feature per cell, time and level.
pub fn encode(request: &DataRequest, r: &ResultSet) -> (j: Json)
    requires
        r.wf(),
        r.all_rows().len() <= usize::MAX,
    ensures
        json::tree(j) == feature_collection(*request.collection, *r),
{
    let c: &Collection = &request.collection;
    let names = r.parameter_names();
    let rows = r.rows();
    let ghost all = r.all_rows();
    let mut out: Vec<Json> = Vec::new();
    let mut i: usize = 0;
    assert(json::trees(out@) =~= Seq::<Tree>::empty());
    while i < rows.len()
        invariant
            i <= rows@.len(),
            all == r.all_rows(),
            rows@.len() == all.len(),
            forall|k: int| 0 <= k < rows@.len() ==> (#[trigger] rows@[k])@ == all[k],
            crate::text::texts(names@) == r.params.names(),
            json::trees(out@) == features(*c, r.params.names(), all.take(i as int)),
        decreases rows@.len() - i,
    {
        proof {
            assert(all.take(i + 1).drop_last() == all.take(i as int));
            assert(all.take(i + 1).last() == rows@[i as int]@);
        }
        if !is_bare(&rows[i]) {
            let ghost before = json::trees(out@);
            let f = feature_json(c, &names, &rows[i]);
            out.push(f);
            assert(json::trees(out@) =~= before.push(json::tree(f)));
        }
        i += 1;
    }
    assert(all.take(i as int) == all);
    let mut f = Fields::new();
    f.put_text("type", "FeatureCollection");
    f.put("features", json::list(out));
    f.done()
}

proof fn feature_keys_differ()
    ensures
        "type"@ != "geometry"@ && "type"@ != "properties"@ && "geometry"@ != "properties"@,
        "type"@ != "coordinates"@ && "type"@ != "features"@,
{
    reveal_strlit("type");
    reveal_strlit("geometry");
    reveal_strlit("properties");
    reveal_strlit("coordinates");
    reveal_strlit("features");
    assert("type"@.len() == 4 && "geometry"@.len() == 8 && "properties"@.len() == 10);
    assert("coordinates"@.len() == 11 && "features"@.len() == 8);
}

/// A feature stands at the place of its row: a reader finds a point whose first
/// coordinate is the row's longitude and whose second, and last, its latitude.
pub proof fn a_feature_stands_where_its_row_does(c: Collection, names: Seq<Seq<char>>, row: Row)
    ensures
        ({
            let geometry = json::member(feature(c, names, row), "geometry"@);
            &&& json::member(feature(c, names, row), "type"@) == Some(Tree::Text("Feature"@))
            &&& json::within(geometry, "type"@) == Some(Tree::Text("Point"@))
            &&& json::within(geometry, "coordinates"@) matches Some(Tree::List(at)) && at.len()
                == 2 && at[0] == Tree::Number(row.x) && at[1] == Tree::Number(row.y)
        }),
{
    broadcast use json::what_is_put_is_found;

    feature_keys_differ();
}

/// What a property shows of a value.
pub open spec fn shows_value(j: Option<Tree>, v: Option<Double>) -> bool {
    match j {
        Some(Tree::Number(n)) => v == Some(n) && n.finite(),
        Some(Tree::Null) => v is None || !v->0.finite(),
        _ => false,
    }
}

/// Under the name of a parameter a reader of a feature finds that parameter's own
/// value at the row, where no other parameter bears the name.
pub proof fn a_feature_shows_each_value_under_its_name(
    c: Collection,
    names: Seq<Seq<char>>,
    row: Row,
    i: int,
)
    requires
        0 <= i < names.len(),
        names.len() == row.values.len(),
        forall|j: int| 0 <= j < names.len() && j != i ==> #[trigger] names[j] != names[i],
    ensures
        shows_value(
            json::within(json::member(feature(c, names, row), "properties"@), names[i]),
            row.values[i],
        ),
{
    broadcast use json::what_is_put_is_found;

    feature_keys_differ();
    let dated = json::no_fields().push(("datetime"@, json::t(query::shown_time(row.t))));
    let head = match row.z {
        Some(level) => dated.push(
            (
                match c.z_name {
                    Some(n) => n@,
                    None => "z"@,
                },
                Tree::Number(level),
            ),
        ),
        None => dated,
    };
    valued_is_found(head, names, row.values, names.len(), i);
}

proof fn valued_is_found(
    head: Seq<(Seq<char>, Tree)>,
    names: Seq<Seq<char>>,
    values: Seq<Option<Double>>,
    n: nat,
    i: int,
)
    requires
        0 <= i < n <= names.len(),
        names.len() == values.len(),
        forall|j: int| 0 <= j < names.len() && j != i ==> #[trigger] names[j] != names[i],
    ensures
        shows_value(json::found(valued(head, names, values, n), names[i]), values[i]),
    decreases n,
{
    broadcast use json::what_is_put_is_found;

    if i < n - 1 {
        assert(names[n - 1] != names[i]);
        valued_is_found(head, names, values, (n - 1) as nat, i);
    }
}

proof fn valued_keeps_the_head(
    head: Seq<(Seq<char>, Tree)>,
    names: Seq<Seq<char>>,
    values: Seq<Option<Double>>,
    n: nat,
    key: Seq<char>,
)
    requires
        n <= names.len(),
        !names.contains(key),
    ensures
        json::found(valued(head, names, values, n), key) == json::found(head, key),
    decreases n,
{
    broadcast use json::what_is_put_is_found;

    if n > 0 {
        assert(names.contains(names[n - 1]));
        valued_keeps_the_head(head, names, values, (n - 1) as nat, key);
    }
}

/// A feature carries its row's time, and its level under the name of the vertical
/// axis, where neither name is a parameter's.
pub proof fn a_feature_is_dated_and_levelled(c: Collection, names: Seq<Seq<char>>, row: Row)
    requires
        names.len() == row.values.len(),
        !names.contains("datetime"@),
    ensures
        ({
            let found = json::member(feature(c, names, row), "properties"@);
            let level = if c.z_name is Some {
                c.z_name->0@
            } else {
                "z"@
            };
            &&& row.z is None || level != "datetime"@ ==> json::within(found, "datetime"@) == Some(
                Tree::Text(query::shown_time(row.t)),
            )
            &&& row.z matches Some(z) ==> !names.contains(level) ==> json::within(found, level)
                == Some(Tree::Number(z))
        }),
{
    broadcast use json::what_is_put_is_found;

    feature_keys_differ();
    let level = if c.z_name is Some {
        c.z_name->0@
    } else {
        "z"@
    };
    let dated = json::no_fields().push(("datetime"@, json::t(query::shown_time(row.t))));
    let head = match row.z {
        Some(z) => dated.push((level, Tree::Number(z))),
        None => dated,
    };
    valued_keeps_the_head(head, names, row.values, names.len(), "datetime"@);
    if !names.contains(level) {
        valued_keeps_the_head(head, names, row.values, names.len(), level);
    }
}

/// Whether a row holds a finite value.
pub open spec fn measured(row: Row) -> bool {
    exists|i: int|
        0 <= i < row.values.len() && (#[trigger] row.values[i]) is Some
            && row.values[i]->0.finite()
}

/// How many of the first rows hold a finite value.
pub open spec fn measured_before(rows: Seq<Row>, k: int) -> nat
    decreases k,
{
    if k <= 0 {
        0
    } else {
        measured_before(rows, k - 1) + if measured(rows[k - 1]) {
            1nat
        } else {
            0nat
        }
    }
}

/// Every row with a finite value has its feature, after those of the rows before
/// it and no others; and there are no more features than such rows.
pub proof fn each_measured_row_has_its_feature(
    c: Collection,
    names: Seq<Seq<char>>,
    rows: Seq<Row>,
    k: int,
)
    requires
        0 <= k <= rows.len(),
    ensures
        features(c, names, rows).len() == measured_before(rows, rows.len() as int),
        k < rows.len() && measured(rows[k]) ==> measured_before(rows, k) < features(
            c,
            names,
            rows,
        ).len() && features(c, names, rows)[measured_before(rows, k) as int] == feature(
            c,
            names,
            rows[k],
        ),
    decreases rows.len(),
{
    if rows.len() > 0 {
        let front = rows.drop_last();
        let n = front.len() as int;
        measured_of_front(rows, n);
        if k < n {
            each_measured_row_has_its_feature(c, names, front, k);
            measured_of_front(rows, k);
            assert(front[k] == rows[k]);
        } else {
            each_measured_row_has_its_feature(c, names, front, n);
        }
    }
}

proof fn measured_of_front(rows: Seq<Row>, k: int)
    requires
        0 <= k < rows.len(),
    ensures
        measured_before(rows, k) == measured_before(rows.drop_last(), k),
    decreases k,
{
    if k > 0 {
        measured_of_front(rows, k - 1);
    }
}

/// A reader of the document finds the features in its list, and nothing else in
/// it.
pub proof fn a_collection_lists_its_features(c: Collection, r: ResultSet)
    ensures
        json::member(feature_collection(c, r), "type"@) == Some(
            Tree::Text("FeatureCollection"@),
        ),
        json::member(feature_collection(c, r), "features"@) == Some(
            Tree::List(features(c, r.params.names(), r.all_rows())),
        ),
{
    broadcast use json::what_is_put_is_found;

    feature_keys_differ();
}

} // verus!
