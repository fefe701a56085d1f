//! CoverageJSON encoding: the default EDR response format.
use vstd::prelude::*;

use crate::catalog::{Collection, Parameter};
use crate::double::Double;
use crate::edr::query::{self, format_time, DataRequest};
use crate::edr::region::QueryKind;
use crate::edr::result::{self, ParamValues, Range, ResultSet};
use crate::json::{self, english, Fields, Json, Tree};
use crate::text;

verus! {

/// The unit of a parameter. Where the store recorded none, that is said rather
/// than one implied.
pub open spec fn unit_fields(unit: Option<String>) -> Seq<(Seq<char>, Tree)> {
    match unit {
        Some(symbol) => json::no_fields().push(("label"@, json::english_tree(symbol@))).push(
            (
                "symbol"@,
                Tree::Object(
                    json::no_fields().push(("value"@, json::t(symbol@))).push(
                        ("type"@, json::t("http://www.opengis.net/def/uom/UCUM/"@)),
                    ),
                ),
            ),
        ),
        None => json::no_fields().push(("label"@, json::english_tree("unknown"@))),
    }
}

/// The property that a parameter observes.
pub open spec fn observed_fields(p: Parameter) -> Seq<(Seq<char>, Tree)> {
    let named = match p.standard_name {
        Some(name) => json::no_fields().push(
            ("id"@, json::t("http://vocab.nerc.ac.uk/standard_name/"@ + name@ + "/"@)),
        ),
        None => json::no_fields(),
    };
    let labelled = named.push(("label"@, json::english_tree(p.label@)));
    match p.description {
        Some(d) => labelled.push(("description"@, json::english_tree(d@))),
        None => labelled,
    }
}

/// The entry for one parameter.
pub open spec fn parameter_tree(p: Parameter) -> Tree {
    Tree::Object(
        json::no_fields().push(("type"@, json::t("Parameter"@))).push(
            ("id"@, json::t(p.name@)),
        ).push(("label"@, json::english_tree(p.label@))).push(
            (
                "description"@,
                json::english_tree(
                    match p.description {
                        Some(d) => d@,
                        None => p.label@,
                    },
                ),
            ),
        ).push(("unit"@, Tree::Object(unit_fields(p.unit)))).push(
            ("observedProperty"@, Tree::Object(observed_fields(p))),
        ),
    )
}

/// EDR `parameter_names` / CoverageJSON `parameters` entry for one variable.
pub fn parameter_json(p: &Parameter) -> (r: Json)
    ensures
        json::tree(r) == parameter_tree(*p),
{
    let mut unit = Fields::new();
    match &p.unit {
        Some(symbol) => {
            unit.put("label", english(symbol.as_str()));
            let mut s = Fields::new();
            s.put_text("value", symbol.as_str());
            s.put_text("type", "http://www.opengis.net/def/uom/UCUM/");
            unit.put("symbol", s.done());
        },
        None => {
            unit.put("label", english("unknown"));
        },
    }
    let mut observed = Fields::new();
    if let Some(name) = &p.standard_name {
        let mut id: String = "http://vocab.nerc.ac.uk/standard_name/".to_owned();
        id.append(name.as_str());
        id.append("/");
        observed.put_text("id", id.as_str());
    }
    observed.put("label", english(p.label.as_str()));
    let described: &str = match &p.description {
        Some(d) => {
            observed.put("description", english(d.as_str()));
            d.as_str()
        },
        None => p.label.as_str(),
    };
    let mut f = Fields::new();
    f.put_text("type", "Parameter");
    f.put_text("id", p.name.as_str());
    f.put("label", english(p.label.as_str()));
    f.put("description", english(described));
    f.put("unit", unit.done());
    f.put("observedProperty", observed.done());
    f.done()
}

/// The CoverageJSON domain type that matches the shape of a result.
pub open spec fn domain_kind(nx: int, ny: int, nz: int, nt: int) -> Seq<char> {
    let single_cell = nx <= 1 && ny <= 1;
    if single_cell && nz <= 1 && nt <= 1 {
        "Point"@
    } else if single_cell && nz <= 1 {
        "PointSeries"@
    } else if single_cell && nt <= 1 {
        "VerticalProfile"@
    } else {
        "Grid"@
    }
}

/// Pick the CoverageJSON domain type that matches the shape of the result.
pub fn domain_type(nx: usize, ny: usize, nz: usize, nt: usize) -> (r: &'static str)
    ensures
        r@ == domain_kind(nx as int, ny as int, nz as int, nt as int),
{
    let single_cell = nx <= 1 && ny <= 1;
    if single_cell && nz <= 1 && nt <= 1 {
        "Point"
    } else if single_cell && nz <= 1 {
        "PointSeries"
    } else if single_cell && nt <= 1 {
        "VerticalProfile"
    } else {
        "Grid"
    }
}

pub open spec fn one_text(s: Seq<char>) -> Tree {
    Tree::List(seq![json::t(s)])
}

fn one_text_json(s: &str) -> (r: Json)
    ensures
        json::tree(r) == one_text(s@),
{
    let mut v: Vec<Json> = Vec::new();
    v.push(json::text_json(s));
    assert(json::trees(v@) == seq![json::t(s@)]);
    json::list(v)
}

/// One system of reference, and the coordinates that it is of.
pub open spec fn system_tree(coordinates: Tree, system: Seq<(Seq<char>, Tree)>) -> Tree {
    Tree::Object(
        json::no_fields().push(("coordinates"@, coordinates)).push(
            ("system"@, Tree::Object(system)),
        ),
    )
}

fn system(coordinates: Json, of: Fields) -> (r: Json)
    ensures
        json::tree(r) == system_tree(json::tree(coordinates), of@),
{
    let mut f = Fields::new();
    f.put("coordinates", coordinates);
    f.put("system", of.done());
    f.done()
}

pub open spec fn vertical_system(c: Collection) -> Seq<(Seq<char>, Tree)> {
    json::no_fields().push(("type"@, json::t("VerticalCRS"@))).push(
        (
            "cs"@,
            Tree::Object(
                json::no_fields().push(
                    (
                        "csAxes"@,
                        Tree::List(
                            seq![
                                Tree::Object(
                                    json::no_fields().push(
                                        (
                                            "name"@,
                                            json::english_tree(
                                                match c.z_name {
                                                    Some(n) => n@,
                                                    None => "z"@,
                                                },
                                            ),
                                        ),
                                    ).push(("direction"@, json::t("down"@))).push(
                                        (
                                            "unit"@,
                                            Tree::Object(
                                                json::no_fields().push(
                                                    (
                                                        "symbol"@,
                                                        json::t(
                                                            match c.z_units {
                                                                Some(u) => u@,
                                                                None => "unknown"@,
                                                            },
                                                        ),
                                                    ),
                                                ),
                                            ),
                                        ),
                                    ),
                                ),
                            ],
                        ),
                    ),
                ),
            ),
        ),
    )
}

pub open spec fn horizontal_system() -> Tree {
    system_tree(
        Tree::List(Seq::<Tree>::empty().push(json::t("x"@)).push(json::t("y"@))),
        json::no_fields().push(("type"@, json::t("GeographicCRS"@))).push(
            ("id"@, json::t("http://www.opengis.net/def/crs/OGC/1.3/CRS84"@)),
        ),
    )
}

pub open spec fn temporal_system() -> Tree {
    system_tree(
        one_text("t"@),
        json::no_fields().push(("type"@, json::t("TemporalRS"@))).push(
            ("calendar"@, json::t("Gregorian"@)),
        ),
    )
}

/// The systems of reference of a result's coordinates.
pub open spec fn referencing_tree(c: Collection, has_z: bool) -> Tree {
    let horizontal = Seq::<Tree>::empty().push(horizontal_system());
    Tree::List(
        (if has_z {
            horizontal.push(system_tree(one_text("z"@), vertical_system(c)))
        } else {
            horizontal
        }).push(temporal_system()),
    )
}

fn referencing(c: &Collection, has_z: bool) -> (r: Json)
    ensures
        json::tree(r) == referencing_tree(*c, has_z),
{
    let mut systems: Vec<Json> = Vec::new();
    let mut plane: Vec<Json> = Vec::new();
    plane.push(json::text_json("x"));
    plane.push(json::text_json("y"));
    assert(json::trees(plane@) == Seq::<Tree>::empty().push(json::t("x"@)).push(json::t("y"@)));
    let mut crs = Fields::new();
    crs.put_text("type", "GeographicCRS");
    crs.put_text("id", "http://www.opengis.net/def/crs/OGC/1.3/CRS84");
    systems.push(system(json::list(plane), crs));
    if has_z {
        let mut unit = Fields::new();
        match &c.z_units {
            Some(u) => unit.put_text("symbol", u.as_str()),
            None => unit.put_text("symbol", "unknown"),
        }
        let mut axis = Fields::new();
        match &c.z_name {
            Some(n) => axis.put("name", english(n.as_str())),
            None => axis.put("name", english("z")),
        }
        axis.put_text("direction", "down");
        axis.put("unit", unit.done());
        let ghost described = axis@;
        let mut axes: Vec<Json> = Vec::new();
        axes.push(axis.done());
        assert(json::trees(axes@) == seq![Tree::Object(described)]);
        let mut cs = Fields::new();
        cs.put("csAxes", json::list(axes));
        let mut vertical = Fields::new();
        vertical.put_text("type", "VerticalCRS");
        vertical.put("cs", cs.done());
        assert(vertical@ == vertical_system(*c));
        systems.push(system(one_text_json("z"), vertical));
    }
    let mut time = Fields::new();
    time.put_text("type", "TemporalRS");
    time.put_text("calendar", "Gregorian");
    systems.push(system(one_text_json("t"), time));
    assert(json::trees(systems@) =~= referencing_tree(*c, has_z)->List_0);
    json::list(systems)
}

pub open spec fn values_field(values: Tree) -> Tree {
    Tree::Object(json::no_fields().push(("values"@, values)))
}

fn values_json(values: Json) -> (r: Json)
    ensures
        json::tree(r) == values_field(json::tree(values)),
{
    let mut f = Fields::new();
    f.put("values", values);
    f.done()
}

/// Times as they are shown.
pub open spec fn shown_times(ts: Seq<i64>) -> Seq<Seq<char>> {
    Seq::new(ts.len(), |i: int| query::shown_time(ts[i]))
}

/// The domain of a coverage over some longitudes and latitudes.
pub open spec fn domain_tree(
    c: Collection,
    r: ResultSet,
    xs: Seq<Double>,
    ys: Seq<Double>,
) -> Tree {
    let plane = json::no_fields().push(
        ("x"@, values_field(Tree::List(json::number_trees(xs)))),
    ).push(("y"@, values_field(Tree::List(json::number_trees(ys)))));
    let space = if r.z@.len() > 0 {
        plane.push(("z"@, values_field(Tree::List(json::number_trees(r.z@)))))
    } else {
        plane
    };
    let axes = space.push(
        ("t"@, values_field(Tree::List(json::text_trees(shown_times(r.t@))))),
    );
    Tree::Object(
        json::no_fields().push(("type"@, json::t("Domain"@))).push(
            (
                "domainType"@,
                json::t(
                    domain_kind(
                        xs.len() as int,
                        ys.len() as int,
                        r.z@.len() as int,
                        r.t@.len() as int,
                    ),
                ),
            ),
        ).push(("axes"@, Tree::Object(axes))).push(
            ("referencing"@, referencing_tree(c, r.z@.len() > 0)),
        ),
    )
}

fn domain(c: &Collection, r: &ResultSet, xs: &Vec<Double>, ys: &Vec<Double>) -> (d: Json)
    ensures
        json::tree(d) == domain_tree(*c, *r, xs@, ys@),
{
    let mut axes = Fields::new();
    axes.put("x", values_json(json::numbers_json(xs)));
    axes.put("y", values_json(json::numbers_json(ys)));
    if r.z.len() > 0 {
        axes.put("z", values_json(json::numbers_json(&r.z)));
    }
    let mut times: Vec<String> = Vec::new();
    let mut i: usize = 0;
    while i < r.t.len()
        invariant
            i <= r.t@.len(),
            times@.len() == i,
            forall|k: int| 0 <= k < i ==> (#[trigger] times@[k])@ == query::shown_time(r.t@[k]),
        decreases r.t@.len() - i,
    {
        times.push(format_time(r.t[i]));
        i += 1;
    }
    assert(text::texts(times@) =~= shown_times(r.t@));
    axes.put("t", values_json(json::texts_json(&times)));
    let mut f = Fields::new();
    f.put_text("type", "Domain");
    f.put_text("domainType", domain_type(xs.len(), ys.len(), r.z.len(), r.t.len()));
    f.put("axes", axes.done());
    f.put("referencing", referencing(c, r.z.len() > 0));
    f.done()
}

/// A value, or null where it is missing or not finite.
pub open spec fn value_tree(v: Option<Double>) -> Tree {
    match v {
        Some(n) if n.finite() => Tree::Number(n),
        _ => Tree::Null,
    }
}

pub open spec fn value_trees(v: Seq<Option<Double>>) -> Seq<Tree> {
    Seq::new(v.len(), |i: int| value_tree(v[i]))
}

/// A value of a response: null where it is missing or not finite.
pub fn value_json(v: Option<Double>) -> (r: Json)
    ensures
        json::tree(r) == value_tree(v),
{
    match v {
        Some(n) => if n.is_finite() {
            Json::Number(n)
        } else {
            Json::Null
        },
        None => Json::Null,
    }
}

/// CoverageJSON represents a missing value as null.
pub fn encode_values(values: &Vec<Option<Double>>) -> (r: Vec<Json>)
    ensures
        json::trees(r@) == value_trees(values@),
{
    let mut out: Vec<Json> = Vec::new();
    let mut i: usize = 0;
    while i < values.len()
        invariant
            i <= values@.len(),
            out@.len() == i,
            forall|k: int| 0 <= k < i ==> json::tree(#[trigger] out@[k]) == value_tree(values@[k]),
        decreases values@.len() - i,
    {
        out.push(value_json(values[i]));
        i += 1;
    }
    assert(json::trees(out@) =~= value_trees(values@));
    out
}

pub open spec fn count_trees(v: Seq<usize>) -> Seq<Tree> {
    Seq::new(v.len(), |i: int| Tree::Count(v[i]))
}

/// The data type of a parameter's range.
pub open spec fn data_type(c: Collection, name: Seq<char>) -> Seq<char> {
    if c.parameters.content().contains_key(name) {
        c.parameters.content()[name].cov_data_type@
    } else {
        "float"@
    }
}

/// The values of one parameter.
pub open spec fn ndarray_tree(c: Collection, name: Seq<char>, r: Range) -> Tree {
    Tree::Object(
        json::no_fields().push(("type"@, json::t("NdArray"@))).push(
            ("dataType"@, json::t(data_type(c, name))),
        ).push(("axisNames"@, Tree::List(json::text_trees(r.axes)))).push(
            ("shape"@, Tree::List(count_trees(r.shape))),
        ).push(("values"@, Tree::List(value_trees(r.values)))),
    )
}

fn ndarray(c: &Collection, name: &str, values: &ParamValues) -> (r: Json)
    requires
        c.wf(),
    ensures
        json::tree(r) == ndarray_tree(*c, name@, values@),
{
    let kind: &str = match c.parameter(name) {
        Some(p) => p.cov_data_type,
        None => "float",
    };
    let mut axes: Vec<Json> = Vec::new();
    let mut i: usize = 0;
    while i < values.axis_names.len()
        invariant
            i <= values.axis_names@.len(),
            axes@.len() == i,
            forall|k: int|
                0 <= k < i ==> json::tree(#[trigger] axes@[k]) == json::t(values.axis_names@[k]@),
        decreases values.axis_names@.len() - i,
    {
        axes.push(json::text_json(values.axis_names[i]));
        i += 1;
    }
    assert(json::trees(axes@) =~= json::text_trees(values@.axes));
    let mut shape: Vec<Json> = Vec::new();
    let mut j: usize = 0;
    while j < values.shape.len()
        invariant
            j <= values.shape@.len(),
            shape@.len() == j,
            forall|k: int|
                0 <= k < j ==> json::tree(#[trigger] shape@[k]) == Tree::Count(values.shape@[k]),
        decreases values.shape@.len() - j,
    {
        shape.push(Json::Count(values.shape[j]));
        j += 1;
    }
    assert(json::trees(shape@) =~= count_trees(values.shape@));
    let mut f = Fields::new();
    f.put_text("type", "NdArray");
    f.put_text("dataType", kind);
    f.put("axisNames", json::list(axes));
    f.put("shape", json::list(shape));
    f.put("values", json::list(encode_values(&values.values)));
    f.done()
}

/// The entries of those of some parameters that the collection has.
pub open spec fn parameter_fields(c: Collection, names: Seq<Seq<char>>) -> Seq<(Seq<char>, Tree)>
    decreases names.len(),
{
    if names.len() == 0 {
        json::no_fields()
    } else if c.parameters.content().contains_key(names.last()) {
        parameter_fields(c, names.drop_last()).push(
            (names.last(), parameter_tree(c.parameters.content()[names.last()])),
        )
    } else {
        parameter_fields(c, names.drop_last())
    }
}

fn parameters_json(c: &Collection, r: &ResultSet) -> (j: Json)
    requires
        c.wf(),
    ensures
        json::tree(j) == Tree::Object(parameter_fields(*c, r.params.names())),
{
    let mut f = Fields::new();
    let ghost names = r.params.names();
    let mut i: usize = 0;
    assert(names.take(0) == Seq::<Seq<char>>::empty());
    while i < r.params.entries.len()
        invariant
            c.wf(),
            names == r.params.names(),
            i <= r.params.entries@.len(),
            f@ == parameter_fields(*c, names.take(i as int)),
        decreases r.params.entries@.len() - i,
    {
        let name = r.params.entries[i].0.as_str();
        proof {
            assert(names.take(i + 1).drop_last() == names.take(i as int));
            assert(names.take(i + 1).last() == name@);
        }
        if let Some(p) = c.parameter(name) {
            f.put(name, parameter_json(p));
        }
        i += 1;
    }
    assert(names.take(i as int) == names);
    f.done()
}

/// The series at one cell of values that are laid out row-major, with the time
/// and height axes kept.
pub open spec fn cell_series(p: ParamValues, y: int, x: int) -> Range {
    let (nt, nz, ny, nx) = result::dims(p.shape@);
    let has_z = p.has_z();
    Range {
        axes: (if has_z {
            Seq::<Seq<char>>::empty().push("t"@).push("z"@)
        } else {
            Seq::<Seq<char>>::empty().push("t"@)
        }).push("y"@).push("x"@),
        shape: (if has_z {
            Seq::<usize>::empty().push(nt as usize).push(nz as usize)
        } else {
            Seq::<usize>::empty().push(nt as usize)
        }).push(1).push(1),
        values: Seq::new(
            (nt * nz) as nat,
            |k: int|
                result::value_at(
                    p.values@,
                    if has_z {
                        result::flat(k / nz, nz, k % nz, ny, y, nx, x)
                    } else {
                        result::flat(k / nz, 1, 0, ny, y, nx, x)
                    },
                ),
        ),
    }
}

fn sizes(shape: &Vec<usize>) -> (r: (usize, usize, usize, usize))
    ensures
        (r.0 as int, r.1 as int, r.2 as int, r.3 as int) == result::dims(shape@),
{
    if shape.len() == 4 {
        (shape[0], shape[1], shape[2], shape[3])
    } else if shape.len() == 3 {
        (shape[0], 1, shape[1], shape[2])
    } else {
        (1, 1, 1, 1)
    }
}

/// Extract the series at one `(y, x)` cell, keeping the t (and z) axes.
pub fn slice_cell(p: &ParamValues, y: usize, x: usize) -> (r: ParamValues)
    requires
        y < result::dims(p.shape@).2,
        x < result::dims(p.shape@).3,
    ensures
        r@ == cell_series(*p, y as int, x as int),
{
    let (nt, nz, ny, nx) = sizes(&p.shape);
    let has_z = p.spans_z();
    let ghost want = cell_series(*p, y as int, x as int);
    let mut values: Vec<Option<Double>> = Vec::new();
    let mut ti: usize = 0;
    while ti < nt
        invariant
            (nt as int, nz as int, ny as int, nx as int) == result::dims(p.shape@),
            has_z == p.has_z(),
            want == cell_series(*p, y as int, x as int),
            y < ny,
            x < nx,
            ti <= nt,
            values@.len() == ti * nz,
            forall|k: int| 0 <= k < values@.len() ==> #[trigger] values@[k] == want.values[k],
        decreases nt - ti,
    {
        let mut zi: usize = 0;
        while zi < nz
            invariant
                (nt as int, nz as int, ny as int, nx as int) == result::dims(p.shape@),
                has_z == p.has_z(),
                want == cell_series(*p, y as int, x as int),
                y < ny,
                x < nx,
                ti < nt,
                zi <= nz,
                values@.len() == ti * nz + zi,
                forall|k: int| 0 <= k < values@.len() ==> #[trigger] values@[k] == want.values[k],
            decreases nz - zi,
        {
            proof {
                let k = ti * nz + zi;
                vstd::arithmetic::div_mod::lemma_fundamental_div_mod_converse(
                    k,
                    nz as int,
                    ti as int,
                    zi as int,
                );
                assert(0 <= k < nt * nz) by (nonlinear_arith)
                    requires
                        k == ti * nz + zi,
                        0 <= ti < nt,
                        0 <= zi < nz,
                ;
            }
            let v = if has_z {
                result::read_at(&p.values, ti, nz, zi, ny, y, nx, x)
            } else {
                result::read_at(&p.values, ti, 1, 0, ny, y, nx, x)
            };
            values.push(v);
            zi += 1;
        }
        assert((ti + 1) * nz == ti * nz + nz) by (nonlinear_arith);
        ti += 1;
    }
    let mut axis_names: Vec<&'static str> = Vec::new();
    let mut shape: Vec<usize> = Vec::new();
    axis_names.push("t");
    shape.push(nt);
    if has_z {
        axis_names.push("z");
        shape.push(nz);
    }
    axis_names.push("y");
    axis_names.push("x");
    shape.push(1);
    shape.push(1);
    let r = ParamValues { axis_names, shape, values };
    proof {
        assert(r@.axes =~= want.axes);
        assert(r@.shape =~= want.shape);
        assert(r@.values =~= want.values);
    }
    r
}

/// The ranges of a coverage over one cell, one for each of the first `n`
/// parameters.
pub open spec fn cell_ranges(c: Collection, r: ResultSet, y: int, x: int, n: nat) -> Seq<
    (Seq<char>, Tree),
>
    decreases n,
{
    if n == 0 {
        json::no_fields()
    } else {
        let e = r.params.entries@[n - 1];
        cell_ranges(c, r, y, x, (n - 1) as nat).push(
            (e.0@, ndarray_tree(c, e.0@, cell_series(e.1, y, x))),
        )
    }
}

/// A coverage over exactly one grid cell. Inside a collection of coverages the
/// parameters are declared once, at the collection level, so a member omits
/// them.
pub open spec fn cell_coverage(
    c: Collection,
    r: ResultSet,
    y: int,
    x: int,
    include_parameters: bool,
) -> Tree {
    let head = json::no_fields().push(("type"@, json::t("Coverage"@))).push(
        ("domain"@, domain_tree(c, r, seq![r.x@[x]], seq![r.y@[y]])),
    );
    let declared = if include_parameters {
        head.push(("parameters"@, Tree::Object(parameter_fields(c, r.params.names()))))
    } else {
        head
    };
    Tree::Object(
        declared.push(
            ("ranges"@, Tree::Object(cell_ranges(c, r, y, x, r.params.entries@.len()))),
        ),
    )
}

/// A coverage over exactly one grid cell, taken from the result at output
/// indices `(y, x)`.
fn single_cell_coverage(
    c: &Collection,
    r: &ResultSet,
    y: usize,
    x: usize,
    include_parameters: bool,
) -> (j: Json)
    requires
        c.wf(),
        r.wf(),
        y < r.y@.len(),
        x < r.x@.len(),
    ensures
        json::tree(j) == cell_coverage(*c, *r, y as int, x as int, include_parameters),
{
    let mut xs: Vec<Double> = Vec::new();
    xs.push(r.x[x]);
    let mut ys: Vec<Double> = Vec::new();
    ys.push(r.y[y]);
    assert(xs@ == seq![r.x@[x as int]] && ys@ == seq![r.y@[y as int]]);
    let mut ranges = Fields::new();
    let mut i: usize = 0;
    while i < r.params.entries.len()
        invariant
            c.wf(),
            r.wf(),
            y < r.y@.len(),
            x < r.x@.len(),
            i <= r.params.entries@.len(),
            ranges@ == cell_ranges(*c, *r, y as int, x as int, i as nat),
        decreases r.params.entries@.len() - i,
    {
        let entry = &r.params.entries[i];
        assert(result::dims(r.params.entries@[i as int].1.shape@).2 == r.y@.len());
        let series = slice_cell(&entry.1, y, x);
        ranges.put(entry.0.as_str(), ndarray(c, entry.0.as_str(), &series));
        i += 1;
    }
    let mut f = Fields::new();
    f.put_text("type", "Coverage");
    f.put("domain", domain(c, r, &xs, &ys));
    if include_parameters {
        f.put("parameters", parameters_json(c, r));
    }
    f.put("ranges", ranges.done());
    f.done()
}

/// The ranges of a coverage over the whole grid, one for each of the first `n`
/// parameters.
pub open spec fn grid_ranges(c: Collection, r: ResultSet, n: nat) -> Seq<(Seq<char>, Tree)>
    decreases n,
{
    if n == 0 {
        json::no_fields()
    } else {
        let e = r.params.entries@[n - 1];
        grid_ranges(c, r, (n - 1) as nat).push((e.0@, ndarray_tree(c, e.0@, e.1@)))
    }
}

/// Whether a result is encoded as separate coverages: a position query whose
/// points fall on several cells, also where these fill a rectangle. An area or
/// cube is one grid whose unselected cells are null.
pub open spec fn scattered(kind: QueryKind, r: ResultSet) -> bool {
    kind == QueryKind::Position && r.cell_count() > 1
}

/// A result as a Coverage, or a CoverageCollection when a position query asked
/// for several separate points.
pub open spec fn coverage_tree(c: Collection, kind: QueryKind, r: ResultSet) -> Tree {
    let parameters = Tree::Object(parameter_fields(c, r.params.names()));
    if scattered(kind, r) {
        Tree::Object(
            json::no_fields().push(("type"@, json::t("CoverageCollection"@))).push(
                (
                    "domainType"@,
                    json::t(domain_kind(1, 1, r.z@.len() as int, r.t@.len() as int)),
                ),
            ).push(("parameters"@, parameters)).push(
                ("referencing"@, referencing_tree(c, r.z@.len() > 0)),
            ).push(
                (
                    "coverages"@,
                    Tree::List(
                        Seq::new(
                            r.cell_count() as nat,
                            |i: int| cell_coverage(c, r, r.cell(i).0, r.cell(i).1, false),
                        ),
                    ),
                ),
            ),
        )
    } else if kind == QueryKind::Position && r.x@.len() == 1 && r.y@.len() == 1 {
        cell_coverage(c, r, 0, 0, true)
    } else {
        Tree::Object(
            json::no_fields().push(("type"@, json::t("Coverage"@))).push(
                ("domain"@, domain_tree(c, r, r.x@, r.y@)),
            ).push(("parameters"@, parameters)).push(
                ("ranges"@, Tree::Object(grid_ranges(c, r, r.params.entries@.len()))),
            ),
        )
    }
}

/// Encode a result as a Coverage, or a CoverageCollection when a position query
/// asked for several separate points.
pub fn encode(request: &DataRequest, r: &ResultSet) -> (j: Json)
    requires
        request.collection.wf(),
        r.wf(),
    ensures
        json::tree(j) == coverage_tree(*request.collection, request.kind, *r),
{
    let c: &Collection = &request.collection;
    let position = request.kind == QueryKind::Position;
    if position {
        let cells = r.cell_list();
        if cells.len() > 1 {
            let mut coverages: Vec<Json> = Vec::new();
            let mut i: usize = 0;
            while i < cells.len()
                invariant
                    c.wf(),
                    r.wf(),
                    cells@.len() == r.cell_count(),
                    forall|k: int|
                        0 <= k < cells@.len() ==> (#[trigger] cells@[k]).0 < r.y@.len()
                            && cells@[k].1 < r.x@.len() && r.cell(k) == (
                            cells@[k].0 as int,
                            cells@[k].1 as int,
                        ),
                    i <= cells@.len(),
                    coverages@.len() == i,
                    forall|k: int|
                        0 <= k < i ==> json::tree(#[trigger] coverages@[k]) == cell_coverage(
                            *c,
                            *r,
                            r.cell(k).0,
                            r.cell(k).1,
                            false,
                        ),
                decreases cells@.len() - i,
            {
                let (y, x) = cells[i];
                assert(cells@[i as int].0 < r.y@.len());
                coverages.push(single_cell_coverage(c, r, y, x, false));
                i += 1;
            }
            let ghost all = Seq::new(
                r.cell_count() as nat,
                |k: int| cell_coverage(*c, *r, r.cell(k).0, r.cell(k).1, false),
            );
            assert(json::trees(coverages@) =~= all);
            let mut f = Fields::new();
            f.put_text("type", "CoverageCollection");
            f.put_text("domainType", domain_type(1, 1, r.z.len(), r.t.len()));
            f.put("parameters", parameters_json(c, r));
            f.put("referencing", referencing(c, r.z.len() > 0));
            f.put("coverages", json::list(coverages));
            return f.done();
        }
        if r.x.len() == 1 && r.y.len() == 1 {
            return single_cell_coverage(c, r, 0, 0, true);
        }
    }
    let mut ranges = Fields::new();
    let mut i: usize = 0;
    while i < r.params.entries.len()
        invariant
            c.wf(),
            i <= r.params.entries@.len(),
            ranges@ == grid_ranges(*c, *r, i as nat),
        decreases r.params.entries@.len() - i,
    {
        let entry = &r.params.entries[i];
        ranges.put(entry.0.as_str(), ndarray(c, entry.0.as_str(), &entry.1));
        i += 1;
    }
    let mut f = Fields::new();
    f.put_text("type", "Coverage");
    f.put("domain", domain(c, r, &r.x, &r.y));
    f.put("parameters", parameters_json(c, r));
    f.put("ranges", ranges.done());
    f.done()
}

/// The series taken at a cell holds, at each time and level, what the values it
/// was taken from hold there at that cell, each read by its own axis names and
/// shape; it spans the same times and levels, and one cell.
pub proof fn a_series_is_read_where_it_was_taken(p: ParamValues, y: int, x: int, t: int, z: int)
    requires
        p@.laid_out(),
        0 <= t < p.shape@[0],
        p@.axes == result::tall() ==> 0 <= z < p.shape@[1],
        p@.axes == result::level() ==> z == 0,
    ensures
        cell_series(p, y, x).laid_out(),
        cell_series(p, y, x).axes == p@.axes,
        cell_series(p, y, x).shape == p@.shape.update(p@.shape.len() - 2, 1).update(
            p@.shape.len() - 1,
            1,
        ),
        cell_series(p, y, x).reads(t, z, 0, 0) == p@.reads(t, z, y, x),
{
    let s = cell_series(p, y, x);
    let (nt, nz, ny, nx) = result::dims(p.shape@);
    result::axis_names_differ();
    result::places_by_axes(p.shape@, t, z, y, x);
    assert(p@.axes == result::axes_of(p.axis_names@));
    if p@.axes == result::tall() {
        assert(p.has_z());
        assert(s.axes =~= result::tall());
        assert(s.shape =~= p@.shape.update(2, 1).update(3, 1));
        result::places_by_axes(s.shape, t, z, 0, 0);
        let k = t * nz + z;
        vstd::arithmetic::div_mod::lemma_fundamental_div_mod_converse(k, nz, t, z);
        assert(0 <= k < nt * nz) by (nonlinear_arith)
            requires
                k == t * nz + z,
                0 <= t < nt,
                0 <= z < nz,
        ;
        let at = result::place_along(s.axes, s.shape, result::spot(t, z, 0, 0));
        assert(at == ((t * s.shape[1] + z) * 1 + 0) * 1 + 0);
        assert(at == k);
        assert(s.values[k] == result::value_at(p.values@, result::flat(t, nz, z, ny, y, nx, x)));
    } else {
        assert(!p.has_z());
        assert(s.axes =~= result::level());
        assert(s.shape =~= p@.shape.update(1, 1).update(2, 1));
        result::places_by_axes(s.shape, t, z, 0, 0);
        let at = result::place_along(s.axes, s.shape, result::spot(t, z, 0, 0));
        assert(at == (t * 1 + 0) * 1 + 0);
        assert(nt * nz == nt) by (nonlinear_arith)
            requires
                nz == 1,
        ;
        vstd::arithmetic::div_mod::lemma_fundamental_div_mod_converse(t, 1, t, 0);
        assert(result::flat(t, 1, 0, ny, y, nx, x) == (t * ny + y) * nx + x);
        assert(s.values[t] == result::value_at(p.values@, result::flat(t, 1, 0, ny, y, nx, x)));
    }
}

/// The names that an encoded coverage is read by are all different.
pub proof fn keys_differ()
    ensures
        "type"@ != "domain"@ && "type"@ != "parameters"@ && "type"@ != "ranges"@,
        "type"@ != "coverages"@ && "type"@ != "referencing"@ && "type"@ != "domainType"@,
        "domain"@ != "parameters"@ && "domain"@ != "ranges"@,
        "parameters"@ != "ranges"@ && "parameters"@ != "coverages"@,
        "parameters"@ != "referencing"@ && "parameters"@ != "domainType"@,
        "domainType"@ != "coverages"@ && "domainType"@ != "referencing"@,
        "referencing"@ != "coverages"@,
        "axes"@ != "referencing"@ && "axes"@ != "type"@ && "axes"@ != "domainType"@,
        "dataType"@ != "axisNames"@ && "dataType"@ != "shape"@ && "dataType"@ != "values"@,
        "axisNames"@ != "shape"@ && "axisNames"@ != "values"@ && "shape"@ != "values"@,
        "type"@ != "dataType"@ && "type"@ != "axisNames"@ && "type"@ != "shape"@,
        "type"@ != "values"@,
{
    reveal_strlit("type");
    reveal_strlit("domain");
    reveal_strlit("parameters");
    reveal_strlit("ranges");
    reveal_strlit("coverages");
    reveal_strlit("referencing");
    reveal_strlit("domainType");
    reveal_strlit("axes");
    reveal_strlit("dataType");
    reveal_strlit("axisNames");
    reveal_strlit("shape");
    reveal_strlit("values");
    assert("type"@[0] == 't' && "axes"@[0] == 'a');
    assert("dataType"@.len() == 8 && "axisNames"@.len() == 9);
    assert("shape"@.len() == 5 && "values"@.len() == 6);
    assert("domain"@[0] == 'd' && "ranges"@[0] == 'r' && "values"@[0] == 'v');
    assert("coverages"@[0] == 'c' && "axisNames"@[0] == 'a');
    assert("parameters"@[0] == 'p' && "domainType"@[0] == 'd');
}

/// Whether what is found in a document is a range: it names the axes in order,
/// gives their sizes, and lists the values, with null for each that is missing or
/// not finite.
pub open spec fn shows_range(j: Option<Tree>, r: Range) -> bool {
    &&& json::within(j, "axisNames"@) matches Some(Tree::List(names))
    &&& json::within(j, "shape"@) matches Some(Tree::List(sizes))
    &&& json::within(j, "values"@) matches Some(Tree::List(values))
    &&& names.len() == r.axes.len() && sizes.len() == r.shape.len() && values.len()
        == r.values.len()
    &&& forall|k: int| 0 <= k < names.len() ==> #[trigger] names[k] == Tree::Text(r.axes[k])
    &&& forall|k: int| 0 <= k < sizes.len() ==> #[trigger] sizes[k] == Tree::Count(r.shape[k])
    &&& forall|k: int|
        0 <= k < values.len() ==> #[trigger] values[k] == if r.values[k] is Some
            && r.values[k]->0.finite() {
            Tree::Number(r.values[k]->0)
        } else {
            Tree::Null
        }
}

proof fn an_array_shows_its_range(c: Collection, name: Seq<char>, r: Range)
    ensures
        shows_range(Some(ndarray_tree(c, name, r)), r),
{
    broadcast use json::what_is_put_is_found;

    keys_differ();
}

proof fn grid_ranges_are_named(c: Collection, r: ResultSet, n: nat)
    requires
        n <= r.params.entries@.len(),
    ensures
        grid_ranges(c, r, n).len() == n,
        forall|i: int|
            0 <= i < n ==> (#[trigger] grid_ranges(c, r, n)[i]) == (
                r.params.entries@[i].0@,
                ndarray_tree(c, r.params.entries@[i].0@, r.params.entries@[i].1@),
            ),
    decreases n,
{
    if n > 0 {
        grid_ranges_are_named(c, r, (n - 1) as nat);
    }
}

proof fn cell_ranges_are_named(c: Collection, r: ResultSet, y: int, x: int, n: nat)
    requires
        n <= r.params.entries@.len(),
    ensures
        cell_ranges(c, r, y, x, n).len() == n,
        forall|i: int|
            0 <= i < n ==> (#[trigger] cell_ranges(c, r, y, x, n)[i]) == (
                r.params.entries@[i].0@,
                ndarray_tree(
                    c,
                    r.params.entries@[i].0@,
                    cell_series(r.params.entries@[i].1, y, x),
                ),
            ),
    decreases n,
{
    if n > 0 {
        cell_ranges_are_named(c, r, y, x, (n - 1) as nat);
    }
}

proof fn entries_are_found(
    r: ResultSet,
    fields: Seq<(Seq<char>, Tree)>,
    name: Seq<char>,
) -> (i: int)
    requires
        r.params.wf(),
        r.params.content().contains_key(name),
        fields.len() == r.params.entries@.len(),
        forall|k: int|
            0 <= k < fields.len() ==> (#[trigger] fields[k]).0 == r.params.entries@[k].0@,
    ensures
        0 <= i < fields.len(),
        r.params.entries@[i].0@ == name,
        r.params.content()[name] == r.params.entries@[i].1,
        json::found(fields, name) == Some(fields[i].1),
{
    let i = choose|i: int| r.params.bears(name, i);
    r.params.content_at(i);
    assert forall|j: int| i < j < fields.len() implies (#[trigger] fields[j]).0 != fields[i].0 by {
        if fields[j].0 == fields[i].0 {
            r.params.bears_once(name, i, j);
        }
    }
    json::a_field_is_found(fields, i);
    i
}

/// In the coverage of a grid, what is found under a parameter's name is that
/// parameter's own range, its axis names, shape and values those that the result
/// holds under the name; and no other name is found.
pub proof fn a_grid_shows_each_parameter_under_its_name(
    c: Collection,
    kind: QueryKind,
    r: ResultSet,
    name: Seq<char>,
)
    requires
        r.wf(),
        kind != QueryKind::Position || (r.cell_count() <= 1 && !(r.x@.len() == 1 && r.y@.len()
            == 1)),
    ensures
        json::member(coverage_tree(c, kind, r), "type"@) == Some(Tree::Text("Coverage"@)),
        r.params.content().contains_key(name) ==> shows_range(
            json::within(json::member(coverage_tree(c, kind, r), "ranges"@), name),
            r.params.content()[name]@,
        ),
        !r.params.content().contains_key(name) ==> json::within(
            json::member(coverage_tree(c, kind, r), "ranges"@),
            name,
        ) is None,
{
    broadcast use json::what_is_put_is_found;

    keys_differ();
    let n = r.params.entries@.len();
    let fields = grid_ranges(c, r, n);
    grid_ranges_are_named(c, r, n);
    assert(json::member(coverage_tree(c, kind, r), "ranges"@) == Some(Tree::Object(fields)));
    if r.params.content().contains_key(name) {
        let i = entries_are_found(r, fields, name);
        an_array_shows_its_range(c, name, r.params.entries@[i].1@);
    } else {
        json::what_is_found_was_put(fields, name);
        if json::found(fields, name) is Some {
            let v = json::found(fields, name)->0;
            let i = choose|i: int| 0 <= i < fields.len() && fields[i] == (name, v);
            assert(r.params.bears(name, i));
        }
    }
}

/// In the coverage of one cell, what is found under a parameter's name is a range
/// over the same times and levels, which holds at each what the result holds
/// under that name there and at that cell.
pub proof fn a_cell_shows_each_parameter_under_its_name(
    c: Collection,
    r: ResultSet,
    y: int,
    x: int,
    declared: bool,
    name: Seq<char>,
)
    requires
        r.wf(),
        r.params.content().contains_key(name),
        r.params.content()[name]@.laid_out(),
        0 <= y < r.y@.len(),
        0 <= x < r.x@.len(),
    ensures
        exists|s: Range|
            {
                let p = r.params.content()[name]@;
                &&& #[trigger] s.laid_out()
                &&& shows_range(
                    json::within(
                        json::member(cell_coverage(c, r, y, x, declared), "ranges"@),
                        name,
                    ),
                    s,
                )
                &&& s.axes == p.axes
                &&& s.shape == p.shape.update(p.shape.len() - 2, 1).update(p.shape.len() - 1, 1)
                &&& forall|t: int, z: int|
                    0 <= t < p.shape[0] && 0 <= z < (if p.axes == result::tall() {
                        p.shape[1] as int
                    } else {
                        1
                    }) ==> #[trigger] s.reads(t, z, 0, 0) == p.reads(t, z, y, x)
            },
{
    broadcast use json::what_is_put_is_found;

    keys_differ();
    let n = r.params.entries@.len();
    let fields = cell_ranges(c, r, y, x, n);
    cell_ranges_are_named(c, r, y, x, n);
    let doc = cell_coverage(c, r, y, x, declared);
    assert(json::member(doc, "ranges"@) == Some(Tree::Object(fields)));
    let i = entries_are_found(r, fields, name);
    let p = r.params.entries@[i].1;
    let s = cell_series(p, y, x);
    an_array_shows_its_range(c, name, s);
    result::axis_names_differ();
    assert forall|t: int, z: int|
        0 <= t < p@.shape[0] && 0 <= z < (if p@.axes == result::tall() {
            p@.shape[1] as int
        } else {
            1
        }) implies #[trigger] s.reads(t, z, 0, 0) == p@.reads(t, z, y, x) by {
        a_series_is_read_where_it_was_taken(p, y, x, t, z);
    }
    a_shape_of_a_series(p, y, x);
    assert(s.laid_out());
}

proof fn a_shape_of_a_series(p: ParamValues, y: int, x: int)
    requires
        p@.laid_out(),
    ensures
        cell_series(p, y, x).laid_out(),
        cell_series(p, y, x).axes == p@.axes,
        cell_series(p, y, x).shape == p@.shape.update(p@.shape.len() - 2, 1).update(
            p@.shape.len() - 1,
            1,
        ),
{
    let s = cell_series(p, y, x);
    result::axis_names_differ();
    assert(p@.axes == result::axes_of(p.axis_names@));
    if p@.axes == result::tall() {
        assert(s.axes =~= result::tall());
        assert(s.shape =~= p@.shape.update(2, 1).update(3, 1));
    } else {
        assert(s.axes =~= result::level());
        assert(s.shape =~= p@.shape.update(1, 1).update(2, 1));
    }
}

/// Whether what is found in a document is an axis of numbers.
pub open spec fn shows_numbers(j: Option<Tree>, v: Seq<Double>) -> bool {
    &&& json::within(j, "values"@) matches Some(Tree::List(values))
    &&& values.len() == v.len()
    &&& forall|k: int| 0 <= k < v.len() ==> #[trigger] values[k] == Tree::Number(v[k])
}

/// A domain's axes carry the longitudes and latitudes that it is of, the levels of
/// the result where it has any, and its times as they are written.
pub proof fn a_domain_shows_its_axes(
    c: Collection,
    r: ResultSet,
    xs: Seq<Double>,
    ys: Seq<Double>,
)
    ensures
        ({
            let axes = json::member(domain_tree(c, r, xs, ys), "axes"@);
            &&& shows_numbers(json::within(axes, "x"@), xs)
            &&& shows_numbers(json::within(axes, "y"@), ys)
            &&& r.z@.len() > 0 ==> shows_numbers(json::within(axes, "z"@), r.z@)
            &&& r.z@.len() == 0 ==> json::within(axes, "z"@) is None
            &&& json::within(json::within(axes, "t"@), "values"@) matches Some(Tree::List(times))
                && times.len() == r.t@.len() && forall|k: int|
                0 <= k < times.len() ==> #[trigger] times[k] == Tree::Text(
                    query::shown_time(r.t@[k]),
                )
        }),
{
    broadcast use json::what_is_put_is_found;

    keys_differ();
    result::axis_names_differ();
}

/// A position query's answer is a single coverage where its points fall on one
/// cell, and otherwise a collection with one coverage for each cell, in order.
/// Each coverage stands at its own cell and shows every parameter there, and the
/// parameters are described where the coverages do not do so themselves.
pub proof fn a_position_shows_each_of_its_cells(c: Collection, r: ResultSet, i: int)
    requires
        r.wf(),
        0 <= i < r.cell_count(),
        r.cell_count() > 1,
    ensures
        ({
            let doc = coverage_tree(c, QueryKind::Position, r);
            let (y, x) = r.cell(i);
            &&& json::member(doc, "type"@) == Some(Tree::Text("CoverageCollection"@))
            &&& json::member(doc, "parameters"@) is Some
            &&& json::member(doc, "coverages"@) matches Some(Tree::List(coverages))
                && coverages.len() == r.cell_count() && coverages[i] == cell_coverage(
                c,
                r,
                y,
                x,
                false,
            ) && json::member(coverages[i], "type"@) == Some(Tree::Text("Coverage"@))
                && json::member(coverages[i], "parameters"@) is None && json::member(
                coverages[i],
                "domain"@,
            ) == Some(domain_tree(c, r, seq![r.x@[x]], seq![r.y@[y]]))
        }),
{
    broadcast use json::what_is_put_is_found;

    keys_differ();
}

/// A position query that falls on one cell is answered by the coverage of that
/// cell, which describes its parameters itself.
pub proof fn a_position_shows_its_only_cell(c: Collection, r: ResultSet)
    requires
        r.cell_count() <= 1,
        r.x@.len() == 1,
        r.y@.len() == 1,
    ensures
        ({
            let doc = coverage_tree(c, QueryKind::Position, r);
            &&& doc == cell_coverage(c, r, 0, 0, true)
            &&& json::member(doc, "parameters"@) is Some
            &&& json::member(doc, "domain"@) == Some(
                domain_tree(c, r, seq![r.x@[0]], seq![r.y@[0]]),
            )
        }),
{
    broadcast use json::what_is_put_is_found;

    keys_differ();
}

/// The coverage of a grid stands on the result's own longitudes and latitudes.
pub proof fn a_grid_stands_on_the_axes_of_its_result(
    c: Collection,
    kind: QueryKind,
    r: ResultSet,
)
    requires
        kind != QueryKind::Position || (r.cell_count() <= 1 && !(r.x@.len() == 1 && r.y@.len()
            == 1)),
    ensures
        json::member(coverage_tree(c, kind, r), "domain"@) == Some(
            domain_tree(c, r, r.x@, r.y@),
        ),
{
    broadcast use json::what_is_put_is_found;

    keys_differ();
}

proof fn parameter_keys_differ()
    ensures
        "type"@ != "id"@ && "type"@ != "label"@ && "type"@ != "description"@,
        "type"@ != "unit"@ && "type"@ != "observedProperty"@,
        "id"@ != "label"@ && "id"@ != "description"@ && "id"@ != "unit"@,
        "id"@ != "observedProperty"@,
        "label"@ != "description"@ && "label"@ != "unit"@ && "label"@ != "observedProperty"@,
        "description"@ != "unit"@ && "description"@ != "observedProperty"@,
        "unit"@ != "observedProperty"@,
        "label"@ != "symbol"@ && "value"@ != "type"@,
{
    reveal_strlit("type");
    reveal_strlit("id");
    reveal_strlit("label");
    reveal_strlit("description");
    reveal_strlit("unit");
    reveal_strlit("observedProperty");
    reveal_strlit("symbol");
    reveal_strlit("value");
    assert("type"@[0] == 't' && "unit"@[0] == 'u');
    assert("type"@.len() == 4 && "id"@.len() == 2 && "label"@.len() == 5);
    assert("description"@.len() == 11 && "observedProperty"@.len() == 16);
    assert("symbol"@.len() == 6 && "value"@.len() == 5);
}

/// A parameter's entry carries its name, its label, its description or in its
/// place the label, the symbol of its unit where it has one and no symbol where it
/// has none, and its standard name.
pub proof fn an_entry_describes_its_parameter(p: Parameter)
    ensures
        ({
            let j = parameter_tree(p);
            let unit = json::member(j, "unit"@);
            let observed = json::member(j, "observedProperty"@);
            &&& json::member(j, "id"@) == Some(Tree::Text(p.name@))
            &&& json::within(json::member(j, "label"@), "en"@) == Some(Tree::Text(p.label@))
            &&& json::within(json::member(j, "description"@), "en"@) == Some(
                Tree::Text(
                    if p.description is Some {
                        p.description->0@
                    } else {
                        p.label@
                    },
                ),
            )
            &&& p.unit matches Some(u) ==> json::within(json::within(unit, "symbol"@), "value"@)
                == Some(Tree::Text(u@)) && json::within(json::within(unit, "label"@), "en"@)
                == Some(Tree::Text(u@))
            &&& p.unit is None ==> json::within(unit, "symbol"@) is None && json::within(
                json::within(unit, "label"@),
                "en"@,
            ) == Some(Tree::Text("unknown"@))
            &&& p.standard_name matches Some(n) ==> json::within(observed, "id"@) == Some(
                Tree::Text("http://vocab.nerc.ac.uk/standard_name/"@ + n@ + "/"@),
            )
            &&& p.standard_name is None ==> json::within(observed, "id"@) is None
            &&& json::within(json::within(observed, "label"@), "en"@) == Some(Tree::Text(p.label@))
        }),
{
    broadcast use json::what_is_put_is_found;

    parameter_keys_differ();
}

proof fn described_parameters_are_found(c: Collection, names: Seq<Seq<char>>, name: Seq<char>)
    ensures
        json::found(parameter_fields(c, names), name) == if names.contains(name)
            && c.parameters.content().contains_key(name) {
            Some(parameter_tree(c.parameters.content()[name]))
        } else {
            None
        },
    decreases names.len(),
{
    broadcast use json::what_is_put_is_found;

    if names.len() > 0 {
        let front = names.drop_last();
        described_parameters_are_found(c, front, name);
        if names.contains(name) && names.last() != name {
            let k = choose|k: int| 0 <= k < names.len() && names[k] == name;
            assert(front[k] == name);
        }
        if front.contains(name) {
            let k = choose|k: int| 0 <= k < front.len() && front[k] == name;
            assert(names[k] == name);
        }
        if names.last() == name {
            assert(names[names.len() - 1] == name);
        }
    }
}

/// An answer describes, under its name, each parameter that its result holds and
/// the collection has, by that parameter's own entry.
pub proof fn an_answer_describes_its_parameters(
    c: Collection,
    kind: QueryKind,
    r: ResultSet,
    name: Seq<char>,
)
    requires
        r.params.content().contains_key(name),
        c.parameters.content().contains_key(name),
    ensures
        json::within(json::member(coverage_tree(c, kind, r), "parameters"@), name) == Some(
            parameter_tree(c.parameters.content()[name]),
        ),
{
    broadcast use json::what_is_put_is_found;

    keys_differ();
    let i = choose|i: int| r.params.bears(name, i);
    assert(r.params.names()[i] == name);
    described_parameters_are_found(c, r.params.names(), name);
}

/// The domain type says what a result spans: a point neither times nor levels, a
/// series times alone, a profile levels alone, and anything else is a grid.
pub proof fn a_domain_type_says_what_is_spanned(nx: int, ny: int, nz: int, nt: int)
    ensures
        domain_kind(nx, ny, nz, nt) == "Point"@ <==> nx <= 1 && ny <= 1 && nz <= 1 && nt <= 1,
        domain_kind(nx, ny, nz, nt) == "PointSeries"@ <==> nx <= 1 && ny <= 1 && nz <= 1 && nt > 1,
        domain_kind(nx, ny, nz, nt) == "VerticalProfile"@ <==> nx <= 1 && ny <= 1 && nz > 1 && nt
            <= 1,
        domain_kind(nx, ny, nz, nt) == "Grid"@ <==> nx > 1 || ny > 1 || (nz > 1 && nt > 1),
{
    reveal_strlit("Point");
    reveal_strlit("PointSeries");
    reveal_strlit("VerticalProfile");
    reveal_strlit("Grid");
    assert("Point"@.len() == 5 && "PointSeries"@.len() == 11);
    assert("VerticalProfile"@.len() == 15 && "Grid"@.len() == 4);
}

/// A domain's type is that of its own axes.
pub proof fn a_domain_is_of_the_type_of_its_axes(
    c: Collection,
    r: ResultSet,
    xs: Seq<Double>,
    ys: Seq<Double>,
)
    ensures
        json::member(domain_tree(c, r, xs, ys), "domainType"@) == Some(
            Tree::Text(
                domain_kind(
                    xs.len() as int,
                    ys.len() as int,
                    r.z@.len() as int,
                    r.t@.len() as int,
                ),
            ),
        ),
{
    broadcast use json::what_is_put_is_found;

    keys_differ();
}

/// Whether a reference says that some axes are of a system of a type.
pub open spec fn refers(reference: Tree, axes: Seq<Seq<char>>, kind: Seq<char>) -> bool {
    &&& json::member(reference, "coordinates"@) matches Some(Tree::List(named))
    &&& named.len() == axes.len()
    &&& forall|i: int| 0 <= i < axes.len() ==> #[trigger] named[i] == Tree::Text(axes[i])
    &&& json::within(json::member(reference, "system"@), "type"@) == Some(Tree::Text(kind))
}

proof fn a_system_is_read(coordinates: Tree, system: Seq<(Seq<char>, Tree)>)
    ensures
        json::member(system_tree(coordinates, system), "coordinates"@) == Some(coordinates),
        json::member(system_tree(coordinates, system), "system"@) == Some(Tree::Object(system)),
{
    broadcast use json::what_is_put_is_found;

    reveal_strlit("coordinates");
    reveal_strlit("system");
    assert("coordinates"@.len() == 11 && "system"@.len() == 6);
}

/// The axes of a domain refer to their systems: longitude and latitude to CRS84, the
/// time to the Gregorian calendar, and, where there are levels and only there, the
/// levels to a vertical system under the name and in the units of the collection's
/// vertical axis.
pub proof fn axes_refer_to_their_systems(c: Collection, has_z: bool)
    ensures
        ({
            let references = referencing_tree(c, has_z)->List_0;
            let n = references.len();
            &&& referencing_tree(c, has_z) is List
            &&& n == if has_z {
                3int
            } else {
                2
            }
            &&& refers(references[0], seq!["x"@, "y"@], "GeographicCRS"@)
            &&& json::within(json::member(references[0], "system"@), "id"@) == Some(
                Tree::Text("http://www.opengis.net/def/crs/OGC/1.3/CRS84"@),
            )
            &&& refers(references[n - 1], seq!["t"@], "TemporalRS"@)
            &&& json::within(json::member(references[n - 1], "system"@), "calendar"@) == Some(
                Tree::Text("Gregorian"@),
            )
            &&& has_z ==> refers(references[1], seq!["z"@], "VerticalCRS"@)
        }),
{
    broadcast use json::what_is_put_is_found;

    reveal_strlit("type");
    reveal_strlit("id");
    reveal_strlit("calendar");
    reveal_strlit("cs");
    assert("type"@.len() == 4 && "id"@.len() == 2 && "calendar"@.len() == 8 && "cs"@.len() == 2);
    let references = referencing_tree(c, has_z)->List_0;
    a_system_is_read(
        Tree::List(Seq::<Tree>::empty().push(json::t("x"@)).push(json::t("y"@))),
        json::no_fields().push(("type"@, json::t("GeographicCRS"@))).push(
            ("id"@, json::t("http://www.opengis.net/def/crs/OGC/1.3/CRS84"@)),
        ),
    );
    a_system_is_read(
        one_text("t"@),
        json::no_fields().push(("type"@, json::t("TemporalRS"@))).push(
            ("calendar"@, json::t("Gregorian"@)),
        ),
    );
    a_system_is_read(one_text("z"@), vertical_system(c));
    assert(references[0] == horizontal_system());
    assert(references.last() == temporal_system());
    assert(one_text("t"@)->List_0.len() == 1 && one_text("t"@)->List_0[0] == json::t("t"@));
    assert(one_text("z"@)->List_0.len() == 1 && one_text("z"@)->List_0[0] == json::t("z"@));
}

/// The vertical system names its one axis as the collection does, and gives its
/// units.
pub proof fn a_vertical_system_is_that_of_the_collection(c: Collection)
    ensures
        ({
            let cs = json::found(vertical_system(c), "cs"@);
            &&& json::within(cs, "csAxes"@) matches Some(Tree::List(axes))
            &&& axes.len() == 1
            &&& json::within(json::member(axes[0], "name"@), "en"@) == Some(
                Tree::Text(
                    match c.z_name {
                        Some(n) => n@,
                        None => "z"@,
                    },
                ),
            )
            &&& json::within(json::member(axes[0], "unit"@), "symbol"@) == Some(
                Tree::Text(
                    match c.z_units {
                        Some(u) => u@,
                        None => "unknown"@,
                    },
                ),
            )
        }),
{
    broadcast use json::what_is_put_is_found;

    reveal_strlit("name");
    reveal_strlit("direction");
    reveal_strlit("unit");
    assert("name"@.len() == 4 && "direction"@.len() == 9 && "unit"@.len() == 4);
    assert("name"@[0] == 'n' && "unit"@[0] == 'u');
}

/// A domain refers to a vertical system exactly where its result has levels.
pub proof fn a_domain_refers_to_the_systems_of_its_axes(
    c: Collection,
    r: ResultSet,
    xs: Seq<Double>,
    ys: Seq<Double>,
)
    ensures
        json::member(domain_tree(c, r, xs, ys), "referencing"@) == Some(
            if r.z@.len() == 0 {
                referencing_tree(c, false)
            } else {
                referencing_tree(c, true)
            },
        ),
{
    broadcast use json::what_is_put_is_found;

    keys_differ();
}

/// A range is of the data type of its own parameter.
pub proof fn a_range_has_the_type_of_its_parameter(c: Collection, name: Seq<char>, r: Range)
    requires
        c.parameters.content().contains_key(name),
    ensures
        json::member(ndarray_tree(c, name, r), "dataType"@) == Some(
            Tree::Text(c.parameters.content()[name].cov_data_type@),
        ),
{
    broadcast use json::what_is_put_is_found;

    keys_differ();
}

} // verus!
