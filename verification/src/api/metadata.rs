//! Landing page, conformance, and collection metadata.
use vstd::prelude::*;

use crate::api::{self, link, AppState};
use crate::catalog::{self, Collection};
use crate::double::Double;
use crate::edr::covjson::{self, parameter_json};
use crate::edr::query::{self, format_time};
use crate::error::{EdrResult, Fault};
use crate::json::{self, field, text_json, texts_json, Fields, Items, Json, Tree};
use crate::text::{self, same_text};

verus! {

/// The conformance classes this server actually implements. Position, radius,
/// area and cube are served; trajectory, corridor, items, locations and
/// instances are not, and are deliberately absent.
pub const CONFORMANCE: [&'static str; 12] = [
    "http://www.opengis.net/spec/ogcapi-common-1/1.0/conf/core",
    "http://www.opengis.net/spec/ogcapi-common-1/1.0/conf/json",
    "http://www.opengis.net/spec/ogcapi-common-2/1.0/conf/collections",
    "http://www.opengis.net/spec/ogcapi-edr-1/1.1/conf/core",
    "http://www.opengis.net/spec/ogcapi-edr-1/1.1/conf/collections",
    "http://www.opengis.net/spec/ogcapi-edr-1/1.1/conf/json",
    "http://www.opengis.net/spec/ogcapi-edr-1/1.1/conf/geojson",
    "http://www.opengis.net/spec/ogcapi-edr-1/1.1/conf/covjson",
    "http://www.opengis.net/spec/ogcapi-edr-1/1.1/conf/position",
    "http://www.opengis.net/spec/ogcapi-edr-1/1.1/conf/radius",
    "http://www.opengis.net/spec/ogcapi-edr-1/1.1/conf/area",
    "http://www.opengis.net/spec/ogcapi-edr-1/1.1/conf/cube",
];

/// Query types with a `/collections/{id}/{query}` endpoint.
pub const QUERY_TYPES: [(&'static str, &'static str); 4] = [
    ("position", "Data at a position, or at each of several positions"),
    ("radius", "Data within a radius of a position"),
    ("area", "Data within a polygon"),
    ("cube", "Data within a bounding box"),
];

pub const OUTPUT_FORMATS: [&'static str; 3] = ["CoverageJSON", "GeoJSON", "HTML"];

/// The version that the API definition states.
pub const VERSION: &'static str = "0.1.0";

/// CRS84 in well-known text.
pub const CRS84_WKT: &'static str =
    "GEOGCS[\"WGS 84\",DATUM[\"WGS_1984\",SPHEROID[\"WGS 84\",6378137,298.257223563]],PRIMEM[\"Greenwich\",0],UNIT[\"degree\",0.0174532925199433]]";

/// Fixed texts as JSON values.
pub open spec fn fixed_trees(v: Seq<&'static str>) -> Seq<Tree> {
    Seq::new(v.len(), |i: int| json::t(v[i]@))
}

/// A list of fixed texts as a JSON value.
fn fixed_json(v: &[&'static str]) -> (r: Json)
    ensures
        json::tree(r) == Tree::List(fixed_trees(v@)),
{
    let mut items = Items::new();
    let mut i: usize = 0;
    while i < v.len()
        invariant
            i <= v@.len(),
            items@ == fixed_trees(v@.take(i as int)),
        decreases v@.len() - i,
    {
        items.put(text_json(v[i]));
        assert(fixed_trees(v@.take(i + 1)) =~= fixed_trees(v@.take(i as int)).push(
            json::t(v@[i as int]@),
        ));
        i += 1;
    }
    assert(v@.take(i as int) =~= v@);
    items.done()
}

/// The landing page.
pub open spec fn landing_tree(base: Seq<char>) -> Tree {
    Tree::Object(
        json::no_fields().push(
            ("title"@, json::t("ERA5 Environmental Data Retrieval API"@)),
        ).push(
            (
                "description"@,
                json::t(
                    "OGC API - Environmental Data Retrieval over ECMWF ERA5 reanalysis held as cloud-optimised Zarr, queried with zarr-datafusion."@,
                ),
            ),
        ).push(
            (
                "links"@,
                Tree::List(
                    json::no_items().push(
                        api::link_tree(
                            base + "/"@,
                            "self"@,
                            "application/json"@,
                            "This document"@,
                        ),
                    ).push(
                        api::link_tree(
                            base + "/api"@,
                            "service-desc"@,
                            "application/vnd.oai.openapi+json;version=3.0"@,
                            "API definition"@,
                        ),
                    ).push(
                        api::link_tree(
                            base + "/conformance"@,
                            "conformance"@,
                            "application/json"@,
                            "Conformance classes"@,
                        ),
                    ).push(
                        api::link_tree(
                            base + "/collections"@,
                            "data"@,
                            "application/json"@,
                            "Collections"@,
                        ),
                    ).push(
                        api::link_tree(
                            base + "/"@,
                            "alternate"@,
                            "text/html"@,
                            "This document as HTML"@,
                        ),
                    ),
                ),
            ),
        ),
    )
}

pub fn landing(state: &AppState) -> (r: Json)
    ensures
        json::tree(r) == landing_tree(state.config.base_url@),
{
    let mut links = Items::new();
    links.put(link(state.href("/"), "self", "application/json", "This document"));
    links.put(
        link(
            state.href("/api"),
            "service-desc",
            "application/vnd.oai.openapi+json;version=3.0",
            "API definition",
        ),
    );
    links.put(
        link(state.href("/conformance"), "conformance", "application/json", "Conformance classes"),
    );
    links.put(link(state.href("/collections"), "data", "application/json", "Collections"));
    links.put(link(state.href("/"), "alternate", "text/html", "This document as HTML"));
    let mut f = Fields::new();
    f.put_text("title", "ERA5 Environmental Data Retrieval API");
    f.put_text(
        "description",
        "OGC API - Environmental Data Retrieval over ECMWF ERA5 reanalysis held as cloud-optimised Zarr, queried with zarr-datafusion.",
    );
    f.put("links", links.done());
    f.done()
}

/// A document's links to itself and to its page.
pub open spec fn both_links(href: Seq<char>, title: Seq<char>) -> Seq<Tree> {
    json::no_items().push(api::link_tree(href, "self"@, "application/json"@, title)).push(
        api::link_tree(href, "alternate"@, "text/html"@, "This document as HTML"@),
    )
}

fn put_both_links(links: &mut Items, state: &AppState, path: &str, title: &str)
    requires
        old(links)@ == json::no_items(),
    ensures
        final(links)@ == both_links(state.config.base_url@ + path@, title@),
{
    links.put(link(state.href(path), "self", "application/json", title));
    links.put(link(state.href(path), "alternate", "text/html", "This document as HTML"));
}

/// The conformance declaration.
pub open spec fn conformance_tree(base: Seq<char>) -> Tree {
    Tree::Object(
        json::no_fields().push(("conformsTo"@, Tree::List(fixed_trees(CONFORMANCE@)))).push(
            ("links"@, Tree::List(both_links(base + "/conformance"@, "Conformance classes"@))),
        ),
    )
}

pub fn conformance(state: &AppState) -> (r: Json)
    ensures
        json::tree(r) == conformance_tree(state.config.base_url@),
{
    let mut links = Items::new();
    put_both_links(&mut links, state, "/conformance", "Conformance classes");
    let mut f = Fields::new();
    f.put("conformsTo", fixed_json(CONFORMANCE.as_slice()));
    f.put("links", links.done());
    f.done()
}

/// The list of collections, in the order of their identifiers.
pub open spec fn collections_tree(state: AppState) -> Tree {
    let base = state.config.base_url@;
    Tree::Object(
        json::no_fields().push(
            ("links"@, Tree::List(both_links(base + "/collections"@, "Collections"@))),
        ).push(
            (
                "collections"@,
                Tree::List(
                    Seq::new(
                        state.catalog.collections.entries@.len(),
                        |i: int|
                            collection_tree(base, *state.catalog.collections.entries@[i].1),
                    ),
                ),
            ),
        ),
    )
}

pub fn collections(state: &AppState) -> (r: Json)
    requires
        state.wf(),
    ensures
        json::tree(r) == collections_tree(*state),
{
    let entries = &state.catalog.collections.entries;
    let ghost base = state.config.base_url@;
    let ghost all = Seq::new(entries@.len(), |i: int| collection_tree(base, *entries@[i].1));
    let mut items = Items::new();
    let mut i: usize = 0;
    assert(all.take(0) =~= json::no_items());
    while i < entries.len()
        invariant
            state.wf(),
            entries@ == state.catalog.collections.entries@,
            base == state.config.base_url@,
            all == Seq::new(entries@.len(), |i: int| collection_tree(base, *entries@[i].1)),
            i <= entries@.len(),
            items@ == all.take(i as int),
        decreases entries@.len() - i,
    {
        assert(state.catalog.collections.entries@[i as int].1.wf());
        items.put(collection_json(state, &entries[i].1));
        assert(all.take(i + 1) =~= all.take(i as int).push(all[i as int]));
        i += 1;
    }
    assert(all.take(i as int) =~= all);
    let mut links = Items::new();
    put_both_links(&mut links, state, "/collections", "Collections");
    let mut f = Fields::new();
    f.put("links", links.done());
    f.put("collections", items.done());
    f.done()
}

/// The document of one collection, found by its identifier.
pub fn collection(state: &AppState, id: &str) -> (r: EdrResult<Json>)
    requires
        state.wf(),
    ensures
        match r {
            Ok(j) => state.catalog.collections.content().contains_key(id@) && json::tree(j)
                == collection_tree(
                state.config.base_url@,
                *state.catalog.collections.content()[id@],
            ),
            Err(e) => !state.catalog.collections.content().contains_key(id@) && e@
                == Fault::NotFound("No collection with id '"@ + id@ + "'"@),
        },
{
    match state.catalog.collection(id) {
        Ok(c) => {
            proof {
                let m = state.catalog.collections;
                let i = choose|i: int| m.bears(id@, i);
                m.content_at(i);
                assert(m.entries@[i].1.wf());
            }
            Ok(collection_json(state, c))
        },
        Err(e) => Err(e),
    }
}

/// The spatial extent of a collection.
pub open spec fn spatial_tree(c: Collection) -> Tree {
    Tree::Object(
        json::no_fields().push(
            (
                "bbox"@,
                Tree::List(json::no_items().push(Tree::List(json::number_trees(c.corners())))),
            ),
        ).push(("crs"@, json::t(CRS84_WKT@))),
    )
}

fn spatial_json(c: &Collection) -> (r: Json)
    requires
        c.wf(),
    ensures
        json::tree(r) == spatial_tree(*c),
{
    let bounds = c.bbox();
    let mut corners: Vec<Double> = Vec::new();
    let mut i: usize = 0;
    while i < 4
        invariant
            i <= 4,
            corners@ == bounds@.take(i as int),
        decreases 4 - i,
    {
        corners.push(bounds[i]);
        assert(bounds@.take(i + 1) =~= bounds@.take(i as int).push(bounds@[i as int]));
        i += 1;
    }
    assert(corners@ =~= bounds@);
    let mut bbox = Items::new();
    bbox.put(json::numbers_json(&corners));
    let mut f = Fields::new();
    f.put("bbox", bbox.done());
    f.put_text("crs", CRS84_WKT);
    f.done()
}

/// The temporal extent of a collection.
pub open spec fn temporal_tree(c: Collection) -> Tree {
    let (start, end) = catalog::extent(c.t.values@, c.valid_time);
    let (from, to) = (query::shown_time(start), query::shown_time(end));
    Tree::Object(
        json::no_fields().push(
            (
                "interval"@,
                Tree::List(
                    json::no_items().push(
                        Tree::List(json::no_items().push(json::t(from)).push(json::t(to))),
                    ),
                ),
            ),
        ).push(
            ("values"@, Tree::List(json::no_items().push(json::t(from + "/"@ + to)))),
        ).push(
            (
                "trs"@,
                json::t(
                    "TIMECRS[\"DateTime\",TDATUM[\"Gregorian Calendar\"],CS[TemporalDateTime,1],AXIS[\"Time (T)\",future]]"@,
                ),
            ),
        ),
    )
}

fn temporal_json(c: &Collection) -> (r: Json)
    ensures
        json::tree(r) == temporal_tree(*c),
{
    let (start, end) = c.time_extent();
    let from = format_time(start);
    let to = format_time(end);
    let mut ends = Items::new();
    ends.put(text_json(from.as_str()));
    ends.put(text_json(to.as_str()));
    let mut interval = Items::new();
    interval.put(ends.done());
    let mut span: String = from;
    span.append("/");
    span.append(to.as_str());
    let mut values = Items::new();
    values.put(text_json(span.as_str()));
    let mut f = Fields::new();
    f.put("interval", interval.done());
    f.put("values", values.done());
    f.put_text(
        "trs",
        "TIMECRS[\"DateTime\",TDATUM[\"Gregorian Calendar\"],CS[TemporalDateTime,1],AXIS[\"Time (T)\",future]]",
    );
    f.done()
}

/// A name, or what stands for it where there is none.
pub open spec fn name_or(name: Option<String>, otherwise: Seq<char>) -> Seq<char> {
    match name {
        Some(s) => s@,
        None => otherwise,
    }
}

/// The vertical extent of a collection.
pub open spec fn vertical_tree(c: Collection, z: Seq<Double>) -> Tree {
    Tree::Object(
        json::no_fields().push(
            (
                "interval"@,
                Tree::List(
                    json::no_items().push(
                        Tree::List(
                            json::no_items().push(Tree::Number(z.first())).push(
                                Tree::Number(z.last()),
                            ),
                        ),
                    ),
                ),
            ),
        ).push(("values"@, Tree::List(json::number_trees(z)))).push(
            (
                "vrs"@,
                json::t(
                    "VERTCRS[\""@ + name_or(c.z_name, "z"@) + "\",VERT_CS[\""@ + name_or(
                        c.z_units,
                        "unknown"@,
                    ) + "\"]]"@,
                ),
            ),
        ),
    )
}

fn vertical_json(c: &Collection, z: &Vec<Double>) -> (r: Json)
    requires
        z@.len() > 0,
    ensures
        json::tree(r) == vertical_tree(*c, z@),
{
    let mut ends = Items::new();
    ends.put(Json::Number(z[0]));
    ends.put(Json::Number(z[z.len() - 1]));
    let mut interval = Items::new();
    interval.put(ends.done());
    let mut vrs: String = "VERTCRS[\"".to_owned();
    vrs.append(
        match &c.z_name {
            Some(s) => s.as_str(),
            None => "z",
        },
    );
    vrs.append("\",VERT_CS[\"");
    vrs.append(
        match &c.z_units {
            Some(s) => s.as_str(),
            None => "unknown",
        },
    );
    vrs.append("\"]]");
    let mut f = Fields::new();
    f.put("interval", interval.done());
    f.put("values", json::numbers_json(z));
    f.put_text("vrs", vrs.as_str());
    f.done()
}

/// The extent of a collection: where, when, and, where it has levels, how high.
pub open spec fn extent_tree(c: Collection) -> Tree {
    let flat = json::no_fields().push(("spatial"@, spatial_tree(c))).push(
        ("temporal"@, temporal_tree(c)),
    );
    Tree::Object(
        match c.z {
            Some(z) => flat.push(("vertical"@, vertical_tree(c, z.values@))),
            None => flat,
        },
    )
}

fn extent_json(c: &Collection) -> (r: Json)
    requires
        c.wf(),
    ensures
        json::tree(r) == extent_tree(*c),
{
    let mut f = Fields::new();
    f.put("spatial", spatial_json(c));
    f.put("temporal", temporal_json(c));
    if let Some(z) = &c.z {
        f.put("vertical", vertical_json(c, &z.values));
    }
    f.done()
}

/// The entry for one query type.
pub open spec fn data_query_tree(href: Seq<char>, name: Seq<char>, title: Seq<char>) -> Tree {
    let details = Tree::Object(
        json::no_fields().push(("crs"@, json::t("CRS84"@))).push(("wkt"@, json::t(CRS84_WKT@))),
    );
    let variables = Tree::Object(
        json::no_fields().push(("title"@, json::t(title))).push(
            ("query_type"@, json::t(name)),
        ).push(("output_formats"@, Tree::List(fixed_trees(OUTPUT_FORMATS@)))).push(
            ("default_output_format"@, json::t("CoverageJSON"@)),
        ).push(("crs_details"@, Tree::List(json::no_items().push(details)))),
    );
    json::only(
        "link"@,
        Tree::Object(
            json::no_fields().push(("href"@, json::t(href))).push(("rel"@, json::t("data"@))).push(
                ("type"@, json::t("application/prs.coverage+json"@)),
            ).push(("title"@, json::t(title))).push(("variables"@, variables)),
        ),
    )
}

fn data_query_json(href: &str, name: &str, title: &str) -> (r: Json)
    ensures
        json::tree(r) == data_query_tree(href@, name@, title@),
{
    let mut detail = Fields::new();
    detail.put_text("crs", "CRS84");
    detail.put_text("wkt", CRS84_WKT);
    let mut details = Items::new();
    details.put(detail.done());
    let mut variables = Fields::new();
    variables.put_text("title", title);
    variables.put_text("query_type", name);
    variables.put("output_formats", fixed_json(OUTPUT_FORMATS.as_slice()));
    variables.put_text("default_output_format", "CoverageJSON");
    variables.put("crs_details", details.done());
    let mut f = Fields::new();
    f.put_text("href", href);
    f.put_text("rel", "data");
    f.put_text("type", "application/prs.coverage+json");
    f.put_text("title", title);
    f.put("variables", variables.done());
    field("link", f.done())
}

/// The entries for the first `n` query types of a collection whose path is
/// `path`.
pub open spec fn data_query_fields(base: Seq<char>, path: Seq<char>, n: nat) -> Seq<
    (Seq<char>, Tree),
>
    decreases n,
{
    if n == 0 {
        json::no_fields()
    } else {
        let (name, title) = QUERY_TYPES@[n - 1];
        data_query_fields(base, path, (n - 1) as nat).push(
            (name@, data_query_tree(base + (path + "/"@ + name@), name@, title@)),
        )
    }
}

/// The entries for the first `n` parameters of a collection.
pub open spec fn parameter_entries(c: Collection, n: nat) -> Seq<(Seq<char>, Tree)>
    decreases n,
{
    if n == 0 {
        json::no_fields()
    } else {
        let p = c.parameters.entries@[n - 1].1;
        parameter_entries(c, (n - 1) as nat).push((p.name@, covjson::parameter_tree(p)))
    }
}

/// The EDR collection object: extents, the query endpoints, and the parameters.
pub open spec fn collection_tree(base: Seq<char>, c: Collection) -> Tree {
    let path = "/collections/"@ + c.id@;
    Tree::Object(
        json::no_fields().push(("id"@, json::t(c.id@))).push(("title"@, json::t(c.title@))).push(
            ("description"@, json::t(c.description@)),
        ).push(("keywords"@, Tree::List(json::text_trees(text::texts(c.keywords@))))).push(
            ("extent"@, extent_tree(c)),
        ).push(
            (
                "links"@,
                Tree::List(
                    both_links(base + path, c.title@).push(
                        api::link_tree(
                            base + "/collections"@,
                            "collection"@,
                            "application/json"@,
                            "Collections"@,
                        ),
                    ),
                ),
            ),
        ).push(("data_queries"@, Tree::Object(data_query_fields(base, path, 4)))).push(
            ("crs"@, Tree::List(json::no_items().push(json::t("CRS84"@)))),
        ).push(("output_formats"@, Tree::List(fixed_trees(OUTPUT_FORMATS@)))).push(
            (
                "parameter_names"@,
                Tree::Object(parameter_entries(c, c.parameters.entries@.len())),
            ),
        ),
    )
}

pub fn collection_json(state: &AppState, c: &Collection) -> (r: Json)
    requires
        c.wf(),
    ensures
        json::tree(r) == collection_tree(state.config.base_url@, *c),
{
    let ghost base = state.config.base_url@;
    let mut path: String = "/collections/".to_owned();
    path.append(c.id.as_str());

    let mut queries = Fields::new();
    let mut i: usize = 0;
    while i < 4
        invariant
            i <= 4,
            base == state.config.base_url@,
            queries@ == data_query_fields(base, path@, i as nat),
        decreases 4 - i,
    {
        let (name, title) = QUERY_TYPES[i];
        let mut at: String = path.clone();
        at.append("/");
        at.append(name);
        queries.put(name, data_query_json(state.href(at.as_str()).as_str(), name, title));
        i += 1;
    }

    let mut parameters = Fields::new();
    let mut k: usize = 0;
    while k < c.parameters.entries.len()
        invariant
            k <= c.parameters.entries@.len(),
            parameters@ == parameter_entries(*c, k as nat),
        decreases c.parameters.entries@.len() - k,
    {
        let p = &c.parameters.entries[k].1;
        parameters.put(p.name.as_str(), parameter_json(p));
        k += 1;
    }

    let mut links = Items::new();
    put_both_links(&mut links, state, path.as_str(), c.title.as_str());
    links.put(link(state.href("/collections"), "collection", "application/json", "Collections"));
    let mut crs = Items::new();
    crs.put(text_json("CRS84"));

    let mut f = Fields::new();
    f.put_text("id", c.id.as_str());
    f.put_text("title", c.title.as_str());
    f.put_text("description", c.description.as_str());
    f.put("keywords", texts_json(&c.keywords));
    f.put("extent", extent_json(c));
    f.put("links", links.done());
    f.put("data_queries", queries.done());
    f.put("crs", crs.done());
    f.put("output_formats", fixed_json(OUTPUT_FORMATS.as_slice()));
    f.put("parameter_names", parameters.done());
    f.done()
}

/// A parameter of an endpoint, as the API definition describes it.
pub open spec fn described(
    name: Seq<char>,
    place: Seq<char>,
    required: bool,
    description: Option<Seq<char>>,
    schema: Tree,
) -> Tree {
    let named = json::no_fields().push(("name"@, json::t(name))).push(("in"@, json::t(place)));
    let demanded = if required {
        named.push(("required"@, Tree::Bool(true)))
    } else {
        named
    };
    let explained = match description {
        Some(d) => demanded.push(("description"@, json::t(d))),
        None => demanded,
    };
    Tree::Object(explained.push(("schema"@, schema)))
}

fn describe(
    name: &str,
    place: &str,
    required: bool,
    description: Option<&str>,
    schema: Json,
) -> (r: Json)
    ensures
        json::tree(r) == described(
            name@,
            place@,
            required,
            api::maybe(description),
            json::tree(schema),
        ),
{
    let mut f = Fields::new();
    f.put_text("name", name);
    f.put_text("in", place);
    if required {
        f.put("required", Json::Bool(true));
    }
    if let Some(d) = description {
        f.put_text("description", d);
    }
    f.put("schema", schema);
    f.done()
}

/// A schema that says no more than the type.
pub open spec fn typed(kind: Seq<char>) -> Tree {
    json::only("type"@, json::t(kind))
}

fn type_json(kind: &str) -> (r: Json)
    ensures
        json::tree(r) == typed(kind@),
{
    field("type", text_json(kind))
}

/// A count of at least one.
pub open spec fn counted() -> Tree {
    Tree::Object(
        json::no_fields().push(("type"@, json::t("integer"@))).push(("minimum"@, Tree::Count(1))),
    )
}

fn count_json() -> (r: Json)
    ensures
        json::tree(r) == counted(),
{
    let mut f = Fields::new();
    f.put_text("type", "integer");
    f.put("minimum", Json::Count(1));
    f.done()
}

/// One of several texts, with a default where there is one.
pub open spec fn one_of(choices: Seq<Tree>, default: Option<Seq<char>>) -> Tree {
    let listed = json::no_fields().push(("type"@, json::t("string"@))).push(
        ("enum"@, Tree::List(choices)),
    );
    Tree::Object(
        match default {
            Some(d) => listed.push(("default"@, json::t(d))),
            None => listed,
        },
    )
}

fn choice_json(choices: Json, default: Option<&str>) -> (r: Json)
    requires
        json::tree(choices) is List,
    ensures
        json::tree(r) == one_of(json::tree(choices)->List_0, api::maybe(default)),
{
    let mut f = Fields::new();
    f.put_text("type", "string");
    f.put("enum", choices);
    if let Some(d) = default {
        f.put_text("default", d);
    }
    f.done()
}

/// The parameter that names the collection.
pub open spec fn collection_id_tree(ids: Seq<Seq<char>>) -> Tree {
    described("collectionId"@, "path"@, true, None, one_of(json::text_trees(ids), None))
}

fn collection_id_json(ids: &Vec<String>) -> (r: Json)
    ensures
        json::tree(r) == collection_id_tree(text::texts(ids@)),
{
    describe("collectionId", "path", true, None, choice_json(texts_json(ids), None))
}

/// The units of a radius.
pub const RADIUS_UNITS: [&'static str; 5] = ["m", "km", "mi", "nmi", "ft"];

/// The parameters that every query takes, after those in `s`.
pub open spec fn with_common(s: Seq<Tree>) -> Seq<Tree> {
    s.push(
        described(
            "parameter-name"@,
            "query"@,
            true,
            Some("Comma-separated parameter names."@),
            typed("string"@),
        ),
    ).push(
        described(
            "datetime"@,
            "query"@,
            false,
            Some(
                "RFC 3339 instant or interval; '..' leaves an end open. Defaults to the latest available time step."@,
            ),
            typed("string"@),
        ),
    ).push(
        described(
            "z"@,
            "query"@,
            false,
            Some(
                "Vertical level: a value, a comma-separated list, 'min/max', 'R{count}/{start}/{step}', or 'all'."@,
            ),
            typed("string"@),
        ),
    ).push(
        described(
            "crs"@,
            "query"@,
            false,
            None,
            Tree::Object(
                json::no_fields().push(("type"@, json::t("string"@))).push(
                    ("default"@, json::t("CRS84"@)),
                ),
            ),
        ),
    ).push(
        described(
            "f"@,
            "query"@,
            false,
            None,
            one_of(fixed_trees(OUTPUT_FORMATS@), Some("CoverageJSON"@)),
        ),
    ).push(
        described(
            "limit"@,
            "query"@,
            false,
            Some("Maximum number of data values in the response."@),
            counted(),
        ),
    )
}

fn put_common(items: &mut Items)
    ensures
        final(items)@ == with_common(old(items)@),
{
    items.put(
        describe(
            "parameter-name",
            "query",
            true,
            Some("Comma-separated parameter names."),
            type_json("string"),
        ),
    );
    items.put(
        describe(
            "datetime",
            "query",
            false,
            Some(
                "RFC 3339 instant or interval; '..' leaves an end open. Defaults to the latest available time step.",
            ),
            type_json("string"),
        ),
    );
    items.put(
        describe(
            "z",
            "query",
            false,
            Some(
                "Vertical level: a value, a comma-separated list, 'min/max', 'R{count}/{start}/{step}', or 'all'.",
            ),
            type_json("string"),
        ),
    );
    let mut crs = Fields::new();
    crs.put_text("type", "string");
    crs.put_text("default", "CRS84");
    items.put(describe("crs", "query", false, None, crs.done()));
    items.put(
        describe(
            "f",
            "query",
            false,
            None,
            choice_json(fixed_json(OUTPUT_FORMATS.as_slice()), Some("CoverageJSON")),
        ),
    );
    items.put(
        describe(
            "limit",
            "query",
            false,
            Some("Maximum number of data values in the response."),
            count_json(),
        ),
    );
}

/// The parameter that thins one axis.
pub open spec fn resolution_tree(axis: Seq<char>) -> Tree {
    described(
        "resolution-"@ + axis,
        "query"@,
        false,
        Some("Thin the axis to this many points."@),
        counted(),
    )
}

fn resolution_json(axis: &str) -> (r: Json)
    ensures
        json::tree(r) == resolution_tree(axis@),
{
    let mut name: String = "resolution-".to_owned();
    name.append(axis);
    describe(
        name.as_str(),
        "query",
        false,
        Some("Thin the axis to this many points."),
        count_json(),
    )
}

/// The parameters that one query type takes: the collection, its geometry, what
/// only it takes, and what every query takes.
pub open spec fn endpoint_parameters(ids: Seq<Seq<char>>, name: Seq<char>) -> Seq<Tree> {
    let located = json::no_items().push(collection_id_tree(ids)).push(
        if name == "cube"@ {
            described(
                "bbox"@,
                "query"@,
                true,
                Some("west,south,east,north (optionally with min/max z as six values)."@),
                typed("string"@),
            )
        } else {
            described(
                "coords"@,
                "query"@,
                true,
                Some("WKT geometry in CRS84."@),
                typed("string"@),
            )
        },
    );
    let ranged = if name == "radius"@ {
        located.push(described("within"@, "query"@, true, None, typed("number"@))).push(
            described(
                "within-units"@,
                "query"@,
                false,
                None,
                one_of(fixed_trees(RADIUS_UNITS@), Some("km"@)),
            ),
        )
    } else {
        located
    };
    let thinned = if name == "area"@ || name == "cube"@ {
        ranged.push(resolution_tree("x"@)).push(resolution_tree("y"@)).push(resolution_tree("z"@))
    } else {
        ranged
    };
    with_common(thinned)
}

fn endpoint_json(ids: &Vec<String>, name: &str) -> (r: Json)
    ensures
        json::tree(r) == Tree::List(endpoint_parameters(text::texts(ids@), name@)),
{
    let mut items = Items::new();
    items.put(collection_id_json(ids));
    if same_text(name, "cube") {
        items.put(
            describe(
                "bbox",
                "query",
                true,
                Some("west,south,east,north (optionally with min/max z as six values)."),
                type_json("string"),
            ),
        );
    } else {
        items.put(
            describe(
                "coords",
                "query",
                true,
                Some("WKT geometry in CRS84."),
                type_json("string"),
            ),
        );
    }
    if same_text(name, "radius") {
        items.put(describe("within", "query", true, None, type_json("number")));
        items.put(
            describe(
                "within-units",
                "query",
                false,
                None,
                choice_json(fixed_json(RADIUS_UNITS.as_slice()), Some("km")),
            ),
        );
    }
    if same_text(name, "area") || same_text(name, "cube") {
        items.put(resolution_json("x"));
        items.put(resolution_json("y"));
        items.put(resolution_json("z"));
    }
    put_common(&mut items);
    items.done()
}

/// An answer that the API definition announces.
pub open spec fn answer(description: Seq<char>) -> Tree {
    json::only("description"@, json::t(description))
}

fn answer_json(description: &str) -> (r: Json)
    ensures
        json::tree(r) == answer(description@),
{
    field("description", text_json(description))
}

/// The operation of a document that takes no parameters.
pub open spec fn plain_operation(summary: Seq<char>) -> Tree {
    json::only(
        "get"@,
        Tree::Object(
            json::no_fields().push(("summary"@, json::t(summary))).push(
                ("responses"@, json::only("200"@, answer("OK"@))),
            ),
        ),
    )
}

fn plain_operation_json(summary: &str) -> (r: Json)
    ensures
        json::tree(r) == plain_operation(summary@),
{
    let mut f = Fields::new();
    f.put_text("summary", summary);
    f.put("responses", field("200", answer_json("OK")));
    field("get", f.done())
}

/// The operation of a collection's document.
pub open spec fn collection_operation(ids: Seq<Seq<char>>) -> Tree {
    json::only(
        "get"@,
        Tree::Object(
            json::no_fields().push(("summary"@, json::t("Collection metadata"@))).push(
                ("parameters"@, Tree::List(json::no_items().push(collection_id_tree(ids)))),
            ).push(
                (
                    "responses"@,
                    Tree::Object(
                        json::no_fields().push(("200"@, answer("OK"@))).push(
                            ("404"@, answer("Unknown collection"@)),
                        ),
                    ),
                ),
            ),
        ),
    )
}

fn collection_operation_json(ids: &Vec<String>) -> (r: Json)
    ensures
        json::tree(r) == collection_operation(text::texts(ids@)),
{
    let mut parameters = Items::new();
    parameters.put(collection_id_json(ids));
    let mut responses = Fields::new();
    responses.put("200", answer_json("OK"));
    responses.put("404", answer_json("Unknown collection"));
    let mut f = Fields::new();
    f.put_text("summary", "Collection metadata");
    f.put("parameters", parameters.done());
    f.put("responses", responses.done());
    field("get", f.done())
}

/// The operation of one query type.
pub open spec fn query_operation(ids: Seq<Seq<char>>, name: Seq<char>, title: Seq<char>) -> Tree {
    json::only(
        "get"@,
        Tree::Object(
            json::no_fields().push(("summary"@, json::t(title))).push(
                ("parameters"@, Tree::List(endpoint_parameters(ids, name))),
            ).push(
                (
                    "responses"@,
                    Tree::Object(
                        json::no_fields().push(
                            ("200"@, answer("CoverageJSON or GeoJSON"@)),
                        ).push(("400"@, answer("Invalid query"@))).push(
                            ("404"@, answer("Nothing selected"@)),
                        ).push(("413"@, answer("Query selects too much data"@))),
                    ),
                ),
            ),
        ),
    )
}

fn query_operation_json(ids: &Vec<String>, name: &str, title: &str) -> (r: Json)
    ensures
        json::tree(r) == query_operation(text::texts(ids@), name@, title@),
{
    let mut responses = Fields::new();
    responses.put("200", answer_json("CoverageJSON or GeoJSON"));
    responses.put("400", answer_json("Invalid query"));
    responses.put("404", answer_json("Nothing selected"));
    responses.put("413", answer_json("Query selects too much data"));
    let mut f = Fields::new();
    f.put_text("summary", title);
    f.put("parameters", endpoint_json(ids, name));
    f.put("responses", responses.done());
    field("get", f.done())
}

/// The paths of the documents, and of the first `n` query types.
pub open spec fn api_paths(ids: Seq<Seq<char>>, n: nat) -> Seq<(Seq<char>, Tree)>
    decreases n,
{
    if n == 0 {
        json::no_fields().push(("/"@, plain_operation("Landing page"@))).push(
            ("/conformance"@, plain_operation("Conformance classes"@)),
        ).push(("/collections"@, plain_operation("Collections"@))).push(
            ("/collections/{collectionId}"@, collection_operation(ids)),
        )
    } else {
        let (name, title) = QUERY_TYPES@[n - 1];
        api_paths(ids, (n - 1) as nat).push(
            (
                "/collections/{collectionId}/"@ + name@,
                query_operation(ids, name@, title@),
            ),
        )
    }
}

/// The OpenAPI document covering the endpoints this server serves.
pub open spec fn api_tree(base: Seq<char>, ids: Seq<Seq<char>>) -> Tree {
    let info = Tree::Object(
        json::no_fields().push(
            ("title"@, json::t("ERA5 Environmental Data Retrieval API"@)),
        ).push(("version"@, json::t(VERSION@))).push(
            (
                "description"@,
                json::t("OGC API - EDR over ERA5 Zarr, backed by zarr-datafusion."@),
            ),
        ),
    );
    let server = if base.len() == 0 {
        "/"@
    } else {
        base
    };
    Tree::Object(
        json::no_fields().push(("openapi"@, json::t("3.0.3"@))).push(("info"@, info)).push(
            (
                "servers"@,
                Tree::List(json::no_items().push(json::only("url"@, json::t(server)))),
            ),
        ).push(("paths"@, Tree::Object(api_paths(ids, 4)))),
    )
}

/// Describe the endpoints this server serves.
pub fn api_definition(state: &AppState) -> (r: Json)
    ensures
        json::tree(r) == api_tree(state.config.base_url@, state.catalog.collections.names()),
{
    let entries = &state.catalog.collections.entries;
    let ghost names = state.catalog.collections.names();
    let mut ids: Vec<String> = Vec::new();
    let mut i: usize = 0;
    while i < entries.len()
        invariant
            entries@ == state.catalog.collections.entries@,
            names == state.catalog.collections.names(),
            i <= entries@.len(),
            text::texts(ids@) == names.take(i as int),
        decreases entries@.len() - i,
    {
        let ghost before = text::texts(ids@);
        ids.push(entries[i].0.clone());
        assert(text::texts(ids@) =~= before.push(names[i as int]));
        assert(names.take(i + 1) =~= before.push(names[i as int]));
        i += 1;
    }
    assert(names.take(i as int) =~= names);

    let mut paths = Fields::new();
    paths.put("/", plain_operation_json("Landing page"));
    paths.put("/conformance", plain_operation_json("Conformance classes"));
    paths.put("/collections", plain_operation_json("Collections"));
    paths.put("/collections/{collectionId}", collection_operation_json(&ids));
    let mut k: usize = 0;
    while k < 4
        invariant
            k <= 4,
            text::texts(ids@) == names,
            paths@ == api_paths(names, k as nat),
        decreases 4 - k,
    {
        let (name, title) = QUERY_TYPES[k];
        let mut path: String = "/collections/{collectionId}/".to_owned();
        path.append(name);
        paths.put(path.as_str(), query_operation_json(&ids, name, title));
        k += 1;
    }

    let mut info = Fields::new();
    info.put_text("title", "ERA5 Environmental Data Retrieval API");
    info.put_text("version", VERSION);
    info.put_text("description", "OGC API - EDR over ERA5 Zarr, backed by zarr-datafusion.");
    let bare = text::chars_of(state.config.base_url.as_str()).len() == 0;
    let server = if bare {
        "/"
    } else {
        state.config.base_url.as_str()
    };
    let mut servers = Items::new();
    servers.put(field("url", text_json(server)));
    let mut f = Fields::new();
    f.put_text("openapi", "3.0.3");
    f.put("info", info.done());
    f.put("servers", servers.done());
    f.put("paths", paths.done());
    f.done()
}

/// The position of a query type among those that are served.
pub open spec fn listed_at(name: Seq<char>, n: nat) -> Option<int>
    decreases n,
{
    if n == 0 {
        None
    } else {
        match listed_at(name, (n - 1) as nat) {
            Some(i) => Some(i),
            None => if QUERY_TYPES@[n - 1].0@ == name {
                Some(n - 1)
            } else {
                None
            },
        }
    }
}

/// What a query type is for; nothing where it has no endpoint.
pub fn title_of(name: &str) -> (r: &'static str)
    ensures
        r@ == (match listed_at(name@, 4) {
            Some(i) => QUERY_TYPES@[i].1@,
            None => ""@,
        }),
{
    let mut i: usize = 0;
    while i < 4
        invariant
            i <= 4,
            listed_at(name@, i as nat) is None,
        decreases 4 - i,
    {
        if same_text(QUERY_TYPES[i].0, name) {
            proof {
                listed_first(name@, i as nat);
            }
            return QUERY_TYPES[i].1;
        }
        i += 1;
    }
    ""
}

proof fn listed_first(name: Seq<char>, i: nat)
    requires
        i < 4,
        listed_at(name, i) is None,
        QUERY_TYPES@[i as int].0@ == name,
    ensures
        listed_at(name, 4) == Some(i as int),
{
    reveal_with_fuel(listed_at, 5);
}

/// Whether a document has a link to `href`, under a relation and for a media type.
pub open spec fn has_link(
    document: Tree,
    href: Seq<char>,
    rel: Seq<char>,
    media_type: Seq<char>,
) -> bool {
    json::member(document, "links"@) matches Some(Tree::List(links)) && exists|i: int|
        0 <= i < links.len() && api::leads_to(#[trigger] links[i], href, rel, media_type)
}

/// The landing page leads to itself, its own page, the API definition, the
/// conformance declaration and the collections.
pub proof fn the_landing_page_leads_to_every_document(base: Seq<char>)
    ensures
        has_link(landing_tree(base), base + "/"@, "self"@, "application/json"@),
        has_link(landing_tree(base), base + "/"@, "alternate"@, "text/html"@),
        has_link(
            landing_tree(base),
            base + "/api"@,
            "service-desc"@,
            "application/vnd.oai.openapi+json;version=3.0"@,
        ),
        has_link(
            landing_tree(base),
            base + "/conformance"@,
            "conformance"@,
            "application/json"@,
        ),
        has_link(landing_tree(base), base + "/collections"@, "data"@, "application/json"@),
{
    broadcast use json::what_is_put_is_found;

    let links = json::member(landing_tree(base), "links"@)->0->List_0;
    api::a_link_leads_where_it_was_made_to(
        base + "/"@,
        "self"@,
        "application/json"@,
        "This document"@,
    );
    api::a_link_leads_where_it_was_made_to(
        base + "/api"@,
        "service-desc"@,
        "application/vnd.oai.openapi+json;version=3.0"@,
        "API definition"@,
    );
    api::a_link_leads_where_it_was_made_to(
        base + "/conformance"@,
        "conformance"@,
        "application/json"@,
        "Conformance classes"@,
    );
    api::a_link_leads_where_it_was_made_to(
        base + "/collections"@,
        "data"@,
        "application/json"@,
        "Collections"@,
    );
    api::a_link_leads_where_it_was_made_to(
        base + "/"@,
        "alternate"@,
        "text/html"@,
        "This document as HTML"@,
    );
    assert(api::leads_to(links[0], base + "/"@, "self"@, "application/json"@));
    assert(api::leads_to(
        links[1],
        base + "/api"@,
        "service-desc"@,
        "application/vnd.oai.openapi+json;version=3.0"@,
    ));
    assert(api::leads_to(
        links[2],
        base + "/conformance"@,
        "conformance"@,
        "application/json"@,
    ));
    assert(api::leads_to(links[3], base + "/collections"@, "data"@, "application/json"@));
    assert(api::leads_to(links[4], base + "/"@, "alternate"@, "text/html"@));
}

proof fn both_links_lead(href: Seq<char>, title: Seq<char>)
    ensures
        both_links(href, title).len() == 2,
        api::leads_to(both_links(href, title)[0], href, "self"@, "application/json"@),
        api::leads_to(both_links(href, title)[1], href, "alternate"@, "text/html"@),
{
    api::a_link_leads_where_it_was_made_to(href, "self"@, "application/json"@, title);
    api::a_link_leads_where_it_was_made_to(
        href,
        "alternate"@,
        "text/html"@,
        "This document as HTML"@,
    );
}

/// The conformance declaration lists the classes in order, and leads to itself and
/// its page.
pub proof fn the_conformance_declaration_lists_the_classes(base: Seq<char>)
    ensures
        has_link(
            conformance_tree(base),
            base + "/conformance"@,
            "self"@,
            "application/json"@,
        ),
        has_link(conformance_tree(base), base + "/conformance"@, "alternate"@, "text/html"@),
        json::member(conformance_tree(base), "conformsTo"@) matches Some(Tree::List(classes))
            && classes.len() == CONFORMANCE@.len() && forall|i: int|
            0 <= i < CONFORMANCE@.len() ==> #[trigger] classes[i] == Tree::Text(CONFORMANCE@[i]@),
{
    broadcast use json::what_is_put_is_found;

    reveal_strlit("conformsTo");
    reveal_strlit("links");
    assert("conformsTo"@.len() == 10 && "links"@.len() == 5);
    both_links_lead(base + "/conformance"@, "Conformance classes"@);
    let links = json::member(conformance_tree(base), "links"@)->0->List_0;
    assert(links == both_links(base + "/conformance"@, "Conformance classes"@));
    assert(api::leads_to(links[0], base + "/conformance"@, "self"@, "application/json"@));
    assert(api::leads_to(links[1], base + "/conformance"@, "alternate"@, "text/html"@));
}

/// The names that a collection's document is read by are all different.
proof fn collection_keys_differ()
    ensures
        "id"@ != "title"@ && "id"@ != "description"@ && "id"@ != "keywords"@,
        "id"@ != "extent"@ && "id"@ != "links"@ && "id"@ != "data_queries"@ && "id"@ != "crs"@,
        "id"@ != "output_formats"@ && "id"@ != "parameter_names"@,
        "title"@ != "description"@ && "title"@ != "keywords"@ && "title"@ != "extent"@,
        "title"@ != "links"@ && "title"@ != "data_queries"@ && "title"@ != "crs"@,
        "title"@ != "output_formats"@ && "title"@ != "parameter_names"@,
        "description"@ != "keywords"@ && "description"@ != "extent"@ && "description"@ != "links"@,
        "description"@ != "data_queries"@ && "description"@ != "crs"@,
        "description"@ != "output_formats"@ && "description"@ != "parameter_names"@,
        "keywords"@ != "extent"@ && "keywords"@ != "links"@ && "keywords"@ != "data_queries"@,
        "keywords"@ != "crs"@ && "keywords"@ != "output_formats"@,
        "keywords"@ != "parameter_names"@,
        "extent"@ != "links"@ && "extent"@ != "data_queries"@ && "extent"@ != "crs"@,
        "extent"@ != "output_formats"@ && "extent"@ != "parameter_names"@,
        "links"@ != "data_queries"@ && "links"@ != "crs"@ && "links"@ != "output_formats"@,
        "links"@ != "parameter_names"@,
        "data_queries"@ != "crs"@ && "data_queries"@ != "output_formats"@,
        "data_queries"@ != "parameter_names"@,
        "crs"@ != "output_formats"@ && "crs"@ != "parameter_names"@,
        "output_formats"@ != "parameter_names"@,
{
    reveal_strlit("id");
    reveal_strlit("title");
    reveal_strlit("description");
    reveal_strlit("keywords");
    reveal_strlit("extent");
    reveal_strlit("links");
    reveal_strlit("data_queries");
    reveal_strlit("crs");
    reveal_strlit("output_formats");
    reveal_strlit("parameter_names");
    assert("id"@.len() == 2 && "title"@.len() == 5 && "description"@.len() == 11);
    assert("keywords"@.len() == 8 && "extent"@.len() == 6 && "links"@.len() == 5);
    assert("data_queries"@.len() == 12 && "crs"@.len() == 3 && "output_formats"@.len() == 14);
    assert("parameter_names"@.len() == 15);
    assert("title"@[0] == 't' && "links"@[0] == 'l');
}

/// A collection's document gives the collection its own identifier, title,
/// description and keywords, and leads to itself, to its page and back to the
/// list of collections.
pub proof fn a_collection_is_described_by_its_own_document(base: Seq<char>, c: Collection)
    ensures
        json::member(collection_tree(base, c), "id"@) == Some(Tree::Text(c.id@)),
        json::member(collection_tree(base, c), "title"@) == Some(Tree::Text(c.title@)),
        json::member(collection_tree(base, c), "description"@) == Some(
            Tree::Text(c.description@),
        ),
        json::member(collection_tree(base, c), "keywords"@) matches Some(Tree::List(words))
            && words.len() == c.keywords@.len() && forall|i: int|
            0 <= i < words.len() ==> #[trigger] words[i] == Tree::Text(c.keywords@[i]@),
        has_link(
            collection_tree(base, c),
            base + ("/collections/"@ + c.id@),
            "self"@,
            "application/json"@,
        ),
        has_link(
            collection_tree(base, c),
            base + ("/collections/"@ + c.id@),
            "alternate"@,
            "text/html"@,
        ),
        has_link(
            collection_tree(base, c),
            base + "/collections"@,
            "collection"@,
            "application/json"@,
        ),
{
    broadcast use json::what_is_put_is_found;

    collection_keys_differ();
    let href = base + ("/collections/"@ + c.id@);
    both_links_lead(href, c.title@);
    api::a_link_leads_where_it_was_made_to(
        base + "/collections"@,
        "collection"@,
        "application/json"@,
        "Collections"@,
    );
    let links = json::member(collection_tree(base, c), "links"@)->0->List_0;
    assert(links[0] == both_links(href, c.title@)[0]);
    assert(links[1] == both_links(href, c.title@)[1]);
    assert(api::leads_to(
        links[2],
        base + "/collections"@,
        "collection"@,
        "application/json"@,
    ));
}

/// The list of collections holds the document of each, in order.
pub proof fn the_list_of_collections_holds_each(state: AppState, k: int, c: Collection)
    requires
        0 <= k < state.catalog.collections.entries@.len(),
        *state.catalog.collections.entries@[k].1 == c,
    ensures
        json::member(collections_tree(state), "collections"@) matches Some(Tree::List(listed))
            && listed.len() == state.catalog.collections.entries@.len() && json::member(
            listed[k],
            "id"@,
        ) == Some(Tree::Text(c.id@)) && listed[k] == collection_tree(state.config.base_url@, c),
        has_link(
            collections_tree(state),
            state.config.base_url@ + "/collections"@,
            "self"@,
            "application/json"@,
        ),
{
    broadcast use json::what_is_put_is_found;

    reveal_strlit("collections");
    reveal_strlit("links");
    assert("collections"@.len() == 11 && "links"@.len() == 5);
    a_collection_is_described_by_its_own_document(state.config.base_url@, c);
    let base = state.config.base_url@;
    both_links_lead(base + "/collections"@, "Collections"@);
    let links = json::member(collections_tree(state), "links"@)->0->List_0;
    assert(links == both_links(base + "/collections"@, "Collections"@));
    assert(api::leads_to(links[0], base + "/collections"@, "self"@, "application/json"@));
}

/// What a document says of one of a collection's extents.
pub open spec fn extent_of(document: Tree, kind: Seq<char>) -> Option<Tree> {
    json::within(json::member(document, "extent"@), kind)
}

/// A collection's document gives its bounding box as west, south, east and north;
/// the first and the last instant of its temporal extent; and, where it has
/// levels and only there, every level, and the first and the last of them.
#[verifier::rlimit(30)]
pub proof fn a_collection_shows_its_extents(base: Seq<char>, c: Collection)
    ensures
        ({
            let d = collection_tree(base, c);
            let start = query::shown_time(catalog::extent(c.t.values@, c.valid_time).0);
            let end = query::shown_time(catalog::extent(c.t.values@, c.valid_time).1);
            &&& json::within(extent_of(d, "spatial"@), "bbox"@) matches Some(Tree::List(boxes))
            &&& boxes.len() == 1 && boxes[0] is List && boxes[0]->List_0.len() == 4
            &&& forall|i: int|
                0 <= i < 4 ==> #[trigger] boxes[0]->List_0[i] == Tree::Number(c.corners()[i])
            &&& json::within(extent_of(d, "temporal"@), "interval"@) matches Some(
                Tree::List(spans),
            )
            &&& spans.len() == 1 && spans[0] is List && spans[0]->List_0.len() == 2
            &&& spans[0]->List_0[0] == Tree::Text(start) && spans[0]->List_0[1] == Tree::Text(end)
            &&& json::within(extent_of(d, "temporal"@), "values"@) matches Some(
                Tree::List(values),
            )
            &&& values.len() == 1 && values[0] == Tree::Text(start + "/"@ + end)
        }),
        extent_of(collection_tree(base, c), "vertical"@) is Some <==> c.z is Some,
        c.z matches Some(z) ==> shows_levels(
            extent_of(collection_tree(base, c), "vertical"@),
            z.values@,
        ),
{
    broadcast use json::what_is_put_is_found;

    collection_keys_differ();
    reveal_strlit("spatial");
    reveal_strlit("temporal");
    reveal_strlit("vertical");
    reveal_strlit("bbox");
    reveal_strlit("crs");
    reveal_strlit("interval");
    reveal_strlit("values");
    reveal_strlit("trs");
    reveal_strlit("vrs");
    assert("spatial"@.len() == 7 && "temporal"@[0] == 't' && "vertical"@[0] == 'v');
    assert("temporal"@.len() == 8 && "vertical"@.len() == 8);
    assert("bbox"@.len() == 4 && "crs"@.len() == 3 && "interval"@.len() == 8);
    assert("values"@.len() == 6 && "trs"@.len() == 3 && "vrs"@.len() == 3);
    assert(json::member(collection_tree(base, c), "extent"@) == Some(extent_tree(c)));
    assert(extent_of(collection_tree(base, c), "spatial"@) == Some(spatial_tree(c)));
    assert(extent_of(collection_tree(base, c), "temporal"@) == Some(temporal_tree(c)));
    assert(c.corners().len() == 4);
}

/// Whether a vertical extent lists some levels, and runs from the first to the last.
pub open spec fn shows_levels(extent: Option<Tree>, levels: Seq<Double>) -> bool {
    &&& json::within(extent, "values"@) matches Some(Tree::List(values))
    &&& values.len() == levels.len()
    &&& forall|i: int| 0 <= i < levels.len() ==> #[trigger] values[i] == Tree::Number(levels[i])
    &&& json::within(extent, "interval"@) matches Some(Tree::List(spans))
    &&& spans.len() == 1 && spans[0] is List && spans[0]->List_0.len() == 2
    &&& spans[0]->List_0[0] == Tree::Number(levels[0])
    &&& spans[0]->List_0[1] == Tree::Number(levels[levels.len() - 1])
}

/// The query types by name.
proof fn query_types_differ()
    ensures
        QUERY_TYPES@.len() == 4,
        QUERY_TYPES@[0].0@ == "position"@ && QUERY_TYPES@[1].0@ == "radius"@,
        QUERY_TYPES@[2].0@ == "area"@ && QUERY_TYPES@[3].0@ == "cube"@,
        "position"@ != "radius"@ && "position"@ != "area"@ && "position"@ != "cube"@,
        "radius"@ != "area"@ && "radius"@ != "cube"@ && "area"@ != "cube"@,
{
    reveal_strlit("position");
    reveal_strlit("radius");
    reveal_strlit("area");
    reveal_strlit("cube");
    assert("position"@.len() == 8 && "radius"@.len() == 6);
    assert("area"@.len() == 4 && "cube"@.len() == 4);
    assert("area"@[0] == 'a' && "cube"@[0] == 'c');
}

/// Whether a collection's document names an endpoint: under the name of its query,
/// with a link that leads to it.
pub open spec fn has_endpoint(document: Tree, name: Seq<char>, href: Seq<char>) -> bool {
    let link = json::within(
        json::within(json::member(document, "data_queries"@), name),
        "link"@,
    );
    &&& json::within(link, "href"@) == Some(Tree::Text(href))
    &&& json::within(link, "rel"@) == Some(Tree::Text("data"@))
    &&& json::within(json::within(link, "variables"@), "query_type"@) == Some(Tree::Text(name))
}

proof fn a_data_query_is_read(href: Seq<char>, name: Seq<char>, title: Seq<char>)
    ensures
        ({
            let link = json::member(data_query_tree(href, name, title), "link"@);
            &&& json::within(link, "href"@) == Some(Tree::Text(href))
            &&& json::within(link, "rel"@) == Some(Tree::Text("data"@))
            &&& json::within(json::within(link, "variables"@), "query_type"@) == Some(
                Tree::Text(name),
            )
        }),
{
    broadcast use json::what_is_put_is_found;

    reveal_strlit("href");
    reveal_strlit("rel");
    reveal_strlit("type");
    reveal_strlit("title");
    reveal_strlit("variables");
    reveal_strlit("query_type");
    reveal_strlit("output_formats");
    reveal_strlit("default_output_format");
    reveal_strlit("crs_details");
    assert("href"@.len() == 4 && "rel"@.len() == 3 && "type"@.len() == 4 && "title"@.len() == 5);
    assert("href"@[0] == 'h' && "type"@[0] == 't' && "variables"@.len() == 9);
    assert("query_type"@.len() == 10 && "output_formats"@.len() == 14);
    assert("default_output_format"@.len() == 21 && "crs_details"@.len() == 11);
}

/// A collection's document names the four endpoints, each under its query's name
/// and at the collection's own path.
pub proof fn a_collection_names_its_endpoints(base: Seq<char>, c: Collection)
    ensures
        ({
            let d = collection_tree(base, c);
            let path = base + ("/collections/"@ + c.id@);
            &&& has_endpoint(d, "position"@, path + "/position"@)
            &&& has_endpoint(d, "radius"@, path + "/radius"@)
            &&& has_endpoint(d, "area"@, path + "/area"@)
            &&& has_endpoint(d, "cube"@, path + "/cube"@)
        }),
{
    broadcast use json::what_is_put_is_found;

    collection_keys_differ();
    query_types_differ();
    let path = "/collections/"@ + c.id@;
    let d = collection_tree(base, c);
    assert(json::member(d, "data_queries"@) == Some(
        Tree::Object(data_query_fields(base, path, 4)),
    ));
    reveal_with_fuel(data_query_fields, 5);
    slash_names(base, path);
    let q = QUERY_TYPES@;
    a_data_query_is_read(base + (path + "/"@ + "position"@), "position"@, q[0].1@);
    a_data_query_is_read(base + (path + "/"@ + "radius"@), "radius"@, q[1].1@);
    a_data_query_is_read(base + (path + "/"@ + "area"@), "area"@, q[2].1@);
    a_data_query_is_read(base + (path + "/"@ + "cube"@), "cube"@, q[3].1@);
}

proof fn slash_names(base: Seq<char>, path: Seq<char>)
    ensures
        base + (path + "/"@ + "position"@) == base + path + "/position"@,
        base + (path + "/"@ + "radius"@) == base + path + "/radius"@,
        base + (path + "/"@ + "area"@) == base + path + "/area"@,
        base + (path + "/"@ + "cube"@) == base + path + "/cube"@,
{
    reveal_strlit("/");
    reveal_strlit("position");
    reveal_strlit("radius");
    reveal_strlit("area");
    reveal_strlit("cube");
    reveal_strlit("/position");
    reveal_strlit("/radius");
    reveal_strlit("/area");
    reveal_strlit("/cube");
    assert("/"@ + "position"@ =~= "/position"@);
    assert("/"@ + "radius"@ =~= "/radius"@);
    assert("/"@ + "area"@ =~= "/area"@);
    assert("/"@ + "cube"@ =~= "/cube"@);
    assert(base + (path + "/"@ + "position"@) =~= base + path + ("/"@ + "position"@));
    assert(base + (path + "/"@ + "radius"@) =~= base + path + ("/"@ + "radius"@));
    assert(base + (path + "/"@ + "area"@) =~= base + path + ("/"@ + "area"@));
    assert(base + (path + "/"@ + "cube"@) =~= base + path + ("/"@ + "cube"@));
}

/// A collection's document describes each parameter under its own name, and no
/// other.
pub proof fn a_collection_describes_each_parameter(base: Seq<char>, c: Collection, k: int)
    requires
        0 <= k < c.parameters.entries@.len(),
        forall|i: int, j: int|
            0 <= i < j < c.parameters.entries@.len() ==> (
            #[trigger] c.parameters.entries@[i]).1.name@ != (
            #[trigger] c.parameters.entries@[j]).1.name@,
    ensures
        json::member(collection_tree(base, c), "parameter_names"@) matches Some(
            Tree::Object(entries),
        ) && entries.len() == c.parameters.entries@.len() && json::found(
            entries,
            c.parameters.entries@[k].1.name@,
        ) == Some(covjson::parameter_tree(c.parameters.entries@[k].1)),
{
    broadcast use json::what_is_put_is_found;

    collection_keys_differ();
    let n = c.parameters.entries@.len();
    parameters_are_listed(c, n);
    let fields = parameter_entries(c, n);
    assert(fields[k] == (
        c.parameters.entries@[k].1.name@,
        covjson::parameter_tree(c.parameters.entries@[k].1),
    ));
    assert forall|j: int| k < j < fields.len() implies (#[trigger] fields[j]).0
        != fields[k].0 by {
        assert(c.parameters.entries@[j].1.name@ != c.parameters.entries@[k].1.name@);
    }
    json::a_field_is_found(fields, k);
}

proof fn parameters_are_listed(c: Collection, n: nat)
    requires
        n <= c.parameters.entries@.len(),
    ensures
        parameter_entries(c, n).len() == n,
        forall|i: int|
            0 <= i < n ==> #[trigger] parameter_entries(c, n)[i] == (
                c.parameters.entries@[i].1.name@,
                covjson::parameter_tree(c.parameters.entries@[i].1),
            ),
    decreases n,
{
    if n > 0 {
        parameters_are_listed(c, (n - 1) as nat);
        let front = parameter_entries(c, (n - 1) as nat);
        assert forall|i: int| 0 <= i < n implies #[trigger] parameter_entries(c, n)[i] == (
            c.parameters.entries@[i].1.name@,
            covjson::parameter_tree(c.parameters.entries@[i].1),
        ) by {
            if i < n - 1 {
                assert(parameter_entries(c, n)[i] == front[i]);
            }
        }
    }
}

/// Whether a description of a parameter gives its name, where it stands and whether
/// it is demanded.
pub open spec fn is_parameter(
    j: Tree,
    name: Seq<char>,
    place: Seq<char>,
    required: bool,
) -> bool {
    &&& json::member(j, "name"@) == Some(Tree::Text(name))
    &&& json::member(j, "in"@) == Some(Tree::Text(place))
    &&& json::member(j, "required"@) == if required {
        Some(Tree::Bool(true))
    } else {
        None
    }
}

/// A parameter is described under the name, at the place and with the demand that
/// are given, and with its schema.
pub proof fn a_parameter_is_described_as_given(
    name: Seq<char>,
    place: Seq<char>,
    required: bool,
    description: Option<Seq<char>>,
    schema: Tree,
)
    ensures
        is_parameter(described(name, place, required, description, schema), name, place, required),
        json::member(described(name, place, required, description, schema), "schema"@) == Some(
            schema,
        ),
        description matches Some(d) ==> json::member(
            described(name, place, required, description, schema),
            "description"@,
        ) == Some(Tree::Text(d)),
{
    broadcast use json::what_is_put_is_found;

    reveal_strlit("name");
    reveal_strlit("in");
    reveal_strlit("required");
    reveal_strlit("description");
    reveal_strlit("schema");
    assert("name"@.len() == 4 && "in"@.len() == 2 && "required"@.len() == 8);
    assert("description"@.len() == 11 && "schema"@.len() == 6);
}

/// Whether some parameters hold one that stands in the query.
pub open spec fn takes(parameters: Seq<Tree>, name: Seq<char>, required: bool) -> bool {
    exists|i: int|
        0 <= i < parameters.len() && is_parameter(
            #[trigger] parameters[i],
            name,
            "query"@,
            required,
        )
}

/// Whether some parameters hold those that every query takes: the collection in
/// the path, the parameter names, which are demanded, and what is left to the
/// caller.
pub open spec fn takes_common(parameters: Seq<Tree>) -> bool {
    &&& parameters.len() > 0 && is_parameter(parameters[0], "collectionId"@, "path"@, true)
    &&& takes(parameters, "parameter-name"@, true)
    &&& takes(parameters, "datetime"@, false)
    &&& takes(parameters, "z"@, false)
    &&& takes(parameters, "crs"@, false)
    &&& takes(parameters, "f"@, false)
    &&& takes(parameters, "limit"@, false)
}

proof fn what_is_described_is_taken(
    parameters: Seq<Tree>,
    i: int,
    name: Seq<char>,
    required: bool,
    description: Option<Seq<char>>,
    schema: Tree,
)
    requires
        0 <= i < parameters.len(),
        parameters[i] == described(name, "query"@, required, description, schema),
    ensures
        takes(parameters, name, required),
{
    a_parameter_is_described_as_given(name, "query"@, required, description, schema);
    assert(is_parameter(parameters[i], name, "query"@, required));
}

proof fn common_is_taken(ids: Seq<Seq<char>>, s: Seq<Tree>)
    requires
        s.len() > 0,
        s[0] == collection_id_tree(ids),
    ensures
        with_common(s).len() == s.len() + 6,
        forall|i: int| 0 <= i < s.len() ==> #[trigger] with_common(s)[i] == s[i],
        takes_common(with_common(s)),
{
    let all = with_common(s);
    let n = s.len() as int;
    a_parameter_is_described_as_given(
        "collectionId"@,
        "path"@,
        true,
        None,
        one_of(json::text_trees(ids), None),
    );
    what_is_described_is_taken(
        all,
        n,
        "parameter-name"@,
        true,
        Some("Comma-separated parameter names."@),
        typed("string"@),
    );
    what_is_described_is_taken(
        all,
        n + 1,
        "datetime"@,
        false,
        Some(
            "RFC 3339 instant or interval; '..' leaves an end open. Defaults to the latest available time step."@,
        ),
        typed("string"@),
    );
    what_is_described_is_taken(
        all,
        n + 2,
        "z"@,
        false,
        Some(
            "Vertical level: a value, a comma-separated list, 'min/max', 'R{count}/{start}/{step}', or 'all'."@,
        ),
        typed("string"@),
    );
    what_is_described_is_taken(
        all,
        n + 3,
        "crs"@,
        false,
        None,
        Tree::Object(
            json::no_fields().push(("type"@, json::t("string"@))).push(
                ("default"@, json::t("CRS84"@)),
            ),
        ),
    );
    what_is_described_is_taken(
        all,
        n + 4,
        "f"@,
        false,
        None,
        one_of(fixed_trees(OUTPUT_FORMATS@), Some("CoverageJSON"@)),
    );
    what_is_described_is_taken(
        all,
        n + 5,
        "limit"@,
        false,
        Some("Maximum number of data values in the response."@),
        counted(),
    );
}

/// An endpoint demands its geometry, and takes what its query needs: a cube its
/// box and any other query its coordinates; a radius its distance, with units;
/// and an area and a cube a resolution of each axis. All take the rest alike.
pub proof fn an_endpoint_takes_what_its_query_needs(ids: Seq<Seq<char>>)
    ensures
        takes_common(endpoint_parameters(ids, "position"@)),
        takes(endpoint_parameters(ids, "position"@), "coords"@, true),
        endpoint_parameters(ids, "position"@).len() == 8,
        takes_common(endpoint_parameters(ids, "radius"@)),
        takes(endpoint_parameters(ids, "radius"@), "coords"@, true),
        takes(endpoint_parameters(ids, "radius"@), "within"@, true),
        takes(endpoint_parameters(ids, "radius"@), "within-units"@, false),
        endpoint_parameters(ids, "radius"@).len() == 10,
        takes_common(endpoint_parameters(ids, "area"@)),
        takes(endpoint_parameters(ids, "area"@), "coords"@, true),
        takes_resolutions(endpoint_parameters(ids, "area"@)),
        endpoint_parameters(ids, "area"@).len() == 11,
        takes_common(endpoint_parameters(ids, "cube"@)),
        takes(endpoint_parameters(ids, "cube"@), "bbox"@, true),
        takes_resolutions(endpoint_parameters(ids, "cube"@)),
        endpoint_parameters(ids, "cube"@).len() == 11,
{
    query_types_differ();
    let coords = described(
        "coords"@,
        "query"@,
        true,
        Some("WKT geometry in CRS84."@),
        typed("string"@),
    );
    let bbox = described(
        "bbox"@,
        "query"@,
        true,
        Some("west,south,east,north (optionally with min/max z as six values)."@),
        typed("string"@),
    );
    let located = json::no_items().push(collection_id_tree(ids)).push(coords);
    let boxed = json::no_items().push(collection_id_tree(ids)).push(bbox);
    common_is_taken(ids, located);
    what_is_described_is_taken(
        with_common(located),
        1,
        "coords"@,
        true,
        Some("WKT geometry in CRS84."@),
        typed("string"@),
    );
    assert(endpoint_parameters(ids, "position"@) == with_common(located));

    let units = one_of(fixed_trees(RADIUS_UNITS@), Some("km"@));
    let ranged = located.push(described("within"@, "query"@, true, None, typed("number"@))).push(
        described("within-units"@, "query"@, false, None, units),
    );
    assert(endpoint_parameters(ids, "radius"@) == with_common(ranged));
    common_is_taken(ids, ranged);
    let all = with_common(ranged);
    assert(all[1] == ranged[1] && all[2] == ranged[2] && all[3] == ranged[3]);
    what_is_described_is_taken(
        all,
        1,
        "coords"@,
        true,
        Some("WKT geometry in CRS84."@),
        typed("string"@),
    );
    what_is_described_is_taken(all, 2, "within"@, true, None, typed("number"@));
    what_is_described_is_taken(all, 3, "within-units"@, false, None, units);

    resolutions_are_taken(ids, located);
    let thinned = with_resolutions(located);
    assert(endpoint_parameters(ids, "area"@) == with_common(thinned));
    assert(with_common(thinned)[1] == thinned[1]);
    what_is_described_is_taken(
        with_common(thinned),
        1,
        "coords"@,
        true,
        Some("WKT geometry in CRS84."@),
        typed("string"@),
    );
    resolutions_are_taken(ids, boxed);
    let cut = with_resolutions(boxed);
    assert(endpoint_parameters(ids, "cube"@) == with_common(cut));
    assert(with_common(cut)[1] == cut[1]);
    what_is_described_is_taken(
        with_common(cut),
        1,
        "bbox"@,
        true,
        Some("west,south,east,north (optionally with min/max z as six values)."@),
        typed("string"@),
    );
}

/// Whether some parameters hold one for the resolution of each axis.
pub open spec fn takes_resolutions(parameters: Seq<Tree>) -> bool {
    &&& takes(parameters, "resolution-x"@, false)
    &&& takes(parameters, "resolution-y"@, false)
    &&& takes(parameters, "resolution-z"@, false)
}

spec fn with_resolutions(s: Seq<Tree>) -> Seq<Tree> {
    s.push(resolution_tree("x"@)).push(resolution_tree("y"@)).push(resolution_tree("z"@))
}

proof fn resolutions_are_taken(ids: Seq<Seq<char>>, s: Seq<Tree>)
    requires
        s.len() == 2,
        s[0] == collection_id_tree(ids),
    ensures
        with_common(with_resolutions(s)).len() == 11,
        forall|i: int|
            0 <= i < 5 ==> #[trigger] with_common(with_resolutions(s))[i] == with_resolutions(
                s,
            )[i],
        takes_common(with_common(with_resolutions(s))),
        takes_resolutions(with_common(with_resolutions(s))),
{
    let thinned = with_resolutions(s);
    let all = with_common(thinned);
    common_is_taken(ids, thinned);
    reveal_strlit("resolution-");
    reveal_strlit("x");
    reveal_strlit("y");
    reveal_strlit("z");
    reveal_strlit("resolution-x");
    reveal_strlit("resolution-y");
    reveal_strlit("resolution-z");
    assert("resolution-"@ + "x"@ =~= "resolution-x"@);
    assert("resolution-"@ + "y"@ =~= "resolution-y"@);
    assert("resolution-"@ + "z"@ =~= "resolution-z"@);
    let note = Some("Thin the axis to this many points."@);
    assert(all[2] == thinned[2] && all[3] == thinned[3] && all[4] == thinned[4]);
    what_is_described_is_taken(all, 2, "resolution-x"@, false, note, counted());
    what_is_described_is_taken(all, 3, "resolution-y"@, false, note, counted());
    what_is_described_is_taken(all, 4, "resolution-z"@, false, note, counted());
}

/// The API definition describes the endpoint of each query type at its path, with
/// the parameters that it takes, and names the server.
pub proof fn the_definition_describes_each_endpoint(base: Seq<char>, ids: Seq<Seq<char>>)
    ensures
        describes(api_tree(base, ids), ids, "/collections/{collectionId}/position"@, "position"@),
        describes(api_tree(base, ids), ids, "/collections/{collectionId}/radius"@, "radius"@),
        describes(api_tree(base, ids), ids, "/collections/{collectionId}/area"@, "area"@),
        describes(api_tree(base, ids), ids, "/collections/{collectionId}/cube"@, "cube"@),
        json::member(api_tree(base, ids), "servers"@) matches Some(Tree::List(servers))
            && servers.len() == 1 && json::member(servers[0], "url"@) == Some(
            Tree::Text(
                if base.len() > 0 {
                    base
                } else {
                    "/"@
                },
            ),
        ),
{
    broadcast use json::what_is_put_is_found;

    reveal_strlit("openapi");
    reveal_strlit("info");
    reveal_strlit("servers");
    reveal_strlit("paths");
    reveal_strlit("url");
    assert("openapi"@.len() == 7 && "info"@.len() == 4 && "servers"@.len() == 7);
    assert("paths"@.len() == 5 && "servers"@[0] == 's' && "openapi"@[0] == 'o');
    query_types_differ();
    let paths = api_paths(ids, 4);
    assert(json::member(api_tree(base, ids), "paths"@) == Some(Tree::Object(paths)));
    reveal_with_fuel(api_paths, 5);
    reveal_strlit("/collections/{collectionId}/");
    reveal_strlit("position");
    reveal_strlit("radius");
    reveal_strlit("area");
    reveal_strlit("cube");
    reveal_strlit("/collections/{collectionId}/position");
    reveal_strlit("/collections/{collectionId}/radius");
    reveal_strlit("/collections/{collectionId}/area");
    reveal_strlit("/collections/{collectionId}/cube");
    let head = "/collections/{collectionId}/"@;
    assert(head + "position"@ =~= "/collections/{collectionId}/position"@);
    assert(head + "radius"@ =~= "/collections/{collectionId}/radius"@);
    assert(head + "area"@ =~= "/collections/{collectionId}/area"@);
    assert(head + "cube"@ =~= "/collections/{collectionId}/cube"@);
    let (p, r) = (head + "position"@, head + "radius"@);
    let (a, c) = (head + "area"@, head + "cube"@);
    assert(p.len() == 36 && r.len() == 34 && a.len() == 32 && c.len() == 32);
    assert(a[28] == 'a' && c[28] == 'c');
    let q = QUERY_TYPES@;
    an_operation_lists_its_parameters(ids, "position"@, q[0].1@);
    an_operation_lists_its_parameters(ids, "radius"@, q[1].1@);
    an_operation_lists_its_parameters(ids, "area"@, q[2].1@);
    an_operation_lists_its_parameters(ids, "cube"@, q[3].1@);
}

/// Whether the definition lists the parameters of a query at a path.
pub open spec fn describes(
    definition: Tree,
    ids: Seq<Seq<char>>,
    path: Seq<char>,
    name: Seq<char>,
) -> bool {
    json::within(
        json::within(json::within(json::member(definition, "paths"@), path), "get"@),
        "parameters"@,
    ) == Some(Tree::List(endpoint_parameters(ids, name)))
}

proof fn an_operation_lists_its_parameters(
    ids: Seq<Seq<char>>,
    name: Seq<char>,
    title: Seq<char>,
)
    ensures
        json::within(
            json::member(query_operation(ids, name, title), "get"@),
            "parameters"@,
        ) == Some(Tree::List(endpoint_parameters(ids, name))),
{
    broadcast use json::what_is_put_is_found;

    reveal_strlit("parameters");
    reveal_strlit("responses");
    assert("parameters"@.len() == 10 && "responses"@.len() == 9);
}

/// Each query type is told by what it is for, and no other text names one.
pub proof fn a_query_type_is_told_by_its_name(name: Seq<char>, k: int)
    requires
        0 <= k < 4,
    ensures
        listed_at(QUERY_TYPES@[k].0@, 4) == Some(k),
        (forall|i: int| 0 <= i < 4 ==> (#[trigger] QUERY_TYPES@[i]).0@ != name) ==> listed_at(
            name,
            4,
        ) is None,
{
    query_types_differ();
    reveal_with_fuel(listed_at, 5);
    if forall|i: int| 0 <= i < 4 ==> (#[trigger] QUERY_TYPES@[i]).0@ != name {
        assert(QUERY_TYPES@[0].0@ != name && QUERY_TYPES@[1].0@ != name);
        assert(QUERY_TYPES@[2].0@ != name && QUERY_TYPES@[3].0@ != name);
    }
}

/// What a collection's document and each of its endpoints offer: CoverageJSON, which
/// is the default, GeoJSON and HTML, all in CRS84.
pub proof fn the_formats_on_offer_are_listed(base: Seq<char>, c: Collection)
    ensures
        json::member(collection_tree(base, c), "output_formats"@) matches Some(Tree::List(formats))
            && formats.len() == 3 && formats[0] == Tree::Text("CoverageJSON"@) && formats[1]
            == Tree::Text("GeoJSON"@) && formats[2] == Tree::Text("HTML"@),
        json::member(collection_tree(base, c), "crs"@) matches Some(Tree::List(systems))
            && systems.len() == 1 && systems[0] == Tree::Text("CRS84"@),
{
    broadcast use json::what_is_put_is_found;

    collection_keys_differ();
}

} // verus!
