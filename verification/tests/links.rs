//! Links out of pages, and the paths that assets are served from.

use ogc_edr::api::html::{
    class_name, fingerprint, settle_picker, stylesheet_path, with_format, Crumb,
};
use ogc_edr::api::link;
use ogc_edr::error::EdrError;
use ogc_edr::json::Json;

#[test]
fn links_out_of_a_result_carry_the_specification_spelling() {
    // The form submits two pickers; an EDR client expects one `datetime`.
    let query = "coords=POINT(0%2045)&datetime-from=2024-01-01T00:00\
                 &datetime-to=2024-01-02T00:00&parameter-name=t&f=html";
    let link = with_format(query, "CoverageJSON");
    assert!(link.contains("datetime=2024-01-01T00:00/2024-01-02T00:00"), "{link}");
    assert!(!link.contains("datetime-from"), "{link}");
    assert!(!link.contains("datetime-to"), "{link}");
    assert!(link.ends_with("f=CoverageJSON"), "{link}");
    assert!(link.contains("coords=POINT(0%2045)"), "{link}");
}

#[test]
fn an_empty_picker_becomes_an_open_end() {
    let link = with_format("datetime-from=2024-01-01T00:00&datetime-to=", "GeoJSON");
    assert!(link.contains("datetime=2024-01-01T00:00/.."), "{link}");

    let link = with_format("datetime-from=&datetime-to=2024-01-02T00:00", "GeoJSON");
    assert!(link.contains("datetime=../2024-01-02T00:00"), "{link}");
}

#[test]
fn untouched_pickers_add_no_datetime_at_all() {
    let link = with_format("coords=POINT(0%2045)&datetime-from=&datetime-to=", "GeoJSON");
    assert!(!link.contains("datetime"), "{link}");
}

#[test]
fn an_explicit_datetime_is_left_exactly_as_it_came() {
    let query = "datetime=2024-01-01T00:00:00Z/..&datetime-from=&datetime-to=";
    let link = with_format(query, "CoverageJSON");
    assert!(link.contains("datetime=2024-01-01T00:00:00Z/.."), "{link}");
    // And is not composed over by the empty pickers beside it.
    assert_eq!(link.matches("datetime=").count(), 1, "{link}");
}

#[test]
fn a_link_can_be_relinked() {
    let query = "a=1&f=html&datetime-from=2024-01-01T00:00&&flag";
    let once = with_format(query, "GeoJSON");
    assert_eq!(once, "a=1&flag&datetime=2024-01-01T00:00/..&f=GeoJSON");
    assert_eq!(with_format(&once, "CoverageJSON"), with_format(query, "CoverageJSON"));
}

#[test]
fn the_stylesheet_url_changes_whenever_the_stylesheet_does() {
    assert_eq!(fingerprint(""), 0xcbf2_9ce4_8422_2325);
    assert_eq!(fingerprint("a"), 0xaf63_dc4c_8601_ec8c);
    assert_eq!(stylesheet_path(""), "/static/style.cbf29ce484222325.css");
    assert_ne!(stylesheet_path("a { }"), stylesheet_path("b { }"));
}

#[test]
fn a_crumb_links_unless_it_is_the_page() {
    let home = Crumb::link("Home", "/");
    assert_eq!((home.label.as_str(), home.href.as_deref()), ("Home", Some("/")));
    assert!(Crumb::current("Collections").href.is_none());
    assert_eq!(class_name("http://www.opengis.net/spec/ogcapi-edr-1/1.1/conf/cube"), "cube");
    assert_eq!(class_name("bare"), "bare");
}

#[test]
fn a_link_says_where_what_and_how() {
    match link("/api".to_string(), "service-desc", "application/json", "API") {
        Json::Object(fields) => {
            let keys: Vec<&str> = fields.iter().map(|(k, _)| k.as_str()).collect();
            assert_eq!(keys, ["href", "rel", "type", "title"]);
        }
        other => panic!("{other:?}"),
    }
}

#[test]
fn each_error_has_its_status() {
    let cases = [
        (EdrError::BadRequest("a".to_string()), 400),
        (EdrError::NotFound("a".to_string()), 404),
        (EdrError::NotSupported("a".to_string()), 400),
        (EdrError::TooLarge("a".to_string()), 413),
        (EdrError::Internal("a".to_string()), 500),
    ];
    for (error, status) in cases {
        assert_eq!(error.status(), status);
        assert_eq!(error.description(), "a");
    }
}

#[test]
fn a_picker_shows_an_instant_or_hands_the_text_back() {
    assert_eq!(settle_picker(" .. ", Some("x".to_string())), "");
    assert_eq!(settle_picker("", None), "");
    assert_eq!(settle_picker(" soon ", None), "soon");
    assert_eq!(settle_picker("2024", Some("2024-01-01T00:00".to_string())), "2024-01-01T00:00");
}
