//! Content negotiation: which representation a request asks for.

use ogc_edr::api::negotiate::{accept_numerals, prefers_html, Representation, Wants};
use ogc_edr::double::Double;
use ogc_edr::numerals::Numerals;

/// Read the qualities of a header, as a server does before it decides.
fn qualities(accept: &str) -> Numerals {
    let mut numerals = Numerals::new();
    for text in accept_numerals(accept) {
        if let Ok(value) = text.parse::<f32>() {
            numerals.insert(text, Double::from_bits(f64::from(value).to_bits()));
        }
    }
    numerals
}

fn html(accept: &str) -> bool {
    prefers_html(accept, &qualities(accept))
}

fn wants(pairs: &[(&str, &str)], accept: &str) -> Representation {
    let pairs: Vec<(String, String)> =
        pairs.iter().map(|(k, v)| (k.to_string(), v.to_string())).collect();
    Wants::of(&pairs, accept, &qualities(accept)).0
}

#[test]
fn a_browser_gets_html() {
    assert!(html(
        "text/html,application/xhtml+xml,application/xml;q=0.9,image/avif,*/*;q=0.8"
    ));
    assert!(html("text/html"));
}

#[test]
fn a_tool_asking_for_anything_keeps_json() {
    assert!(!html("*/*"));
    assert!(!html(""));
    assert!(!html("application/json"));
    assert!(!html("application/prs.coverage+json"));
}

#[test]
fn only_an_explicit_html_type_asks_for_a_page() {
    assert!(!html("text/*"));
    assert!(!html("text/*, application/json;q=0.1"));
    assert!(!html("text/plain"));
    assert!(html("text/*;q=0.1, text/html"));
    assert!(html("TEXT/HTML"));
}

#[test]
fn quality_values_decide_a_contest() {
    assert!(!html("text/html;q=0.1, application/json"));
    assert!(html("text/html;q=0.9, application/json;q=0.5"));
    // A tie goes to JSON: this is an API that also renders pages.
    assert!(!html("text/html, application/json"));
}

#[test]
fn malformed_entries_are_ignored_rather_than_fatal() {
    assert!(html("text/html;q=notanumber"));
    assert!(!html(";;;"));
}

#[test]
fn the_qualities_of_a_header_are_listed() {
    assert_eq!(accept_numerals("text/html;q=0.9, application/json; q=0.5, */*"), ["0.9", "0.5"]);
    assert!(accept_numerals("text/html").is_empty());
}

#[test]
fn the_f_parameter_overrides_the_accept_header() {
    assert_eq!(wants(&[("f", "html")], "*/*"), Representation::Html);
    assert_eq!(wants(&[("f", "json")], "text/html"), Representation::Json);
    assert_eq!(wants(&[("F", " Text/HTML ")], "*/*"), Representation::Html);
    assert_eq!(wants(&[("coords", "x")], "text/html"), Representation::Html);
    assert!(wants(&[], "text/html").is_html());
    assert!(!wants(&[], "*/*").is_html());
}
