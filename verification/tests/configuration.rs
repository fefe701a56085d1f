//! Loading a configuration from a TOML file or from the environment.

use ogc_edr::config::{parse_env, Config, Environment, DEFAULT_ERA5_LOCATION};
use ogc_edr::toml_text::{configuration, from_toml, unreadable, NamedFile};

/// Load a configuration from the text of a file.
fn load(toml: &str) -> Result<Config, String> {
    from_toml("/tmp/ogc-edr-config-1.toml", toml).map_err(|e| e.description().to_string())
}

fn nothing_set() -> Environment {
    Environment {
        bind: None,
        base_url: None,
        max_values: None,
        default_limit: None,
        location: None,
        collection_id: None,
        parameters: None,
    }
}

#[test]
fn a_collection_needs_only_an_id_and_a_location() {
    let config = load(
        r#"
        [[collections]]
        id = "era5"
        location = "gs://example/era5.zarr"
        "#,
    )
    .expect("minimal config should load");

    assert_eq!(config.collections.len(), 1);
    let collection = &config.collections[0];
    assert_eq!(collection.id, "era5");
    assert_eq!(collection.location, "gs://example/era5.zarr");
    // Everything else is discovered from the store, so it may be absent.
    assert!(collection.title.is_none());
    assert!(collection.description.is_none());
    assert!(collection.parameters.is_none());
    assert!(collection.keywords.is_empty());

    // Server-wide settings fall back to their defaults.
    assert_eq!(config.bind, "0.0.0.0:3000");
    assert_eq!(config.max_values, 5_000_000);
    assert_eq!(config.default_limit, 100_000);
    assert_eq!(config.base_url, "");
}

#[test]
fn several_stores_can_be_served_side_by_side() {
    let config = load(
        r#"
        bind = "127.0.0.1:8080"
        base_url = "https://edr.example.org"
        max_values = 1000
        default_limit = 500

        [[collections]]
        id = "era5"
        location = "gs://example/era5.zarr"
        title = "ERA5"
        keywords = ["reanalysis"]

        [[collections]]
        id = "era5-model-level"
        location = "gs://example/model-level.zarr"
        parameters = ["temperature", "specific_humidity"]
        "#,
    )
    .expect("multi-collection config should load");

    assert_eq!(config.bind, "127.0.0.1:8080");
    assert_eq!(config.base_url, "https://edr.example.org");
    assert_eq!(config.max_values, 1000);
    assert_eq!(config.default_limit, 500);

    let ids: Vec<&str> = config.collections.iter().map(|c| c.id.as_str()).collect();
    assert_eq!(ids, ["era5", "era5-model-level"]);
    assert_eq!(config.collections[0].keywords, ["reanalysis"]);
    assert_eq!(
        config.collections[1].parameters.as_deref(),
        Some(["temperature".to_string(), "specific_humidity".to_string()].as_slice())
    );
}

#[test]
fn the_shipped_example_is_valid() {
    // The example that people are told to copy has to actually load.
    let config = load(
        r#"
[[collections]]
id = "era5"
location = "gs://gcp-public-data-arco-era5/ar/full_37-1h-0p25deg-chunk-1.zarr-v3"
title = "ERA5"

[[collections]]
id = "era5-model-level"
location = "gs://gcp-public-data-arco-era5/ar/model-level-1h-0p25deg.zarr-v1"
title = "ERA5 model levels"
# Optional: serve a subset. Omit to expose every variable in the store.
parameters = ["temperature", "specific_humidity"]
"#,
    )
    .expect("example config");
    assert_eq!(config.collections.len(), 2);
    assert!(config.collections.iter().all(|c| c.location.starts_with("gs://")));
}

#[test]
fn a_config_serving_nothing_is_rejected() {
    let error = load("bind = \"0.0.0.0:3000\"").unwrap_err();
    assert!(error.contains("no collections configured"), "{error}");
}

#[test]
fn a_duplicate_id_is_rejected_rather_than_dropping_a_store() {
    // Ids key the catalogue, so the second would silently replace the first.
    let error = load(
        r#"
        [[collections]]
        id = "era5"
        location = "gs://example/one.zarr"

        [[collections]]
        id = "era5"
        location = "gs://example/two.zarr"
        "#,
    )
    .unwrap_err();
    assert!(error.contains("used more than once"), "{error}");
}

#[test]
fn an_id_that_would_not_survive_a_url_is_rejected() {
    // The id is a path segment in every URL the collection appears at.
    let error = load(
        r#"
        [[collections]]
        id = "era5/model level"
        location = "gs://example/era5.zarr"
        "#,
    )
    .unwrap_err();
    assert!(error.contains("URL path segment"), "{error}");
}

#[test]
fn a_missing_location_is_reported_against_its_collection() {
    let error = load(
        r#"
        [[collections]]
        id = "era5"
        location = ""
        "#,
    )
    .unwrap_err();
    assert!(error.contains("era5") && error.contains("location"), "{error}");
}

#[test]
fn a_misspelled_key_is_reported_rather_than_ignored() {
    // Silently dropping `titel` would serve a collection with no title and no
    // hint as to why.
    let error = load(
        r#"
        [[collections]]
        id = "era5"
        location = "gs://example/era5.zarr"
        titel = "ERA5"
        "#,
    )
    .unwrap_err();
    assert!(error.contains("titel") || error.contains("unknown field"), "{error}");
}

#[test]
fn a_malformed_file_names_the_file_and_the_place() {
    let error = load("[[collections]\nid = \"era5\"").unwrap_err();
    assert!(error.contains("invalid config"), "{error}");
    assert!(error.contains("ogc-edr-config"), "the file is not named: {error}");
}

#[test]
fn a_missing_file_is_reported_clearly() {
    let error = unreadable("/nonexistent/collections.toml", "No such file or directory");
    assert!(error.description().contains("cannot read config"));
    assert!(error.description().contains("/nonexistent/collections.toml"));
    assert_eq!(error.status(), 500);
}

#[test]
fn a_named_file_overrides_the_environment() {
    let environment = || Environment {
        bind: Some("0.0.0.0:1".to_string()),
        max_values: Some("not a number".to_string()),
        collection_id: Some("elsewhere".to_string()),
        ..nothing_set()
    };
    let named = |text: Result<String, String>| {
        let file = NamedFile { path: "/etc/edr.toml".to_string(), text };
        configuration(Some(file), environment())
    };
    let source = "max_values = 7\n[[collections]]\nid = \"era5\"\nlocation = \"gs://x/y.zarr\"";
    let config = named(Ok(source.to_string())).expect("file");
    assert_eq!(config.max_values, 7);
    assert_eq!(config.bind, from_toml("/etc/edr.toml", source).unwrap().bind);
    assert_ne!(config.bind, "0.0.0.0:1");
    assert_eq!(config.collections[0].id, "era5");

    let error = named(Err("No such file".to_string())).unwrap_err();
    assert_eq!(error.description(), "cannot read config /etc/edr.toml: No such file");

    // Without a file the environment is read, and its faults count.
    assert!(configuration(None, environment()).is_err());
    let set = Environment { bind: Some("0.0.0.0:1".to_string()), ..nothing_set() };
    assert_eq!(configuration(None, set).expect("environment").bind, "0.0.0.0:1");
}

#[test]
fn a_setting_of_the_wrong_type_is_reported() {
    let error = load("max_values = \"many\"").unwrap_err();
    assert_eq!(
        error,
        "invalid config /tmp/ogc-edr-config-1.toml: wrong type for `max_values`"
    );
    let error = load("max_values = -1").unwrap_err();
    assert!(error.contains("wrong type for `max_values`"), "{error}");
    let error = load("collections = 3").unwrap_err();
    assert!(error.contains("wrong type for `collections`"), "{error}");
    let error = load("collections = [3]").unwrap_err();
    assert!(error.contains("wrong type for `collections`"), "{error}");
    let error = load("[[collections]]\nid = \"a\"\nlocation = \"b\"\nkeywords = [1]").unwrap_err();
    assert!(error.contains("wrong type for `keywords`"), "{error}");
    let error = load("threads = 3").unwrap_err();
    assert!(error.contains("unknown field `threads`"), "{error}");
    let error = load("[[collections]]\nlocation = \"b\"").unwrap_err();
    assert!(error.contains("missing field `id`"), "{error}");
}

#[test]
fn a_base_url_loses_its_trailing_slashes() {
    let config = load(
        "base_url = \"https://edr.example.org//\"\n[[collections]]\nid = \"a\"\nlocation = \"b\"",
    )
    .unwrap();
    assert_eq!(config.base_url, "https://edr.example.org");
}

#[test]
fn without_a_file_the_environment_serves_era5() {
    let config = Config::from_env(nothing_set()).unwrap();
    assert_eq!(config.bind, "0.0.0.0:3000");
    assert_eq!(config.base_url, "");
    assert_eq!(config.max_values, 5_000_000);
    assert_eq!(config.default_limit, 100_000);
    assert_eq!(config.collections.len(), 1);
    let collection = &config.collections[0];
    assert_eq!(collection.id, "era5");
    assert_eq!(collection.location, DEFAULT_ERA5_LOCATION);
    assert_eq!(collection.title.as_deref(), Some("ERA5"));
    assert!(collection.parameters.is_none());
    assert_eq!(collection.keywords.len(), 5);
}

#[test]
fn the_environment_overrides_each_default() {
    let config = Config::from_env(Environment {
        bind: Some("127.0.0.1:1".to_string()),
        base_url: Some("https://x.example///".to_string()),
        max_values: Some(" 12 ".to_string()),
        default_limit: Some("7".to_string()),
        location: Some("/data/store.zarr".to_string()),
        collection_id: Some("mine".to_string()),
        parameters: Some(" a, ,b ,".to_string()),
    })
    .unwrap();
    assert_eq!(config.bind, "127.0.0.1:1");
    assert_eq!(config.base_url, "https://x.example");
    assert_eq!(config.max_values, 12);
    assert_eq!(config.default_limit, 7);
    assert_eq!(config.collections[0].id, "mine");
    assert_eq!(config.collections[0].location, "/data/store.zarr");
    assert_eq!(
        config.collections[0].parameters.as_deref(),
        Some(["a".to_string(), "b".to_string()].as_slice())
    );
}

#[test]
fn a_count_that_is_none_is_refused() {
    let error = parse_env("EDR_MAX_VALUES", &Some("lots".to_string()), 5).unwrap_err();
    assert_eq!(error.description(), "EDR_MAX_VALUES must be a positive integer, got lots");
    assert_eq!(parse_env("EDR_MAX_VALUES", &None, 5).unwrap(), 5);
    assert!(Config::from_env(Environment {
        default_limit: Some("-3".to_string()),
        ..nothing_set()
    })
    .is_err());
}
