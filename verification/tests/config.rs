use gitalong::config::{bool_str, parse_store_header, CONFIG_BASENAME};
use gitalong::Error;
use gitalong::Config;

#[test]
fn defaults_match_python() {
    let cfg = Config::default();
    assert_eq!(cfg.store_url, "");
    assert!(cfg.store_headers.is_empty());
    assert!(!cfg.modify_permissions);
    assert!(!cfg.track_binaries);
    assert!(cfg.tracked_extensions.is_empty());
    assert_eq!(cfg.pull_threshold.parse::<f64>().unwrap(), 60.0);
    assert!(!cfg.track_uncommitted);
}

#[test]
fn property_lookup_translates_hyphens() {
    let cfg = Config {
        store_url: "x.git".into(),
        modify_permissions: true,
        track_binaries: false,
        pull_threshold: 42.5f64.to_string(),
        tracked_extensions: vec![".jpg".into()],
        ..Config::default()
    };
    assert_eq!(cfg.property("store-url").as_deref(), Some("x.git"));
    assert_eq!(cfg.property("modify-permissions").as_deref(), Some("true"));
    assert_eq!(cfg.property("track-binaries").as_deref(), Some("false"));
    assert_eq!(cfg.property("pull-threshold").as_deref(), Some("42.5"));
    assert_eq!(
        cfg.property("tracked-extensions").as_deref(),
        Some(r#"[".jpg"]"#)
    );
    assert_eq!(cfg.property("does-not-exist"), None);
}

#[test]
fn property_lookup_accepts_underscores_and_renders_headers_as_json() {
    let mut cfg = Config::default();
    cfg.store_headers.insert("X-Bin-Versioning".into(), "false".into());
    cfg.store_headers.insert("X-Access-Key".into(), "$KEY".into());
    cfg.track_uncommitted = true;
    assert_eq!(
        cfg.property("store_headers").as_deref(),
        Some(r#"{"X-Access-Key":"$KEY","X-Bin-Versioning":"false"}"#)
    );
    assert_eq!(cfg.property("track-uncommitted").as_deref(), Some("true"));
    assert_eq!(cfg.property("store-url").as_deref(), Some(""));
    assert_eq!(cfg.property("store--url"), None);
}

#[test]
fn config_path_for_joins_basename() {
    let path = Config::path_for("/tmp/repo");
    assert_eq!(path, "/tmp/repo/.gitalong.json");
    assert_eq!(Config::path_for("/tmp/repo/"), "/tmp/repo/.gitalong.json");
    assert_eq!(Config::path_for(""), CONFIG_BASENAME);
}

#[test]
fn bool_str_is_lowercase() {
    assert_eq!(bool_str(true), "true");
    assert_eq!(bool_str(false), "false");
}

#[test]
fn store_header_splits_at_the_first_equals_sign() {
    assert_eq!(
        parse_store_header("X-Access-Key=$JSONBIN_KEY"),
        Ok(("X-Access-Key".to_string(), "$JSONBIN_KEY".to_string()))
    );
    assert_eq!(parse_store_header("A=b=c"), Ok(("A".to_string(), "b=c".to_string())));
    assert_eq!(parse_store_header("A="), Ok(("A".to_string(), String::new())));
}

#[test]
fn store_header_without_name_or_equals_is_rejected() {
    assert_eq!(
        parse_store_header("missing-equals"),
        Err(Error::InvalidConfig("store header `missing-equals` is not of the form KEY=VALUE".into()))
    );
    assert_eq!(
        parse_store_header("=value"),
        Err(Error::InvalidConfig("store header `=value` is not of the form KEY=VALUE".into()))
    );
}
