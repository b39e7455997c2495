//! Configuration documents.

use typst_gather::config::{ConfigError, ConfigValue, PackageTable, RawConfig, StringOrVec};
use typst_gather::{Config, PackageEntry, Place};

fn text(s: &str) -> Option<String> {
    Some(s.to_string())
}

#[test]
fn empty_config() {
    let config = Config::parse("").unwrap();
    assert!(config.destination.is_none());
    assert!(config.discover.is_empty());
    assert!(config.preview.is_empty());
    assert!(config.local.is_empty());
}

#[test]
fn destination_only() {
    let toml = r#"destination = "/path/to/cache""#;
    let config = Config::parse(toml).unwrap();
    assert_eq!(config.destination, text("/path/to/cache"));
    assert!(config.discover.is_empty());
    assert!(config.preview.is_empty());
    assert!(config.local.is_empty());
}

#[test]
fn with_discover_string() {
    let toml = r#"
destination = "/cache"
discover = "/path/to/templates"
"#;
    let config = Config::parse(toml).unwrap();
    assert_eq!(config.destination, text("/cache"));
    assert_eq!(config.discover, vec!["/path/to/templates".to_string()]);
}

#[test]
fn with_discover_array() {
    let toml = r#"
destination = "/cache"
discover = ["/path/to/templates", "template.typ", "other.typ"]
"#;
    let config = Config::parse(toml).unwrap();
    assert_eq!(config.destination, text("/cache"));
    assert_eq!(
        config.discover,
        vec![
            "/path/to/templates".to_string(),
            "template.typ".to_string(),
            "other.typ".to_string(),
        ]
    );
}

#[test]
fn preview_only() {
    let toml = r#"
destination = "/cache"

[preview]
cetz = "0.4.1"
fletcher = "0.5.3"
"#;
    let config = Config::parse(toml).unwrap();
    assert_eq!(config.destination, text("/cache"));
    assert_eq!(config.preview.len(), 2);
    assert_eq!(config.preview.get("cetz"), Some(&"0.4.1".to_string()));
    assert_eq!(config.preview.get("fletcher"), Some(&"0.5.3".to_string()));
    assert!(config.local.is_empty());
}

#[test]
fn local_only() {
    let toml = r#"
destination = "/cache"

[local]
my-pkg = "/path/to/pkg"
other = "../relative/path"
"#;
    let config = Config::parse(toml).unwrap();
    assert!(config.preview.is_empty());
    assert_eq!(config.local.len(), 2);
    assert_eq!(
        config.local.get("my-pkg"),
        Some(&"/path/to/pkg".to_string())
    );
    assert_eq!(
        config.local.get("other"),
        Some(&"../relative/path".to_string())
    );
}

#[test]
fn mixed_config() {
    let toml = r#"
destination = "/cache"

[preview]
cetz = "0.4.1"

[local]
my-pkg = "/path/to/pkg"
"#;
    let config = Config::parse(toml).unwrap();
    assert_eq!(config.destination, text("/cache"));
    assert_eq!(config.preview.len(), 1);
    assert_eq!(config.local.len(), 1);
}

#[test]
fn into_entries() {
    let toml = r#"
destination = "/cache"

[preview]
cetz = "0.4.1"

[local]
my-pkg = "/path/to/pkg"
"#;
    let config = Config::parse(toml).unwrap();
    let entries = config.into_entries();
    assert_eq!(entries.len(), 2);

    let has_preview = entries.iter().any(|e| {
        matches!(e, PackageEntry::Preview { name, version }
            if name == "cetz" && version == "0.4.1")
    });
    let has_local = entries.iter().any(|e| {
        matches!(e, PackageEntry::Local { name, dir }
            if name == "my-pkg" && dir == "/path/to/pkg")
    });
    assert!(has_preview);
    assert!(has_local);
}

#[test]
fn invalid_toml() {
    let result = Config::parse("not valid toml [[[");
    assert!(result.is_err());
}

#[test]
fn extra_fields_ignored() {
    let toml = r#"
destination = "/cache"

[preview]
cetz = "0.4.1"

[unknown_section]
foo = "bar"
"#;
    // Should not error on unknown sections
    let config = Config::parse(toml).unwrap();
    assert_eq!(config.preview.len(), 1);
}

#[test]
fn missing_destination_returns_none() {
    let config = Config::parse("").unwrap();
    assert!(config.destination.is_none());
}

#[test]
fn parse_discover_field() {
    let toml = r#"
destination = "/cache"
discover = "/path/to/templates"
"#;
    let config = Config::parse(toml).unwrap();
    assert_eq!(config.discover, vec!["/path/to/templates".to_string()]);
}

#[test]
fn parse_discover_array() {
    let toml = r#"
destination = "/cache"
discover = ["template.typ", "typst-show.typ"]
"#;
    let config = Config::parse(toml).unwrap();
    assert_eq!(
        config.discover,
        vec!["template.typ".to_string(), "typst-show.typ".to_string()]
    );
}

#[test]
fn configured_local_contains_check() {
    let mut configured_local = PackageTable::new();
    configured_local.insert("my-pkg".to_string(), "/one".to_string());
    configured_local.insert("other-pkg".to_string(), "/two".to_string());

    // These should be skipped (configured as local)
    assert!(configured_local.keys().contains(&"my-pkg".to_string()));
    assert!(configured_local.keys().contains(&"other-pkg".to_string()));

    // These should NOT be skipped (not configured)
    assert!(!configured_local.keys().contains(&"cetz".to_string()));
    assert!(!configured_local.keys().contains(&"fletcher".to_string()));
}

#[test]
fn package_cache_is_a_string_or_a_list() {
    let one = Config::parse("package-cache = \"cache\"").unwrap();
    assert_eq!(one.package_cache, vec!["cache".to_string()]);
    let two = Config::parse("package-cache = [\"a\", \"b\"]").unwrap();
    assert_eq!(two.package_cache, vec!["a".to_string(), "b".to_string()]);
    let none = Config::parse("discover = []").unwrap();
    assert!(none.package_cache.is_empty());
    assert!(none.discover.is_empty());
}

#[test]
fn syntax_errors_are_told_apart_from_wrong_fields() {
    assert!(matches!(
        Config::parse("not valid toml [[["),
        Err(ConfigError::Syntax(_))
    ));
    assert!(matches!(
        Config::parse("destination = 1"),
        Err(ConfigError::Field(f)) if f == "destination"
    ));
    assert!(matches!(
        Config::parse("rootdir = []"),
        Err(ConfigError::Field(f)) if f == "rootdir"
    ));
    assert!(matches!(
        Config::parse("discover = [\"a.typ\", 2]"),
        Err(ConfigError::Field(f)) if f == "discover"
    ));
    assert!(matches!(
        Config::parse("package-cache = true"),
        Err(ConfigError::Field(f)) if f == "package-cache"
    ));
    assert!(matches!(
        Config::parse("[preview]\ncetz = 4"),
        Err(ConfigError::Field(f)) if f == "preview"
    ));
    assert!(matches!(
        Config::parse("local = \"dir\""),
        Err(ConfigError::Field(f)) if f == "local"
    ));
}

#[test]
fn a_name_that_stands_twice_is_a_syntax_error() {
    assert!(matches!(
        Config::parse("[local]\na = \"x\"\na = \"y\""),
        Err(ConfigError::Syntax(_))
    ));
}

#[test]
fn a_document_is_read_field_by_field() {
    let document = vec![
        ("destination".to_string(), ConfigValue::Text("out".to_string())),
        (
            "discover".to_string(),
            ConfigValue::List(vec![text("a.typ"), text("b.typ")]),
        ),
        (
            "preview".to_string(),
            ConfigValue::Section(vec![("cetz".to_string(), text("0.4.1"))]),
        ),
        ("colour".to_string(), ConfigValue::Other),
    ];
    let raw = RawConfig::from_document(&document).unwrap();
    assert_eq!(raw.rootdir, None);
    assert_eq!(raw.destination, text("out"));
    let discover = raw.discover.unwrap().into_paths();
    assert_eq!(discover, vec!["a.typ".to_string(), "b.typ".to_string()]);
    assert!(raw.package_cache.is_none());
    assert_eq!(raw.preview.get("cetz"), Some(&"0.4.1".to_string()));
    assert!(raw.local.is_empty());
}

#[test]
fn one_string_is_one_path() {
    assert_eq!(
        StringOrVec::Single("a".to_string()).into_paths(),
        vec!["a".to_string()]
    );
    assert!(StringOrVec::default().into_paths().is_empty());
}

#[test]
fn entries_are_previews_first() {
    let toml = "[local]\nmine = \"dir\"\n[preview]\na = \"1.0.0\"\nb = \"2.0.0\"\n";
    let entries = Config::parse(toml).unwrap().into_entries();
    assert_eq!(entries.len(), 3);
    assert!(matches!(&entries[0], PackageEntry::Preview { .. }));
    assert!(matches!(&entries[1], PackageEntry::Preview { .. }));
    assert!(matches!(&entries[2], PackageEntry::Local { name, dir }
        if name == "mine" && dir == "dir"));
}

#[test]
fn places_know_their_root() {
    let config = Config::parse("rootdir = \"/root\"").unwrap();
    assert_eq!(
        config.place(&"a.typ".to_string()),
        Place {
            root: text("/root"),
            path: "a.typ".to_string()
        }
    );
    let config = Config::default();
    assert_eq!(
        config.place(&"a.typ".to_string()),
        Place {
            root: None,
            path: "a.typ".to_string()
        }
    );
}

#[test]
fn inserting_replaces() {
    let mut table = PackageTable::new();
    assert!(table.is_empty());
    table.insert("a".to_string(), "1".to_string());
    table.insert("b".to_string(), "2".to_string());
    table.insert("a".to_string(), "3".to_string());
    assert_eq!(table.len(), 2);
    assert_eq!(table.get("a"), Some(&"3".to_string()));
    assert_eq!(table.get("b"), Some(&"2".to_string()));
    assert_eq!(table.get("c"), None);
    assert_eq!(table.keys(), vec!["a".to_string(), "b".to_string()]);
    assert_eq!(table.pairs()[1].1, "2");
}

#[test]
fn a_date_is_a_section_of_one_entry() {
    let config = Config::parse("preview = 1979-05-27").unwrap();
    assert_eq!(config.preview.len(), 1);
    assert_eq!(
        config.preview.get("$__toml_private_datetime"),
        Some(&"1979-05-27".to_string())
    );
    let config = Config::parse("[local]\n\"$__toml_private_datetime\" = \"dir\"").unwrap();
    assert_eq!(
        config.local.get("$__toml_private_datetime"),
        Some(&"dir".to_string())
    );
    assert!(Config::parse("[preview]\ncetz = 1979-05-27").is_err());
    assert!(Config::parse("destination = 1979-05-27").is_err());
    assert!(Config::parse("discover = 1979-05-27").is_err());
}

#[test]
fn under_a_name_that_stands_twice_the_last_text_counts() {
    let document = vec![(
        "local".to_string(),
        ConfigValue::Section(vec![
            ("a".to_string(), text("one")),
            ("b".to_string(), text("two")),
            ("a".to_string(), text("three")),
        ]),
    )];
    let raw = RawConfig::from_document(&document).unwrap();
    assert_eq!(raw.local.len(), 2);
    assert_eq!(raw.local.get("a"), Some(&"three".to_string()));
    assert_eq!(raw.local.keys(), vec!["a".to_string(), "b".to_string()]);
}
