//! Versions, package specifications, and the order of packages.

use typst_gather::gather::{count_outcomes, Outcome};
use typst_gather::order::sort_pairs;
use typst_gather::package::package_directory;
use typst_gather::text::{decimal_text, is_typst_source, same_text};
use typst_gather::{Manifest, PackageSpec, PackageVersion, Stats};

fn version(major: u32, minor: u32, patch: u32) -> PackageVersion {
    PackageVersion {
        major,
        minor,
        patch,
    }
}

fn spec(text: &str) -> PackageSpec {
    PackageSpec::parse(text).unwrap()
}

#[test]
fn default_stats() {
    let stats = Stats::default();
    assert_eq!(stats.downloaded, 0);
    assert_eq!(stats.copied, 0);
    assert_eq!(stats.skipped, 0);
    assert_eq!(stats.failed, 0);
}

#[test]
fn versions_are_three_numbers() {
    assert_eq!(PackageVersion::parse("0.4.1"), Some(version(0, 4, 1)));
    assert_eq!(PackageVersion::parse("+1.02.3"), Some(version(1, 2, 3)));
    assert_eq!(
        PackageVersion::parse("4294967295.0.0"),
        Some(version(4294967295, 0, 0))
    );
    assert_eq!(PackageVersion::parse("4294967296.0.0"), None);
    assert_eq!(PackageVersion::parse("0.4"), None);
    assert_eq!(PackageVersion::parse("0.4.1.2"), None);
    assert_eq!(PackageVersion::parse("0..1"), None);
    assert_eq!(PackageVersion::parse(""), None);
    assert_eq!(PackageVersion::parse("a.b.c"), None);
    assert_eq!(PackageVersion::parse("-1.0.0"), None);
}

#[test]
fn versions_are_read_as_they_were_written() {
    let v = version(10, 0, 4294967295);
    assert_eq!(v.to_string(), "10.0.4294967295");
    assert_eq!(PackageVersion::parse(&v.to_string()), Some(v));
}

#[test]
fn specs_have_three_parts() {
    let cetz = spec("@preview/cetz:0.4.1");
    assert_eq!(cetz.namespace, "preview");
    assert_eq!(cetz.name, "cetz");
    assert_eq!(cetz.version, version(0, 4, 1));
    assert_eq!(spec("@_a-1/B_2:1.2.3").name, "B_2");
}

#[test]
fn specs_that_are_none() {
    for text in [
        "",
        "preview/cetz:0.4.1",
        "@",
        "@preview",
        "@preview/",
        "@preview/cetz",
        "@preview/cetz:",
        "@preview/cetz:0.4",
        "@/cetz:0.4.1",
        "@preview/:0.4.1",
        "@1preview/cetz:0.4.1",
        "@preview/-cetz:0.4.1",
        "@preview/ce tz:0.4.1",
        "@preview/a/b:0.4.1",
        "@preview:0.4.1",
    ] {
        assert!(PackageSpec::parse(text).is_none(), "{text}");
    }
}

#[test]
fn names_need_not_be_ascii() {
    assert_eq!(spec("@preview/größe:1.0.0").name, "größe");
    assert!(PackageSpec::parse("@preview/a→b:1.0.0").is_none());
}

#[test]
fn specs_are_read_as_they_were_written() {
    let cetz = spec("@preview/cetz:+0.04.1");
    assert_eq!(cetz.to_string(), "@preview/cetz:0.4.1");
    assert!(spec(&cetz.to_string()).same(&cetz));
}

#[test]
fn specs_are_told_apart() {
    let cetz = spec("@preview/cetz:0.4.1");
    assert!(cetz.same(&cetz.clone()));
    assert!(!cetz.same(&spec("@preview/cetz:0.4.2")));
    assert!(!cetz.same(&spec("@local/cetz:0.4.1")));
    assert!(!cetz.same(&spec("@preview/cetx:0.4.1")));
    assert!(cetz.is_in("preview"));
    assert!(!cetz.is_in("local"));
}

#[test]
fn each_package_has_its_directory() {
    assert_eq!(spec("@preview/cetz:0.4.1").directory(), "preview/cetz/0.4.1");
    assert_eq!(spec("@local/mine:1.0.0").directory(), "local/mine/1.0.0");
}

#[test]
fn decimal_numerals() {
    assert_eq!(decimal_text(0), "0");
    assert_eq!(decimal_text(1234567890), "1234567890");
    assert_eq!(decimal_text(18446744073709551615), "18446744073709551615");
}

#[test]
fn source_files_end_in_typ() {
    assert!(is_typst_source("main.typ"));
    assert!(is_typst_source("a.b.typ"));
    assert!(!is_typst_source(".typ"));
    assert!(!is_typst_source("typ"));
    assert!(!is_typst_source("main.typx"));
    assert!(!is_typst_source("main.TYP"));
    assert!(!is_typst_source(""));
}

#[test]
fn texts_are_compared_in_full() {
    assert!(same_text("preview", "preview"));
    assert!(!same_text("preview", "previe"));
    assert!(same_text("", ""));
}

#[test]
fn pairs_are_sorted_by_name_and_version() {
    let pair = |a: &str, b: &str| (a.to_string(), b.to_string());
    let sorted = sort_pairs(&vec![
        pair("b", "1.0.0"),
        pair("a", "2.0.0"),
        pair("a", "10.0.0"),
        pair("ab", "0.0.1"),
        pair("a", "2.0.0"),
    ]);
    assert_eq!(
        sorted,
        vec![
            pair("a", "10.0.0"),
            pair("a", "2.0.0"),
            pair("a", "2.0.0"),
            pair("ab", "0.0.1"),
            pair("b", "1.0.0"),
        ]
    );
}

#[test]
fn manifests_are_read() {
    let text = "[package]\nname = \"mine\"\nversion = \"1.2.3\"\nentrypoint = \"lib.typ\"\n\
                exclude = [\"docs/**\"]\n";
    let manifest = Manifest::parse(text).unwrap();
    assert_eq!(manifest.name, "mine");
    assert_eq!(manifest.version, version(1, 2, 3));
    assert_eq!(manifest.exclude, vec!["docs/**".to_string()]);
}

#[test]
fn manifests_that_are_none() {
    assert!(Manifest::parse("").is_err());
    assert!(Manifest::parse("[package]\nname = \"mine\"\n").is_err());
    assert!(Manifest::parse(
        "[package]\nname = \"mine\"\nversion = \"1\"\nentrypoint = \"lib.typ\"\n"
    )
    .is_err());
}

#[test]
fn every_outcome_counts_once() {
    let log = vec![
        Outcome::Downloaded(spec("@preview/a:1.0.0")),
        Outcome::Skipped(spec("@preview/b:1.0.0")),
        Outcome::Skipped(spec("@preview/c:1.0.0")),
        Outcome::Copied(spec("@local/d:1.0.0")),
        Outcome::NotDownloaded(spec("@preview/e:1.0.0")),
        Outcome::NotCleared(spec("@local/f:1.0.0")),
        Outcome::NotCopied(spec("@local/g:1.0.0")),
        Outcome::NoManifest {
            name: "h".to_string(),
        },
    ];
    assert_eq!(
        count_outcomes(&log),
        Stats {
            downloaded: 1,
            copied: 1,
            skipped: 2,
            failed: 4
        }
    );
}

#[test]
fn packages_lie_below_their_namespace() {
    assert_eq!(
        package_directory("preview", "cetz", "0.4.1"),
        "preview/cetz/0.4.1"
    );
    assert_eq!(spec("@local/mine:1.0.0").directory(), "local/mine/1.0.0");
}
