//! What a gather run needs, and what it reports.

use typst_gather::{plan_gather, report, Config, GatherResult, PackageEntry, Place, Stats};

#[test]
fn a_plan_needs_a_destination() {
    let error = plan_gather(Config::parse("").unwrap()).unwrap_err();
    assert_eq!(error, "'destination' field is required for gather");
}

#[test]
fn a_plan_resolves_destination_and_discover_only() {
    let toml = "rootdir = \"/root\"\ndestination = \"out\"\ndiscover = [\"a.typ\"]\n\
                [local]\nmine = \"dir\"\n[preview]\ncetz = \"0.4.1\"\n";
    let plan = plan_gather(Config::parse(toml).unwrap()).unwrap();
    let place = |path: &str| Place {
        root: Some("/root".to_string()),
        path: path.to_string(),
    };
    assert_eq!(plan.destination, place("out"));
    assert_eq!(plan.discover, vec![place("a.typ")]);
    assert_eq!(plan.configured_local, vec!["mine".to_string()]);
    assert_eq!(
        plan.entries,
        vec![
            PackageEntry::Preview {
                name: "cetz".to_string(),
                version: "0.4.1".to_string()
            },
            PackageEntry::Local {
                name: "mine".to_string(),
                dir: "dir".to_string()
            },
        ]
    );
}

#[test]
fn a_run_without_failures_succeeds() {
    let result = GatherResult {
        stats: Stats {
            downloaded: 1,
            copied: 2,
            skipped: 30,
            failed: 0,
        },
        unconfigured_local: vec![],
    };
    let report = report(&result);
    assert!(report.success);
    assert_eq!(
        report.lines,
        vec!["", "Done: 1 downloaded, 2 copied, 30 skipped, 0 failed"]
    );
}

#[test]
fn a_run_with_failures_fails() {
    let mut result = GatherResult::default();
    result.stats.failed = 1;
    let report = report(&result);
    assert!(!report.success);
    assert_eq!(
        report.lines[1],
        "Done: 0 downloaded, 0 copied, 0 skipped, 1 failed"
    );
}

#[test]
fn unconfigured_packages_are_an_error() {
    let pair = |a: &str, b: &str| (a.to_string(), b.to_string());
    let result = GatherResult {
        stats: Stats::default(),
        unconfigured_local: vec![pair("one", "a.typ"), pair("two", "b.typ")],
    };
    let report = report(&result);
    assert!(!report.success);
    assert_eq!(
        report.lines,
        vec![
            "",
            "Error: Found @local imports not configured in [local] section:",
            "  - one (in a.typ)",
            "  - two (in b.typ)",
            "",
            "Add them to your config file:",
            "  [local]",
            "  one = \"/path/to/one\"",
            "  two = \"/path/to/two\"",
        ]
    );
}
