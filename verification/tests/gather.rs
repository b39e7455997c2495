//! Gathering from files and a registry that are held in memory.

use std::collections::BTreeMap;

use typst_gather::gather::{GatherEvent, Outcome};
use typst_gather::{
    gather_packages, plan_gather, report, Config, CopyAction, EntryKind, ExcludeSet,
    Found, Gather, GatherReply, GatherRequest, GatherResult, Listed, PackageEntry, Place,
    SourceFile, Stats,
};

/// Files, by path.
struct World {
    files: BTreeMap<String, String>,
}

impl World {
    fn new() -> World {
        World {
            files: BTreeMap::new(),
        }
    }

    fn write(&mut self, path: &str, text: &str) {
        self.files.insert(path.to_string(), text.to_string());
    }

    fn package(&mut self, dir: &str, name: &str, version: &str, source: Option<&str>) {
        let manifest = format!(
            "[package]\nname = \"{name}\"\nversion = \"{version}\"\nentrypoint = \"lib.typ\"\n"
        );
        self.write(&format!("{dir}/typst.toml"), &manifest);
        self.write(
            &format!("{dir}/lib.typ"),
            source.unwrap_or("// Empty package\n"),
        );
    }

    fn is_dir(&self, path: &str) -> bool {
        let prefix = format!("{path}/");
        self.files.keys().any(|p| p.starts_with(&prefix))
    }

    fn resolve(place: &Place) -> String {
        match &place.root {
            Some(root) if !place.path.starts_with('/') => format!("{root}/{}", place.path),
            _ => place.path.clone(),
        }
    }

    fn id(&self, path: &str) -> usize {
        self.files.keys().position(|p| p == path).unwrap()
    }

    fn text(&self, id: usize) -> Option<String> {
        self.files.values().nth(id).cloned()
    }

    fn look(&self, path: &str) -> Found {
        if self.files.contains_key(path) {
            let name = path.rsplit('/').next().unwrap().to_string();
            return Found::File {
                id: self.id(path),
                name,
            };
        }
        if !self.is_dir(path) {
            return Found::Missing;
        }
        let prefix = format!("{path}/");
        let mut listed: Vec<Listed> = Vec::new();
        for p in self.files.keys().filter(|p| p.starts_with(&prefix)) {
            let rest = &p[prefix.len()..];
            let (name, is_file) = match rest.split_once('/') {
                Some((dir, _)) => (dir, false),
                None => (rest, true),
            };
            if listed.iter().all(|l| l.name != name) {
                listed.push(Listed {
                    id: self.id(p),
                    name: name.to_string(),
                    is_file,
                });
            }
        }
        Found::Directory(listed)
    }

    fn walk(&self, dir: &str) -> Vec<SourceFile> {
        let prefix = format!("{dir}/");
        self.files
            .iter()
            .filter(|(p, _)| p.starts_with(&prefix))
            .map(|(p, text)| SourceFile {
                name: p.rsplit('/').next().unwrap().to_string(),
                text: Some(text.clone()),
            })
            .collect()
    }
}

/// Where packages are gathered, and where they are downloaded from.
const CACHE: &str = "/cache";
const REGISTRY: &str = "/registry";

impl World {
    fn move_in(&mut self, from: &str, to: &str, excludes: &ExcludeSet) {
        let prefix = format!("{from}/");
        let found: Vec<(String, String)> = self
            .files
            .iter()
            .filter(|(p, _)| p.starts_with(&prefix))
            .map(|(p, text)| (p[prefix.len()..].to_string(), text.clone()))
            .collect();
        for (relative, text) in found {
            if excludes.action(&relative, EntryKind::File) == CopyAction::CopyFile {
                self.write(&format!("{to}/{relative}"), &text);
            }
        }
    }

    fn reply(&mut self, request: &GatherRequest) -> GatherReply {
        match request {
            GatherRequest::Look(place) => GatherReply::Found(self.look(&World::resolve(place))),
            GatherRequest::Read { id, .. } => GatherReply::Source(self.text(*id)),
            GatherRequest::FindCached(spec) => {
                GatherReply::Answer(self.is_dir(&format!("{CACHE}/{}", spec.directory())))
            }
            GatherRequest::Download(spec) => {
                let from = format!("{REGISTRY}/{}", spec.directory());
                let to = format!("{CACHE}/{}", spec.directory());
                let there = self.is_dir(&from);
                self.move_in(&from, &to, &ExcludeSet::new(&vec![]));
                GatherReply::Answer(there)
            }
            GatherRequest::Walk(spec) => {
                GatherReply::Files(self.walk(&format!("{CACHE}/{}", spec.directory())))
            }
            GatherRequest::ReadManifest { dir, .. } => {
                GatherReply::Manifest(self.files.get(&format!("{dir}/typst.toml")).cloned())
            }
            GatherRequest::Clear { spec, .. } => {
                let prefix = format!("{CACHE}/{}/", spec.directory());
                self.files.retain(|p, _| !p.starts_with(&prefix));
                GatherReply::Answer(true)
            }
            GatherRequest::Copy { spec, dir, exclude } => {
                let to = format!("{CACHE}/{}", spec.directory());
                self.move_in(dir, &to, &ExcludeSet::new(exclude));
                GatherReply::Answer(true)
            }
            GatherRequest::Done => unreachable!(),
        }
    }

    fn run(&mut self, mut gather: Gather) -> GatherResult {
        while !matches!(gather.request(), GatherRequest::Done) {
            let reply = self.reply(gather.request());
            gather = gather.resume(reply);
        }
        gather.finish()
    }

    fn gather(
        &mut self,
        entries: Vec<PackageEntry>,
        discover: &[&str],
        configured_local: &[&str],
    ) -> GatherResult {
        let discover = discover.iter().map(|p| place(p)).collect();
        let configured_local = configured_local.iter().map(|n| n.to_string()).collect();
        self.run(gather_packages(entries, discover, configured_local))
    }
}

fn place(path: &str) -> Place {
    Place {
        root: None,
        path: path.to_string(),
    }
}

fn local(name: &str, dir: &str) -> PackageEntry {
    PackageEntry::Local {
        name: name.to_string(),
        dir: dir.to_string(),
    }
}

fn preview(name: &str, version: &str) -> PackageEntry {
    PackageEntry::Preview {
        name: name.to_string(),
        version: version.to_string(),
    }
}

#[test]
fn cache_single_local_package() {
    let mut world = World::new();
    world.package("/src", "my-pkg", "1.0.0", None);

    let result = world.gather(vec![local("my-pkg", "/src")], &[], &["my-pkg"]);

    assert_eq!(result.stats.copied, 1);
    assert_eq!(result.stats.failed, 0);

    // Verify package was copied to correct location
    assert!(world.is_dir("/cache/local/my-pkg/1.0.0"));
    assert!(world.files.contains_key("/cache/local/my-pkg/1.0.0/typst.toml"));
    assert!(world.files.contains_key("/cache/local/my-pkg/1.0.0/lib.typ"));
}

#[test]
fn cache_local_package_overwrites_existing() {
    let mut world = World::new();

    // Create initial version
    world.package("/src", "my-pkg", "1.0.0", Some("// v1"));
    world.write("/src/old.typ", "// gone later");

    let entries = vec![local("my-pkg", "/src")];
    world.gather(entries.clone(), &[], &["my-pkg"]);
    assert!(world.files.contains_key("/cache/local/my-pkg/1.0.0/old.typ"));

    // Update source
    world.write("/src/lib.typ", "// v2");
    world.files.remove("/src/old.typ");

    // Cache again
    let result = world.gather(entries, &[], &["my-pkg"]);
    assert_eq!(result.stats.copied, 1);

    // Verify new content
    assert_eq!(world.files["/cache/local/my-pkg/1.0.0/lib.typ"], "// v2");
    assert!(!world.files.contains_key("/cache/local/my-pkg/1.0.0/old.typ"));
}

#[test]
fn cache_multiple_local_packages() {
    let mut world = World::new();
    world.package("/src1", "pkg-one", "1.0.0", None);
    world.package("/src2", "pkg-two", "2.0.0", None);

    let entries = vec![local("pkg-one", "/src1"), local("pkg-two", "/src2")];
    let result = world.gather(entries, &[], &["pkg-one", "pkg-two"]);

    assert_eq!(result.stats.copied, 2);
    assert!(world.is_dir("/cache/local/pkg-one/1.0.0"));
    assert!(world.is_dir("/cache/local/pkg-two/2.0.0"));
}

#[test]
fn fail_on_name_mismatch() {
    let mut world = World::new();

    // Create package with different name in manifest
    world.package("/src", "actual-name", "1.0.0", None);

    let result = world.gather(vec![local("wrong-name", "/src")], &[], &["wrong-name"]);

    assert_eq!(result.stats.copied, 0);
    assert_eq!(result.stats.failed, 1);
}

#[test]
fn fail_on_missing_manifest() {
    let mut world = World::new();

    // Create directory without typst.toml
    world.write("/src/lib.typ", "// no manifest");

    let result = world.gather(vec![local("my-pkg", "/src")], &[], &["my-pkg"]);

    assert_eq!(result.stats.copied, 0);
    assert_eq!(result.stats.failed, 1);
}

#[test]
fn fail_on_nonexistent_directory() {
    let entries = vec![local("my-pkg", "/nonexistent/path/to/package")];
    let result = World::new().gather(entries, &[], &["my-pkg"]);

    assert_eq!(result.stats.copied, 0);
    assert_eq!(result.stats.failed, 1);
}

#[test]
fn preserves_subdirectories() {
    let mut world = World::new();
    world.package("/src", "my-pkg", "1.0.0", None);

    // Add subdirectory with files
    world.write("/src/src/utils/helper.typ", "// helper");

    let result = world.gather(vec![local("my-pkg", "/src")], &[], &["my-pkg"]);

    assert_eq!(result.stats.copied, 1);
    assert!(world
        .files
        .contains_key("/cache/local/my-pkg/1.0.0/src/utils/helper.typ"));
}

#[test]
fn parse_and_cache_local_from_toml() {
    let mut world = World::new();
    world.package("/src", "my-pkg", "1.0.0", None);

    let toml = format!(
        r#"
destination = "{}"

[local]
my-pkg = "{}"
"#,
        CACHE, "/src"
    );

    let plan = plan_gather(Config::parse(&toml).unwrap()).unwrap();
    assert_eq!(World::resolve(&plan.destination), CACHE);
    let gather = gather_packages(plan.entries, plan.discover, plan.configured_local);
    let result = world.run(gather);

    assert_eq!(result.stats.copied, 1);
    assert!(world.is_dir("/cache/local/my-pkg/1.0.0"));
}

#[test]
fn empty_config_does_nothing() {
    let toml = format!(r#"destination = "{}""#, CACHE);
    let plan = plan_gather(Config::parse(&toml).unwrap()).unwrap();
    let gather = gather_packages(plan.entries, plan.discover, plan.configured_local);
    let result = World::new().run(gather);

    assert_eq!(result.stats.downloaded, 0);
    assert_eq!(result.stats.copied, 0);
    assert_eq!(result.stats.skipped, 0);
    assert_eq!(result.stats.failed, 0);
}

#[test]
fn detects_unconfigured_local_imports() {
    let mut world = World::new();

    // Create a .typ file that imports @local/my-pkg
    let content = r#"#import "@local/my-pkg:1.0.0""#;
    world.write("/discover/template.typ", content);

    // Don't configure my-pkg in the local section
    let result = world.gather(vec![], &["/discover"], &[]);

    // Should have one unconfigured local
    assert_eq!(result.unconfigured_local.len(), 1);
    assert_eq!(result.unconfigured_local[0].0, "my-pkg");
}

#[test]
fn configured_local_not_reported() {
    let mut world = World::new();

    // Create a .typ file that imports @local/my-pkg
    let content = r#"#import "@local/my-pkg:1.0.0""#;
    world.write("/discover/template.typ", content);

    // Configure my-pkg (even though we don't actually copy it)
    let result = world.gather(vec![], &["/discover"], &["my-pkg"]);

    // Should have no unconfigured local
    assert!(result.unconfigured_local.is_empty());
}

#[test]
fn gather_still_works() {
    let config_content = format!("destination = \"{}\"\n", "/dir/dest");
    let plan = plan_gather(Config::parse(&config_content).unwrap()).unwrap();
    let gather = gather_packages(plan.entries, plan.discover, plan.configured_local);
    let result = World::new().run(gather);

    assert!(report(&result).success);
}

#[test]
fn gather_no_destination_fails() {
    assert!(plan_gather(Config::parse("").unwrap()).is_err());
}

#[test]
fn download_preview_package() {
    let mut world = World::new();
    world.package("/registry/preview/example/0.1.0", "example", "0.1.0", None);

    let result = world.gather(vec![preview("example", "0.1.0")], &[], &[]);

    assert_eq!(result.stats.downloaded, 1);
    assert_eq!(result.stats.failed, 0);

    assert!(world.is_dir("/cache/preview/example/0.1.0"));
    assert!(world
        .files
        .contains_key("/cache/preview/example/0.1.0/typst.toml"));
}

#[test]
fn download_package_with_dependencies() {
    let mut world = World::new();
    world.package(
        "/registry/preview/cetz/0.3.4",
        "cetz",
        "0.3.4",
        Some("#import \"@preview/oxifmt:0.2.1\""),
    );
    world.package("/registry/preview/oxifmt/0.2.1", "oxifmt", "0.2.1", None);

    // cetz has dependencies that should be auto-downloaded
    let result = world.gather(vec![preview("cetz", "0.3.4")], &[], &[]);

    // Should download cetz plus its dependencies
    assert!(result.stats.downloaded >= 1);
    assert_eq!(result.stats.downloaded, 2);
    assert_eq!(result.stats.failed, 0);
}

#[test]
fn skip_already_cached() {
    let mut world = World::new();
    world.package("/registry/preview/example/0.1.0", "example", "0.1.0", None);
    let entries = vec![preview("example", "0.1.0")];

    // First download
    let result1 = world.gather(entries.clone(), &[], &[]);
    assert_eq!(result1.stats.downloaded, 1);

    // Second run should skip
    let result2 = world.gather(entries, &[], &[]);
    assert_eq!(result2.stats.downloaded, 0);
    assert_eq!(result2.stats.skipped, 1);
}

#[test]
fn fail_on_nonexistent_package() {
    let entries = vec![preview("this-package-does-not-exist-12345", "0.0.0")];
    let result = World::new().gather(entries, &[], &[]);

    assert_eq!(result.stats.downloaded, 0);
    assert_eq!(result.stats.failed, 1);
}

#[test]
fn local_package_triggers_preview_deps() {
    let mut world = World::new();
    world.package("/registry/preview/example/0.1.0", "example", "0.1.0", None);

    // Create local package that imports a preview package
    let content = r#"
#import "@preview/example:0.1.0"

#let my-func() = []
"#;
    world.package("/src", "my-pkg", "1.0.0", Some(content));

    let result = world.gather(vec![local("my-pkg", "/src")], &[], &["my-pkg"]);

    assert_eq!(result.stats.copied, 1);
    assert!(result.stats.downloaded >= 1); // Should have downloaded example

    assert!(world.is_dir("/cache/local/my-pkg/1.0.0"));
    assert!(world.is_dir("/cache/preview/example/0.1.0"));
}

#[test]
fn configured_packages_are_not_downloaded() {
    let mut world = World::new();
    world.package("/registry/preview/mine/0.9.0", "mine", "0.9.0", None);
    world.write("/doc.typ", "#import \"@preview/mine:0.9.0\"");

    let entries = vec![preview("mine", "0.9.0")];
    let result = world.gather(entries, &["/doc.typ"], &["mine"]);

    assert_eq!(result.stats, Stats::default());
    assert!(!world.is_dir("/cache/preview/mine/0.9.0"));
}

#[test]
fn packages_that_import_each_other_are_downloaded_once() {
    let mut world = World::new();
    let a = "#import \"@preview/b:1.0.0\"";
    let b = "#import \"@preview/a:1.0.0\"";
    world.package("/registry/preview/a/1.0.0", "a", "1.0.0", Some(a));
    world.package("/registry/preview/b/1.0.0", "b", "1.0.0", Some(b));

    let entries = vec![preview("a", "1.0.0"), preview("b", "1.0.0")];
    let result = world.gather(entries, &[], &[]);

    assert_eq!(result.stats.downloaded, 2);
    assert_eq!(result.stats.skipped, 0);
}

#[test]
fn what_is_there_is_followed_too() {
    let mut world = World::new();
    let a = "#import \"@preview/b:1.0.0\"";
    world.package("/cache/preview/a/1.0.0", "a", "1.0.0", Some(a));
    world.package("/registry/preview/b/1.0.0", "b", "1.0.0", None);

    let result = world.gather(vec![preview("a", "1.0.0")], &[], &[]);

    assert_eq!(result.stats.skipped, 1);
    assert_eq!(result.stats.downloaded, 1);
}

#[test]
fn only_scanned_files_count_as_importing_local_packages() {
    let mut world = World::new();
    let a = "#import \"@local/deep:1.0.0\"";
    world.package("/registry/preview/a/1.0.0", "a", "1.0.0", Some(a));
    world.write("/one.typ", "#import \"@preview/a:1.0.0\"\n#import \"@local/mine:1.0.0\"");
    world.write("/two.typ", "#import \"@local/mine:2.0.0\"\n#import \"@local/yours:1.0.0\"");

    let result = world.gather(vec![], &["/one.typ", "/two.typ"], &[]);

    let pair = |a: &str, b: &str| (a.to_string(), b.to_string());
    assert_eq!(
        result.unconfigured_local,
        vec![pair("mine", "one.typ"), pair("yours", "two.typ")]
    );
    assert_eq!(result.stats.downloaded, 1);
    assert!(!report(&result).success);
}

#[test]
fn versions_that_are_none_fail() {
    let result = World::new().gather(vec![preview("cetz", "0.4")], &[], &[]);
    assert_eq!(result.stats.failed, 1);
    assert_eq!(result.stats.downloaded, 0);
}

#[test]
fn excluded_files_are_not_copied() {
    let mut world = World::new();
    world.package("/src", "my-pkg", "1.0.0", None);
    let manifest = format!("{}exclude = [\"docs/**\"]\n", world.files["/src/typst.toml"]);
    world.write("/src/typst.toml", &manifest);
    world.write("/src/docs/manual.typ", "#import \"@preview/ignored:1.0.0\"");
    world.write("/src/.git/config", "");

    let result = world.gather(vec![local("my-pkg", "/src")], &[], &["my-pkg"]);

    assert_eq!(result.stats.copied, 1);
    assert_eq!(result.stats.failed, 0);
    assert!(!world.is_dir("/cache/local/my-pkg/1.0.0/docs"));
    assert!(!world.is_dir("/cache/local/my-pkg/1.0.0/.git"));
}

#[test]
fn paths_are_scanned_before_packages_are_gathered() {
    let gather = gather_packages(
        vec![preview("cetz", "0.4.1")],
        vec![place("/doc.typ")],
        vec![],
    );
    assert!(matches!(gather.request(), GatherRequest::Look(p) if p.path == "/doc.typ"));
    let gather = gather.resume(GatherReply::Found(Found::Missing));
    assert!(matches!(gather.request(), GatherRequest::FindCached(s) if s.name == "cetz"));
    assert!(gather.log().is_empty());
}

#[test]
fn directories_that_cannot_be_read_fail() {
    let gather = gather_packages(vec![], vec![place("/dir")], vec![]);
    let gather = gather.resume(GatherReply::Found(Found::Unreadable));
    assert!(matches!(&gather.log()[0], Outcome::NotListed(p) if p.path == "/dir"));
    assert!(matches!(gather.request(), GatherRequest::Done));
    assert_eq!(gather.finish().stats.failed, 1);
}

#[test]
fn packages_that_cannot_be_removed_or_copied_fail() {
    let manifest = "[package]\nname = \"a\"\nversion = \"1.0.0\"\nentrypoint = \"lib.typ\"\n";
    let start = || {
        gather_packages(vec![local("a", "/src")], vec![], vec!["a".to_string()])
            .resume(GatherReply::Manifest(Some(manifest.to_string())))
    };

    let gather = start().resume(GatherReply::Answer(false));
    assert!(matches!(&gather.log()[0], Outcome::NotCleared(s) if s.name == "a"));
    assert_eq!(gather.finish().stats.failed, 1);

    let gather = start()
        .resume(GatherReply::Answer(true))
        .resume(GatherReply::Answer(false));
    assert!(matches!(&gather.log()[0], Outcome::NotCopied(s) if s.name == "a"));
    assert_eq!(gather.finish().stats.failed, 1);
}

#[test]
fn replies_to_other_requests_are_passed_over() {
    let gather = gather_packages(vec![preview("a", "1.0.0")], vec![], vec![]);
    let gather = gather.resume(GatherReply::Source(None));
    assert!(matches!(gather.request(), GatherRequest::FindCached(_)));
    let gather = gather.step(GatherEvent::Manifest(None));
    assert!(matches!(gather.request(), GatherRequest::FindCached(_)));
    assert!(gather.log().is_empty());
}

#[test]
fn a_second_run_downloads_nothing() {
    let mut world = World::new();
    let a = "#import \"@preview/b:1.0.0\"";
    world.package("/registry/preview/a/1.0.0", "a", "1.0.0", Some(a));
    world.package("/registry/preview/b/1.0.0", "b", "1.0.0", None);
    world.package("/cache/preview/c/1.0.0", "c", "1.0.0", None);
    world.package("/src", "mine", "1.0.0", None);
    world.write("/doc.typ", "#import \"@preview/c:1.0.0\"\n#import \"@local/other:1.0.0\"");
    let entries = vec![preview("a", "1.0.0"), local("mine", "/src")];

    let first = world.gather(entries.clone(), &["/doc.typ"], &["mine"]);
    let second = world.gather(entries, &["/doc.typ"], &["mine"]);

    let stats = |downloaded: usize, skipped: usize| Stats {
        downloaded,
        copied: 1,
        skipped,
        failed: 0,
    };
    assert_eq!(first.stats, stats(2, 1));
    assert_eq!(second.stats, stats(0, 3));
    assert_eq!(first.unconfigured_local, second.unconfigured_local);
    assert_eq!(first.unconfigured_local.len(), 1);
}

#[test]
fn entries_have_no_say_in_what_is_reported() {
    let mut world = World::new();
    world.write("/doc.typ", "#import \"@local/mine:1.0.0\"\n#import \"@local/yours:1.0.0\"");
    world.package("/registry/preview/a/1.0.0", "a", "1.0.0", None);

    let none = world.gather(vec![], &["/doc.typ"], &[]);
    let some = world.gather(
        vec![preview("a", "1.0.0"), local("mine", "/nowhere")],
        &["/doc.typ"],
        &["mine"],
    );

    let pair = |name: &str| (name.to_string(), "doc.typ".to_string());
    assert_eq!(none.unconfigured_local, vec![pair("mine"), pair("yours")]);
    assert_eq!(some.unconfigured_local, vec![pair("yours")]);
}

#[test]
fn every_local_entry_counts_once() {
    let mut world = World::new();
    world.package("/src", "mine", "1.0.0", None);
    let entries = vec![
        local("mine", "/src"),
        local("mine", "/src"),
        local("other", "/src"),
        local("lost", "/nowhere"),
    ];

    let result = world.gather(entries, &[], &["mine", "other", "lost"]);

    assert_eq!(
        result.stats,
        Stats {
            downloaded: 0,
            copied: 2,
            skipped: 0,
            failed: 2
        }
    );
}

#[test]
fn nothing_else_is_gathered() {
    let mut world = World::new();
    world.package("/registry/preview/a/1.0.0", "a", "1.0.0", Some("#import \"@foo/b:1.0.0\""));
    world.package("/registry/preview/b/1.0.0", "b", "1.0.0", None);
    world.package("/registry/foo/b/1.0.0", "b", "1.0.0", None);

    let result = world.gather(vec![preview("a", "1.0.0")], &[], &[]);

    assert_eq!(result.stats.downloaded, 1);
    assert!(world.is_dir("/cache/preview/a/1.0.0"));
    assert!(!world.is_dir("/cache/preview/b"));
    assert!(!world.is_dir("/cache/foo"));
}

#[test]
fn rootdir_only_says_where_gathering_starts() {
    let mut world = World::new();
    world.write("/dir/doc.typ", "#import \"@preview/a:1.0.0\"\n#import \"@local/other:1.0.0\"");
    world.package("/registry/preview/a/1.0.0", "a", "1.0.0", None);
    world.package("/cache/preview/a/1.0.0", "a", "1.0.0", None);
    world.package("/src", "mine", "1.0.0", None);
    let local = "[local]\nmine = \"/src\"\n";
    let relative = "rootdir = \"/dir\"\ndestination = \"out\"\ndiscover = \"doc.typ\"\n";
    let absolute = "destination = \"/dir/out\"\ndiscover = \"/dir/doc.typ\"\n";

    let mut results = Vec::new();
    for head in [relative, absolute] {
        let plan = plan_gather(Config::parse(&format!("{head}{local}")).unwrap()).unwrap();
        assert_eq!(World::resolve(&plan.destination), "/dir/out");
        let gather = gather_packages(plan.entries, plan.discover, plan.configured_local);
        results.push(world.run(gather));
    }

    assert_eq!(results[0].stats, results[1].stats);
    assert_eq!(results[0].stats.copied, 1);
    assert_eq!(results[0].stats.skipped, 1);
    assert_eq!(results[0].unconfigured_local, results[1].unconfigured_local);
    assert_eq!(results[0].unconfigured_local.len(), 1);
}
