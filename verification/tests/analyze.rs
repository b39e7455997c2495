//! Analyses of files that are held in memory.

use std::collections::BTreeMap;

use typst_gather::analyze::{describe_failure, AnalyzeEvent};
use typst_gather::{
    analyze, Analysis, AnalyzeReply, AnalyzeRequest, AnalyzeResult, Config, Found, ImportInfo,
    Listed, PackageSpec, Place, SourceFile,
};

/// Files, by path.
struct World {
    files: BTreeMap<String, String>,
}

impl World {
    fn new() -> World {
        World {
            files: BTreeMap::new(),
        }
    }

    fn write(&mut self, path: &str, text: &str) {
        self.files.insert(path.to_string(), text.to_string());
    }

    fn package(&mut self, dir: &str, name: &str, version: &str, source: Option<&str>) {
        let manifest = format!(
            "[package]\nname = \"{name}\"\nversion = \"{version}\"\nentrypoint = \"lib.typ\"\n"
        );
        self.write(&format!("{dir}/typst.toml"), &manifest);
        self.write(
            &format!("{dir}/lib.typ"),
            source.unwrap_or("// Empty package\n"),
        );
    }

    fn is_dir(&self, path: &str) -> bool {
        let prefix = format!("{path}/");
        self.files.keys().any(|p| p.starts_with(&prefix))
    }

    fn resolve(place: &Place) -> String {
        match &place.root {
            Some(root) if !place.path.starts_with('/') => format!("{root}/{}", place.path),
            _ => place.path.clone(),
        }
    }

    fn id(&self, path: &str) -> usize {
        self.files.keys().position(|p| p == path).unwrap()
    }

    fn text(&self, id: usize) -> Option<String> {
        self.files.values().nth(id).cloned()
    }

    fn look(&self, path: &str) -> Found {
        if self.files.contains_key(path) {
            let name = path.rsplit('/').next().unwrap().to_string();
            return Found::File {
                id: self.id(path),
                name,
            };
        }
        if !self.is_dir(path) {
            return Found::Missing;
        }
        let prefix = format!("{path}/");
        let mut listed: Vec<Listed> = Vec::new();
        for p in self.files.keys().filter(|p| p.starts_with(&prefix)) {
            let rest = &p[prefix.len()..];
            let (name, is_file) = match rest.split_once('/') {
                Some((dir, _)) => (dir, false),
                None => (rest, true),
            };
            if listed.iter().all(|l| l.name != name) {
                listed.push(Listed {
                    id: self.id(p),
                    name: name.to_string(),
                    is_file,
                });
            }
        }
        Found::Directory(listed)
    }

    fn walk(&self, dir: &str) -> Vec<SourceFile> {
        let prefix = format!("{dir}/");
        self.files
            .iter()
            .filter(|(p, _)| p.starts_with(&prefix))
            .map(|(p, text)| SourceFile {
                name: p.rsplit('/').next().unwrap().to_string(),
                text: Some(text.clone()),
            })
            .collect()
    }
}

impl World {
    fn reply(&self, request: &AnalyzeRequest) -> AnalyzeReply {
        match request {
            AnalyzeRequest::Look(place) => AnalyzeReply::Found(self.look(&World::resolve(place))),
            AnalyzeRequest::Read { id, .. } => AnalyzeReply::Source(self.text(*id)),
            AnalyzeRequest::ReadManifest { place, .. } => {
                let path = format!("{}/typst.toml", World::resolve(place));
                AnalyzeReply::Manifest(self.files.get(&path).cloned())
            }
            AnalyzeRequest::Walk { place, .. } => {
                AnalyzeReply::Files(self.walk(&World::resolve(place)))
            }
            AnalyzeRequest::CheckCache(place) => {
                AnalyzeReply::Answer(self.is_dir(&World::resolve(place)))
            }
            AnalyzeRequest::Probe {
                cache,
                name,
                version,
            } => {
                let dir = format!("{}/preview/{name}/{version}", World::resolve(cache));
                AnalyzeReply::Cached(if self.is_dir(&dir) {
                    Some(self.walk(&dir))
                } else {
                    None
                })
            }
            AnalyzeRequest::Done => unreachable!(),
        }
    }

    fn try_analyze(&self, config: &Config) -> Result<AnalyzeResult, String> {
        let mut analysis = analyze(config);
        while !matches!(analysis.request(), AnalyzeRequest::Done) {
            let reply = self.reply(analysis.request());
            analysis = analysis.resume(reply);
        }
        analysis.finish()
    }

    fn analyze(&self, config: &Config) -> AnalyzeResult {
        self.try_analyze(config).unwrap()
    }

    fn probes(&self, config: &Config) -> Vec<(String, String, String)> {
        let mut probes = Vec::new();
        let mut analysis = analyze(config);
        while !matches!(analysis.request(), AnalyzeRequest::Done) {
            if let AnalyzeRequest::Probe {
                cache,
                name,
                version,
            } = analysis.request()
            {
                probes.push((cache.path.clone(), name.clone(), version.clone()));
            }
            let reply = self.reply(analysis.request());
            analysis = analysis.resume(reply);
        }
        probes
    }
}

fn discovering(paths: &[&str]) -> Config {
    Config {
        discover: paths.iter().map(|p| p.to_string()).collect(),
        ..Default::default()
    }
}

fn with_local(mut config: Config, name: &str, dir: &str) -> Config {
    config.local.insert(name.to_string(), dir.to_string());
    config
}

fn find<'a>(result: &'a AnalyzeResult, name: &str) -> Option<&'a ImportInfo> {
    result.imports.iter().find(|i| i.name == name)
}

#[test]
fn single_preview_import() {
    let mut world = World::new();
    world.write("/dir/template.typ", r#"#import "@preview/cetz:0.4.1""#);

    let result = world.analyze(&discovering(&["/dir/template.typ"]));

    assert_eq!(result.imports.len(), 1);
    assert_eq!(result.imports[0].namespace, "preview");
    assert_eq!(result.imports[0].name, "cetz");
    assert_eq!(result.imports[0].version, "0.4.1");
    assert_eq!(result.imports[0].source, "template.typ");
    assert!(result.imports[0].direct);
}

#[test]
fn single_local_import() {
    let mut world = World::new();
    world.package("/dir/my-pkg-src", "my-pkg", "1.0.0", None);
    world.write("/dir/template.typ", r#"#import "@local/my-pkg:1.0.0""#);

    let config = with_local(
        discovering(&["/dir/template.typ"]),
        "my-pkg",
        "/dir/my-pkg-src",
    );
    let result = world.analyze(&config);

    let local_import = result
        .imports
        .iter()
        .find(|i| i.namespace == "local" && i.name == "my-pkg")
        .expect("should find @local/my-pkg");
    assert_eq!(local_import.version, "1.0.0");
    assert!(local_import.direct);
    assert_eq!(local_import.source, "template.typ");
}

#[test]
fn multiple_imports_single_file() {
    let mut world = World::new();
    let content = r#"
#import "@preview/cetz:0.4.1"
#import "@preview/fletcher:0.5.3"
#import "@local/my-pkg:1.0.0"
"#;
    world.write("/dir/template.typ", content);

    let result = world.analyze(&discovering(&["/dir/template.typ"]));

    assert_eq!(result.imports.len(), 3);
}

#[test]
fn multiple_files() {
    let mut world = World::new();
    world.write("/dir/template.typ", r#"#import "@preview/cetz:0.4.1""#);
    world.write("/dir/show.typ", r#"#import "@preview/fletcher:0.5.3""#);

    let result = world.analyze(&discovering(&["/dir"]));

    assert_eq!(result.imports.len(), 2);
    assert_eq!(result.files.len(), 2);
}

#[test]
fn lib_import_with_items() {
    let mut world = World::new();
    world.write(
        "/dir/template.typ",
        r#"#import "@preview/cetz:0.4.1": canvas, draw"#,
    );

    let result = world.analyze(&discovering(&["/dir/template.typ"]));

    assert_eq!(result.imports.len(), 1);
    assert_eq!(result.imports[0].name, "cetz");
}

#[test]
fn lib_include_statement() {
    let mut world = World::new();
    world.write(
        "/dir/template.typ",
        r#"#include "@preview/template:1.0.0""#,
    );

    let result = world.analyze(&discovering(&["/dir/template.typ"]));

    assert_eq!(result.imports.len(), 1);
    assert_eq!(result.imports[0].name, "template");
}

#[test]
fn nested_import_in_function() {
    let mut world = World::new();
    let code = "#let f() = {\n  import \"@preview/cetz:0.4.1\"\n}\n";
    world.write("/dir/template.typ", code);

    let result = world.analyze(&discovering(&["/dir/template.typ"]));

    assert_eq!(result.imports.len(), 1);
}

#[test]
fn lib_relative_import_ignored() {
    let mut world = World::new();
    world.write("/dir/template.typ", r#"#import "utils.typ""#);

    let result = world.analyze(&discovering(&["/dir/template.typ"]));

    assert!(result.imports.is_empty());
}

#[test]
fn lib_no_imports() {
    let mut world = World::new();
    world.write("/dir/template.typ", "= Hello World");

    let result = world.analyze(&discovering(&["/dir/template.typ"]));

    assert!(result.imports.is_empty());
    assert_eq!(result.files, vec!["template.typ"]);
}

#[test]
fn lib_invalid_package_spec_ignored() {
    let mut world = World::new();
    world.write("/dir/template.typ", r#"#import "@preview/cetz""#);

    let result = world.analyze(&discovering(&["/dir/template.typ"]));

    assert!(result.imports.is_empty());
}

#[test]
fn duplicate_import_same_file() {
    let mut world = World::new();
    let content = "#import \"@preview/cetz:0.4.1\"\n#import \"@preview/cetz:0.4.1\"\n";
    world.write("/dir/template.typ", content);

    let result = world.analyze(&discovering(&["/dir/template.typ"]));

    assert_eq!(result.imports.len(), 1);
}

#[test]
fn duplicate_import_across_files() {
    let mut world = World::new();
    world.write("/dir/a.typ", r#"#import "@preview/cetz:0.4.1""#);
    world.write("/dir/b.typ", r#"#import "@preview/cetz:0.4.1""#);

    let result = world.analyze(&discovering(&["/dir/a.typ", "/dir/b.typ"]));

    assert_eq!(result.imports.len(), 1);
    assert!(result.imports[0].direct);
}

#[test]
fn different_versions_not_deduped() {
    let mut world = World::new();
    let content = "#import \"@preview/cetz:0.4.1\"\n#import \"@preview/cetz:0.5.0\"\n";
    world.write("/dir/template.typ", content);

    let result = world.analyze(&discovering(&["/dir/template.typ"]));

    assert_eq!(result.imports.len(), 2);
}

#[test]
fn local_with_preview_dep() {
    let mut world = World::new();
    world.package(
        "/dir/my-pkg-src",
        "my-pkg",
        "1.0.0",
        Some(r#"#import "@preview/oxifmt:0.2.1""#),
    );
    world.write("/dir/template.typ", r#"#import "@local/my-pkg:1.0.0""#);

    let config = with_local(
        discovering(&["/dir/template.typ"]),
        "my-pkg",
        "/dir/my-pkg-src",
    );
    let result = world.analyze(&config);

    let local_import = result
        .imports
        .iter()
        .find(|i| i.namespace == "local")
        .expect("should have @local import");
    assert_eq!(local_import.name, "my-pkg");
    assert!(local_import.direct);

    let transitive = find(&result, "oxifmt").expect("should have transitive @preview/oxifmt");
    assert_eq!(transitive.namespace, "preview");
    assert_eq!(transitive.version, "0.2.1");
    assert_eq!(transitive.source, "@local/my-pkg");
    assert!(!transitive.direct);
}

#[test]
fn local_with_multiple_preview_deps() {
    let mut world = World::new();
    world.package(
        "/dir/my-pkg-src",
        "my-pkg",
        "1.0.0",
        Some("#import \"@preview/oxifmt:0.2.1\"\n#import \"@preview/codly:1.2.0\"\n"),
    );
    world.write("/dir/template.typ", r#"#import "@local/my-pkg:1.0.0""#);

    let config = with_local(
        discovering(&["/dir/template.typ"]),
        "my-pkg",
        "/dir/my-pkg-src",
    );
    let result = world.analyze(&config);

    let oxifmt = find(&result, "oxifmt").unwrap();
    assert_eq!(oxifmt.source, "@local/my-pkg");
    assert!(!oxifmt.direct);

    let codly = find(&result, "codly").unwrap();
    assert_eq!(codly.source, "@local/my-pkg");
    assert!(!codly.direct);
}

#[test]
fn local_no_preview_recursion() {
    let mut world = World::new();
    world.package(
        "/dir/my-pkg-src",
        "my-pkg",
        "1.0.0",
        Some(r#"#import "@preview/cetz:0.4.1""#),
    );
    world.write("/dir/template.typ", r#"#import "@local/my-pkg:1.0.0""#);

    // Without a package cache, what cetz imports should NOT be resolved
    let config = with_local(
        discovering(&["/dir/template.typ"]),
        "my-pkg",
        "/dir/my-pkg-src",
    );
    let result = world.analyze(&config);

    // my-pkg and cetz should be present, but nothing deeper
    assert!(result.imports.iter().any(|i| i.name == "my-pkg"));
    assert!(result.imports.iter().any(|i| i.name == "cetz"));
    assert_eq!(result.imports.len(), 2);
}

#[test]
fn local_dep_already_direct() {
    let mut world = World::new();
    world.package(
        "/dir/my-pkg-src",
        "my-pkg",
        "1.0.0",
        Some(r#"#import "@preview/cetz:0.4.1""#),
    );

    // Document also directly imports cetz
    let content = "#import \"@preview/cetz:0.4.1\"\n#import \"@local/my-pkg:1.0.0\"\n";
    world.write("/dir/template.typ", content);

    let config = with_local(
        discovering(&["/dir/template.typ"]),
        "my-pkg",
        "/dir/my-pkg-src",
    );
    let result = world.analyze(&config);

    let cetz = find(&result, "cetz").expect("should find cetz");
    assert!(cetz.direct, "direct should win over transitive");
    assert_eq!(cetz.source, "template.typ");
}

#[test]
fn local_with_no_deps() {
    let mut world = World::new();
    world.package("/dir/my-pkg-src", "my-pkg", "1.0.0", Some("// no imports"));
    world.write("/dir/template.typ", r#"#import "@local/my-pkg:1.0.0""#);

    let config = with_local(
        discovering(&["/dir/template.typ"]),
        "my-pkg",
        "/dir/my-pkg-src",
    );
    let result = world.analyze(&config);

    assert_eq!(result.imports.len(), 1);
    assert_eq!(result.imports[0].namespace, "local");
}

#[test]
fn local_missing_typst_toml() {
    let mut world = World::new();
    world.write("/dir/my-pkg-src/lib.typ", "// no manifest");
    world.write("/dir/template.typ", r#"#import "@local/my-pkg:1.0.0""#);

    let config = with_local(
        discovering(&["/dir/template.typ"]),
        "my-pkg",
        "/dir/my-pkg-src",
    );
    let result = world.analyze(&config);

    // Should still have the direct @local import from discover scanning
    let local_import = result
        .imports
        .iter()
        .find(|i| i.namespace == "local" && i.name == "my-pkg");
    assert!(
        local_import.is_some(),
        "should still report @local import from discover"
    );
    assert!(local_import.unwrap().direct);
}

#[test]
fn local_missing_source_dir() {
    let mut world = World::new();
    world.write("/dir/template.typ", r#"#import "@local/my-pkg:1.0.0""#);

    let config = with_local(
        discovering(&["/dir/template.typ"]),
        "my-pkg",
        "/nonexistent/path",
    );
    let result = world.analyze(&config);

    // Direct import still present from discover scanning
    let local_import = result
        .imports
        .iter()
        .find(|i| i.namespace == "local" && i.name == "my-pkg");
    assert!(local_import.is_some());
    assert!(local_import.unwrap().direct);
}

#[test]
fn local_imports_another_local() {
    let mut world = World::new();
    world.package(
        "/dir/my-pkg-src",
        "my-pkg",
        "1.0.0",
        Some(r#"#import "@local/other-pkg:2.0.0""#),
    );
    world.write("/dir/template.typ", r#"#import "@local/my-pkg:1.0.0""#);

    let config = with_local(
        discovering(&["/dir/template.typ"]),
        "my-pkg",
        "/dir/my-pkg-src",
    );
    let result = world.analyze(&config);

    // Should report @local/other-pkg as transitive but not recurse into it
    let other = find(&result, "other-pkg").expect("should find transitive @local/other-pkg");
    assert_eq!(other.namespace, "local");
    assert!(!other.direct);
    assert_eq!(other.source, "@local/my-pkg");
}

#[test]
fn local_version_from_toml() {
    let mut world = World::new();
    world.package("/dir/my-pkg-src", "my-pkg", "2.0.0", None);

    // Config has [local] but no discover imports
    let config = with_local(Config::default(), "my-pkg", "/dir/my-pkg-src");
    let result = world.analyze(&config);

    let import = find(&result, "my-pkg").expect("should find @local/my-pkg");
    assert_eq!(import.version, "2.0.0");
}

#[test]
fn discover_directory() {
    let mut world = World::new();
    world.write("/dir/a.typ", r#"#import "@preview/cetz:0.4.1""#);
    world.write("/dir/b.typ", r#"#import "@preview/fletcher:0.5.3""#);

    let result = world.analyze(&discovering(&["/dir"]));

    assert_eq!(result.imports.len(), 2);
    assert_eq!(result.files.len(), 2);
}

#[test]
fn discover_directory_non_recursive() {
    let mut world = World::new();
    world.write("/dir/a.typ", r#"#import "@preview/cetz:0.4.1""#);
    world.write("/dir/subdir/b.typ", r#"#import "@preview/fletcher:0.5.3""#);

    let result = world.analyze(&discovering(&["/dir"]));

    // Only a.typ should be found (non-recursive)
    assert_eq!(result.imports.len(), 1);
    assert_eq!(result.imports[0].name, "cetz");
}

#[test]
fn discover_single_file() {
    let mut world = World::new();
    world.write("/dir/template.typ", r#"#import "@preview/cetz:0.4.1""#);

    let result = world.analyze(&discovering(&["/dir/template.typ"]));

    assert_eq!(result.imports.len(), 1);
    assert_eq!(result.files, vec!["template.typ"]);
}

#[test]
fn discover_nonexistent_path() {
    let result = World::new().analyze(&discovering(&["/nonexistent/path.typ"]));

    assert!(result.imports.is_empty());
    assert!(result.files.is_empty());
}

#[test]
fn discover_mixed() {
    let mut world = World::new();
    world.write("/dir/subdir/a.typ", r#"#import "@preview/cetz:0.4.1""#);
    world.write("/dir/single.typ", r#"#import "@preview/fletcher:0.5.3""#);

    let result = world.analyze(&discovering(&["/dir/subdir", "/dir/single.typ"]));

    assert_eq!(result.imports.len(), 2);
    assert_eq!(result.files.len(), 2);
}

#[test]
fn discover_non_typ_file() {
    let mut world = World::new();
    world.write("/dir/notes.txt", r#"#import "@preview/cetz:0.4.1""#);

    let result = world.analyze(&discovering(&["/dir/notes.txt"]));

    assert!(result.imports.is_empty());
}

#[test]
fn rootdir_resolves_discover() {
    let mut world = World::new();
    world.write(
        "/dir/subdir/template.typ",
        r#"#import "@preview/cetz:0.4.1""#,
    );

    let config = Config {
        rootdir: Some("/dir/subdir".to_string()),
        discover: vec!["template.typ".to_string()],
        ..Default::default()
    };
    let result = world.analyze(&config);

    assert_eq!(result.imports.len(), 1);
}

#[test]
fn rootdir_resolves_local() {
    let mut world = World::new();
    world.package("/dir/pkg-src", "my-pkg", "1.0.0", None);

    let config = Config {
        rootdir: Some("/dir".to_string()),
        ..with_local(Config::default(), "my-pkg", "pkg-src")
    };
    let result = world.analyze(&config);

    let import = find(&result, "my-pkg");
    assert!(import.is_some());
}

#[test]
fn files_list_correct() {
    let mut world = World::new();
    world.write("/dir/a.typ", "= Hello");
    world.write("/dir/b.typ", "= World");

    let result = world.analyze(&discovering(&["/dir/a.typ", "/dir/b.typ"]));

    assert_eq!(result.files.len(), 2);
    assert!(result.files.contains(&"a.typ".to_string()));
    assert!(result.files.contains(&"b.typ".to_string()));
}

#[test]
fn empty_discover() {
    let result = World::new().analyze(&Config::default());

    assert!(result.imports.is_empty());
    assert!(result.files.is_empty());
}

#[test]
fn analyze_from_file() {
    let mut world = World::new();
    world.write("/dir/template.typ", r#"#import "@preview/cetz:0.4.1""#);

    let config_content = format!("discover = [\"{}/template.typ\"]\n", "/dir");
    let result = world.analyze(&Config::parse(&config_content).unwrap());

    assert_eq!(result.imports.len(), 1);
    assert_eq!(result.imports[0].name, "cetz");
}

#[test]
fn analyze_no_destination_ok() {
    let mut world = World::new();
    world.write("/dir/template.typ", "= Hello");

    // Config with no destination field
    let config_content = format!("discover = [\"{}/template.typ\"]\n", "/dir");
    let config = Config::parse(&config_content).unwrap();

    assert!(world.try_analyze(&config).is_ok());
}

#[test]
fn e2e_extension_like_config() {
    let mut world = World::new();
    world.package(
        "/dir/my-pkg-src",
        "my-pkg",
        "1.0.0",
        Some(r#"#import "@preview/oxifmt:0.2.1""#),
    );
    world.write(
        "/dir/template.typ",
        "#import \"@preview/cetz:0.4.1\"\n#import \"@local/my-pkg:1.0.0\"\n",
    );

    let config_content = format!(
        "discover = [\"{dir}/template.typ\"]\n\n[local]\nmy-pkg = \"{pkg}\"\n",
        dir = "/dir",
        pkg = "/dir/my-pkg-src",
    );
    let result = world.analyze(&Config::parse(&config_content).unwrap());

    // Direct @preview/cetz
    let cetz = find(&result, "cetz").unwrap();
    assert_eq!(cetz.namespace, "preview");
    assert!(cetz.direct);

    // Direct @local/my-pkg
    let my_pkg = find(&result, "my-pkg").unwrap();
    assert_eq!(my_pkg.namespace, "local");
    assert!(my_pkg.direct);

    // Transitive @preview/oxifmt
    let oxifmt = find(&result, "oxifmt").unwrap();
    assert_eq!(oxifmt.namespace, "preview");
    assert!(!oxifmt.direct);
    assert_eq!(oxifmt.source, "@local/my-pkg");

    // Files list
    assert!(result.files.iter().any(|f| f == "template.typ"));
}

#[test]
fn e2e_empty_project() {
    let mut world = World::new();
    world.write("/dir/template.typ", "= Hello World");

    let config_content = format!("discover = [\"{}/template.typ\"]\n", "/dir");
    let result = world.analyze(&Config::parse(&config_content).unwrap());

    assert!(result.imports.is_empty());
    assert!(!result.files.is_empty());
}

#[test]
fn e2e_local_only() {
    let mut world = World::new();
    world.package(
        "/dir/my-pkg-src",
        "my-pkg",
        "1.0.0",
        Some(r#"#import "@preview/oxifmt:0.2.1""#),
    );

    // No discover paths, only [local]
    let config_content = format!("[local]\nmy-pkg = \"{}\"\n", "/dir/my-pkg-src");
    let result = world.analyze(&Config::parse(&config_content).unwrap());

    assert!(result.imports.iter().any(|i| i.name == "my-pkg"));
    assert!(result.imports.iter().any(|i| i.name == "oxifmt"));
    assert!(result.files.is_empty());
}

#[test]
fn e2e_discover_only() {
    let mut world = World::new();
    world.write("/dir/doc.typ", r#"#import "@preview/cetz:0.4.1""#);

    // No [local] section
    let config_content = format!("discover = [\"{}/doc.typ\"]\n", "/dir");
    let result = world.analyze(&Config::parse(&config_content).unwrap());

    assert_eq!(result.imports.len(), 1);
    assert!(result.imports[0].direct);
}

#[test]
fn e2e_staging_scenario() {
    let mut world = World::new();

    // Create cache
    world.write(
        "/dir/cache/preview/cetz/0.4.1/lib.typ",
        r#"#import "@preview/oxifmt:0.2.1""#,
    );
    world.write("/dir/cache/preview/oxifmt/0.2.1/lib.typ", "// no imports");

    // Create document
    world.write("/dir/doc/document.typ", r#"#import "@preview/cetz:0.4.1""#);

    let config_content = format!(
        "discover = [\"{doc}/document.typ\"]\npackage-cache = [\"{cache}\"]\n",
        doc = "/dir/doc",
        cache = "/dir/cache",
    );
    let result = world.analyze(&Config::parse(&config_content).unwrap());

    let cetz = find(&result, "cetz").unwrap();
    assert!(cetz.direct);

    let oxifmt = find(&result, "oxifmt").unwrap();
    assert!(!oxifmt.direct);
    assert_eq!(oxifmt.source, "@preview/cetz:0.4.1");
}

#[test]
fn e2e_staging_with_local() {
    let mut world = World::new();

    // Create local package that imports fontawesome
    world.package(
        "/dir/my-theme-src",
        "my-theme",
        "1.0.0",
        Some(r#"#import "@preview/fontawesome:0.5.0""#),
    );

    // Create cache with cetz (depends on oxifmt) and fontawesome
    world.write(
        "/dir/cache/preview/cetz/0.4.1/lib.typ",
        r#"#import "@preview/oxifmt:0.2.1""#,
    );
    world.write("/dir/cache/preview/oxifmt/0.2.1/lib.typ", "// leaf");
    world.write("/dir/cache/preview/fontawesome/0.5.0/lib.typ", "// leaf");

    // Document imports cetz and local theme
    world.write(
        "/dir/doc.typ",
        "#import \"@preview/cetz:0.4.1\"\n#import \"@local/my-theme:1.0.0\"\n",
    );

    let config_content = format!(
        "discover = [\"{dir}/doc.typ\"]\npackage-cache = [\"{cache}\"]\n\n[local]\nmy-theme = \"{pkg}\"\n",
        dir = "/dir",
        cache = "/dir/cache",
        pkg = "/dir/my-theme-src",
    );
    let result = world.analyze(&Config::parse(&config_content).unwrap());

    // cetz (direct), my-theme (direct, local), fontawesome (transitive from local),
    // oxifmt (transitive from cetz via cache)
    assert!(result.imports.iter().any(|i| i.name == "cetz"));
    assert!(result.imports.iter().any(|i| i.name == "my-theme"));
    assert!(result.imports.iter().any(|i| i.name == "fontawesome"));
    assert!(result.imports.iter().any(|i| i.name == "oxifmt"));
}

#[test]
fn e2e_no_package_cache() {
    let mut world = World::new();
    world.write("/dir/doc.typ", r#"#import "@preview/cetz:0.4.1""#);

    let config_content = format!("discover = [\"{}/doc.typ\"]\n", "/dir");
    let config = Config::parse(&config_content).unwrap();

    assert!(world.try_analyze(&config).is_ok());
    assert!(world.probes(&config).is_empty());
}

#[test]
fn e2e_multiple_caches() {
    let mut world = World::new();
    world.write("/dir/cache1/preview/pkg-a/1.0.0/lib.typ", "// leaf");
    world.write("/dir/cache2/preview/pkg-b/1.0.0/lib.typ", "// leaf");
    world.write(
        "/dir/doc.typ",
        "#import \"@preview/pkg-a:1.0.0\"\n#import \"@preview/pkg-b:1.0.0\"\n",
    );

    let config_content = format!(
        "discover = [\"{dir}/doc.typ\"]\npackage-cache = [\"{c1}\", \"{c2}\"]\n",
        dir = "/dir",
        c1 = "/dir/cache1",
        c2 = "/dir/cache2",
    );
    let result = world.analyze(&Config::parse(&config_content).unwrap());

    assert_eq!(result.imports.len(), 2);
}

#[test]
fn e2e_cache_via_stdin() {
    let mut world = World::new();
    world.write(
        "/dir/cache/preview/cetz/0.4.1/lib.typ",
        r#"#import "@preview/oxifmt:0.2.1""#,
    );
    world.write("/dir/cache/preview/oxifmt/0.2.1/lib.typ", "// leaf");
    world.write("/dir/doc.typ", r#"#import "@preview/cetz:0.4.1""#);

    let config_content = format!(
        "discover = [\"{dir}/doc.typ\"]\npackage-cache = [\"{cache}\"]\n",
        dir = "/dir",
        cache = "/dir/cache",
    );
    let result = world.analyze(&Config::parse(&config_content).unwrap());

    assert!(result.imports.iter().any(|i| i.name == "oxifmt"));
}

#[test]
fn e2e_preview_imports_local_error() {
    let mut world = World::new();
    world.write(
        "/dir/cache/preview/foo/1.0.0/lib.typ",
        r#"#import "@local/bar:1.0.0""#,
    );
    world.write("/dir/doc.typ", r#"#import "@preview/foo:1.0.0""#);

    let config_content = format!(
        "discover = [\"{dir}/doc.typ\"]\npackage-cache = [\"{cache}\"]\n",
        dir = "/dir",
        cache = "/dir/cache",
    );
    let error = world
        .try_analyze(&Config::parse(&config_content).unwrap())
        .expect_err("should fail");

    assert!(error.contains("@preview/foo:1.0.0"));
    assert!(error.contains("@local/bar:1.0.0"));
    assert_eq!(
        error,
        "@preview/foo:1.0.0 imports @local/bar:1.0.0 \u{2014} a published package cannot depend \
         on local packages"
    );
}

fn caching(caches: &[&str], config: Config) -> Config {
    Config {
        package_cache: caches.iter().map(|p| p.to_string()).collect(),
        ..config
    }
}

#[test]
fn cache_handles_cycle() {
    let mut world = World::new();
    world.write("/c/preview/a/1.0.0/lib.typ", "#import \"@preview/b:1.0.0\"");
    world.write("/c/preview/b/1.0.0/lib.typ", "#import \"@preview/a:1.0.0\"");
    world.write("/doc.typ", "#import \"@preview/a:1.0.0\"");
    let config = caching(&["/c"], discovering(&["/doc.typ"]));

    assert_eq!(world.probes(&config).len(), 2);
    let result = world.analyze(&config);
    assert_eq!(result.imports.len(), 2);
    assert!(find(&result, "a").unwrap().direct);
    assert_eq!(find(&result, "b").unwrap().source, "@preview/a:1.0.0");
}

#[test]
fn cache_resolves_deep_chain() {
    let mut world = World::new();
    world.write("/c/preview/a/1.0.0/lib.typ", "#import \"@preview/b:1.0.0\"");
    world.write("/c/preview/b/1.0.0/lib.typ", "#import \"@preview/c:1.0.0\"");
    world.write("/c/preview/c/1.0.0/lib.typ", "#import \"@preview/d:1.0.0\"");
    world.write("/doc.typ", "#import \"@preview/a:1.0.0\"");

    let result = world.analyze(&caching(&["/c"], discovering(&["/doc.typ"])));

    let names: Vec<_> = result.imports.iter().map(|i| i.name.as_str()).collect();
    assert_eq!(names, vec!["a", "b", "c", "d"]);
    assert_eq!(find(&result, "d").unwrap().source, "@preview/c:1.0.0");
}

#[test]
fn multiple_caches_first_match_scanned() {
    let mut world = World::new();
    world.write("/one/preview/a/1.0.0/lib.typ", "#import \"@preview/x:1.0.0\"");
    world.write("/two/preview/a/1.0.0/lib.typ", "#import \"@preview/y:1.0.0\"");
    world.write("/doc.typ", "#import \"@preview/a:1.0.0\"");
    let config = caching(&["/one", "/two"], discovering(&["/doc.typ"]));

    let result = world.analyze(&config);
    assert!(find(&result, "x").is_some());
    assert!(find(&result, "y").is_none());

    let probe = |cache: &str, name: &str| {
        (cache.to_string(), name.to_string(), "1.0.0".to_string())
    };
    assert_eq!(
        world.probes(&config),
        vec![probe("/one", "a"), probe("/one", "x"), probe("/two", "x")]
    );
}

#[test]
fn packages_are_looked_for_in_order() {
    let mut world = World::new();
    world.write("/c/preview/z/1.0.0/lib.typ", "// leaf");
    world.write(
        "/doc.typ",
        "#import \"@preview/z:1.0.0\"\n#import \"@preview/b:2.0.0\"\n#import \"@preview/b:1.0.0\"\n",
    );

    let probes = world.probes(&caching(&["/c"], discovering(&["/doc.typ"])));
    let names: Vec<_> = probes
        .iter()
        .map(|(_, name, version)| format!("{name}:{version}"))
        .collect();
    assert_eq!(names, vec!["b:1.0.0", "b:2.0.0", "z:1.0.0"]);
}

#[test]
fn package_cache_path_nonexistent_or_file() {
    let mut world = World::new();
    world.write("/c/preview/a/1.0.0/lib.typ", "#import \"@preview/b:1.0.0\"");
    world.write("/file", "not a directory");
    world.write("/doc.typ", "#import \"@preview/a:1.0.0\"");
    let config = caching(&["/missing", "/file", "/c"], discovering(&["/doc.typ"]));

    let result = world.analyze(&config);
    assert!(find(&result, "b").is_some());
    assert!(world.probes(&config).iter().all(|(cache, _, _)| cache == "/c"));
}

#[test]
fn rootdir_applies_to_package_cache() {
    let mut world = World::new();
    world.write("/root/c/preview/a/1.0.0/lib.typ", "#import \"@preview/b:1.0.0\"");
    world.write("/root/doc.typ", "#import \"@preview/a:1.0.0\"");
    let config = Config {
        rootdir: Some("/root".to_string()),
        ..caching(&["c"], discovering(&["doc.typ"]))
    };

    assert!(find(&world.analyze(&config), "b").is_some());
}

#[test]
fn the_first_file_is_the_source() {
    let mut world = World::new();
    world.write("/b.typ", "#import \"@preview/a:1.0.0\"");
    world.write("/a.typ", "#import \"@preview/a:1.0.0\"");

    let result = world.analyze(&discovering(&["/b.typ", "/a.typ"]));
    assert_eq!(result.imports.len(), 1);
    assert_eq!(result.imports[0].source, "b.typ");
    assert_eq!(result.files, vec!["b.typ", "a.typ"]);
}

#[test]
fn files_of_one_name_are_listed_once() {
    let mut world = World::new();
    world.write("/one/a.typ", "#import \"@preview/x:1.0.0\"");
    world.write("/two/a.typ", "#import \"@preview/y:1.0.0\"");

    let result = world.analyze(&discovering(&["/one", "/two"]));
    assert_eq!(result.files, vec!["a.typ"]);
    assert_eq!(result.imports.len(), 2);
}

#[test]
fn unreadable_files_and_directories_import_nothing() {
    let mut analysis = analyze(&discovering(&["/dir", "/file.typ"]));
    assert!(matches!(analysis.request(), AnalyzeRequest::Look(place) if place.path == "/dir"));
    analysis = analysis.resume(AnalyzeReply::Found(Found::Unreadable));
    analysis = analysis.resume(AnalyzeReply::Found(Found::File {
        id: 7,
        name: "file.typ".to_string(),
    }));
    assert!(matches!(analysis.request(), AnalyzeRequest::Read { id: 7, .. }));
    analysis = analysis.resume(AnalyzeReply::Source(None));
    assert!(matches!(analysis.request(), AnalyzeRequest::Done));
    let result = analysis.finish().unwrap();
    assert!(result.imports.is_empty());
    assert_eq!(result.files, vec!["file.typ"]);
}

#[test]
fn replies_to_other_requests_change_nothing() {
    let analysis: Analysis = analyze(&discovering(&["/dir"]));
    let analysis = analysis.resume(AnalyzeReply::Answer(true));
    assert!(matches!(analysis.request(), AnalyzeRequest::Look(_)));
    let analysis = analysis.step(AnalyzeEvent::Cached(None));
    assert!(matches!(analysis.request(), AnalyzeRequest::Look(_)));
}

#[test]
fn a_failure_names_both_packages() {
    let dependency = PackageSpec::parse("@local/b:2.0.0").unwrap();
    assert_eq!(
        describe_failure(&"a".to_string(), &"1.0.0".to_string(), &dependency),
        "@preview/a:1.0.0 imports @local/b:2.0.0 \u{2014} a published package cannot depend on \
         local packages"
    );
}

#[test]
fn cache_handles_diamond_dependency() {
    let mut world = World::new();
    world.write(
        "/c/preview/a/1.0.0/lib.typ",
        "#import \"@preview/c:1.0.0\"\n#import \"@preview/b:1.0.0\"\n",
    );
    world.write("/c/preview/b/1.0.0/lib.typ", "#import \"@preview/d:1.0.0\"");
    world.write("/c/preview/c/1.0.0/lib.typ", "#import \"@preview/d:1.0.0\"");
    world.write(
        "/doc.typ",
        "#import \"@preview/c:1.0.0\"\n#import \"@preview/b:1.0.0\"\n",
    );
    let config = caching(&["/c"], discovering(&["/doc.typ"]));

    // b sorts before c, though c is imported first
    let result = world.analyze(&config);
    assert_eq!(result.imports.iter().filter(|i| i.name == "d").count(), 1);
    assert_eq!(find(&result, "d").unwrap().source, "@preview/b:1.0.0");
}

#[test]
fn cache_preview_imports_local_deep_is_error() {
    let mut world = World::new();
    world.write("/c/preview/a/1.0.0/lib.typ", "#import \"@preview/b:1.0.0\"");
    world.write("/c/preview/b/1.0.0/lib.typ", "#import \"@local/bar:1.0.0\"");
    world.write("/doc.typ", "#import \"@preview/a:1.0.0\"");

    let error = world
        .try_analyze(&caching(&["/c"], discovering(&["/doc.typ"])))
        .expect_err("should fail");
    assert!(error.starts_with("@preview/b:1.0.0 imports @local/bar:1.0.0"));
}

#[test]
fn cache_missing_package_no_crash() {
    let mut world = World::new();
    world.write("/c/preview/other/1.0.0/lib.typ", "// leaf");
    world.write("/doc.typ", "#import \"@preview/foo:1.0.0\"");

    let result = world.analyze(&caching(&["/c"], discovering(&["/doc.typ"])));
    assert_eq!(result.imports.len(), 1);
    assert!(result.imports[0].direct);
}

#[test]
fn cache_partial_chain() {
    let mut world = World::new();
    world.write("/c/preview/a/1.0.0/lib.typ", "#import \"@preview/b:1.0.0\"");
    world.write("/c/preview/b/1.0.0/lib.typ", "#import \"@preview/c:1.0.0\"");
    world.write("/doc.typ", "#import \"@preview/a:1.0.0\"");

    let result = world.analyze(&caching(&["/c"], discovering(&["/doc.typ"])));
    assert_eq!(result.imports.len(), 3);
    assert!(find(&result, "a").unwrap().direct);
    assert_eq!(find(&result, "b").unwrap().source, "@preview/a:1.0.0");
    assert_eq!(find(&result, "c").unwrap().source, "@preview/b:1.0.0");
}

#[test]
fn multiple_caches_fallthrough() {
    let mut world = World::new();
    world.write("/one/preview/x/1.0.0/lib.typ", "// leaf");
    world.write("/two/preview/a/1.0.0/lib.typ", "#import \"@preview/b:1.0.0\"");
    world.write("/doc.typ", "#import \"@preview/a:1.0.0\"");

    let result = world.analyze(&caching(&["/one", "/two"], discovering(&["/doc.typ"])));
    assert_eq!(find(&result, "b").unwrap().source, "@preview/a:1.0.0");
}

#[test]
fn local_dep_then_cache_follows() {
    let mut world = World::new();
    let source = "#import \"@preview/cetz:0.4.1\"";
    world.package("/src", "my-pkg", "1.0.0", Some(source));
    world.write(
        "/c/preview/cetz/0.4.1/lib.typ",
        "#import \"@preview/oxifmt:0.2.1\"",
    );
    world.write("/doc.typ", "#import \"@local/my-pkg:1.0.0\"");

    let config = with_local(discovering(&["/doc.typ"]), "my-pkg", "/src");
    let result = world.analyze(&caching(&["/c"], config));
    assert!(find(&result, "my-pkg").unwrap().direct);
    assert_eq!(find(&result, "cetz").unwrap().source, "@local/my-pkg");
    assert_eq!(find(&result, "oxifmt").unwrap().source, "@preview/cetz:0.4.1");
}

#[test]
fn local_and_direct_preview_merged() {
    let mut world = World::new();
    let source = "#import \"@preview/cetz:0.4.1\"";
    world.package("/src", "my-pkg", "1.0.0", Some(source));
    world.write(
        "/c/preview/cetz/0.4.1/lib.typ",
        "#import \"@preview/oxifmt:0.2.1\"",
    );
    world.write("/doc.typ", source);

    let config = with_local(discovering(&["/doc.typ"]), "my-pkg", "/src");
    let result = world.analyze(&caching(&["/c"], config));
    assert_eq!(result.imports.iter().filter(|i| i.name == "cetz").count(), 1);
    assert!(find(&result, "cetz").unwrap().direct);
    assert!(find(&result, "oxifmt").is_some());
}

#[test]
fn cache_scans_sources_at_any_depth_and_nothing_else() {
    let mut world = World::new();
    let import = |name: &str| format!("#import \"@preview/{name}:1.0.0\"");
    world.write("/c/preview/a/1.0.0/notes.txt", &import("ignored"));
    world.write("/c/preview/a/1.0.0/src/deep/lib.typ", &import("b"));
    world.write("/c/preview/a/1.0.0/broken.typ", "#let x = (((\n#import");
    world.write("/doc.typ", &import("a"));

    let result = world.analyze(&caching(&["/c"], discovering(&["/doc.typ"])));
    assert!(find(&result, "b").is_some());
    assert!(find(&result, "ignored").is_none());
}

#[test]
fn empty_cache_package_dir() {
    let mut analysis = analyze(&caching(&["/c"], discovering(&["/doc.typ"])));
    analysis = analysis.resume(AnalyzeReply::Found(Found::File {
        id: 0,
        name: "doc.typ".to_string(),
    }));
    let text = "#import \"@preview/a:1.0.0\"".to_string();
    analysis = analysis.resume(AnalyzeReply::Source(Some(text)));
    analysis = analysis.resume(AnalyzeReply::Answer(true));
    analysis = analysis.resume(AnalyzeReply::Cached(Some(vec![])));
    assert!(matches!(analysis.request(), AnalyzeRequest::Done));
    assert_eq!(analysis.finish().unwrap().imports.len(), 1);
}

#[test]
fn large_dependency_tree() {
    let mut world = World::new();
    for i in 0..14 {
        let path = format!("/c/preview/p{i}/1.0.0/lib.typ");
        world.write(&path, &format!("#import \"@preview/p{}:1.0.0\"", i + 1));
    }
    world.write("/doc.typ", "#import \"@preview/p0:1.0.0\"");

    let result = world.analyze(&caching(&["/c"], discovering(&["/doc.typ"])));
    assert_eq!(result.imports.len(), 15);
}

#[test]
fn other_namespaces_are_not_listed() {
    let mut world = World::new();
    world.write(
        "/doc.typ",
        "#import \"@foo/bar:1.0.0\"\n#import \"@preview/a:1.0.0\"",
    );
    world.package("/mine", "mine", "1.0.0", Some("#import \"@foo/baz:1.0.0\""));
    world.write(
        "/c/preview/a/1.0.0/lib.typ",
        "#import \"@foo/deep:1.0.0\"\n#import \"@preview/b:1.0.0\"",
    );
    let config = caching(
        &["/c"],
        with_local(discovering(&["/doc.typ"]), "mine", "/mine"),
    );

    let result = world.analyze(&config);

    let names: Vec<_> = result.imports.iter().map(|i| i.name.as_str()).collect();
    assert_eq!(names, vec!["a", "mine", "b"]);
    let probes: Vec<_> = world.probes(&config).into_iter().map(|p| p.1).collect();
    assert_eq!(probes, vec!["a".to_string(), "b".to_string()]);
}

fn told(result: &AnalyzeResult) -> String {
    format!("{:?} {:?}", result.imports, result.files)
}

#[test]
fn local_package_without_manifest_is_as_if_not_configured() {
    let mut world = World::new();
    world.write("/doc.typ", "#import \"@local/broken:1.0.0\"");
    world.write("/broken/lib.typ", "#import \"@preview/unseen:1.0.0\"");
    world.package("/mine", "mine", "1.0.0", Some("#import \"@preview/a:1.0.0\""));
    let without = with_local(discovering(&["/doc.typ"]), "mine", "/mine");
    let with = with_local(
        with_local(discovering(&["/doc.typ"]), "broken", "/broken"),
        "mine",
        "/mine",
    );

    let result = world.analyze(&with);

    assert_eq!(told(&result), told(&world.analyze(&without)));
    assert!(find(&result, "broken").unwrap().direct);
    assert!(find(&result, "unseen").is_none());
    assert_eq!(result.imports.len(), 3);
}

#[test]
fn rootdir_only_says_where_paths_start() {
    let mut world = World::new();
    world.write("/dir/doc.typ", "#import \"@preview/a:1.0.0\"");
    world.package("/dir/mine", "mine", "1.0.0", Some("#import \"@preview/b:1.0.0\""));
    world.write("/dir/c/preview/a/1.0.0/lib.typ", "#import \"@preview/d:1.0.0\"");
    let relative = Config {
        rootdir: Some("/dir".to_string()),
        ..caching(&["c"], with_local(discovering(&["doc.typ"]), "mine", "mine"))
    };
    let absolute = caching(
        &["/dir/c"],
        with_local(discovering(&["/dir/doc.typ"]), "mine", "/dir/mine"),
    );

    let result = world.analyze(&relative);

    assert_eq!(told(&result), told(&world.analyze(&absolute)));
    assert_eq!(result.imports.len(), 4);
}

#[test]
fn entries_name_where_they_come_from() {
    let mut world = World::new();
    world.write("/doc.typ", "#import \"@preview/a:1.0.0\"");
    world.package("/mine", "mine", "1.0.0", Some("#import \"@preview/b:1.0.0\""));
    world.write("/c/preview/b/1.0.0/lib.typ", "#import \"@preview/d:1.0.0\"");
    let config = caching(
        &["/c"],
        with_local(discovering(&["/doc.typ"]), "mine", "/mine"),
    );

    let result = world.analyze(&config);

    let sources: Vec<_> = result
        .imports
        .iter()
        .map(|i| (i.name.as_str(), i.source.as_str(), i.direct))
        .collect();
    assert_eq!(
        sources,
        vec![
            ("a", "doc.typ", true),
            ("mine", "@local/mine", false),
            ("b", "@local/mine", false),
            ("d", "@preview/b:1.0.0", false),
        ]
    );
}
