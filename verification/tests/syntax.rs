//! Imports in Typst sources.

use typst_gather::syntax::{collect_node, imports_in, ImportSource};
use typst_gather::{collect_imports, find_imports, try_extract_spec, PackageSpec, SourceFile};

fn parse_imports(code: &str) -> Vec<PackageSpec> {
    let mut imports = Vec::new();
    collect_imports(&typst_syntax::parse(code), &mut imports);
    imports
}

fn file(name: &str, text: &str) -> SourceFile {
    SourceFile {
        name: name.to_string(),
        text: Some(text.to_string()),
    }
}

#[test]
fn simple_import() {
    let imports = parse_imports(r#"#import "@preview/cetz:0.4.1""#);
    assert_eq!(imports.len(), 1);
    assert_eq!(imports[0].namespace, "preview");
    assert_eq!(imports[0].name, "cetz");
    assert_eq!(imports[0].version.to_string(), "0.4.1");
}

#[test]
fn import_with_items() {
    let imports = parse_imports(r#"#import "@preview/cetz:0.4.1": canvas, draw"#);
    assert_eq!(imports.len(), 1);
    assert_eq!(imports[0].name, "cetz");
}

#[test]
fn multiple_imports() {
    let code = r#"
#import "@preview/cetz:0.4.1"
#import "@preview/fletcher:0.5.3"
"#;
    let imports = parse_imports(code);
    assert_eq!(imports.len(), 2);
}

#[test]
fn include_statement() {
    let imports = parse_imports(r#"#include "@preview/template:1.0.0""#);
    assert_eq!(imports.len(), 1);
    assert_eq!(imports[0].name, "template");
}

#[test]
fn local_import_ignored_in_extract() {
    // Local imports are valid but won't be recursively fetched
    let imports = parse_imports(r#"#import "@local/my-pkg:1.0.0""#);
    assert_eq!(imports.len(), 1);
    assert_eq!(imports[0].namespace, "local");
}

#[test]
fn relative_import_ignored() {
    let imports = parse_imports(r#"#import "utils.typ""#);
    assert_eq!(imports.len(), 0);
}

#[test]
fn no_imports() {
    let imports = parse_imports(r#"= Hello World"#);
    assert_eq!(imports.len(), 0);
}

#[test]
fn nested_in_function() {
    let code = r#"
#let setup() = {
  import "@preview/cetz:0.4.1"
}
"#;
    let imports = parse_imports(code);
    assert_eq!(imports.len(), 1);
}

#[test]
fn invalid_package_spec_ignored() {
    // Missing version
    let imports = parse_imports(r#"#import "@preview/cetz""#);
    assert_eq!(imports.len(), 0);
}

#[test]
fn complex_document() {
    let code = r#"
#import "@preview/cetz:0.4.1": canvas
#import "@preview/fletcher:0.5.3": diagram, node, edge
#import "local-file.typ": helper

= My Document

#include "@preview/template:1.0.0"

Some content here.

#let f() = {
  import "@preview/codly:1.2.0"
}
"#;
    let imports = parse_imports(code);
    assert_eq!(imports.len(), 4);

    let names: Vec<_> = imports.iter().map(|s| s.name.as_str()).collect();
    assert!(names.contains(&"cetz"));
    assert!(names.contains(&"fletcher"));
    assert!(names.contains(&"template"));
    assert!(names.contains(&"codly"));
}

#[test]
fn find_imports_in_single_file() {
    let content = r#"
#import "@preview/cetz:0.4.1": canvas
#import "@preview/fletcher:0.5.3"

= Document
"#;
    let imports = find_imports(&vec![file("main.typ", content)]);

    assert_eq!(imports.len(), 2);
    let names: Vec<_> = imports.iter().map(|s| s.name.as_str()).collect();
    assert!(names.contains(&"cetz"));
    assert!(names.contains(&"fletcher"));
}

#[test]
fn find_imports_in_nested_files() {
    let imports = find_imports(&vec![
        file("main.typ", r#"#import "@preview/cetz:0.4.1""#),
        file("intro.typ", r#"#import "@preview/fletcher:0.5.3""#),
    ]);

    assert_eq!(imports.len(), 2);
}

#[test]
fn ignore_non_typ_files() {
    let imports = find_imports(&vec![
        file("main.typ", r#"#import "@preview/cetz:0.4.1""#),
        file("notes.txt", r#"#import "@preview/ignored:1.0.0""#),
    ]);

    assert_eq!(imports.len(), 1);
    assert_eq!(imports[0].name, "cetz");
}

#[test]
fn find_includes() {
    let content = r#"#include "@preview/template:1.0.0""#;
    let imports = find_imports(&vec![file("main.typ", content)]);

    assert_eq!(imports.len(), 1);
    assert_eq!(imports[0].name, "template");
}

#[test]
fn ignore_relative_imports() {
    let content = r#"
#import "@preview/cetz:0.4.1"
#import "utils.typ"
#import "../shared/common.typ"
"#;
    let imports = find_imports(&vec![file("main.typ", content)]);

    assert_eq!(imports.len(), 1);
    assert_eq!(imports[0].name, "cetz");
}

#[test]
fn empty_directory() {
    let imports = find_imports(&vec![]);
    assert!(imports.is_empty());
}

#[test]
fn imports_come_in_the_order_of_the_text() {
    let imports = imports_in("#import \"@preview/b:1.0.0\"\n#import \"@preview/a:1.0.0\"\n");
    let names: Vec<_> = imports.iter().map(|s| s.name.as_str()).collect();
    assert_eq!(names, vec!["b", "a"]);
}

#[test]
fn a_file_that_cannot_be_read_imports_nothing() {
    let unreadable = SourceFile {
        name: "main.typ".to_string(),
        text: None,
    };
    assert!(find_imports(&vec![unreadable]).is_empty());
}

#[test]
fn only_literals_name_packages() {
    let literal = ImportSource::Literal("@preview/cetz:0.4.1".to_string());
    let spec = try_extract_spec(&literal).unwrap();
    assert_eq!(spec.to_string(), "@preview/cetz:0.4.1");
    assert!(try_extract_spec(&ImportSource::Computed).is_none());
    assert!(try_extract_spec(&ImportSource::Literal("utils.typ".to_string())).is_none());
    assert!(try_extract_spec(&ImportSource::Literal("".to_string())).is_none());
    assert!(try_extract_spec(&ImportSource::Literal("@preview/cetz:0.4".to_string())).is_none());
}

#[test]
fn computed_sources_are_passed_over() {
    let imports = parse_imports("#let name = \"@preview/cetz:0.4.1\"\n#import name\n");
    assert!(imports.is_empty());
}

#[test]
fn a_node_adds_to_what_is_there() {
    let mut imports = parse_imports(r#"#import "@preview/cetz:0.4.1""#);
    let import = Some(ImportSource::Literal("@local/mine:1.0.0".to_string()));
    collect_node(&import, &None, &mut imports);
    collect_node(&None, &None, &mut imports);
    assert_eq!(imports.len(), 2);
    assert_eq!(imports[1].namespace, "local");
}

#[test]
fn escapes_in_literals_are_resolved() {
    let imports = parse_imports("#import \"@preview/ce\\u{74}z:0.4.1\"");
    assert_eq!(imports.len(), 1);
    assert_eq!(imports[0].name, "cetz");
}
