//! Which files of a package are copied.

use typst_gather::excludes::default_excludes;
use typst_gather::{copy_action, CopyAction, EntryKind, ExcludeSet};

#[test]
fn default_excludes_match_git() {
    let excludes = ExcludeSet::new(&vec![]);

    // Should match .git and contents
    assert!(excludes.is_match(".git"));
    assert!(excludes.is_match(".git/config"));
    assert!(excludes.is_match(".git/objects/pack/foo"));

    // Should match .github
    assert!(excludes.is_match(".github"));
    assert!(excludes.is_match(".github/workflows/ci.yml"));

    // Should match editor files
    assert!(excludes.is_match(".gitignore"));
    assert!(excludes.is_match("foo.bak"));
    assert!(excludes.is_match("foo.swp"));
    assert!(excludes.is_match("foo~"));

    // Should NOT match normal files
    assert!(!excludes.is_match("lib.typ"));
    assert!(!excludes.is_match("typst.toml"));
    assert!(!excludes.is_match("src/main.typ"));
    assert!(!excludes.is_match("template/main.typ"));
}

#[test]
fn default_patterns_in_order() {
    let patterns = default_excludes();
    assert_eq!(patterns.len(), 13);
    assert_eq!(patterns[0], ".git");
    assert_eq!(patterns[12], "*~");
}

#[test]
fn manifest_patterns_are_added() {
    let excludes = ExcludeSet::new(&vec!["docs/**".to_string(), "*.png".to_string()]);
    assert!(excludes.is_match("docs/manual.typ"));
    assert!(excludes.is_match("logo.png"));
    assert!(excludes.is_match(".git"));
    assert!(!excludes.is_match("lib.typ"));
}

#[test]
fn texts_that_are_no_patterns_are_left_out() {
    let excludes = ExcludeSet::new(&vec!["[".to_string(), "*.png".to_string()]);
    assert!(excludes.is_match("logo.png"));
    assert!(!excludes.is_match("["));
    assert!(!excludes.is_match("lib.typ"));
}

#[test]
fn without_a_set_nothing_is_excluded() {
    let error = globset::Glob::new("[").unwrap_err();
    let excludes = ExcludeSet::built(Err(error));
    assert!(!excludes.is_match(".git"));
    assert!(!excludes.is_match("lib.typ"));
}

#[test]
fn what_is_done_with_a_path() {
    assert_eq!(copy_action(false, EntryKind::Directory), CopyAction::MakeDirectory);
    assert_eq!(copy_action(false, EntryKind::File), CopyAction::CopyFile);
    assert_eq!(copy_action(false, EntryKind::Other), CopyAction::Skip);
    assert_eq!(copy_action(true, EntryKind::Directory), CopyAction::Skip);
    assert_eq!(copy_action(true, EntryKind::File), CopyAction::Skip);
    assert_eq!(copy_action(true, EntryKind::Other), CopyAction::Skip);
}

#[test]
fn excluded_paths_are_skipped() {
    let excludes = ExcludeSet::new(&vec![]);
    assert_eq!(excludes.action(".git", EntryKind::Directory), CopyAction::Skip);
    assert_eq!(excludes.action("src", EntryKind::Directory), CopyAction::MakeDirectory);
    assert_eq!(excludes.action("lib.typ", EntryKind::File), CopyAction::CopyFile);
    assert_eq!(excludes.action("lib.bak", EntryKind::File), CopyAction::Skip);
}

#[test]
fn simple_patterns_are_all_there() {
    let patterns = ["a]!b,c", "docs/api/**", "*.tar.gz", "*draft"];
    let patterns: Vec<String> = patterns.iter().map(|p| p.to_string()).collect();
    let excludes = ExcludeSet::new(&patterns);
    assert!(excludes.is_match("a]!b,c"));
    assert!(excludes.is_match("docs/api/index.typ"));
    assert!(excludes.is_match("old.tar.gz"));
    assert!(excludes.is_match("first draft"));
    assert!(excludes.is_match(".git"));
    assert!(!excludes.is_match("docs/index.typ"));
}

#[test]
fn patterns_for_one_directory_and_for_any_are_there() {
    let patterns = ["docs/*", "**/notes", "**/img/logo", "**/*.pdf"];
    let patterns: Vec<String> = patterns.iter().map(|p| p.to_string()).collect();
    let excludes = ExcludeSet::new(&patterns);
    assert!(excludes.is_match("docs/manual.typ"));
    assert!(excludes.is_match("docs/api/index.typ"));
    assert!(excludes.is_match("notes"));
    assert!(excludes.is_match("a/b/notes"));
    assert!(excludes.is_match("img/logo"));
    assert!(excludes.is_match("a/img/logo"));
    assert!(excludes.is_match("paper.pdf"));
    assert!(excludes.is_match("a/paper.pdf"));
    assert!(excludes.is_match(".git"));
    assert!(!excludes.is_match("docs"));
    assert!(!excludes.is_match("my-notes"));
    assert!(!excludes.is_match("logo"));
    assert!(!excludes.is_match("lib.typ"));
}

#[test]
fn other_patterns_are_there_too() {
    let patterns = vec!["docs/*.md".to_string(), "{a,b}.typ".to_string()];
    let excludes = ExcludeSet::new(&patterns);
    assert!(excludes.is_match("docs/manual.md"));
    assert!(excludes.is_match("a.typ"));
    assert!(!excludes.is_match("docs/manual.typ"));
    assert!(!excludes.is_match("c.typ"));
}

#[test]
fn large_sets_are_built() {
    let mut patterns: Vec<String> = Vec::new();
    // The deepest groups that are promised, and many characters of four bytes.
    patterns.push(format!("{}a{}", "{b,c".repeat(50), "}".repeat(50)));
    patterns.push(format!("?{}", "\u{1f600}*".repeat(150)));
    patterns.push("**/?/".repeat(50));
    patterns.push("[!a-\u{e9}]x".to_string());
    for _ in 0..60 {
        patterns.push("?".to_string());
        patterns.push(String::new());
    }
    let weight: usize = patterns.iter().map(|p| p.chars().count() + 1).sum();
    assert!(weight <= 1000);
    let excludes = ExcludeSet::new(&patterns);
    assert!(excludes.is_match(".git"));
    assert!(excludes.is_match("z"));
    assert!(excludes.is_match(""));
    assert!(excludes.is_match("0x"));
    assert!(!excludes.is_match("bx"));
    assert!(!excludes.is_match("lib.typ"));
}

#[test]
fn forms_that_are_matched_without_a_regular_expression() {
    let matches = |pattern: &str, path: &str| {
        let excludes = ExcludeSet::new(&vec![pattern.to_string()]);
        excludes.is_match(path)
    };
    assert!(matches("docs/manual.typ", "docs/manual.typ"));
    assert!(!matches("manual.typ", "docs/manual.typ"));
    assert!(matches("docs/**", "docs/a/b"));
    assert!(matches("docs/**", "docs/"));
    assert!(!matches("docs/**", "docs"));
    assert!(!matches("docs/**", "a/docs/b"));
    assert!(matches("draft*", "draft"));
    assert!(matches("draft*", "drafts/one"));
    assert!(!matches("draft*", "a/draft"));
    assert!(matches("*.png", "a/b.png"));
    assert!(matches("*.png", ".png"));
    assert!(!matches("*.png", "b.pngx"));
    assert!(matches("*/old", "a/old"));
    assert!(!matches("*/old", "old"));
    assert!(matches("**/a/b", "a/b"));
    assert!(matches("**/a/b", "c/a/b"));
    assert!(!matches("**/a/b", "ca/b"));
    assert!(matches("**/*.tar.gz", "a/b.tar.gz"));
    assert!(matches("**/*.tar.gz", ".tar.gz"));
    assert!(!matches("**/*.tar.gz", "a/b.gz"));
}

#[test]
fn a_path_that_leads_upwards_has_no_name() {
    let matches = |pattern: &str, path: &str| {
        let excludes = ExcludeSet::new(&vec![pattern.to_string()]);
        excludes.is_match(path)
    };
    assert!(!matches("**/..", ".."));
    assert!(!matches("**/..", "a/.."));
    assert!(matches("**/a/..", "a/.."));
    assert!(!matches("*.", ".."));
    assert!(!matches("*.", "a/.."));
    assert!(!matches("**/*.", "a/.."));
    assert!(matches("*.", "a."));
    assert!(matches("*.", "a.."));
    assert!(matches("*.", "a/."));
    assert!(matches("*..", ".."));
    assert!(matches("..", ".."));
}

#[test]
fn defaults_are_excluded_whatever_a_manifest_says() {
    for patterns in [vec![], vec!["a?b".to_string()], vec!["docs/*.md".to_string()]] {
        let excludes = ExcludeSet::new(&patterns);
        assert!(excludes.is_match(".git/config"));
        assert!(excludes.is_match(".idea/workspace.xml"));
        assert!(excludes.is_match("src/lib.typ.bak"));
        assert!(!excludes.is_match(".gitmodules"));
        assert!(!excludes.is_match("lib.typ"));
    }
}
