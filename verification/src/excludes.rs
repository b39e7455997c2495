//! Which files of a local package are copied.

use globset::{Glob, GlobSet, GlobSetBuilder};
use vstd::prelude::*;

use crate::config::text_views;

verus! {

/// A glob pattern.
#[verifier::external_type_specification]
#[verifier::external_body]
pub struct ExGlob(Glob);

/// Glob patterns that are being put together.
#[verifier::external_type_specification]
#[verifier::external_body]
pub struct ExGlobSetBuilder(GlobSetBuilder);

/// Glob patterns that are matched together.
#[verifier::external_type_specification]
#[verifier::external_body]
pub struct ExGlobSet(GlobSet);

/// The error of the glob library.
#[verifier::external_type_specification]
#[verifier::external_body]
pub struct ExGlobError(globset::Error);

/// The characters of the pattern that a glob was made of.
pub uninterp spec fn glob_text(glob: Glob) -> Seq<char>;

/// The patterns in a builder, in the order in which they were added.
pub uninterp spec fn builder_globs(builder: GlobSetBuilder) -> Seq<Seq<char>>;

/// The patterns in a set, in the order in which they were added.
pub uninterp spec fn set_globs(set: GlobSet) -> Seq<Seq<char>>;

/// Whether a text is a glob pattern.
pub uninterp spec fn glob_accepts(pattern: Seq<char>) -> bool;

/// Whether a path matches a glob pattern.
pub uninterp spec fn glob_matches(pattern: Seq<char>, path: Seq<char>) -> bool;

/// Whether a pattern or path means the same on all platforms. A backslash
/// escapes on some, and separates the parts of a path on others.
pub open spec fn portable(text: Seq<char>) -> bool {
    !text.contains('\\')
}

/// Whether no character of a pattern has a meaning of its own.
pub open spec fn plain(text: Seq<char>) -> bool {
    forall|i: int|
        0 <= i < text.len() ==> !("?*[{}\\"@.contains(#[trigger] text[i]))
}

/// Whether a pattern is a name, such as `lib.typ` or `docs/manual.typ`.
pub open spec fn is_name(pattern: Seq<char>) -> bool {
    pattern.len() > 0 && plain(pattern)
}

/// Whether a pattern is for all that is in a directory, such as `docs/**`.
pub open spec fn is_tree(pattern: Seq<char>) -> bool {
    let n = pattern.len() as int;
    n > 3 && plain(pattern.take(n - 3)) && pattern.skip(n - 3) == "/**"@
}

/// Whether a pattern is for all that starts with something, such as `draft*`.
pub open spec fn is_start(pattern: Seq<char>) -> bool {
    let n = pattern.len() as int;
    n > 1 && plain(pattern.take(n - 1)) && pattern[n - 1] == '*'
}

/// Whether a pattern is for all that ends with something, such as `*.bak`.
pub open spec fn is_end(pattern: Seq<char>) -> bool {
    pattern.len() > 1 && pattern[0] == '*' && plain(pattern.skip(1)) && pattern.skip(1) != "/"@
}

/// Whether a pattern is for a name in any directory, such as `**/notes`.
pub open spec fn is_name_anywhere(pattern: Seq<char>) -> bool {
    pattern.len() > 3 && pattern.take(3) == "**/"@ && plain(pattern.skip(3))
}

/// Whether a pattern is for all that ends with something, in any directory, such
/// as `**/*.bak`.
pub open spec fn is_end_anywhere(pattern: Seq<char>) -> bool {
    pattern.len() > 4 && pattern.take(4) == "**/*"@ && plain(pattern.skip(4)) && pattern.skip(4)
        != "/"@
}

/// Whether a pattern has one of the forms that are matched without a regular
/// expression.
pub open spec fn simple(pattern: Seq<char>) -> bool {
    ||| is_name(pattern)
    ||| is_tree(pattern)
    ||| is_start(pattern)
    ||| is_end(pattern)
    ||| is_name_anywhere(pattern)
    ||| is_end_anywhere(pattern)
}

/// Whether a path is a name, or that name in some directory.
pub open spec fn is_called(path: Seq<char>, name: Seq<char>) -> bool {
    path == name || ("/"@ + name).is_suffix_of(path)
}

/// Whether a path ends as an ending says. A path that is called `..` does not count as
/// ending with a dot.
pub open spec fn ends_as(path: Seq<char>, end: Seq<char>) -> bool {
    end.is_suffix_of(path) && !(end == "."@ && is_called(path, ".."@))
}

/// Whether a path matches a simple pattern. No path matches `**/..`.
pub open spec fn simple_match(pattern: Seq<char>, path: Seq<char>) -> bool {
    let n = pattern.len() as int;
    if is_name(pattern) {
        path == pattern
    } else if is_tree(pattern) {
        pattern.take(n - 2).is_prefix_of(path)
    } else if is_start(pattern) {
        pattern.take(n - 1).is_prefix_of(path)
    } else if is_end(pattern) {
        ends_as(path, pattern.skip(1))
    } else if is_name_anywhere(pattern) {
        pattern.skip(3) != ".."@ && is_called(path, pattern.skip(3))
    } else {
        ends_as(path, pattern.skip(4))
    }
}

/// Whether a text without a backslash is a glob pattern.
pub open spec fn accepted(pattern: Seq<char>) -> bool {
    simple(pattern) || glob_accepts(pattern)
}

/// Whether a path matches a glob pattern, both without a backslash.
pub open spec fn matched(pattern: Seq<char>, path: Seq<char>) -> bool {
    if simple(pattern) {
        simple_match(pattern, path)
    } else {
        glob_matches(pattern, path)
    }
}

/// Whether all of some patterns are simple.
pub open spec fn all_simple(patterns: Seq<Seq<char>>) -> bool {
    forall|i: int| 0 <= i < patterns.len() ==> simple(#[trigger] patterns[i])
}

/// How long those of some patterns are that need a regular expression: the number of
/// their characters, and one more for each.
pub open spec fn weight(patterns: Seq<Seq<char>>) -> nat
    decreases patterns.len(),
{
    if patterns.len() == 0 {
        0
    } else if simple(patterns.last()) {
        weight(patterns.drop_last())
    } else {
        weight(patterns.drop_last()) + patterns.last().len() + 1
    }
}

/// Whether some patterns need no large regular expression: those that need one have no
/// more than 1000 characters in all, with one more for each of them, and none of them
/// opens more than 50 groups.
pub open spec fn light(patterns: Seq<Seq<char>>) -> bool {
    &&& weight(patterns) <= 1000
    &&& forall|i: int|
        0 <= i < patterns.len() ==> simple(#[trigger] patterns[i]) || patterns[i].filter(
            |c: char| c == '{',
        ).len() <= 50
}

/// Parses a pattern with `Glob::new`.
///
/// Taken on trust: the glob remembers its pattern; a simple pattern is accepted, since
/// only brackets, braces and backslashes can be wrong; whether another pattern without
/// a backslash is accepted depends on the pattern alone, and is called `glob_accepts`
/// of it. On a pattern with a backslash the platform decides.
#[verifier::external_body]
fn new_glob(pattern: &str) -> (glob: Result<Glob, globset::Error>)
    ensures
        portable(pattern@) ==> glob is Ok == (simple(pattern@) || glob_accepts(pattern@)),
        glob matches Ok(g) ==> glob_text(g) == pattern@,
{
    Glob::new(pattern)
}

/// Makes an empty builder with `GlobSetBuilder::new`.
///
/// Taken on trust: it holds no pattern.
#[verifier::external_body]
fn new_builder() -> (builder: GlobSetBuilder)
    ensures
        builder_globs(builder) == Seq::<Seq<char>>::empty(),
{
    GlobSetBuilder::new()
}

/// Adds a glob with `GlobSetBuilder::add`.
///
/// Taken on trust: the pattern of the glob joins the others at the end.
#[verifier::external_body]
fn add_glob(builder: &mut GlobSetBuilder, glob: Glob)
    ensures
        builder_globs(*final(builder)) == builder_globs(*old(builder)).push(glob_text(glob)),
{
    builder.add(glob);
}

/// Builds a set with `GlobSetBuilder::build`.
///
/// Taken on trust, of globs that `Glob::new` made: a set that is built holds the
/// patterns of the builder, and it is built where the patterns are light. Simple
/// patterns are matched as literals, base names, extensions, prefixes or suffixes, and
/// cannot fail. The others are written as regular expressions, which can fail in two
/// ways only. Their automaton may not take more than 10 MiB; it has a few states of at
/// most 32 bytes for each character, so that a thousand characters take less than a
/// tenth of that. And they may not be nested more than 250 deep, where a group counts
/// three times. Whether a set of other patterns is built is not said, since it depends
/// on the size of a state on the machine.
#[verifier::external_body]
fn build_set(builder: &GlobSetBuilder) -> (set: Result<GlobSet, globset::Error>)
    ensures
        set matches Ok(s) ==> set_globs(s) == builder_globs(*builder),
        light(builder_globs(*builder)) ==> set is Ok,
{
    builder.build()
}

/// Matches a path with `GlobSet::is_match`.
///
/// Taken on trust, of globs that `Glob::new` made: a set matches where one of its
/// patterns does. A simple pattern is held to the whole path, to how it starts or ends,
/// or to its base name or extension, as `simple_match` says; a base name `..` counts as
/// none, and has no extension. Whether another pattern matches a path, both without a
/// backslash, depends on the two alone, and is called `glob_matches` of them.
#[verifier::external_body]
fn set_matches(set: &GlobSet, path: &str) -> (yes: bool)
    ensures
        forall|i: int|
            0 <= i < set_globs(*set).len() && portable(#[trigger] set_globs(*set)[i]) && portable(
                path@,
            ) && (if simple(set_globs(*set)[i]) {
                simple_match(set_globs(*set)[i], path@)
            } else {
                glob_matches(set_globs(*set)[i], path@)
            }) ==> yes,
        yes && portable(path@) ==> exists|i: int|
            0 <= i < set_globs(*set).len() && (portable(#[trigger] set_globs(*set)[i]) ==> (
            if simple(set_globs(*set)[i]) {
                simple_match(set_globs(*set)[i], path@)
            } else {
                glob_matches(set_globs(*set)[i], path@)
            })),
{
    set.is_match(path)
}

/// The patterns that are always excluded: version control, editor settings and
/// backup files.
pub open spec fn default_patterns() -> Seq<Seq<char>> {
    seq![
        ".git"@,
        ".git/**"@,
        ".github"@,
        ".github/**"@,
        ".gitignore"@,
        ".gitattributes"@,
        ".vscode"@,
        ".vscode/**"@,
        ".idea"@,
        ".idea/**"@,
        "*.bak"@,
        "*.swp"@,
        "*~"@,
    ]
}

/// Whether `globs` are the texts of `patterns` that are glob patterns. Of a
/// text with a backslash either may hold.
pub open spec fn selection(patterns: Seq<Seq<char>>, globs: Seq<Seq<char>>) -> bool
    decreases patterns.len(),
{
    if patterns.len() == 0 {
        globs.len() == 0
    } else {
        let last = patterns.last();
        let rest = patterns.drop_last();
        ||| {
            &&& portable(last) ==> accepted(last)
            &&& globs.len() > 0
            &&& globs.last() == last
            &&& selection(rest, globs.drop_last())
        }
        ||| {
            &&& portable(last) ==> !accepted(last)
            &&& selection(rest, globs)
        }
    }
}

/// The files of a package that are not copied.
#[derive(Debug)]
pub struct ExcludeSet {
    set: Option<GlobSet>,
}

/// What stands at a path.
#[derive(Clone, Copy, Debug, PartialEq, Eq, Structural)]
pub enum EntryKind {
    Directory,
    File,
    Other,
}

/// What is done with a path of a package that is copied.
#[derive(Clone, Copy, Debug, PartialEq, Eq, Structural)]
pub enum CopyAction {
    Skip,
    MakeDirectory,
    CopyFile,
}

/// The patterns that are always excluded.
pub fn default_excludes() -> (patterns: Vec<String>)
    ensures
        text_views(patterns@) == default_patterns(),
{
    let mut patterns: Vec<String> = Vec::new();
    patterns.push(".git".to_owned());
    patterns.push(".git/**".to_owned());
    patterns.push(".github".to_owned());
    patterns.push(".github/**".to_owned());
    patterns.push(".gitignore".to_owned());
    patterns.push(".gitattributes".to_owned());
    patterns.push(".vscode".to_owned());
    patterns.push(".vscode/**".to_owned());
    patterns.push(".idea".to_owned());
    patterns.push(".idea/**".to_owned());
    patterns.push("*.bak".to_owned());
    patterns.push("*.swp".to_owned());
    patterns.push("*~".to_owned());
    assert(text_views(patterns@) =~= default_patterns());
    patterns
}

fn add_patterns(builder: &mut GlobSetBuilder, patterns: &Vec<String>, Ghost(before): Ghost<Seq<Seq<char>>>)
    requires
        selection(before, builder_globs(*old(builder))),
    ensures
        selection(before + text_views(patterns@), builder_globs(*final(builder))),
        all_simple(text_views(patterns@)) ==> builder_globs(*final(builder)) == builder_globs(
            *old(builder),
        ) + text_views(patterns@),
{
    let ghost views = text_views(patterns@);
    let ghost start = builder_globs(*builder);
    assert(before + views.take(0) =~= before);
    assert(start + views.take(0) =~= start);
    for i in 0..patterns.len()
        invariant
            views == text_views(patterns@),
            selection(before + views.take(i as int), builder_globs(*builder)),
            all_simple(views) ==> builder_globs(*builder) == start + views.take(i as int),
    {
        let ghost globs = builder_globs(*builder);
        proof {
            assert((before + views.take(i + 1)).drop_last() =~= before + views.take(i as int));
            assert((before + views.take(i + 1)).last() == patterns@[i as int]@);
            assert(views[i as int] == patterns@[i as int]@);
            assert(start + views.take(i + 1) =~= (start + views.take(i as int)).push(
                views[i as int],
            ));
        }
        proof {
            if simple(views[i as int]) {
                lemma_simple_is_portable(views[i as int]);
            }
        }
        if let Ok(glob) = new_glob(patterns[i].as_str()) {
            add_glob(builder, glob);
            assert(builder_globs(*builder).drop_last() =~= globs);
        }
    }
    assert(views.take(patterns.len() as int) =~= views);
}

proof fn lemma_simple_is_portable(pattern: Seq<char>)
    requires
        simple(pattern),
    ensures
        portable(pattern),
{
    let n = pattern.len() as int;
    reveal_strlit("?*[{}\\");
    reveal_strlit("/**");
    reveal_strlit("**/");
    reveal_strlit("**/*");
    assert("?*[{}\\"@[5] == '\\');
    assert forall|i: int| 0 <= i < n implies #[trigger] pattern[i] != '\\' by {
        if is_name(pattern) {
        } else if is_tree(pattern) {
            if i < n - 3 {
                assert(pattern.take(n - 3)[i] == pattern[i]);
            } else {
                assert(pattern.skip(n - 3)[i - (n - 3)] == pattern[i]);
            }
        } else if is_start(pattern) {
            if i < n - 1 {
                assert(pattern.take(n - 1)[i] == pattern[i]);
            }
        } else if is_end(pattern) {
            if i > 0 {
                assert(pattern.skip(1)[i - 1] == pattern[i]);
            }
        } else if is_name_anywhere(pattern) {
            if i < 3 {
                assert(pattern.take(3)[i] == pattern[i]);
            } else {
                assert(pattern.skip(3)[i - 3] == pattern[i]);
            }
        } else {
            if i < 4 {
                assert(pattern.take(4)[i] == pattern[i]);
            } else {
                assert(pattern.skip(4)[i - 4] == pattern[i]);
            }
        }
    }
}

proof fn lemma_light_after(first: Seq<Seq<char>>, second: Seq<Seq<char>>)
    requires
        all_simple(first),
        light(second),
    ensures
        light(first + second),
{
    lemma_weight_after(first, second);
    let all = first + second;
    assert forall|i: int| 0 <= i < all.len() implies simple(#[trigger] all[i]) || all[i].filter(
        |c: char| c == '{',
    ).len() <= 50 by {
        if i < first.len() {
            assert(all[i] == first[i]);
        } else {
            assert(all[i] == second[i - first.len()]);
        }
    }
}

proof fn lemma_weight_after(first: Seq<Seq<char>>, second: Seq<Seq<char>>)
    requires
        all_simple(first),
    ensures
        weight(first + second) == weight(second),
    decreases first.len() + second.len(),
{
    if second.len() > 0 {
        assert((first + second).drop_last() =~= first + second.drop_last());
        lemma_weight_after(first, second.drop_last());
    } else if first.len() > 0 {
        assert(simple(first[first.len() - 1]));
        assert((first + second).drop_last() =~= first.drop_last() + second);
        lemma_weight_after(first.drop_last(), second);
    }
}

proof fn lemma_simple_is_light(patterns: Seq<Seq<char>>)
    requires
        all_simple(patterns),
    ensures
        light(patterns),
{
    lemma_weight_after(patterns, Seq::empty());
    assert(patterns + Seq::<Seq<char>>::empty() =~= patterns);
}

proof fn lemma_light_selection(patterns: Seq<Seq<char>>, globs: Seq<Seq<char>>)
    requires
        selection(patterns, globs),
        light(patterns),
    ensures
        light(globs),
{
    lemma_weight_selection(patterns, globs);
    law_every_pattern_counts(patterns, globs);
    assert forall|i: int| 0 <= i < globs.len() implies simple(#[trigger] globs[i])
        || globs[i].filter(|c: char| c == '{').len() <= 50 by {
        assert(globs.contains(globs[i]));
        let k = choose|k: int| 0 <= k < patterns.len() && patterns[k] == globs[i];
        assert(simple(patterns[k]) || patterns[k].filter(|c: char| c == '{').len() <= 50);
    }
}

proof fn lemma_weight_selection(patterns: Seq<Seq<char>>, globs: Seq<Seq<char>>)
    requires
        selection(patterns, globs),
    ensures
        weight(globs) <= weight(patterns),
    decreases patterns.len(),
{
    if patterns.len() > 0 {
        let rest = patterns.drop_last();
        if globs.len() > 0 && globs.last() == patterns.last() && selection(
            rest,
            globs.drop_last(),
        ) {
            lemma_weight_selection(rest, globs.drop_last());
        } else {
            lemma_weight_selection(rest, globs);
        }
    }
}

proof fn lemma_defaults_are_simple()
    ensures
        all_simple(default_patterns()),
{
    reveal_strlit("?*[{}\\");
    reveal_strlit("/**");
    reveal_strlit("/");
    reveal_strlit(".git");
    reveal_strlit(".git/**");
    reveal_strlit(".github");
    reveal_strlit(".github/**");
    reveal_strlit(".gitignore");
    reveal_strlit(".gitattributes");
    reveal_strlit(".vscode");
    reveal_strlit(".vscode/**");
    reveal_strlit(".idea");
    reveal_strlit(".idea/**");
    reveal_strlit("*.bak");
    reveal_strlit("*.swp");
    reveal_strlit("*~");
    assert(".git/**"@.skip(4) =~= "/**"@);
    assert(".github/**"@.skip(7) =~= "/**"@);
    assert(".vscode/**"@.skip(7) =~= "/**"@);
    assert(".idea/**"@.skip(5) =~= "/**"@);
    assert("*.bak"@.skip(1).len() == 4);
    assert("*.swp"@.skip(1).len() == 4);
    assert("*~"@.skip(1)[0] == '~');
}

impl ExcludeSet {
    /// The patterns of the set, where it could be built.
    pub closed spec fn globs(&self) -> Option<Seq<Seq<char>>> {
        match self.set {
            Some(set) => Some(set_globs(set)),
            None => None,
        }
    }

    /// Puts the default patterns and those of a manifest together. Texts that
    /// are no patterns are left out. There is a set where the patterns of the manifest
    /// are light, and where they are simple they are all in it. Where they are not
    /// light, there may be no set.
    pub fn new(manifest_excludes: &Vec<String>) -> (excludes: ExcludeSet)
        ensures
            excludes.globs() matches Some(globs) ==> selection(
                default_patterns() + text_views(manifest_excludes@),
                globs,
            ),
            light(text_views(manifest_excludes@)) ==> excludes.globs() is Some,
            all_simple(text_views(manifest_excludes@)) ==> excludes.globs() == Some(
                default_patterns() + text_views(manifest_excludes@),
            ),
    {
        let mut builder = new_builder();
        let defaults = default_excludes();
        proof {
            lemma_defaults_are_simple();
        }
        add_patterns(&mut builder, &defaults, Ghost(Seq::empty()));
        assert(Seq::<Seq<char>>::empty() + default_patterns() =~= default_patterns());
        add_patterns(&mut builder, manifest_excludes, Ghost(default_patterns()));
        proof {
            let patterns = text_views(manifest_excludes@);
            if all_simple(patterns) {
                lemma_simple_is_light(patterns);
            }
            if light(patterns) {
                lemma_light_after(default_patterns(), patterns);
                lemma_light_selection(default_patterns() + patterns, builder_globs(builder));
            }
        }
        ExcludeSet::built(build_set(&builder))
    }

    /// Takes a set, or excludes nothing where none could be built.
    pub fn built(set: Result<GlobSet, globset::Error>) -> (excludes: ExcludeSet)
        ensures
            excludes.globs() == match set {
                Ok(s) => Some(set_globs(s)),
                Err(_) => None,
            },
    {
        match set {
            Ok(s) => ExcludeSet { set: Some(s) },
            Err(_) => ExcludeSet { set: None },
        }
    }

    /// Whether it may be said of a path that it is excluded, or that it is not:
    /// it is where one of the patterns matches. On a path or a pattern with a
    /// backslash either may be said.
    pub open spec fn judges(&self, path: Seq<char>, excluded: bool) -> bool {
        match self.globs() {
            Some(globs) => {
                &&& forall|i: int|
                    0 <= i < globs.len() && portable(#[trigger] globs[i]) && portable(path)
                        && matched(globs[i], path) ==> excluded
                &&& excluded && portable(path) ==> exists|i: int|
                    0 <= i < globs.len() && (portable(#[trigger] globs[i]) ==> matched(
                        globs[i],
                        path,
                    ))
            },
            None => !excluded,
        }
    }

    /// Whether a path, relative to the package, is excluded.
    pub fn is_match(&self, path: &str) -> (yes: bool)
        ensures
            self.judges(path@, yes),
    {
        match &self.set {
            Some(set) => set_matches(set, path),
            None => false,
        }
    }

    /// Decides what is done with a path, relative to the package, when the
    /// package is copied.
    pub fn action(&self, path: &str, kind: EntryKind) -> (action: CopyAction)
        ensures
            exists|excluded: bool| #[trigger]
                self.judges(path@, excluded) && action == action_for(excluded, kind),
    {
        let excluded = self.is_match(path);
        assert(self.judges(path@, excluded));
        copy_action(excluded, kind)
    }
}

/// What is done with a path when a package is copied: an excluded path is
/// skipped, a directory is made, a file is copied.
pub open spec fn action_for(excluded: bool, kind: EntryKind) -> CopyAction {
    if excluded {
        CopyAction::Skip
    } else {
        match kind {
            EntryKind::Directory => CopyAction::MakeDirectory,
            EntryKind::File => CopyAction::CopyFile,
            EntryKind::Other => CopyAction::Skip,
        }
    }
}

/// Decides what is done with a path when a package is copied.
pub fn copy_action(excluded: bool, kind: EntryKind) -> (action: CopyAction)
    ensures
        action == action_for(excluded, kind),
{
    if excluded {
        return CopyAction::Skip;
    }
    match kind {
        EntryKind::Directory => CopyAction::MakeDirectory,
        EntryKind::File => CopyAction::CopyFile,
        EntryKind::Other => CopyAction::Skip,
    }
}

/// Whether a path is always excluded: version control, editor settings and backup files.
pub open spec fn always_excluded(path: Seq<char>) -> bool {
    ||| path == ".git"@ || ".git/"@.is_prefix_of(path)
    ||| path == ".github"@ || ".github/"@.is_prefix_of(path)
    ||| path == ".gitignore"@ || path == ".gitattributes"@
    ||| path == ".vscode"@ || ".vscode/"@.is_prefix_of(path)
    ||| path == ".idea"@ || ".idea/"@.is_prefix_of(path)
    ||| ".bak"@.is_suffix_of(path) || ".swp"@.is_suffix_of(path) || "~"@.is_suffix_of(path)
}

proof fn lemma_tree(dir: Seq<char>, pattern: Seq<char>, start: Seq<char>, path: Seq<char>)
    requires
        dir.len() > 0,
        plain(dir),
        pattern == dir + "/**"@,
        start == dir + "/"@,
    ensures
        simple(pattern),
        matched(pattern, path) == start.is_prefix_of(path),
{
    let n = pattern.len() as int;
    reveal_strlit("?*[{}\\");
    reveal_strlit("/**");
    reveal_strlit("/");
    assert("?*[{}\\"@[1] == '*');
    assert(pattern[n - 1] == '*');
    assert(pattern.take(n - 3) =~= dir);
    assert(pattern.skip(n - 3) =~= "/**"@);
    assert(pattern.take(n - 2) =~= start);
}

proof fn lemma_end(pattern: Seq<char>, end: Seq<char>, path: Seq<char>)
    requires
        end.len() > 0,
        plain(end),
        end != "/"@,
        end != "."@,
        pattern == "*"@ + end,
    ensures
        simple(pattern),
        matched(pattern, path) == end.is_suffix_of(path),
{
    let n = pattern.len() as int;
    reveal_strlit("?*[{}\\");
    reveal_strlit("*");
    reveal_strlit("/**");
    assert("?*[{}\\"@[1] == '*');
    assert(pattern[0] == '*');
    assert(pattern.skip(1) =~= end);
    if is_tree(pattern) {
        assert(pattern.take(n - 3)[0] == '*');
    }
    if is_start(pattern) {
        assert(pattern.take(n - 1)[0] == '*');
    }
}

proof fn lemma_default_patterns(path: Seq<char>)
    ensures
        (exists|i: int|
            0 <= i < default_patterns().len() && matched(#[trigger] default_patterns()[i], path))
            <==> always_excluded(path),
{
    let d = default_patterns();
    reveal_strlit("?*[{}\\");
    reveal_strlit("/**");
    reveal_strlit("/");
    reveal_strlit("*");
    reveal_strlit(".");
    reveal_strlit("~");
    reveal_strlit(".bak");
    reveal_strlit(".swp");
    reveal_strlit(".git");
    reveal_strlit(".git/");
    reveal_strlit(".github");
    reveal_strlit(".github/");
    reveal_strlit(".vscode");
    reveal_strlit(".vscode/");
    reveal_strlit(".idea");
    reveal_strlit(".idea/");
    reveal_strlit(".gitignore");
    reveal_strlit(".gitattributes");
    reveal_strlit(".git/**");
    reveal_strlit(".github/**");
    reveal_strlit(".vscode/**");
    reveal_strlit(".idea/**");
    reveal_strlit("*.bak");
    reveal_strlit("*.swp");
    reveal_strlit("*~");
    assert(".git/**"@ =~= ".git"@ + "/**"@ && ".git/"@ =~= ".git"@ + "/"@);
    assert(".github/**"@ =~= ".github"@ + "/**"@ && ".github/"@ =~= ".github"@ + "/"@);
    assert(".vscode/**"@ =~= ".vscode"@ + "/**"@ && ".vscode/"@ =~= ".vscode"@ + "/"@);
    assert(".idea/**"@ =~= ".idea"@ + "/**"@ && ".idea/"@ =~= ".idea"@ + "/"@);
    assert("*.bak"@ =~= "*"@ + ".bak"@);
    assert("*.swp"@ =~= "*"@ + ".swp"@);
    assert("*~"@ =~= "*"@ + "~"@);
    assert("~"@[0] == '~');
    lemma_tree(".git"@, ".git/**"@, ".git/"@, path);
    lemma_tree(".github"@, ".github/**"@, ".github/"@, path);
    lemma_tree(".vscode"@, ".vscode/**"@, ".vscode/"@, path);
    lemma_tree(".idea"@, ".idea/**"@, ".idea/"@, path);
    lemma_end("*.bak"@, ".bak"@, path);
    lemma_end("*.swp"@, ".swp"@, path);
    lemma_end("*~"@, "~"@, path);
    assert(d[0] == ".git"@ && d[1] == ".git/**"@ && d[2] == ".github"@ && d[3] == ".github/**"@);
    assert(d[4] == ".gitignore"@ && d[5] == ".gitattributes"@ && d[6] == ".vscode"@);
    assert(d[7] == ".vscode/**"@ && d[8] == ".idea"@ && d[9] == ".idea/**"@);
    assert(d[10] == "*.bak"@ && d[11] == "*.swp"@ && d[12] == "*~"@);
}

/// Version control, editor settings and backup files are excluded whatever a manifest
/// says, and where it says nothing, nothing else is.
pub proof fn law_defaults_are_excluded(
    excludes: ExcludeSet,
    manifest: Seq<Seq<char>>,
    path: Seq<char>,
    excluded: bool,
)
    requires
        excludes.globs() is Some,
        selection(default_patterns() + manifest, excludes.globs()->0),
        portable(path),
        excludes.judges(path, excluded),
    ensures
        always_excluded(path) ==> excluded,
        manifest.len() == 0 ==> (excluded <==> always_excluded(path)),
{
    let patterns = default_patterns() + manifest;
    let globs = excludes.globs()->0;
    lemma_default_patterns(path);
    lemma_defaults_are_simple();
    law_every_pattern_counts(patterns, globs);
    if always_excluded(path) {
        let i = choose|i: int|
            0 <= i < default_patterns().len() && matched(#[trigger] default_patterns()[i], path);
        let pattern = default_patterns()[i];
        lemma_simple_is_portable(pattern);
        assert(patterns[i] == pattern);
        assert(globs.contains(pattern));
        let k = choose|k: int| 0 <= k < globs.len() && globs[k] == pattern;
        assert(portable(globs[k]) && matched(globs[k], path));
    }
    if manifest.len() == 0 && excluded {
        let k = choose|k: int|
            0 <= k < globs.len() && (portable(#[trigger] globs[k]) ==> matched(globs[k], path));
        assert(globs.contains(globs[k]));
        let i = choose|i: int| 0 <= i < patterns.len() && patterns[i] == globs[k];
        assert(default_patterns()[i] == globs[k]);
        lemma_simple_is_portable(globs[k]);
        assert(matched(default_patterns()[i], path));
    }
}

/// Whether a text without a backslash is a pattern, and a path matches it.
pub open spec fn applies(text: Seq<char>, path: Seq<char>) -> bool {
    if simple(text) {
        simple_match(text, path)
    } else {
        glob_accepts(text) && glob_matches(text, path)
    }
}

/// A path is excluded exactly if it always is, or if one of the patterns of the manifest
/// applies to it, be it the first or the last. This is said of paths and patterns without a
/// backslash.
pub proof fn law_path_is_excluded_by_a_pattern(
    excludes: ExcludeSet,
    manifest: Seq<Seq<char>>,
    path: Seq<char>,
    excluded: bool,
)
    requires
        excludes.globs() is Some,
        selection(default_patterns() + manifest, excludes.globs()->0),
        portable(path),
        forall|i: int| 0 <= i < manifest.len() ==> portable(#[trigger] manifest[i]),
        excludes.judges(path, excluded),
    ensures
        excluded <==> always_excluded(path) || exists|i: int|
            0 <= i < manifest.len() && applies(#[trigger] manifest[i], path),
{
    let defaults = default_patterns();
    let patterns = defaults + manifest;
    let globs = excludes.globs()->0;
    law_defaults_are_excluded(excludes, manifest, path, excluded);
    lemma_default_patterns(path);
    law_every_pattern_counts(patterns, globs);
    if exists|i: int| 0 <= i < manifest.len() && applies(#[trigger] manifest[i], path) {
        let i = choose|i: int| 0 <= i < manifest.len() && applies(#[trigger] manifest[i], path);
        let pattern = manifest[i];
        assert(patterns[defaults.len() + i] == pattern);
        assert(accepted(pattern) && matched(pattern, path));
        assert(globs.contains(pattern));
        let k = choose|k: int| 0 <= k < globs.len() && globs[k] == pattern;
        assert(portable(globs[k]) && matched(globs[k], path));
    }
    if excluded {
        let k = choose|k: int|
            0 <= k < globs.len() && (portable(#[trigger] globs[k]) ==> matched(globs[k], path));
        let pattern = globs[k];
        assert(globs.contains(pattern));
        let i = choose|i: int| 0 <= i < patterns.len() && patterns[i] == pattern;
        if i < defaults.len() {
            lemma_defaults_are_simple();
            assert(defaults[i] == pattern);
            lemma_simple_is_portable(pattern);
            assert(matched(defaults[i], path));
        } else {
            assert(manifest[i - defaults.len()] == pattern);
            assert(portable(pattern));
            assert(accepted(pattern));
            assert(applies(manifest[i - defaults.len()], path));
        }
    }
}

/// Where there is no set, no path is excluded.
pub proof fn law_no_set_excludes_nothing(excludes: ExcludeSet, path: Seq<char>, excluded: bool)
    requires
        excludes.globs() is None,
        excludes.judges(path, excluded),
    ensures
        !excluded,
{
}

/// What is excluded is skipped. Of the rest, directories are made, files are copied, and
/// anything else is skipped.
pub proof fn law_copy_actions(kind: EntryKind)
    ensures
        action_for(true, kind) is Skip,
        action_for(false, EntryKind::Directory) is MakeDirectory,
        action_for(false, EntryKind::File) is CopyFile,
        action_for(false, EntryKind::Other) is Skip,
{
}

/// Every pattern counts, those that are always excluded and those of a manifest
/// alike, and nothing else does: where no pattern has a backslash, the globs of a
/// set are exactly the texts that are glob patterns.
pub proof fn law_every_pattern_counts(patterns: Seq<Seq<char>>, globs: Seq<Seq<char>>)
    requires
        selection(patterns, globs),
    ensures
        forall|text: Seq<char>|
            portable(text) ==> (#[trigger] globs.contains(text) <==> patterns.contains(text)
                && accepted(text)),
        forall|text: Seq<char>| #[trigger] globs.contains(text) ==> patterns.contains(text),
    decreases patterns.len(),
{
    if patterns.len() > 0 {
        let last = patterns.last();
        let rest = patterns.drop_last();
        let taken = globs.len() > 0 && globs.last() == last && (portable(last) ==> accepted(
            last,
        )) && selection(rest, globs.drop_last());
        let others = if taken {
            globs.drop_last()
        } else {
            globs
        };
        law_every_pattern_counts(rest, others);
        assert forall|text: Seq<char>| #[trigger]
            globs.contains(text) implies patterns.contains(text) by {
            let i = choose|i: int| 0 <= i < globs.len() && globs[i] == text;
            if taken && i == globs.len() - 1 {
                assert(patterns[patterns.len() - 1] == text);
            } else {
                assert(others[i] == text);
                assert(others.contains(text));
                let k = choose|k: int| 0 <= k < rest.len() && rest[k] == text;
                assert(patterns[k] == text);
            }
        }
        assert forall|text: Seq<char>| portable(text) implies (#[trigger] globs.contains(text)
            <==> patterns.contains(text) && accepted(text)) by {
            if globs.contains(text) {
                let i = choose|i: int| 0 <= i < globs.len() && globs[i] == text;
                if !(taken && i == globs.len() - 1) {
                    assert(others[i] == text);
                    assert(others.contains(text));
                }
            }
            if patterns.contains(text) && accepted(text) {
                let k = choose|k: int| 0 <= k < patterns.len() && patterns[k] == text;
                if k < rest.len() {
                    assert(rest[k] == text);
                    assert(others.contains(text));
                    let i = choose|i: int| 0 <= i < others.len() && others[i] == text;
                    assert(globs[i] == text);
                } else {
                    assert(taken);
                    assert(globs[globs.len() - 1] == text);
                }
            }
        }
    }
}

} // verus!
