//! What is written can be read again, and different packages are written
//! differently.

use vstd::prelude::*;

use crate::package::{
    before, digits_value, directory_text, identifier, is_ascii, is_digit, is_letter,
    numeral_digits, spec_directory, spec_of, spec_text, split, u32_of, version_of, version_text,
    PackageVersion, SpecView,
};
use crate::text::{decimal, digit};

verus! {

proof fn lemma_decimal(n: nat)
    ensures
        decimal(n).len() > 0,
        forall|i: int| 0 <= i < decimal(n).len() ==> is_digit(#[trigger] decimal(n)[i]),
        digits_value(decimal(n)) == n,
    decreases n,
{
    reveal_with_fuel(digits_value, 2);
    if n < 10 {
        assert(decimal(n).drop_last() =~= Seq::empty());
    } else {
        lemma_decimal(n / 10);
        assert(decimal(n).drop_last() =~= decimal(n / 10));
        assert(decimal(n).last() == digit(n % 10));
    }
}

proof fn lemma_u32(n: u32)
    ensures
        u32_of(decimal(n as nat)) == Some(n),
        !decimal(n as nat).contains('.'),
{
    lemma_decimal(n as nat);
    let digits = decimal(n as nat);
    assert(is_digit(digits[0]));
    assert(numeral_digits(digits) == digits);
}

proof fn lemma_before(head: Seq<char>, mark: char, tail: Seq<char>)
    requires
        !head.contains(mark),
    ensures
        before(head + seq![mark] + tail, mark) == head,
    decreases head.len(),
{
    let text = head + seq![mark] + tail;
    if head.len() == 0 {
        assert(before(text, mark) =~= head);
    } else {
        let rest = head.skip(1);
        assert(text[0] == head[0]);
        assert(head.contains(head[0]));
        assert(text.skip(1) =~= rest + seq![mark] + tail);
        assert forall|i: int| 0 <= i < rest.len() implies rest[i] != mark by {
            assert(head.contains(head[i + 1]));
        }
        lemma_before(rest, mark, tail);
        assert(seq![head[0]] + rest =~= head);
    }
}

proof fn lemma_before_all(text: Seq<char>, mark: char)
    requires
        !text.contains(mark),
    ensures
        before(text, mark) == text,
    decreases text.len(),
{
    if text.len() > 0 {
        let rest = text.skip(1);
        assert(text.contains(text[0]));
        assert forall|i: int| 0 <= i < rest.len() implies rest[i] != mark by {
            assert(text.contains(text[i + 1]));
        }
        lemma_before_all(rest, mark);
        assert(seq![text[0]] + rest =~= text);
    }
}

proof fn lemma_before_has_no_mark(text: Seq<char>, mark: char)
    ensures
        !before(text, mark).contains(mark),
        before(text, mark).len() <= text.len(),
    decreases text.len(),
{
    if text.len() > 0 && text[0] != mark {
        lemma_before_has_no_mark(text.skip(1), mark);
        let rest = before(text.skip(1), mark);
        assert forall|i: int| 0 <= i < before(text, mark).len() implies before(text, mark)[i]
            != mark by {
            if i > 0 {
                assert(before(text, mark)[i] == rest[i - 1]);
                assert(rest.contains(rest[i - 1]));
            }
        }
    }
}

proof fn lemma_split(head: Seq<char>, mark: char, tail: Seq<char>)
    requires
        !head.contains(mark),
    ensures
        split(head + seq![mark] + tail, mark) == seq![head] + split(tail, mark),
{
    let text = head + seq![mark] + tail;
    lemma_before(head, mark, tail);
    assert(text.skip(head.len() as int + 1) =~= tail);
}

/// A version is read as it was written.
pub proof fn law_version_round_trip(version: PackageVersion)
    ensures
        version_of(version_text(version)) == Some(version),
{
    let major = decimal(version.major as nat);
    let minor = decimal(version.minor as nat);
    let patch = decimal(version.patch as nat);
    lemma_u32(version.major);
    lemma_u32(version.minor);
    lemma_u32(version.patch);
    let dot = '.';
    reveal_strlit(".");
    assert("."@ =~= seq![dot]);
    let tail = minor + seq![dot] + patch;
    assert(version_text(version) =~= major + seq![dot] + tail);
    lemma_split(major, dot, tail);
    lemma_split(minor, dot, patch);
    lemma_before_all(patch, dot);
    assert(split(patch, dot) =~= seq![patch]);
    assert(split(version_text(version), dot) =~= seq![major, minor, patch]);
}

/// A number is written with its digits: they stand for it, and the first is no zero but in
/// the number zero.
pub proof fn law_numbers_are_written_with_their_digits(n: nat)
    ensures
        decimal(n).len() > 0,
        forall|i: int| 0 <= i < decimal(n).len() ==> is_digit(#[trigger] decimal(n)[i]),
        digits_value(decimal(n)) == n,
        n > 0 ==> decimal(n)[0] != '0',
        n == 0 ==> decimal(n).len() == 1,
    decreases n,
{
    lemma_decimal(n);
    if n >= 10 {
        law_numbers_are_written_with_their_digits(n / 10);
        assert(decimal(n)[0] == decimal(n / 10)[0]);
    }
}

/// A version is written as its three numbers, with dots between them.
pub proof fn law_versions_have_three_parts(version: PackageVersion)
    ensures
        split(version_text(version), '.') == seq![
            decimal(version.major as nat),
            decimal(version.minor as nat),
            decimal(version.patch as nat),
        ],
{
    let major = decimal(version.major as nat);
    let minor = decimal(version.minor as nat);
    let patch = decimal(version.patch as nat);
    lemma_u32(version.major);
    lemma_u32(version.minor);
    lemma_u32(version.patch);
    let dot = '.';
    reveal_strlit(".");
    assert("."@ =~= seq![dot]);
    let tail = minor + seq![dot] + patch;
    assert(version_text(version) =~= major + seq![dot] + tail);
    lemma_split(major, dot, tail);
    lemma_split(minor, dot, patch);
    lemma_before_all(patch, dot);
    assert(split(patch, dot) =~= seq![patch]);
    assert(split(version_text(version), dot) =~= seq![major, minor, patch]);
}

/// The directory of a package is its namespace, its name and its version, each below the
/// one before.
pub proof fn law_directories_have_three_parts(spec: SpecView)
    requires
        !spec.namespace.contains('/') && !spec.name.contains('/'),
    ensures
        split(spec_directory(spec), '/') == seq![
            spec.namespace,
            spec.name,
            version_text(spec.version),
        ],
{
    let slash = '/';
    let version = version_text(spec.version);
    reveal_strlit("/");
    assert("/"@ =~= seq![slash]);
    let tail = spec.name + seq![slash] + version;
    assert(spec_directory(spec) =~= spec.namespace + seq![slash] + tail);
    lemma_split(spec.namespace, slash, tail);
    lemma_split(spec.name, slash, version);
    lemma_no_slash(spec.version);
    lemma_before_all(version, slash);
    assert(split(version, slash) =~= seq![version]);
    assert(split(spec_directory(spec), slash) =~= seq![spec.namespace, spec.name, version]);
}

proof fn lemma_no_slash(version: PackageVersion)
    ensures
        !version_text(version).contains('/'),
{
    lemma_decimal(version.major as nat);
    lemma_decimal(version.minor as nat);
    lemma_decimal(version.patch as nat);
    reveal_strlit(".");
    let major = decimal(version.major as nat);
    let minor = decimal(version.minor as nat);
    let patch = decimal(version.patch as nat);
    let text = version_text(version);
    assert forall|i: int| 0 <= i < text.len() implies text[i] != '/' by {
        let m = major.len() as int;
        let n = minor.len() as int;
        if i < m {
            assert(text[i] == major[i]);
        } else if i == m {
            assert(text[i] == '.');
        } else if i < m + 1 + n {
            assert(text[i] == minor[i - m - 1]);
        } else if i == m + 1 + n {
            assert(text[i] == '.');
        } else {
            assert(text[i] == patch[i - m - n - 2]);
        }
    }
}

/// A directory is below its namespace and its name also where the version is given as a
/// text.
pub proof fn law_directory_of_a_version_text(
    namespace: Seq<char>,
    name: Seq<char>,
    version: Seq<char>,
)
    requires
        !namespace.contains('/') && !name.contains('/'),
    ensures
        split(directory_text(namespace, name, version), '/') == seq![namespace, name] + split(
            version,
            '/',
        ),
{
    let slash = '/';
    reveal_strlit("/");
    assert("/"@ =~= seq![slash]);
    let tail = name + seq![slash] + version;
    assert(directory_text(namespace, name, version) =~= namespace + seq![slash] + tail);
    lemma_split(namespace, slash, tail);
    lemma_split(name, slash, version);
    assert(seq![namespace] + (seq![name] + split(version, slash)) =~= seq![namespace, name] + split(
        version,
        slash,
    ));
}

/// A package is written as an `@`, its namespace, a slash, its name, a colon and its
/// version.
pub proof fn law_packages_have_three_parts(spec: SpecView)
    requires
        !spec.namespace.contains('/'),
        !spec.name.contains(':'),
    ensures
        ({
            let text = spec_text(spec);
            let rest = text.skip(spec.namespace.len() as int + 2);
            &&& text[0] == '@'
            &&& before(text.skip(1), '/') == spec.namespace
            &&& before(rest, ':') == spec.name
            &&& rest.skip(spec.name.len() as int + 1) == version_text(spec.version)
        }),
{
    lemma_spec_parts(spec);
    reveal_strlit("@");
    let rest = spec_text(spec).skip(spec.namespace.len() as int + 2);
    let version = version_text(spec.version);
    lemma_before(spec.name, ':', version);
    assert(rest.skip(spec.name.len() as int + 1) =~= version);
}

/// Every package whose namespace and name are identifiers is read as it is written.
pub proof fn law_packages_are_read_as_written(spec: SpecView)
    requires
        is_ascii(spec.namespace) && identifier(spec.namespace),
        is_ascii(spec.name) && identifier(spec.name),
    ensures
        spec_of(spec_text(spec)) == Some(spec),
{
    assert forall|i: int| 0 <= i < spec.namespace.len() implies spec.namespace[i] != '/' by {
        let c = spec.namespace[i];
        assert(is_letter(c) || is_digit(c) || c == '_' || c == '-');
    }
    assert forall|i: int| 0 <= i < spec.name.len() implies spec.name[i] != ':' by {
        let c = spec.name[i];
        assert(is_letter(c) || is_digit(c) || c == '_' || c == '-');
    }
    law_packages_have_three_parts(spec);
    law_version_round_trip(spec.version);
    lemma_spec_parts(spec);
    reveal_strlit("@");
    reveal_strlit("/");
    reveal_strlit(":");
}

/// Different versions are written differently.
pub proof fn law_versions_are_told_apart(a: PackageVersion, b: PackageVersion)
    ensures
        version_text(a) == version_text(b) ==> a == b,
{
    law_version_round_trip(a);
    law_version_round_trip(b);
}

/// What was read as a package is read as the same package once it is written
/// again.
pub proof fn law_spec_round_trip(text: Seq<char>)
    requires
        spec_of(text) is Some,
    ensures
        spec_of(spec_text(spec_of(text)->0)) == spec_of(text),
{
    let spec = spec_of(text)->0;
    let version = version_text(spec.version);
    let slash = '/';
    let colon = ':';
    lemma_before_has_no_mark(text.skip(1), slash);
    lemma_before_has_no_mark(text.skip(spec.namespace.len() as int + 2), colon);
    reveal_strlit("@");
    reveal_strlit("/");
    reveal_strlit(":");
    assert("/"@ =~= seq![slash]);
    assert(":"@ =~= seq![colon]);
    let written = spec_text(spec);
    let rest = spec.name + seq![colon] + version;
    assert(written.skip(1) =~= spec.namespace + seq![slash] + rest);
    lemma_before(spec.namespace, slash, rest);
    assert(written.skip(spec.namespace.len() as int + 2) =~= rest);
    lemma_before(spec.name, colon, version);
    assert(rest.skip(spec.name.len() as int + 1) =~= version);
    law_version_round_trip(spec.version);
}

/// No two packages share a directory, if there is no slash in their names and
/// namespaces.
pub proof fn law_directories_are_told_apart(a: SpecView, b: SpecView)
    requires
        !a.namespace.contains('/') && !a.name.contains('/'),
        !b.namespace.contains('/') && !b.name.contains('/'),
        spec_directory(a) == spec_directory(b),
    ensures
        a == b,
{
    lemma_directory_parts(a);
    lemma_directory_parts(b);
    law_versions_are_told_apart(a.version, b.version);
}

proof fn lemma_directory_parts(spec: SpecView)
    requires
        !spec.namespace.contains('/') && !spec.name.contains('/'),
    ensures
        ({
            let path = spec_directory(spec);
            let rest = path.skip(spec.namespace.len() as int + 1);
            &&& before(path, '/') == spec.namespace
            &&& before(rest, '/') == spec.name
            &&& rest.skip(spec.name.len() as int + 1) == version_text(spec.version)
        }),
{
    let slash = '/';
    reveal_strlit("/");
    assert("/"@ =~= seq![slash]);
    let version = version_text(spec.version);
    let path = spec_directory(spec);
    let tail = spec.name + seq![slash] + version;
    assert(path =~= spec.namespace + seq![slash] + tail);
    lemma_before(spec.namespace, slash, tail);
    assert(path.skip(spec.namespace.len() as int + 1) =~= tail);
    lemma_before(spec.name, slash, version);
    assert(tail.skip(spec.name.len() as int + 1) =~= version);
}

/// Different packages are written differently, if there is no slash in their
/// namespaces.
pub proof fn law_specs_are_told_apart(a: SpecView, b: SpecView)
    requires
        !a.namespace.contains('/'),
        !b.namespace.contains('/'),
        spec_text(a) == spec_text(b),
    ensures
        a == b,
{
    lemma_spec_parts(a);
    lemma_spec_parts(b);
    lemma_no_colon(a.version);
    lemma_no_colon(b.version);
    lemma_tails(a.name, version_text(a.version), b.name, version_text(b.version));
    law_versions_are_told_apart(a.version, b.version);
}

proof fn lemma_spec_parts(spec: SpecView)
    requires
        !spec.namespace.contains('/'),
    ensures
        ({
            let text = spec_text(spec);
            &&& before(text.skip(1), '/') == spec.namespace
            &&& text.skip(spec.namespace.len() as int + 2) == spec.name + seq![':'] + version_text(
                spec.version,
            )
        }),
{
    let slash = '/';
    reveal_strlit("@");
    reveal_strlit("/");
    reveal_strlit(":");
    assert("/"@ =~= seq![slash]);
    let tail = spec.name + seq![':'] + version_text(spec.version);
    assert(spec_text(spec).skip(1) =~= spec.namespace + seq![slash] + tail);
    lemma_before(spec.namespace, slash, tail);
    assert(spec_text(spec).skip(spec.namespace.len() as int + 2) =~= tail);
}

proof fn lemma_no_colon(version: PackageVersion)
    ensures
        !version_text(version).contains(':'),
{
    lemma_decimal(version.major as nat);
    lemma_decimal(version.minor as nat);
    lemma_decimal(version.patch as nat);
    let major = decimal(version.major as nat);
    let minor = decimal(version.minor as nat);
    let patch = decimal(version.patch as nat);
    reveal_strlit(".");
    let text = version_text(version);
    assert forall|i: int| 0 <= i < text.len() implies text[i] != ':' by {
        let m = major.len() as int;
        let n = minor.len() as int;
        if i < m {
            assert(text[i] == major[i]);
        } else if i == m {
            assert(text[i] == '.');
        } else if i < m + 1 + n {
            assert(text[i] == minor[i - m - 1]);
        } else if i == m + 1 + n {
            assert(text[i] == '.');
        } else {
            assert(text[i] == patch[i - m - n - 2]);
        }
    }
}

proof fn lemma_tails(a: Seq<char>, x: Seq<char>, b: Seq<char>, y: Seq<char>)
    requires
        a + seq![':'] + x == b + seq![':'] + y,
        !x.contains(':'),
        !y.contains(':'),
    ensures
        a == b,
        x == y,
{
    let first = a + seq![':'] + x;
    let second = b + seq![':'] + y;
    assert(first.len() == second.len());
    if a.len() < b.len() {
        assert(second[b.len() as int] == ':');
        assert(first[b.len() as int] == x[b.len() - a.len() - 1]);
    } else if b.len() < a.len() {
        assert(first[a.len() as int] == ':');
        assert(second[a.len() as int] == y[a.len() - b.len() - 1]);
    }
    assert(first.take(a.len() as int) =~= a);
    assert(second.take(b.len() as int) =~= b);
    assert(first.skip(a.len() as int + 1) =~= x);
    assert(second.skip(b.len() as int + 1) =~= y);
}

} // verus!
