//! Package versions and package specifications.

use vstd::prelude::*;

use crate::text::{decimal, decimal_text, same_text};

verus! {

/// The version of a package.
#[derive(Clone, Copy, Debug, PartialEq, Eq, Structural)]
pub struct PackageVersion {
    pub major: u32,
    pub minor: u32,
    pub patch: u32,
}

/// Identifies a package: `@namespace/name:version`.
#[derive(Debug)]
pub struct PackageSpec {
    pub namespace: String,
    pub name: String,
    pub version: PackageVersion,
}

impl Clone for PackageSpec {
    fn clone(&self) -> (spec: Self)
        ensures
            spec == *self,
    {
        PackageSpec {
            namespace: self.namespace.clone(),
            name: self.name.clone(),
            version: self.version,
        }
    }
}

/// What a [`PackageSpec`] says.
pub struct SpecView {
    pub namespace: Seq<char>,
    pub name: Seq<char>,
    pub version: PackageVersion,
}

impl View for PackageSpec {
    type V = SpecView;

    open spec fn view(&self) -> SpecView {
        SpecView { namespace: self.namespace@, name: self.name@, version: self.version }
    }
}

/// The text before the first `mark`, or all of the text where there is none.
pub open spec fn before(text: Seq<char>, mark: char) -> Seq<char>
    decreases text.len(),
{
    if text.len() == 0 || text[0] == mark {
        Seq::empty()
    } else {
        seq![text[0]] + before(text.skip(1), mark)
    }
}

/// The pieces between the marks of a text.
pub open spec fn split(text: Seq<char>, mark: char) -> Seq<Seq<char>>
    decreases text.len(),
{
    let first = before(text, mark);
    if first.len() >= text.len() {
        seq![first]
    } else {
        seq![first] + split(text.skip(first.len() as int + 1), mark)
    }
}

/// Whether a character is an ASCII digit.
pub open spec fn is_digit(c: char) -> bool {
    '0' <= c && c <= '9'
}

/// The number that a row of digits stands for.
pub open spec fn digits_value(digits: Seq<char>) -> nat
    decreases digits.len(),
{
    if digits.len() == 0 {
        0
    } else {
        digits_value(digits.drop_last()) * 10 + (digits.last() as u32 - '0' as u32) as nat
    }
}

/// The digits of a numeral, without the plus sign that it may start with.
pub open spec fn numeral_digits(text: Seq<char>) -> Seq<char> {
    if text.len() > 0 && text[0] == '+' {
        text.skip(1)
    } else {
        text
    }
}

/// The number that a text stands for, if it is a numeral for a `u32`.
pub open spec fn u32_of(text: Seq<char>) -> Option<u32> {
    let digits = numeral_digits(text);
    if digits.len() > 0 && (forall|i: int| 0 <= i < digits.len() ==> is_digit(#[trigger] digits[i]))
        && digits_value(digits) <= u32::MAX {
        Some(digits_value(digits) as u32)
    } else {
        None
    }
}

/// The version that a text stands for: three numbers with dots between them.
pub open spec fn version_of(text: Seq<char>) -> Option<PackageVersion> {
    let parts = split(text, '.');
    if parts.len() == 3 && u32_of(parts[0]) is Some && u32_of(parts[1]) is Some && u32_of(
        parts[2],
    ) is Some {
        Some(
            PackageVersion {
                major: u32_of(parts[0])->0,
                minor: u32_of(parts[1])->0,
                patch: u32_of(parts[2])->0,
            },
        )
    } else {
        None
    }
}

/// How a version is written.
pub open spec fn version_text(version: PackageVersion) -> Seq<char> {
    decimal(version.major as nat) + "."@ + decimal(version.minor as nat) + "."@ + decimal(
        version.patch as nat,
    )
}

/// How a package specification is written.
pub open spec fn spec_text(spec: SpecView) -> Seq<char> {
    "@"@ + spec.namespace + "/"@ + spec.name + ":"@ + version_text(spec.version)
}

/// The directory of a package, below the directory that holds all packages.
pub open spec fn spec_directory(spec: SpecView) -> Seq<char> {
    directory_text(spec.namespace, spec.name, version_text(spec.version))
}

/// The directory of a package whose version is given as a text.
pub open spec fn directory_text(
    namespace: Seq<char>,
    name: Seq<char>,
    version: Seq<char>,
) -> Seq<char> {
    namespace + "/"@ + name + "/"@ + version
}

/// Whether all characters of a text are ASCII characters.
pub open spec fn is_ascii(text: Seq<char>) -> bool {
    forall|i: int| 0 <= i < text.len() ==> #[trigger] text[i] <= '\u{7f}'
}

/// Whether an ASCII character is a letter.
pub open spec fn is_letter(c: char) -> bool {
    ('a' <= c && c <= 'z') || ('A' <= c && c <= 'Z')
}

/// Whether `typst_syntax::is_ident` accepts a text that is not all ASCII.
pub uninterp spec fn unicode_identifier(text: Seq<char>) -> bool;

/// Whether a text can be the name of a package or of a namespace: an
/// identifier, in which hyphens may stand.
pub open spec fn identifier(text: Seq<char>) -> bool {
    if is_ascii(text) {
        &&& text.len() > 0
        &&& is_letter(text[0]) || text[0] == '_'
        &&& forall|i: int|
            0 <= i < text.len() ==> is_letter(#[trigger] text[i]) || is_digit(text[i]) || text[i]
                == '_' || text[i] == '-'
    } else {
        unicode_identifier(text)
    }
}

/// The package that a text stands for: `@namespace/name:version`.
pub open spec fn spec_of(text: Seq<char>) -> Option<SpecView> {
    let namespace = before(text.skip(1), '/');
    let rest = text.skip(namespace.len() as int + 2);
    let name = before(rest, ':');
    let version = version_of(rest.skip(name.len() as int + 1));
    if text.len() > 0 && text[0] == '@' && namespace.len() + 1 < text.len() && identifier(namespace)
        && name.len() < rest.len() && identifier(name) && version is Some {
        Some(SpecView { namespace, name, version: version->0 })
    } else {
        None
    }
}

/// Reads a version with `<typst_syntax::package::PackageVersion as FromStr>::from_str`.
///
/// Taken on trust: it accepts exactly the texts made of three parts with dots
/// between them, each of which `u32::from_str` accepts (digits, after an
/// optional plus sign, for a number that fits), and returns those three numbers.
#[verifier::external_body]
fn read_version(text: &str) -> (version: Option<PackageVersion>)
    ensures
        version == version_of(text@),
{
    let version = text.parse::<typst_syntax::package::PackageVersion>().ok()?;
    Some(PackageVersion { major: version.major, minor: version.minor, patch: version.patch })
}

/// Reads a package specification with
/// `<typst_syntax::package::PackageSpec as FromStr>::from_str`.
///
/// Taken on trust: it accepts exactly the texts made of an `@`, a namespace, a
/// slash, a name, a colon and a version, where the namespace goes up to the
/// first slash, the name up to the first colon after it, both are identifiers
/// (`typst_syntax::is_ident`, which on ASCII texts is a matter of letters,
/// digits, underscores and hyphens), and the version is read as by
/// [`read_version`]; and it returns those three parts. Of which other texts are
/// identifiers nothing is claimed but that it depends on the text alone.
#[verifier::external_body]
fn read_spec(text: &str) -> (spec: Option<PackageSpec>)
    ensures
        spec is Some == spec_of(text@) is Some,
        spec matches Some(s) ==> spec_of(text@) == Some(s@),
        spec matches Some(s) ==> is_ascii(s.name@) || unicode_identifier(s.name@),
{
    let spec = text.parse::<typst_syntax::package::PackageSpec>().ok()?;
    let v = spec.version;
    let version = PackageVersion { major: v.major, minor: v.minor, patch: v.patch };
    let (namespace, name) = (spec.namespace.to_string(), spec.name.to_string());
    Some(PackageSpec { namespace, name, version })
}

impl PackageVersion {
    /// Reads a version.
    pub fn parse(text: &str) -> (version: Option<PackageVersion>)
        ensures
            version == version_of(text@),
    {
        read_version(text)
    }

    /// Writes the version.
    pub fn to_string(&self) -> (text: String)
        ensures
            text@ == version_text(*self),
    {
        let mut text = decimal_text(self.major as u64);
        text.append(".");
        text.append(decimal_text(self.minor as u64).as_str());
        text.append(".");
        text.append(decimal_text(self.patch as u64).as_str());
        text
    }
}

impl PackageSpec {
    /// Reads a package specification.
    pub fn parse(text: &str) -> (spec: Option<PackageSpec>)
        ensures
            spec is Some == spec_of(text@) is Some,
            spec matches Some(s) ==> spec_of(text@) == Some(s@),
    {
        read_spec(text)
    }

    /// Whether two specifications name the same package.
    pub fn same(&self, other: &PackageSpec) -> (same: bool)
        ensures
            same == (self@ == other@),
    {
        self.namespace == other.namespace && self.name == other.name && self.version
            == other.version
    }

    /// Whether the package lives in the given namespace.
    pub fn is_in(&self, namespace: &str) -> (yes: bool)
        ensures
            yes == (self@.namespace == namespace@),
    {
        same_text(self.namespace.as_str(), namespace)
    }

    /// Writes the specification.
    pub fn to_string(&self) -> (text: String)
        ensures
            text@ == spec_text(self@),
    {
        let mut text = "@".to_owned();
        text.append(self.namespace.as_str());
        text.append("/");
        text.append(self.name.as_str());
        text.append(":");
        text.append(self.version.to_string().as_str());
        text
    }

    /// The package's directory, below the directory that holds all packages.
    pub fn directory(&self) -> (path: String)
        ensures
            path@ == spec_directory(self@),
    {
        let version = self.version.to_string();
        package_directory(self.namespace.as_str(), self.name.as_str(), version.as_str())
    }
}

/// The directory of a package, below the directory that holds all packages, where
/// the version is given as a text.
pub fn package_directory(namespace: &str, name: &str, version: &str) -> (path: String)
    ensures
        path@ == directory_text(namespace@, name@, version@),
{
    let mut path = namespace.to_owned();
    path.append("/");
    path.append(name);
    path.append("/");
    path.append(version);
    path
}

} // verus!
