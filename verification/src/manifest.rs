//! Package manifests.

use vstd::prelude::*;

use crate::config::text_views;
use crate::package::PackageVersion;

verus! {

/// What a package manifest, `typst.toml`, says of its package.
#[derive(Debug)]
pub struct Manifest {
    pub name: String,
    pub version: PackageVersion,
    /// Patterns for files that are not part of the package.
    pub exclude: Vec<String>,
}

/// What a [`Manifest`] says.
pub struct ManifestView {
    pub name: Seq<char>,
    pub version: PackageVersion,
    pub exclude: Seq<Seq<char>>,
}

impl View for Manifest {
    type V = ManifestView;

    open spec fn view(&self) -> ManifestView {
        ManifestView {
            name: self.name@,
            version: self.version,
            exclude: text_views(self.exclude@),
        }
    }
}

/// What a text says as a package manifest, where it is one.
pub uninterp spec fn parsed_manifest(text: Seq<char>) -> Option<ManifestView>;

/// Parses a package manifest with `toml::from_str` and
/// `typst_syntax::package::PackageManifest`.
///
/// Taken on trust: whether the text is a manifest, and the name, version and
/// exclude patterns in it, depend on the text alone, and are called
/// `parsed_manifest` of the text.
#[verifier::external_body]
fn read_manifest(text: &str) -> (manifest: Result<Manifest, toml::de::Error>)
    ensures
        manifest is Ok == parsed_manifest(text@) is Some,
        manifest matches Ok(m) ==> parsed_manifest(text@) == Some(m@),
{
    let package = toml::from_str::<typst_syntax::package::PackageManifest>(text)?.package;
    let v = package.version;
    Ok(Manifest {
        name: package.name.to_string(),
        version: PackageVersion { major: v.major, minor: v.minor, patch: v.patch },
        exclude: package.exclude.iter().map(|pattern| pattern.to_string()).collect(),
    })
}

impl Manifest {
    /// Parses a package manifest.
    pub fn parse(text: &str) -> (manifest: Result<Manifest, toml::de::Error>)
        ensures
            manifest is Ok == parsed_manifest(text@) is Some,
            manifest matches Ok(m) ==> parsed_manifest(text@) == Some(m@),
    {
        read_manifest(text)
    }
}

} // verus!
