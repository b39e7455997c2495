//! The table of imports: one entry for each package and version.

use vstd::prelude::*;

use crate::package::{version_text, PackageSpec, SpecView};
use crate::syntax::spec_views;

verus! {

/// Information about a discovered import.
#[derive(Debug)]
pub struct ImportInfo {
    pub namespace: String,
    pub name: String,
    pub version: String,
    /// Where the import was found: a file, or a package.
    pub source: String,
    /// Whether it was found in a file that was to be scanned, and not in a
    /// package.
    pub direct: bool,
}

impl Clone for ImportInfo {
    fn clone(&self) -> (info: Self)
        ensures
            info == *self,
    {
        ImportInfo {
            namespace: self.namespace.clone(),
            name: self.name.clone(),
            version: self.version.clone(),
            source: self.source.clone(),
            direct: self.direct,
        }
    }
}

/// What an [`ImportInfo`] says.
pub struct InfoView {
    pub namespace: Seq<char>,
    pub name: Seq<char>,
    pub version: Seq<char>,
    pub source: Seq<char>,
    pub direct: bool,
}

impl View for ImportInfo {
    type V = InfoView;

    open spec fn view(&self) -> InfoView {
        InfoView {
            namespace: self.namespace@,
            name: self.name@,
            version: self.version@,
            source: self.source@,
            direct: self.direct,
        }
    }
}

/// What a table says.
pub open spec fn info_views(table: Seq<ImportInfo>) -> Seq<InfoView> {
    table.map_values(|info: ImportInfo| info@)
}

/// The entry for a package that is found for the first time.
pub open spec fn new_info(spec: SpecView, source: Seq<char>, direct: bool) -> InfoView {
    InfoView {
        namespace: spec.namespace,
        name: spec.name,
        version: version_text(spec.version),
        source,
        direct,
    }
}

/// Whether an entry is for a package.
pub open spec fn is_for(info: InfoView, spec: SpecView) -> bool {
    info.namespace == spec.namespace && info.name == spec.name && info.version == version_text(
        spec.version,
    )
}

/// Whether a table has an entry for a package.
pub open spec fn has_import(table: Seq<InfoView>, spec: SpecView) -> bool {
    exists|i: int| 0 <= i < table.len() && is_for(#[trigger] table[i], spec)
}

/// An entry after its package was found in a scanned file: it is direct, and
/// keeps the first such file as its source.
pub open spec fn promoted(info: InfoView, spec: SpecView, source: Seq<char>) -> InfoView {
    if is_for(info, spec) && !info.direct {
        InfoView { source, direct: true, ..info }
    } else {
        info
    }
}

/// A table after a package was found. What was found in a scanned file wins
/// over what was found in a package; otherwise the first find stays.
pub open spec fn merge(
    table: Seq<InfoView>,
    spec: SpecView,
    source: Seq<char>,
    direct: bool,
) -> Seq<InfoView> {
    if !has_import(table, spec) {
        table.push(new_info(spec, source, direct))
    } else if direct {
        table.map_values(|info: InfoView| promoted(info, spec, source))
    } else {
        table
    }
}

/// A table after several packages were found in one source.
pub open spec fn merge_all(
    table: Seq<InfoView>,
    imports: Seq<SpecView>,
    source: Seq<char>,
    direct: bool,
) -> Seq<InfoView>
    decreases imports.len(),
{
    if imports.len() == 0 {
        table
    } else {
        merge(merge_all(table, imports.drop_last(), source, direct), imports.last(), source, direct)
    }
}

fn find_import(table: &Vec<ImportInfo>, spec: &PackageSpec, version: &String) -> (yes: bool)
    requires
        version@ == version_text(spec.version),
    ensures
        yes == has_import(info_views(table@), spec@),
{
    for i in 0..table.len()
        invariant
            version@ == version_text(spec.version),
            forall|j: int| 0 <= j < i ==> !is_for((#[trigger] table@[j])@, spec@),
    {
        if table[i].namespace == spec.namespace && table[i].name == spec.name && table[i].version
            == *version {
            assert(is_for(info_views(table@)[i as int], spec@));
            return true;
        }
    }
    assert(forall|j: int|
        0 <= j < table@.len() ==> #[trigger] info_views(table@)[j] == table@[j]@);
    false
}

fn promote(table: &mut Vec<ImportInfo>, spec: &PackageSpec, version: &String, source: &String)
    requires
        version@ == version_text(spec.version),
    ensures
        info_views(final(table)@) == info_views(old(table)@).map_values(
            |info: InfoView| promoted(info, spec@, source@),
        ),
{
    let ghost before = table@;
    let n: usize = table.len();
    for i in 0..n
        invariant
            version@ == version_text(spec.version),
            n == before.len(),
            table@.len() == before.len(),
            forall|j: int|
                0 <= j < i ==> (#[trigger] table@[j])@ == promoted(before[j]@, spec@, source@),
            forall|j: int| i <= j < table@.len() ==> #[trigger] table@[j] == before[j],
    {
        let info = &table[i];
        if info.namespace == spec.namespace && info.name == spec.name && info.version == *version
            && !info.direct {
            let info = ImportInfo {
                namespace: info.namespace.clone(),
                name: info.name.clone(),
                version: info.version.clone(),
                source: source.clone(),
                direct: true,
            };
            table.set(i, info);
        }
    }
    assert(info_views(table@) =~= info_views(before).map_values(
        |info: InfoView| promoted(info, spec@, source@),
    ));
}

/// Enters a package that was found into a table.
pub fn add_import(table: &mut Vec<ImportInfo>, spec: &PackageSpec, source: &String, direct: bool)
    ensures
        info_views(final(table)@) == merge(info_views(old(table)@), spec@, source@, direct),
{
    let version = spec.version.to_string();
    if !find_import(table, spec, &version) {
        let ghost before = info_views(table@);
        table.push(
            ImportInfo {
                namespace: spec.namespace.clone(),
                name: spec.name.clone(),
                version,
                source: source.clone(),
                direct,
            },
        );
        assert(info_views(table@) =~= before.push(new_info(spec@, source@, direct)));
    } else if direct {
        promote(table, spec, &version, source);
    }
}

/// Enters the packages that were found in one source into a table.
pub fn add_imports(
    table: &mut Vec<ImportInfo>,
    imports: &Vec<PackageSpec>,
    source: &String,
    direct: bool,
)
    ensures
        info_views(final(table)@) == merge_all(
            info_views(old(table)@),
            spec_views(imports@),
            source@,
            direct,
        ),
{
    let ghost before = info_views(table@);
    let ghost views = spec_views(imports@);
    for i in 0..imports.len()
        invariant
            views == spec_views(imports@),
            info_views(table@) == merge_all(before, views.take(i as int), source@, direct),
    {
        assert(views.take(i + 1).drop_last() =~= views.take(i as int));
        assert(views.take(i + 1).last() == imports@[i as int]@);
        add_import(table, &imports[i], source, direct);
    }
    assert(views.take(imports.len() as int) =~= views);
}

} // verus!
