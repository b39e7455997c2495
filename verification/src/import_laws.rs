//! What holds of every table of imports.

use vstd::prelude::*;

use crate::imports::{has_import, is_for, merge, merge_all, new_info, promoted, InfoView};
use crate::package::{version_text, SpecView};
use crate::package_laws::law_versions_are_told_apart;

verus! {

/// Whether two entries are for the same package and version.
pub open spec fn same_package(a: InfoView, b: InfoView) -> bool {
    a.namespace == b.namespace && a.name == b.name && a.version == b.version
}

/// Whether each package and version has one entry at most.
pub open spec fn distinct(table: Seq<InfoView>) -> bool {
    forall|i: int, j: int|
        0 <= i < j < table.len() ==> !same_package(#[trigger] table[i], #[trigger] table[j])
}

/// Whether a table has a direct entry for a package.
pub open spec fn has_direct(table: Seq<InfoView>, spec: SpecView) -> bool {
    exists|i: int| 0 <= i < table.len() && is_for(#[trigger] table[i], spec) && table[i].direct
}

/// Whether an entry is for one of some packages.
pub open spec fn among(info: InfoView, imports: Seq<SpecView>) -> bool {
    exists|i: int| 0 <= i < imports.len() && is_for(info, #[trigger] imports[i])
}

/// Whether a table has all entries of another one, in their places. An entry
/// that was direct is the same; one that was not may have become direct.
pub open spec fn grown(old_table: Seq<InfoView>, table: Seq<InfoView>) -> bool {
    &&& old_table.len() <= table.len()
    &&& forall|i: int|
        0 <= i < old_table.len() ==> {
            &&& same_package(#[trigger] table[i], old_table[i])
            &&& table[i] == old_table[i] || (!old_table[i].direct && table[i].direct)
        }
}

/// Entries are for one package: packages that differ, be it in their version
/// alone, do not share an entry.
pub proof fn law_entry_names_one_package(info: InfoView, a: SpecView, b: SpecView)
    ensures
        is_for(info, a) && is_for(info, b) ==> a == b,
{
    law_versions_are_told_apart(a.version, b.version);
}

/// A table grows step by step.
pub proof fn lemma_grown_transitive(a: Seq<InfoView>, b: Seq<InfoView>, c: Seq<InfoView>)
    requires
        grown(a, b),
        grown(b, c),
    ensures
        grown(a, c),
{
    assert forall|i: int| 0 <= i < a.len() implies {
        &&& same_package(#[trigger] c[i], a[i])
        &&& c[i] == a[i] || (!a[i].direct && c[i].direct)
    } by {
        assert(same_package(b[i], a[i]));
        assert(same_package(c[i], b[i]));
    }
}

/// What is in a table stays in it, and what is direct stays direct.
pub proof fn law_grown_keeps(old_table: Seq<InfoView>, table: Seq<InfoView>, spec: SpecView)
    requires
        grown(old_table, table),
    ensures
        has_import(old_table, spec) ==> has_import(table, spec),
        has_direct(old_table, spec) ==> has_direct(table, spec),
{
    if has_import(old_table, spec) {
        let i = choose|i: int| 0 <= i < old_table.len() && is_for(#[trigger] old_table[i], spec);
        assert(same_package(table[i], old_table[i]));
    }
    if has_direct(old_table, spec) {
        let i = choose|i: int|
            0 <= i < old_table.len() && is_for(#[trigger] old_table[i], spec)
                && old_table[i].direct;
        assert(same_package(table[i], old_table[i]));
    }
}

/// Entering a find keeps every package and version at one entry, keeps what was
/// found directly, and enters the package. A find in a package changes no entry
/// that is there.
pub proof fn law_merge(table: Seq<InfoView>, spec: SpecView, source: Seq<char>, direct: bool)
    requires
        distinct(table),
    ensures
        ({
            let merged = merge(table, spec, source, direct);
            &&& distinct(merged)
            &&& grown(table, merged)
            &&& has_import(merged, spec)
            &&& direct ==> has_direct(merged, spec)
            &&& !direct ==> table.is_prefix_of(merged)
            &&& forall|i: int|
                0 <= i < merged.len() ==> (i < table.len() && #[trigger] merged[i] == table[i])
                    || (is_for(merged[i], spec) && merged[i].source == source && merged[i].direct
                    == direct)
        }),
{
    let merged = merge(table, spec, source, direct);
    if !has_import(table, spec) {
        assert(merged.last() == new_info(spec, source, direct));
        assert forall|i: int, j: int| 0 <= i < j < merged.len() implies !same_package(
            #[trigger] merged[i],
            #[trigger] merged[j],
        ) by {
            assert(merged[i] == table[i]);
            if j < table.len() {
                assert(merged[j] == table[j]);
            } else {
                assert(!is_for(table[i], spec));
            }
        }
        assert(is_for(merged[table.len() as int], spec));
    } else {
        let k = choose|k: int| 0 <= k < table.len() && is_for(#[trigger] table[k], spec);
        assert(is_for(merged[k], spec));
        if direct {
            assert forall|i: int, j: int| 0 <= i < j < merged.len() implies !same_package(
                #[trigger] merged[i],
                #[trigger] merged[j],
            ) by {
                assert(merged[i] == promoted(table[i], spec, source));
                assert(merged[j] == promoted(table[j], spec, source));
                assert(!same_package(table[i], table[j]));
            }
            assert(merged[k].direct);
        }
    }
}

/// As [`law_merge`], for several finds in one source.
pub proof fn law_merge_all(
    table: Seq<InfoView>,
    imports: Seq<SpecView>,
    source: Seq<char>,
    direct: bool,
)
    requires
        distinct(table),
    ensures
        ({
            let merged = merge_all(table, imports, source, direct);
            &&& distinct(merged)
            &&& grown(table, merged)
            &&& forall|i: int| 0 <= i < imports.len() ==> has_import(merged, #[trigger] imports[i])
            &&& direct ==> forall|i: int|
                0 <= i < imports.len() ==> has_direct(merged, #[trigger] imports[i])
            &&& !direct ==> table.is_prefix_of(merged)
            &&& forall|i: int|
                0 <= i < merged.len() ==> (i < table.len() && #[trigger] merged[i] == table[i])
                    || (among(merged[i], imports) && merged[i].source == source && merged[i].direct
                    == direct)
        }),
    decreases imports.len(),
{
    if imports.len() > 0 {
        let front = imports.drop_last();
        let last = imports.last();
        let before = merge_all(table, front, source, direct);
        let merged = merge_all(table, imports, source, direct);
        law_merge_all(table, front, source, direct);
        law_merge(before, last, source, direct);
        lemma_grown_transitive(table, before, merged);
        assert forall|i: int| 0 <= i < imports.len() implies has_import(
            merged,
            #[trigger] imports[i],
        ) && (direct ==> has_direct(merged, imports[i])) by {
            if i < front.len() {
                assert(front[i] == imports[i]);
                law_grown_keeps(before, merged, imports[i]);
            }
        }
        assert forall|i: int| 0 <= i < merged.len() implies (i < table.len()
            && #[trigger] merged[i] == table[i]) || (among(merged[i], imports) && merged[i].source
            == source && merged[i].direct == direct) by {
            if i < before.len() && merged[i] == before[i] {
                if among(before[i], front) {
                    let j = choose|j: int|
                        0 <= j < front.len() && is_for(before[i], #[trigger] front[j]);
                    assert(imports[j] == front[j]);
                }
            } else {
                assert(is_for(merged[i], imports[imports.len() - 1]));
            }
        }
    }
}

/// A find is entered as it is where its package has no entry yet. Otherwise nothing
/// changes but an entry for the package that is not direct, if the find is.
pub proof fn law_find_is_entered(
    table: Seq<InfoView>,
    spec: SpecView,
    source: Seq<char>,
    direct: bool,
)
    ensures
        ({
            let merged = merge(table, spec, source, direct);
            let version = version_text(spec.version);
            let there = exists|i: int|
                0 <= i < table.len() && (#[trigger] table[i]).namespace == spec.namespace
                    && table[i].name == spec.name && table[i].version == version;
            &&& !there ==> merged == table.push(
                InfoView { namespace: spec.namespace, name: spec.name, version, source, direct },
            )
            &&& there ==> merged.len() == table.len()
            &&& there ==> forall|i: int|
                0 <= i < table.len() ==> #[trigger] merged[i] == if direct && !table[i].direct
                    && table[i].namespace == spec.namespace && table[i].name == spec.name
                    && table[i].version == version {
                    InfoView {
                        namespace: table[i].namespace,
                        name: table[i].name,
                        version: table[i].version,
                        source,
                        direct: true,
                    }
                } else {
                    table[i]
                }
        }),
{
    let version = version_text(spec.version);
    if exists|i: int|
        0 <= i < table.len() && (#[trigger] table[i]).namespace == spec.namespace && table[i].name
            == spec.name && table[i].version == version {
        let i = choose|i: int|
            0 <= i < table.len() && (#[trigger] table[i]).namespace == spec.namespace
                && table[i].name == spec.name && table[i].version == version;
        assert(is_for(table[i], spec));
    } else if has_import(table, spec) {
        let i = choose|i: int| 0 <= i < table.len() && is_for(#[trigger] table[i], spec);
        assert(table[i].version == version);
    }
}

/// Several finds are entered one after the other.
pub proof fn law_finds_are_entered_in_order(
    table: Seq<InfoView>,
    imports: Seq<SpecView>,
    last: SpecView,
    source: Seq<char>,
    direct: bool,
)
    ensures
        merge_all(table, Seq::empty(), source, direct) == table,
        merge_all(table, imports.push(last), source, direct) == merge(
            merge_all(table, imports, source, direct),
            last,
            source,
            direct,
        ),
{
    assert(imports.push(last).drop_last() =~= imports);
}

} // verus!
