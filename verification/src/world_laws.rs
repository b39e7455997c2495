//! Which files are scanned where something was found.

use vstd::prelude::*;

use crate::seqs::{chosen, lemma_chosen_push, lemma_filter_contains};
use crate::text::typst_source;
use crate::world::{scanned, sources_of, FoundView, ListedView};

verus! {

/// Whether a name has the extension `typ`: it ends in `.typ`, with something before.
pub open spec fn has_typ_extension(name: Seq<char>) -> bool {
    exists|stem: Seq<char>| stem.len() > 0 && name == #[trigger] (stem + ".typ"@)
}

/// The names of source files are those with the extension `typ`, however long they are.
pub proof fn law_source_names(name: Seq<char>)
    ensures
        typst_source(name) <==> has_typ_extension(name),
        typst_source(name) <==> name.len() > 4 && ".typ"@.is_suffix_of(name),
{
    reveal_strlit(".typ");
    let n = name.len() as int;
    if n > 4 {
        assert(name.skip(n - 4) =~= name.subrange(n - 4, n));
    }
    if typst_source(name) {
        assert(name =~= name.take(n - 4) + ".typ"@);
        assert(has_typ_extension(name));
    }
    if has_typ_extension(name) {
        let stem = choose|stem: Seq<char>| stem.len() > 0 && name == #[trigger] (stem + ".typ"@);
        assert(name.skip(n - 4) =~= ".typ"@);
    }
}

/// A file that is found at a path is scanned exactly if its extension is `typ`.
pub proof fn law_file_is_scanned(id: usize, name: Seq<char>)
    ensures
        sources_of(FoundView::File { id, name }) == if name.len() > 4 && ".typ"@.is_suffix_of(
            name,
        ) {
            seq![(id, name)]
        } else {
            Seq::empty()
        },
{
    law_source_names(name);
}

/// Of a directory, exactly the files in it whose extension is `typ` are scanned: all of
/// them, wherever they stand in the listing and however they are called, and nothing else.
pub proof fn law_directory_is_scanned(listed: Seq<ListedView>, id: usize, name: Seq<char>)
    ensures
        sources_of(FoundView::Directory(listed)).contains((id, name)) <==> exists|i: int|
            0 <= i < listed.len() && (#[trigger] listed[i]).is_file && listed[i].id == id
                && listed[i].name == name && name.len() > 4 && ".typ"@.is_suffix_of(name),
{
    let keep = |l: ListedView| scanned(l);
    let pick = |l: ListedView| (l.id, l.name);
    let kept = listed.filter(keep);
    let files = sources_of(FoundView::Directory(listed));
    law_source_names(name);
    if files.contains((id, name)) {
        let j = choose|j: int| 0 <= j < files.len() && files[j] == (id, name);
        assert(files[j] == pick(kept[j]));
        assert(kept.contains(kept[j]));
        lemma_filter_contains(listed, keep, kept[j]);
        let i = choose|i: int| 0 <= i < listed.len() && listed[i] == kept[j];
        assert(listed[i].is_file && listed[i].id == id && listed[i].name == name);
    }
    if exists|i: int|
        0 <= i < listed.len() && (#[trigger] listed[i]).is_file && listed[i].id == id
            && listed[i].name == name && name.len() > 4 && ".typ"@.is_suffix_of(name) {
        let i = choose|i: int|
            0 <= i < listed.len() && (#[trigger] listed[i]).is_file && listed[i].id == id
                && listed[i].name == name && name.len() > 4 && ".typ"@.is_suffix_of(name);
        lemma_filter_contains(listed, keep, listed[i]);
        let j = choose|j: int| 0 <= j < kept.len() && kept[j] == listed[i];
        assert(files[j] == (id, name));
    }
}

/// A listing is scanned part by part, in its order: what stands in one part has no say in
/// what is scanned of another.
pub proof fn law_listings_are_scanned_in_order(a: Seq<ListedView>, b: Seq<ListedView>)
    ensures
        sources_of(FoundView::Directory(a + b)) == sources_of(FoundView::Directory(a))
            + sources_of(FoundView::Directory(b)),
        a.len() == 1 ==> sources_of(FoundView::Directory(a)).len() == if a[0].is_file
            && a[0].name.len() > 4 && ".typ"@.is_suffix_of(a[0].name) {
            1nat
        } else {
            0nat
        },
{
    let keep = |l: ListedView| scanned(l);
    let pick = |l: ListedView| (l.id, l.name);
    Seq::filter_distributes_over_add(a, b, keep);
    assert((a.filter(keep) + b.filter(keep)).map_values(pick) =~= a.filter(keep).map_values(pick)
        + b.filter(keep).map_values(pick));
    if a.len() == 1 {
        reveal(Seq::filter);
        law_source_names(a[0].name);
        assert(a.drop_last().len() == 0);
        assert(a.drop_last().filter(keep).len() == 0);
        assert(a.last() == a[0]);
        assert(a.filter(keep).len() == if keep(a[0]) { 1nat } else { 0nat });
    }
}

/// What a file is scanned as, if its name has the extension `typ`.
pub open spec fn typ_file(listed: ListedView) -> Option<(usize, Seq<char>)> {
    if listed.is_file && listed.name.len() > 4 && ".typ"@.is_suffix_of(listed.name) {
        Some((listed.id, listed.name))
    } else {
        None
    }
}

/// The files with the extension `typ` that were found, in order.
pub open spec fn typ_files(found: FoundView) -> Seq<(usize, Seq<char>)> {
    match found {
        FoundView::File { id, name } => chosen(
            seq![ListedView { id, name, is_file: true }],
            |l: ListedView| typ_file(l),
        ),
        FoundView::Directory(listed) => chosen(listed, |l: ListedView| typ_file(l)),
        _ => Seq::empty(),
    }
}

/// Exactly the files with the extension `typ` are scanned, in the order in which they
/// were found.
pub proof fn law_typ_files_are_scanned(found: FoundView)
    ensures
        sources_of(found) == typ_files(found),
{
    let make = |l: ListedView| typ_file(l);
    match found {
        FoundView::File { id, name } => {
            let one = seq![ListedView { id, name, is_file: true }];
            law_file_is_scanned(id, name);
            assert(one =~= Seq::empty().push(ListedView { id, name, is_file: true }));
            lemma_chosen_push(Seq::empty(), ListedView { id, name, is_file: true }, make);
            assert(typ_files(found) =~= sources_of(found));
        },
        FoundView::Directory(listed) => lemma_typ_files(listed),
        _ => {},
    }
}

proof fn lemma_typ_files(listed: Seq<ListedView>)
    ensures
        sources_of(FoundView::Directory(listed)) == chosen(listed, |l: ListedView| typ_file(l)),
    decreases listed.len(),
{
    let keep = |l: ListedView| scanned(l);
    let pick = |l: ListedView| (l.id, l.name);
    let make = |l: ListedView| typ_file(l);
    reveal(Seq::filter);
    if listed.len() == 0 {
        assert(sources_of(FoundView::Directory(listed)) =~= chosen(listed, make));
    } else {
        lemma_typ_files(listed.drop_last());
        law_source_names(listed.last().name);
        let before = listed.drop_last().filter(keep);
        assert(before.push(listed.last()).map_values(pick) =~= before.map_values(pick).push(
            pick(listed.last()),
        ));
        assert(sources_of(FoundView::Directory(listed)) =~= chosen(listed, make));
    }
}

/// Where there is nothing, or nothing that can be read, nothing is scanned.
pub proof fn law_nothing_found_nothing_scanned(found: FoundView)
    requires
        found is Missing || found is Unreadable,
    ensures
        sources_of(found).len() == 0,
{
}

} // verus!
