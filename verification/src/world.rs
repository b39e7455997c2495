//! What is found at the paths that are scanned for imports.

use vstd::prelude::*;

use crate::text::{is_typst_source, typst_source};
use crate::world_laws::law_directory_is_scanned;

verus! {

/// A file that can be read by its number.
#[derive(Debug)]
pub struct Listed {
    pub id: usize,
    pub name: String,
    pub is_file: bool,
}

/// What a [`Listed`] says.
pub struct ListedView {
    pub id: usize,
    pub name: Seq<char>,
    pub is_file: bool,
}

/// What was found at a path.
#[derive(Debug)]
pub enum Found {
    /// A file.
    File { id: usize, name: String },
    /// A directory, with what is in it.
    Directory(Vec<Listed>),
    /// A directory that could not be read.
    Unreadable,
    /// Nothing.
    Missing,
}

/// What a [`Found`] says.
pub enum FoundView {
    File { id: usize, name: Seq<char> },
    Directory(Seq<ListedView>),
    Unreadable,
    Missing,
}

impl View for Listed {
    type V = ListedView;

    open spec fn view(&self) -> ListedView {
        ListedView { id: self.id, name: self.name@, is_file: self.is_file }
    }
}

/// What a listing says.
pub open spec fn listed_views(listed: Seq<Listed>) -> Seq<ListedView> {
    listed.map_values(|l: Listed| l@)
}

impl View for Found {
    type V = FoundView;

    open spec fn view(&self) -> FoundView {
        match self {
            Found::File { id, name } => FoundView::File { id: *id, name: name@ },
            Found::Directory(listed) => FoundView::Directory(listed_views(listed@)),
            Found::Unreadable => FoundView::Unreadable,
            Found::Missing => FoundView::Missing,
        }
    }
}

/// Whether an entry of a directory is scanned for imports: a Typst source file.
pub open spec fn scanned(listed: ListedView) -> bool {
    listed.is_file && typst_source(listed.name)
}

/// The files that are scanned for imports, where something was found: a Typst
/// source file itself, or those in a directory.
pub open spec fn sources_of(found: FoundView) -> Seq<(usize, Seq<char>)> {
    match found {
        FoundView::File { id, name } => if typst_source(name) {
            seq![(id, name)]
        } else {
            Seq::empty()
        },
        FoundView::Directory(listed) => listed.filter(|l: ListedView| scanned(l)).map_values(
            |l: ListedView| (l.id, l.name),
        ),
        FoundView::Unreadable => Seq::empty(),
        FoundView::Missing => Seq::empty(),
    }
}

/// What a list of files says.
pub open spec fn source_views(files: Seq<(usize, String)>) -> Seq<(usize, Seq<char>)> {
    files.map_values(|file: (usize, String)| (file.0, file.1@))
}

/// The files that are scanned for imports, where something was found: of a directory, all
/// files in it whose extension is `typ`, and nothing else.
pub fn sources(found: Found) -> (files: Vec<(usize, String)>)
    ensures
        source_views(files@) == sources_of(found@),
        found matches Found::Directory(listed) ==> forall|id: usize, name: Seq<char>|
            #[trigger] source_views(files@).contains((id, name)) <==> exists|i: int|
                0 <= i < listed@.len() && (#[trigger] listed@[i]).is_file && listed@[i].id == id
                    && listed@[i].name@ == name && name.len() > 4 && ".typ"@.is_suffix_of(name),
{
    proof {
        if found is Directory {
            lemma_directory(found->Directory_0@);
        }
    }
    let mut files: Vec<(usize, String)> = Vec::new();
    assert(source_views(files@) =~= Seq::empty());
    match found {
        Found::File { id, name } => {
            if is_typst_source(name.as_str()) {
                files.push((id, name));
                assert(source_views(files@) =~= seq![(id, name@)]);
            }
        },
        Found::Directory(listed) => {
            let ghost views = listed_views(listed@);
            let ghost keep = |l: ListedView| scanned(l);
            let ghost pick = |l: ListedView| (l.id, l.name);
            proof {
                reveal(Seq::filter);
                assert(source_views(files@) =~= views.take(0).filter(keep).map_values(pick));
            }
            for i in 0..listed.len()
                invariant
                    views == listed_views(listed@),
                    keep == (|l: ListedView| scanned(l)),
                    pick == (|l: ListedView| (l.id, l.name)),
                    source_views(files@) == views.take(i as int).filter(keep).map_values(pick),
            {
                proof {
                    reveal(Seq::filter);
                    assert(views.take(i + 1).drop_last() =~= views.take(i as int));
                    assert(views.take(i + 1).last() == listed@[i as int]@);
                }
                let ghost before = source_views(files@);
                if listed[i].is_file && is_typst_source(listed[i].name.as_str()) {
                    files.push((listed[i].id, listed[i].name.clone()));
                    assert(source_views(files@) =~= before.push(pick(views[i as int])));
                }
                assert(source_views(files@) =~= views.take(i + 1).filter(keep).map_values(pick));
            }
            assert(views.take(views.len() as int) =~= views);
        },
        Found::Unreadable => {},
        Found::Missing => {},
    }
    files
}

proof fn lemma_directory(listed: Seq<Listed>)
    ensures
        forall|id: usize, name: Seq<char>| #[trigger]
            sources_of(FoundView::Directory(listed_views(listed))).contains((id, name))
                <==> exists|i: int|
                0 <= i < listed.len() && (#[trigger] listed[i]).is_file && listed[i].id == id
                    && listed[i].name@ == name && name.len() > 4 && ".typ"@.is_suffix_of(name),
{
    let views = listed_views(listed);
    assert forall|id: usize, name: Seq<char>| #[trigger]
        sources_of(FoundView::Directory(views)).contains((id, name)) <==> exists|i: int|
        0 <= i < listed.len() && (#[trigger] listed[i]).is_file && listed[i].id == id
            && listed[i].name@ == name && name.len() > 4 && ".typ"@.is_suffix_of(name) by {
        law_directory_is_scanned(views, id, name);
        if exists|i: int|
            0 <= i < listed.len() && (#[trigger] listed[i]).is_file && listed[i].id == id
                && listed[i].name@ == name && name.len() > 4 && ".typ"@.is_suffix_of(name) {
            let i = choose|i: int|
                0 <= i < listed.len() && (#[trigger] listed[i]).is_file && listed[i].id == id
                    && listed[i].name@ == name && name.len() > 4 && ".typ"@.is_suffix_of(name);
            assert(views[i].is_file);
        }
        if sources_of(FoundView::Directory(views)).contains((id, name)) {
            let i = choose|i: int|
                0 <= i < views.len() && (#[trigger] views[i]).is_file && views[i].id == id
                    && views[i].name == name;
            assert(listed[i].is_file);
        }
    }
}

} // verus!
