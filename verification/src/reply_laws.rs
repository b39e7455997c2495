//! What the replies to requests tell.

use vstd::prelude::*;

use crate::analyze;
use crate::gather;
use crate::manifest::parsed_manifest;
use crate::package::SpecView;
use crate::syntax::{source_nodes, FileView};
use crate::syntax_laws::{file_imports, imports_package, law_every_file_counts, law_text_imports};
use crate::world::FoundView;

verus! {

/// Whether a text has a statement that imports a package.
pub open spec fn text_imports(text: Seq<char>, spec: SpecView) -> bool {
    exists|i: int|
        0 <= i < source_nodes(text).len() && imports_package(#[trigger] source_nodes(text)[i], spec)
}

/// Whether one of some files is a source file that imports a package.
pub open spec fn some_file_imports(files: Seq<FileView>, spec: SpecView) -> bool {
    exists|i: int| 0 <= i < files.len() && file_imports(#[trigger] files[i], spec)
}

/// While gathering, a text tells of exactly the packages that it imports, and the files of
/// a package tell of exactly those that one of them imports; a file that could not be read
/// tells of none.
pub proof fn law_gather_replies_tell_imports(
    text: Seq<char>,
    files: Seq<FileView>,
    spec: SpecView,
)
    ensures
        gather::event_of(gather::ReplyView::Source(Some(text))) matches gather::EventView::Imports(
            imports,
        ) && (imports.contains(spec) <==> text_imports(text, spec)),
        gather::event_of(gather::ReplyView::Source(None)) matches gather::EventView::Imports(
            imports,
        ) && imports.len() == 0,
        gather::event_of(gather::ReplyView::Files(files)) matches gather::EventView::Imports(
            imports,
        ) && (imports.contains(spec) <==> some_file_imports(files, spec)),
{
    law_text_imports(text, spec);
    law_every_file_counts(files, spec);
}

/// While gathering, all other replies tell what they say.
pub proof fn law_gather_replies_are_taken_as_they_are(
    found: FoundView,
    yes: bool,
    manifest: Seq<char>,
)
    ensures
        gather::event_of(gather::ReplyView::Found(found)) == gather::EventView::Found(found),
        gather::event_of(gather::ReplyView::Answer(yes)) == gather::EventView::Answer(yes),
        gather::event_of(gather::ReplyView::Manifest(Some(manifest)))
            == gather::EventView::Manifest(parsed_manifest(manifest)),
        gather::event_of(gather::ReplyView::Manifest(None)) == gather::EventView::Manifest(None),
{
}

/// In an analysis, a text tells of exactly the packages that it imports, and the files of
/// a package tell of exactly those that one of them imports; a file that could not be read
/// tells of none.
pub proof fn law_analyze_replies_tell_imports(
    text: Seq<char>,
    files: Seq<FileView>,
    spec: SpecView,
)
    ensures
        analyze::event_of(
            analyze::ReplyView::Source(Some(text)),
        ) matches analyze::EventView::Imports(imports) && (imports.contains(spec) <==> text_imports(
            text,
            spec,
        )),
        analyze::event_of(analyze::ReplyView::Source(None)) matches analyze::EventView::Imports(
            imports,
        ) && imports.len() == 0,
        analyze::event_of(analyze::ReplyView::Files(files)) matches analyze::EventView::Imports(
            imports,
        ) && (imports.contains(spec) <==> some_file_imports(files, spec)),
        analyze::event_of(
            analyze::ReplyView::Cached(Some(files)),
        ) matches analyze::EventView::Cached(Some(imports)) && (imports.contains(spec)
            <==> some_file_imports(files, spec)),
{
    law_text_imports(text, spec);
    law_every_file_counts(files, spec);
}

/// In an analysis, all other replies tell what they say.
pub proof fn law_analyze_replies_are_taken_as_they_are(
    found: FoundView,
    yes: bool,
    manifest: Seq<char>,
)
    ensures
        analyze::event_of(analyze::ReplyView::Found(found)) == analyze::EventView::Found(found),
        analyze::event_of(analyze::ReplyView::Answer(yes)) == analyze::EventView::Answer(yes),
        analyze::event_of(analyze::ReplyView::Manifest(Some(manifest)))
            == analyze::EventView::Manifest(parsed_manifest(manifest)),
        analyze::event_of(analyze::ReplyView::Manifest(None)) == analyze::EventView::Manifest(None),
        analyze::event_of(analyze::ReplyView::Cached(None)) == analyze::EventView::Cached(None),
{
}

} // verus!
