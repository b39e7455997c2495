//! What lists say, item by item: nothing is left out, and nothing is moved.

use vstd::prelude::*;

use crate::analyze;
use crate::analyze::{AnalyzeEvent, AnalyzeReply, AnalyzeRequest};
use crate::config::{
    document_view, entry_views, item_views, pair_views, place_views, section_views, strings_view,
    text_view, text_views, Config, ConfigValue, ConfigView, EntryView, PackageEntry, Place,
    PlaceView, RawConfig, RawView, StringOrVec, ValueView,
};
use crate::gather;
use crate::gather::{
    manifest_view, outcome_views, GatherEvent, GatherReply, GatherRequest, Outcome, OutcomeView,
};
use crate::imports::{info_views, ImportInfo};
use crate::manifest::Manifest;
use crate::package::{PackageSpec, SpecView};
use crate::report::{GatherPlan, PlanView};
use crate::syntax::{
    file_views, spec_views, FileView, ImportSource, SourceFile, SourceView,
};
use crate::world::{listed_views, source_views, Found, FoundView, Listed};

verus! {

/// A list of texts says all its texts, in order; so do an optional text and a list of
/// optional texts.
pub proof fn law_texts_say_all(texts: Seq<String>, text: Option<String>, items: Seq<Option<String>>)
    ensures
        text_views(texts).len() == texts.len(),
        forall|i: int| 0 <= i < texts.len() ==> #[trigger] text_views(texts)[i] == texts[i]@,
        text matches Some(t) ==> text_view(text) == Some(t@),
        text is None ==> text_view(text) is None,
        item_views(items).len() == items.len(),
        forall|i: int|
            0 <= i < items.len() ==> #[trigger] item_views(items)[i] == text_view(items[i]),
{
}

/// A list of pairs says all its pairs, in order; so do a section and a document.
pub proof fn law_pairs_say_all(
    pairs: Seq<(String, String)>,
    section: Seq<(String, Option<String>)>,
    document: Seq<(String, ConfigValue)>,
)
    ensures
        pair_views(pairs).len() == pairs.len(),
        forall|i: int|
            0 <= i < pairs.len() ==> #[trigger] pair_views(pairs)[i] == (
                pairs[i].0@,
                pairs[i].1@,
            ),
        section_views(section).len() == section.len(),
        forall|i: int|
            0 <= i < section.len() ==> #[trigger] section_views(section)[i] == (
                section[i].0@,
                text_view(section[i].1),
            ),
        document_view(document).len() == document.len(),
        forall|i: int|
            0 <= i < document.len() ==> #[trigger] document_view(document)[i] == (
                document[i].0@,
                document[i].1@,
            ),
{
}

/// Lists of places and of entries say all their items, in order, with all their parts.
pub proof fn law_plans_say_all(places: Seq<Place>, entries: Seq<PackageEntry>)
    ensures
        place_views(places).len() == places.len(),
        forall|i: int|
            0 <= i < places.len() ==> (#[trigger] place_views(places)[i]).path == places[i].path@
                && place_views(places)[i].root == text_view(places[i].root),
        entry_views(entries).len() == entries.len(),
        forall|i: int| 0 <= i < entries.len() ==> #[trigger] entry_views(entries)[i] == entries[i]@,
{
}

/// Lists of packages, of files and of entries of a table say all their items, in order,
/// with all their parts.
pub proof fn law_finds_say_all(
    specs: Seq<PackageSpec>,
    files: Seq<SourceFile>,
    table: Seq<ImportInfo>,
)
    ensures
        spec_views(specs).len() == specs.len(),
        forall|i: int|
            0 <= i < specs.len() ==> (#[trigger] spec_views(specs)[i]).namespace
                == specs[i].namespace@ && spec_views(specs)[i].name == specs[i].name@ && spec_views(
                specs,
            )[i].version == specs[i].version,
        file_views(files).len() == files.len(),
        forall|i: int|
            0 <= i < files.len() ==> (#[trigger] file_views(files)[i]).name == files[i].name@
                && file_views(files)[i].text == text_view(files[i].text),
        info_views(table).len() == table.len(),
        forall|i: int|
            0 <= i < table.len() ==> (#[trigger] info_views(table)[i]).namespace
                == table[i].namespace@ && info_views(table)[i].name == table[i].name@ && info_views(
                table,
            )[i].version == table[i].version@ && info_views(table)[i].source == table[i].source@
                && info_views(table)[i].direct == table[i].direct,
{
}

/// Listings, found files, logs and manifests say all that they hold.
pub proof fn law_answers_say_all(
    listed: Seq<Listed>,
    files: Seq<(usize, String)>,
    log: Seq<Outcome>,
    manifest: Manifest,
)
    ensures
        listed_views(listed).len() == listed.len(),
        forall|i: int|
            0 <= i < listed.len() ==> (#[trigger] listed_views(listed)[i]).id == listed[i].id
                && listed_views(listed)[i].name == listed[i].name@ && listed_views(
                listed,
            )[i].is_file == listed[i].is_file,
        source_views(files).len() == files.len(),
        forall|i: int|
            0 <= i < files.len() ==> #[trigger] source_views(files)[i] == (
                files[i].0,
                files[i].1@,
            ),
        outcome_views(log).len() == log.len(),
        forall|i: int| 0 <= i < log.len() ==> #[trigger] outcome_views(log)[i] == log[i]@,
        manifest_view(Some(manifest)) == Some(manifest@),
        manifest@.name == manifest.name@,
        manifest@.version == manifest.version,
        manifest@.exclude == text_views(manifest.exclude@),
{
}

/// A package, a place, a file and an entry of a configuration say all that they hold.
pub proof fn law_items_say_all(
    spec: PackageSpec,
    place: Place,
    file: SourceFile,
    entry: PackageEntry,
    source: ImportSource,
)
    ensures
        spec@ == (SpecView {
            namespace: spec.namespace@,
            name: spec.name@,
            version: spec.version,
        }),
        place@ == (PlaceView { root: text_view(place.root), path: place.path@ }),
        file@ == (FileView { name: file.name@, text: text_view(file.text) }),
        match entry {
            PackageEntry::Preview { name, version } => entry@ == (EntryView::Preview {
                name: name@,
                version: version@,
            }),
            PackageEntry::Local { name, dir } => entry@ == (EntryView::Local {
                name: name@,
                dir: dir@,
            }),
        },
        match source {
            ImportSource::Literal(text) => source@ == SourceView::Literal(text@),
            ImportSource::Computed => source@ is Computed,
        },
{
}

/// A configuration says all its fields, as it is written and as it is used.
pub proof fn law_configurations_say_all(
    raw: RawConfig,
    config: Config,
    value: ConfigValue,
    strings: StringOrVec,
    plan: GatherPlan,
)
    ensures
        raw@ == (RawView {
            rootdir: text_view(raw.rootdir),
            destination: text_view(raw.destination),
            discover: strings_view(raw.discover),
            package_cache: strings_view(raw.package_cache),
            preview: raw.preview@,
            local: raw.local@,
        }),
        raw.discover matches Some(paths) ==> strings_view(raw.discover) == Some(paths@),
        raw.discover is None ==> strings_view(raw.discover) is None,
        config@ == (ConfigView {
            rootdir: text_view(config.rootdir),
            destination: text_view(config.destination),
            discover: text_views(config.discover@),
            package_cache: text_views(config.package_cache@),
            preview: config.preview@,
            local: config.local@,
        }),
        match value {
            ConfigValue::Text(text) => value@ == ValueView::Text(text@),
            ConfigValue::List(items) => value@ == ValueView::List(item_views(items@)),
            ConfigValue::Section(section) => value@ == ValueView::Section(section_views(section@)),
            ConfigValue::Other => value@ is Other,
        },
        match strings {
            StringOrVec::Single(text) => strings@ == seq![text@],
            StringOrVec::Multiple(texts) => strings@ == text_views(texts@),
        },
        plan@ == (PlanView {
            destination: plan.destination@,
            discover: place_views(plan.discover@),
            configured_local: text_views(plan.configured_local@),
            entries: entry_views(plan.entries@),
        }),
{
}

/// What is found at a path is said whole.
pub proof fn law_found_says_all(found: Found)
    ensures
        match found {
            Found::File { id, name } => found@ == (FoundView::File { id, name: name@ }),
            Found::Directory(listed) => found@ == FoundView::Directory(listed_views(listed@)),
            Found::Unreadable => found@ is Unreadable,
            Found::Missing => found@ is Missing,
        },
{
}

/// A request of a gather operation says all that it asks for.
pub proof fn law_gather_requests_say_all(request: GatherRequest)
    ensures
        match request {
            GatherRequest::Look(place) => request@ == gather::RequestView::Look(place@),
            GatherRequest::Read { id, name } => request@ == (gather::RequestView::Read {
                id,
                name: name@,
            }),
            GatherRequest::FindCached(spec) => request@ == gather::RequestView::FindCached(spec@),
            GatherRequest::Download(spec) => request@ == gather::RequestView::Download(spec@),
            GatherRequest::Walk(spec) => request@ == gather::RequestView::Walk(spec@),
            GatherRequest::ReadManifest { name, dir } => request@ == (
            gather::RequestView::ReadManifest { name: name@, dir: dir@ }),
            GatherRequest::Clear { spec, dir, exclude } => request@ == (
            gather::RequestView::Clear {
                spec: spec@,
                dir: dir@,
                exclude: text_views(exclude@),
            }),
            GatherRequest::Copy { spec, dir, exclude } => request@ == (gather::RequestView::Copy {
                spec: spec@,
                dir: dir@,
                exclude: text_views(exclude@),
            }),
            GatherRequest::Done => request@ is Done,
        },
{
}

/// A reply to a gather operation says all that it tells, as it comes and with its texts
/// read.
pub proof fn law_gather_replies_say_all(reply: GatherReply, event: GatherEvent)
    ensures
        match reply {
            GatherReply::Found(found) => reply@ == gather::ReplyView::Found(found@),
            GatherReply::Source(text) => reply@ == gather::ReplyView::Source(text_view(text)),
            GatherReply::Answer(yes) => reply@ == gather::ReplyView::Answer(yes),
            GatherReply::Files(files) => reply@ == gather::ReplyView::Files(file_views(files@)),
            GatherReply::Manifest(text) => reply@ == gather::ReplyView::Manifest(text_view(text)),
        },
        match event {
            GatherEvent::Found(found) => event@ == gather::EventView::Found(found@),
            GatherEvent::Imports(imports) => event@ == gather::EventView::Imports(
                spec_views(imports@),
            ),
            GatherEvent::Answer(yes) => event@ == gather::EventView::Answer(yes),
            GatherEvent::Manifest(manifest) => event@ == gather::EventView::Manifest(
                manifest_view(manifest),
            ),
        },
{
}

/// An outcome says what came of what.
pub proof fn law_outcomes_say_all(outcome: Outcome)
    ensures
        match outcome {
            Outcome::Downloaded(spec) => outcome@ == OutcomeView::Downloaded(spec@),
            Outcome::Skipped(spec) => outcome@ == OutcomeView::Skipped(spec@),
            Outcome::Copied(spec) => outcome@ == OutcomeView::Copied(spec@),
            Outcome::NotDownloaded(spec) => outcome@ == OutcomeView::NotDownloaded(spec@),
            Outcome::NotCleared(spec) => outcome@ == OutcomeView::NotCleared(spec@),
            Outcome::NotCopied(spec) => outcome@ == OutcomeView::NotCopied(spec@),
            Outcome::NotListed(place) => outcome@ == OutcomeView::NotListed(place@),
            Outcome::InvalidVersion { name, version } => outcome@ == (
            OutcomeView::InvalidVersion { name: name@, version: version@ }),
            Outcome::NoManifest { name } => outcome@ == (OutcomeView::NoManifest { name: name@ }),
            Outcome::NameMismatch { name, found } => outcome@ == (OutcomeView::NameMismatch {
                name: name@,
                found: found@,
            }),
        },
{
}

/// A request of an analysis says all that it asks for.
pub proof fn law_analyze_requests_say_all(request: AnalyzeRequest)
    ensures
        match request {
            AnalyzeRequest::Look(place) => request@ == analyze::RequestView::Look(place@),
            AnalyzeRequest::Read { id, name } => request@ == (analyze::RequestView::Read {
                id,
                name: name@,
            }),
            AnalyzeRequest::ReadManifest { name, place } => request@ == (
            analyze::RequestView::ReadManifest { name: name@, place: place@ }),
            AnalyzeRequest::Walk { name, place } => request@ == (analyze::RequestView::Walk {
                name: name@,
                place: place@,
            }),
            AnalyzeRequest::CheckCache(place) => request@ == analyze::RequestView::CheckCache(
                place@,
            ),
            AnalyzeRequest::Probe { cache, name, version } => request@ == (
            analyze::RequestView::Probe { cache: cache@, name: name@, version: version@ }),
            AnalyzeRequest::Done => request@ is Done,
        },
{
}

/// A reply to an analysis says all that it tells, as it comes and with its texts read.
pub proof fn law_analyze_replies_say_all(reply: AnalyzeReply, event: AnalyzeEvent)
    ensures
        match reply {
            AnalyzeReply::Found(found) => reply@ == analyze::ReplyView::Found(found@),
            AnalyzeReply::Source(text) => reply@ == analyze::ReplyView::Source(text_view(text)),
            AnalyzeReply::Manifest(text) => reply@ == analyze::ReplyView::Manifest(
                text_view(text),
            ),
            AnalyzeReply::Files(files) => reply@ == analyze::ReplyView::Files(file_views(files@)),
            AnalyzeReply::Answer(yes) => reply@ == analyze::ReplyView::Answer(yes),
            AnalyzeReply::Cached(Some(files)) => reply@ == analyze::ReplyView::Cached(
                Some(file_views(files@)),
            ),
            AnalyzeReply::Cached(None) => reply@ == analyze::ReplyView::Cached(None),
        },
        match event {
            AnalyzeEvent::Found(found) => event@ == analyze::EventView::Found(found@),
            AnalyzeEvent::Imports(imports) => event@ == analyze::EventView::Imports(
                spec_views(imports@),
            ),
            AnalyzeEvent::Manifest(manifest) => event@ == analyze::EventView::Manifest(
                manifest_view(manifest),
            ),
            AnalyzeEvent::Answer(yes) => event@ == analyze::EventView::Answer(yes),
            AnalyzeEvent::Cached(Some(imports)) => event@ == analyze::EventView::Cached(
                Some(spec_views(imports@)),
            ),
            AnalyzeEvent::Cached(None) => event@ == analyze::EventView::Cached(None),
        },
{
}

} // verus!
