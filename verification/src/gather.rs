//! Gathering: which packages are looked for, downloaded and copied, and in what
//! order.
//!
//! [`gather_packages`] starts to gather. [`Gather::request`] says what is to be
//! done next; [`Gather::resume`] takes what came of it. When the request is
//! [`GatherRequest::Done`], [`Gather::finish`] gives the result.

use vstd::prelude::*;

use crate::config::{
    entry_views, pair_views, place_views, text_view, text_views, EntryView, PackageEntry, Place,
    PlaceView,
};
use crate::manifest::{parsed_manifest, Manifest, ManifestView};
use crate::package::{version_of, PackageSpec, PackageVersion, SpecView};
use crate::syntax::{
    file_views, files_specs, find_imports, imports_in, spec_views, text_specs, FileView,
    SourceFile,
};
use crate::seqs::{pile, stacked};
use crate::text::same_text;
use crate::world::{source_views, sources, sources_of, Found, FoundView};

verus! {

/// Statistics about gathering operations.
#[derive(Clone, Copy, Debug, PartialEq, Eq, Structural)]
pub struct Stats {
    pub downloaded: usize,
    pub copied: usize,
    pub skipped: usize,
    pub failed: usize,
}

impl Default for Stats {
    fn default() -> (stats: Stats)
        ensures
            stats == (Stats { downloaded: 0, copied: 0, skipped: 0, failed: 0 }),
    {
        Stats { downloaded: 0, copied: 0, skipped: 0, failed: 0 }
    }
}

/// Result of a gather operation.
#[derive(Debug, Default)]
pub struct GatherResult {
    pub stats: Stats,
    /// `@local` imports that were found in a scanned file and are not configured:
    /// the name of the package, and the file.
    pub unconfigured_local: Vec<(String, String)>,
}

/// What came of a package or of a path.
#[derive(Debug)]
pub enum Outcome {
    /// A package was downloaded.
    Downloaded(PackageSpec),
    /// A package was there already.
    Skipped(PackageSpec),
    /// A local package was copied.
    Copied(PackageSpec),
    /// A package could not be downloaded.
    NotDownloaded(PackageSpec),
    /// What stood in the place of a local package could not be removed.
    NotCleared(PackageSpec),
    /// A local package could not be copied.
    NotCopied(PackageSpec),
    /// A directory could not be read.
    NotListed(Place),
    /// The version of a package is none.
    InvalidVersion { name: String, version: String },
    /// A local package has no manifest that can be read.
    NoManifest { name: String },
    /// The manifest of a local package is for another package.
    NameMismatch { name: String, found: String },
}

/// What an [`Outcome`] says.
pub enum OutcomeView {
    Downloaded(SpecView),
    Skipped(SpecView),
    Copied(SpecView),
    NotDownloaded(SpecView),
    NotCleared(SpecView),
    NotCopied(SpecView),
    NotListed(PlaceView),
    InvalidVersion { name: Seq<char>, version: Seq<char> },
    NoManifest { name: Seq<char> },
    NameMismatch { name: Seq<char>, found: Seq<char> },
}

/// What is still to be done.
#[derive(Debug)]
enum Task {
    /// Scan what is found at a path.
    Discover(Place),
    /// Scan a file.
    Source { id: usize, name: String },
    /// Make a package available, and what it imports.
    Package(PackageSpec),
    /// Make a configured package available, and what it imports.
    Preview { name: String, version: String, parsed: Option<PackageVersion> },
    /// Copy a local package, and make available what it imports.
    Local { name: String, dir: String },
}

/// What is still to be done.
pub enum TaskView {
    /// Scan what is found at a path.
    Discover(PlaceView),
    /// Scan a file.
    Source { id: usize, name: Seq<char> },
    /// Make a package available, and what it imports.
    Package(SpecView),
    /// Make a configured package available, and what it imports.
    Preview { name: Seq<char>, version: Seq<char>, parsed: Option<PackageVersion> },
    /// Copy a local package, and make available what it imports.
    Local { name: Seq<char>, dir: Seq<char> },
}

/// What is to be done next.
#[derive(Debug)]
pub enum GatherRequest {
    /// Say what is at a path: answered by [`GatherReply::Found`].
    Look(Place),
    /// Read a file that was found: answered by [`GatherReply::Source`].
    Read { id: usize, name: String },
    /// Say whether the package is in the destination: answered by
    /// [`GatherReply::Answer`].
    FindCached(PackageSpec),
    /// Download a package: answered by [`GatherReply::Answer`].
    Download(PackageSpec),
    /// Read all files of a package: answered by [`GatherReply::Files`].
    Walk(PackageSpec),
    /// Read the manifest of a local package: answered by
    /// [`GatherReply::Manifest`].
    ReadManifest { name: String, dir: String },
    /// Remove what stands in the place of a local package: answered by
    /// [`GatherReply::Answer`].
    Clear { spec: PackageSpec, dir: String, exclude: Vec<String> },
    /// Copy a local package into its place: answered by [`GatherReply::Answer`].
    Copy { spec: PackageSpec, dir: String, exclude: Vec<String> },
    /// Nothing.
    Done,
}

/// What a [`GatherRequest`] says.
pub enum RequestView {
    Look(PlaceView),
    Read { id: usize, name: Seq<char> },
    FindCached(SpecView),
    Download(SpecView),
    Walk(SpecView),
    ReadManifest { name: Seq<char>, dir: Seq<char> },
    Clear { spec: SpecView, dir: Seq<char>, exclude: Seq<Seq<char>> },
    Copy { spec: SpecView, dir: Seq<char>, exclude: Seq<Seq<char>> },
    Done,
}

/// What came of a request.
#[derive(Debug)]
pub enum GatherReply {
    /// What is at the path.
    Found(Found),
    /// The text of the file, if it could be read.
    Source(Option<String>),
    /// Whether it is so, or whether it was done.
    Answer(bool),
    /// The files of the package.
    Files(Vec<SourceFile>),
    /// The text of the manifest, if it could be read.
    Manifest(Option<String>),
}

/// What a [`GatherReply`] says.
pub enum ReplyView {
    Found(FoundView),
    Source(Option<Seq<char>>),
    Answer(bool),
    Files(Seq<FileView>),
    Manifest(Option<Seq<char>>),
}

/// What a reply tells, with the texts in it read.
#[derive(Debug)]
pub enum GatherEvent {
    Found(Found),
    Imports(Vec<PackageSpec>),
    Answer(bool),
    Manifest(Option<Manifest>),
}

/// What a [`GatherEvent`] says.
pub enum EventView {
    Found(FoundView),
    Imports(Seq<SpecView>),
    Answer(bool),
    Manifest(Option<ManifestView>),
}

/// A gather operation under way.
#[derive(Debug)]
pub struct Gather {
    configured_local: Vec<String>,
    processed: Vec<PackageSpec>,
    log: Vec<Outcome>,
    discovered_local: Vec<(String, String)>,
    tasks: Vec<Task>,
    request: GatherRequest,
}

/// What a [`Gather`] says.
pub struct GatherView {
    /// The names of the configured local packages.
    pub configured: Seq<Seq<char>>,
    /// The packages that were taken up.
    pub processed: Seq<SpecView>,
    /// What came of packages and paths so far.
    pub log: Seq<OutcomeView>,
    /// The local packages that scanned files import, each with the first such
    /// file.
    pub discovered: Seq<(Seq<char>, Seq<char>)>,
    /// What is still to be done: the last task is the next.
    pub tasks: Seq<TaskView>,
    /// What is to be done now.
    pub request: RequestView,
}

impl View for Outcome {
    type V = OutcomeView;

    open spec fn view(&self) -> OutcomeView {
        match self {
            Outcome::Downloaded(spec) => OutcomeView::Downloaded(spec@),
            Outcome::Skipped(spec) => OutcomeView::Skipped(spec@),
            Outcome::Copied(spec) => OutcomeView::Copied(spec@),
            Outcome::NotDownloaded(spec) => OutcomeView::NotDownloaded(spec@),
            Outcome::NotCleared(spec) => OutcomeView::NotCleared(spec@),
            Outcome::NotCopied(spec) => OutcomeView::NotCopied(spec@),
            Outcome::NotListed(place) => OutcomeView::NotListed(place@),
            Outcome::InvalidVersion { name, version } => OutcomeView::InvalidVersion {
                name: name@,
                version: version@,
            },
            Outcome::NoManifest { name } => OutcomeView::NoManifest { name: name@ },
            Outcome::NameMismatch { name, found } => OutcomeView::NameMismatch {
                name: name@,
                found: found@,
            },
        }
    }
}

impl View for Task {
    type V = TaskView;

    closed spec fn view(&self) -> TaskView {
        match self {
            Task::Discover(place) => TaskView::Discover(place@),
            Task::Source { id, name } => TaskView::Source { id: *id, name: name@ },
            Task::Package(spec) => TaskView::Package(spec@),
            Task::Preview { name, version, parsed } => TaskView::Preview {
                name: name@,
                version: version@,
                parsed: *parsed,
            },
            Task::Local { name, dir } => TaskView::Local { name: name@, dir: dir@ },
        }
    }
}

impl View for GatherRequest {
    type V = RequestView;

    open spec fn view(&self) -> RequestView {
        match self {
            GatherRequest::Look(place) => RequestView::Look(place@),
            GatherRequest::Read { id, name } => RequestView::Read { id: *id, name: name@ },
            GatherRequest::FindCached(spec) => RequestView::FindCached(spec@),
            GatherRequest::Download(spec) => RequestView::Download(spec@),
            GatherRequest::Walk(spec) => RequestView::Walk(spec@),
            GatherRequest::ReadManifest { name, dir } => RequestView::ReadManifest {
                name: name@,
                dir: dir@,
            },
            GatherRequest::Clear { spec, dir, exclude } => RequestView::Clear {
                spec: spec@,
                dir: dir@,
                exclude: text_views(exclude@),
            },
            GatherRequest::Copy { spec, dir, exclude } => RequestView::Copy {
                spec: spec@,
                dir: dir@,
                exclude: text_views(exclude@),
            },
            GatherRequest::Done => RequestView::Done,
        }
    }
}

impl View for GatherReply {
    type V = ReplyView;

    open spec fn view(&self) -> ReplyView {
        match self {
            GatherReply::Found(found) => ReplyView::Found(found@),
            GatherReply::Source(text) => ReplyView::Source(text_view(*text)),
            GatherReply::Answer(yes) => ReplyView::Answer(*yes),
            GatherReply::Files(files) => ReplyView::Files(file_views(files@)),
            GatherReply::Manifest(text) => ReplyView::Manifest(text_view(*text)),
        }
    }
}

/// What an optional manifest says.
pub open spec fn manifest_view(manifest: Option<Manifest>) -> Option<ManifestView> {
    match manifest {
        Some(m) => Some(m@),
        None => None,
    }
}

impl View for GatherEvent {
    type V = EventView;

    open spec fn view(&self) -> EventView {
        match self {
            GatherEvent::Found(found) => EventView::Found(found@),
            GatherEvent::Imports(imports) => EventView::Imports(spec_views(imports@)),
            GatherEvent::Answer(yes) => EventView::Answer(*yes),
            GatherEvent::Manifest(manifest) => EventView::Manifest(manifest_view(*manifest)),
        }
    }
}

/// What a log says.
pub open spec fn outcome_views(log: Seq<Outcome>) -> Seq<OutcomeView> {
    log.map_values(|outcome: Outcome| outcome@)
}

spec fn task_views(tasks: Seq<Task>) -> Seq<TaskView> {
    tasks.map_values(|task: Task| task@)
}

impl View for Gather {
    type V = GatherView;

    closed spec fn view(&self) -> GatherView {
        GatherView {
            configured: text_views(self.configured_local@),
            processed: spec_views(self.processed@),
            log: outcome_views(self.log@),
            discovered: pair_views(self.discovered_local@),
            tasks: task_views(self.tasks@),
            request: self.request@,
        }
    }
}

/// The package of the given name and version in the `preview` namespace.
pub open spec fn preview_spec(name: Seq<char>, version: PackageVersion) -> SpecView {
    SpecView { namespace: "preview"@, name, version }
}

/// The package of the given name and version in the `local` namespace.
pub open spec fn local_spec(name: Seq<char>, version: PackageVersion) -> SpecView {
    SpecView { namespace: "local"@, name, version }
}

impl GatherView {
    /// The state after an outcome.
    pub open spec fn logged(self, outcome: OutcomeView) -> GatherView {
        GatherView { log: self.log.push(outcome), ..self }
    }

    /// The state that asks for something.
    pub open spec fn asking(self, request: RequestView) -> GatherView {
        GatherView { request, ..self }
    }

    /// Whether a package is to be made available: its name is not that of a
    /// configured local package, and it was not taken up before.
    pub open spec fn wants(self, spec: SpecView) -> bool {
        !self.configured.contains(spec.name) && !self.processed.contains(spec)
    }

    /// The state in which a package is taken up.
    pub open spec fn taking(self, spec: SpecView) -> GatherView {
        GatherView {
            processed: self.processed.push(spec),
            request: RequestView::FindCached(spec),
            ..self
        }
    }

    /// The state in which a package counts as taken up.
    pub open spec fn marking(self, spec: SpecView) -> GatherView {
        if self.processed.contains(spec) {
            self
        } else {
            GatherView { processed: self.processed.push(spec), ..self }
        }
    }
}

/// The state with the next request: tasks that need nothing from outside are
/// done on the way.
pub open spec fn settle(s: GatherView) -> GatherView
    decreases s.tasks.len(),
{
    if s.tasks.len() == 0 {
        s.asking(RequestView::Done)
    } else {
        let rest = GatherView { tasks: s.tasks.drop_last(), ..s };
        match s.tasks.last() {
            TaskView::Discover(place) => rest.asking(RequestView::Look(place)),
            TaskView::Source { id, name } => rest.asking(RequestView::Read { id, name }),
            TaskView::Package(spec) => if rest.wants(spec) {
                rest.taking(spec)
            } else {
                settle(rest)
            },
            TaskView::Preview { name, version, parsed } => match parsed {
                Some(v) => if rest.wants(preview_spec(name, v)) {
                    rest.taking(preview_spec(name, v))
                } else {
                    settle(rest)
                },
                None => settle(rest.logged(OutcomeView::InvalidVersion { name, version })),
            },
            TaskView::Local { name, dir } => rest.asking(
                RequestView::ReadManifest { name, dir },
            ),
        }
    }
}

/// The tasks to scan some files: the last task is for the first of them.
pub open spec fn source_tasks(files: Seq<(usize, Seq<char>)>) -> Seq<TaskView> {
    stacked(
        files,
        |file: (usize, Seq<char>)| TaskView::Source { id: file.0, name: file.1 },
    )
}

/// The tasks to make the `preview` packages among some imports available: the
/// last task is for the first of them.
pub open spec fn package_tasks(imports: Seq<SpecView>) -> Seq<TaskView>
    decreases imports.len(),
{
    if imports.len() == 0 {
        Seq::empty()
    } else if imports[0].namespace == "preview"@ {
        package_tasks(imports.skip(1)).push(TaskView::Package(imports[0]))
    } else {
        package_tasks(imports.skip(1))
    }
}

/// Whether a name stands among the first parts of some pairs.
pub open spec fn has_name(pairs: Seq<(Seq<char>, Seq<char>)>, name: Seq<char>) -> bool {
    exists|i: int| 0 <= i < pairs.len() && (#[trigger] pairs[i]).0 == name
}

/// The discovered local packages, after the imports of one more file. Only the
/// first file that imports a package counts.
pub open spec fn note_locals(
    discovered: Seq<(Seq<char>, Seq<char>)>,
    imports: Seq<SpecView>,
    source: Seq<char>,
) -> Seq<(Seq<char>, Seq<char>)>
    decreases imports.len(),
{
    if imports.len() == 0 {
        discovered
    } else {
        let before = note_locals(discovered, imports.drop_last(), source);
        let last = imports.last();
        if last.namespace == "local"@ && !has_name(before, last.name) {
            before.push((last.name, source))
        } else {
            before
        }
    }
}

/// The state after a path was looked at.
pub open spec fn after_look(s: GatherView, place: PlaceView, found: FoundView) -> GatherView {
    match found {
        FoundView::Unreadable => s.logged(OutcomeView::NotListed(place)),
        _ => GatherView { tasks: s.tasks + source_tasks(sources_of(found)), ..s },
    }
}

/// The state after a scanned file was read.
pub open spec fn after_read(s: GatherView, source: Seq<char>, imports: Seq<SpecView>) -> GatherView {
    GatherView {
        discovered: note_locals(s.discovered, imports, source),
        tasks: s.tasks + package_tasks(imports),
        ..s
    }
}

/// The state after an event. An event that does not answer the request changes
/// nothing.
pub open spec fn step(s: GatherView, event: EventView) -> GatherView {
    match (s.request, event) {
        (RequestView::Look(place), EventView::Found(found)) => settle(after_look(s, place, found)),
        (RequestView::Read { id, name }, EventView::Imports(imports)) => settle(
            after_read(s, name, imports),
        ),
        (RequestView::FindCached(spec), EventView::Answer(yes)) => if yes {
            s.logged(OutcomeView::Skipped(spec)).asking(RequestView::Walk(spec))
        } else {
            s.asking(RequestView::Download(spec))
        },
        (RequestView::Download(spec), EventView::Answer(yes)) => if yes {
            s.logged(OutcomeView::Downloaded(spec)).asking(RequestView::Walk(spec))
        } else {
            settle(s.logged(OutcomeView::NotDownloaded(spec)))
        },
        (RequestView::Walk(spec), EventView::Imports(imports)) => settle(
            GatherView { tasks: s.tasks + package_tasks(imports), ..s },
        ),
        (RequestView::ReadManifest { name, dir }, EventView::Manifest(manifest)) => match manifest {
            None => settle(s.logged(OutcomeView::NoManifest { name })),
            Some(m) => if m.name != name {
                settle(s.logged(OutcomeView::NameMismatch { name, found: m.name }))
            } else {
                s.asking(
                    RequestView::Clear {
                        spec: local_spec(name, m.version),
                        dir,
                        exclude: m.exclude,
                    },
                )
            },
        },
        (RequestView::Clear { spec, dir, exclude }, EventView::Answer(yes)) => if yes {
            s.asking(RequestView::Copy { spec, dir, exclude })
        } else {
            settle(s.logged(OutcomeView::NotCleared(spec)))
        },
        (RequestView::Copy { spec, dir, exclude }, EventView::Answer(yes)) => if yes {
            s.logged(OutcomeView::Copied(spec)).marking(spec).asking(RequestView::Walk(spec))
        } else {
            settle(s.logged(OutcomeView::NotCopied(spec)))
        },
        _ => s,
    }
}

/// What a reply tells.
pub open spec fn event_of(reply: ReplyView) -> EventView {
    match reply {
        ReplyView::Found(found) => EventView::Found(found),
        ReplyView::Source(text) => EventView::Imports(
            match text {
                Some(t) => text_specs(t),
                None => Seq::empty(),
            },
        ),
        ReplyView::Answer(yes) => EventView::Answer(yes),
        ReplyView::Files(files) => EventView::Imports(files_specs(files)),
        ReplyView::Manifest(text) => EventView::Manifest(
            match text {
                Some(t) => parsed_manifest(t),
                None => None,
            },
        ),
    }
}

/// The task for a package to gather.
pub open spec fn entry_task(entry: EntryView) -> TaskView {
    match entry {
        EntryView::Preview { name, version } => TaskView::Preview {
            name,
            version,
            parsed: version_of(version),
        },
        EntryView::Local { name, dir } => TaskView::Local { name, dir },
    }
}

/// The state in which gathering starts: first the paths are scanned, then the
/// packages are gathered.
pub open spec fn start(
    entries: Seq<EntryView>,
    discover: Seq<PlaceView>,
    configured: Seq<Seq<char>>,
) -> GatherView {
    settle(
        GatherView {
            configured,
            processed: Seq::empty(),
            log: Seq::empty(),
            discovered: Seq::empty(),
            tasks: entries.map_values(|entry: EntryView| entry_task(entry)).reverse()
                + discover.map_values(|place: PlaceView| TaskView::Discover(place)).reverse(),
            request: RequestView::Done,
        },
    )
}

/// How many outcomes of each sort a log has.
pub open spec fn tally(log: Seq<OutcomeView>) -> (nat, nat, nat, nat)
    decreases log.len(),
{
    if log.len() == 0 {
        (0, 0, 0, 0)
    } else {
        let (downloaded, copied, skipped, failed) = tally(log.drop_last());
        match log.last() {
            OutcomeView::Downloaded(_) => (downloaded + 1, copied, skipped, failed),
            OutcomeView::Copied(_) => (downloaded, copied + 1, skipped, failed),
            OutcomeView::Skipped(_) => (downloaded, copied, skipped + 1, failed),
            _ => (downloaded, copied, skipped, failed + 1),
        }
    }
}

impl Stats {
    /// Whether the statistics are those of a log.
    pub open spec fn counts(self, log: Seq<OutcomeView>) -> bool {
        tally(log) == (
            self.downloaded as nat,
            self.copied as nat,
            self.skipped as nat,
            self.failed as nat,
        )
    }
}

/// The discovered local packages that are not configured.
pub open spec fn unconfigured(
    discovered: Seq<(Seq<char>, Seq<char>)>,
    configured: Seq<Seq<char>>,
) -> Seq<(Seq<char>, Seq<char>)> {
    discovered.filter(|pair: (Seq<char>, Seq<char>)| !configured.contains(pair.0))
}

/// What is to be done next does not depend on what was done last.
proof fn lemma_settle_ignores_request(s: GatherView, request: RequestView)
    ensures
        settle(s.asking(request)) == settle(s),
    decreases s.tasks.len(),
{
    if s.tasks.len() > 0 {
        let rest = GatherView { tasks: s.tasks.drop_last(), ..s };
        lemma_settle_ignores_request(rest, request);
        match s.tasks.last() {
            TaskView::Preview { name, version, parsed } => {
                let logged = rest.logged(OutcomeView::InvalidVersion { name, version });
                lemma_settle_ignores_request(logged, request);
            },
            _ => {},
        }
    }
}

fn contains_name(names: &Vec<String>, name: &str) -> (yes: bool)
    ensures
        yes == text_views(names@).contains(name@),
{
    for i in 0..names.len()
        invariant
            forall|j: int| 0 <= j < i ==> (#[trigger] names@[j])@ != name@,
    {
        if same_text(names[i].as_str(), name) {
            assert(text_views(names@)[i as int] == name@);
            return true;
        }
    }
    assert(forall|j: int| 0 <= j < names@.len() ==> text_views(names@)[j] == (#[trigger] names@[j])@);
    false
}

fn contains_spec(specs: &Vec<PackageSpec>, spec: &PackageSpec) -> (yes: bool)
    ensures
        yes == spec_views(specs@).contains(spec@),
{
    for i in 0..specs.len()
        invariant
            forall|j: int| 0 <= j < i ==> (#[trigger] specs@[j])@ != spec@,
    {
        if specs[i].same(spec) {
            assert(spec_views(specs@)[i as int] == spec@);
            return true;
        }
    }
    assert(forall|j: int| 0 <= j < specs@.len() ==> spec_views(specs@)[j] == (#[trigger] specs@[j])@);
    false
}

fn contains_pair(pairs: &Vec<(String, String)>, name: &str) -> (yes: bool)
    ensures
        yes == has_name(pair_views(pairs@), name@),
{
    for i in 0..pairs.len()
        invariant
            forall|j: int| 0 <= j < i ==> (#[trigger] pairs@[j]).0@ != name@,
    {
        if same_text(pairs[i].0.as_str(), name) {
            assert(pair_views(pairs@)[i as int].0 == name@);
            return true;
        }
    }
    assert(forall|j: int|
        0 <= j < pairs@.len() ==> (#[trigger] pair_views(pairs@)[j]).0 == pairs@[j].0@);
    false
}

fn push_sources(tasks: &mut Vec<Task>, files: Vec<(usize, String)>)
    ensures
        task_views(final(tasks)@) == task_views(old(tasks)@) + source_tasks(source_views(files@)),
{
    let ghost start = tasks@;
    let mut sources: Vec<Task> = Vec::new();
    for i in 0..files.len()
        invariant
            sources@.len() == i,
            forall|j: int|
                0 <= j < i ==> (#[trigger] sources@[j])@ == (TaskView::Source {
                    id: files@[j].0,
                    name: files@[j].1@,
                }),
    {
        sources.push(Task::Source { id: files[i].0, name: files[i].1.clone() });
    }
    pile(tasks, sources);
    assert(task_views(tasks@) =~= task_views(start) + source_tasks(source_views(files@)));
}

fn push_packages(tasks: &mut Vec<Task>, imports: &Vec<PackageSpec>)
    ensures
        task_views(final(tasks)@) == task_views(old(tasks)@) + package_tasks(spec_views(imports@)),
{
    let ghost start = task_views(tasks@);
    let ghost views = spec_views(imports@);
    let mut i: usize = imports.len();
    assert(views.skip(i as int) =~= Seq::empty());
    assert(task_views(tasks@) =~= start + package_tasks(views.skip(i as int)));
    while i > 0
        invariant
            i <= imports@.len(),
            views == spec_views(imports@),
            task_views(tasks@) == start + package_tasks(views.skip(i as int)),
        decreases i,
    {
        i = i - 1;
        let ghost before = task_views(tasks@);
        assert(views.skip(i as int).skip(1) =~= views.skip(i + 1));
        assert(views.skip(i as int)[0] == imports@[i as int]@);
        if imports[i].is_in("preview") {
            tasks.push(Task::Package(imports[i].clone()));
            assert(task_views(tasks@) =~= before.push(TaskView::Package(imports@[i as int]@)));
        }
        assert(task_views(tasks@) =~= start + package_tasks(views.skip(i as int)));
    }
    assert(views.skip(0) =~= views);
}

fn push_locals(discovered: &mut Vec<(String, String)>, imports: &Vec<PackageSpec>, source: &String)
    ensures
        pair_views(final(discovered)@) == note_locals(
            pair_views(old(discovered)@),
            spec_views(imports@),
            source@,
        ),
{
    let ghost start = pair_views(discovered@);
    let ghost views = spec_views(imports@);
    for i in 0..imports.len()
        invariant
            views == spec_views(imports@),
            pair_views(discovered@) == note_locals(start, views.take(i as int), source@),
    {
        let ghost before = pair_views(discovered@);
        assert(views.take(i + 1).drop_last() =~= views.take(i as int));
        assert(views.take(i + 1).last() == imports@[i as int]@);
        if imports[i].is_in("local") && !contains_pair(discovered, imports[i].name.as_str()) {
            discovered.push((imports[i].name.clone(), source.clone()));
            assert(pair_views(discovered@) =~= before.push((imports@[i as int].name@, source@)));
        }
    }
    assert(views.take(imports.len() as int) =~= views);
}

/// Counts what came of packages and paths.
pub fn count_outcomes(log: &Vec<Outcome>) -> (stats: Stats)
    ensures
        stats.counts(outcome_views(log@)),
{
    let mut stats = Stats::default();
    let ghost views = outcome_views(log@);
    for i in 0..log.len()
        invariant
            views == outcome_views(log@),
            stats.counts(views.take(i as int)),
            stats.downloaded + stats.copied + stats.skipped + stats.failed == i,
    {
        assert(views.take(i + 1).drop_last() =~= views.take(i as int));
        assert(views.take(i + 1).last() == log@[i as int]@);
        match &log[i] {
            Outcome::Downloaded(_) => stats.downloaded = stats.downloaded + 1,
            Outcome::Copied(_) => stats.copied = stats.copied + 1,
            Outcome::Skipped(_) => stats.skipped = stats.skipped + 1,
            _ => stats.failed = stats.failed + 1,
        }
    }
    assert(views.take(log.len() as int) =~= views);
    stats
}

/// Reads the texts in a reply.
pub fn read_reply(reply: GatherReply) -> (event: GatherEvent)
    ensures
        event@ == event_of(reply@),
{
    match reply {
        GatherReply::Found(found) => GatherEvent::Found(found),
        GatherReply::Source(text) => match text {
            Some(t) => GatherEvent::Imports(imports_in(t.as_str())),
            None => {
                let event = GatherEvent::Imports(Vec::new());
                assert(event@->Imports_0 =~= Seq::<SpecView>::empty());
                event
            },
        },
        GatherReply::Answer(yes) => GatherEvent::Answer(yes),
        GatherReply::Files(files) => GatherEvent::Imports(find_imports(&files)),
        GatherReply::Manifest(text) => GatherEvent::Manifest(
            match text {
                Some(t) => match Manifest::parse(t.as_str()) {
                    Ok(manifest) => Some(manifest),
                    Err(_) => None,
                },
                None => None,
            },
        ),
    }
}

impl Gather {
    fn record(&mut self, outcome: Outcome)
        ensures
            final(self)@ == old(self)@.logged(outcome@),
    {
        let ghost before = self@.log;
        self.log.push(outcome);
        assert(self@.log =~= before.push(outcome@));
    }

    /// Takes a package up, if it is wanted, and says whether it was.
    fn take_up(&mut self, spec: PackageSpec) -> (taken: bool)
        ensures
            taken == old(self)@.wants(spec@),
            final(self)@ == (if taken {
                old(self)@.taking(spec@)
            } else {
                old(self)@
            }),
    {
        if contains_name(&self.configured_local, spec.name.as_str()) || contains_spec(
            &self.processed,
            &spec,
        ) {
            return false;
        }
        let ghost before = self@.processed;
        self.processed.push(spec.clone());
        self.request = GatherRequest::FindCached(spec);
        assert(self@.processed =~= before.push(spec@));
        true
    }

    fn mark(&mut self, spec: &PackageSpec)
        ensures
            final(self)@ == old(self)@.marking(spec@),
    {
        if !contains_spec(&self.processed, spec) {
            let ghost before = self@.processed;
            self.processed.push(spec.clone());
            assert(self@.processed =~= before.push(spec@));
        }
    }

    /// Does tasks until one needs something from outside.
    fn settle(&mut self)
        ensures
            final(self)@ == settle(old(self)@),
    {
        let ghost goal = settle(self@);
        loop
            invariant_except_break
                settle(self@) == goal,
            ensures
                self@ == goal,
            decreases self.tasks@.len(),
        {
            let ghost before = self@;
            let task = match self.tasks.pop() {
                Some(task) => task,
                None => {
                    self.request = GatherRequest::Done;
                    assert(self@.tasks =~= before.tasks);
                    break;
                },
            };
            proof {
                assert(self@.tasks =~= before.tasks.drop_last());
                assert(task@ == before.tasks.last());
                assert(self@ == GatherView { tasks: before.tasks.drop_last(), ..before });
            }
            match task {
                Task::Discover(place) => {
                    self.request = GatherRequest::Look(place);
                    break;
                },
                Task::Source { id, name } => {
                    self.request = GatherRequest::Read { id, name };
                    break;
                },
                Task::Package(spec) => {
                    if self.take_up(spec) {
                        break;
                    }
                },
                Task::Preview { name, version, parsed } => match parsed {
                    Some(v) => {
                        let namespace = "preview".to_owned();
                        if self.take_up(PackageSpec { namespace, name, version: v }) {
                            break;
                        }
                    },
                    None => self.record(Outcome::InvalidVersion { name, version }),
                },
                Task::Local { name, dir } => {
                    self.request = GatherRequest::ReadManifest { name, dir };
                    break;
                },
            }
        }
    }

    /// What is to be done next.
    pub fn request(&self) -> (request: &GatherRequest)
        ensures
            request@ == self@.request,
    {
        &self.request
    }

    /// What came of packages and paths so far.
    pub fn log(&self) -> (log: &Vec<Outcome>)
        ensures
            outcome_views(log@) == self@.log,
    {
        &self.log
    }

    /// Takes what came of the request, and finds out what is to be done next.
    pub fn resume(self, reply: GatherReply) -> (next: Gather)
        ensures
            next@ == step(self@, event_of(reply@)),
    {
        self.step(read_reply(reply))
    }

    /// Takes what a reply tells, and finds out what is to be done next.
    pub fn step(self, event: GatherEvent) -> (next: Gather)
        ensures
            next@ == step(self@, event@),
    {
        let ghost before = self@;
        let Gather { configured_local, processed, log, discovered_local, tasks, request } = self;
        let mut next = Gather {
            configured_local,
            processed,
            log,
            discovered_local,
            tasks,
            request: GatherRequest::Done,
        };
        match (request, event) {
            (GatherRequest::Look(place), GatherEvent::Found(found)) => {
                match found {
                    Found::Unreadable => next.record(Outcome::NotListed(place)),
                    found => push_sources(&mut next.tasks, sources(found)),
                }
                proof {
                    lemma_settle_ignores_request(next@, before.request);
                }
                next.settle();
            },
            (GatherRequest::Read { id, name }, GatherEvent::Imports(imports)) => {
                push_locals(&mut next.discovered_local, &imports, &name);
                push_packages(&mut next.tasks, &imports);
                proof {
                    lemma_settle_ignores_request(next@, before.request);
                }
                next.settle();
            },
            (GatherRequest::FindCached(spec), GatherEvent::Answer(yes)) => {
                if yes {
                    next.record(Outcome::Skipped(spec.clone()));
                    next.request = GatherRequest::Walk(spec);
                } else {
                    next.request = GatherRequest::Download(spec);
                }
            },
            (GatherRequest::Download(spec), GatherEvent::Answer(yes)) => {
                if yes {
                    next.record(Outcome::Downloaded(spec.clone()));
                    next.request = GatherRequest::Walk(spec);
                } else {
                    next.record(Outcome::NotDownloaded(spec));
                    proof {
                        lemma_settle_ignores_request(next@, before.request);
                    }
                    next.settle();
                }
            },
            (GatherRequest::Walk(_), GatherEvent::Imports(imports)) => {
                push_packages(&mut next.tasks, &imports);
                proof {
                    lemma_settle_ignores_request(next@, before.request);
                }
                next.settle();
            },
            (GatherRequest::ReadManifest { name, dir }, GatherEvent::Manifest(manifest)) => {
                match manifest {
                    None => {
                        next.record(Outcome::NoManifest { name });
                        proof {
                            lemma_settle_ignores_request(next@, before.request);
                        }
                        next.settle();
                    },
                    Some(m) => {
                        if m.name == name {
                            let namespace = "local".to_owned();
                            let spec = PackageSpec { namespace, name, version: m.version };
                            next.request = GatherRequest::Clear { spec, dir, exclude: m.exclude };
                        } else {
                            next.record(Outcome::NameMismatch { name, found: m.name });
                            proof {
                                lemma_settle_ignores_request(next@, before.request);
                            }
                            next.settle();
                        }
                    },
                }
            },
            (GatherRequest::Clear { spec, dir, exclude }, GatherEvent::Answer(yes)) => {
                if yes {
                    next.request = GatherRequest::Copy { spec, dir, exclude };
                } else {
                    next.record(Outcome::NotCleared(spec));
                    proof {
                        lemma_settle_ignores_request(next@, before.request);
                    }
                    next.settle();
                }
            },
            (GatherRequest::Copy { spec, dir, exclude }, GatherEvent::Answer(yes)) => {
                if yes {
                    next.record(Outcome::Copied(spec.clone()));
                    next.mark(&spec);
                    next.request = GatherRequest::Walk(spec);
                } else {
                    next.record(Outcome::NotCopied(spec));
                    proof {
                        lemma_settle_ignores_request(next@, before.request);
                    }
                    next.settle();
                }
            },
            (request, _) => {
                next.request = request;
            },
        }
        next
    }

    /// The result: how often what came of packages and paths, and the `@local`
    /// imports that are not configured.
    pub fn finish(self) -> (result: GatherResult)
        ensures
            result.stats.counts(self@.log),
            pair_views(result.unconfigured_local@) == unconfigured(
                self@.discovered,
                self@.configured,
            ),
    {
        let stats = count_outcomes(&self.log);
        let mut unconfigured_local: Vec<(String, String)> = Vec::new();
        let ghost views = pair_views(self.discovered_local@);
        let ghost configured = text_views(self.configured_local@);
        let ghost open = |pair: (Seq<char>, Seq<char>)| !configured.contains(pair.0);
        proof {
            reveal(Seq::filter);
            assert(pair_views(unconfigured_local@) =~= views.take(0).filter(open));
        }
        for i in 0..self.discovered_local.len()
            invariant
                views == pair_views(self.discovered_local@),
                configured == text_views(self.configured_local@),
                open == (|pair: (Seq<char>, Seq<char>)| !configured.contains(pair.0)),
                pair_views(unconfigured_local@) == views.take(i as int).filter(open),
        {
            proof {
                reveal(Seq::filter);
                assert(views.take(i + 1).drop_last() =~= views.take(i as int));
                assert(views.take(i + 1).last() == views[i as int]);
            }
            let pair = &self.discovered_local[i];
            if !contains_name(&self.configured_local, pair.0.as_str()) {
                let ghost before = pair_views(unconfigured_local@);
                unconfigured_local.push((pair.0.clone(), pair.1.clone()));
                assert(pair_views(unconfigured_local@) =~= before.push(views[i as int]));
            }
        }
        assert(views.take(views.len() as int) =~= views);
        GatherResult { stats, unconfigured_local }
    }
}

fn task_of(entry: PackageEntry) -> (task: Task)
    ensures
        task@ == entry_task(entry@),
{
    match entry {
        PackageEntry::Preview { name, version } => {
            let parsed = PackageVersion::parse(version.as_str());
            Task::Preview { name, version, parsed }
        },
        PackageEntry::Local { name, dir } => Task::Local { name, dir },
    }
}

/// Starts to gather packages: those that the files at some paths import, then
/// those that are listed, and whatever they import in turn.
pub fn gather_packages(
    entries: Vec<PackageEntry>,
    discover_paths: Vec<Place>,
    configured_local: Vec<String>,
) -> (gather: Gather)
    ensures
        gather@ == start(
            entry_views(entries@),
            place_views(discover_paths@),
            text_views(configured_local@),
        ),
{
    let ghost entry_tasks = entry_views(entries@).map_values(|entry: EntryView| entry_task(entry));
    let ghost place_tasks = place_views(discover_paths@).map_values(
        |place: PlaceView| TaskView::Discover(place),
    );
    let mut tasks: Vec<Task> = Vec::new();
    let mut entries = entries;
    let mut places = discover_paths;
    let ghost all_entries = entries@;
    let ghost all_places = places@;
    while entries.len() > 0
        invariant
            entries@.len() + tasks@.len() == all_entries.len(),
            entries@ == all_entries.take(entries@.len() as int),
            entry_tasks == entry_views(all_entries).map_values(|entry: EntryView| entry_task(entry)),
            task_views(tasks@) == entry_tasks.reverse().take(tasks@.len() as int),
        decreases entries@.len(),
    {
        let ghost before = tasks@;
        let ghost n = entries@.len();
        if let Some(entry) = entries.pop() {
            assert(entry == all_entries[n - 1]);
            tasks.push(task_of(entry));
            assert(task_views(tasks@) =~= entry_tasks.reverse().take(tasks@.len() as int));
            assert(entries@ =~= all_entries.take(entries@.len() as int));
        }
    }
    assert(task_views(tasks@) =~= entry_tasks.reverse());
    let ghost n = tasks@.len();
    while places.len() > 0
        invariant
            places@.len() + tasks@.len() == all_places.len() + n,
            n == entry_tasks.len(),
            tasks@.len() >= n,
            places@ == all_places.take(places@.len() as int),
            place_tasks == place_views(all_places).map_values(
                |place: PlaceView| TaskView::Discover(place),
            ),
            task_views(tasks@) == entry_tasks.reverse() + place_tasks.reverse().take(
                tasks@.len() - n,
            ),
        decreases places@.len(),
    {
        let ghost m = places@.len();
        if let Some(place) = places.pop() {
            assert(place == all_places[m - 1]);
            let ghost before = task_views(tasks@);
            tasks.push(Task::Discover(place));
            assert(task_views(tasks@) =~= before.push(TaskView::Discover(place@)));
            assert(place_tasks[m - 1] == TaskView::Discover(place@));
            assert(task_views(tasks@) =~= entry_tasks.reverse() + place_tasks.reverse().take(
                tasks@.len() - n,
            ));
            assert(places@ =~= all_places.take(places@.len() as int));
        }
    }
    assert(task_views(tasks@) =~= entry_tasks.reverse() + place_tasks.reverse());
    let mut gather = Gather {
        configured_local,
        processed: Vec::new(),
        log: Vec::new(),
        discovered_local: Vec::new(),
        tasks,
        request: GatherRequest::Done,
    };
    assert(gather@.processed =~= Seq::empty());
    assert(gather@.log =~= Seq::empty());
    assert(gather@.discovered =~= Seq::empty());
    gather.settle();
    gather
}

} // verus!
