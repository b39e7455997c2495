//! Analysis: which packages are imported, without downloading or copying
//! anything.
//!
//! [`analyze`] starts an analysis. [`Analysis::request`] says what is to be
//! read next; [`Analysis::resume`] takes what came of it. When the request is
//! [`AnalyzeRequest::Done`], [`Analysis::finish`] gives the result.

use vstd::prelude::*;

use crate::config::{
    pair_views, place_of, place_views, text_view, text_views, Config, ConfigView, Place, PlaceView,
};
use crate::gather::{local_spec, manifest_view};
use crate::imports::{
    add_import, add_imports, info_views, merge, merge_all, ImportInfo, InfoView,
};
use crate::manifest::{parsed_manifest, Manifest, ManifestView};
use crate::order::{pair_order, sort_pairs};
use crate::package::{spec_text, version_text, PackageSpec, SpecView};
use crate::syntax::{
    file_views, files_specs, find_imports, imports_in, spec_views, text_specs, FileView,
    SourceFile,
};
use crate::seqs::{pile, stacked};
use crate::text::same_text;
use crate::world::{source_views, sources, sources_of, Found, FoundView};

verus! {

/// Result of an analyze operation.
#[derive(Debug)]
pub struct AnalyzeResult {
    pub imports: Vec<ImportInfo>,
    /// The names of the files that were scanned, in the order in which they
    /// were met.
    pub files: Vec<String>,
}

/// What is still to be done.
#[derive(Debug)]
enum Task {
    /// Scan what is found at a path.
    Discover(Place),
    /// Scan a file.
    Source { id: usize, name: String },
    /// Enter a local package, and what it imports.
    Local { name: String, place: Place },
    /// Use a directory that holds packages, if it is there.
    Cache(Place),
}

/// What is still to be done.
pub enum TaskView {
    /// Scan what is found at a path.
    Discover(PlaceView),
    /// Scan a file.
    Source { id: usize, name: Seq<char> },
    /// Enter a local package, and what it imports.
    Local { name: Seq<char>, place: PlaceView },
    /// Use a directory that holds packages, if it is there.
    Cache(PlaceView),
}

/// What is to be read next.
#[derive(Debug)]
pub enum AnalyzeRequest {
    /// Say what is at a path: answered by [`AnalyzeReply::Found`].
    Look(Place),
    /// Read a file that was found: answered by [`AnalyzeReply::Source`].
    Read { id: usize, name: String },
    /// Read the manifest of a local package: answered by
    /// [`AnalyzeReply::Manifest`].
    ReadManifest { name: String, place: Place },
    /// Read all files of a local package: answered by [`AnalyzeReply::Files`].
    Walk { name: String, place: Place },
    /// Say whether there is a directory: answered by [`AnalyzeReply::Answer`].
    CheckCache(Place),
    /// Read all files of a `preview` package in a directory that holds
    /// packages, if it is there: answered by [`AnalyzeReply::Cached`].
    Probe { cache: Place, name: String, version: String },
    /// Nothing.
    Done,
}

/// What an [`AnalyzeRequest`] says.
pub enum RequestView {
    Look(PlaceView),
    Read { id: usize, name: Seq<char> },
    ReadManifest { name: Seq<char>, place: PlaceView },
    Walk { name: Seq<char>, place: PlaceView },
    CheckCache(PlaceView),
    Probe { cache: PlaceView, name: Seq<char>, version: Seq<char> },
    Done,
}

/// What came of a request.
#[derive(Debug)]
pub enum AnalyzeReply {
    /// What is at the path.
    Found(Found),
    /// The text of the file, if it could be read.
    Source(Option<String>),
    /// The text of the manifest, if it could be read.
    Manifest(Option<String>),
    /// The files of the local package.
    Files(Vec<SourceFile>),
    /// Whether it is so.
    Answer(bool),
    /// The files of the package, if it is there.
    Cached(Option<Vec<SourceFile>>),
}

/// What an [`AnalyzeReply`] says.
pub enum ReplyView {
    Found(FoundView),
    Source(Option<Seq<char>>),
    Manifest(Option<Seq<char>>),
    Files(Seq<FileView>),
    Answer(bool),
    Cached(Option<Seq<FileView>>),
}

/// What a reply tells, with the texts in it read.
#[derive(Debug)]
pub enum AnalyzeEvent {
    Found(Found),
    Imports(Vec<PackageSpec>),
    Manifest(Option<Manifest>),
    Answer(bool),
    Cached(Option<Vec<PackageSpec>>),
}

/// What an [`AnalyzeEvent`] says.
pub enum EventView {
    Found(FoundView),
    Imports(Seq<SpecView>),
    Manifest(Option<ManifestView>),
    Answer(bool),
    Cached(Option<Seq<SpecView>>),
}

/// An analysis under way.
#[derive(Debug)]
pub struct Analysis {
    state: State,
}

/// How far an analysis has come.
#[derive(Debug)]
struct State {
    table: Vec<ImportInfo>,
    files: Vec<String>,
    tasks: Vec<Task>,
    caches: Vec<Place>,
    packages: Vec<(String, String)>,
    visited: usize,
    tried: usize,
    seeded: bool,
    failure: Option<String>,
    request: AnalyzeRequest,
}

/// What an [`Analysis`] says.
pub struct AnalysisView {
    /// The imports that were found so far.
    pub table: Seq<InfoView>,
    /// The files that were scanned so far.
    pub files: Seq<Seq<char>>,
    /// What is still to be done: the last task is the next.
    pub tasks: Seq<TaskView>,
    /// The directories that hold packages and are there.
    pub caches: Seq<PlaceView>,
    /// The packages to look for in those directories, by name and version.
    pub packages: Seq<(Seq<char>, Seq<char>)>,
    /// How many of them were dealt with.
    pub visited: nat,
    /// In how many directories the next of them was looked for in vain.
    pub tried: nat,
    /// Whether the first packages to look for were listed.
    pub seeded: bool,
    /// Why the analysis failed, if it did.
    pub failure: Option<Seq<char>>,
    /// What is to be read now.
    pub request: RequestView,
}

impl View for Task {
    type V = TaskView;

    closed spec fn view(&self) -> TaskView {
        match self {
            Task::Discover(place) => TaskView::Discover(place@),
            Task::Source { id, name } => TaskView::Source { id: *id, name: name@ },
            Task::Local { name, place } => TaskView::Local { name: name@, place: place@ },
            Task::Cache(place) => TaskView::Cache(place@),
        }
    }
}

impl View for AnalyzeRequest {
    type V = RequestView;

    open spec fn view(&self) -> RequestView {
        match self {
            AnalyzeRequest::Look(place) => RequestView::Look(place@),
            AnalyzeRequest::Read { id, name } => RequestView::Read { id: *id, name: name@ },
            AnalyzeRequest::ReadManifest { name, place } => RequestView::ReadManifest {
                name: name@,
                place: place@,
            },
            AnalyzeRequest::Walk { name, place } => RequestView::Walk {
                name: name@,
                place: place@,
            },
            AnalyzeRequest::CheckCache(place) => RequestView::CheckCache(place@),
            AnalyzeRequest::Probe { cache, name, version } => RequestView::Probe {
                cache: cache@,
                name: name@,
                version: version@,
            },
            AnalyzeRequest::Done => RequestView::Done,
        }
    }
}

/// What an optional list of files says.
pub open spec fn cached_view(files: Option<Vec<SourceFile>>) -> Option<Seq<FileView>> {
    match files {
        Some(f) => Some(file_views(f@)),
        None => None,
    }
}

impl View for AnalyzeReply {
    type V = ReplyView;

    open spec fn view(&self) -> ReplyView {
        match self {
            AnalyzeReply::Found(found) => ReplyView::Found(found@),
            AnalyzeReply::Source(text) => ReplyView::Source(text_view(*text)),
            AnalyzeReply::Manifest(text) => ReplyView::Manifest(text_view(*text)),
            AnalyzeReply::Files(files) => ReplyView::Files(file_views(files@)),
            AnalyzeReply::Answer(yes) => ReplyView::Answer(*yes),
            AnalyzeReply::Cached(files) => ReplyView::Cached(cached_view(*files)),
        }
    }
}

/// What an optional list of specifications says.
pub open spec fn imports_view(imports: Option<Vec<PackageSpec>>) -> Option<Seq<SpecView>> {
    match imports {
        Some(i) => Some(spec_views(i@)),
        None => None,
    }
}

impl View for AnalyzeEvent {
    type V = EventView;

    open spec fn view(&self) -> EventView {
        match self {
            AnalyzeEvent::Found(found) => EventView::Found(found@),
            AnalyzeEvent::Imports(imports) => EventView::Imports(spec_views(imports@)),
            AnalyzeEvent::Manifest(manifest) => EventView::Manifest(manifest_view(*manifest)),
            AnalyzeEvent::Answer(yes) => EventView::Answer(*yes),
            AnalyzeEvent::Cached(imports) => EventView::Cached(imports_view(*imports)),
        }
    }
}

spec fn task_views(tasks: Seq<Task>) -> Seq<TaskView> {
    tasks.map_values(|task: Task| task@)
}

impl View for State {
    type V = AnalysisView;

    closed spec fn view(&self) -> AnalysisView {
        AnalysisView {
            table: info_views(self.table@),
            files: text_views(self.files@),
            tasks: task_views(self.tasks@),
            caches: place_views(self.caches@),
            packages: pair_views(self.packages@),
            visited: self.visited as nat,
            tried: self.tried as nat,
            seeded: self.seeded,
            failure: text_view(self.failure),
            request: self.request@,
        }
    }
}

impl View for Analysis {
    type V = AnalysisView;

    closed spec fn view(&self) -> AnalysisView {
        self.state@
    }
}

impl AnalysisView {
    /// The state that asks for something.
    pub open spec fn asking(self, request: RequestView) -> AnalysisView {
        AnalysisView { request, ..self }
    }

    /// While a package is looked for, there is a package to look for and a
    /// directory to look in.
    pub open spec fn wf(self) -> bool {
        self.request is Probe ==> self.visited < self.packages.len() && self.tried
            < self.caches.len()
    }
}

/// The names and versions of the `preview` packages in a table.
pub open spec fn preview_pairs(table: Seq<InfoView>) -> Seq<(Seq<char>, Seq<char>)>
    decreases table.len(),
{
    if table.len() == 0 {
        Seq::empty()
    } else if table.last().namespace == "preview"@ {
        preview_pairs(table.drop_last()).push((table.last().name, table.last().version))
    } else {
        preview_pairs(table.drop_last())
    }
}

/// Whether a package is of a namespace that an analysis tells of.
pub open spec fn is_known(spec: SpecView) -> bool {
    spec.namespace == "preview"@ || spec.namespace == "local"@
}

/// The imports that an analysis tells of: those of the `preview` and the `local`
/// namespace.
pub open spec fn known(imports: Seq<SpecView>) -> Seq<SpecView> {
    imports.filter(|spec: SpecView| is_known(spec))
}

/// The packages to look for, after the imports of one more package: each stands
/// there once.
pub open spec fn enqueue(
    packages: Seq<(Seq<char>, Seq<char>)>,
    imports: Seq<SpecView>,
) -> Seq<(Seq<char>, Seq<char>)>
    decreases imports.len(),
{
    if imports.len() == 0 {
        packages
    } else {
        let before = enqueue(packages, imports.drop_last());
        let pair = (imports.last().name, version_text(imports.last().version));
        if before.contains(pair) {
            before
        } else {
            before.push(pair)
        }
    }
}

/// The first package of the `local` namespace among some imports.
pub open spec fn first_local(imports: Seq<SpecView>) -> Option<SpecView>
    decreases imports.len(),
{
    if imports.len() == 0 {
        None
    } else if imports[0].namespace == "local"@ {
        Some(imports[0])
    } else {
        first_local(imports.skip(1))
    }
}

/// How a `preview` package is written.
pub open spec fn preview_label(name: Seq<char>, version: Seq<char>) -> Seq<char> {
    "@preview/"@ + name + ":"@ + version
}

/// How a local package is written where its version is not said.
pub open spec fn local_label(name: Seq<char>) -> Seq<char> {
    "@local/"@ + name
}

/// What is said of a `preview` package that imports a local one.
pub open spec fn failure_text(name: Seq<char>, version: Seq<char>, dependency: SpecView) -> Seq<
    char,
> {
    preview_label(name, version) + " imports "@ + spec_text(dependency)
        + " \u{2014} a published package cannot depend on local packages"@
}

/// The state in which the next package is looked for in the first directory.
pub open spec fn visit(s: AnalysisView) -> AnalysisView {
    if s.visited < s.packages.len() && s.caches.len() > 0 {
        let (name, version) = s.packages[s.visited as int];
        AnalysisView { tried: 0, ..s }.asking(
            RequestView::Probe { cache: s.caches[0], name, version },
        )
    } else {
        s.asking(RequestView::Done)
    }
}

/// The state with the packages to look for first: those in the table, in order.
pub open spec fn seed(s: AnalysisView) -> AnalysisView {
    AnalysisView {
        packages: preview_pairs(s.table).sort_by(pair_order()),
        visited: 0,
        seeded: true,
        ..s
    }
}

/// The files, with one more, unless its name is there already.
pub open spec fn with_file(files: Seq<Seq<char>>, name: Seq<char>) -> Seq<Seq<char>> {
    if files.contains(name) {
        files
    } else {
        files.push(name)
    }
}

/// The state with the next request.
pub open spec fn settle(s: AnalysisView) -> AnalysisView {
    if s.tasks.len() == 0 {
        visit(
            if s.seeded {
                s
            } else {
                seed(s)
            },
        )
    } else {
        let rest = AnalysisView { tasks: s.tasks.drop_last(), ..s };
        match s.tasks.last() {
            TaskView::Discover(place) => rest.asking(RequestView::Look(place)),
            TaskView::Source { id, name } => AnalysisView {
                files: with_file(s.files, name),
                ..rest
            }.asking(RequestView::Read { id, name }),
            TaskView::Local { name, place } => rest.asking(
                RequestView::ReadManifest { name, place },
            ),
            TaskView::Cache(place) => rest.asking(RequestView::CheckCache(place)),
        }
    }
}

/// The tasks to scan some files: the last task is for the first of them.
pub open spec fn source_tasks(files: Seq<(usize, Seq<char>)>) -> Seq<TaskView> {
    stacked(
        files,
        |file: (usize, Seq<char>)| TaskView::Source { id: file.0, name: file.1 },
    )
}

/// The state after a package was found in a directory.
pub open spec fn after_package(
    s: AnalysisView,
    name: Seq<char>,
    version: Seq<char>,
    imports: Seq<SpecView>,
) -> AnalysisView {
    match first_local(imports) {
        Some(dependency) => AnalysisView {
            failure: Some(failure_text(name, version, dependency)),
            ..s
        }.asking(RequestView::Done),
        None => visit(
            AnalysisView {
                table: merge_all(s.table, known(imports), preview_label(name, version), false),
                packages: enqueue(s.packages, known(imports)),
                visited: s.visited + 1,
                ..s
            },
        ),
    }
}

/// The state after an event. An event that does not answer the request changes
/// nothing.
pub open spec fn step(s: AnalysisView, event: EventView) -> AnalysisView {
    match (s.request, event) {
        (RequestView::Look(place), EventView::Found(found)) => settle(
            AnalysisView { tasks: s.tasks + source_tasks(sources_of(found)), ..s },
        ),
        (RequestView::Read { id, name }, EventView::Imports(imports)) => settle(
            AnalysisView { table: merge_all(s.table, known(imports), name, true), ..s },
        ),
        (RequestView::ReadManifest { name, place }, EventView::Manifest(manifest)) => match manifest {
            Some(m) => AnalysisView {
                table: merge(s.table, local_spec(name, m.version), local_label(name), false),
                ..s
            }.asking(RequestView::Walk { name, place }),
            None => settle(s),
        },
        (RequestView::Walk { name, place }, EventView::Imports(imports)) => settle(
            AnalysisView {
                table: merge_all(s.table, known(imports), local_label(name), false),
                ..s
            },
        ),
        (RequestView::CheckCache(place), EventView::Answer(yes)) => settle(
            if yes {
                AnalysisView { caches: s.caches.push(place), ..s }
            } else {
                s
            },
        ),
        (RequestView::Probe { cache, name, version }, EventView::Cached(cached)) => match cached {
            Some(imports) => after_package(s, name, version, imports),
            None => if s.tried + 1 < s.caches.len() {
                AnalysisView { tried: s.tried + 1, ..s }.asking(
                    RequestView::Probe { cache: s.caches[s.tried as int + 1], name, version },
                )
            } else {
                visit(AnalysisView { visited: s.visited + 1, ..s })
            },
        },
        _ => s,
    }
}

/// What a reply tells.
pub open spec fn event_of(reply: ReplyView) -> EventView {
    match reply {
        ReplyView::Found(found) => EventView::Found(found),
        ReplyView::Source(text) => EventView::Imports(
            match text {
                Some(t) => text_specs(t),
                None => Seq::empty(),
            },
        ),
        ReplyView::Manifest(text) => EventView::Manifest(
            match text {
                Some(t) => parsed_manifest(t),
                None => None,
            },
        ),
        ReplyView::Files(files) => EventView::Imports(files_specs(files)),
        ReplyView::Answer(yes) => EventView::Answer(yes),
        ReplyView::Cached(files) => EventView::Cached(
            match files {
                Some(f) => Some(files_specs(f)),
                None => None,
            },
        ),
    }
}

/// The tasks of an analysis, the first of them first: the paths are scanned,
/// then the local packages, then the directories that hold packages are looked
/// for.
pub open spec fn analysis_tasks(config: ConfigView) -> Seq<TaskView> {
    config.discover.map_values(|path: Seq<char>| TaskView::Discover(place_of(config, path)))
        + config.local.map_values(
        |pair: (Seq<char>, Seq<char>)|
            TaskView::Local { name: pair.0, place: place_of(config, pair.1) },
    ) + config.package_cache.map_values(
        |path: Seq<char>| TaskView::Cache(place_of(config, path)),
    )
}

/// The state in which an analysis starts.
pub open spec fn start(config: ConfigView) -> AnalysisView {
    settle(
        AnalysisView {
            table: Seq::empty(),
            files: Seq::empty(),
            tasks: analysis_tasks(config).reverse(),
            caches: Seq::empty(),
            packages: Seq::empty(),
            visited: 0,
            tried: 0,
            seeded: false,
            failure: None,
            request: RequestView::Done,
        },
    )
}

fn push_sources(tasks: &mut Vec<Task>, files: Vec<(usize, String)>)
    ensures
        task_views(final(tasks)@) == task_views(old(tasks)@) + source_tasks(source_views(files@)),
{
    let ghost start = tasks@;
    let mut sources: Vec<Task> = Vec::new();
    for i in 0..files.len()
        invariant
            sources@.len() == i,
            forall|j: int|
                0 <= j < i ==> (#[trigger] sources@[j])@ == (TaskView::Source {
                    id: files@[j].0,
                    name: files@[j].1@,
                }),
    {
        sources.push(Task::Source { id: files[i].0, name: files[i].1.clone() });
    }
    pile(tasks, sources);
    assert(task_views(tasks@) =~= task_views(start) + source_tasks(source_views(files@)));
}

fn add_file(files: &mut Vec<String>, name: &String)
    ensures
        text_views(final(files)@) == with_file(text_views(old(files)@), name@),
{
    let ghost before = text_views(files@);
    for i in 0..files.len()
        invariant
            before == text_views(files@),
            forall|j: int| 0 <= j < i ==> (#[trigger] files@[j])@ != name@,
    {
        if files[i] == *name {
            assert(before[i as int] == name@);
            return;
        }
    }
    assert(forall|j: int| 0 <= j < files@.len() ==> #[trigger] before[j] == files@[j]@);
    files.push(name.clone());
    assert(text_views(files@) =~= before.push(name@));
}

fn previews(table: &Vec<ImportInfo>) -> (pairs: Vec<(String, String)>)
    ensures
        pair_views(pairs@) == preview_pairs(info_views(table@)),
{
    let mut pairs: Vec<(String, String)> = Vec::new();
    let ghost views = info_views(table@);
    assert(pair_views(pairs@) =~= preview_pairs(views.take(0)));
    for i in 0..table.len()
        invariant
            views == info_views(table@),
            pair_views(pairs@) == preview_pairs(views.take(i as int)),
    {
        let ghost before = pair_views(pairs@);
        assert(views.take(i + 1).drop_last() =~= views.take(i as int));
        assert(views.take(i + 1).last() == table@[i as int]@);
        if same_text(table[i].namespace.as_str(), "preview") {
            pairs.push((table[i].name.clone(), table[i].version.clone()));
            assert(pair_views(pairs@) =~= before.push(
                (table@[i as int].name@, table@[i as int].version@),
            ));
        }
    }
    assert(views.take(table.len() as int) =~= views);
    pairs
}

fn contains_package(packages: &Vec<(String, String)>, name: &String, version: &String) -> (yes: bool)
    ensures
        yes == pair_views(packages@).contains((name@, version@)),
{
    let ghost views = pair_views(packages@);
    for i in 0..packages.len()
        invariant
            views == pair_views(packages@),
            forall|j: int| 0 <= j < i ==> #[trigger] views[j] != (name@, version@),
    {
        assert(views[i as int] == (packages@[i as int].0@, packages@[i as int].1@));
        if packages[i].0 == *name && packages[i].1 == *version {
            return true;
        }
    }
    false
}

fn add_packages(packages: &mut Vec<(String, String)>, imports: &Vec<PackageSpec>)
    ensures
        pair_views(final(packages)@) == enqueue(pair_views(old(packages)@), spec_views(imports@)),
        final(packages)@.len() >= old(packages)@.len(),
{
    let ghost start = pair_views(packages@);
    let ghost views = spec_views(imports@);
    for i in 0..imports.len()
        invariant
            views == spec_views(imports@),
            pair_views(packages@) == enqueue(start, views.take(i as int)),
            packages@.len() >= start.len(),
    {
        let ghost before = pair_views(packages@);
        assert(views.take(i + 1).drop_last() =~= views.take(i as int));
        assert(views.take(i + 1).last() == imports@[i as int]@);
        let version = imports[i].version.to_string();
        if !contains_package(packages, &imports[i].name, &version) {
            packages.push((imports[i].name.clone(), version));
            assert(pair_views(packages@) =~= before.push((imports@[i as int].name@, version@)));
        }
    }
    assert(views.take(imports.len() as int) =~= views);
}

fn keep_known(imports: &Vec<PackageSpec>) -> (kept: Vec<PackageSpec>)
    ensures
        spec_views(kept@) == known(spec_views(imports@)),
{
    let ghost views = spec_views(imports@);
    let mut kept: Vec<PackageSpec> = Vec::new();
    proof {
        reveal(Seq::filter);
        assert(spec_views(kept@) =~= known(views.take(0)));
    }
    for i in 0..imports.len()
        invariant
            views == spec_views(imports@),
            spec_views(kept@) == known(views.take(i as int)),
    {
        let ghost before = spec_views(kept@);
        proof {
            reveal(Seq::filter);
            assert(views.take(i + 1).drop_last() =~= views.take(i as int));
            assert(views.take(i + 1).last() == imports@[i as int]@);
        }
        if imports[i].is_in("preview") || imports[i].is_in("local") {
            kept.push(imports[i].clone());
            assert(spec_views(kept@) =~= before.push(imports@[i as int]@));
        }
    }
    assert(views.take(imports.len() as int) =~= views);
    kept
}

fn find_local(imports: &Vec<PackageSpec>) -> (local: Option<&PackageSpec>)
    ensures
        match local {
            Some(spec) => first_local(spec_views(imports@)) == Some(spec@),
            None => first_local(spec_views(imports@)) is None,
        },
{
    let ghost views = spec_views(imports@);
    assert(views.skip(0) =~= views);
    for i in 0..imports.len()
        invariant
            views == spec_views(imports@),
            first_local(views) == first_local(views.skip(i as int)),
    {
        assert(views.skip(i as int)[0] == imports@[i as int]@);
        assert(views.skip(i as int).skip(1) =~= views.skip(i + 1));
        if imports[i].is_in("local") {
            return Some(&imports[i]);
        }
    }
    None
}

fn label_preview(name: &String, version: &String) -> (label: String)
    ensures
        label@ == preview_label(name@, version@),
{
    let mut label = "@preview/".to_owned();
    label.append(name.as_str());
    label.append(":");
    label.append(version.as_str());
    label
}

fn label_local(name: &String) -> (label: String)
    ensures
        label@ == local_label(name@),
{
    let mut label = "@local/".to_owned();
    label.append(name.as_str());
    label
}

/// Says that a `preview` package imports a local one.
pub fn describe_failure(name: &String, version: &String, dependency: &PackageSpec) -> (text: String)
    ensures
        text@ == failure_text(name@, version@, dependency@),
{
    let mut text = label_preview(name, version);
    text.append(" imports ");
    text.append(dependency.to_string().as_str());
    text.append(" \u{2014} a published package cannot depend on local packages");
    text
}

/// Reads the texts in a reply.
pub fn read_reply(reply: AnalyzeReply) -> (event: AnalyzeEvent)
    ensures
        event@ == event_of(reply@),
{
    match reply {
        AnalyzeReply::Found(found) => AnalyzeEvent::Found(found),
        AnalyzeReply::Source(text) => match text {
            Some(t) => AnalyzeEvent::Imports(imports_in(t.as_str())),
            None => {
                let event = AnalyzeEvent::Imports(Vec::new());
                assert(event@->Imports_0 =~= Seq::<SpecView>::empty());
                event
            },
        },
        AnalyzeReply::Manifest(text) => AnalyzeEvent::Manifest(
            match text {
                Some(t) => match Manifest::parse(t.as_str()) {
                    Ok(manifest) => Some(manifest),
                    Err(_) => None,
                },
                None => None,
            },
        ),
        AnalyzeReply::Files(files) => AnalyzeEvent::Imports(find_imports(&files)),
        AnalyzeReply::Answer(yes) => AnalyzeEvent::Answer(yes),
        AnalyzeReply::Cached(files) => AnalyzeEvent::Cached(
            match files {
                Some(f) => Some(find_imports(&f)),
                None => None,
            },
        ),
    }
}

impl State {
    /// Looks for the next package in the first directory.
    fn visit(&mut self)
        ensures
            final(self)@ == visit(old(self)@),
            final(self)@.wf(),
    {
        if self.visited < self.packages.len() && self.caches.len() > 0 {
            let name = self.packages[self.visited].0.clone();
            let version = self.packages[self.visited].1.clone();
            let cache = self.caches[0].clone();
            self.tried = 0;
            self.request = AnalyzeRequest::Probe { cache, name, version };
        } else {
            self.request = AnalyzeRequest::Done;
        }
    }

    /// Takes the next task up.
    fn settle(&mut self)
        ensures
            final(self)@ == settle(old(self)@),
            final(self)@.wf(),
    {
        let ghost before = self@;
        match self.tasks.pop() {
            Some(task) => {
                proof {
                    assert(self@.tasks =~= before.tasks.drop_last());
                    assert(task@ == before.tasks.last());
                }
                match task {
                    Task::Discover(place) => {
                        self.request = AnalyzeRequest::Look(place);
                    },
                    Task::Source { id, name } => {
                        add_file(&mut self.files, &name);
                        self.request = AnalyzeRequest::Read { id, name };
                    },
                    Task::Local { name, place } => {
                        self.request = AnalyzeRequest::ReadManifest { name, place };
                    },
                    Task::Cache(place) => {
                        self.request = AnalyzeRequest::CheckCache(place);
                    },
                }
            },
            None => {
                assert(self@.tasks =~= before.tasks);
                if !self.seeded {
                    self.packages = sort_pairs(&previews(&self.table));
                    self.visited = 0;
                    self.seeded = true;
                }
                self.visit();
            },
        }
    }

    /// Takes what a reply tells, and finds out what is to be read next.
    fn step(self, event: AnalyzeEvent) -> (next: State)
        requires
            self@.wf(),
        ensures
            next@ == step(self@, event@),
            next@.wf(),
    {
        let State {
            table,
            files,
            tasks,
            caches,
            packages,
            visited,
            tried,
            seeded,
            failure,
            request,
        } = self;
        let mut next = State {
            table,
            files,
            tasks,
            caches,
            packages,
            visited,
            tried,
            seeded,
            failure,
            request: AnalyzeRequest::Done,
        };
        match (request, event) {
            (AnalyzeRequest::Look(_), AnalyzeEvent::Found(found)) => {
                push_sources(&mut next.tasks, sources(found));
                next.settle();
            },
            (AnalyzeRequest::Read { id, name }, AnalyzeEvent::Imports(imports)) => {
                add_imports(&mut next.table, &keep_known(&imports), &name, true);
                next.settle();
            },
            (AnalyzeRequest::ReadManifest { name, place }, AnalyzeEvent::Manifest(manifest)) => {
                match manifest {
                    Some(m) => {
                        let label = label_local(&name);
                        let namespace = "local".to_owned();
                        let spec = PackageSpec {
                            namespace,
                            name: name.clone(),
                            version: m.version,
                        };
                        add_import(&mut next.table, &spec, &label, false);
                        next.request = AnalyzeRequest::Walk { name, place };
                    },
                    None => next.settle(),
                }
            },
            (AnalyzeRequest::Walk { name, place }, AnalyzeEvent::Imports(imports)) => {
                add_imports(&mut next.table, &keep_known(&imports), &label_local(&name), false);
                next.settle();
            },
            (AnalyzeRequest::CheckCache(place), AnalyzeEvent::Answer(yes)) => {
                if yes {
                    let ghost before = next@.caches;
                    next.caches.push(place);
                    assert(next@.caches =~= before.push(place@));
                }
                next.settle();
            },
            (AnalyzeRequest::Probe { cache, name, version }, AnalyzeEvent::Cached(cached)) => {
                let (n, m): (usize, usize) = (next.packages.len(), next.caches.len());
                assert(next.visited < n && next.tried < m);
                match cached {
                    Some(imports) => match find_local(&imports) {
                        Some(dependency) => {
                            next.failure = Some(describe_failure(&name, &version, dependency));
                        },
                        None => {
                            let label = label_preview(&name, &version);
                            let kept = keep_known(&imports);
                            add_imports(&mut next.table, &kept, &label, false);
                            add_packages(&mut next.packages, &kept);
                            next.visited = next.visited + 1;
                            next.visit();
                        },
                    },
                    None => {
                        if next.tried + 1 < m {
                            next.tried = next.tried + 1;
                            let cache = next.caches[next.tried].clone();
                            next.request = AnalyzeRequest::Probe { cache, name, version };
                        } else {
                            next.visited = next.visited + 1;
                            next.visit();
                        }
                    },
                }
            },
            (request, _) => {
                next.request = request;
            },
        }
        next
    }
}

impl Analysis {
    #[verifier::type_invariant]
    spec fn sound(self) -> bool {
        self.state@.wf()
    }

    /// What is to be read next.
    pub fn request(&self) -> (request: &AnalyzeRequest)
        ensures
            request@ == self@.request,
    {
        &self.state.request
    }

    /// Takes what came of the request, and finds out what is to be read next.
    pub fn resume(self, reply: AnalyzeReply) -> (next: Analysis)
        ensures
            next@ == step(self@, event_of(reply@)),
    {
        self.step(read_reply(reply))
    }

    /// Takes what a reply tells, and finds out what is to be read next.
    pub fn step(self, event: AnalyzeEvent) -> (next: Analysis)
        ensures
            next@ == step(self@, event@),
    {
        proof {
            use_type_invariant(&self);
        }
        Analysis { state: self.state.step(event) }
    }

    /// The result: the imports and the files, or why the analysis failed.
    pub fn finish(self) -> (result: Result<AnalyzeResult, String>)
        ensures
            match self@.failure {
                Some(text) => result matches Err(e) && e@ == text,
                None => result matches Ok(r) && info_views(r.imports@) == self@.table
                    && text_views(r.files@) == self@.files,
            },
    {
        match self.state.failure {
            Some(text) => Err(text),
            None => Ok(AnalyzeResult { imports: self.state.table, files: self.state.files }),
        }
    }
}

fn list_tasks(config: &Config) -> (tasks: Vec<Task>)
    ensures
        task_views(tasks@) == analysis_tasks(config@),
{
    let mut tasks: Vec<Task> = Vec::new();
    let ghost view = config@;
    let ghost discover = view.discover.map_values(
        |path: Seq<char>| TaskView::Discover(place_of(view, path)),
    );
    let ghost locals = view.local.map_values(
        |pair: (Seq<char>, Seq<char>)|
            TaskView::Local { name: pair.0, place: place_of(view, pair.1) },
    );
    let ghost caches = view.package_cache.map_values(
        |path: Seq<char>| TaskView::Cache(place_of(view, path)),
    );
    for i in 0..config.discover.len()
        invariant
            view == config@,
            discover == view.discover.map_values(
                |path: Seq<char>| TaskView::Discover(place_of(view, path)),
            ),
            task_views(tasks@) == discover.take(i as int),
    {
        let ghost before = task_views(tasks@);
        let task = Task::Discover(config.place(&config.discover[i]));
        tasks.push(task);
        assert(task_views(tasks@) =~= before.push(task@));
        assert(task@ == discover[i as int]);
        assert(task_views(tasks@) =~= discover.take(i + 1));
    }
    let pairs = config.local.pairs();
    assert(task_views(tasks@) =~= discover + locals.take(0));
    for i in 0..pairs.len()
        invariant
            view == config@,
            pair_views(pairs@) == view.local,
            locals == view.local.map_values(
                |pair: (Seq<char>, Seq<char>)|
                    TaskView::Local { name: pair.0, place: place_of(view, pair.1) },
            ),
            task_views(tasks@) == discover + locals.take(i as int),
    {
        assert(view.local[i as int] == (pairs@[i as int].0@, pairs@[i as int].1@));
        let ghost before = task_views(tasks@);
        let task = Task::Local { name: pairs[i].0.clone(), place: config.place(&pairs[i].1) };
        tasks.push(task);
        assert(task_views(tasks@) =~= before.push(task@));
        assert(task@ == locals[i as int]);
        assert(task_views(tasks@) =~= discover + locals.take(i + 1));
    }
    assert(task_views(tasks@) =~= discover + locals + caches.take(0));
    for i in 0..config.package_cache.len()
        invariant
            view == config@,
            caches == view.package_cache.map_values(
                |path: Seq<char>| TaskView::Cache(place_of(view, path)),
            ),
            task_views(tasks@) == discover + locals + caches.take(i as int),
    {
        let ghost before = task_views(tasks@);
        let task = Task::Cache(config.place(&config.package_cache[i]));
        tasks.push(task);
        assert(task_views(tasks@) =~= before.push(task@));
        assert(task@ == caches[i as int]);
        assert(task_views(tasks@) =~= discover + locals + caches.take(i + 1));
    }
    assert(task_views(tasks@) =~= analysis_tasks(config@));
    tasks
}

/// Starts to analyze imports. Nothing is downloaded or copied.
///
/// The paths of the configuration are scanned for imports, then the directories
/// of its local packages. Where directories that hold packages are configured,
/// `preview` packages are followed into them.
pub fn analyze(config: &Config) -> (analysis: Analysis)
    ensures
        analysis@ == start(config@),
{
    let mut tasks: Vec<Task> = Vec::new();
    let list = list_tasks(config);
    let ghost views = task_views(list@);
    pile(&mut tasks, list);
    assert(task_views(tasks@) =~= views.reverse());
    let mut state = State {
        table: Vec::new(),
        files: Vec::new(),
        tasks,
        caches: Vec::new(),
        packages: Vec::new(),
        visited: 0,
        tried: 0,
        seeded: false,
        failure: None,
        request: AnalyzeRequest::Done,
    };
    assert(state@.table =~= Seq::empty());
    assert(state@.files =~= Seq::empty());
    assert(state@.caches =~= Seq::empty());
    assert(state@.packages =~= Seq::empty());
    state.settle();
    Analysis { state }
}

} // verus!
