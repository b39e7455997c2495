//! An analysis scans all that it is to scan.

use vstd::prelude::*;

use crate::analyze::{
    analysis_tasks, known, local_label, settle, source_tasks, start, step, with_file, AnalysisView,
    EventView, RequestView, TaskView,
};
use crate::analyze_laws::{inv, law_invariant, lemma_run_step, lemma_step_inv, run};
use crate::config::ConfigView;
use crate::imports::merge_all;
use crate::seqs::lemma_concat_contains;
use crate::world::sources_of;

verus! {

/// The request with which a task begins.
pub open spec fn request_of(task: TaskView) -> RequestView {
    match task {
        TaskView::Discover(place) => RequestView::Look(place),
        TaskView::Source { id, name } => RequestView::Read { id, name },
        TaskView::Local { name, place } => RequestView::ReadManifest { name, place },
        TaskView::Cache(place) => RequestView::CheckCache(place),
    }
}

/// Whether a task is still to be done, or is begun.
pub open spec fn waits(s: AnalysisView, task: TaskView) -> bool {
    s.tasks.contains(task) || s.request == request_of(task)
}

proof fn lemma_settle_waits(s: AnalysisView, task: TaskView)
    requires
        s.tasks.contains(task),
    ensures
        waits(settle(s), task),
{
    let k = choose|k: int| 0 <= k < s.tasks.len() && s.tasks[k] == task;
    if k < s.tasks.len() - 1 {
        assert(s.tasks.drop_last()[k] == task);
    }
}

proof fn lemma_step_waits(s: AnalysisView, event: EventView, task: TaskView)
    requires
        inv(s),
        s.tasks.contains(task),
    ensures
        waits(step(s, event), task),
{
    match (s.request, event) {
        (RequestView::Look(place), EventView::Found(found)) => {
            let more = source_tasks(sources_of(found));
            lemma_concat_contains(s.tasks, more, task);
            lemma_settle_waits(AnalysisView { tasks: s.tasks + more, ..s }, task);
        },
        (RequestView::Read { id, name }, EventView::Imports(imports)) => {
            lemma_settle_waits(
                AnalysisView { table: merge_all(s.table, known(imports), name, true), ..s },
                task,
            );
        },
        (RequestView::ReadManifest { name, place }, EventView::Manifest(manifest)) => {
            lemma_settle_waits(s, task);
        },
        (RequestView::Walk { name, place }, EventView::Imports(imports)) => {
            lemma_settle_waits(
                AnalysisView {
                    table: merge_all(s.table, known(imports), local_label(name), false),
                    ..s
                },
                task,
            );
        },
        (RequestView::CheckCache(place), EventView::Answer(yes)) => {
            lemma_settle_waits(s, task);
            lemma_settle_waits(AnalysisView { caches: s.caches.push(place), ..s }, task);
        },
        _ => {},
    }
}

/// Whether a request is made between two events.
pub open spec fn requested(
    s: AnalysisView,
    events: Seq<EventView>,
    from: int,
    request: RequestView,
) -> bool {
    exists|j: int|
        from <= j <= events.len() && (#[trigger] run(s, events.take(j))).request == request
}

proof fn lemma_run_waits(
    config: ConfigView,
    events: Seq<EventView>,
    k: int,
    n: int,
    task: TaskView,
)
    requires
        0 <= k <= n <= events.len(),
        waits(run(start(config), events.take(k)), task),
    ensures
        run(start(config), events.take(n)).tasks.contains(task) || requested(
            start(config),
            events,
            k,
            request_of(task),
        ),
    decreases n,
{
    let s0 = start(config);
    if run(s0, events.take(n)).request == request_of(task) {
    } else if k < n {
        lemma_run_waits(config, events, k, n - 1, task);
        let s = run(s0, events.take(n - 1));
        if s.tasks.contains(task) {
            law_invariant(config, events.take(n - 1));
            lemma_run_step(s0, events, n - 1);
            lemma_step_waits(s, events[n - 1], task);
        }
    }
}

/// In the end, every path to scan was looked at, every local package was looked
/// into, and every directory that holds packages was looked for.
pub proof fn law_everything_is_scanned(config: ConfigView, events: Seq<EventView>, i: int)
    requires
        0 <= i < analysis_tasks(config).len(),
        run(start(config), events).request is Done,
    ensures
        requested(start(config), events, 0, request_of(analysis_tasks(config)[i])),
{
    let s0 = start(config);
    let task = analysis_tasks(config)[i];
    let tasks = analysis_tasks(config).reverse();
    assert(tasks[tasks.len() - 1 - i] == task);
    lemma_settle_waits(
        AnalysisView {
            table: Seq::empty(),
            files: Seq::empty(),
            tasks,
            caches: Seq::empty(),
            packages: Seq::empty(),
            visited: 0,
            tried: 0,
            seeded: false,
            failure: None,
            request: RequestView::Done,
        },
        task,
    );
    assert(events.take(0) =~= Seq::empty());
    lemma_run_waits(config, events, 0, events.len() as int, task);
    assert(events.take(events.len() as int) =~= events);
    law_invariant(config, events);
}

/// In the end, every source file that was found at a path was read.
pub proof fn law_sources_are_read(config: ConfigView, events: Seq<EventView>, k: int, i: int)
    requires
        0 <= k < events.len(),
        run(start(config), events.take(k)).request is Look,
        events[k] is Found,
        0 <= i < sources_of(events[k]->Found_0).len(),
        run(start(config), events).request is Done,
    ensures
        requested(
            start(config),
            events,
            k + 1,
            RequestView::Read {
                id: sources_of(events[k]->Found_0)[i].0,
                name: sources_of(events[k]->Found_0)[i].1,
            },
        ),
{
    let s0 = start(config);
    let s = run(s0, events.take(k));
    let files = sources_of(events[k]->Found_0);
    let task = TaskView::Source { id: files[i].0, name: files[i].1 };
    assert(source_tasks(files)[files.len() - 1 - i] == task);
    lemma_concat_contains(s.tasks, source_tasks(files), task);
    lemma_settle_waits(AnalysisView { tasks: s.tasks + source_tasks(files), ..s }, task);
    lemma_run_step(s0, events, k);
    lemma_run_waits(config, events, k + 1, events.len() as int, task);
    assert(events.take(events.len() as int) =~= events);
    law_invariant(config, events);
}

/// Whether a file of a name was to be read.
pub open spec fn read(s: AnalysisView, events: Seq<EventView>, name: Seq<char>) -> bool {
    exists|j: int|
        0 <= j <= events.len() && reads((#[trigger] run(s, events.take(j))).request, name)
}

/// Whether a request is to read a file of a name.
pub open spec fn reads(request: RequestView, name: Seq<char>) -> bool {
    request matches RequestView::Read { id, name: n } && n == name
}

proof fn lemma_step_files(s: AnalysisView, event: EventView)
    ensures
        ({
            let t = step(s, event);
            t.files == s.files || (t.request is Read && t.files == with_file(
                s.files,
                t.request->Read_name,
            ))
        }),
{
}

/// The files of the result are exactly those that were read.
pub proof fn law_files_are_those_read(config: ConfigView, events: Seq<EventView>, name: Seq<char>)
    ensures
        run(start(config), events).files.contains(name) <==> read(start(config), events, name),
    decreases events.len(),
{
    let s0 = start(config);
    let t = run(s0, events);
    assert(events.take(events.len() as int) =~= events);
    law_invariant(config, events);
    if reads(t.request, name) {
        assert(reads(run(s0, events.take(events.len() as int)).request, name));
    }
    if events.len() == 0 {
        if t.files.contains(name) {
            assert(t.files.len() > 0);
            assert(t.files =~= seq![name]);
            assert(reads(t.request, name));
        }
    } else {
        let front = events.drop_last();
        let s = run(s0, front);
        law_files_are_those_read(config, front, name);
        law_invariant(config, front);
        lemma_step_inv(s, events.last());
        lemma_step_files(s, events.last());
        if read(s0, front, name) {
            let j = choose|j: int|
                0 <= j <= front.len() && reads((#[trigger] run(s0, front.take(j))).request, name);
            assert(front.take(j) =~= events.take(j));
            assert(reads(run(s0, events.take(j)).request, name));
            let k = choose|k: int| 0 <= k < s.files.len() && s.files[k] == name;
            assert(t.files[k] == name);
        }
        if read(s0, events, name) && !reads(t.request, name) {
            let j = choose|j: int|
                0 <= j <= events.len() && reads((#[trigger] run(s0, events.take(j))).request, name);
            assert(j < events.len());
            assert(front.take(j) =~= events.take(j));
            assert(reads(run(s0, front.take(j)).request, name));
        }
        if t.files.contains(name) && !s.files.contains(name) {
            assert(reads(t.request, name));
        }
    }
}

} // verus!
