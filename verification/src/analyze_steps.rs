//! What an analysis asks for, one request after the other, and what it makes of the
//! answers.

use vstd::prelude::*;

use crate::analyze::{
    analysis_tasks, known, local_label, settle, source_tasks, start, step, AnalysisView, EventView, RequestView, TaskView,
};
use crate::analyze_ends::answers;
use crate::analyze_laws::{inv, law_invariant, lemma_run_step, lemma_step_inv, run};
use crate::config::{ConfigView, PlaceView};
use crate::imports::merge_all;
use crate::seqs::{
    chosen, chosen_down, lemma_chosen_all, lemma_chosen_concat, lemma_chosen_none,
    lemma_chosen_push, lemma_chosen_stack, lemma_chosen_top, lemma_push_contains,
};
use crate::world::sources_of;
use crate::world_laws::{law_typ_files_are_scanned, typ_files};

verus! {

/// The requests that were answered, each with its answer, in order.
pub open spec fn heard(s: AnalysisView, events: Seq<EventView>) -> Seq<(RequestView, EventView)>
    decreases events.len(),
{
    if events.len() == 0 {
        Seq::empty()
    } else {
        let before = heard(s, events.drop_last());
        let request = run(s, events.drop_last()).request;
        if answers(request, events.last()) {
            before.push((request, events.last()))
        } else {
            before
        }
    }
}

/// The path that was looked at.
pub open spec fn path_asked() -> spec_fn((RequestView, EventView)) -> Option<PlaceView> {
    |pair: (RequestView, EventView)|
        match pair.0 {
            RequestView::Look(place) => Some(place),
            _ => None,
        }
}

/// The file that was read.
pub open spec fn file_asked() -> spec_fn((RequestView, EventView)) -> Option<(usize, Seq<char>)> {
    |pair: (RequestView, EventView)|
        match pair.0 {
            RequestView::Read { id, name } => Some((id, name)),
            _ => None,
        }
}

/// The local package whose manifest was read, and where.
pub open spec fn local_asked() -> spec_fn((RequestView, EventView)) -> Option<
    (Seq<char>, PlaceView),
> {
    |pair: (RequestView, EventView)|
        match pair.0 {
            RequestView::ReadManifest { name, place } => Some((name, place)),
            _ => None,
        }
}

/// The local package whose manifest could be read, and where.
pub open spec fn local_readable() -> spec_fn((RequestView, EventView)) -> Option<
    (Seq<char>, PlaceView),
> {
    |pair: (RequestView, EventView)|
        match pair {
            (RequestView::ReadManifest { name, place }, EventView::Manifest(Some(_))) => Some(
                (name, place),
            ),
            _ => None,
        }
}

/// The local package whose files were read, and where.
pub open spec fn local_walked() -> spec_fn((RequestView, EventView)) -> Option<
    (Seq<char>, PlaceView),
> {
    |pair: (RequestView, EventView)|
        match pair.0 {
            RequestView::Walk { name, place } => Some((name, place)),
            _ => None,
        }
}

/// The directory that was looked for.
pub open spec fn cache_asked() -> spec_fn((RequestView, EventView)) -> Option<PlaceView> {
    |pair: (RequestView, EventView)|
        match pair.0 {
            RequestView::CheckCache(place) => Some(place),
            _ => None,
        }
}

/// The directory that is there.
pub open spec fn cache_there() -> spec_fn((RequestView, EventView)) -> Option<PlaceView> {
    |pair: (RequestView, EventView)|
        match pair {
            (RequestView::CheckCache(place), EventView::Answer(true)) => Some(place),
            _ => None,
        }
}

/// The files that were found, with the extension `typ`, at all paths that were looked at.
pub open spec fn files_found(pairs: Seq<(RequestView, EventView)>) -> Seq<(usize, Seq<char>)>
    decreases pairs.len(),
{
    if pairs.len() == 0 {
        Seq::empty()
    } else {
        match pairs.last() {
            (RequestView::Look(_), EventView::Found(found)) => files_found(pairs.drop_last())
                + typ_files(found),
            _ => files_found(pairs.drop_last()),
        }
    }
}

/// The names of some files, each once, where it stands first.
pub open spec fn first_names(files: Seq<(usize, Seq<char>)>) -> Seq<Seq<char>>
    decreases files.len(),
{
    if files.len() == 0 {
        Seq::empty()
    } else {
        let before = first_names(files.drop_last());
        if exists|i: int| 0 <= i < before.len() && #[trigger] before[i] == files.last().1 {
            before
        } else {
            before.push(files.last().1)
        }
    }
}

/// The places of some paths, below the root directory of a configuration.
pub open spec fn places(config: ConfigView, paths: Seq<Seq<char>>) -> Seq<PlaceView> {
    Seq::new(paths.len(), |i: int| PlaceView { root: config.rootdir, path: paths[i] })
}

/// The local packages of a configuration, each with its place.
pub open spec fn local_places(config: ConfigView) -> Seq<(Seq<char>, PlaceView)> {
    Seq::new(
        config.local.len(),
        |i: int|
            (config.local[i].0, PlaceView { root: config.rootdir, path: config.local[i].1 }),
    )
}

spec fn path_task() -> spec_fn(TaskView) -> Option<PlaceView> {
    |task: TaskView|
        match task {
            TaskView::Discover(place) => Some(place),
            _ => None,
        }
}

spec fn file_task() -> spec_fn(TaskView) -> Option<(usize, Seq<char>)> {
    |task: TaskView|
        match task {
            TaskView::Source { id, name } => Some((id, name)),
            _ => None,
        }
}

spec fn local_task() -> spec_fn(TaskView) -> Option<(Seq<char>, PlaceView)> {
    |task: TaskView|
        match task {
            TaskView::Local { name, place } => Some((name, place)),
            _ => None,
        }
}

spec fn cache_task() -> spec_fn(TaskView) -> Option<PlaceView> {
    |task: TaskView|
        match task {
            TaskView::Cache(place) => Some(place),
            _ => None,
        }
}

spec fn open_path(request: RequestView) -> Seq<PlaceView> {
    match request {
        RequestView::Look(place) => seq![place],
        _ => Seq::empty(),
    }
}

spec fn open_file(request: RequestView) -> Seq<(usize, Seq<char>)> {
    match request {
        RequestView::Read { id, name } => seq![(id, name)],
        _ => Seq::empty(),
    }
}

spec fn open_local(request: RequestView) -> Seq<(Seq<char>, PlaceView)> {
    match request {
        RequestView::ReadManifest { name, place } => seq![(name, place)],
        _ => Seq::empty(),
    }
}

spec fn open_walk(request: RequestView) -> Seq<(Seq<char>, PlaceView)> {
    match request {
        RequestView::Walk { name, place } => seq![(name, place)],
        _ => Seq::empty(),
    }
}

spec fn open_cache(request: RequestView) -> Seq<PlaceView> {
    match request {
        RequestView::CheckCache(place) => seq![place],
        _ => Seq::empty(),
    }
}

/// Files lie above paths.
spec fn layered(tasks: Seq<TaskView>) -> bool {
    forall|i: int, j: int|
        0 <= i < j < tasks.len() ==> !((#[trigger] tasks[i]) is Source
            && (#[trigger] tasks[j]) is Discover)
}

spec fn no_file(tasks: Seq<TaskView>) -> bool {
    forall|i: int| 0 <= i < tasks.len() ==> !((#[trigger] tasks[i]) is Source)
}

/// What was asked for, with what is still to be asked for.
spec fn ledger(s: AnalysisView, pairs: Seq<(RequestView, EventView)>, config: ConfigView) -> bool {
    &&& chosen(pairs, path_asked()) + open_path(s.request) + chosen_down(s.tasks, path_task())
        == places(config, config.discover)
    &&& chosen(pairs, file_asked()) + open_file(s.request) + chosen_down(s.tasks, file_task())
        == files_found(pairs)
    &&& chosen(pairs, local_asked()) + open_local(s.request) + chosen_down(s.tasks, local_task())
        == local_places(config)
    &&& chosen(pairs, cache_asked()) + open_cache(s.request) + chosen_down(s.tasks, cache_task())
        == places(config, config.package_cache)
    &&& chosen(pairs, local_walked()) + open_walk(s.request) == chosen(pairs, local_readable())
    &&& s.caches == chosen(pairs, cache_there())
    &&& s.files == first_names(chosen(pairs, file_asked()) + open_file(s.request))
    &&& layered(s.tasks)
    &&& s.request is Look ==> no_file(s.tasks)
}

/// What a step leaves to settle.
spec fn unsettled(
    s: AnalysisView,
    pairs: Seq<(RequestView, EventView)>,
    config: ConfigView,
) -> bool {
    &&& chosen(pairs, path_asked()) + chosen_down(s.tasks, path_task()) == places(
        config,
        config.discover,
    )
    &&& chosen(pairs, file_asked()) + chosen_down(s.tasks, file_task()) == files_found(pairs)
    &&& chosen(pairs, local_asked()) + chosen_down(s.tasks, local_task()) == local_places(config)
    &&& chosen(pairs, cache_asked()) + chosen_down(s.tasks, cache_task()) == places(
        config,
        config.package_cache,
    )
    &&& chosen(pairs, local_walked()) == chosen(pairs, local_readable())
    &&& s.caches == chosen(pairs, cache_there())
    &&& s.files == first_names(chosen(pairs, file_asked()))
    &&& layered(s.tasks)
}

proof fn lemma_settle_ledger(
    s: AnalysisView,
    pairs: Seq<(RequestView, EventView)>,
    config: ConfigView,
)
    requires
        unsettled(s, pairs, config),
    ensures
        ledger(settle(s), pairs, config),
{
    let t = settle(s);
    let files = chosen(pairs, file_asked());
    if s.tasks.len() > 0 {
        let last = s.tasks.last();
        assert(last == s.tasks[s.tasks.len() - 1]);
        lemma_chosen_top(s.tasks, path_task());
        lemma_chosen_top(s.tasks, file_task());
        lemma_chosen_top(s.tasks, local_task());
        lemma_chosen_top(s.tasks, cache_task());
        match last {
            TaskView::Source { id, name } => {
                let all = files + open_file(t.request);
                assert(all.drop_last() =~= files);
                assert(all.last() == (id, name));
            },
            _ => {
                assert(files + open_file(t.request) =~= files);
            },
        }
        assert forall|i: int| 0 <= i < t.tasks.len() && t.request is Look implies !((
        #[trigger] t.tasks[i]) is Source) by {
            assert(t.tasks[i] == s.tasks[i]);
        }
    } else {
        assert(files + open_file(t.request) =~= files);
        assert(t.tasks == s.tasks);
    }
    assert(chosen(pairs, path_asked()) + open_path(t.request) + chosen_down(t.tasks, path_task())
        =~= chosen(pairs, path_asked()) + chosen_down(s.tasks, path_task()));
    assert(chosen(pairs, file_asked()) + open_file(t.request) + chosen_down(t.tasks, file_task())
        =~= chosen(pairs, file_asked()) + chosen_down(s.tasks, file_task()));
    assert(chosen(pairs, local_asked()) + open_local(t.request) + chosen_down(
        t.tasks,
        local_task(),
    ) =~= chosen(pairs, local_asked()) + chosen_down(s.tasks, local_task()));
    assert(chosen(pairs, cache_asked()) + open_cache(t.request) + chosen_down(
        t.tasks,
        cache_task(),
    ) =~= chosen(pairs, cache_asked()) + chosen_down(s.tasks, cache_task()));
    assert(chosen(pairs, local_walked()) + open_walk(t.request) =~= chosen(
        pairs,
        local_walked(),
    ));
}

proof fn lemma_file_tasks(tasks: Seq<TaskView>, files: Seq<(usize, Seq<char>)>)
    requires
        layered(tasks),
        no_file(tasks),
    ensures
        layered(tasks + source_tasks(files)),
        chosen_down(tasks + source_tasks(files), path_task()) == chosen_down(tasks, path_task()),
        chosen_down(tasks + source_tasks(files), file_task()) == files,
        chosen_down(tasks + source_tasks(files), local_task()) == chosen_down(tasks, local_task()),
        chosen_down(tasks + source_tasks(files), cache_task()) == chosen_down(tasks, cache_task()),
{
    let more = source_tasks(files);
    let down = more.reverse();
    lemma_chosen_stack(tasks, more, path_task());
    lemma_chosen_stack(tasks, more, file_task());
    lemma_chosen_stack(tasks, more, local_task());
    lemma_chosen_stack(tasks, more, cache_task());
    assert(forall|i: int|
        0 <= i < down.len() ==> (#[trigger] down[i]) == (TaskView::Source {
            id: files[i].0,
            name: files[i].1,
        }));
    assert(forall|i: int| 0 <= i < more.len() ==> (#[trigger] more[i]) is Source);
    lemma_chosen_none(down, path_task());
    lemma_chosen_none(down, local_task());
    lemma_chosen_none(down, cache_task());
    lemma_chosen_all(down, file_task(), files);
    lemma_no_file(tasks);
    assert(chosen_down(more, path_task()) + chosen_down(tasks, path_task()) =~= chosen_down(
        tasks,
        path_task(),
    ));
    assert(chosen_down(more, file_task()) + chosen_down(tasks, file_task()) =~= files);
    assert(chosen_down(more, local_task()) + chosen_down(tasks, local_task()) =~= chosen_down(
        tasks,
        local_task(),
    ));
    assert(chosen_down(more, cache_task()) + chosen_down(tasks, cache_task()) =~= chosen_down(
        tasks,
        cache_task(),
    ));
}

proof fn lemma_no_file(tasks: Seq<TaskView>)
    requires
        no_file(tasks),
    ensures
        chosen_down(tasks, file_task()) == Seq::<(usize, Seq<char>)>::empty(),
{
    assert(forall|i: int|
        0 <= i < tasks.len() ==> (#[trigger] tasks.reverse()[i]) == tasks[tasks.len() - 1 - i]);
    lemma_chosen_none(tasks.reverse(), file_task());
}

proof fn lemma_step_ledger(
    s: AnalysisView,
    event: EventView,
    pairs: Seq<(RequestView, EventView)>,
    config: ConfigView,
)
    requires
        inv(s),
        ledger(s, pairs, config),
        answers(s.request, event),
    ensures
        ledger(step(s, event), pairs.push((s.request, event)), config),
{
    let pair = (s.request, event);
    let more = pairs.push(pair);
    let t = step(s, event);
    lemma_chosen_push(pairs, pair, path_asked());
    lemma_chosen_push(pairs, pair, file_asked());
    lemma_chosen_push(pairs, pair, local_asked());
    lemma_chosen_push(pairs, pair, local_walked());
    lemma_chosen_push(pairs, pair, local_readable());
    lemma_chosen_push(pairs, pair, cache_asked());
    lemma_chosen_push(pairs, pair, cache_there());
    assert(more.drop_last() =~= pairs);
    assert(chosen(more, path_asked()) =~= chosen(pairs, path_asked()) + open_path(s.request));
    assert(chosen(more, file_asked()) =~= chosen(pairs, file_asked()) + open_file(s.request));
    assert(chosen(more, local_asked()) =~= chosen(pairs, local_asked()) + open_local(s.request));
    assert(chosen(more, cache_asked()) =~= chosen(pairs, cache_asked()) + open_cache(s.request));
    assert(chosen(more, local_walked()) =~= chosen(pairs, local_walked()) + open_walk(s.request));
    match (s.request, event) {
        (RequestView::Look(place), EventView::Found(found)) => {
            let next = AnalysisView { tasks: s.tasks + source_tasks(sources_of(found)), ..s };
            law_typ_files_are_scanned(found);
            lemma_file_tasks(s.tasks, sources_of(found));
            lemma_no_file(s.tasks);
            assert(files_found(more) =~= chosen(more, file_asked()) + typ_files(found));
            assert(unsettled(next, more, config));
            lemma_settle_ledger(next, more, config);
        },
        (RequestView::Read { id, name }, EventView::Imports(imports)) => {
            let next = AnalysisView { table: merge_all(s.table, known(imports), name, true), ..s };
            assert(unsettled(next, more, config));
            lemma_settle_ledger(next, more, config);
        },
        (RequestView::ReadManifest { name, place }, EventView::Manifest(manifest)) => match manifest {
            Some(m) => {
                assert(t.tasks == s.tasks);
                assert(chosen(more, local_walked()) + open_walk(t.request) =~= chosen(
                    more,
                    local_readable(),
                ));
                assert(chosen(more, file_asked()) + open_file(t.request) =~= chosen(
                    more,
                    file_asked(),
                ));
                assert(chosen(more, path_asked()) + open_path(t.request) =~= chosen(
                    more,
                    path_asked(),
                ));
                assert(chosen(more, local_asked()) + open_local(t.request) =~= chosen(
                    more,
                    local_asked(),
                ));
                assert(chosen(more, cache_asked()) + open_cache(t.request) =~= chosen(
                    more,
                    cache_asked(),
                ));
            },
            None => {
                assert(unsettled(s, more, config));
                lemma_settle_ledger(s, more, config);
            },
        },
        (RequestView::Walk { name, place }, EventView::Imports(imports)) => {
            let next = AnalysisView {
                table: merge_all(s.table, known(imports), local_label(name), false),
                ..s
            };
            assert(unsettled(next, more, config));
            lemma_settle_ledger(next, more, config);
        },
        (RequestView::CheckCache(place), EventView::Answer(yes)) => {
            let next = if yes {
                AnalysisView { caches: s.caches.push(place), ..s }
            } else {
                s
            };
            assert(unsettled(next, more, config));
            lemma_settle_ledger(next, more, config);
        },
        (RequestView::Probe { cache, name, version }, EventView::Cached(cached)) => {
            assert(t.tasks == s.tasks && t.caches == s.caches && t.files == s.files);
            assert(t.request is Probe || t.request is Done);
            assert(ledger(t, more, config));
        },
        _ => {},
    }
}

proof fn lemma_run_ledger(config: ConfigView, events: Seq<EventView>)
    ensures
        ledger(run(start(config), events), heard(start(config), events), config),
    decreases events.len(),
{
    let s0 = start(config);
    if events.len() == 0 {
        let all = analysis_tasks(config);
        let s = AnalysisView {
            table: Seq::empty(),
            files: Seq::empty(),
            tasks: all.reverse(),
            caches: Seq::empty(),
            packages: Seq::empty(),
            visited: 0,
            tried: 0,
            seeded: false,
            failure: None,
            request: RequestView::Done,
        };
        let pairs = Seq::<(RequestView, EventView)>::empty();
        let d = config.discover.len() as int;
        let l = config.local.len() as int;
        let c = config.package_cache.len() as int;
        let first = all.take(d);
        let second = all.subrange(d, d + l);
        let third = all.skip(d + l);
        assert(all =~= first + (second + third));
        assert(s.tasks.reverse() =~= all);
        assert(forall|i: int|
            0 <= i < d ==> (#[trigger] first[i]) == TaskView::Discover(
                places(config, config.discover)[i],
            ));
        assert(forall|i: int|
            0 <= i < l ==> (#[trigger] second[i]) == (TaskView::Local {
                name: local_places(config)[i].0,
                place: local_places(config)[i].1,
            }));
        assert(forall|i: int|
            0 <= i < c ==> (#[trigger] third[i]) == TaskView::Cache(
                places(config, config.package_cache)[i],
            ));
        lemma_three(first, second, third, path_task());
        lemma_three(first, second, third, file_task());
        lemma_three(first, second, third, local_task());
        lemma_three(first, second, third, cache_task());
        lemma_chosen_all(first, path_task(), places(config, config.discover));
        lemma_chosen_all(second, local_task(), local_places(config));
        lemma_chosen_all(third, cache_task(), places(config, config.package_cache));
        lemma_chosen_none(first, file_task());
        lemma_chosen_none(first, local_task());
        lemma_chosen_none(first, cache_task());
        lemma_chosen_none(second, path_task());
        lemma_chosen_none(second, file_task());
        lemma_chosen_none(second, cache_task());
        lemma_chosen_none(third, path_task());
        lemma_chosen_none(third, file_task());
        lemma_chosen_none(third, local_task());
        assert forall|i: int| 0 <= i < s.tasks.len() implies !((
        #[trigger] s.tasks[i]) is Source) by {
            let j = all.len() - 1 - i;
            assert(s.tasks[i] == all[j]);
            if j < d {
                assert(all[j] == first[j]);
            } else if j < d + l {
                assert(all[j] == second[j - d]);
            } else {
                assert(all[j] == third[j - d - l]);
            }
        }
        assert(chosen(pairs, path_asked()) + chosen_down(s.tasks, path_task()) =~= places(
            config,
            config.discover,
        ));
        assert(chosen(pairs, file_asked()) + chosen_down(s.tasks, file_task()) =~= files_found(
            pairs,
        ));
        assert(chosen(pairs, local_asked()) + chosen_down(s.tasks, local_task()) =~= local_places(
            config,
        ));
        assert(chosen(pairs, cache_asked()) + chosen_down(s.tasks, cache_task()) =~= places(
            config,
            config.package_cache,
        ));
        assert(chosen(pairs, local_walked()) =~= chosen(pairs, local_readable()));
        assert(s.caches =~= chosen(pairs, cache_there()));
        assert(s.files =~= first_names(chosen(pairs, file_asked())));
        lemma_settle_ledger(s, pairs, config);
    } else {
        let front = events.drop_last();
        lemma_run_ledger(config, front);
        law_invariant(config, front);
        if answers(run(s0, front).request, events.last()) {
            lemma_step_ledger(run(s0, front), events.last(), heard(s0, front), config);
        } else {
            lemma_unanswered(run(s0, front), events.last());
        }
    }
}

proof fn lemma_three<B>(
    a: Seq<TaskView>,
    b: Seq<TaskView>,
    c: Seq<TaskView>,
    make: spec_fn(TaskView) -> Option<B>,
)
    ensures
        chosen(a + (b + c), make) == chosen(a, make) + (chosen(b, make) + chosen(c, make)),
{
    lemma_chosen_concat(b, c, make);
    lemma_chosen_concat(a, b + c, make);
}

pub(crate) proof fn lemma_unanswered(s: AnalysisView, event: EventView)
    requires
        !answers(s.request, event),
    ensures
        step(s, event) == s,
{
}

/// In the end, every path was looked at once, in the order given, and every file with the
/// extension `typ` that was found was read once, in the order in which it was found; the
/// files of the result are their names, each once, in that order.
pub proof fn law_all_is_scanned_in_order(config: ConfigView, events: Seq<EventView>)
    requires
        run(start(config), events).request is Done,
    ensures
        ({
            let pairs = heard(start(config), events);
            &&& chosen(pairs, path_asked()) == places(config, config.discover)
            &&& chosen(pairs, file_asked()) == files_found(pairs)
            &&& run(start(config), events).files == first_names(files_found(pairs))
        }),
{
    let pairs = heard(start(config), events);
    let s = run(start(config), events);
    lemma_run_ledger(config, events);
    law_invariant(config, events);
    assert(s.tasks.reverse() =~= Seq::empty());
    assert(chosen(pairs, path_asked()) =~= places(config, config.discover));
    assert(chosen(pairs, file_asked()) =~= files_found(pairs));
    assert(chosen(pairs, file_asked()) + open_file(s.request) =~= files_found(pairs));
}

/// In the end, the manifest of every local package was read once, in the order of the
/// configuration; and so were the files of every local package whose manifest could be
/// read, from the place where the manifest is, whatever was found before.
pub proof fn law_every_local_package_is_scanned(config: ConfigView, events: Seq<EventView>)
    requires
        run(start(config), events).request is Done,
    ensures
        ({
            let pairs = heard(start(config), events);
            &&& chosen(pairs, local_asked()) == local_places(config)
            &&& chosen(pairs, local_walked()) == chosen(pairs, local_readable())
        }),
{
    let pairs = heard(start(config), events);
    let s = run(start(config), events);
    lemma_run_ledger(config, events);
    law_invariant(config, events);
    assert(s.tasks.reverse() =~= Seq::empty());
    assert(chosen(pairs, local_asked()) =~= local_places(config));
    assert(chosen(pairs, local_walked()) =~= chosen(pairs, local_readable()));
}

/// Once the manifest of a local package could be read, the next thing to read is the
/// files of that package.
pub proof fn law_readable_package_is_walked(s: AnalysisView, events: Seq<EventView>, k: int)
    requires
        0 <= k < events.len(),
        run(s, events.take(k)).request is ReadManifest,
        events[k] is Manifest,
        events[k]->Manifest_0 is Some,
    ensures
        run(s, events.take(k + 1)).request == (RequestView::Walk {
            name: run(s, events.take(k)).request->ReadManifest_name,
            place: run(s, events.take(k)).request->ReadManifest_place,
        }),
{
    lemma_run_step(s, events, k);
}

/// In the end, every directory that holds packages was looked for once, in the order of
/// the configuration, and those that are there are used, in that order.
pub proof fn law_every_directory_is_looked_for(config: ConfigView, events: Seq<EventView>)
    requires
        run(start(config), events).request is Done,
    ensures
        ({
            let pairs = heard(start(config), events);
            &&& chosen(pairs, cache_asked()) == places(config, config.package_cache)
            &&& run(start(config), events).caches == chosen(pairs, cache_there())
        }),
{
    let pairs = heard(start(config), events);
    let s = run(start(config), events);
    lemma_run_ledger(config, events);
    law_invariant(config, events);
    assert(s.tasks.reverse() =~= Seq::empty());
    assert(chosen(pairs, cache_asked()) =~= places(config, config.package_cache));
}

/// Whether the answers say that a package is in none of some directories, or in one of
/// them and in none before it.
pub open spec fn searched(
    pairs: Seq<(RequestView, EventView)>,
    caches: Seq<PlaceView>,
    name: Seq<char>,
    version: Seq<char>,
) -> bool {
    ||| absent(pairs, caches, name, version)
    ||| exists|m: int|
        0 <= m < caches.len() && absent(pairs, #[trigger] caches.take(m), name, version) && present(
            pairs,
            caches[m],
            name,
            version,
        )
}

/// Whether the answers say that a package is in none of some directories.
pub open spec fn absent(
    pairs: Seq<(RequestView, EventView)>,
    caches: Seq<PlaceView>,
    name: Seq<char>,
    version: Seq<char>,
) -> bool {
    forall|j: int|
        0 <= j < caches.len() ==> pairs.contains(
            (
                RequestView::Probe { cache: #[trigger] caches[j], name, version },
                EventView::Cached(None),
            ),
        )
}

/// Whether the answers say that a package is in a directory.
pub open spec fn present(
    pairs: Seq<(RequestView, EventView)>,
    cache: PlaceView,
    name: Seq<char>,
    version: Seq<char>,
) -> bool {
    exists|imports|
        #[trigger] pairs.contains(
            (RequestView::Probe { cache, name, version }, EventView::Cached(Some(imports))),
        )
}

proof fn lemma_absent_push(
    pairs: Seq<(RequestView, EventView)>,
    pair: (RequestView, EventView),
    caches: Seq<PlaceView>,
    name: Seq<char>,
    version: Seq<char>,
)
    requires
        absent(pairs, caches, name, version),
    ensures
        absent(pairs.push(pair), caches, name, version),
{
    assert forall|j: int| 0 <= j < caches.len() implies pairs.push(pair).contains(
        (
            RequestView::Probe { cache: #[trigger] caches[j], name, version },
            EventView::Cached(None),
        ),
    ) by {
        let item = (
            RequestView::Probe { cache: caches[j], name, version },
            EventView::Cached(None),
        );
        lemma_push_contains(pairs, pair, item);
    }
}

proof fn lemma_searched_push(
    pairs: Seq<(RequestView, EventView)>,
    pair: (RequestView, EventView),
    caches: Seq<PlaceView>,
    name: Seq<char>,
    version: Seq<char>,
)
    requires
        searched(pairs, caches, name, version),
    ensures
        searched(pairs.push(pair), caches, name, version),
{
    if absent(pairs, caches, name, version) {
        lemma_absent_push(pairs, pair, caches, name, version);
    } else {
        let m = choose|m: int|
            0 <= m < caches.len() && absent(pairs, #[trigger] caches.take(m), name, version)
                && present(pairs, caches[m], name, version);
        lemma_absent_push(pairs, pair, caches.take(m), name, version);
        let imports = choose|imports|
            #[trigger] pairs.contains(
                (
                    RequestView::Probe { cache: caches[m], name, version },
                    EventView::Cached(Some(imports)),
                ),
            );
        lemma_push_contains(
            pairs,
            pair,
            (
                RequestView::Probe { cache: caches[m], name, version },
                EventView::Cached(Some(imports)),
            ),
        );
        assert(present(pairs.push(pair), caches[m], name, version));
        assert(absent(pairs.push(pair), caches.take(m), name, version));
    }
}

spec fn search_so_far(s: AnalysisView, pairs: Seq<(RequestView, EventView)>) -> bool {
    &&& forall|v: int|
        0 <= v < s.visited ==> searched(
            pairs,
            s.caches,
            (#[trigger] s.packages[v]).0,
            s.packages[v].1,
        )
    &&& s.request is Probe ==> absent(
        pairs,
        s.caches.take(s.tried as int),
        s.packages[s.visited as int].0,
        s.packages[s.visited as int].1,
    )
}

proof fn lemma_step_search(
    s: AnalysisView,
    event: EventView,
    pairs: Seq<(RequestView, EventView)>,
)
    requires
        inv(s),
        search_so_far(s, pairs),
        answers(s.request, event),
    ensures
        step(s, event).failure is None ==> search_so_far(
            step(s, event),
            pairs.push((s.request, event)),
        ),
{
    let pair = (s.request, event);
    let more = pairs.push(pair);
    let t = step(s, event);
    lemma_step_inv(s, event);
    lemma_push_contains(pairs, pair, pair);
    if t.failure is None {
        match s.request {
            RequestView::Probe { cache, name, version } => {
                let v = s.visited as int;
                assert(t.caches == s.caches);
                assert(s.packages.is_prefix_of(t.packages));
                match event->Cached_0 {
                    Some(imports) => {
                        let m = s.tried as int;
                        lemma_absent_push(pairs, pair, s.caches.take(m), name, version);
                        assert(more.contains(
                            (
                                RequestView::Probe { cache: s.caches[m], name, version },
                                EventView::Cached(Some(imports)),
                            ),
                        ));
                        assert(present(more, s.caches[m], name, version));
                        assert(searched(more, s.caches, name, version));
                        assert(t.visited == s.visited + 1);
                    },
                    None => {
                        let m = s.tried as int;
                        lemma_absent_push(pairs, pair, s.caches.take(m), name, version);
                        assert(absent(more, s.caches.take(m + 1), name, version)) by {
                            let wider = s.caches.take(m + 1);
                            assert forall|j: int| 0 <= j < wider.len() implies more.contains(
                                (
                                    RequestView::Probe {
                                        cache: #[trigger] wider[j],
                                        name,
                                        version,
                                    },
                                    EventView::Cached(None),
                                ),
                            ) by {
                                if j < m {
                                    assert(s.caches.take(m)[j] == wider[j]);
                                }
                            }
                        }
                        if m + 1 == s.caches.len() {
                            assert(s.caches.take(m + 1) =~= s.caches);
                            assert(searched(more, s.caches, name, version));
                        }
                    },
                }
                assert forall|i: int| 0 <= i < t.visited implies searched(
                    more,
                    t.caches,
                    (#[trigger] t.packages[i]).0,
                    t.packages[i].1,
                ) by {
                    if i < s.visited {
                        assert(t.packages[i] == s.packages[i]);
                        lemma_searched_push(
                            pairs,
                            pair,
                            s.caches,
                            s.packages[i].0,
                            s.packages[i].1,
                        );
                    } else {
                        assert(t.packages[i] == s.packages[v]);
                    }
                }
                if t.request is Probe && t.tried == 0 {
                    assert(t.caches.take(0) =~= Seq::empty());
                }
            },
            _ => {
                assert(s.visited == 0);
                assert(t.visited == 0);
                if t.request is Probe {
                    assert(t.tried == 0);
                    assert(t.caches.take(0) =~= Seq::empty());
                }
            },
        }
    }
}

proof fn lemma_run_search(config: ConfigView, events: Seq<EventView>)
    requires
        run(start(config), events).failure is None,
    ensures
        search_so_far(run(start(config), events), heard(start(config), events)),
    decreases events.len(),
{
    let s0 = start(config);
    law_invariant(config, events);
    if events.len() == 0 {
        assert(s0.caches.len() == 0);
        assert(!(s0.request is Probe));
    } else {
        let front = events.drop_last();
        law_invariant(config, front);
        lemma_step_inv(run(s0, front), events.last());
        lemma_run_search(config, front);
        if answers(run(s0, front).request, events.last()) {
            lemma_step_search(run(s0, front), events.last(), heard(s0, front));
        } else {
            lemma_unanswered(run(s0, front), events.last());
        }
    }
}

/// In the end, if the analysis did not fail, each `preview` package in the table was
/// looked for in the directories that are there, one after the other, until it was found
/// or there was none left.
pub proof fn law_packages_are_searched(config: ConfigView, events: Seq<EventView>, i: int)
    requires
        run(start(config), events).request is Done,
        run(start(config), events).failure is None,
        0 <= i < run(start(config), events).table.len(),
        run(start(config), events).table[i].namespace == "preview"@,
    ensures
        ({
            let pairs = heard(start(config), events);
            let info = run(start(config), events).table[i];
            searched(pairs, chosen(pairs, cache_there()), info.name, info.version)
        }),
{
    let s = run(start(config), events);
    let pairs = heard(start(config), events);
    let info = s.table[i];
    law_invariant(config, events);
    law_every_directory_is_looked_for(config, events);
    lemma_run_search(config, events);
    assert(s.packages.contains((info.name, info.version)));
    let v = choose|v: int| 0 <= v < s.packages.len() && s.packages[v] == (info.name, info.version);
    if s.caches.len() == 0 {
        assert(absent(pairs, s.caches, info.name, info.version));
    } else {
        assert(s.visited == s.packages.len());
        assert(searched(pairs, s.caches, s.packages[v].0, s.packages[v].1));
    }
}

} // verus!
