//! Where the entries of an analysis come from.

use vstd::prelude::*;

use crate::analyze::{
    analysis_tasks, first_local, known, local_label, preview_label, settle, source_tasks, start,
    step, AnalysisView, EventView, RequestView, TaskView,
};
use crate::analyze_laws::{
    inv, law_direct_wins, law_invariant, lemma_among_known, lemma_run_step, names_first_file, run,
};
use crate::config::{place_of, ConfigView};
use crate::gather::local_spec;
use crate::import_laws::{among, law_merge, law_merge_all};
use crate::imports::{is_for, merge, merge_all, InfoView};
use crate::world::sources_of;

verus! {

/// Whether an event tells of the package of an entry, and the source of the entry is
/// the package that it comes from: a local package itself, or a local package or one
/// that was found in a directory that imports it.
pub open spec fn tells_of(request: RequestView, event: EventView, info: InfoView) -> bool {
    match (request, event) {
        (RequestView::ReadManifest { name, place }, EventView::Manifest(Some(m))) => is_for(
            info,
            local_spec(name, m.version),
        ) && info.source == local_label(name),
        (RequestView::Walk { name, place }, EventView::Imports(imports)) => among(info, imports)
            && info.source == local_label(name),
        (
            RequestView::Probe { cache, name, version },
            EventView::Cached(Some(imports)),
        ) => first_local(imports) is None && among(info, imports) && info.source == preview_label(
            name,
            version,
        ),
        _ => false,
    }
}

/// Whether the event at `k` is where an entry comes from.
pub open spec fn comes_from(
    s: AnalysisView,
    events: Seq<EventView>,
    k: int,
    info: InfoView,
) -> bool {
    0 <= k < events.len() && tells_of(run(s, events.take(k)).request, events[k], info)
}

/// Whether an entry names the package that it comes from.
pub open spec fn names_a_package(s: AnalysisView, events: Seq<EventView>, info: InfoView) -> bool {
    exists|k: int| #[trigger] comes_from(s, events, k, info)
}

proof fn lemma_step_origins(s: AnalysisView, event: EventView, i: int)
    requires
        inv(s),
        0 <= i < step(s, event).table.len(),
        !step(s, event).table[i].direct,
    ensures
        (i < s.table.len() && step(s, event).table[i] == s.table[i]) || tells_of(
            s.request,
            event,
            step(s, event).table[i],
        ),
{
    let info = step(s, event).table[i];
    match (s.request, event) {
        (RequestView::Read { id, name }, EventView::Imports(imports)) => {
            law_merge_all(s.table, known(imports), name, true);
            let merged = merge_all(s.table, known(imports), name, true);
            assert(info == merged[i]);
        },
        (RequestView::ReadManifest { name, place }, EventView::Manifest(Some(m))) => {
            law_merge(s.table, local_spec(name, m.version), local_label(name), false);
            let merged = merge(s.table, local_spec(name, m.version), local_label(name), false);
            assert(info == merged[i]);
        },
        (RequestView::Walk { name, place }, EventView::Imports(imports)) => {
            law_merge_all(s.table, known(imports), local_label(name), false);
            let merged = merge_all(s.table, known(imports), local_label(name), false);
            assert(info == merged[i]);
            lemma_among_known(info, imports);
        },
        (
            RequestView::Probe { cache, name, version },
            EventView::Cached(Some(imports)),
        ) => {
            let label = preview_label(name, version);
            law_merge_all(s.table, known(imports), label, false);
            if first_local(imports) is None {
                let merged = merge_all(s.table, known(imports), label, false);
                assert(info == merged[i]);
                lemma_among_known(info, imports);
            }
        },
        _ => {},
    }
}

/// Nothing is listed but what a scanned file or a package imports, and the configured
/// local packages themselves: an entry that is direct names the first scanned file that
/// imports its package, and any other names the package that it comes from.
pub proof fn law_every_entry_names_its_source(config: ConfigView, events: Seq<EventView>, i: int)
    requires
        0 <= i < run(start(config), events).table.len(),
    ensures
        ({
            let info = run(start(config), events).table[i];
            if info.direct {
                names_first_file(start(config), events, info)
            } else {
                names_a_package(start(config), events, info)
            }
        }),
    decreases events.len(),
{
    let s0 = start(config);
    let t = run(s0, events);
    let info = t.table[i];
    law_direct_wins(config, events, i);
    if !info.direct {
        assert(events.len() > 0);
        let front = events.drop_last();
        let s = run(s0, front);
        let n = events.len() - 1;
        law_invariant(config, front);
        lemma_step_origins(s, events.last(), i);
        assert(events.take(n) =~= front);
        if tells_of(s.request, events.last(), info) {
            assert(comes_from(s0, events, n, info));
        } else {
            law_every_entry_names_its_source(config, front, i);
            let k = choose|k: int| #[trigger] comes_from(s0, front, k, info);
            assert(front.take(k) =~= events.take(k));
            assert(comes_from(s0, events, k, info));
        }
    }
}

/// A configuration without one of its local packages.
pub open spec fn without_local(config: ConfigView, i: int) -> ConfigView {
    ConfigView { local: config.local.remove(i), ..config }
}

/// The request for the manifest of a local package of a configuration.
pub open spec fn manifest_request(config: ConfigView, i: int) -> RequestView {
    RequestView::ReadManifest {
        name: config.local[i].0,
        place: place_of(config, config.local[i].1),
    }
}

/// Whether two states differ in one task, which is still to be done in the first and
/// lies at `p`. There is none like it above it.
spec fn waiting(s: AnalysisView, t: AnalysisView, task: TaskView, p: int) -> bool {
    &&& 0 <= p <= t.tasks.len()
    &&& s == AnalysisView { tasks: t.tasks.insert(p, task), ..t }
    &&& !s.seeded
    &&& forall|q: int| p < q < s.tasks.len() ==> #[trigger] s.tasks[q] != task
}

/// Whether two states differ in one task, which is to be done, or is being done, in the
/// first.
spec fn behind(s: AnalysisView, t: AnalysisView, task: TaskView) -> bool {
    let request = match task {
        TaskView::Local { name, place } => RequestView::ReadManifest { name, place },
        _ => RequestView::Done,
    };
    ||| s.request == request && settle(s) == t
    ||| s.request != request && !(s.request is Probe) && exists|p: int|
        #[trigger] waiting(s, t, task, p)
}

proof fn lemma_settle_behind(s: AnalysisView, t: AnalysisView, task: TaskView, p: int)
    requires
        waiting(s, t, task, p),
        task is Local,
    ensures
        behind(settle(s), settle(t), task),
{
    let last = s.tasks.len() - 1;
    if p == last {
        assert(s.tasks.drop_last() =~= t.tasks);
        assert(s.tasks.last() == task);
    } else {
        let rest = AnalysisView { tasks: s.tasks.drop_last(), ..s };
        assert(s.tasks[last] != task);
        assert(s.tasks[last] == t.tasks[last - 1]);
        assert(s.tasks.drop_last() =~= t.tasks.drop_last().insert(p, task));
        assert(waiting(settle(s), settle(t), task, p));
    }
}

proof fn lemma_step_behind(s: AnalysisView, t: AnalysisView, event: EventView, task: TaskView)
    requires
        task is Local,
        behind(s, t, task),
        s.request != (RequestView::ReadManifest {
            name: task->Local_name,
            place: task->Local_place,
        }),
    ensures
        behind(step(s, event), step(t, event), task),
{
    let p = choose|p: int| #[trigger] waiting(s, t, task, p);
    match (s.request, event) {
        (RequestView::Look(place), EventView::Found(found)) => {
            let more = source_tasks(sources_of(found));
            let a = AnalysisView { tasks: s.tasks + more, ..s };
            let b = AnalysisView { tasks: t.tasks + more, ..t };
            assert(a.tasks =~= b.tasks.insert(p, task));
            assert forall|q: int| p < q < a.tasks.len() implies #[trigger] a.tasks[q] != task by {
                if q < s.tasks.len() {
                    assert(a.tasks[q] == s.tasks[q]);
                } else {
                    assert(a.tasks[q] == more[q - s.tasks.len()]);
                    assert(more[q - s.tasks.len()] is Source);
                }
            }
            assert(waiting(a, b, task, p));
            lemma_settle_behind(a, b, task, p);
        },
        (RequestView::Read { id, name }, EventView::Imports(imports)) => {
            let table = merge_all(s.table, known(imports), name, true);
            let a = AnalysisView { table, ..s };
            let b = AnalysisView { table, ..t };
            assert(waiting(a, b, task, p));
            lemma_settle_behind(a, b, task, p);
        },
        (
            RequestView::ReadManifest { name, place },
            EventView::Manifest(manifest),
        ) => match manifest {
            Some(m) => {
                assert(waiting(step(s, event), step(t, event), task, p));
            },
            None => lemma_settle_behind(s, t, task, p),
        },
        (RequestView::Walk { name, place }, EventView::Imports(imports)) => {
            let table = merge_all(s.table, known(imports), local_label(name), false);
            let a = AnalysisView { table, ..s };
            let b = AnalysisView { table, ..t };
            assert(waiting(a, b, task, p));
            lemma_settle_behind(a, b, task, p);
        },
        (RequestView::CheckCache(place), EventView::Answer(yes)) => {
            if yes {
                let caches = s.caches.push(place);
                let a = AnalysisView { caches, ..s };
                let b = AnalysisView { caches, ..t };
                assert(waiting(a, b, task, p));
                lemma_settle_behind(a, b, task, p);
            } else {
                lemma_settle_behind(s, t, task, p);
            }
        },
        _ => {},
    }
}

proof fn lemma_start_behind(config: ConfigView, i: int)
    requires
        0 <= i < config.local.len(),
        forall|j: int| 0 <= j < i ==> #[trigger] config.local[j] != config.local[i],
    ensures
        behind(
            start(config),
            start(without_local(config, i)),
            TaskView::Local {
                name: config.local[i].0,
                place: place_of(config, config.local[i].1),
            },
        ),
{
    let fewer = without_local(config, i);
    let task = TaskView::Local {
        name: config.local[i].0,
        place: place_of(config, config.local[i].1),
    };
    let all = analysis_tasks(config);
    let some = analysis_tasks(fewer);
    let d = config.discover.len() as int;
    let n = all.len() as int;
    let p = n - 1 - (d + i);
    let make = |pair: (Seq<char>, Seq<char>)|
        TaskView::Local { name: pair.0, place: place_of(config, pair.1) };
    let make_some = |pair: (Seq<char>, Seq<char>)|
        TaskView::Local { name: pair.0, place: place_of(fewer, pair.1) };
    assert(make =~= make_some);
    assert(config.local.map_values(make).remove(i) =~= fewer.local.map_values(make_some));
    assert(all[d + i] == task);
    assert(config.discover.map_values(
        |path: Seq<char>| TaskView::Discover(place_of(config, path)),
    ) =~= fewer.discover.map_values(|path: Seq<char>| TaskView::Discover(place_of(fewer, path))));
    assert(config.package_cache.map_values(
        |path: Seq<char>| TaskView::Cache(place_of(config, path)),
    ) =~= fewer.package_cache.map_values(|path: Seq<char>| TaskView::Cache(place_of(fewer, path))));
    assert(all.remove(d + i) =~= some);
    assert(all.reverse() =~= some.reverse().insert(p, task)) by {
        assert forall|q: int| 0 <= q < n implies #[trigger] all.reverse()[q]
            == some.reverse().insert(p, task)[q] by {
            if q < p {
                assert(some.reverse()[q] == some[n - 2 - q]);
                assert(some[n - 2 - q] == all.remove(d + i)[n - 2 - q]);
            } else if q > p {
                assert(some.reverse()[q - 1] == some[n - 1 - q]);
                assert(some[n - 1 - q] == all.remove(d + i)[n - 1 - q]);
            }
        }
    }
    let s = AnalysisView {
        table: Seq::empty(),
        files: Seq::empty(),
        tasks: all.reverse(),
        caches: Seq::empty(),
        packages: Seq::empty(),
        visited: 0,
        tried: 0,
        seeded: false,
        failure: None,
        request: RequestView::Done,
    };
    let t = AnalysisView { tasks: some.reverse(), ..s };
    assert forall|q: int| p < q < s.tasks.len() implies #[trigger] s.tasks[q] != task by {
        assert(s.tasks[q] == all[n - 1 - q]);
        let j = n - 1 - q - d;
        if j >= 0 {
            assert(all[d + j] == make(config.local[j]));
            assert(config.local[j] != config.local[i]);
        } else {
            assert(all[n - 1 - q] is Discover);
        }
    }
    assert(waiting(s, t, task, p));
    lemma_settle_behind(s, t, task, p);
}

proof fn lemma_run_behind(config: ConfigView, events: Seq<EventView>, i: int, n: int)
    requires
        0 <= i < config.local.len(),
        0 <= n <= events.len(),
        forall|j: int| 0 <= j < i ==> #[trigger] config.local[j] != config.local[i],
        forall|j: int|
            0 <= j < n ==> run(start(config), #[trigger] events.take(j)).request
                != manifest_request(config, i),
    ensures
        behind(
            run(start(config), events.take(n)),
            run(start(without_local(config, i)), events.take(n)),
            TaskView::Local {
                name: config.local[i].0,
                place: place_of(config, config.local[i].1),
            },
        ),
    decreases n,
{
    let s0 = start(config);
    let t0 = start(without_local(config, i));
    let task = TaskView::Local {
        name: config.local[i].0,
        place: place_of(config, config.local[i].1),
    };
    if n == 0 {
        assert(events.take(0) =~= Seq::empty());
        lemma_start_behind(config, i);
    } else {
        lemma_run_behind(config, events, i, n - 1);
        lemma_run_step(s0, events, n - 1);
        lemma_run_step(t0, events, n - 1);
        lemma_step_behind(
            run(s0, events.take(n - 1)),
            run(t0, events.take(n - 1)),
            events[n - 1],
            task,
        );
    }
}

proof fn lemma_run_on(s: AnalysisView, events: Seq<EventView>, more: Seq<EventView>)
    ensures
        run(s, events + more) == run(run(s, events), more),
    decreases more.len(),
{
    if more.len() == 0 {
        assert(events + more =~= events);
    } else {
        assert((events + more).drop_last() =~= events + more.drop_last());
        lemma_run_on(s, events, more.drop_last());
    }
}

/// A local package without a manifest that can be read adds nothing: but for the
/// question for its manifest, an analysis is what it would be if the package were not
/// configured. Imports of the package in scanned files are listed all the same.
pub proof fn law_unreadable_local_package_adds_nothing(
    config: ConfigView,
    events: Seq<EventView>,
    i: int,
    k: int,
)
    requires
        0 <= i < config.local.len(),
        forall|j: int| 0 <= j < i ==> #[trigger] config.local[j] != config.local[i],
        0 <= k < events.len(),
        run(start(config), events.take(k)).request == manifest_request(config, i),
        forall|j: int|
            0 <= j < k ==> run(start(config), #[trigger] events.take(j)).request
                != manifest_request(config, i),
        events[k] == EventView::Manifest(None),
    ensures
        run(start(without_local(config, i)), events.remove(k)) == run(start(config), events),
{
    let s0 = start(config);
    let t0 = start(without_local(config, i));
    let more = events.skip(k + 1);
    lemma_run_behind(config, events, i, k);
    lemma_run_step(s0, events, k);
    assert(events =~= events.take(k + 1) + more);
    assert(events.remove(k) =~= events.take(k) + more);
    lemma_run_on(s0, events.take(k + 1), more);
    lemma_run_on(t0, events.take(k), more);
}

} // verus!
