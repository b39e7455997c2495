//! What a root directory is for: it says where relative paths start, and nothing else.
//!
//! How a path is joined to a root directory is up to the system. The laws hold of any
//! way to do it.

use vstd::prelude::*;

use crate::analyze;
use crate::analyze::{analysis_tasks, AnalysisView};
use crate::analyze_laws;
use crate::config::{place_of, ConfigView, EntryView, PlaceView};
use crate::gather;
use crate::gather::{entry_task, tally, unconfigured, GatherView, OutcomeView};
use crate::gather_laws;
use crate::imports::merge_all;
use crate::report::{plan_of, PlanView};
use crate::seqs::stacked;
use crate::world::sources_of;

verus! {

/// The path that a place stands for, without a root directory.
pub open spec fn resolve(
    place: PlaceView,
    join: spec_fn(Seq<char>, Seq<char>) -> Seq<char>,
) -> PlaceView {
    PlaceView {
        root: None,
        path: match place.root {
            Some(root) => join(root, place.path),
            None => place.path,
        },
    }
}

/// The paths that some paths of a configuration stand for.
pub open spec fn resolve_all(
    config: ConfigView,
    paths: Seq<Seq<char>>,
    join: spec_fn(Seq<char>, Seq<char>) -> Seq<char>,
) -> Seq<PlaceView> {
    paths.map_values(|path: Seq<char>| resolve(place_of(config, path), join))
}

/// The names and the paths of the local packages of a configuration.
pub open spec fn resolve_local(
    config: ConfigView,
    join: spec_fn(Seq<char>, Seq<char>) -> Seq<char>,
) -> Seq<(Seq<char>, PlaceView)> {
    config.local.map_values(
        |pair: (Seq<char>, Seq<char>)| (pair.0, resolve(place_of(config, pair.1), join)),
    )
}

/// A task of an analysis, with its path resolved.
pub open spec fn resolved_analyze_task(
    task: analyze::TaskView,
    join: spec_fn(Seq<char>, Seq<char>) -> Seq<char>,
) -> analyze::TaskView {
    match task {
        analyze::TaskView::Discover(place) => analyze::TaskView::Discover(resolve(place, join)),
        analyze::TaskView::Source { id, name } => task,
        analyze::TaskView::Local { name, place } => analyze::TaskView::Local {
            name,
            place: resolve(place, join),
        },
        analyze::TaskView::Cache(place) => analyze::TaskView::Cache(resolve(place, join)),
    }
}

/// A request of an analysis, with its path resolved.
pub open spec fn resolved_analyze_request(
    request: analyze::RequestView,
    join: spec_fn(Seq<char>, Seq<char>) -> Seq<char>,
) -> analyze::RequestView {
    match request {
        analyze::RequestView::Look(place) => analyze::RequestView::Look(resolve(place, join)),
        analyze::RequestView::ReadManifest { name, place } => analyze::RequestView::ReadManifest {
            name,
            place: resolve(place, join),
        },
        analyze::RequestView::Walk { name, place } => analyze::RequestView::Walk {
            name,
            place: resolve(place, join),
        },
        analyze::RequestView::CheckCache(place) => analyze::RequestView::CheckCache(
            resolve(place, join),
        ),
        analyze::RequestView::Probe { cache, name, version } => analyze::RequestView::Probe {
            cache: resolve(cache, join),
            name,
            version,
        },
        analyze::RequestView::Read { id, name } => request,
        analyze::RequestView::Done => request,
    }
}

/// A state of an analysis, with its paths resolved.
pub open spec fn resolved_analysis(
    s: AnalysisView,
    join: spec_fn(Seq<char>, Seq<char>) -> Seq<char>,
) -> AnalysisView {
    AnalysisView {
        tasks: s.tasks.map_values(|task: analyze::TaskView| resolved_analyze_task(task, join)),
        caches: s.caches.map_values(|place: PlaceView| resolve(place, join)),
        request: resolved_analyze_request(s.request, join),
        ..s
    }
}

proof fn lemma_visit_resolved(
    s: AnalysisView,
    join: spec_fn(Seq<char>, Seq<char>) -> Seq<char>,
)
    ensures
        analyze::visit(resolved_analysis(s, join)) == resolved_analysis(analyze::visit(s), join),
{
}

proof fn lemma_settle_analysis_resolved(
    s: AnalysisView,
    join: spec_fn(Seq<char>, Seq<char>) -> Seq<char>,
)
    ensures
        analyze::settle(resolved_analysis(s, join)) == resolved_analysis(analyze::settle(s), join),
{
    let r = resolved_analysis(s, join);
    if s.tasks.len() == 0 {
        let seeded = analyze::seed(s);
        assert(analyze::seed(r) == resolved_analysis(seeded, join));
        lemma_visit_resolved(s, join);
        lemma_visit_resolved(seeded, join);
    } else {
        let rest = AnalysisView { tasks: s.tasks.drop_last(), ..s };
        assert(r.tasks.drop_last() =~= resolved_analysis(rest, join).tasks);
        assert(r.tasks.last() == resolved_analyze_task(s.tasks.last(), join));
    }
}

proof fn lemma_step_analysis_resolved(
    s: AnalysisView,
    event: analyze::EventView,
    join: spec_fn(Seq<char>, Seq<char>) -> Seq<char>,
)
    ensures
        analyze::step(resolved_analysis(s, join), event) == resolved_analysis(
            analyze::step(s, event),
            join,
        ),
{
    let r = resolved_analysis(s, join);
    match (s.request, event) {
        (analyze::RequestView::Look(place), analyze::EventView::Found(found)) => {
            let more = analyze::source_tasks(sources_of(found));
            let next = AnalysisView { tasks: s.tasks + more, ..s };
            assert(r.tasks + more =~= resolved_analysis(next, join).tasks);
            assert(resolved_analysis(next, join) == AnalysisView { tasks: r.tasks + more, ..r });
            lemma_settle_analysis_resolved(next, join);
        },
        (analyze::RequestView::Read { id, name }, analyze::EventView::Imports(imports)) => {
            let table = merge_all(s.table, analyze::known(imports), name, true);
            let next = AnalysisView { table, ..s };
            assert(resolved_analysis(next, join) == AnalysisView { table, ..r });
            lemma_settle_analysis_resolved(next, join);
        },
        (
            analyze::RequestView::ReadManifest { name, place },
            analyze::EventView::Manifest(manifest),
        ) => {
            lemma_settle_analysis_resolved(s, join);
        },
        (analyze::RequestView::Walk { name, place }, analyze::EventView::Imports(imports)) => {
            let table = merge_all(
                s.table,
                analyze::known(imports),
                analyze::local_label(name),
                false,
            );
            let next = AnalysisView { table, ..s };
            assert(resolved_analysis(next, join) == AnalysisView { table, ..r });
            lemma_settle_analysis_resolved(next, join);
        },
        (analyze::RequestView::CheckCache(place), analyze::EventView::Answer(yes)) => {
            let next = AnalysisView { caches: s.caches.push(place), ..s };
            assert(r.caches.push(resolve(place, join)) =~= resolved_analysis(next, join).caches);
            lemma_settle_analysis_resolved(next, join);
            lemma_settle_analysis_resolved(s, join);
        },
        (
            analyze::RequestView::Probe { cache, name, version },
            analyze::EventView::Cached(cached),
        ) => match cached {
            Some(imports) => {
                let next = AnalysisView {
                    table: merge_all(
                        s.table,
                        analyze::known(imports),
                        analyze::preview_label(name, version),
                        false,
                    ),
                    packages: analyze::enqueue(s.packages, analyze::known(imports)),
                    visited: s.visited + 1,
                    ..s
                };
                lemma_visit_resolved(next, join);
            },
            None => {
                lemma_visit_resolved(AnalysisView { visited: s.visited + 1, ..s }, join);
            },
        },
        _ => {},
    }
}

proof fn lemma_run_analysis_resolved(
    s: AnalysisView,
    events: Seq<analyze::EventView>,
    join: spec_fn(Seq<char>, Seq<char>) -> Seq<char>,
)
    ensures
        analyze_laws::run(resolved_analysis(s, join), events) == resolved_analysis(
            analyze_laws::run(s, events),
            join,
        ),
    decreases events.len(),
{
    if events.len() > 0 {
        lemma_run_analysis_resolved(s, events.drop_last(), join);
        lemma_step_analysis_resolved(
            analyze_laws::run(s, events.drop_last()),
            events.last(),
            join,
        );
    }
}

/// Whether all paths that an analysis uses are the same in two configurations.
pub open spec fn same_analysis_paths(
    a: ConfigView,
    b: ConfigView,
    join: spec_fn(Seq<char>, Seq<char>) -> Seq<char>,
) -> bool {
    &&& resolve_all(a, a.discover, join) == resolve_all(b, b.discover, join)
    &&& resolve_local(a, join) == resolve_local(b, join)
    &&& resolve_all(a, a.package_cache, join) == resolve_all(b, b.package_cache, join)
}

proof fn lemma_start_analysis_resolved(
    config: ConfigView,
    join: spec_fn(Seq<char>, Seq<char>) -> Seq<char>,
)
    ensures
        analysis_tasks(config).reverse().map_values(
            |task: analyze::TaskView| resolved_analyze_task(task, join),
        ) == (resolve_all(config, config.discover, join).map_values(
            |place: PlaceView| analyze::TaskView::Discover(place),
        ) + resolve_local(config, join).map_values(
            |pair: (Seq<char>, PlaceView)|
                analyze::TaskView::Local { name: pair.0, place: pair.1 },
        ) + resolve_all(config, config.package_cache, join).map_values(
            |place: PlaceView| analyze::TaskView::Cache(place),
        )).reverse(),
{
    let tasks = analysis_tasks(config);
    let make = |task: analyze::TaskView| resolved_analyze_task(task, join);
    let all = resolve_all(config, config.discover, join).map_values(
        |place: PlaceView| analyze::TaskView::Discover(place),
    ) + resolve_local(config, join).map_values(
        |pair: (Seq<char>, PlaceView)| analyze::TaskView::Local { name: pair.0, place: pair.1 },
    ) + resolve_all(config, config.package_cache, join).map_values(
        |place: PlaceView| analyze::TaskView::Cache(place),
    );
    assert(tasks.map_values(make) =~= all);
    assert forall|i: int| 0 <= i < tasks.len() implies #[trigger] tasks.reverse().map_values(
        make,
    )[i] == all.reverse()[i] by {
        assert(tasks.map_values(make)[tasks.len() - 1 - i] == all[tasks.len() - 1 - i]);
    }
    assert(tasks.reverse().map_values(make) =~= all.reverse());
}

/// Configurations whose paths come to the same, with and without a root directory, are
/// analyzed alike: the same is asked for, and the same is found.
pub proof fn law_root_directory_in_an_analysis(
    a: ConfigView,
    b: ConfigView,
    join: spec_fn(Seq<char>, Seq<char>) -> Seq<char>,
    events: Seq<analyze::EventView>,
)
    requires
        same_analysis_paths(a, b, join),
    ensures
        ({
            let s = analyze_laws::run(analyze::start(a), events);
            let t = analyze_laws::run(analyze::start(b), events);
            &&& s.table == t.table
            &&& s.files == t.files
            &&& s.failure == t.failure
            &&& resolved_analyze_request(s.request, join) == resolved_analyze_request(
                t.request,
                join,
            )
        }),
{
    let s = AnalysisView {
        table: Seq::empty(),
        files: Seq::empty(),
        tasks: analysis_tasks(a).reverse(),
        caches: Seq::empty(),
        packages: Seq::empty(),
        visited: 0,
        tried: 0,
        seeded: false,
        failure: None,
        request: analyze::RequestView::Done,
    };
    let t = AnalysisView { tasks: analysis_tasks(b).reverse(), ..s };
    lemma_start_analysis_resolved(a, join);
    lemma_start_analysis_resolved(b, join);
    assert(resolved_analysis(s, join) == resolved_analysis(t, join));
    lemma_settle_analysis_resolved(s, join);
    lemma_settle_analysis_resolved(t, join);
    lemma_run_analysis_resolved(analyze::start(a), events, join);
    lemma_run_analysis_resolved(analyze::start(b), events, join);
}

/// A task of a gather operation, with its path resolved.
pub open spec fn resolved_gather_task(
    task: gather::TaskView,
    join: spec_fn(Seq<char>, Seq<char>) -> Seq<char>,
) -> gather::TaskView {
    match task {
        gather::TaskView::Discover(place) => gather::TaskView::Discover(resolve(place, join)),
        _ => task,
    }
}

/// A request of a gather operation, with its path resolved.
pub open spec fn resolved_gather_request(
    request: gather::RequestView,
    join: spec_fn(Seq<char>, Seq<char>) -> Seq<char>,
) -> gather::RequestView {
    match request {
        gather::RequestView::Look(place) => gather::RequestView::Look(resolve(place, join)),
        _ => request,
    }
}

/// An outcome, with its path resolved.
pub open spec fn resolved_outcome(
    outcome: OutcomeView,
    join: spec_fn(Seq<char>, Seq<char>) -> Seq<char>,
) -> OutcomeView {
    match outcome {
        OutcomeView::NotListed(place) => OutcomeView::NotListed(resolve(place, join)),
        _ => outcome,
    }
}

/// A log, with its paths resolved.
pub open spec fn resolved_log(
    log: Seq<OutcomeView>,
    join: spec_fn(Seq<char>, Seq<char>) -> Seq<char>,
) -> Seq<OutcomeView> {
    log.map_values(|outcome: OutcomeView| resolved_outcome(outcome, join))
}

/// A state of a gather operation, with its paths resolved.
pub open spec fn resolved_gather(
    s: GatherView,
    join: spec_fn(Seq<char>, Seq<char>) -> Seq<char>,
) -> GatherView {
    GatherView {
        log: resolved_log(s.log, join),
        tasks: s.tasks.map_values(|task: gather::TaskView| resolved_gather_task(task, join)),
        request: resolved_gather_request(s.request, join),
        ..s
    }
}

proof fn lemma_logged_resolved(
    s: GatherView,
    outcome: OutcomeView,
    join: spec_fn(Seq<char>, Seq<char>) -> Seq<char>,
)
    ensures
        resolved_gather(s, join).logged(resolved_outcome(outcome, join)) == resolved_gather(
            s.logged(outcome),
            join,
        ),
{
    assert(resolved_log(s.log, join).push(resolved_outcome(outcome, join)) =~= resolved_log(
        s.log.push(outcome),
        join,
    ));
}

proof fn lemma_more_tasks_resolved(
    s: GatherView,
    more: Seq<gather::TaskView>,
    join: spec_fn(Seq<char>, Seq<char>) -> Seq<char>,
)
    requires
        forall|i: int| 0 <= i < more.len() ==> !((#[trigger] more[i]) is Discover),
    ensures
        resolved_gather(GatherView { tasks: s.tasks + more, ..s }, join) == (GatherView {
            tasks: resolved_gather(s, join).tasks + more,
            ..resolved_gather(s, join)
        }),
{
    assert(resolved_gather(GatherView { tasks: s.tasks + more, ..s }, join).tasks
        =~= resolved_gather(s, join).tasks + more);
}

proof fn lemma_settle_gather_resolved(
    s: GatherView,
    join: spec_fn(Seq<char>, Seq<char>) -> Seq<char>,
)
    ensures
        gather::settle(resolved_gather(s, join)) == resolved_gather(gather::settle(s), join),
    decreases s.tasks.len(),
{
    let r = resolved_gather(s, join);
    if s.tasks.len() > 0 {
        let rest = GatherView { tasks: s.tasks.drop_last(), ..s };
        assert(r.tasks.drop_last() =~= resolved_gather(rest, join).tasks);
        assert(GatherView { tasks: r.tasks.drop_last(), ..r } == resolved_gather(rest, join));
        assert(r.tasks.last() == resolved_gather_task(s.tasks.last(), join));
        lemma_settle_gather_resolved(rest, join);
        match s.tasks.last() {
            gather::TaskView::Preview { name, version, parsed } => {
                let outcome = OutcomeView::InvalidVersion { name, version };
                lemma_logged_resolved(rest, outcome, join);
                lemma_settle_gather_resolved(rest.logged(outcome), join);
            },
            _ => {},
        }
    }
}

proof fn lemma_settle_logged_resolved(
    s: GatherView,
    outcome: OutcomeView,
    join: spec_fn(Seq<char>, Seq<char>) -> Seq<char>,
)
    ensures
        resolved_gather(s, join).logged(resolved_outcome(outcome, join)) == resolved_gather(
            s.logged(outcome),
            join,
        ),
        gather::settle(resolved_gather(s, join).logged(resolved_outcome(outcome, join)))
            == resolved_gather(gather::settle(s.logged(outcome)), join),
{
    lemma_logged_resolved(s, outcome, join);
    lemma_settle_gather_resolved(s.logged(outcome), join);
}

proof fn lemma_step_gather_resolved(
    s: GatherView,
    event: gather::EventView,
    join: spec_fn(Seq<char>, Seq<char>) -> Seq<char>,
)
    ensures
        gather::step(resolved_gather(s, join), event) == resolved_gather(
            gather::step(s, event),
            join,
        ),
{
    let r = resolved_gather(s, join);
    match (s.request, event) {
        (gather::RequestView::Look(place), gather::EventView::Found(found)) => {
            let more = gather::source_tasks(sources_of(found));
            assert forall|i: int| 0 <= i < more.len() implies !((
            #[trigger] more[i]) is Discover) by {
                assert(more[i] is Source);
            }
            lemma_more_tasks_resolved(s, more, join);
            lemma_settle_gather_resolved(gather::after_look(s, place, found), join);
            lemma_settle_logged_resolved(s, OutcomeView::NotListed(place), join);
        },
        (gather::RequestView::Read { id, name }, gather::EventView::Imports(imports)) => {
            gather_laws::lemma_package_tasks(imports);
            let next = gather::after_read(s, name, imports);
            lemma_more_tasks_resolved(s, gather::package_tasks(imports), join);
            assert(resolved_gather(next, join) == gather::after_read(r, name, imports));
            lemma_settle_gather_resolved(next, join);
        },
        (gather::RequestView::FindCached(spec), gather::EventView::Answer(yes)) => {
            lemma_logged_resolved(s, OutcomeView::Skipped(spec), join);
        },
        (gather::RequestView::Download(spec), gather::EventView::Answer(yes)) => {
            lemma_logged_resolved(s, OutcomeView::Downloaded(spec), join);
            lemma_settle_logged_resolved(s, OutcomeView::NotDownloaded(spec), join);
        },
        (gather::RequestView::Walk(spec), gather::EventView::Imports(imports)) => {
            gather_laws::lemma_package_tasks(imports);
            let more = gather::package_tasks(imports);
            lemma_more_tasks_resolved(s, more, join);
            lemma_settle_gather_resolved(GatherView { tasks: s.tasks + more, ..s }, join);
        },
        (
            gather::RequestView::ReadManifest { name, dir },
            gather::EventView::Manifest(manifest),
        ) => match manifest {
            None => lemma_settle_logged_resolved(s, OutcomeView::NoManifest { name }, join),
            Some(m) => lemma_settle_logged_resolved(
                s,
                OutcomeView::NameMismatch { name, found: m.name },
                join,
            ),
        },
        (
            gather::RequestView::Clear { spec, dir, exclude },
            gather::EventView::Answer(yes),
        ) => {
            lemma_settle_logged_resolved(s, OutcomeView::NotCleared(spec), join);
        },
        (
            gather::RequestView::Copy { spec, dir, exclude },
            gather::EventView::Answer(yes),
        ) => {
            lemma_logged_resolved(s, OutcomeView::Copied(spec), join);
            lemma_settle_logged_resolved(s, OutcomeView::NotCopied(spec), join);
        },
        _ => {},
    }
}

proof fn lemma_run_gather_resolved(
    s: GatherView,
    events: Seq<gather::EventView>,
    join: spec_fn(Seq<char>, Seq<char>) -> Seq<char>,
)
    ensures
        gather_laws::run(resolved_gather(s, join), events) == resolved_gather(
            gather_laws::run(s, events),
            join,
        ),
    decreases events.len(),
{
    if events.len() > 0 {
        lemma_run_gather_resolved(s, events.drop_last(), join);
        lemma_step_gather_resolved(gather_laws::run(s, events.drop_last()), events.last(), join);
    }
}

proof fn lemma_resolved_tally(
    log: Seq<OutcomeView>,
    join: spec_fn(Seq<char>, Seq<char>) -> Seq<char>,
)
    ensures
        tally(resolved_log(log, join)) == tally(log),
    decreases log.len(),
{
    if log.len() > 0 {
        lemma_resolved_tally(log.drop_last(), join);
        assert(resolved_log(log, join).drop_last() =~= resolved_log(log.drop_last(), join));
        assert(resolved_log(log, join).last() == resolved_outcome(log.last(), join));
    }
}

/// Whether all paths that a gather operation takes from the root directory are the same
/// in two configurations that ask for the same packages. The directories of local
/// packages are not among those paths.
pub open spec fn same_gather_paths(
    a: ConfigView,
    b: ConfigView,
    join: spec_fn(Seq<char>, Seq<char>) -> Seq<char>,
) -> bool {
    &&& match (a.destination, b.destination) {
        (Some(x), Some(y)) => resolve(place_of(a, x), join) == resolve(place_of(b, y), join),
        (None, None) => true,
        _ => false,
    }
    &&& resolve_all(a, a.discover, join) == resolve_all(b, b.discover, join)
    &&& a.preview == b.preview
    &&& a.local == b.local
}

/// The state in which a planned gather operation starts.
pub open spec fn plan_start(plan: PlanView) -> GatherView {
    gather::start(plan.entries, plan.discover, plan.configured_local)
}

proof fn lemma_start_gather_resolved(
    entries: Seq<EntryView>,
    discover: Seq<PlaceView>,
    configured: Seq<Seq<char>>,
    join: spec_fn(Seq<char>, Seq<char>) -> Seq<char>,
)
    ensures
        resolved_gather(gather::start(entries, discover, configured), join) == gather::start(
            entries,
            discover.map_values(|place: PlaceView| resolve(place, join)),
            configured,
        ),
{
    let places = discover.map_values(|place: PlaceView| resolve(place, join));
    let first = stacked(entries, |entry: EntryView| entry_task(entry));
    let make = |place: PlaceView| gather::TaskView::Discover(place);
    let s = GatherView {
        configured,
        processed: Seq::empty(),
        log: Seq::empty(),
        discovered: Seq::empty(),
        tasks: first + stacked(discover, make),
        request: gather::RequestView::Done,
    };
    let r = resolved_gather(s, join);
    assert(r.log =~= Seq::empty());
    assert forall|i: int| 0 <= i < r.tasks.len() implies #[trigger] r.tasks[i] == (first + stacked(
        places,
        make,
    ))[i] by {
        if i < first.len() {
            assert(s.tasks[i] == entry_task(entries[entries.len() - 1 - i]));
        } else {
            let j = discover.len() - 1 - (i - first.len());
            assert(s.tasks[i] == make(discover[j]));
            assert(stacked(places, make)[i - first.len()] == make(places[j]));
        }
    }
    assert(r.tasks =~= first + stacked(places, make));
    lemma_settle_gather_resolved(s, join);
}

/// Configurations whose paths come to the same, with and without a root directory, are
/// gathered alike: to the same destination, the same is asked for, with the same counts,
/// and the same is reported.
pub proof fn law_root_directory_when_gathering(
    a: ConfigView,
    b: ConfigView,
    join: spec_fn(Seq<char>, Seq<char>) -> Seq<char>,
    events: Seq<gather::EventView>,
)
    requires
        same_gather_paths(a, b, join),
    ensures
        match (plan_of(a), plan_of(b)) {
            (Some(p), Some(q)) => {
                let s = gather_laws::run(plan_start(p), events);
                let t = gather_laws::run(plan_start(q), events);
                &&& resolve(p.destination, join) == resolve(q.destination, join)
                &&& resolved_gather_request(s.request, join) == resolved_gather_request(
                    t.request,
                    join,
                )
                &&& tally(s.log) == tally(t.log)
                &&& unconfigured(s.discovered, s.configured) == unconfigured(
                    t.discovered,
                    t.configured,
                )
            },
            (None, None) => true,
            _ => false,
        },
{
    if a.destination is Some {
        let p = plan_of(a)->0;
        let q = plan_of(b)->0;
        let resolved = |place: PlaceView| resolve(place, join);
        assert(p.discover.map_values(resolved) =~= resolve_all(a, a.discover, join));
        assert(q.discover.map_values(resolved) =~= resolve_all(b, b.discover, join));
        assert(p.entries == q.entries);
        lemma_start_gather_resolved(p.entries, p.discover, p.configured_local, join);
        lemma_start_gather_resolved(q.entries, q.discover, q.configured_local, join);
        lemma_run_gather_resolved(plan_start(p), events, join);
        lemma_run_gather_resolved(plan_start(q), events, join);
        lemma_resolved_tally(gather_laws::run(plan_start(p), events).log, join);
        lemma_resolved_tally(gather_laws::run(plan_start(q), events).log, join);
    }
}

} // verus!
