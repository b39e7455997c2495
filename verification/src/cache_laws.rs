//! What holds of every analysis that follows packages into the directories that
//! hold packages.

use vstd::prelude::*;

use crate::analyze::{
    analysis_tasks, failure_text, first_local, known, local_label, settle, source_tasks, start, step,
    AnalysisView, EventView, RequestView,
};
use crate::analyze_laws::{inv, law_invariant, law_only_grows, lemma_run_step, lemma_step_inv, run};
use crate::config::ConfigView;
use crate::imports::merge_all;
use crate::package::SpecView;
use crate::world::sources_of;

verus! {

/// Whether a package of the `local` namespace is among some.
pub open spec fn has_local(imports: Seq<SpecView>) -> bool {
    exists|i: int| 0 <= i < imports.len() && (#[trigger] imports[i]).namespace == "local"@
}

proof fn lemma_first_local(imports: Seq<SpecView>)
    ensures
        first_local(imports) is Some <==> has_local(imports),
        first_local(imports) matches Some(spec) ==> imports.contains(spec) && spec.namespace
            == "local"@,
    decreases imports.len(),
{
    if imports.len() > 0 {
        let rest = imports.skip(1);
        lemma_first_local(rest);
        if has_local(rest) {
            let i = choose|i: int|
                0 <= i < rest.len() && (#[trigger] rest[i]).namespace == "local"@;
            assert(imports[i + 1] == rest[i]);
        }
        if has_local(imports) && imports[0].namespace != "local"@ {
            let i = choose|i: int|
                0 <= i < imports.len() && (#[trigger] imports[i]).namespace == "local"@;
            assert(rest[i - 1] == imports[i]);
        }
        match first_local(rest) {
            Some(spec) => if imports[0].namespace != "local"@ {
                let i = choose|i: int| 0 <= i < rest.len() && rest[i] == spec;
                assert(imports[i + 1] == spec);
            },
            None => {},
        }
    }
}

/// Whether the event at `k` tells that a package that was found imports a local
/// one.
pub open spec fn breaks(s: AnalysisView, events: Seq<EventView>, k: int) -> bool {
    &&& 0 <= k < events.len()
    &&& run(s, events.take(k)).request is Probe
    &&& events[k] matches EventView::Cached(Some(imports))
    &&& has_local(imports)
}

/// An analysis fails exactly if a `preview` package that was found imports a
/// local package, and it says which package and what that package imports.
pub proof fn law_published_packages_cannot_import_local(config: ConfigView, events: Seq<EventView>)
    ensures
        run(start(config), events).failure is Some <==> exists|k: int| #[trigger]
            breaks(start(config), events, k),
        forall|k: int| #[trigger]
            breaks(start(config), events, k) ==> ({
                let request = run(start(config), events.take(k)).request;
                let dependency = first_local(events[k]->Cached_0->0)->0;
                &&& dependency.namespace == "local"@
                &&& (events[k]->Cached_0->0).contains(dependency)
                &&& run(start(config), events).failure == Some(
                    failure_text(request->Probe_name, request->Probe_version, dependency),
                )
            }),
    decreases events.len(),
{
    let s0 = start(config);
    let t = run(s0, events);
    assert forall|k: int| #[trigger] breaks(s0, events, k) implies ({
        let request = run(s0, events.take(k)).request;
        let dependency = first_local(events[k]->Cached_0->0)->0;
        &&& dependency.namespace == "local"@
        &&& (events[k]->Cached_0->0).contains(dependency)
        &&& t.failure == Some(
            failure_text(request->Probe_name, request->Probe_version, dependency),
        )
    }) by {
        let s = run(s0, events.take(k));
        lemma_first_local(events[k]->Cached_0->0);
        lemma_run_step(s0, events, k);
        law_only_grows(config, events, k + 1);
        assert(run(s0, events.take(k + 1)).failure is Some);
    }
    if events.len() > 0 {
        let front = events.drop_last();
        let s = run(s0, front);
        let n = events.len() - 1;
        assert(events.take(n) =~= front);
        law_published_packages_cannot_import_local(config, front);
        if t.failure is Some {
            if s.failure is Some {
                let k = choose|k: int| #[trigger] breaks(s0, front, k);
                assert(front.take(k) =~= events.take(k));
                assert(breaks(s0, events, k));
            } else {
                lemma_failure_comes(s, events.last());
                lemma_first_local(events.last()->Cached_0->0);
                assert(breaks(s0, events, n));
            }
        }
        if exists|k: int| #[trigger] breaks(s0, events, k) {
            let k = choose|k: int| #[trigger] breaks(s0, events, k);
            assert(t.failure is Some);
        }
    } else {
        lemma_start_is_sound(config);
    }
}

proof fn lemma_failure_comes(s: AnalysisView, event: EventView)
    requires
        s.failure is None,
        step(s, event).failure is Some,
    ensures
        s.request is Probe,
        event is Cached,
        event->Cached_0 is Some,
        first_local(event->Cached_0->0) is Some,
{
}

proof fn lemma_start_is_sound(config: ConfigView)
    ensures
        start(config).failure is None,
{
}

/// Whether an analysis has no directory that holds packages, and will have none.
pub open spec fn cacheless(s: AnalysisView) -> bool {
    &&& s.caches.len() == 0
    &&& !(s.request is CheckCache)
    &&& !(s.request is Probe)
    &&& forall|i: int| 0 <= i < s.tasks.len() ==> !((#[trigger] s.tasks[i]) is Cache)
}

proof fn lemma_settle_cacheless(s: AnalysisView)
    requires
        s.caches.len() == 0,
        forall|i: int| 0 <= i < s.tasks.len() ==> !((#[trigger] s.tasks[i]) is Cache),
    ensures
        cacheless(settle(s)),
{
    if s.tasks.len() > 0 {
        assert(!(s.tasks[s.tasks.len() - 1] is Cache));
    }
}

proof fn lemma_step_cacheless(s: AnalysisView, event: EventView)
    requires
        cacheless(s),
    ensures
        cacheless(step(s, event)),
{
    match (s.request, event) {
        (RequestView::Look(place), EventView::Found(found)) => {
            lemma_settle_cacheless(
                AnalysisView { tasks: s.tasks + source_tasks(sources_of(found)), ..s },
            );
        },
        (RequestView::Read { id, name }, EventView::Imports(imports)) => {
            lemma_settle_cacheless(
                AnalysisView {
                    table: merge_all(s.table, known(imports), name, true),
                    ..s
                },
            );
        },
        (RequestView::ReadManifest { name, place }, EventView::Manifest(manifest)) => {
            lemma_settle_cacheless(s);
        },
        (RequestView::Walk { name, place }, EventView::Imports(imports)) => {
            lemma_settle_cacheless(
                AnalysisView {
                    table: merge_all(
                        s.table,
                        known(imports),
                        local_label(name),
                        false,
                    ),
                    ..s
                },
            );
        },
        _ => {},
    }
}

/// Where no directory that holds packages is configured, no package is looked
/// for, and no analysis fails.
pub proof fn law_no_cache_no_search(config: ConfigView, events: Seq<EventView>)
    requires
        config.package_cache.len() == 0,
    ensures
        !(run(start(config), events).request is Probe),
        run(start(config), events).failure is None,
{
    lemma_run_cacheless(config, events);
    law_published_packages_cannot_import_local(config, events);
    if run(start(config), events).failure is Some {
        let k = choose|k: int| #[trigger] breaks(start(config), events, k);
        lemma_run_cacheless(config, events.take(k));
    }
}

proof fn lemma_run_cacheless(config: ConfigView, events: Seq<EventView>)
    requires
        config.package_cache.len() == 0,
    ensures
        cacheless(run(start(config), events)),
    decreases events.len(),
{
    if events.len() == 0 {
        let tasks = analysis_tasks(config).reverse();
        assert forall|i: int| 0 <= i < tasks.len() implies !((#[trigger] tasks[i]) is Cache) by {
            assert(tasks[i] == analysis_tasks(config)[tasks.len() - 1 - i]);
        }
        lemma_settle_cacheless(
            AnalysisView {
                table: Seq::empty(),
                files: Seq::empty(),
                tasks,
                caches: Seq::empty(),
                packages: Seq::empty(),
                visited: 0,
                tried: 0,
                seeded: false,
                failure: None,
                request: RequestView::Done,
            },
        );
    } else {
        lemma_run_cacheless(config, events.drop_last());
        lemma_step_cacheless(run(start(config), events.drop_last()), events.last());
    }
}

/// Each package is looked for in one directory after the other until it is
/// found. A package that is found is not looked for again; one that is found
/// nowhere is no error, and leaves the table as it is.
pub proof fn law_first_directory_wins(s: AnalysisView, event: EventView)
    requires
        inv(s),
        s.request is Probe,
    ensures
        ({
            let t = step(s, event);
            let (name, version) = s.packages[s.visited as int];
            &&& s.request == (RequestView::Probe {
                cache: s.caches[s.tried as int],
                name,
                version,
            })
            &&& event matches EventView::Cached(Some(_)) ==> t.failure is Some || t.visited
                == s.visited + 1
            &&& event == EventView::Cached(None) ==> {
                &&& t.table == s.table
                &&& t.packages == s.packages
                &&& t.failure is None
                &&& if s.tried + 1 < s.caches.len() {
                    t.visited == s.visited && t.tried == s.tried + 1
                } else {
                    t.visited == s.visited + 1
                }
            }
        }),
{
}

/// Whether a package was looked for in the first directory.
pub open spec fn looked_for(
    s: AnalysisView,
    events: Seq<EventView>,
    pair: (Seq<char>, Seq<char>),
) -> bool {
    exists|k: int|
        0 <= k <= events.len() && (#[trigger] run(s, events.take(k))).request == (
        RequestView::Probe { cache: run(s, events).caches[0], name: pair.0, version: pair.1 })
}

proof fn lemma_looked_for(config: ConfigView, events: Seq<EventView>, i: int)
    requires
        ({
            let s = run(start(config), events);
            0 <= i < s.visited || (i == s.visited && s.request is Probe)
        }),
        run(start(config), events).caches.len() > 0,
    ensures
        looked_for(start(config), events, run(start(config), events).packages[i]),
    decreases events.len(),
{
    let s0 = start(config);
    let t = run(s0, events);
    assert(events.take(events.len() as int) =~= events);
    law_invariant(config, events);
    if events.len() == 0 {
        assert(t.visited == 0);
        assert(run(s0, events.take(0)) == t);
    } else {
        let front = events.drop_last();
        let s = run(s0, front);
        law_invariant(config, front);
        lemma_step_inv(s, events.last());
        if s.request is Probe && i <= s.visited {
            lemma_looked_for(config, front, i);
            let pair = s.packages[i];
            assert(t.packages[i] == pair);
            assert(t.caches == s.caches);
            let k = choose|k: int|
                0 <= k <= front.len() && (#[trigger] run(s0, front.take(k))).request == (
                RequestView::Probe { cache: s.caches[0], name: pair.0, version: pair.1 });
            assert(front.take(k) =~= events.take(k));
            assert(run(s0, events.take(k)).request == (RequestView::Probe {
                cache: t.caches[0],
                name: pair.0,
                version: pair.1,
            }));
        } else if s.request is Done {
            assert(t == s);
            lemma_looked_for(config, front, i);
            let pair = s.packages[i];
            let k = choose|k: int|
                0 <= k <= front.len() && (#[trigger] run(s0, front.take(k))).request == (
                RequestView::Probe { cache: s.caches[0], name: pair.0, version: pair.1 });
            assert(front.take(k) =~= events.take(k));
            assert(run(s0, events.take(k)).request == (RequestView::Probe {
                cache: t.caches[0],
                name: pair.0,
                version: pair.1,
            }));
        } else {
            assert(i == t.visited && t.request is Probe);
            assert(t.tried == 0);
            assert(run(s0, events.take(events.len() as int)).request == t.request);
        }
    }
}

/// In the end, every `preview` package in the table was looked for, be it
/// imported by a scanned file, by a local package, or by a package that was
/// found on the way. So, by [`law_imports_are_entered`], was everything that
/// those which were found import.
///
/// [`law_imports_are_entered`]: crate::analyze_laws::law_imports_are_entered
pub proof fn law_every_preview_package_is_looked_for(
    config: ConfigView,
    events: Seq<EventView>,
    i: int,
)
    requires
        run(start(config), events).request is Done,
        run(start(config), events).failure is None,
        run(start(config), events).caches.len() > 0,
        0 <= i < run(start(config), events).table.len(),
        run(start(config), events).table[i].namespace == "preview"@,
    ensures
        looked_for(
            start(config),
            events,
            (
                run(start(config), events).table[i].name,
                run(start(config), events).table[i].version,
            ),
        ),
{
    let t = run(start(config), events);
    law_invariant(config, events);
    let pair = (t.table[i].name, t.table[i].version);
    assert(t.packages.contains(pair));
    let k = choose|k: int| 0 <= k < t.packages.len() && t.packages[k] == pair;
    lemma_looked_for(config, events, k);
}

/// The package that is looked for.
pub open spec fn target(request: RequestView) -> (Seq<char>, Seq<char>) {
    (request->Probe_name, request->Probe_version)
}

/// A package is scanned at most once, however the packages import each other.
pub proof fn law_each_package_is_scanned_once(
    config: ConfigView,
    events: Seq<EventView>,
    i: int,
    j: int,
)
    requires
        0 <= i < j < events.len(),
        run(start(config), events.take(i)).request is Probe,
        run(start(config), events.take(j)).request is Probe,
        events[i] is Cached,
        events[i]->Cached_0 is Some,
    ensures
        target(run(start(config), events.take(i)).request) != target(
            run(start(config), events.take(j)).request,
        ),
{
    let s0 = start(config);
    let s = run(s0, events.take(i));
    let next = run(s0, events.take(i + 1));
    let t = run(s0, events.take(j));
    law_invariant(config, events.take(i));
    law_invariant(config, events.take(j));
    lemma_run_step(s0, events, i);
    law_first_directory_wins(s, events[i]);
    assert(events.take(j).take(i + 1) =~= events.take(i + 1));
    assert(events.take(j).take(i) =~= events.take(i));
    law_only_grows(config, events.take(j), i + 1);
    law_only_grows(config, events.take(j), i);
    assert(t.packages[s.visited as int] == s.packages[s.visited as int]);
}

} // verus!
