//! An analysis comes to an end, even where packages import each other.

use vstd::prelude::*;

use crate::analyze::{
    enqueue, known, settle, source_tasks, start, step, AnalysisView, EventView, RequestView, TaskView,
};
use crate::analyze_laws::{inv, law_invariant, lemma_enqueue, lemma_known, lemma_step_inv, run};
use crate::config::ConfigView;
use crate::package::{version_text, SpecView};
use crate::seqs::lemma_stacked;
use crate::world::sources_of;

verus! {

/// Whether an event answers a request.
pub open spec fn answers(request: RequestView, event: EventView) -> bool {
    match request {
        RequestView::Look(_) => event is Found,
        RequestView::Read { .. } => event is Imports,
        RequestView::ReadManifest { .. } => event is Manifest,
        RequestView::Walk { .. } => event is Imports,
        RequestView::CheckCache(_) => event is Answer,
        RequestView::Probe { .. } => event is Cached,
        RequestView::Done => false,
    }
}

/// Whether every package among some imports is one of the given ones.
pub open spec fn imports_within(
    imports: Seq<SpecView>,
    universe: Set<(Seq<char>, Seq<char>)>,
) -> bool {
    forall|i: int|
        0 <= i < imports.len() ==> universe.contains(
            ((#[trigger] imports[i]).name, version_text(imports[i].version)),
        )
}

/// Whether every package that an event tells of is one of the given ones.
pub open spec fn event_within(event: EventView, universe: Set<(Seq<char>, Seq<char>)>) -> bool {
    event matches EventView::Cached(Some(imports)) ==> imports_within(imports, universe)
}

/// How many tasks are to scan what is found at a path.
pub open spec fn paths(tasks: Seq<TaskView>) -> nat
    decreases tasks.len(),
{
    if tasks.len() == 0 {
        0
    } else {
        paths(tasks.drop_last()) + if tasks.last() is Discover {
            1nat
        } else {
            0nat
        }
    }
}

/// How many paths are left, with the one that is being looked at.
pub open spec fn paths_left(s: AnalysisView) -> nat {
    paths(s.tasks) + if s.request is Look {
        1nat
    } else {
        0nat
    }
}

/// How many tasks are left, with the one that was begun.
pub open spec fn tasks_left(s: AnalysisView) -> nat {
    s.tasks.len() + if s.request is Probe || s.request is Done {
        0nat
    } else {
        1nat
    }
}

/// How many of the given packages are not among those to look for.
pub open spec fn unlisted(s: AnalysisView, universe: Set<(Seq<char>, Seq<char>)>) -> nat {
    universe.difference(s.packages.to_set()).len()
}

/// How many packages are left to look for.
pub open spec fn unvisited(s: AnalysisView) -> int {
    s.packages.len() - s.visited
}

/// How many answers a request is from its end, at most.
pub open spec fn stage(s: AnalysisView) -> int {
    match s.request {
        RequestView::ReadManifest { .. } => 1,
        RequestView::Probe { .. } => 1 + s.caches.len() - s.tried,
        _ => 0,
    }
}

proof fn lemma_settle_shrinks(s: AnalysisView)
    ensures
        paths_left(settle(s)) <= paths(s.tasks),
        tasks_left(settle(s)) <= s.tasks.len(),
{
}

proof fn lemma_more_sources(tasks: Seq<TaskView>, files: Seq<(usize, Seq<char>)>)
    ensures
        paths(tasks + source_tasks(files)) == paths(tasks),
    decreases files.len(),
{
    if files.len() == 0 {
        assert(tasks + source_tasks(files) =~= tasks);
    } else {
        let rest = files.skip(1);
        lemma_more_sources(tasks, rest);
        let all = tasks + source_tasks(files);
        let before = tasks + source_tasks(rest);
        let make = |file: (usize, Seq<char>)| TaskView::Source { id: file.0, name: file.1 };
        lemma_stacked(files, make);
        assert(all =~= before.push(make(files[0])));
        assert(all.drop_last() =~= before);
    }
}

proof fn lemma_enqueue_shrinks(
    s: AnalysisView,
    imports: Seq<SpecView>,
    universe: Set<(Seq<char>, Seq<char>)>,
)
    requires
        universe.finite(),
        imports_within(imports, universe),
    ensures
        ({
            let t = AnalysisView { packages: enqueue(s.packages, imports), ..s };
            t.packages == s.packages || unlisted(t, universe) < unlisted(s, universe)
        }),
    decreases imports.len(),
{
    if imports.len() > 0 {
        let front = imports.drop_last();
        assert(imports_within(front, universe)) by {
            assert forall|i: int| 0 <= i < front.len() implies universe.contains(
                ((#[trigger] front[i]).name, version_text(front[i].version)),
            ) by {
                assert(front[i] == imports[i]);
            }
        }
        lemma_enqueue_shrinks(s, front, universe);
        let before = enqueue(s.packages, front);
        let last = imports[imports.len() - 1];
        let pair = (last.name, version_text(last.version));
        assert(universe.contains(pair));
        if !before.contains(pair) {
            let a = universe.difference(before.to_set());
            let b = universe.difference(before.push(pair).to_set());
            assert(b =~= a.remove(pair)) by {
                assert forall|x: (Seq<char>, Seq<char>)| #[trigger] before.push(pair).contains(x)
                    <==> before.contains(x) || x == pair by {
                    if before.contains(x) {
                        let i = choose|i: int| 0 <= i < before.len() && before[i] == x;
                        assert(before.push(pair)[i] == x);
                    }
                    assert(before.push(pair)[before.len() as int] == pair);
                }
            }
            assert(a.contains(pair));
        }
    }
}

/// Each answer brings the end nearer: there are fewer paths left to look at, or
/// as many and fewer tasks, and so on.
pub proof fn law_answers_lead_on(
    s: AnalysisView,
    event: EventView,
    universe: Set<(Seq<char>, Seq<char>)>,
)
    requires
        inv(s),
        universe.finite(),
        answers(s.request, event),
        event_within(event, universe),
    ensures
        decreases_to!(
            paths_left(s), tasks_left(s), unlisted(s, universe), unvisited(s), stage(s)
            => paths_left(step(s, event)), tasks_left(step(s, event)),
            unlisted(step(s, event), universe), unvisited(step(s, event)), stage(step(s, event))
        ),
{
    lemma_step_inv(s, event);
    match (s.request, event) {
        (RequestView::Look(place), EventView::Found(found)) => {
            lemma_more_sources(s.tasks, sources_of(found));
            lemma_settle_shrinks(
                AnalysisView { tasks: s.tasks + source_tasks(sources_of(found)), ..s },
            );
        },
        (RequestView::Probe { cache, name, version }, EventView::Cached(cached)) => match cached {
            Some(imports) => {
                assert(imports_within(known(imports), universe)) by {
                    assert forall|i: int| 0 <= i < known(imports).len() implies universe.contains(
                        ((#[trigger] known(imports)[i]).name, version_text(known(imports)[i].version)),
                    ) by {
                        lemma_known(imports, known(imports)[i]);
                        let j = choose|j: int|
                            0 <= j < imports.len() && imports[j] == known(imports)[i];
                        assert(universe.contains((imports[j].name, version_text(imports[j].version))));
                    }
                }
                lemma_enqueue_shrinks(s, known(imports), universe);
                lemma_enqueue(s.packages, known(imports));
            },
            None => {},
        },
        _ => {},
    }
}

/// The state after the first `n` of endlessly many events.
pub open spec fn after(s: AnalysisView, events: spec_fn(nat) -> EventView, n: nat) -> AnalysisView
    decreases n,
{
    if n == 0 {
        s
    } else {
        step(after(s, events, (n - 1) as nat), events((n - 1) as nat))
    }
}

proof fn lemma_ends_from(
    s: AnalysisView,
    events: spec_fn(nat) -> EventView,
    universe: Set<(Seq<char>, Seq<char>)>,
    n: nat,
)
    requires
        universe.finite(),
        inv(after(s, events, n)),
        forall|k: nat| event_within(#[trigger] events(k), universe),
        forall|k: nat|
            (#[trigger] after(s, events, k)).request is Done || answers(
                after(s, events, k).request,
                events(k),
            ),
    ensures
        exists|k: nat| (#[trigger] after(s, events, k)).request is Done,
    decreases
            paths_left(after(s, events, n)),
            tasks_left(after(s, events, n)),
            unlisted(after(s, events, n), universe),
            unvisited(after(s, events, n)),
            stage(after(s, events, n)),
{
    let t = after(s, events, n);
    if !(t.request is Done) {
        law_answers_lead_on(t, events(n), universe);
        lemma_step_inv(t, events(n));
        assert(after(s, events, n + 1) == step(t, events(n)));
        lemma_ends_from(s, events, universe, n + 1);
    }
}

/// An analysis ends: as long as every request is answered, and there are only
/// finitely many packages in the world, there comes a time when nothing is left
/// to be read, however the packages import each other.
pub proof fn law_analysis_ends(
    config: ConfigView,
    events: spec_fn(nat) -> EventView,
    universe: Set<(Seq<char>, Seq<char>)>,
)
    requires
        universe.finite(),
        forall|k: nat| event_within(#[trigger] events(k), universe),
        forall|k: nat|
            (#[trigger] after(start(config), events, k)).request is Done || answers(
                after(start(config), events, k).request,
                events(k),
            ),
    ensures
        exists|k: nat| (#[trigger] after(start(config), events, k)).request is Done,
{
    law_invariant(config, Seq::empty());
    assert(run(start(config), Seq::empty()) == start(config));
    lemma_ends_from(start(config), events, universe, 0);
}

} // verus!
