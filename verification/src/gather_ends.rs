//! Gathering comes to an end, even where packages import each other.

use vstd::prelude::*;

use crate::config::{EntryView, PlaceView};
use crate::gather::{
    after_look, after_read, entry_task, package_tasks, preview_spec, settle, source_tasks, start,
    step, EventView, GatherView, OutcomeView, RequestView, TaskView,
};
use crate::package::{version_of, SpecView};
use crate::seqs::lemma_stacked;
use crate::world::sources_of;

verus! {

/// Whether an event answers a request.
pub open spec fn answers(request: RequestView, event: EventView) -> bool {
    match request {
        RequestView::Look(_) => event is Found,
        RequestView::Read { .. } => event is Imports,
        RequestView::FindCached(_) => event is Answer,
        RequestView::Download(_) => event is Answer,
        RequestView::Walk(_) => event is Imports,
        RequestView::ReadManifest { .. } => event is Manifest,
        RequestView::Clear { .. } => event is Answer,
        RequestView::Copy { .. } => event is Answer,
        RequestView::Done => false,
    }
}

/// The package that a task is to make available.
pub open spec fn wanted(task: TaskView) -> Option<SpecView> {
    match task {
        TaskView::Package(spec) => Some(spec),
        TaskView::Preview { name, version, parsed: Some(v) } => Some(preview_spec(name, v)),
        _ => None,
    }
}

/// Whether every package that is to be made available is one of the given ones.
pub open spec fn within(tasks: Seq<TaskView>, universe: Set<SpecView>) -> bool {
    forall|i: int|
        0 <= i < tasks.len() ==> (wanted(#[trigger] tasks[i]) matches Some(spec)
            ==> universe.contains(spec))
}

/// Whether every `preview` package among some imports is one of the given ones.
pub open spec fn imports_within(imports: Seq<SpecView>, universe: Set<SpecView>) -> bool {
    forall|i: int|
        0 <= i < imports.len() && (#[trigger] imports[i]).namespace == "preview"@
            ==> universe.contains(imports[i])
}

/// Whether every `preview` package that an event tells of is one of the given
/// ones.
pub open spec fn event_within(event: EventView, universe: Set<SpecView>) -> bool {
    event matches EventView::Imports(imports) ==> imports_within(imports, universe)
}

/// How many of the given packages were not taken up.
pub open spec fn untouched(s: GatherView, universe: Set<SpecView>) -> nat {
    universe.difference(s.processed.to_set()).len()
}

/// How many tasks are to copy a local package.
pub open spec fn locals(tasks: Seq<TaskView>) -> nat
    decreases tasks.len(),
{
    if tasks.len() == 0 {
        0
    } else {
        locals(tasks.drop_last()) + if tasks.last() is Local {
            1nat
        } else {
            0nat
        }
    }
}

/// How many tasks are to scan what is found at a path.
pub open spec fn paths(tasks: Seq<TaskView>) -> nat
    decreases tasks.len(),
{
    if tasks.len() == 0 {
        0
    } else {
        paths(tasks.drop_last()) + if tasks.last() is Discover {
            1nat
        } else {
            0nat
        }
    }
}

/// How many tasks are to scan a file.
pub open spec fn scans(tasks: Seq<TaskView>) -> nat
    decreases tasks.len(),
{
    if tasks.len() == 0 {
        0
    } else {
        scans(tasks.drop_last()) + if tasks.last() is Source {
            1nat
        } else {
            0nat
        }
    }
}

/// How many local packages are left, with the one that is being copied.
pub open spec fn locals_left(s: GatherView) -> nat {
    locals(s.tasks) + if s.request is ReadManifest || s.request is Clear || s.request is Copy {
        1nat
    } else {
        0nat
    }
}

/// How many paths are left, with the one that is being looked at.
pub open spec fn paths_left(s: GatherView) -> nat {
    paths(s.tasks) + if s.request is Look {
        1nat
    } else {
        0nat
    }
}

/// How many files are left, with the one that is being read.
pub open spec fn scans_left(s: GatherView) -> nat {
    scans(s.tasks) + if s.request is Read {
        1nat
    } else {
        0nat
    }
}

/// How many answers a request is from its end, at most.
pub open spec fn stage(request: RequestView) -> nat {
    match request {
        RequestView::FindCached(_) => 6,
        RequestView::Download(_) => 5,
        RequestView::Walk(_) => 4,
        RequestView::ReadManifest { .. } => 3,
        RequestView::Clear { .. } => 2,
        RequestView::Copy { .. } => 1,
        _ => 0,
    }
}

proof fn lemma_take_up(s: GatherView, universe: Set<SpecView>, spec: SpecView)
    requires
        universe.finite(),
    ensures
        untouched(
            GatherView { processed: s.processed.push(spec), ..s },
            universe,
        ) <= untouched(s, universe),
        universe.contains(spec) && !s.processed.contains(spec) ==> untouched(
            GatherView { processed: s.processed.push(spec), ..s },
            universe,
        ) < untouched(s, universe),
{
    let before = universe.difference(s.processed.to_set());
    let after = universe.difference(s.processed.push(spec).to_set());
    assert(after =~= before.remove(spec)) by {
        assert forall|x: SpecView| #[trigger] s.processed.push(spec).contains(x)
            <==> s.processed.contains(x) || x == spec by {
            if s.processed.contains(x) {
                let i = choose|i: int| 0 <= i < s.processed.len() && s.processed[i] == x;
                assert(s.processed.push(spec)[i] == x);
            }
            assert(s.processed.push(spec)[s.processed.len() as int] == spec);
        }
    }
    vstd::set_lib::lemma_len_difference(universe, s.processed.to_set());
}

proof fn lemma_settle_shrinks(s: GatherView, universe: Set<SpecView>)
    requires
        universe.finite(),
        within(s.tasks, universe),
    ensures
        ({
            let t = settle(s);
            &&& within(t.tasks, universe)
            &&& untouched(t, universe) <= untouched(s, universe)
            &&& t.request is FindCached ==> untouched(t, universe) < untouched(s, universe)
            &&& locals_left(t) <= locals(s.tasks)
            &&& paths_left(t) <= paths(s.tasks)
            &&& scans_left(t) <= scans(s.tasks)
            &&& t.request is FindCached || stage(t.request) <= 3
            &&& t.request is ReadManifest ==> locals(s.tasks) > 0
        }),
    decreases s.tasks.len(),
{
    if s.tasks.len() > 0 {
        let rest = GatherView { tasks: s.tasks.drop_last(), ..s };
        let last = s.tasks.last();
        assert(last == s.tasks[s.tasks.len() - 1]);
        assert(within(rest.tasks, universe)) by {
            assert forall|i: int| 0 <= i < rest.tasks.len() implies (wanted(
                #[trigger] rest.tasks[i],
            ) matches Some(spec) ==> universe.contains(spec)) by {
                assert(rest.tasks[i] == s.tasks[i]);
            }
        }
        match last {
            TaskView::Package(spec) => {
                lemma_take_up(rest, universe, spec);
                if !rest.wants(spec) {
                    lemma_settle_shrinks(rest, universe);
                }
            },
            TaskView::Preview { name, version, parsed } => match parsed {
                Some(v) => {
                    let spec = preview_spec(name, v);
                    lemma_take_up(rest, universe, spec);
                    if !rest.wants(spec) {
                        lemma_settle_shrinks(rest, universe);
                    }
                },
                None => {
                    lemma_settle_shrinks(
                        rest.logged(OutcomeView::InvalidVersion { name, version }),
                        universe,
                    );
                },
            },
            _ => {},
        }
    }
}

proof fn lemma_more_packages(tasks: Seq<TaskView>, imports: Seq<SpecView>, universe: Set<SpecView>)
    requires
        within(tasks, universe),
        imports_within(imports, universe),
    ensures
        within(tasks + package_tasks(imports), universe),
        locals(tasks + package_tasks(imports)) == locals(tasks),
        paths(tasks + package_tasks(imports)) == paths(tasks),
        scans(tasks + package_tasks(imports)) == scans(tasks),
    decreases imports.len(),
{
    if imports.len() == 0 {
        assert(tasks + package_tasks(imports) =~= tasks);
    } else {
        let rest = imports.skip(1);
        assert forall|i: int|
            0 <= i < rest.len() && (#[trigger] rest[i]).namespace == "preview"@ implies universe.contains(
            rest[i],
        ) by {
            assert(rest[i] == imports[i + 1]);
        }
        lemma_more_packages(tasks, rest, universe);
        if imports[0].namespace == "preview"@ {
            let all = tasks + package_tasks(imports);
            let before = tasks + package_tasks(rest);
            assert(all =~= before.push(TaskView::Package(imports[0])));
            assert(all.drop_last() =~= before);
        }
    }
}

proof fn lemma_more_sources(
    tasks: Seq<TaskView>,
    files: Seq<(usize, Seq<char>)>,
    universe: Set<SpecView>,
)
    requires
        within(tasks, universe),
    ensures
        within(tasks + source_tasks(files), universe),
        locals(tasks + source_tasks(files)) == locals(tasks),
        paths(tasks + source_tasks(files)) == paths(tasks),
    decreases files.len(),
{
    if files.len() == 0 {
        assert(tasks + source_tasks(files) =~= tasks);
    } else {
        let rest = files.skip(1);
        lemma_more_sources(tasks, rest, universe);
        let all = tasks + source_tasks(files);
        let before = tasks + source_tasks(rest);
        let make = |file: (usize, Seq<char>)| TaskView::Source { id: file.0, name: file.1 };
        lemma_stacked(files, make);
        assert(all =~= before.push(make(files[0])));
        assert(all.drop_last() =~= before);
    }
}

/// Each answer brings the end nearer: there are fewer packages left to take up,
/// or as many and fewer local packages, and so on.
pub proof fn law_answers_lead_on(s: GatherView, event: EventView, universe: Set<SpecView>)
    requires
        universe.finite(),
        within(s.tasks, universe),
        answers(s.request, event),
        event_within(event, universe),
    ensures
        within(step(s, event).tasks, universe),
        decreases_to!(
            untouched(s, universe), locals_left(s), paths_left(s), scans_left(s), stage(s.request)
            => untouched(step(s, event), universe), locals_left(step(s, event)),
            paths_left(step(s, event)), scans_left(step(s, event)), stage(step(s, event).request)
        ),
{
    match (s.request, event) {
        (RequestView::Look(place), EventView::Found(found)) => {
            lemma_more_sources(s.tasks, sources_of(found), universe);
            lemma_settle_shrinks(after_look(s, place, found), universe);
        },
        (RequestView::Read { id, name }, EventView::Imports(imports)) => {
            lemma_more_packages(s.tasks, imports, universe);
            lemma_settle_shrinks(after_read(s, name, imports), universe);
        },
        (RequestView::Download(spec), EventView::Answer(yes)) => if !yes {
            lemma_settle_shrinks(s.logged(OutcomeView::NotDownloaded(spec)), universe);
        },
        (RequestView::Walk(spec), EventView::Imports(imports)) => {
            lemma_more_packages(s.tasks, imports, universe);
            lemma_settle_shrinks(
                GatherView { tasks: s.tasks + package_tasks(imports), ..s },
                universe,
            );
        },
        (RequestView::ReadManifest { name, dir }, EventView::Manifest(manifest)) => match manifest {
            None => lemma_settle_shrinks(s.logged(OutcomeView::NoManifest { name }), universe),
            Some(m) => if m.name != name {
                lemma_settle_shrinks(
                    s.logged(OutcomeView::NameMismatch { name, found: m.name }),
                    universe,
                );
            },
        },
        (RequestView::Clear { spec, dir, exclude }, EventView::Answer(yes)) => if !yes {
            lemma_settle_shrinks(s.logged(OutcomeView::NotCleared(spec)), universe);
        },
        (RequestView::Copy { spec, dir, exclude }, EventView::Answer(yes)) => if yes {
            lemma_take_up(s, universe, spec);
        } else {
            lemma_settle_shrinks(s.logged(OutcomeView::NotCopied(spec)), universe);
        },
        _ => {},
    }
}

/// The state after the first `n` of endlessly many events.
pub open spec fn after(s: GatherView, events: spec_fn(nat) -> EventView, n: nat) -> GatherView
    decreases n,
{
    if n == 0 {
        s
    } else {
        step(after(s, events, (n - 1) as nat), events((n - 1) as nat))
    }
}

proof fn lemma_ends_from(
    s: GatherView,
    events: spec_fn(nat) -> EventView,
    universe: Set<SpecView>,
    n: nat,
)
    requires
        universe.finite(),
        within(after(s, events, n).tasks, universe),
        forall|k: nat| event_within(#[trigger] events(k), universe),
        forall|k: nat|
            (#[trigger] after(s, events, k)).request is Done || answers(
                after(s, events, k).request,
                events(k),
            ),
    ensures
        exists|k: nat| (#[trigger] after(s, events, k)).request is Done,
    decreases
            untouched(after(s, events, n), universe),
            locals_left(after(s, events, n)),
            paths_left(after(s, events, n)),
            scans_left(after(s, events, n)),
            stage(after(s, events, n).request),
{
    let t = after(s, events, n);
    if !(t.request is Done) {
        law_answers_lead_on(t, events(n), universe);
        assert(after(s, events, n + 1) == step(t, events(n)));
        lemma_ends_from(s, events, universe, n + 1);
    }
}

/// Gathering ends: as long as every request is answered, and there are only
/// finitely many packages in the world, there comes a time when nothing is left
/// to be done, however the packages import each other.
pub proof fn law_gathering_ends(
    entries: Seq<EntryView>,
    discover: Seq<PlaceView>,
    configured: Seq<Seq<char>>,
    events: spec_fn(nat) -> EventView,
    universe: Set<SpecView>,
)
    requires
        universe.finite(),
        forall|i: int|
            0 <= i < entries.len() ==> ((#[trigger] entries[i]) matches EntryView::Preview {
                name,
                version,
            } ==> (version_of(version) matches Some(v) ==> universe.contains(
                preview_spec(name, v),
            ))),
        forall|k: nat| event_within(#[trigger] events(k), universe),
        forall|k: nat|
            (#[trigger] after(start(entries, discover, configured), events, k)).request is Done
                || answers(
                after(start(entries, discover, configured), events, k).request,
                events(k),
            ),
    ensures
        exists|k: nat|
            (#[trigger] after(start(entries, discover, configured), events, k)).request is Done,
{
    let first = entries.map_values(|entry: EntryView| entry_task(entry)).reverse();
    let second = discover.map_values(|place: PlaceView| TaskView::Discover(place)).reverse();
    let tasks = first + second;
    assert forall|i: int| 0 <= i < tasks.len() implies (wanted(#[trigger] tasks[i]) matches Some(
        spec,
    ) ==> universe.contains(spec)) by {
        if i < first.len() {
            assert(tasks[i] == entry_task(entries[entries.len() - 1 - i]));
        } else {
            assert(tasks[i] == second[i - first.len()]);
        }
    }
    let s = GatherView {
        configured,
        processed: Seq::empty(),
        log: Seq::empty(),
        discovered: Seq::empty(),
        tasks,
        request: RequestView::Done,
    };
    lemma_settle_shrinks(s, universe);
    lemma_ends_from(start(entries, discover, configured), events, universe, 0);
}

} // verus!
