//! Whose turn it is while packages are gathered, and which local packages are noted on the
//! way.

use vstd::prelude::*;

use crate::config::{EntryView, PlaceView};
use crate::gather::{
    entry_task, has_name, local_spec, note_locals, package_tasks, preview_spec, settle,
    source_tasks, start, step, unconfigured, EventView, GatherView, OutcomeView, RequestView, TaskView,
};
use crate::gather_ends::answers;
use crate::gather_laws::{
    imports_local, law_invariant, law_unconfigured_are_reported, run,
};
use crate::package::{version_of, PackageVersion, SpecView};
use crate::world::sources_of;

verus! {

/// An event that does not answer the request changes nothing.
pub proof fn law_other_events_change_nothing(s: GatherView, event: EventView)
    requires
        !answers(s.request, event),
    ensures
        step(s, event) == s,
{
}

proof fn lemma_settle_walks_nothing(s: GatherView)
    ensures
        !(settle(s).request is Walk),
    decreases s.tasks.len(),
{
    if s.tasks.len() > 0 {
        let rest = GatherView { tasks: s.tasks.drop_last(), ..s };
        lemma_settle_walks_nothing(rest);
        match s.tasks.last() {
            TaskView::Preview { name, version, parsed } => {
                lemma_settle_walks_nothing(
                    rest.logged(OutcomeView::InvalidVersion { name, version }),
                );
            },
            _ => {},
        }
    }
}

/// A package is read for what it imports only once it is there: it was there already, or
/// it was downloaded or copied.
pub proof fn law_only_what_is_there_is_read(s: GatherView, event: EventView)
    ensures
        step(s, event).request matches RequestView::Walk(spec) ==> step(s, event) == s || (event
            == EventView::Answer(true) && match s.request {
            RequestView::FindCached(package) => package == spec,
            RequestView::Download(package) => package == spec,
            RequestView::Copy { spec: package, .. } => package == spec,
            _ => false,
        }),
{
    assert forall|t: GatherView| !((#[trigger] settle(t)).request is Walk) by {
        lemma_settle_walks_nothing(t);
    }
}

/// Packages of the two namespaces that are gathered differ in nothing but the namespace.
pub proof fn law_namespaces_of_packages(name: Seq<char>, version: PackageVersion)
    ensures
        preview_spec(name, version) == (SpecView { namespace: "preview"@, name, version }),
        local_spec(name, version) == (SpecView { namespace: "local"@, name, version }),
{
}

/// Whether a package is of the `preview` namespace, is not configured as a local package,
/// and was not taken up.
pub open spec fn open_import(s: GatherView, spec: SpecView) -> bool {
    &&& spec.namespace == "preview"@
    &&& !s.configured.contains(spec.name)
    &&& !s.processed.contains(spec)
}

proof fn lemma_packages(s: GatherView, imports: Seq<SpecView>, i: int)
    requires
        0 <= i <= imports.len(),
        forall|j: int| 0 <= j < i ==> !open_import(s, #[trigger] imports[j]),
        i < imports.len() ==> open_import(s, imports[i]),
    ensures
        i < imports.len() ==> settle(
            GatherView { tasks: s.tasks + package_tasks(imports), ..s },
        ).request == RequestView::FindCached(imports[i]),
        i == imports.len() ==> settle(GatherView { tasks: s.tasks + package_tasks(imports), ..s })
            == settle(s),
    decreases imports.len(),
{
    let all = GatherView { tasks: s.tasks + package_tasks(imports), ..s };
    if imports.len() == 0 {
        assert(all.tasks =~= s.tasks);
    } else {
        let first = imports[0];
        let rest = imports.skip(1);
        if first.namespace == "preview"@ {
            let below = GatherView { tasks: s.tasks + package_tasks(rest), ..s };
            assert(all.tasks.drop_last() =~= below.tasks);
            assert(all.tasks.last() == TaskView::Package(first));
            assert(below.wants(first) == open_import(s, first));
            if i > 0 {
                assert forall|j: int| 0 <= j < i - 1 implies !open_import(s, #[trigger] rest[j]) by {
                    assert(rest[j] == imports[j + 1]);
                }
                assert(!open_import(s, imports[0]));
                lemma_packages(s, rest, i - 1);
                assert(settle(all) == settle(below));
            }
        } else {
            assert(!open_import(s, first));
            assert(i > 0);
            assert forall|j: int| 0 <= j < i - 1 implies !open_import(s, #[trigger] rest[j]) by {
                assert(rest[j] == imports[j + 1]);
            }
            lemma_packages(s, rest, i - 1);
        }
    }
}

/// Of what a scanned file or a package imports, the first package that is not configured
/// as a local package and was not taken up yet is made available at once.
pub proof fn law_first_open_import_is_next(s: GatherView, imports: Seq<SpecView>, i: int)
    requires
        s.request is Read || s.request is Walk,
        0 <= i < imports.len(),
        open_import(s, imports[i]),
        forall|j: int| 0 <= j < i ==> !open_import(s, #[trigger] imports[j]),
    ensures
        step(s, EventView::Imports(imports)).request == RequestView::FindCached(imports[i]),
{
    match s.request {
        RequestView::Read { id, name } => {
            let noted = GatherView { discovered: note_locals(s.discovered, imports, name), ..s };
            assert forall|j: int| 0 <= j < i implies !open_import(noted, #[trigger] imports[j]) by {
                assert(open_import(noted, imports[j]) == open_import(s, imports[j]));
            }
            lemma_packages(noted, imports, i);
        },
        _ => lemma_packages(s, imports, i),
    }
}

/// Where a scanned file or a package imports no such package, what is done next is what
/// would be done next if it imported nothing.
pub proof fn law_no_open_import_no_detour(s: GatherView, imports: Seq<SpecView>)
    requires
        s.request is Read || s.request is Walk,
        forall|j: int| 0 <= j < imports.len() ==> !open_import(s, #[trigger] imports[j]),
    ensures
        ({
            let t = step(s, EventView::Imports(imports));
            let u = step(s, EventView::Imports(Seq::empty()));
            &&& t.request == u.request
            &&& t.tasks == u.tasks
            &&& t.processed == u.processed
            &&& t.log == u.log
        }),
{
    let none = Seq::<SpecView>::empty();
    assert(s.tasks + package_tasks(none) =~= s.tasks);
    match s.request {
        RequestView::Read { id, name } => {
            let noted = GatherView { discovered: note_locals(s.discovered, imports, name), ..s };
            assert forall|j: int| 0 <= j < imports.len() implies !open_import(
                noted,
                #[trigger] imports[j],
            ) by {
                assert(open_import(noted, imports[j]) == open_import(s, imports[j]));
            }
            lemma_packages(noted, imports, imports.len() as int);
            lemma_settle_ignores_discovered(s, noted.discovered);
        },
        _ => lemma_packages(s, imports, imports.len() as int),
    }
}

proof fn lemma_settle_ignores_discovered(
    s: GatherView,
    discovered: Seq<(Seq<char>, Seq<char>)>,
)
    ensures
        settle(GatherView { discovered, ..s }) == (GatherView { discovered, ..settle(s) }),
        settle(s).discovered == s.discovered,
    decreases s.tasks.len(),
{
    if s.tasks.len() > 0 {
        let rest = GatherView { tasks: s.tasks.drop_last(), ..s };
        lemma_settle_ignores_discovered(rest, discovered);
        match s.tasks.last() {
            TaskView::Preview { name, version, parsed } => {
                lemma_settle_ignores_discovered(
                    rest.logged(OutcomeView::InvalidVersion { name, version }),
                    discovered,
                );
            },
            _ => {},
        }
    }
}

/// Each import of the `local` namespace is noted with its file, unless its name is noted
/// already, one after the other; other imports are not noted.
pub proof fn law_locals_are_noted(
    discovered: Seq<(Seq<char>, Seq<char>)>,
    imports: Seq<SpecView>,
    last: SpecView,
    source: Seq<char>,
)
    ensures
        note_locals(discovered, Seq::empty(), source) == discovered,
        ({
            let noted = note_locals(discovered, imports, source);
            note_locals(discovered, imports.push(last), source) == if last.namespace == "local"@
                && forall|i: int| 0 <= i < noted.len() ==> (#[trigger] noted[i]).0 != last.name {
                noted.push((last.name, source))
            } else {
                noted
            }
        }),
{
    assert(imports.push(last).drop_last() =~= imports);
}

/// Only scanned files are noted: what packages import has no say in it.
pub proof fn law_only_scanned_files_are_noted(s: GatherView, event: EventView)
    ensures
        step(s, event).discovered == match (s.request, event) {
            (RequestView::Read { id, name }, EventView::Imports(imports)) => note_locals(
                s.discovered,
                imports,
                name,
            ),
            _ => s.discovered,
        },
{
    let t = step(s, event);
    match (s.request, event) {
        (RequestView::Look(place), EventView::Found(found)) => {
            lemma_settle_ignores_discovered(
                GatherView { tasks: s.tasks + source_tasks(sources_of(found)), ..s },
                s.discovered,
            );
            lemma_settle_ignores_discovered(
                s.logged(OutcomeView::NotListed(place)),
                s.discovered,
            );
        },
        (RequestView::Read { id, name }, EventView::Imports(imports)) => {
            let noted = note_locals(s.discovered, imports, name);
            lemma_settle_ignores_discovered(
                GatherView { discovered: noted, tasks: s.tasks + package_tasks(imports), ..s },
                noted,
            );
        },
        (RequestView::Walk(_), EventView::Imports(imports)) => {
            lemma_settle_ignores_discovered(
                GatherView { tasks: s.tasks + package_tasks(imports), ..s },
                s.discovered,
            );
        },
        _ => {
            assert forall|outcome: OutcomeView| #[trigger]
                settle(s.logged(outcome)).discovered == s.discovered by {
                lemma_settle_ignores_discovered(s.logged(outcome), s.discovered);
            }
        },
    }
}

/// What is reported of the noted packages are those that are not configured, one after the
/// other.
pub proof fn law_report_leaves_out_the_configured(
    noted: Seq<(Seq<char>, Seq<char>)>,
    last: (Seq<char>, Seq<char>),
    configured: Seq<Seq<char>>,
)
    ensures
        unconfigured(Seq::empty(), configured) == Seq::<(Seq<char>, Seq<char>)>::empty(),
        unconfigured(noted.push(last), configured) == if exists|i: int|
            0 <= i < configured.len() && #[trigger] configured[i] == last.0 {
            unconfigured(noted, configured)
        } else {
            unconfigured(noted, configured).push(last)
        },
{
    reveal(Seq::filter);
    let all = noted.push(last);
    assert(all.drop_last() =~= noted);
    assert(all.last() == last);
    assert(configured.contains(last.0) == exists|i: int|
        0 <= i < configured.len() && #[trigger] configured[i] == last.0);
}

/// Every local package that a scanned file imports and that is not configured is reported.
pub proof fn law_every_missing_package_is_reported(
    entries: Seq<EntryView>,
    discover: Seq<PlaceView>,
    configured: Seq<Seq<char>>,
    events: Seq<EventView>,
    k: int,
    name: Seq<char>,
    source: Seq<char>,
)
    requires
        imports_local(start(entries, discover, configured), events, k, name, source),
        !configured.contains(name),
    ensures
        ({
            let s = run(start(entries, discover, configured), events);
            let reported = unconfigured(s.discovered, s.configured);
            exists|i: int| 0 <= i < reported.len() && (#[trigger] reported[i]).0 == name
        }),
{
    law_unconfigured_are_reported(entries, discover, configured, events);
    let s = run(start(entries, discover, configured), events);
    let reported = unconfigured(s.discovered, s.configured);
    assert(has_name(reported, name));
}

/// A state with more tasks that wait.
pub open spec fn with_waiting(s: GatherView, waiting: Seq<TaskView>) -> GatherView {
    GatherView { tasks: waiting + s.tasks, ..s }
}

proof fn lemma_settle_waiting(s: GatherView, waiting: Seq<TaskView>)
    ensures
        settle(s).request is Done ==> settle(s).tasks.len() == 0 && settle(with_waiting(s, waiting))
            == settle(with_waiting(settle(s), waiting)),
        !(settle(s).request is Done) ==> settle(with_waiting(s, waiting)) == with_waiting(
            settle(s),
            waiting,
        ),
    decreases s.tasks.len(),
{
    let more = with_waiting(s, waiting);
    if s.tasks.len() == 0 {
        lemma_settle_ignores_request(more, RequestView::Done);
        assert(with_waiting(settle(s), waiting) == more.asking(RequestView::Done));
    } else {
        let rest = GatherView { tasks: s.tasks.drop_last(), ..s };
        assert(more.tasks.drop_last() =~= waiting + rest.tasks);
        assert(more.tasks.last() == s.tasks.last());
        lemma_settle_waiting(rest, waiting);
        match s.tasks.last() {
            TaskView::Preview { name, version, parsed } => {
                let logged = rest.logged(
                    OutcomeView::InvalidVersion { name, version },
                );
                lemma_settle_waiting(logged, waiting);
            },
            _ => {},
        }
    }
}

proof fn lemma_settle_ignores_request(s: GatherView, request: RequestView)
    ensures
        settle(s.asking(request)) == settle(s),
    decreases s.tasks.len(),
{
    if s.tasks.len() > 0 {
        let rest = GatherView { tasks: s.tasks.drop_last(), ..s };
        lemma_settle_ignores_request(rest, request);
        match s.tasks.last() {
            TaskView::Preview { name, version, parsed } => {
                lemma_settle_ignores_request(
                    rest.logged(OutcomeView::InvalidVersion { name, version }),
                    request,
                );
            },
            _ => {},
        }
    }
}

proof fn lemma_step_waiting(s: GatherView, waiting: Seq<TaskView>, event: EventView)
    requires
        !(s.request is Done),
    ensures
        step(s, event).request is Done ==> step(s, event).tasks.len() == 0 && step(
            with_waiting(s, waiting),
            event,
        ) == settle(with_waiting(step(s, event), waiting)),
        !(step(s, event).request is Done) ==> step(with_waiting(s, waiting), event)
            == with_waiting(step(s, event), waiting),
{
    let more = with_waiting(s, waiting);
    match (s.request, event) {
        (RequestView::Look(place), EventView::Found(found)) => {
            let next = GatherView { tasks: s.tasks + source_tasks(sources_of(found)), ..s };
            assert(with_waiting(next, waiting).tasks =~= more.tasks + source_tasks(
                sources_of(found),
            ));
            lemma_settle_waiting(next, waiting);
            lemma_settle_waiting(s.logged(OutcomeView::NotListed(place)), waiting);
        },
        (RequestView::Read { id, name }, EventView::Imports(imports)) => {
            let next = GatherView {
                discovered: note_locals(s.discovered, imports, name),
                tasks: s.tasks + package_tasks(imports),
                ..s
            };
            assert(with_waiting(next, waiting).tasks =~= more.tasks + package_tasks(imports));
            lemma_settle_waiting(next, waiting);
        },
        (RequestView::Walk(_), EventView::Imports(imports)) => {
            let next = GatherView { tasks: s.tasks + package_tasks(imports), ..s };
            assert(with_waiting(next, waiting).tasks =~= more.tasks + package_tasks(imports));
            lemma_settle_waiting(next, waiting);
        },
        (RequestView::Download(spec), EventView::Answer(yes)) => {
            lemma_settle_waiting(
                s.logged(OutcomeView::NotDownloaded(spec)),
                waiting,
            );
        },
        (RequestView::ReadManifest { name, dir }, EventView::Manifest(manifest)) => {
            lemma_settle_waiting(
                s.logged(OutcomeView::NoManifest { name }),
                waiting,
            );
            if let Some(m) = manifest {
                lemma_settle_waiting(
                    s.logged(OutcomeView::NameMismatch { name, found: m.name }),
                    waiting,
                );
            }
        },
        (RequestView::Clear { spec, dir, exclude }, EventView::Answer(yes)) => {
            lemma_settle_waiting(
                s.logged(OutcomeView::NotCleared(spec)),
                waiting,
            );
        },
        (RequestView::Copy { spec, dir, exclude }, EventView::Answer(yes)) => {
            lemma_settle_waiting(
                s.logged(OutcomeView::NotCopied(spec)),
                waiting,
            );
        },
        _ => {},
    }
}

/// Whether there is something to be done until the last of some events.
pub open spec fn busy(s: GatherView, events: Seq<EventView>) -> bool {
    forall|k: int|
        0 <= k < events.len() ==> !((#[trigger] run(s, events.take(k))).request is Done)
}

/// What waits has no say in what is done before its turn: a package is done with, and all
/// that it imports in turn, before anything is begun that waited.
pub proof fn law_what_waits_has_no_say(
    s: GatherView,
    waiting: Seq<TaskView>,
    events: Seq<EventView>,
)
    requires
        busy(s, events),
        !(run(s, events).request is Done),
    ensures
        run(with_waiting(s, waiting), events) == with_waiting(run(s, events), waiting),
    decreases events.len(),
{
    if events.len() > 0 {
        let front = events.drop_last();
        assert(events.take(events.len() - 1) =~= front);
        assert forall|k: int| 0 <= k < front.len() implies !((#[trigger] run(
            s,
            front.take(k),
        )).request is Done) by {
            assert(front.take(k) =~= events.take(k));
        }
        law_what_waits_has_no_say(s, waiting, front);
        lemma_step_waiting(run(s, front), waiting, events.last());
    }
}

proof fn lemma_run_to_the_end(s: GatherView, waiting: Seq<TaskView>, events: Seq<EventView>)
    requires
        events.len() > 0,
        busy(s, events),
        run(s, events).request is Done,
    ensures
        run(s, events).tasks.len() == 0,
        run(with_waiting(s, waiting), events) == settle(with_waiting(run(s, events), waiting)),
{
    let front = events.drop_last();
    assert(events.take(events.len() - 1) =~= front);
    assert forall|k: int| 0 <= k < front.len() implies !((#[trigger] run(s, front.take(k))).request
        is Done) by {
        assert(front.take(k) =~= events.take(k));
    }
    law_what_waits_has_no_say(s, waiting, front);
    lemma_step_waiting(run(s, front), waiting, events.last());
}

/// The packages to gather have their turns in order: when those before one of them, and
/// the paths, would be done with, the log is what it would be without the others, and it is
/// begun. A local package is begun with its manifest, and a `preview` package, unless it is
/// not to be made available, with the question whether it is there.
pub proof fn law_entries_take_turns(
    entries: Seq<EntryView>,
    discover: Seq<PlaceView>,
    configured: Seq<Seq<char>>,
    events: Seq<EventView>,
    i: int,
)
    requires
        0 <= i < entries.len(),
        busy(start(entries.take(i), discover, configured), events),
        run(start(entries.take(i), discover, configured), events).request is Done,
    ensures
        ({
            let before = run(start(entries.take(i), discover, configured), events);
            let s = run(start(entries, discover, configured), events);
            match entries[i] {
                EntryView::Local { name, dir } => s.log == before.log && s.request == (
                RequestView::ReadManifest { name, dir }),
                EntryView::Preview { name, version } => version_of(version) matches Some(v) ==> {
                    let spec = SpecView { namespace: "preview"@, name, version: v };
                    open_import(before, spec) ==> s.log == before.log && s.request
                        == RequestView::FindCached(spec)
                },
            }
        }),
{
    let tasks = |e: Seq<EntryView>| e.map_values(|entry: EntryView| entry_task(entry)).reverse();
    let places = discover.map_values(|place: PlaceView| TaskView::Discover(place)).reverse();
    let blank = GatherView {
        configured,
        processed: Seq::empty(),
        log: Seq::empty(),
        discovered: Seq::empty(),
        tasks: Seq::empty(),
        request: RequestView::Done,
    };
    let first = entries.take(i);
    let waiting = tasks(entries.skip(i));
    let s = GatherView { tasks: tasks(first) + places, ..blank };
    assert(tasks(entries) =~= waiting + tasks(first));
    assert(with_waiting(s, waiting).tasks =~= tasks(entries) + places);
    assert(start(first, discover, configured) == settle(s));
    assert(start(entries, discover, configured) == settle(with_waiting(s, waiting)));
    lemma_settle_waiting(s, waiting);
    let s0 = settle(s);
    let before = run(s0, events);
    law_invariant(first, discover, configured, events);
    assert(run(start(entries, discover, configured), events) == settle(
        with_waiting(before, waiting),
    )) by {
        if events.len() == 0 {
            assert(before == s0);
        } else {
            assert(events.take(0) =~= Seq::empty());
            assert(run(s0, events.take(0)) == s0);
            lemma_run_to_the_end(s0, waiting, events);
        }
    }
    let last = with_waiting(before, waiting);
    assert(before.tasks =~= Seq::empty());
    assert(last.tasks =~= waiting);
    assert(last.tasks.last() == entry_task(entries[i]));
    match entries[i] {
        EntryView::Preview { name, version } => {
            if let Some(v) = version_of(version) {
                let spec = SpecView { namespace: "preview"@, name, version: v };
                assert(last.wants(spec) == open_import(before, spec));
            }
        },
        _ => {},
    }
}

} // verus!
