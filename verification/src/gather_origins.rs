//! Nothing comes of a gather operation that was not asked for: each local package
//! comes to one end, and each other package was asked for or is imported.

use vstd::prelude::*;

use crate::config::{EntryView, PlaceView};
use crate::gather::{
    after_look, after_read, entry_task, package_tasks, preview_spec, settle, source_tasks, start,
    step, EventView, GatherView, OutcomeView, RequestView, TaskView,
};
use crate::gather_laws::{
    law_invariant, lemma_package_tasks, lemma_previews, lemma_run_step, previews, run, settled,
};
use crate::package::{version_of, SpecView};
use crate::seqs::{lemma_stacked, stacked};
use crate::world::sources_of;

verus! {

/// The name of the local package that an outcome is for.
pub open spec fn local_name(outcome: OutcomeView) -> Option<Seq<char>> {
    match outcome {
        OutcomeView::Copied(spec) => Some(spec.name),
        OutcomeView::NotCleared(spec) => Some(spec.name),
        OutcomeView::NotCopied(spec) => Some(spec.name),
        OutcomeView::NoManifest { name } => Some(name),
        OutcomeView::NameMismatch { name, .. } => Some(name),
        _ => None,
    }
}

/// The names of the local packages that came to an end, in order.
pub open spec fn local_ends(log: Seq<OutcomeView>) -> Seq<Seq<char>>
    decreases log.len(),
{
    if log.len() == 0 {
        Seq::empty()
    } else {
        match local_name(log.last()) {
            Some(name) => local_ends(log.drop_last()).push(name),
            None => local_ends(log.drop_last()),
        }
    }
}

/// The name of the local package that is being copied.
pub open spec fn local_open(request: RequestView) -> Seq<Seq<char>> {
    match request {
        RequestView::ReadManifest { name, .. } => seq![name],
        RequestView::Clear { spec, .. } => seq![spec.name],
        RequestView::Copy { spec, .. } => seq![spec.name],
        _ => Seq::empty(),
    }
}

/// The names of the local packages that are to be copied, the next first.
pub open spec fn local_waiting(tasks: Seq<TaskView>) -> Seq<Seq<char>>
    decreases tasks.len(),
{
    if tasks.len() == 0 {
        Seq::empty()
    } else {
        match tasks.last() {
            TaskView::Local { name, .. } => seq![name] + local_waiting(tasks.drop_last()),
            _ => local_waiting(tasks.drop_last()),
        }
    }
}

/// The names of the local packages among the entries, in order.
pub open spec fn local_entries(entries: Seq<EntryView>) -> Seq<Seq<char>>
    decreases entries.len(),
{
    if entries.len() == 0 {
        Seq::empty()
    } else {
        match entries[0] {
            EntryView::Local { name, .. } => seq![name] + local_entries(entries.skip(1)),
            _ => local_entries(entries.skip(1)),
        }
    }
}

/// The local packages of an operation: those that came to an end, the one that is
/// being copied, and those that are to be copied.
pub open spec fn roster(s: GatherView) -> Seq<Seq<char>> {
    local_ends(s.log) + local_open(s.request) + local_waiting(s.tasks)
}

proof fn lemma_logged_ends(s: GatherView, outcome: OutcomeView)
    ensures
        local_ends(s.logged(outcome).log) == match local_name(outcome) {
            Some(name) => local_ends(s.log).push(name),
            None => local_ends(s.log),
        },
{
    assert(s.logged(outcome).log.drop_last() =~= s.log);
}

proof fn lemma_settle_roster(s: GatherView)
    ensures
        roster(settle(s)) == local_ends(s.log) + local_waiting(s.tasks),
    decreases s.tasks.len(),
{
    if s.tasks.len() == 0 {
        assert(roster(settle(s)) =~= local_ends(s.log) + local_waiting(s.tasks));
    } else {
        let rest = GatherView { tasks: s.tasks.drop_last(), ..s };
        match s.tasks.last() {
            TaskView::Package(spec) => {
                if rest.wants(spec) {
                    assert(roster(settle(s)) =~= local_ends(s.log) + local_waiting(s.tasks));
                } else {
                    lemma_settle_roster(rest);
                }
            },
            TaskView::Preview { name, version, parsed } => match parsed {
                Some(v) => {
                    if rest.wants(preview_spec(name, v)) {
                        assert(roster(settle(s)) =~= local_ends(s.log) + local_waiting(s.tasks));
                    } else {
                        lemma_settle_roster(rest);
                    }
                },
                None => {
                    let outcome = OutcomeView::InvalidVersion { name, version };
                    lemma_logged_ends(rest, outcome);
                    lemma_settle_roster(rest.logged(outcome));
                },
            },
            _ => {
                assert(roster(settle(s)) =~= local_ends(s.log) + local_waiting(s.tasks));
            },
        }
    }
}

proof fn lemma_waiting_concat(tasks: Seq<TaskView>, more: Seq<TaskView>)
    requires
        forall|i: int| 0 <= i < more.len() ==> !((#[trigger] more[i]) is Local),
    ensures
        local_waiting(tasks + more) == local_waiting(tasks),
    decreases more.len(),
{
    if more.len() == 0 {
        assert(tasks + more =~= tasks);
    } else {
        assert((tasks + more).drop_last() =~= tasks + more.drop_last());
        assert((tasks + more).last() == more[more.len() - 1]);
        lemma_waiting_concat(tasks, more.drop_last());
    }
}

proof fn lemma_step_roster(s: GatherView, event: EventView)
    ensures
        roster(step(s, event)) == roster(s),
{
    let t = step(s, event);
    match (s.request, event) {
        (RequestView::Look(place), EventView::Found(found)) => {
            let next = after_look(s, place, found);
            lemma_logged_ends(s, OutcomeView::NotListed(place));
            lemma_waiting_concat(s.tasks, source_tasks(sources_of(found)));
            lemma_settle_roster(next);
        },
        (RequestView::Read { id, name }, EventView::Imports(imports)) => {
            lemma_package_tasks(imports);
            lemma_waiting_concat(s.tasks, package_tasks(imports));
            lemma_settle_roster(after_read(s, name, imports));
        },
        (RequestView::FindCached(spec), EventView::Answer(yes)) => {
            lemma_logged_ends(s, OutcomeView::Skipped(spec));
        },
        (RequestView::Download(spec), EventView::Answer(yes)) => {
            lemma_logged_ends(s, OutcomeView::Downloaded(spec));
            lemma_logged_ends(s, OutcomeView::NotDownloaded(spec));
            lemma_settle_roster(s.logged(OutcomeView::NotDownloaded(spec)));
        },
        (RequestView::Walk(spec), EventView::Imports(imports)) => {
            lemma_package_tasks(imports);
            lemma_waiting_concat(s.tasks, package_tasks(imports));
            lemma_settle_roster(GatherView { tasks: s.tasks + package_tasks(imports), ..s });
        },
        (RequestView::ReadManifest { name, dir }, EventView::Manifest(manifest)) => match manifest {
            None => {
                lemma_logged_ends(s, OutcomeView::NoManifest { name });
                lemma_settle_roster(s.logged(OutcomeView::NoManifest { name }));
            },
            Some(m) => {
                lemma_logged_ends(s, OutcomeView::NameMismatch { name, found: m.name });
                lemma_settle_roster(s.logged(OutcomeView::NameMismatch { name, found: m.name }));
            },
        },
        (RequestView::Clear { spec, dir, exclude }, EventView::Answer(yes)) => {
            lemma_logged_ends(s, OutcomeView::NotCleared(spec));
            lemma_settle_roster(s.logged(OutcomeView::NotCleared(spec)));
        },
        (RequestView::Copy { spec, dir, exclude }, EventView::Answer(yes)) => {
            lemma_logged_ends(s, OutcomeView::Copied(spec));
            lemma_logged_ends(s, OutcomeView::NotCopied(spec));
            lemma_settle_roster(s.logged(OutcomeView::NotCopied(spec)));
        },
        _ => {},
    }
    assert(roster(t) =~= roster(s));
}

proof fn lemma_entries_wait(entries: Seq<EntryView>)
    ensures
        local_waiting(stacked(entries, |entry: EntryView| entry_task(entry))) == local_entries(
            entries,
        ),
    decreases entries.len(),
{
    let make = |entry: EntryView| entry_task(entry);
    if entries.len() > 0 {
        let rest = stacked(entries.skip(1), make);
        lemma_stacked(entries, make);
        assert(stacked(entries, make).drop_last() =~= rest);
        lemma_entries_wait(entries.skip(1));
    }
}

proof fn lemma_run_roster(s: GatherView, events: Seq<EventView>)
    ensures
        roster(run(s, events)) == roster(s),
    decreases events.len(),
{
    if events.len() > 0 {
        lemma_run_roster(s, events.drop_last());
        lemma_step_roster(run(s, events.drop_last()), events.last());
    }
}

proof fn lemma_start_roster(
    entries: Seq<EntryView>,
    discover: Seq<PlaceView>,
    configured: Seq<Seq<char>>,
)
    ensures
        roster(start(entries, discover, configured)) == local_entries(entries),
{
    let first = stacked(entries, |entry: EntryView| entry_task(entry));
    let second = stacked(discover, |place: PlaceView| TaskView::Discover(place));
    let s = GatherView {
        configured,
        processed: Seq::empty(),
        log: Seq::empty(),
        discovered: Seq::empty(),
        tasks: first + second,
        request: RequestView::Done,
    };
    lemma_entries_wait(entries);
    lemma_waiting_concat(first, second);
    lemma_settle_roster(s);
    assert(local_ends(s.log) + local_waiting(s.tasks) =~= local_entries(entries));
}

/// Each local package that is listed comes to exactly one end, in the order of the
/// list, be it listed once or several times.
pub proof fn law_each_local_entry_ends_once(
    entries: Seq<EntryView>,
    discover: Seq<PlaceView>,
    configured: Seq<Seq<char>>,
    events: Seq<EventView>,
)
    requires
        run(start(entries, discover, configured), events).request is Done,
    ensures
        local_ends(run(start(entries, discover, configured), events).log) == local_entries(entries),
{
    let s = run(start(entries, discover, configured), events);
    lemma_start_roster(entries, discover, configured);
    lemma_run_roster(start(entries, discover, configured), events);
    law_invariant(entries, discover, configured, events);
    assert(roster(s) =~= local_ends(s.log));
}

/// Whether a package is among the entries.
pub open spec fn asked_for(entries: Seq<EntryView>, spec: SpecView) -> bool {
    exists|i: int| 0 <= i < entries.len() && asks_for(#[trigger] entries[i], spec)
}

/// Whether an entry is for a `preview` package.
pub open spec fn asks_for(entry: EntryView, spec: SpecView) -> bool {
    match entry {
        EntryView::Preview { name, version } => version_of(version) matches Some(v)
            && preview_spec(name, v) == spec,
        _ => false,
    }
}

/// Whether the event at `k` tells that a scanned file, or a package that was taken
/// up, imports a package.
pub open spec fn imports_at(
    s: GatherView,
    events: Seq<EventView>,
    k: int,
    spec: SpecView,
) -> bool {
    &&& 0 <= k < events.len()
    &&& match run(s, events.take(k)).request {
        RequestView::Read { .. } => true,
        RequestView::Walk(package) => run(s, events.take(k)).processed.contains(package),
        _ => false,
    }
    &&& events[k] matches EventView::Imports(imports)
    &&& imports.contains(spec)
}

/// Whether a scanned file or a package that was taken up imports a package.
pub open spec fn is_imported(s: GatherView, events: Seq<EventView>, spec: SpecView) -> bool {
    exists|k: int| #[trigger] imports_at(s, events, k, spec)
}

/// Whether a local package is among the entries.
pub open spec fn local_listed(entries: Seq<EntryView>, name: Seq<char>) -> bool {
    exists|i: int|
        0 <= i < entries.len() && ((#[trigger] entries[i]) matches EntryView::Local { name: n, .. }
            && n == name)
}

/// Whether a task is one for an allowed package.
pub open spec fn task_allowed(
    task: TaskView,
    allowed: spec_fn(SpecView) -> bool,
    entries: Seq<EntryView>,
) -> bool {
    match task {
        TaskView::Package(spec) => allowed(spec),
        TaskView::Preview { name, version, parsed } => parsed matches Some(v) ==> allowed(
            preview_spec(name, v),
        ),
        TaskView::Local { name, .. } => local_listed(entries, name),
        _ => true,
    }
}

/// Whether an outcome is one for an allowed package.
pub open spec fn outcome_allowed(outcome: OutcomeView, entries: Seq<EntryView>) -> bool {
    outcome matches OutcomeView::Copied(spec) ==> spec.namespace == "local"@ && local_listed(
        entries,
        spec.name,
    )
}

/// Whether only allowed packages are, were or will be gathered, whatever the request
/// is.
pub open spec fn contained(
    s: GatherView,
    allowed: spec_fn(SpecView) -> bool,
    entries: Seq<EntryView>,
) -> bool {
    &&& forall|i: int| 0 <= i < s.tasks.len() ==> task_allowed(#[trigger] s.tasks[i], allowed, entries)
    &&& forall|i: int|
        0 <= i < s.processed.len() && (#[trigger] s.processed[i]).namespace == "preview"@
            ==> allowed(s.processed[i])
    &&& forall|i: int| 0 <= i < s.log.len() ==> outcome_allowed(#[trigger] s.log[i], entries)
}

/// Whether a request is one for an allowed package.
pub open spec fn request_allowed(s: GatherView, entries: Seq<EntryView>) -> bool {
    match s.request {
        RequestView::FindCached(spec) => s.processed.contains(spec),
        RequestView::Download(spec) => s.processed.contains(spec),
        RequestView::Walk(spec) => s.processed.contains(spec),
        RequestView::ReadManifest { name, .. } => local_listed(entries, name),
        RequestView::Clear { spec, .. } => spec.namespace == "local"@ && local_listed(
            entries,
            spec.name,
        ),
        RequestView::Copy { spec, .. } => spec.namespace == "local"@ && local_listed(
            entries,
            spec.name,
        ),
        _ => true,
    }
}

proof fn lemma_settle_contained(
    s: GatherView,
    allowed: spec_fn(SpecView) -> bool,
    entries: Seq<EntryView>,
)
    requires
        contained(s, allowed, entries),
    ensures
        contained(settle(s), allowed, entries),
        request_allowed(settle(s), entries),
    decreases s.tasks.len(),
{
    if s.tasks.len() > 0 {
        let rest = GatherView { tasks: s.tasks.drop_last(), ..s };
        let last = s.tasks.last();
        assert(last == s.tasks[s.tasks.len() - 1]);
        assert(contained(rest, allowed, entries));
        match last {
            TaskView::Package(spec) => {
                if rest.wants(spec) {
                    assert(rest.taking(spec).processed.last() == spec);
                } else {
                    lemma_settle_contained(rest, allowed, entries);
                }
            },
            TaskView::Preview { name, version, parsed } => match parsed {
                Some(v) => {
                    let spec = preview_spec(name, v);
                    if rest.wants(spec) {
                        assert(rest.taking(spec).processed.last() == spec);
                    } else {
                        lemma_settle_contained(rest, allowed, entries);
                    }
                },
                None => {
                    lemma_settle_contained(
                        rest.logged(OutcomeView::InvalidVersion { name, version }),
                        allowed,
                        entries,
                    );
                },
            },
            _ => {},
        }
    }
}

proof fn lemma_step_contained(
    s: GatherView,
    event: EventView,
    allowed: spec_fn(SpecView) -> bool,
    entries: Seq<EntryView>,
)
    requires
        contained(s, allowed, entries),
        request_allowed(s, entries),
        (s.request is Read || s.request is Walk) && event is Imports ==> forall|i: int|
            0 <= i < event->Imports_0.len() ==> allowed(#[trigger] event->Imports_0[i]),
    ensures
        contained(step(s, event), allowed, entries),
        request_allowed(step(s, event), entries),
{
    reveal_strlit("preview");
    reveal_strlit("local");
    assert("preview"@.len() != "local"@.len());
    match (s.request, event) {
        (RequestView::Look(place), EventView::Found(found)) => {
            lemma_settle_contained(after_look(s, place, found), allowed, entries);
        },
        (RequestView::Read { id, name }, EventView::Imports(imports)) => {
            lemma_allowed_packages(imports, allowed, entries);
            lemma_settle_contained(after_read(s, name, imports), allowed, entries);
        },
        (RequestView::Download(spec), EventView::Answer(yes)) => {
            lemma_settle_contained(s.logged(OutcomeView::NotDownloaded(spec)), allowed, entries);
        },
        (RequestView::Walk(spec), EventView::Imports(imports)) => {
            lemma_allowed_packages(imports, allowed, entries);
            lemma_settle_contained(
                GatherView { tasks: s.tasks + package_tasks(imports), ..s },
                allowed,
                entries,
            );
        },
        (RequestView::ReadManifest { name, dir }, EventView::Manifest(manifest)) => match manifest {
            None => lemma_settle_contained(
                s.logged(OutcomeView::NoManifest { name }),
                allowed,
                entries,
            ),
            Some(m) => lemma_settle_contained(
                s.logged(OutcomeView::NameMismatch { name, found: m.name }),
                allowed,
                entries,
            ),
        },
        (RequestView::Clear { spec, dir, exclude }, EventView::Answer(yes)) => {
            lemma_settle_contained(s.logged(OutcomeView::NotCleared(spec)), allowed, entries);
        },
        (RequestView::Copy { spec, dir, exclude }, EventView::Answer(yes)) => {
            if yes {
                let next = s.logged(OutcomeView::Copied(spec)).marking(spec);
                if !s.processed.contains(spec) {
                    assert(next.processed.last() == spec);
                }
            } else {
                lemma_settle_contained(s.logged(OutcomeView::NotCopied(spec)), allowed, entries);
            }
        },
        _ => {},
    }
}

proof fn lemma_allowed_packages(
    imports: Seq<SpecView>,
    allowed: spec_fn(SpecView) -> bool,
    entries: Seq<EntryView>,
)
    requires
        forall|i: int| 0 <= i < imports.len() ==> allowed(#[trigger] imports[i]),
    ensures
        forall|i: int|
            0 <= i < package_tasks(imports).len() ==> task_allowed(
                #[trigger] package_tasks(imports)[i],
                allowed,
                entries,
            ),
    decreases imports.len(),
{
    if imports.len() > 0 {
        let rest = imports.skip(1);
        assert(forall|i: int| 0 <= i < rest.len() ==> #[trigger] rest[i] == imports[i + 1]);
        assert(allowed(imports[0]));
        lemma_allowed_packages(rest, allowed, entries);
        let tasks = package_tasks(imports);
        assert forall|i: int| 0 <= i < tasks.len() implies task_allowed(
            #[trigger] tasks[i],
            allowed,
            entries,
        ) by {
            if i < package_tasks(rest).len() {
                assert(tasks[i] == package_tasks(rest)[i]);
            }
        }
    }
}

proof fn lemma_run_contained(
    entries: Seq<EntryView>,
    discover: Seq<PlaceView>,
    configured: Seq<Seq<char>>,
    events: Seq<EventView>,
    n: int,
)
    requires
        0 <= n <= events.len(),
    ensures
        ({
            let s0 = start(entries, discover, configured);
            let allowed = |spec: SpecView|
                asked_for(entries, spec) || is_imported(s0, events, spec);
            &&& contained(run(s0, events.take(n)), allowed, entries)
            &&& request_allowed(run(s0, events.take(n)), entries)
        }),
    decreases n,
{
    let s0 = start(entries, discover, configured);
    let allowed = |spec: SpecView| asked_for(entries, spec) || is_imported(s0, events, spec);
    if n == 0 {
        let first = entries.map_values(|entry: EntryView| entry_task(entry)).reverse();
        let second = discover.map_values(|place: PlaceView| TaskView::Discover(place)).reverse();
        let s = GatherView {
            configured,
            processed: Seq::empty(),
            log: Seq::empty(),
            discovered: Seq::empty(),
            tasks: first + second,
            request: RequestView::Done,
        };
        assert forall|i: int| 0 <= i < s.tasks.len() implies task_allowed(
            #[trigger] s.tasks[i],
            allowed,
            entries,
        ) by {
            if i < first.len() {
                let j = entries.len() - 1 - i;
                assert(s.tasks[i] == entry_task(entries[j]));
                match entries[j] {
                    EntryView::Preview { name, version } => match version_of(version) {
                        Some(v) => {
                            assert(asks_for(entries[j], preview_spec(name, v)));
                            assert(allowed(preview_spec(name, v)));
                        },
                        None => {},
                    },
                    _ => {},
                }
            } else {
                assert(s.tasks[i] == second[i - first.len()]);
            }
        }
        lemma_settle_contained(s, allowed, entries);
        assert(events.take(0) =~= Seq::empty());
    } else {
        let s = run(s0, events.take(n - 1));
        let event = events[n - 1];
        lemma_run_contained(entries, discover, configured, events, n - 1);
        lemma_run_step(s0, events, n - 1);
        if (s.request is Read || s.request is Walk) && event is Imports {
            let imports = event->Imports_0;
            assert forall|i: int| 0 <= i < imports.len() implies allowed(
                #[trigger] imports[i],
            ) by {
                assert(imports.contains(imports[i]));
                assert(imports_at(s0, events, n - 1, imports[i]));
            }
        }
        lemma_step_contained(s, event, allowed, entries);
    }
}

/// Nothing else is gathered: each package that was downloaded, was there already or
/// could not be downloaded is an entry, or is imported by a scanned file or by a
/// package that was taken up; and each package that was copied is a local entry.
pub proof fn law_nothing_else_is_gathered(
    entries: Seq<EntryView>,
    discover: Seq<PlaceView>,
    configured: Seq<Seq<char>>,
    events: Seq<EventView>,
)
    ensures
        ({
            let s0 = start(entries, discover, configured);
            let log = run(s0, events).log;
            &&& forall|spec: SpecView| #[trigger]
                settled(log).contains(spec) ==> asked_for(entries, spec) || is_imported(
                    s0,
                    events,
                    spec,
                )
            &&& forall|i: int| 0 <= i < log.len() ==> outcome_allowed(#[trigger] log[i], entries)
        }),
{
    let s0 = start(entries, discover, configured);
    let s = run(s0, events);
    let allowed = |spec: SpecView| asked_for(entries, spec) || is_imported(s0, events, spec);
    lemma_run_contained(entries, discover, configured, events, events.len() as int);
    assert(events.take(events.len() as int) =~= events);
    law_invariant(entries, discover, configured, events);
    lemma_previews(s.processed);
    assert forall|spec: SpecView| #[trigger] settled(s.log).contains(spec) implies asked_for(
        entries,
        spec,
    ) || is_imported(s0, events, spec) by {
        let i = choose|i: int| 0 <= i < settled(s.log).len() && settled(s.log)[i] == spec;
        assert(previews(s.processed)[i] == spec);
        assert(previews(s.processed).contains(spec));
        let k = choose|k: int| 0 <= k < s.processed.len() && s.processed[k] == spec;
        assert(s.processed[k].namespace == "preview"@);
        assert(allowed(s.processed[k]));
    }
}

} // verus!
