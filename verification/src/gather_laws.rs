//! What holds of every gather operation, whatever the answers to its requests
//! are.

use vstd::prelude::*;

use crate::config::{EntryView, PlaceView};
use crate::gather::{
    after_look, after_read, entry_task, has_name, local_spec, note_locals, package_tasks,
    preview_spec, settle, source_tasks, start, step, tally, unconfigured, EventView, GatherView,
    OutcomeView, RequestView, TaskView,
};
use crate::package::{version_of, SpecView};
use crate::seqs::{lemma_concat_contains, lemma_prefix_contains, lemma_push_contains};
use crate::world::sources_of;

verus! {

/// The state after several events.
pub open spec fn run(s: GatherView, events: Seq<EventView>) -> GatherView
    decreases events.len(),
{
    if events.len() == 0 {
        s
    } else {
        step(run(s, events.drop_last()), events.last())
    }
}

/// The packages of the `preview` namespace among some.
pub open spec fn previews(specs: Seq<SpecView>) -> Seq<SpecView>
    decreases specs.len(),
{
    if specs.len() == 0 {
        Seq::empty()
    } else if specs.last().namespace == "preview"@ {
        previews(specs.drop_last()).push(specs.last())
    } else {
        previews(specs.drop_last())
    }
}

/// The packages that a log says were downloaded, were there already, or could
/// not be downloaded.
pub open spec fn settled(log: Seq<OutcomeView>) -> Seq<SpecView>
    decreases log.len(),
{
    if log.len() == 0 {
        Seq::empty()
    } else {
        let before = settled(log.drop_last());
        match log.last() {
            OutcomeView::Downloaded(spec) => before.push(spec),
            OutcomeView::Skipped(spec) => before.push(spec),
            OutcomeView::NotDownloaded(spec) => before.push(spec),
            _ => before,
        }
    }
}

/// The package that a request is to make available.
pub open spec fn in_flight(request: RequestView) -> Seq<SpecView> {
    match request {
        RequestView::FindCached(spec) => seq![spec],
        RequestView::Download(spec) => seq![spec],
        _ => Seq::empty(),
    }
}

/// What is kept between events, where `open` are the packages that were taken
/// up and did not come to an end.
pub open spec fn tidy(s: GatherView, open: Seq<SpecView>) -> bool {
    &&& s.processed.no_duplicates()
    &&& previews(s.processed) == settled(s.log) + open
    &&& forall|i: int|
        0 <= i < s.processed.len() && (#[trigger] s.processed[i]).namespace == "preview"@
            ==> !s.configured.contains(s.processed[i].name)
    &&& forall|i: int|
        0 <= i < s.tasks.len() ==> ((#[trigger] s.tasks[i]) matches TaskView::Package(spec)
            ==> spec.namespace == "preview"@)
    &&& forall|i: int, j: int|
        0 <= i < j < s.discovered.len() ==> (#[trigger] s.discovered[i]).0
            != (#[trigger] s.discovered[j]).0
}

/// What holds in every state of a gather operation.
pub open spec fn inv(s: GatherView) -> bool {
    &&& tidy(s, in_flight(s.request))
    &&& s.request is Done ==> s.tasks.len() == 0
    &&& match s.request {
        RequestView::FindCached(spec) => spec.namespace == "preview"@,
        RequestView::Download(spec) => spec.namespace == "preview"@,
        RequestView::Clear { spec, .. } => spec.namespace == "local"@,
        RequestView::Copy { spec, .. } => spec.namespace == "local"@,
        _ => true,
    }
}

/// Whether one state has all that another one has.
pub open spec fn follows(s: GatherView, t: GatherView) -> bool {
    &&& t.configured == s.configured
    &&& s.processed.is_prefix_of(t.processed)
    &&& s.log.is_prefix_of(t.log)
    &&& s.discovered.is_prefix_of(t.discovered)
}

pub(crate) proof fn lemma_settle_inv(s: GatherView)
    requires
        tidy(s, Seq::empty()),
    ensures
        inv(settle(s)),
        follows(s, settle(s)),
    decreases s.tasks.len(),
{
    if s.tasks.len() > 0 {
        let rest = GatherView { tasks: s.tasks.drop_last(), ..s };
        let last = s.tasks.last();
        assert(last == s.tasks[s.tasks.len() - 1]);
        assert(tidy(rest, Seq::empty()));
        match last {
            TaskView::Package(spec) => {
                if rest.wants(spec) {
                    lemma_taking(rest, spec);
                } else {
                    lemma_settle_inv(rest);
                }
            },
            TaskView::Preview { name, version, parsed } => match parsed {
                Some(v) => {
                    let spec = preview_spec(name, v);
                    if rest.wants(spec) {
                        lemma_taking(rest, spec);
                    } else {
                        lemma_settle_inv(rest);
                    }
                },
                None => {
                    let next = rest.logged(OutcomeView::InvalidVersion { name, version });
                    assert(next.log.drop_last() =~= s.log);
                    assert(tidy(next, Seq::empty()));
                    lemma_settle_inv(next);
                },
            },
            _ => {},
        }
    }
}

proof fn lemma_taking(s: GatherView, spec: SpecView)
    requires
        tidy(s, Seq::empty()),
        s.wants(spec),
        spec.namespace == "preview"@,
    ensures
        inv(s.taking(spec)),
        follows(s, s.taking(spec)),
{
    let t = s.taking(spec);
    assert(t.processed.drop_last() =~= s.processed);
    assert(previews(t.processed) =~= settled(t.log) + seq![spec]);
    assert(t.processed.no_duplicates());
}

pub(crate) proof fn lemma_package_tasks(imports: Seq<SpecView>)
    ensures
        forall|i: int|
            0 <= i < package_tasks(imports).len() ==> ((#[trigger] package_tasks(
                imports,
            )[i]) matches TaskView::Package(spec) && spec.namespace == "preview"@),
        forall|i: int|
            0 <= i < imports.len() && (#[trigger] imports[i]).namespace == "preview"@
                ==> package_tasks(imports).contains(TaskView::Package(imports[i])),
    decreases imports.len(),
{
    if imports.len() > 0 {
        let rest = imports.skip(1);
        lemma_package_tasks(rest);
        let tasks = package_tasks(imports);
        assert forall|i: int|
            0 <= i < imports.len() && (
            #[trigger] imports[i]).namespace == "preview"@ implies tasks.contains(
            TaskView::Package(imports[i]),
        ) by {
            if i == 0 {
                assert(tasks.last() == TaskView::Package(imports[0]));
            } else {
                assert(imports[i] == rest[i - 1]);
                let k = choose|k: int|
                    0 <= k < package_tasks(rest).len() && package_tasks(rest)[k]
                        == TaskView::Package(rest[i - 1]);
                assert(tasks[k] == TaskView::Package(imports[i]));
            }
        }
    }
}

proof fn lemma_note_locals(
    discovered: Seq<(Seq<char>, Seq<char>)>,
    imports: Seq<SpecView>,
    source: Seq<char>,
)
    requires
        forall|i: int, j: int|
            0 <= i < j < discovered.len() ==> (#[trigger] discovered[i]).0 != (
            #[trigger] discovered[j]).0,
    ensures
        ({
            let noted = note_locals(discovered, imports, source);
            &&& discovered.is_prefix_of(noted)
            &&& forall|i: int, j: int|
                0 <= i < j < noted.len() ==> (#[trigger] noted[i]).0 != (#[trigger] noted[j]).0
        }),
    decreases imports.len(),
{
    if imports.len() > 0 {
        lemma_note_locals(discovered, imports.drop_last(), source);
    }
}

proof fn lemma_logged(s: GatherView, outcome: OutcomeView)
    ensures
        s.logged(outcome).log.drop_last() == s.log,
        s.log.is_prefix_of(s.logged(outcome).log),
{
    assert(s.logged(outcome).log.drop_last() =~= s.log);
}

pub(crate) proof fn lemma_step_inv(s: GatherView, event: EventView)
    requires
        inv(s),
    ensures
        inv(step(s, event)),
        follows(s, step(s, event)),
{
    reveal_strlit("preview");
    reveal_strlit("local");
    assert("preview"@ != "local"@) by {
        assert("preview"@.len() != "local"@.len());
    }
    match (s.request, event) {
        (RequestView::Look(place), EventView::Found(found)) => {
            let next = after_look(s, place, found);
            lemma_logged(s, OutcomeView::NotListed(place));
            assert(tidy(next, Seq::empty()));
            lemma_settle_inv(next);
        },
        (RequestView::Read { id, name }, EventView::Imports(imports)) => {
            let next = after_read(s, name, imports);
            lemma_package_tasks(imports);
            lemma_note_locals(s.discovered, imports, name);
            assert(tidy(next, Seq::empty()));
            lemma_settle_inv(next);
        },
        (RequestView::FindCached(spec), EventView::Answer(yes)) => {
            lemma_logged(s, OutcomeView::Skipped(spec));
            if yes {
                let next = s.logged(OutcomeView::Skipped(spec));
                assert(previews(next.processed) =~= settled(next.log) + Seq::empty());
            }
        },
        (RequestView::Download(spec), EventView::Answer(yes)) => {
            lemma_logged(s, OutcomeView::Downloaded(spec));
            lemma_logged(s, OutcomeView::NotDownloaded(spec));
            if yes {
                let next = s.logged(OutcomeView::Downloaded(spec));
                assert(previews(next.processed) =~= settled(next.log) + Seq::empty());
            } else {
                let next = s.logged(OutcomeView::NotDownloaded(spec));
                assert(previews(next.processed) =~= settled(next.log) + Seq::empty());
                lemma_settle_inv(next);
            }
        },
        (RequestView::Walk(spec), EventView::Imports(imports)) => {
            let next = GatherView { tasks: s.tasks + package_tasks(imports), ..s };
            lemma_package_tasks(imports);
            assert(tidy(next, Seq::empty()));
            lemma_settle_inv(next);
        },
        (RequestView::ReadManifest { name, dir }, EventView::Manifest(manifest)) => match manifest {
            None => {
                lemma_logged(s, OutcomeView::NoManifest { name });
                lemma_settle_inv(s.logged(OutcomeView::NoManifest { name }));
            },
            Some(m) => if m.name != name {
                lemma_logged(s, OutcomeView::NameMismatch { name, found: m.name });
                lemma_settle_inv(s.logged(OutcomeView::NameMismatch { name, found: m.name }));
            },
        },
        (RequestView::Clear { spec, dir, exclude }, EventView::Answer(yes)) => if !yes {
            lemma_logged(s, OutcomeView::NotCleared(spec));
            lemma_settle_inv(s.logged(OutcomeView::NotCleared(spec)));
        },
        (RequestView::Copy { spec, dir, exclude }, EventView::Answer(yes)) => if yes {
            lemma_logged(s, OutcomeView::Copied(spec));
            let next = s.logged(OutcomeView::Copied(spec)).marking(spec);
            if !s.processed.contains(spec) {
                assert(next.processed.drop_last() =~= s.processed);
            }
            assert(tidy(next, Seq::empty()));
        } else {
            lemma_logged(s, OutcomeView::NotCopied(spec));
            lemma_settle_inv(s.logged(OutcomeView::NotCopied(spec)));
        },
        _ => {},
    }
}

pub(crate) proof fn lemma_run_step(s: GatherView, events: Seq<EventView>, k: int)
    requires
        0 <= k < events.len(),
    ensures
        run(s, events.take(k + 1)) == step(run(s, events.take(k)), events[k]),
{
    assert(events.take(k + 1).drop_last() =~= events.take(k));
}

pub(crate) proof fn lemma_previews(specs: Seq<SpecView>)
    ensures
        forall|spec: SpecView|
            #[trigger] previews(specs).contains(spec) <==> specs.contains(spec) && spec.namespace
                == "preview"@,
        specs.no_duplicates() ==> previews(specs).no_duplicates(),
    decreases specs.len(),
{
    if specs.len() > 0 {
        let front = specs.drop_last();
        lemma_previews(front);
        assert(specs =~= front.push(specs.last()));
        assert forall|spec: SpecView|
            #[trigger] previews(specs).contains(spec) <==> specs.contains(spec) && spec.namespace
                == "preview"@ by {
            lemma_push_contains(front, specs.last(), spec);
            lemma_push_contains(previews(front), specs.last(), spec);
            assert(previews(front).contains(spec) <==> front.contains(spec) && spec.namespace
                == "preview"@);
        }
        if specs.no_duplicates() {
            assert(!front.contains(specs.last()));
            assert(!previews(front).contains(specs.last()));
        }
    }
}

/// The invariant holds from the start, whatever happens.
pub proof fn law_invariant(
    entries: Seq<EntryView>,
    discover: Seq<PlaceView>,
    configured: Seq<Seq<char>>,
    events: Seq<EventView>,
)
    ensures
        inv(run(start(entries, discover, configured), events)),
        run(start(entries, discover, configured), events).configured == configured,
    decreases events.len(),
{
    if events.len() == 0 {
        let tasks = entries.map_values(|entry: EntryView| entry_task(entry)).reverse()
            + discover.map_values(|place: PlaceView| TaskView::Discover(place)).reverse();
        let s = GatherView {
            configured,
            processed: Seq::empty(),
            log: Seq::empty(),
            discovered: Seq::empty(),
            tasks,
            request: RequestView::Done,
        };
        assert(previews(s.processed) =~= settled(s.log) + Seq::empty());
        assert(tidy(s, Seq::empty()));
        lemma_settle_inv(s);
    } else {
        law_invariant(entries, discover, configured, events.drop_last());
        lemma_step_inv(run(start(entries, discover, configured), events.drop_last()), events.last());
    }
}

/// Nothing is forgotten: what was taken up, logged or discovered stays, in its
/// place.
pub proof fn law_only_grows(
    entries: Seq<EntryView>,
    discover: Seq<PlaceView>,
    configured: Seq<Seq<char>>,
    events: Seq<EventView>,
    k: int,
)
    requires
        0 <= k <= events.len(),
    ensures
        follows(
            run(start(entries, discover, configured), events.take(k)),
            run(start(entries, discover, configured), events),
        ),
    decreases events.len(),
{
    if k == events.len() {
        assert(events.take(k) =~= events);
    } else {
        let front = events.drop_last();
        law_only_grows(entries, discover, configured, front, k);
        assert(front.take(k) =~= events.take(k));
        law_invariant(entries, discover, configured, front);
        lemma_step_inv(run(start(entries, discover, configured), front), events.last());
    }
}

/// Each package is taken up at most once, and what is taken up comes to exactly
/// one end: in the order in which they were taken up, the `preview` packages are
/// those that the log says were downloaded, were there already or could not be
/// downloaded, and after them the one that is being made available.
pub proof fn law_each_package_once(
    entries: Seq<EntryView>,
    discover: Seq<PlaceView>,
    configured: Seq<Seq<char>>,
    events: Seq<EventView>,
)
    ensures
        ({
            let s = run(start(entries, discover, configured), events);
            &&& s.processed.no_duplicates()
            &&& previews(s.processed) == settled(s.log) + in_flight(s.request)
            &&& settled(s.log).no_duplicates()
            &&& s.request is Done ==> previews(s.processed) == settled(s.log)
        }),
{
    law_invariant(entries, discover, configured, events);
    let s = run(start(entries, discover, configured), events);
    lemma_previews(s.processed);
    let all = settled(s.log) + in_flight(s.request);
    assert forall|i: int, j: int|
        0 <= i < settled(s.log).len() && 0 <= j < settled(s.log).len() && i != j implies settled(
        s.log,
    )[i] != settled(s.log)[j] by {
        assert(all[i] == settled(s.log)[i] && all[j] == settled(s.log)[j]);
    }
    if s.request is Done {
        assert(all =~= settled(s.log));
    }
}

/// A package that is configured as a local package is never looked for or
/// downloaded as a `preview` package.
pub proof fn law_local_overrides_preview(
    entries: Seq<EntryView>,
    discover: Seq<PlaceView>,
    configured: Seq<Seq<char>>,
    events: Seq<EventView>,
    spec: SpecView,
)
    requires
        configured.contains(spec.name),
    ensures
        ({
            let s = run(start(entries, discover, configured), events);
            &&& s.request != RequestView::FindCached(spec)
            &&& s.request != RequestView::Download(spec)
            &&& !settled(s.log).contains(spec)
        }),
{
    law_invariant(entries, discover, configured, events);
    let s = run(start(entries, discover, configured), events);
    lemma_previews(s.processed);
    let open = in_flight(s.request);
    let all = settled(s.log) + open;
    if settled(s.log).contains(spec) || open.contains(spec) {
        if settled(s.log).contains(spec) {
            let i = choose|i: int| 0 <= i < settled(s.log).len() && settled(s.log)[i] == spec;
            assert(all[i] == spec);
        } else {
            let i = choose|i: int| 0 <= i < open.len() && open[i] == spec;
            assert(all[settled(s.log).len() + i] == spec);
        }
        assert(previews(s.processed).contains(spec));
        let k = choose|k: int| 0 <= k < s.processed.len() && s.processed[k] == spec;
        assert(!s.configured.contains(s.processed[k].name));
    }
    if s.request == RequestView::FindCached(spec) || s.request == RequestView::Download(spec) {
        assert(open[0] == spec);
    }
}

/// A package is downloaded only if it was not found in the destination, is
/// copied only once what stood in its place was removed, and is removed only for
/// a local package whose manifest was read and bears its name.
pub proof fn law_order_of_actions(s: GatherView, event: EventView)
    ensures
        ({
            let t = step(s, event);
            &&& t.request matches RequestView::Download(spec) ==> t == s || (s.request
                == RequestView::FindCached(spec) && event == EventView::Answer(false))
            &&& t.request matches RequestView::Copy { spec, dir, exclude } ==> t == s || (s.request
                == RequestView::Clear { spec, dir, exclude } && event == EventView::Answer(true))
            &&& t.request matches RequestView::Clear { spec, dir, exclude } ==> t == s || (exists|m|
                {
                    &&& event == EventView::Manifest(Some(m))
                    &&& s.request == RequestView::ReadManifest { name: m.name, dir }
                    &&& spec == local_spec(m.name, m.version)
                    &&& exclude == m.exclude
                })
        }),
{
    lemma_settle_requests(after_look(s, s.request->Look_0, event->Found_0));
    lemma_settle_requests(after_read(s, s.request->Read_name, event->Imports_0));
    lemma_settle_requests(GatherView { tasks: s.tasks + package_tasks(event->Imports_0), ..s });
    match (s.request, event) {
        (RequestView::Download(spec), EventView::Answer(yes)) => {
            lemma_settle_requests(s.logged(OutcomeView::NotDownloaded(spec)));
        },
        (RequestView::ReadManifest { name, dir }, EventView::Manifest(manifest)) => match manifest {
            None => lemma_settle_requests(s.logged(OutcomeView::NoManifest { name })),
            Some(m) => if m.name != name {
                lemma_settle_requests(
                    s.logged(OutcomeView::NameMismatch { name, found: m.name }),
                );
            },
        },
        (RequestView::Clear { spec, dir, exclude }, EventView::Answer(yes)) => {
            lemma_settle_requests(s.logged(OutcomeView::NotCleared(spec)));
        },
        (RequestView::Copy { spec, dir, exclude }, EventView::Answer(yes)) => {
            lemma_settle_requests(s.logged(OutcomeView::NotCopied(spec)));
        },
        _ => {},
    }
}

pub(crate) proof fn lemma_settle_requests(s: GatherView)
    ensures
        !(settle(s).request is Download),
        !(settle(s).request is Walk),
        !(settle(s).request is Clear),
        !(settle(s).request is Copy),
    decreases s.tasks.len(),
{
    if s.tasks.len() > 0 {
        let rest = GatherView { tasks: s.tasks.drop_last(), ..s };
        lemma_settle_requests(rest);
        match s.tasks.last() {
            TaskView::Preview { name, version, parsed } => {
                lemma_settle_requests(rest.logged(OutcomeView::InvalidVersion { name, version }));
            },
            _ => {},
        }
    }
}

/// Whether an outcome is what came of a local package.
pub open spec fn local_outcome(outcome: OutcomeView, name: Seq<char>) -> bool {
    match outcome {
        OutcomeView::Copied(spec) => spec == local_spec(name, spec.version),
        OutcomeView::NotCleared(spec) => spec == local_spec(name, spec.version),
        OutcomeView::NotCopied(spec) => spec == local_spec(name, spec.version),
        OutcomeView::NoManifest { name: n } => n == name,
        OutcomeView::NameMismatch { name: n, .. } => n == name,
        _ => false,
    }
}

/// Whether nothing is left of a task but what a package imports: a package was
/// taken up or is configured as a local one, or the log says what came of it.
pub open spec fn ended(s: GatherView, task: TaskView) -> bool {
    match task {
        TaskView::Package(spec) => s.configured.contains(spec.name) || s.processed.contains(spec),
        TaskView::Preview { name, version, parsed } => match parsed {
            Some(v) => s.configured.contains(name) || s.processed.contains(preview_spec(name, v)),
            None => s.log.contains(OutcomeView::InvalidVersion { name, version }),
        },
        TaskView::Local { name, dir } => exists|i: int|
            0 <= i < s.log.len() && local_outcome(#[trigger] s.log[i], name),
        _ => false,
    }
}

/// Whether a request belongs to a task.
pub open spec fn under_way(request: RequestView, task: TaskView) -> bool {
    match (request, task) {
        (RequestView::Look(place), TaskView::Discover(p)) => place == p,
        (RequestView::Read { id, name }, TaskView::Source { id: i, name: n }) => id == i && name
            == n,
        (RequestView::ReadManifest { name, dir }, TaskView::Local { name: n, dir: d }) => name == n
            && dir == d,
        (RequestView::Clear { spec, .. }, TaskView::Local { name, .. }) => spec == local_spec(
            name,
            spec.version,
        ),
        (RequestView::Copy { spec, .. }, TaskView::Local { name, .. }) => spec == local_spec(
            name,
            spec.version,
        ),
        _ => false,
    }
}

/// Whether a task is still to be done, is being done, or was done.
pub open spec fn kept(s: GatherView, task: TaskView) -> bool {
    s.tasks.contains(task) || under_way(s.request, task) || ended(s, task)
}

pub(crate) proof fn lemma_settle_follows(s: GatherView)
    ensures
        follows(s, settle(s)),
    decreases s.tasks.len(),
{
    if s.tasks.len() > 0 {
        let rest = GatherView { tasks: s.tasks.drop_last(), ..s };
        lemma_settle_follows(rest);
        match s.tasks.last() {
            TaskView::Preview { name, version, parsed } => {
                lemma_settle_follows(rest.logged(OutcomeView::InvalidVersion { name, version }));
            },
            _ => {},
        }
    }
}

proof fn lemma_ended_stays(s: GatherView, t: GatherView, task: TaskView)
    requires
        follows(s, t),
        ended(s, task),
    ensures
        ended(t, task),
{
    match task {
        TaskView::Package(spec) => {
            lemma_prefix_contains(s.processed, t.processed, spec);
        },
        TaskView::Preview { name, version, parsed } => match parsed {
            Some(v) => lemma_prefix_contains(s.processed, t.processed, preview_spec(name, v)),
            None => lemma_prefix_contains(
                s.log,
                t.log,
                OutcomeView::InvalidVersion { name, version },
            ),
        },
        TaskView::Local { name, dir } => {
            let i = choose|i: int|
                0 <= i < s.log.len() && local_outcome(#[trigger] s.log[i], name);
            assert(t.log[i] == s.log[i]);
        },
        _ => {},
    }
}

proof fn lemma_settle_keeps(s: GatherView, task: TaskView)
    requires
        s.tasks.contains(task) || ended(s, task),
    ensures
        kept(settle(s), task),
    decreases s.tasks.len(),
{
    if ended(s, task) {
        lemma_settle_follows(s);
        lemma_ended_stays(s, settle(s), task);
    } else {
        let rest = GatherView { tasks: s.tasks.drop_last(), ..s };
        let last = s.tasks.last();
        lemma_push_contains(rest.tasks, last, task);
        assert(s.tasks =~= rest.tasks.push(last));
        match last {
            TaskView::Package(spec) => {
                if rest.wants(spec) {
                    assert(rest.taking(spec).processed.last() == spec);
                } else {
                    lemma_settle_keeps(rest, task);
                }
            },
            TaskView::Preview { name, version, parsed } => match parsed {
                Some(v) => {
                    let spec = preview_spec(name, v);
                    if rest.wants(spec) {
                        assert(rest.taking(spec).processed.last() == spec);
                    } else {
                        lemma_settle_keeps(rest, task);
                    }
                },
                None => {
                    let next = rest.logged(OutcomeView::InvalidVersion { name, version });
                    assert(next.log.last() == OutcomeView::InvalidVersion { name, version });
                    lemma_settle_keeps(next, task);
                },
            },
            _ => {},
        }
    }
}

proof fn lemma_log_keeps(s: GatherView, outcome: OutcomeView, task: TaskView)
    requires
        s.tasks.contains(task) || ended(s, task) || (task matches TaskView::Local { name, dir }
            && local_outcome(outcome, name)),
    ensures
        kept(settle(s.logged(outcome)), task),
        ended(s.logged(outcome), task) || s.tasks.contains(task),
{
    let next = s.logged(outcome);
    assert(next.log.last() == outcome);
    if ended(s, task) {
        lemma_ended_stays(s, next, task);
    }
    lemma_settle_keeps(next, task);
}

/// Whether a task is done in one step once it was begun.
pub open spec fn brief(task: TaskView) -> bool {
    task is Discover || task is Source
}

proof fn lemma_step_keeps(s: GatherView, event: EventView, task: TaskView)
    requires
        inv(s),
        kept(s, task),
        brief(task) ==> !under_way(s.request, task),
    ensures
        kept(step(s, event), task),
{
    lemma_step_inv(s, event);
    if ended(s, task) {
        lemma_ended_stays(s, step(s, event), task);
    } else {
        match (s.request, event) {
            (RequestView::Look(place), EventView::Found(found)) => {
                let next = after_look(s, place, found);
                lemma_concat_contains(s.tasks, source_tasks(sources_of(found)), task);
                lemma_settle_keeps(next, task);
            },
            (RequestView::Read { id, name }, EventView::Imports(imports)) => {
                let next = after_read(s, name, imports);
                lemma_concat_contains(s.tasks, package_tasks(imports), task);
                lemma_settle_keeps(next, task);
            },
            (RequestView::Download(spec), EventView::Answer(yes)) => if !yes {
                lemma_log_keeps(s, OutcomeView::NotDownloaded(spec), task);
            },
            (RequestView::Walk(spec), EventView::Imports(imports)) => {
                let next = GatherView { tasks: s.tasks + package_tasks(imports), ..s };
                lemma_concat_contains(s.tasks, package_tasks(imports), task);
                lemma_settle_keeps(next, task);
            },
            (
                RequestView::ReadManifest { name, dir },
                EventView::Manifest(manifest),
            ) => match manifest {
                None => lemma_log_keeps(s, OutcomeView::NoManifest { name }, task),
                Some(m) => if m.name != name {
                    lemma_log_keeps(s, OutcomeView::NameMismatch { name, found: m.name }, task);
                },
            },
            (RequestView::Clear { spec, dir, exclude }, EventView::Answer(yes)) => if !yes {
                lemma_log_keeps(s, OutcomeView::NotCleared(spec), task);
            },
            (RequestView::Copy { spec, dir, exclude }, EventView::Answer(yes)) => if yes {
                lemma_log_keeps(s, OutcomeView::Copied(spec), task);
            } else {
                lemma_log_keeps(s, OutcomeView::NotCopied(spec), task);
            },
            _ => {},
        }
    }
}

pub(crate) proof fn lemma_run_inv(s: GatherView, events: Seq<EventView>)
    requires
        inv(s),
    ensures
        inv(run(s, events)),
        run(s, events).configured == s.configured,
    decreases events.len(),
{
    if events.len() > 0 {
        lemma_run_inv(s, events.drop_last());
        lemma_step_inv(run(s, events.drop_last()), events.last());
    }
}

proof fn lemma_run_keeps(s: GatherView, events: Seq<EventView>, k: int, n: int, task: TaskView)
    requires
        inv(s),
        0 <= k <= n <= events.len(),
        kept(run(s, events.take(k)), task),
        !brief(task),
    ensures
        kept(run(s, events.take(n)), task),
    decreases n,
{
    if k < n {
        lemma_run_keeps(s, events, k, n - 1, task);
        lemma_run_inv(s, events.take(n - 1));
        lemma_run_step(s, events, n - 1);
        lemma_step_keeps(run(s, events.take(n - 1)), events[n - 1], task);
    }
}

proof fn lemma_run_begins(s: GatherView, events: Seq<EventView>, k: int, n: int, task: TaskView)
    requires
        inv(s),
        0 <= k <= n <= events.len(),
        kept(run(s, events.take(k)), task),
        brief(task),
    ensures
        run(s, events.take(n)).tasks.contains(task) || exists|j: int|
            k <= j <= n && under_way((#[trigger] run(s, events.take(j))).request, task),
    decreases n,
{
    if under_way(run(s, events.take(n)).request, task) {
    } else if k < n {
        lemma_run_begins(s, events, k, n - 1, task);
        let before = run(s, events.take(n - 1));
        if before.tasks.contains(task) && !under_way(before.request, task) {
            lemma_run_inv(s, events.take(n - 1));
            lemma_run_step(s, events, n - 1);
            lemma_step_keeps(before, events[n - 1], task);
        }
    }
}

proof fn lemma_settled(s: GatherView, spec: SpecView)
    requires
        inv(s),
        s.request is Done,
        s.processed.contains(spec),
        spec.namespace == "preview"@,
    ensures
        settled(s.log).contains(spec),
{
    lemma_previews(s.processed);
    assert(previews(s.processed) =~= settled(s.log));
    assert(previews(s.processed).contains(spec));
}

proof fn lemma_start_keeps(
    entries: Seq<EntryView>,
    discover: Seq<PlaceView>,
    configured: Seq<Seq<char>>,
)
    ensures
        forall|i: int|
            0 <= i < entries.len() ==> kept(
                start(entries, discover, configured),
                #[trigger] entry_task(entries[i]),
            ),
        forall|i: int|
            0 <= i < discover.len() ==> kept(
                start(entries, discover, configured),
                TaskView::Discover(#[trigger] discover[i]),
            ),
{
    let first = entries.map_values(|entry: EntryView| entry_task(entry));
    let second = discover.map_values(|place: PlaceView| TaskView::Discover(place));
    let s = GatherView {
        configured,
        processed: Seq::empty(),
        log: Seq::empty(),
        discovered: Seq::empty(),
        tasks: first.reverse() + second.reverse(),
        request: RequestView::Done,
    };
    assert forall|i: int| 0 <= i < entries.len() implies kept(
        start(entries, discover, configured),
        #[trigger] entry_task(entries[i]),
    ) by {
        assert(s.tasks[entries.len() - 1 - i] == entry_task(entries[i]));
        lemma_settle_keeps(s, entry_task(entries[i]));
    }
    assert forall|i: int| 0 <= i < discover.len() implies kept(
        start(entries, discover, configured),
        TaskView::Discover(#[trigger] discover[i]),
    ) by {
        assert(s.tasks[entries.len() + discover.len() - 1 - i] == TaskView::Discover(discover[i]));
        lemma_settle_keeps(s, TaskView::Discover(discover[i]));
    }
}

/// The imports of everything that is scanned are followed: in the end, each
/// `preview` package that a scanned file or a gathered package imports is
/// configured as a local package, or was downloaded, was there already or could
/// not be downloaded.
pub proof fn law_imports_are_gathered(
    entries: Seq<EntryView>,
    discover: Seq<PlaceView>,
    configured: Seq<Seq<char>>,
    events: Seq<EventView>,
    k: int,
    imports: Seq<SpecView>,
    spec: SpecView,
)
    requires
        0 <= k < events.len(),
        ({
            let request = run(start(entries, discover, configured), events.take(k)).request;
            request is Read || request is Walk
        }),
        events[k] == EventView::Imports(imports),
        imports.contains(spec),
        spec.namespace == "preview"@,
        run(start(entries, discover, configured), events).request is Done,
    ensures
        configured.contains(spec.name) || settled(
            run(start(entries, discover, configured), events).log,
        ).contains(spec),
{
    let s0 = start(entries, discover, configured);
    let s = run(s0, events.take(k));
    let task = TaskView::Package(spec);
    assert(Seq::<EventView>::empty() =~= events.take(0));
    law_invariant(entries, discover, configured, events.take(0));
    lemma_run_inv(s0, events.take(k));
    lemma_run_step(s0, events, k);
    lemma_package_tasks(imports);
    lemma_concat_contains(s.tasks, package_tasks(imports), task);
    match s.request {
        RequestView::Read { id, name } => {
            lemma_settle_keeps(after_read(s, name, imports), task);
        },
        _ => {
            lemma_settle_keeps(
                GatherView { tasks: s.tasks + package_tasks(imports), ..s },
                task,
            );
        },
    }
    lemma_run_keeps(s0, events, k + 1, events.len() as int, task);
    assert(events.take(events.len() as int) =~= events);
    lemma_run_inv(s0, events);
    if !configured.contains(spec.name) {
        lemma_settled(run(s0, events), spec);
    }
}

/// Every package to gather comes to an end: the log says what came of each
/// local package and of each package whose version is none, and each other
/// package is configured as a local package, or was downloaded, was there
/// already or could not be downloaded.
pub proof fn law_entries_are_gathered(
    entries: Seq<EntryView>,
    discover: Seq<PlaceView>,
    configured: Seq<Seq<char>>,
    events: Seq<EventView>,
    i: int,
)
    requires
        0 <= i < entries.len(),
        run(start(entries, discover, configured), events).request is Done,
    ensures
        ({
            let log = run(start(entries, discover, configured), events).log;
            match entries[i] {
                EntryView::Preview { name, version } => match version_of(version) {
                    Some(v) => configured.contains(name) || settled(log).contains(
                        preview_spec(name, v),
                    ),
                    None => log.contains(OutcomeView::InvalidVersion { name, version }),
                },
                EntryView::Local { name, dir } => exists|j: int|
                    0 <= j < log.len() && local_outcome(#[trigger] log[j], name),
            }
        }),
{
    let s0 = start(entries, discover, configured);
    let task = entry_task(entries[i]);
    lemma_start_keeps(entries, discover, configured);
    assert(Seq::<EventView>::empty() =~= events.take(0));
    law_invariant(entries, discover, configured, events.take(0));
    lemma_run_keeps(s0, events, 0, events.len() as int, task);
    assert(events.take(events.len() as int) =~= events);
    lemma_run_inv(s0, events);
    let s = run(s0, events);
    assert(ended(s, task));
    match entries[i] {
        EntryView::Preview { name, version } => match version_of(version) {
            Some(v) => if !configured.contains(name) {
                lemma_settled(s, preview_spec(name, v));
            },
            None => {},
        },
        _ => {},
    }
}

/// In the end, every path was looked at.
pub proof fn law_paths_are_scanned(
    entries: Seq<EntryView>,
    discover: Seq<PlaceView>,
    configured: Seq<Seq<char>>,
    events: Seq<EventView>,
    i: int,
)
    requires
        0 <= i < discover.len(),
        run(start(entries, discover, configured), events).request is Done,
    ensures
        exists|j: int|
            0 <= j <= events.len() && (#[trigger] run(
                start(entries, discover, configured),
                events.take(j),
            )).request == RequestView::Look(discover[i]),
{
    let s0 = start(entries, discover, configured);
    let task = TaskView::Discover(discover[i]);
    lemma_start_keeps(entries, discover, configured);
    assert(Seq::<EventView>::empty() =~= events.take(0));
    law_invariant(entries, discover, configured, events.take(0));
    lemma_run_begins(s0, events, 0, events.len() as int, task);
    assert(events.take(events.len() as int) =~= events);
    lemma_run_inv(s0, events);
    let j = choose|j: int|
        0 <= j <= events.len() && under_way((#[trigger] run(s0, events.take(j))).request, task);
    assert(run(s0, events.take(j)).request == RequestView::Look(discover[i]));
}

/// In the end, every source file that was found at a path was read.
pub proof fn law_sources_are_read(
    entries: Seq<EntryView>,
    discover: Seq<PlaceView>,
    configured: Seq<Seq<char>>,
    events: Seq<EventView>,
    k: int,
    i: int,
)
    requires
        0 <= k < events.len(),
        run(start(entries, discover, configured), events.take(k)).request is Look,
        events[k] is Found,
        0 <= i < sources_of(events[k]->Found_0).len(),
        run(start(entries, discover, configured), events).request is Done,
    ensures
        exists|j: int|
            k < j <= events.len() && (#[trigger] run(
                start(entries, discover, configured),
                events.take(j),
            )).request == (RequestView::Read {
                id: sources_of(events[k]->Found_0)[i].0,
                name: sources_of(events[k]->Found_0)[i].1,
            }),
{
    let s0 = start(entries, discover, configured);
    let s = run(s0, events.take(k));
    let found = events[k]->Found_0;
    let files = sources_of(found);
    let request = RequestView::Read { id: files[i].0, name: files[i].1 };
    let task = TaskView::Source { id: files[i].0, name: files[i].1 };
    assert(Seq::<EventView>::empty() =~= events.take(0));
    law_invariant(entries, discover, configured, events.take(0));
    lemma_run_step(s0, events, k);
    assert(source_tasks(files)[files.len() - 1 - i] == task);
    lemma_concat_contains(s.tasks, source_tasks(files), task);
    lemma_settle_keeps(after_look(s, s.request->Look_0, found), task);
    lemma_run_begins(s0, events, k + 1, events.len() as int, task);
    assert(events.take(events.len() as int) =~= events);
    lemma_run_inv(s0, events);
    let j = choose|j: int|
        k + 1 <= j <= events.len() && under_way((#[trigger] run(s0, events.take(j))).request, task);
    assert(run(s0, events.take(j)).request == request);
}

/// Whether the event at `k` tells that a scanned file imports a local package.
pub open spec fn imports_local(
    s: GatherView,
    events: Seq<EventView>,
    k: int,
    name: Seq<char>,
    source: Seq<char>,
) -> bool {
    &&& 0 <= k < events.len()
    &&& run(s, events.take(k)).request matches RequestView::Read { id, name: file }
    &&& file == source
    &&& events[k] matches EventView::Imports(imports)
    &&& names_local(imports, name)
}

/// Whether a package of the `local` namespace and of a name is among some.
pub open spec fn names_local(imports: Seq<SpecView>, name: Seq<char>) -> bool {
    exists|i: int|
        0 <= i < imports.len() && (#[trigger] imports[i]).namespace == "local"@ && imports[i].name
            == name
}

proof fn lemma_names_local_push(imports: Seq<SpecView>, name: Seq<char>)
    requires
        imports.len() > 0,
    ensures
        names_local(imports, name) <==> names_local(imports.drop_last(), name) || (
        imports.last().namespace == "local"@ && imports.last().name == name),
{
    let front = imports.drop_last();
    if names_local(front, name) {
        let i = choose|i: int|
            0 <= i < front.len() && (#[trigger] front[i]).namespace == "local"@ && front[i].name
                == name;
        assert(imports[i] == front[i]);
    }
    if names_local(imports, name) {
        let i = choose|i: int|
            0 <= i < imports.len() && (#[trigger] imports[i]).namespace == "local"@
                && imports[i].name == name;
        if i < front.len() {
            assert(front[i] == imports[i]);
        }
    }
    if imports.last().namespace == "local"@ && imports.last().name == name {
        assert(imports[imports.len() - 1].name == name);
    }
}

proof fn lemma_noted(
    discovered: Seq<(Seq<char>, Seq<char>)>,
    imports: Seq<SpecView>,
    source: Seq<char>,
)
    ensures
        ({
            let noted = note_locals(discovered, imports, source);
            &&& discovered.is_prefix_of(noted)
            &&& forall|name: Seq<char>| #[trigger]
                has_name(noted, name) <==> has_name(discovered, name) || names_local(imports, name)
            &&& forall|i: int|
                discovered.len() <= i < noted.len() ==> (#[trigger] noted[i]).1 == source
                    && names_local(imports, noted[i].0) && !has_name(discovered, noted[i].0)
        }),
    decreases imports.len(),
{
    if imports.len() > 0 {
        let front = imports.drop_last();
        let before = note_locals(discovered, front, source);
        let noted = note_locals(discovered, imports, source);
        lemma_noted(discovered, front, source);
        let last = imports.last();
        assert forall|name: Seq<char>| #[trigger] has_name(noted, name) <==> has_name(
            discovered,
            name,
        ) || names_local(imports, name) by {
            lemma_names_local_push(imports, name);
            assert(has_name(before, name) <==> has_name(discovered, name) || names_local(
                front,
                name,
            ));
            if noted != before {
                if has_name(before, name) {
                    let i = choose|i: int| 0 <= i < before.len() && (#[trigger] before[i]).0 == name;
                    assert(noted[i] == before[i]);
                }
                if name == last.name {
                    assert(noted[before.len() as int].0 == name);
                }
                if has_name(noted, name) {
                    let i = choose|i: int| 0 <= i < noted.len() && (#[trigger] noted[i]).0 == name;
                    if i < before.len() {
                        assert(before[i] == noted[i]);
                    }
                }
            }
        }
        assert forall|i: int| discovered.len() <= i < noted.len() implies (
        #[trigger] noted[i]).1 == source && names_local(imports, noted[i].0) && !has_name(
            discovered,
            noted[i].0,
        ) by {
            lemma_names_local_push(imports, noted[i].0);
            if i < before.len() {
                assert(before[i] == noted[i]);
            } else {
                assert(has_name(before, last.name) <==> has_name(discovered, last.name)
                    || names_local(front, last.name));
            }
        }
    }
}

proof fn lemma_settle_discovers(s: GatherView)
    ensures
        settle(s).discovered == s.discovered,
    decreases s.tasks.len(),
{
    if s.tasks.len() > 0 {
        let rest = GatherView { tasks: s.tasks.drop_last(), ..s };
        lemma_settle_discovers(rest);
        match s.tasks.last() {
            TaskView::Preview { name, version, parsed } => {
                lemma_settle_discovers(rest.logged(OutcomeView::InvalidVersion { name, version }));
            },
            _ => {},
        }
    }
}

proof fn lemma_step_discovers(s: GatherView, event: EventView)
    ensures
        step(s, event).discovered == match (s.request, event) {
            (RequestView::Read { id, name }, EventView::Imports(imports)) => note_locals(
                s.discovered,
                imports,
                name,
            ),
            _ => s.discovered,
        },
{
    match (s.request, event) {
        (RequestView::Look(place), EventView::Found(found)) => {
            lemma_settle_discovers(after_look(s, place, found));
        },
        (RequestView::Read { id, name }, EventView::Imports(imports)) => {
            lemma_settle_discovers(after_read(s, name, imports));
        },
        (RequestView::Download(spec), EventView::Answer(yes)) => {
            lemma_settle_discovers(s.logged(OutcomeView::NotDownloaded(spec)));
        },
        (RequestView::Walk(spec), EventView::Imports(imports)) => {
            lemma_settle_discovers(GatherView { tasks: s.tasks + package_tasks(imports), ..s });
        },
        (RequestView::ReadManifest { name, dir }, EventView::Manifest(manifest)) => match manifest {
            None => lemma_settle_discovers(s.logged(OutcomeView::NoManifest { name })),
            Some(m) => lemma_settle_discovers(
                s.logged(OutcomeView::NameMismatch { name, found: m.name }),
            ),
        },
        (RequestView::Clear { spec, dir, exclude }, EventView::Answer(yes)) => {
            lemma_settle_discovers(s.logged(OutcomeView::NotCleared(spec)));
        },
        (RequestView::Copy { spec, dir, exclude }, EventView::Answer(yes)) => {
            lemma_settle_discovers(s.logged(OutcomeView::NotCopied(spec)));
        },
        _ => {},
    }
}

/// Whether the event at `k` is the first to tell that a scanned file imports a
/// local package of a name, and the file is the given one.
pub open spec fn first_import(
    s: GatherView,
    events: Seq<EventView>,
    k: int,
    name: Seq<char>,
    source: Seq<char>,
) -> bool {
    &&& imports_local(s, events, k, name, source)
    &&& forall|j: int, other: Seq<char>|
        0 <= j < k ==> !#[trigger] imports_local(s, events, j, name, other)
}

/// Whether a pair holds the name of a local package and the first scanned file
/// that imports it.
pub open spec fn first_imported(
    s: GatherView,
    events: Seq<EventView>,
    pair: (Seq<char>, Seq<char>),
) -> bool {
    exists|k: int| #[trigger] first_import(s, events, k, pair.0, pair.1)
}

proof fn lemma_imports_local_front(
    s: GatherView,
    events: Seq<EventView>,
    k: int,
    name: Seq<char>,
    source: Seq<char>,
)
    requires
        0 <= k < events.len() - 1,
    ensures
        imports_local(s, events.drop_last(), k, name, source) == imports_local(
            s,
            events,
            k,
            name,
            source,
        ),
{
    assert(events.drop_last().take(k) =~= events.take(k));
}

proof fn lemma_first_import_front(
    s: GatherView,
    events: Seq<EventView>,
    k: int,
    name: Seq<char>,
    source: Seq<char>,
)
    requires
        events.len() > 0,
        first_import(s, events.drop_last(), k, name, source),
    ensures
        first_import(s, events, k, name, source),
{
    lemma_imports_local_front(s, events, k, name, source);
    assert forall|j: int, other: Seq<char>| 0 <= j < k implies !#[trigger] imports_local(
        s,
        events,
        j,
        name,
        other,
    ) by {
        lemma_imports_local_front(s, events, j, name, other);
    }
}

proof fn lemma_discovered(s: GatherView, events: Seq<EventView>)
    requires
        s.discovered.len() == 0,
    ensures
        forall|i: int|
            0 <= i < run(s, events).discovered.len() ==> first_imported(
                s,
                events,
                #[trigger] run(s, events).discovered[i],
            ),
        forall|k: int, name: Seq<char>, source: Seq<char>| #[trigger]
            imports_local(s, events, k, name, source) ==> has_name(
                run(s, events).discovered,
                name,
            ),
    decreases events.len(),
{
    if events.len() > 0 {
        let n = events.len() - 1;
        let front = events.drop_last();
        let before = run(s, front);
        let after = run(s, events);
        lemma_discovered(s, front);
        lemma_step_discovers(before, events.last());
        assert(events.take(n) =~= front);
        match (before.request, events.last()) {
            (RequestView::Read { id, name }, EventView::Imports(imports)) => {
                lemma_noted(before.discovered, imports, name);
            },
            _ => {},
        }
        assert forall|k: int, name: Seq<char>, source: Seq<char>| #[trigger]
            imports_local(s, events, k, name, source) implies has_name(
            after.discovered,
            name,
        ) by {
            if k < n {
                lemma_imports_local_front(s, events, k, name, source);
                assert(has_name(before.discovered, name));
                if after.discovered != before.discovered {
                    assert(has_name(after.discovered, name));
                }
            }
        }
        assert forall|i: int| 0 <= i < after.discovered.len() implies first_imported(
            s,
            events,
            #[trigger] after.discovered[i],
        ) by {
            let (name, source) = after.discovered[i];
            if i < before.discovered.len() {
                assert(before.discovered[i] == after.discovered[i]);
                assert(first_imported(s, front, before.discovered[i]));
                let k = choose|k: int| #[trigger] first_import(s, front, k, name, source);
                lemma_first_import_front(s, events, k, name, source);
            } else {
                assert(imports_local(s, events, n, name, source));
                assert forall|j: int, other: Seq<char>| 0 <= j < n implies !#[trigger] imports_local(
                    s,
                    events,
                    j,
                    name,
                    other,
                ) by {
                    lemma_imports_local_front(s, events, j, name, other);
                    if imports_local(s, front, j, name, other) {
                        assert(has_name(before.discovered, name));
                    }
                }
                assert(first_import(s, events, n, name, source));
            }
        }
    }
}

/// The local packages that are reported are exactly those that a scanned file
/// imports and that are not configured. Each is reported once, with the first
/// file that imports it.
pub proof fn law_unconfigured_are_reported(
    entries: Seq<EntryView>,
    discover: Seq<PlaceView>,
    configured: Seq<Seq<char>>,
    events: Seq<EventView>,
)
    ensures
        ({
            let s0 = start(entries, discover, configured);
            let s = run(s0, events);
            let reported = unconfigured(s.discovered, s.configured);
            &&& forall|i: int|
                0 <= i < reported.len() ==> !configured.contains((#[trigger] reported[i]).0)
                    && first_imported(s0, events, reported[i])
            &&& forall|k: int, name: Seq<char>, source: Seq<char>| #[trigger]
                imports_local(s0, events, k, name, source) && !configured.contains(name)
                    ==> has_name(reported, name)
            &&& forall|i: int, j: int|
                0 <= i < j < reported.len() ==> (#[trigger] reported[i]).0 != (
                #[trigger] reported[j]).0
        }),
{
    let s0 = start(entries, discover, configured);
    let s = run(s0, events);
    let open = |pair: (Seq<char>, Seq<char>)| !s.configured.contains(pair.0);
    let reported = unconfigured(s.discovered, s.configured);
    law_invariant(entries, discover, configured, events);
    lemma_settle_discovers(
        GatherView {
            configured,
            processed: Seq::empty(),
            log: Seq::empty(),
            discovered: Seq::empty(),
            tasks: entries.map_values(|entry: EntryView| entry_task(entry)).reverse()
                + discover.map_values(|place: PlaceView| TaskView::Discover(place)).reverse(),
            request: RequestView::Done,
        },
    );
    lemma_discovered(s0, events);
    lemma_filter_places(s.discovered, open);
    assert forall|i: int| 0 <= i < reported.len() implies !configured.contains(
        (#[trigger] reported[i]).0,
    ) && first_imported(s0, events, reported[i]) by {
        let p = filter_place(s.discovered, open, i);
        assert(s.discovered[p] == reported[i]);
        assert(open(s.discovered[p]));
    }
    assert forall|k: int, name: Seq<char>, source: Seq<char>| #[trigger]
        imports_local(s0, events, k, name, source) && !configured.contains(
            name,
        ) implies has_name(reported, name) by {
        let p = choose|p: int| 0 <= p < s.discovered.len() && (#[trigger] s.discovered[p]).0 == name;
        assert(open(s.discovered[p]));
        s.discovered.lemma_filter_contains(open, p);
        let i = choose|i: int| 0 <= i < reported.len() && reported[i] == s.discovered[p];
        assert(reported[i].0 == name);
    }
    assert forall|i: int, j: int| 0 <= i < j < reported.len() implies (#[trigger] reported[i]).0
        != (#[trigger] reported[j]).0 by {
        let p = filter_place(s.discovered, open, i);
        let q = filter_place(s.discovered, open, j);
        assert(s.discovered[p] == reported[i] && s.discovered[q] == reported[j]);
        assert(p < q);
    }
}

/// Where what a filter leaves at a place came from.
spec fn filter_place<A>(s: Seq<A>, pred: spec_fn(A) -> bool, i: int) -> int
    decreases s.len(),
{
    if s.len() == 0 {
        0
    } else if i < s.drop_last().filter(pred).len() {
        filter_place(s.drop_last(), pred, i)
    } else {
        s.len() - 1
    }
}

proof fn lemma_filter_places<A>(s: Seq<A>, pred: spec_fn(A) -> bool)
    ensures
        forall|i: int|
            0 <= i < s.filter(pred).len() ==> 0 <= #[trigger] filter_place(s, pred, i) < s.len()
                && s[filter_place(s, pred, i)] == s.filter(pred)[i] && pred(s.filter(pred)[i]),
        forall|i: int, j: int|
            0 <= i < j < s.filter(pred).len() ==> #[trigger] filter_place(s, pred, i)
                < #[trigger] filter_place(s, pred, j),
    decreases s.len(),
{
    reveal(Seq::filter);
    if s.len() > 0 {
        lemma_filter_places(s.drop_last(), pred);
        assert forall|i: int| 0 <= i < s.filter(pred).len() implies 0 <= #[trigger] filter_place(
            s,
            pred,
            i,
        ) < s.len() && s[filter_place(s, pred, i)] == s.filter(pred)[i] && pred(
            s.filter(pred)[i],
        ) by {
            let front = s.drop_last();
            if i < front.filter(pred).len() {
                assert(front[filter_place(front, pred, i)] == front.filter(pred)[i]);
            }
        }
        assert forall|i: int, j: int|
            0 <= i < j < s.filter(pred).len() implies #[trigger] filter_place(s, pred, i)
            < #[trigger] filter_place(s, pred, j) by {
            let front = s.drop_last();
            assert(0 <= filter_place(front, pred, i) < front.len());
            if j < front.filter(pred).len() {
                assert(filter_place(front, pred, i) < filter_place(front, pred, j));
            }
        }
    }
}

/// Whether an outcome is a download, a copy or a package that was there already.
pub open spec fn succeeded(outcome: OutcomeView) -> bool {
    outcome is Downloaded || outcome is Copied || outcome is Skipped
}

/// Every outcome counts once in the statistics, and nothing counts as failed
/// exactly if every outcome is a success.
pub proof fn law_stats_count_every_outcome(log: Seq<OutcomeView>)
    ensures
        tally(log).0 + tally(log).1 + tally(log).2 + tally(log).3 == log.len(),
        tally(log).3 == 0 <==> forall|i: int| 0 <= i < log.len() ==> succeeded(#[trigger] log[i]),
        tally(log).0 + tally(log).2 <= settled(log).len() <= tally(log).0 + tally(log).2 + tally(
            log,
        ).3,
    decreases log.len(),
{
    if log.len() > 0 {
        let front = log.drop_last();
        law_stats_count_every_outcome(front);
        assert(forall|i: int| 0 <= i < front.len() ==> front[i] == #[trigger] log[i]);
        let last = log[log.len() - 1];
        assert(tally(log).3 == tally(front).3 + if succeeded(last) { 0nat } else { 1nat });
        if tally(front).3 != 0 {
            let i = choose|i: int| 0 <= i < front.len() && !succeeded(#[trigger] front[i]);
            assert(!succeeded(log[i]));
        }
    }
}

} // verus!
