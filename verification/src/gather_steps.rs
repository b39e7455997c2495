//! What a gather operation asks for and logs, one request after the other.

use vstd::prelude::*;

use crate::config::{EntryView, PlaceView};
use crate::gather::{
    after_look, after_read, entry_task, package_tasks, preview_spec, settle, source_tasks, start,
    step, tally, EventView, GatherView, OutcomeView, RequestView, Stats, TaskView,
};
use crate::gather_ends::answers;
use crate::gather_laws::{law_invariant, lemma_package_tasks, lemma_run_step, run};
use crate::package::{version_of, SpecView};
use crate::seqs::{
    chosen, chosen_down, lemma_chosen_all, lemma_chosen_none, lemma_chosen_push, lemma_chosen_same,
    lemma_chosen_stack, lemma_chosen_top, stacked,
};
use crate::world::{sources_of, FoundView};
use crate::world_laws::{law_typ_files_are_scanned, typ_files};

verus! {

/// The requests that were answered, each with its answer, in order.
pub open spec fn heard(s: GatherView, events: Seq<EventView>) -> Seq<(RequestView, EventView)>
    decreases events.len(),
{
    if events.len() == 0 {
        Seq::empty()
    } else {
        let before = heard(s, events.drop_last());
        let request = run(s, events.drop_last()).request;
        if answers(request, events.last()) {
            before.push((request, events.last()))
        } else {
            before
        }
    }
}

/// The path that was looked at.
pub open spec fn path_asked() -> spec_fn((RequestView, EventView)) -> Option<PlaceView> {
    |pair: (RequestView, EventView)|
        match pair.0 {
            RequestView::Look(place) => Some(place),
            _ => None,
        }
}

/// The file that was read.
pub open spec fn file_asked() -> spec_fn((RequestView, EventView)) -> Option<(usize, Seq<char>)> {
    |pair: (RequestView, EventView)|
        match pair.0 {
            RequestView::Read { id, name } => Some((id, name)),
            _ => None,
        }
}

/// The local package whose manifest was read, and its directory.
pub open spec fn local_asked() -> spec_fn((RequestView, EventView)) -> Option<
    (Seq<char>, Seq<char>),
> {
    |pair: (RequestView, EventView)|
        match pair.0 {
            RequestView::ReadManifest { name, dir } => Some((name, dir)),
            _ => None,
        }
}

/// What came of an answer.
pub open spec fn outcome_heard() -> spec_fn((RequestView, EventView)) -> Option<OutcomeView> {
    |pair: (RequestView, EventView)|
        match pair {
            (RequestView::Look(place), EventView::Found(FoundView::Unreadable)) => Some(
                OutcomeView::NotListed(place),
            ),
            (RequestView::FindCached(spec), EventView::Answer(true)) => Some(
                OutcomeView::Skipped(spec),
            ),
            (RequestView::Download(spec), EventView::Answer(true)) => Some(
                OutcomeView::Downloaded(spec),
            ),
            (RequestView::Download(spec), EventView::Answer(false)) => Some(
                OutcomeView::NotDownloaded(spec),
            ),
            (RequestView::ReadManifest { name, .. }, EventView::Manifest(None)) => Some(
                OutcomeView::NoManifest { name },
            ),
            (RequestView::ReadManifest { name, .. }, EventView::Manifest(Some(m))) => if m.name
                == name {
                None
            } else {
                Some(OutcomeView::NameMismatch { name, found: m.name })
            },
            (RequestView::Clear { spec, .. }, EventView::Answer(false)) => Some(
                OutcomeView::NotCleared(spec),
            ),
            (RequestView::Copy { spec, .. }, EventView::Answer(true)) => Some(
                OutcomeView::Copied(spec),
            ),
            (RequestView::Copy { spec, .. }, EventView::Answer(false)) => Some(
                OutcomeView::NotCopied(spec),
            ),
            _ => None,
        }
}

/// The files that were found, with the extension `typ`, at all paths that were looked at.
pub open spec fn files_found(pairs: Seq<(RequestView, EventView)>) -> Seq<(usize, Seq<char>)>
    decreases pairs.len(),
{
    if pairs.len() == 0 {
        Seq::empty()
    } else {
        match pairs.last() {
            (RequestView::Look(_), EventView::Found(found)) => files_found(pairs.drop_last())
                + typ_files(found),
            _ => files_found(pairs.drop_last()),
        }
    }
}

/// An outcome that comes of an answer: any but that a version is none.
pub open spec fn answered() -> spec_fn(OutcomeView) -> Option<OutcomeView> {
    |outcome: OutcomeView|
        if outcome is InvalidVersion {
            None
        } else {
            Some(outcome)
        }
}

/// The name and version of an outcome that says that a version is none.
pub open spec fn invalid() -> spec_fn(OutcomeView) -> Option<(Seq<char>, Seq<char>)> {
    |outcome: OutcomeView|
        match outcome {
            OutcomeView::InvalidVersion { name, version } => Some((name, version)),
            _ => None,
        }
}

/// The name and version of an entry whose version is none.
pub open spec fn invalid_entry() -> spec_fn(EntryView) -> Option<(Seq<char>, Seq<char>)> {
    |entry: EntryView|
        match entry {
            EntryView::Preview { name, version } => if version_of(version) is None {
                Some((name, version))
            } else {
                None
            },
            _ => None,
        }
}

/// The name and directory of a local entry.
pub open spec fn local_entry() -> spec_fn(EntryView) -> Option<(Seq<char>, Seq<char>)> {
    |entry: EntryView|
        match entry {
            EntryView::Local { name, dir } => Some((name, dir)),
            _ => None,
        }
}

spec fn path_task() -> spec_fn(TaskView) -> Option<PlaceView> {
    |task: TaskView|
        match task {
            TaskView::Discover(place) => Some(place),
            _ => None,
        }
}

spec fn file_task() -> spec_fn(TaskView) -> Option<(usize, Seq<char>)> {
    |task: TaskView|
        match task {
            TaskView::Source { id, name } => Some((id, name)),
            _ => None,
        }
}

spec fn local_task() -> spec_fn(TaskView) -> Option<(Seq<char>, Seq<char>)> {
    |task: TaskView|
        match task {
            TaskView::Local { name, dir } => Some((name, dir)),
            _ => None,
        }
}

spec fn invalid_task() -> spec_fn(TaskView) -> Option<(Seq<char>, Seq<char>)> {
    |task: TaskView|
        match task {
            TaskView::Preview { name, version, parsed: None } => Some((name, version)),
            _ => None,
        }
}

spec fn open_path(request: RequestView) -> Seq<PlaceView> {
    match request {
        RequestView::Look(place) => seq![place],
        _ => Seq::empty(),
    }
}

spec fn open_file(request: RequestView) -> Seq<(usize, Seq<char>)> {
    match request {
        RequestView::Read { id, name } => seq![(id, name)],
        _ => Seq::empty(),
    }
}

spec fn open_local(request: RequestView) -> Seq<(Seq<char>, Seq<char>)> {
    match request {
        RequestView::ReadManifest { name, dir } => seq![(name, dir)],
        _ => Seq::empty(),
    }
}

/// Files lie above paths.
spec fn layered(tasks: Seq<TaskView>) -> bool {
    forall|i: int, j: int|
        0 <= i < j < tasks.len() ==> !((#[trigger] tasks[i]) is Source
            && (#[trigger] tasks[j]) is Discover)
}

spec fn no_file(tasks: Seq<TaskView>) -> bool {
    forall|i: int| 0 <= i < tasks.len() ==> !((#[trigger] tasks[i]) is Source)
}

proof fn lemma_settle_steps(s: GatherView)
    requires
        layered(s.tasks),
    ensures
        ({
            let t = settle(s);
            &&& open_path(t.request) + chosen_down(t.tasks, path_task()) == chosen_down(
                s.tasks,
                path_task(),
            )
            &&& open_file(t.request) + chosen_down(t.tasks, file_task()) == chosen_down(
                s.tasks,
                file_task(),
            )
            &&& open_local(t.request) + chosen_down(t.tasks, local_task()) == chosen_down(
                s.tasks,
                local_task(),
            )
            &&& chosen(t.log, invalid()) + chosen_down(t.tasks, invalid_task()) == chosen(
                s.log,
                invalid(),
            ) + chosen_down(s.tasks, invalid_task())
            &&& chosen(t.log, answered()) == chosen(s.log, answered())
            &&& layered(t.tasks)
            &&& t.request is Look ==> no_file(t.tasks)
        }),
    decreases s.tasks.len(),
{
    let t = settle(s);
    if s.tasks.len() == 0 {
        assert(open_path(t.request) + chosen_down(t.tasks, path_task()) =~= chosen_down(
            s.tasks,
            path_task(),
        ));
        assert(open_file(t.request) + chosen_down(t.tasks, file_task()) =~= chosen_down(
            s.tasks,
            file_task(),
        ));
        assert(open_local(t.request) + chosen_down(t.tasks, local_task()) =~= chosen_down(
            s.tasks,
            local_task(),
        ));
    } else {
        let rest = GatherView { tasks: s.tasks.drop_last(), ..s };
        let last = s.tasks.last();
        assert(last == s.tasks[s.tasks.len() - 1]);
        lemma_chosen_top(s.tasks, path_task());
        lemma_chosen_top(s.tasks, file_task());
        lemma_chosen_top(s.tasks, local_task());
        lemma_chosen_top(s.tasks, invalid_task());
        let stops = match last {
            TaskView::Package(spec) => rest.wants(spec),
            TaskView::Preview { name, version, parsed } => match parsed {
                Some(v) => rest.wants(preview_spec(name, v)),
                None => false,
            },
            _ => true,
        };
        if stops {
            assert(t.tasks == rest.tasks && t.log == s.log);
            assert(open_path(t.request) + chosen_down(t.tasks, path_task()) =~= chosen_down(
                s.tasks,
                path_task(),
            ));
            assert(open_file(t.request) + chosen_down(t.tasks, file_task()) =~= chosen_down(
                s.tasks,
                file_task(),
            ));
            assert(open_local(t.request) + chosen_down(t.tasks, local_task()) =~= chosen_down(
                s.tasks,
                local_task(),
            ));
            assert forall|i: int| 0 <= i < t.tasks.len() && t.request is Look implies !((
            #[trigger] t.tasks[i]) is Source) by {
                assert(t.tasks[i] == s.tasks[i]);
            }
        } else {
            match last {
                TaskView::Preview { name, version, parsed: None } => {
                    let outcome = OutcomeView::InvalidVersion { name, version };
                    let next = rest.logged(outcome);
                    lemma_chosen_push(s.log, outcome, invalid());
                    lemma_chosen_push(s.log, outcome, answered());
                    lemma_settle_steps(next);
                    assert(chosen(next.log, invalid()) + chosen_down(next.tasks, invalid_task())
                        =~= chosen(s.log, invalid()) + chosen_down(s.tasks, invalid_task()));
                },
                _ => lemma_settle_steps(rest),
            }
        }
    }
}

/// What is asked for and logged, with what is still to be asked for and logged.
spec fn ledger(
    s: GatherView,
    pairs: Seq<(RequestView, EventView)>,
    entries: Seq<EntryView>,
    discover: Seq<PlaceView>,
) -> bool {
    &&& chosen(pairs, path_asked()) + open_path(s.request) + chosen_down(s.tasks, path_task())
        == discover
    &&& chosen(pairs, file_asked()) + open_file(s.request) + chosen_down(s.tasks, file_task())
        == files_found(pairs)
    &&& chosen(pairs, local_asked()) + open_local(s.request) + chosen_down(s.tasks, local_task())
        == chosen(entries, local_entry())
    &&& chosen(s.log, invalid()) + chosen_down(s.tasks, invalid_task()) == chosen(
        entries,
        invalid_entry(),
    )
    &&& chosen(s.log, answered()) == chosen(pairs, outcome_heard())
    &&& layered(s.tasks)
    &&& s.request is Look ==> no_file(s.tasks)
}

/// What a step leaves to settle.
spec fn unsettled(
    s: GatherView,
    pairs: Seq<(RequestView, EventView)>,
    entries: Seq<EntryView>,
    discover: Seq<PlaceView>,
) -> bool {
    &&& chosen(pairs, path_asked()) + chosen_down(s.tasks, path_task()) == discover
    &&& chosen(pairs, file_asked()) + chosen_down(s.tasks, file_task()) == files_found(pairs)
    &&& chosen(pairs, local_asked()) + chosen_down(s.tasks, local_task()) == chosen(
        entries,
        local_entry(),
    )
    &&& chosen(s.log, invalid()) + chosen_down(s.tasks, invalid_task()) == chosen(
        entries,
        invalid_entry(),
    )
    &&& chosen(s.log, answered()) == chosen(pairs, outcome_heard())
    &&& layered(s.tasks)
}

proof fn lemma_settle_ledger(
    s: GatherView,
    pairs: Seq<(RequestView, EventView)>,
    entries: Seq<EntryView>,
    discover: Seq<PlaceView>,
)
    requires
        unsettled(s, pairs, entries, discover),
    ensures
        ledger(settle(s), pairs, entries, discover),
{
    let t = settle(s);
    lemma_settle_steps(s);
    assert(chosen(pairs, path_asked()) + open_path(t.request) + chosen_down(t.tasks, path_task())
        =~= chosen(pairs, path_asked()) + (open_path(t.request) + chosen_down(
        t.tasks,
        path_task(),
    )));
    assert(chosen(pairs, file_asked()) + open_file(t.request) + chosen_down(t.tasks, file_task())
        =~= chosen(pairs, file_asked()) + (open_file(t.request) + chosen_down(
        t.tasks,
        file_task(),
    )));
    assert(chosen(pairs, local_asked()) + open_local(t.request) + chosen_down(
        t.tasks,
        local_task(),
    ) =~= chosen(pairs, local_asked()) + (open_local(t.request) + chosen_down(
        t.tasks,
        local_task(),
    )));
}

proof fn lemma_plain_tasks(tasks: Seq<TaskView>, more: Seq<TaskView>)
    requires
        layered(tasks),
        forall|i: int| 0 <= i < more.len() ==> (#[trigger] more[i]) is Package,
    ensures
        layered(tasks + more),
        chosen_down(tasks + more, path_task()) == chosen_down(tasks, path_task()),
        chosen_down(tasks + more, file_task()) == chosen_down(tasks, file_task()),
        chosen_down(tasks + more, local_task()) == chosen_down(tasks, local_task()),
        chosen_down(tasks + more, invalid_task()) == chosen_down(tasks, invalid_task()),
{
    lemma_chosen_stack(tasks, more, path_task());
    lemma_chosen_stack(tasks, more, file_task());
    lemma_chosen_stack(tasks, more, local_task());
    lemma_chosen_stack(tasks, more, invalid_task());
    let down = more.reverse();
    assert(forall|i: int| 0 <= i < down.len() ==> (#[trigger] down[i]) == more[more.len() - 1 - i]);
    lemma_chosen_none(down, path_task());
    lemma_chosen_none(down, file_task());
    lemma_chosen_none(down, local_task());
    lemma_chosen_none(down, invalid_task());
    assert(chosen_down(more, path_task()) + chosen_down(tasks, path_task()) =~= chosen_down(
        tasks,
        path_task(),
    ));
    assert(chosen_down(more, file_task()) + chosen_down(tasks, file_task()) =~= chosen_down(
        tasks,
        file_task(),
    ));
    assert(chosen_down(more, local_task()) + chosen_down(tasks, local_task()) =~= chosen_down(
        tasks,
        local_task(),
    ));
    assert(chosen_down(more, invalid_task()) + chosen_down(tasks, invalid_task()) =~= chosen_down(
        tasks,
        invalid_task(),
    ));
}

proof fn lemma_file_tasks(tasks: Seq<TaskView>, files: Seq<(usize, Seq<char>)>)
    requires
        layered(tasks),
        no_file(tasks),
    ensures
        layered(tasks + source_tasks(files)),
        chosen_down(tasks + source_tasks(files), path_task()) == chosen_down(tasks, path_task()),
        chosen_down(tasks + source_tasks(files), file_task()) == files,
        chosen_down(tasks + source_tasks(files), local_task()) == chosen_down(tasks, local_task()),
        chosen_down(tasks + source_tasks(files), invalid_task()) == chosen_down(
            tasks,
            invalid_task(),
        ),
{
    let more = source_tasks(files);
    let down = more.reverse();
    lemma_chosen_stack(tasks, more, path_task());
    lemma_chosen_stack(tasks, more, file_task());
    lemma_chosen_stack(tasks, more, local_task());
    lemma_chosen_stack(tasks, more, invalid_task());
    assert(forall|i: int|
        0 <= i < down.len() ==> (#[trigger] down[i]) == (TaskView::Source {
            id: files[i].0,
            name: files[i].1,
        }));
    assert(forall|i: int| 0 <= i < more.len() ==> (#[trigger] more[i]) is Source);
    lemma_chosen_none(down, path_task());
    lemma_chosen_none(down, local_task());
    lemma_chosen_none(down, invalid_task());
    lemma_chosen_all(down, file_task(), files);
    assert(forall|i: int|
        0 <= i < tasks.len() ==> (#[trigger] tasks.reverse()[i]) == tasks[tasks.len() - 1 - i]);
    lemma_chosen_none(tasks.reverse(), file_task());
    assert(chosen_down(more, path_task()) + chosen_down(tasks, path_task()) =~= chosen_down(
        tasks,
        path_task(),
    ));
    assert(chosen_down(more, file_task()) + chosen_down(tasks, file_task()) =~= files);
    assert(chosen_down(more, local_task()) + chosen_down(tasks, local_task()) =~= chosen_down(
        tasks,
        local_task(),
    ));
    assert(chosen_down(more, invalid_task()) + chosen_down(tasks, invalid_task()) =~= chosen_down(
        tasks,
        invalid_task(),
    ));
}

proof fn lemma_step_ledger(
    s: GatherView,
    event: EventView,
    pairs: Seq<(RequestView, EventView)>,
    entries: Seq<EntryView>,
    discover: Seq<PlaceView>,
)
    requires
        ledger(s, pairs, entries, discover),
        answers(s.request, event),
    ensures
        ledger(step(s, event), pairs.push((s.request, event)), entries, discover),
{
    let pair = (s.request, event);
    let more = pairs.push(pair);
    lemma_chosen_push(pairs, pair, path_asked());
    lemma_chosen_push(pairs, pair, file_asked());
    lemma_chosen_push(pairs, pair, local_asked());
    lemma_chosen_push(pairs, pair, outcome_heard());
    assert(more.drop_last() =~= pairs);
    assert(chosen(more, path_asked()) =~= chosen(pairs, path_asked()) + open_path(s.request));
    assert(chosen(more, file_asked()) =~= chosen(pairs, file_asked()) + open_file(s.request));
    assert(chosen(more, local_asked()) =~= chosen(pairs, local_asked()) + open_local(s.request));
    match outcome_heard()(pair) {
        Some(outcome) => {
            lemma_chosen_push(s.log, outcome, invalid());
            lemma_chosen_push(s.log, outcome, answered());
        },
        None => {},
    }
    match (s.request, event) {
        (RequestView::Look(place), EventView::Found(found)) => {
            let next = after_look(s, place, found);
            law_typ_files_are_scanned(found);
            lemma_file_tasks(s.tasks, sources_of(found));
            assert(forall|i: int|
                0 <= i < s.tasks.len() ==> (#[trigger] s.tasks.reverse()[i])
                    == s.tasks[s.tasks.len() - 1 - i]);
            lemma_chosen_none(s.tasks.reverse(), file_task());
            assert(files_found(more) =~= chosen(more, file_asked()) + typ_files(found));
            if found is Unreadable {
                assert(typ_files(found) =~= Seq::empty());
                assert(chosen(more, file_asked()) + chosen_down(s.tasks, file_task())
                    =~= files_found(more));
            }
            assert(unsettled(next, more, entries, discover));
            lemma_settle_ledger(next, more, entries, discover);
        },
        (RequestView::Read { id, name }, EventView::Imports(imports)) => {
            lemma_package_tasks(imports);
            lemma_plain_tasks(s.tasks, package_tasks(imports));
            lemma_settle_ledger(after_read(s, name, imports), more, entries, discover);
        },
        (RequestView::FindCached(spec), EventView::Answer(yes)) => {
            assert(step(s, event).tasks == s.tasks);
        },
        (RequestView::Download(spec), EventView::Answer(yes)) => {
            if !yes {
                let next = s.logged(OutcomeView::NotDownloaded(spec));
                assert(unsettled(next, more, entries, discover));
                lemma_settle_ledger(next, more, entries, discover);
            }
        },
        (RequestView::Walk(spec), EventView::Imports(imports)) => {
            lemma_package_tasks(imports);
            lemma_plain_tasks(s.tasks, package_tasks(imports));
            let next = GatherView { tasks: s.tasks + package_tasks(imports), ..s };
            assert(unsettled(next, more, entries, discover));
            lemma_settle_ledger(next, more, entries, discover);
        },
        (RequestView::ReadManifest { name, dir }, EventView::Manifest(manifest)) => match manifest {
            None => {
                let next = s.logged(OutcomeView::NoManifest { name });
                assert(unsettled(next, more, entries, discover));
                lemma_settle_ledger(next, more, entries, discover);
            },
            Some(m) => {
                if m.name != name {
                    let next = s.logged(OutcomeView::NameMismatch { name, found: m.name });
                    assert(unsettled(next, more, entries, discover));
                    lemma_settle_ledger(next, more, entries, discover);
                }
            },
        },
        (RequestView::Clear { spec, dir, exclude }, EventView::Answer(yes)) => {
            if !yes {
                let next = s.logged(OutcomeView::NotCleared(spec));
                assert(unsettled(next, more, entries, discover));
                lemma_settle_ledger(next, more, entries, discover);
            }
        },
        (RequestView::Copy { spec, dir, exclude }, EventView::Answer(yes)) => {
            if !yes {
                let next = s.logged(OutcomeView::NotCopied(spec));
                assert(unsettled(next, more, entries, discover));
                lemma_settle_ledger(next, more, entries, discover);
            }
        },
        _ => {},
    }
}

proof fn lemma_unanswered(s: GatherView, event: EventView)
    requires
        !answers(s.request, event),
    ensures
        step(s, event) == s,
{
}

proof fn lemma_run_ledger(
    entries: Seq<EntryView>,
    discover: Seq<PlaceView>,
    configured: Seq<Seq<char>>,
    events: Seq<EventView>,
)
    ensures
        ledger(
            run(start(entries, discover, configured), events),
            heard(start(entries, discover, configured), events),
            entries,
            discover,
        ),
    decreases events.len(),
{
    let s0 = start(entries, discover, configured);
    if events.len() == 0 {
        let first = stacked(entries, |entry: EntryView| entry_task(entry));
        let second = stacked(discover, |place: PlaceView| TaskView::Discover(place));
        let s = GatherView {
            configured,
            processed: Seq::empty(),
            log: Seq::empty(),
            discovered: Seq::empty(),
            tasks: first + second,
            request: RequestView::Done,
        };
        let pairs = Seq::<(RequestView, EventView)>::empty();
        assert(forall|i: int|
            0 <= i < entries.len() ==> (#[trigger] first.reverse()[i]) == entry_task(entries[i]));
        assert(forall|i: int|
            0 <= i < discover.len() ==> (#[trigger] second.reverse()[i]) == TaskView::Discover(
                discover[i],
            ));
        assert forall|i: int| 0 <= i < s.tasks.len() implies !((
        #[trigger] s.tasks[i]) is Source) by {
            if i < first.len() {
                assert(s.tasks[i] == entry_task(entries[entries.len() - 1 - i]));
            } else {
                assert(s.tasks[i] == TaskView::Discover(
                    discover[discover.len() - 1 - (i - first.len())],
                ));
            }
        }
        lemma_chosen_stack(first, second, path_task());
        lemma_chosen_stack(first, second, file_task());
        lemma_chosen_stack(first, second, local_task());
        lemma_chosen_stack(first, second, invalid_task());
        lemma_chosen_all(second.reverse(), path_task(), discover);
        lemma_chosen_none(second.reverse(), file_task());
        lemma_chosen_none(second.reverse(), local_task());
        lemma_chosen_none(second.reverse(), invalid_task());
        lemma_chosen_none(first.reverse(), path_task());
        lemma_chosen_none(first.reverse(), file_task());
        lemma_chosen_same(first.reverse(), entries, local_task(), local_entry());
        lemma_chosen_same(first.reverse(), entries, invalid_task(), invalid_entry());
        assert(chosen(pairs, path_asked()) + chosen_down(s.tasks, path_task()) =~= discover);
        assert(chosen(pairs, file_asked()) + chosen_down(s.tasks, file_task()) =~= files_found(
            pairs,
        ));
        assert(chosen(pairs, local_asked()) + chosen_down(s.tasks, local_task()) =~= chosen(
            entries,
            local_entry(),
        ));
        assert(chosen(s.log, invalid()) + chosen_down(s.tasks, invalid_task()) =~= chosen(
            entries,
            invalid_entry(),
        ));
        assert(chosen(s.log, answered()) =~= chosen(pairs, outcome_heard()));
        lemma_settle_ledger(s, pairs, entries, discover);
    } else {
        let front = events.drop_last();
        lemma_run_ledger(entries, discover, configured, front);
        if answers(run(s0, front).request, events.last()) {
            lemma_step_ledger(run(s0, front), events.last(), heard(s0, front), entries, discover);
        } else {
            lemma_unanswered(run(s0, front), events.last());
        }
    }
}

/// In the end, every path was looked at once, in the order given, and every file with the
/// extension `typ` that was found was read once, in the order in which it was found.
pub proof fn law_all_is_scanned_in_order(
    entries: Seq<EntryView>,
    discover: Seq<PlaceView>,
    configured: Seq<Seq<char>>,
    events: Seq<EventView>,
)
    requires
        run(start(entries, discover, configured), events).request is Done,
    ensures
        ({
            let pairs = heard(start(entries, discover, configured), events);
            &&& chosen(pairs, path_asked()) == discover
            &&& chosen(pairs, file_asked()) == files_found(pairs)
        }),
{
    let s0 = start(entries, discover, configured);
    let pairs = heard(s0, events);
    let s = run(s0, events);
    lemma_run_ledger(entries, discover, configured, events);
    law_invariant(entries, discover, configured, events);
    assert(s.tasks.reverse() =~= Seq::empty());
    assert(chosen(pairs, path_asked()) =~= discover);
    assert(chosen(pairs, file_asked()) =~= files_found(pairs));
}

/// In the end, the manifest of every local entry was read once, in the order of the
/// entries, from its directory.
pub proof fn law_every_local_manifest_is_read(
    entries: Seq<EntryView>,
    discover: Seq<PlaceView>,
    configured: Seq<Seq<char>>,
    events: Seq<EventView>,
)
    requires
        run(start(entries, discover, configured), events).request is Done,
    ensures
        chosen(heard(start(entries, discover, configured), events), local_asked()) == chosen(
            entries,
            local_entry(),
        ),
{
    let s0 = start(entries, discover, configured);
    let s = run(s0, events);
    lemma_run_ledger(entries, discover, configured, events);
    law_invariant(entries, discover, configured, events);
    assert(s.tasks.reverse() =~= Seq::empty());
    assert(chosen(heard(s0, events), local_asked()) =~= chosen(entries, local_entry()));
}

/// The log tells the truth, and all of it: but for entries whose version is none, it is
/// what came of the answers, one outcome for each in their order; and in the end, each
/// entry whose version is none is logged once, in the order of the entries.
pub proof fn law_log_tells_the_truth(
    entries: Seq<EntryView>,
    discover: Seq<PlaceView>,
    configured: Seq<Seq<char>>,
    events: Seq<EventView>,
)
    ensures
        ({
            let s0 = start(entries, discover, configured);
            let s = run(s0, events);
            &&& chosen(s.log, answered()) == chosen(heard(s0, events), outcome_heard())
            &&& s.request is Done ==> chosen(s.log, invalid()) == chosen(entries, invalid_entry())
        }),
{
    let s0 = start(entries, discover, configured);
    let s = run(s0, events);
    lemma_run_ledger(entries, discover, configured, events);
    law_invariant(entries, discover, configured, events);
    if s.request is Done {
        assert(s.tasks.reverse() =~= Seq::empty());
        assert(chosen(s.log, invalid()) =~= chosen(entries, invalid_entry()));
    }
}

/// What follows an answer: a package that is there, or was downloaded or copied, is
/// walked for what it imports; one that is not there is downloaded; a local package whose
/// manifest bears its name takes the place of what stood there, with the version and the
/// exclude patterns of the manifest.
pub proof fn law_what_follows(s: GatherView, events: Seq<EventView>, k: int)
    requires
        0 <= k < events.len(),
    ensures
        ({
            let next = run(s, events.take(k + 1)).request;
            match (run(s, events.take(k)).request, events[k]) {
                (RequestView::FindCached(spec), EventView::Answer(true)) => next
                    == RequestView::Walk(spec),
                (RequestView::FindCached(spec), EventView::Answer(false)) => next
                    == RequestView::Download(spec),
                (RequestView::Download(spec), EventView::Answer(true)) => next
                    == RequestView::Walk(spec),
                (
                    RequestView::ReadManifest { name, dir },
                    EventView::Manifest(Some(m)),
                ) => m.name == name ==> next == (RequestView::Clear {
                    spec: SpecView { namespace: "local"@, name, version: m.version },
                    dir,
                    exclude: m.exclude,
                }),
                (RequestView::Clear { spec, dir, exclude }, EventView::Answer(true)) => next == (
                RequestView::Copy { spec, dir, exclude }),
                (RequestView::Copy { spec, .. }, EventView::Answer(true)) => next
                    == RequestView::Walk(spec),
                _ => true,
            }
        }),
{
    lemma_run_step(s, events, k);
}

/// How many outcomes there are of each sort.
pub open spec fn outcomes_of(log: Seq<OutcomeView>, sort: spec_fn(OutcomeView) -> bool) -> nat {
    log.filter(sort).len()
}

/// The statistics are the numbers of packages that were downloaded, were copied and were
/// there already, and of all other outcomes.
pub proof fn law_stats_are_numbers_of_outcomes(log: Seq<OutcomeView>, stats: Stats)
    requires
        stats.counts(log),
    ensures
        stats.downloaded == outcomes_of(log, |outcome: OutcomeView| outcome is Downloaded),
        stats.copied == outcomes_of(log, |outcome: OutcomeView| outcome is Copied),
        stats.skipped == outcomes_of(log, |outcome: OutcomeView| outcome is Skipped),
        stats.failed == outcomes_of(
            log,
            |outcome: OutcomeView|
                !(outcome is Downloaded) && !(outcome is Copied) && !(outcome is Skipped),
        ),
{
    lemma_tally(log);
}

proof fn lemma_tally(log: Seq<OutcomeView>)
    ensures
        tally(log) == (
            log.filter(|outcome: OutcomeView| outcome is Downloaded).len(),
            log.filter(|outcome: OutcomeView| outcome is Copied).len(),
            log.filter(|outcome: OutcomeView| outcome is Skipped).len(),
            log.filter(
                |outcome: OutcomeView|
                    !(outcome is Downloaded) && !(outcome is Copied) && !(outcome is Skipped),
            ).len(),
        ),
    decreases log.len(),
{
    reveal(Seq::filter);
    if log.len() > 0 {
        lemma_tally(log.drop_last());
    }
}

} // verus!
