//! Gather operations compared with each other: what a second one finds, and what
//! entries and configured packages have a say in.

use vstd::prelude::*;

use crate::config::{EntryView, PlaceView};
use crate::gather::{
    after_look, after_read, entry_task, note_locals, package_tasks, settle, source_tasks, start,
    step, tally, unconfigured, EventView, GatherView, OutcomeView, RequestView, TaskView,
};
use crate::gather_laws::{
    law_invariant, law_stats_count_every_outcome, lemma_package_tasks, lemma_run_step,
    lemma_settle_follows, lemma_settle_requests, lemma_step_inv, run, succeeded,
};
use crate::package::SpecView;
use crate::seqs::{lemma_filter_contains, lemma_stacked, stacked};
use crate::world::{sources_of, FoundView};

verus! {

/// An outcome, where what was downloaded is there already.
pub open spec fn kept_outcome(outcome: OutcomeView) -> OutcomeView {
    match outcome {
        OutcomeView::Downloaded(spec) => OutcomeView::Skipped(spec),
        _ => outcome,
    }
}

/// A log, where what was downloaded is there already.
pub open spec fn kept_log(log: Seq<OutcomeView>) -> Seq<OutcomeView> {
    log.map_values(|outcome: OutcomeView| kept_outcome(outcome))
}

/// A state, where what was downloaded, or is being downloaded, is there already.
pub open spec fn kept_state(s: GatherView) -> GatherView {
    GatherView {
        log: kept_log(s.log),
        request: match s.request {
            RequestView::Download(spec) => RequestView::FindCached(spec),
            _ => s.request,
        },
        ..s
    }
}

/// What a second operation is told, where the first was told some events and
/// everything else is as it was: the same, but not that a package is missing in the
/// destination.
pub open spec fn again(s: GatherView, events: Seq<EventView>) -> Seq<EventView>
    decreases events.len(),
{
    if events.len() == 0 {
        Seq::empty()
    } else {
        let front = again(s, events.drop_last());
        if run(s, events.drop_last()).request is FindCached && events.last() == EventView::Answer(
            false,
        ) {
            front
        } else {
            front.push(events.last())
        }
    }
}

proof fn lemma_kept_logged(s: GatherView, outcome: OutcomeView)
    ensures
        kept_log(s.logged(outcome).log) == kept_log(s.log).push(kept_outcome(outcome)),
{
    assert(kept_log(s.logged(outcome).log) =~= kept_log(s.log).push(kept_outcome(outcome)));
}

proof fn lemma_settle_kept(s: GatherView)
    ensures
        settle(GatherView { log: kept_log(s.log), ..s }) == kept_state(settle(s)),
    decreases s.tasks.len(),
{
    let t = GatherView { log: kept_log(s.log), ..s };
    if s.tasks.len() > 0 {
        let rest = GatherView { tasks: s.tasks.drop_last(), ..s };
        lemma_settle_kept(rest);
        match s.tasks.last() {
            TaskView::Preview { name, version, parsed } => {
                let outcome = OutcomeView::InvalidVersion { name, version };
                lemma_kept_logged(rest, outcome);
                lemma_settle_kept(rest.logged(outcome));
            },
            _ => {},
        }
    }
}

proof fn lemma_step_kept(s: GatherView, event: EventView)
    requires
        !(s.request is Download && event == EventView::Answer(false)),
        !(s.request is FindCached && event == EventView::Answer(false)),
    ensures
        step(kept_state(s), event) == kept_state(step(s, event)),
{
    let t = kept_state(s);
    match (s.request, event) {
        (RequestView::Look(place), EventView::Found(found)) => {
            lemma_kept_logged(s, OutcomeView::NotListed(place));
            lemma_settle_kept(after_look(s, place, found));
        },
        (RequestView::Read { id, name }, EventView::Imports(imports)) => {
            lemma_settle_kept(after_read(s, name, imports));
        },
        (RequestView::FindCached(spec), EventView::Answer(yes)) => {
            lemma_kept_logged(s, OutcomeView::Skipped(spec));
        },
        (RequestView::Download(spec), EventView::Answer(yes)) => {
            lemma_kept_logged(s, OutcomeView::Downloaded(spec));
        },
        (RequestView::Walk(spec), EventView::Imports(imports)) => {
            lemma_settle_kept(GatherView { tasks: s.tasks + package_tasks(imports), ..s });
        },
        (RequestView::ReadManifest { name, dir }, EventView::Manifest(manifest)) => match manifest {
            None => {
                lemma_kept_logged(s, OutcomeView::NoManifest { name });
                lemma_settle_kept(s.logged(OutcomeView::NoManifest { name }));
            },
            Some(m) => {
                lemma_kept_logged(s, OutcomeView::NameMismatch { name, found: m.name });
                lemma_settle_kept(s.logged(OutcomeView::NameMismatch { name, found: m.name }));
            },
        },
        (RequestView::Clear { spec, dir, exclude }, EventView::Answer(yes)) => {
            lemma_kept_logged(s, OutcomeView::NotCleared(spec));
            lemma_settle_kept(s.logged(OutcomeView::NotCleared(spec)));
        },
        (RequestView::Copy { spec, dir, exclude }, EventView::Answer(yes)) => {
            lemma_kept_logged(s, OutcomeView::Copied(spec));
            lemma_kept_logged(s, OutcomeView::NotCopied(spec));
            lemma_settle_kept(s.logged(OutcomeView::NotCopied(spec)));
        },
        _ => {},
    }
}

/// Whether a log tells of no package that could not be downloaded.
pub open spec fn no_loss(log: Seq<OutcomeView>) -> bool {
    forall|i: int| 0 <= i < log.len() ==> !((#[trigger] log[i]) is NotDownloaded)
}

proof fn lemma_run_again(
    entries: Seq<EntryView>,
    discover: Seq<PlaceView>,
    configured: Seq<Seq<char>>,
    events: Seq<EventView>,
)
    requires
        no_loss(run(start(entries, discover, configured), events).log),
    ensures
        ({
            let s0 = start(entries, discover, configured);
            run(s0, again(s0, events)) == kept_state(run(s0, events))
        }),
    decreases events.len(),
{
    let s0 = start(entries, discover, configured);
    if events.len() == 0 {
        law_invariant(entries, discover, configured, events);
        lemma_start_log(entries, discover, configured);
        assert(kept_log(s0.log) =~= s0.log);
    } else {
        let front = events.drop_last();
        let s = run(s0, front);
        let event = events.last();
        law_invariant(entries, discover, configured, front);
        lemma_step_inv(s, event);
        assert(s.log.is_prefix_of(run(s0, events).log));
        assert forall|i: int| 0 <= i < s.log.len() implies !((
        #[trigger] s.log[i]) is NotDownloaded) by {
            assert(s.log[i] == run(s0, events).log[i]);
        }
        lemma_run_again(entries, discover, configured, front);
        if s.request is Download && event == EventView::Answer(false) {
            lemma_lost(s);
            assert(false);
        }
        if s.request is FindCached && event == EventView::Answer(false) {
        } else {
            lemma_step_kept(s, event);
            assert(again(s0, events).drop_last() =~= again(s0, front));
        }
    }
}

proof fn lemma_lost(s: GatherView)
    requires
        s.request is Download,
    ensures
        !no_loss(step(s, EventView::Answer(false)).log),
{
    let spec = s.request->Download_0;
    let next = s.logged(OutcomeView::NotDownloaded(spec));
    lemma_settle_follows(next);
    let i = s.log.len() as int;
    assert(next.log[i] is NotDownloaded);
    assert(settle(next).log[i] == next.log[i]);
}

proof fn lemma_start_log(
    entries: Seq<EntryView>,
    discover: Seq<PlaceView>,
    configured: Seq<Seq<char>>,
)
    ensures
        kept_log(start(entries, discover, configured).log) == start(
            entries,
            discover,
            configured,
        ).log,
        !(start(entries, discover, configured).request is Download),
{
    let s = GatherView {
        configured,
        processed: Seq::empty(),
        log: Seq::empty(),
        discovered: Seq::empty(),
        tasks: entries.map_values(|entry: EntryView| entry_task(entry)).reverse()
            + discover.map_values(|place: PlaceView| TaskView::Discover(place)).reverse(),
        request: RequestView::Done,
    };
    lemma_settle_kept(s);
    assert(kept_log(s.log) =~= s.log);
    lemma_settle_requests(s);
}

proof fn lemma_kept_tally(log: Seq<OutcomeView>)
    ensures
        tally(kept_log(log)) == (0nat, tally(log).1, tally(log).0 + tally(log).2, tally(log).3),
    decreases log.len(),
{
    if log.len() > 0 {
        lemma_kept_tally(log.drop_last());
        assert(kept_log(log).drop_last() =~= kept_log(log.drop_last()));
        assert(kept_log(log).last() == kept_outcome(log.last()));
    }
}

/// A second operation, for which everything is as it was but that the packages are
/// there, downloads nothing: it passes over what the first one downloaded or passed
/// over, copies the local packages again, and reports the same. This holds where
/// nothing failed the first time.
pub proof fn law_second_run_downloads_nothing(
    entries: Seq<EntryView>,
    discover: Seq<PlaceView>,
    configured: Seq<Seq<char>>,
    events: Seq<EventView>,
)
    requires
        run(start(entries, discover, configured), events).request is Done,
        tally(run(start(entries, discover, configured), events).log).3 == 0,
    ensures
        ({
            let s0 = start(entries, discover, configured);
            let first = run(s0, events);
            let second = run(s0, again(s0, events));
            &&& second.request is Done
            &&& tally(second.log) == (
                0nat,
                tally(first.log).1,
                tally(first.log).0 + tally(first.log).2,
                0nat,
            )
            &&& second.discovered == first.discovered
            &&& second.configured == first.configured
            &&& second.processed == first.processed
        }),
{
    let s0 = start(entries, discover, configured);
    let first = run(s0, events);
    law_stats_count_every_outcome(first.log);
    assert(no_loss(first.log)) by {
        assert forall|i: int| 0 <= i < first.log.len() implies !((
        #[trigger] first.log[i]) is NotDownloaded) by {
            assert(succeeded(first.log[i]));
        }
    }
    lemma_run_again(entries, discover, configured, events);
    lemma_kept_tally(first.log);
}

/// What an event tells of a path.
pub open spec fn found_in(event: EventView) -> FoundView {
    match event {
        EventView::Found(found) => found,
        _ => FoundView::Missing,
    }
}

/// What an event tells of imports.
pub open spec fn imports_in(event: EventView) -> Seq<SpecView> {
    match event {
        EventView::Imports(imports) => imports,
        _ => Seq::empty(),
    }
}

/// The discovered local packages, after some files were read in a world.
pub open spec fn scan_files(
    files: Seq<(usize, Seq<char>)>,
    discovered: Seq<(Seq<char>, Seq<char>)>,
    world: spec_fn(RequestView) -> EventView,
) -> Seq<(Seq<char>, Seq<char>)>
    decreases files.len(),
{
    if files.len() == 0 {
        discovered
    } else {
        let (id, name) = files[0];
        let imports = imports_in(world(RequestView::Read { id, name }));
        scan_files(files.skip(1), note_locals(discovered, imports, name), world)
    }
}

/// The discovered local packages, after some paths were scanned in a world.
pub open spec fn scan_paths(
    paths: Seq<PlaceView>,
    discovered: Seq<(Seq<char>, Seq<char>)>,
    world: spec_fn(RequestView) -> EventView,
) -> Seq<(Seq<char>, Seq<char>)>
    decreases paths.len(),
{
    if paths.len() == 0 {
        discovered
    } else {
        let files = sources_of(found_in(world(RequestView::Look(paths[0]))));
        scan_paths(paths.skip(1), scan_files(files, discovered, world), world)
    }
}

/// The discovered local packages, after some tasks were done in a world.
pub open spec fn scan(
    tasks: Seq<TaskView>,
    discovered: Seq<(Seq<char>, Seq<char>)>,
    world: spec_fn(RequestView) -> EventView,
) -> Seq<(Seq<char>, Seq<char>)>
    decreases tasks.len(),
{
    if tasks.len() == 0 {
        discovered
    } else {
        let next = match tasks.last() {
            TaskView::Discover(place) => scan_files(
                sources_of(found_in(world(RequestView::Look(place)))),
                discovered,
                world,
            ),
            TaskView::Source { id, name } => note_locals(
                discovered,
                imports_in(world(RequestView::Read { id, name })),
                name,
            ),
            _ => discovered,
        };
        scan(tasks.drop_last(), next, world)
    }
}

/// The discovered local packages that an operation will end with, in a world.
pub open spec fn expected(s: GatherView, world: spec_fn(RequestView) -> EventView) -> Seq<
    (Seq<char>, Seq<char>),
> {
    let next = match s.request {
        RequestView::Look(_) => scan_files(
            sources_of(found_in(world(s.request))),
            s.discovered,
            world,
        ),
        RequestView::Read { name, .. } => note_locals(
            s.discovered,
            imports_in(world(s.request)),
            name,
        ),
        _ => s.discovered,
    };
    scan(s.tasks, next, world)
}

/// Whether all that is told of paths and files is as it is in a world.
pub open spec fn told(
    s: GatherView,
    events: Seq<EventView>,
    world: spec_fn(RequestView) -> EventView,
) -> bool {
    forall|k: int|
        0 <= k < events.len() ==> tells(run(s, events.take(k)).request, #[trigger] events[k], world)
}

/// Whether what an event tells of a path or of a file is as it is in a world.
pub open spec fn tells(
    request: RequestView,
    event: EventView,
    world: spec_fn(RequestView) -> EventView,
) -> bool {
    (request is Look && event is Found) || (request is Read && event is Imports) ==> event == world(
        request,
    )
}

proof fn lemma_settle_expected(s: GatherView, world: spec_fn(RequestView) -> EventView)
    ensures
        expected(settle(s), world) == scan(s.tasks, s.discovered, world),
    decreases s.tasks.len(),
{
    if s.tasks.len() > 0 {
        let rest = GatherView { tasks: s.tasks.drop_last(), ..s };
        lemma_settle_expected(rest, world);
        match s.tasks.last() {
            TaskView::Preview { name, version, parsed } => {
                lemma_settle_expected(
                    rest.logged(OutcomeView::InvalidVersion { name, version }),
                    world,
                );
            },
            _ => {},
        }
    }
}

proof fn lemma_scan_sources(
    tasks: Seq<TaskView>,
    files: Seq<(usize, Seq<char>)>,
    discovered: Seq<(Seq<char>, Seq<char>)>,
    world: spec_fn(RequestView) -> EventView,
)
    ensures
        scan(tasks + source_tasks(files), discovered, world) == scan(
            tasks,
            scan_files(files, discovered, world),
            world,
        ),
    decreases files.len(),
{
    if files.len() == 0 {
        assert(tasks + source_tasks(files) =~= tasks);
    } else {
        let make = |file: (usize, Seq<char>)| TaskView::Source { id: file.0, name: file.1 };
        lemma_stacked(files, make);
        let all = tasks + source_tasks(files);
        let (id, name) = files[0];
        assert(all.drop_last() =~= tasks + source_tasks(files.skip(1)));
        assert(all.last() == TaskView::Source { id, name });
        let imports = imports_in(world(RequestView::Read { id, name }));
        lemma_scan_sources(tasks, files.skip(1), note_locals(discovered, imports, name), world);
    }
}

proof fn lemma_scan_others(
    tasks: Seq<TaskView>,
    more: Seq<TaskView>,
    discovered: Seq<(Seq<char>, Seq<char>)>,
    world: spec_fn(RequestView) -> EventView,
)
    requires
        forall|i: int|
            0 <= i < more.len() ==> !((#[trigger] more[i]) is Discover) && !(more[i] is Source),
    ensures
        scan(tasks + more, discovered, world) == scan(tasks, discovered, world),
    decreases more.len(),
{
    if more.len() == 0 {
        assert(tasks + more =~= tasks);
    } else {
        assert((tasks + more).drop_last() =~= tasks + more.drop_last());
        assert((tasks + more).last() == more[more.len() - 1]);
        lemma_scan_others(tasks, more.drop_last(), discovered, world);
    }
}

proof fn lemma_scan_paths(
    tasks: Seq<TaskView>,
    paths: Seq<PlaceView>,
    discovered: Seq<(Seq<char>, Seq<char>)>,
    world: spec_fn(RequestView) -> EventView,
)
    ensures
        scan(
            tasks + stacked(paths, |place: PlaceView| TaskView::Discover(place)),
            discovered,
            world,
        ) == scan(tasks, scan_paths(paths, discovered, world), world),
    decreases paths.len(),
{
    let make = |place: PlaceView| TaskView::Discover(place);
    if paths.len() == 0 {
        assert(tasks + stacked(paths, make) =~= tasks);
    } else {
        lemma_stacked(paths, make);
        let all = tasks + stacked(paths, make);
        assert(all.drop_last() =~= tasks + stacked(paths.skip(1), make));
        assert(all.last() == TaskView::Discover(paths[0]));
        let files = sources_of(found_in(world(RequestView::Look(paths[0]))));
        lemma_scan_paths(tasks, paths.skip(1), scan_files(files, discovered, world), world);
    }
}

proof fn lemma_step_expected(
    s: GatherView,
    event: EventView,
    world: spec_fn(RequestView) -> EventView,
)
    requires
        tells(s.request, event, world),
    ensures
        expected(step(s, event), world) == expected(s, world),
{
    match (s.request, event) {
        (RequestView::Look(place), EventView::Found(found)) => {
            lemma_scan_sources(s.tasks, sources_of(found), s.discovered, world);
            lemma_settle_expected(after_look(s, place, found), world);
        },
        (RequestView::Read { id, name }, EventView::Imports(imports)) => {
            let next = after_read(s, name, imports);
            lemma_package_tasks(imports);
            lemma_scan_others(s.tasks, package_tasks(imports), next.discovered, world);
            lemma_settle_expected(next, world);
        },
        (RequestView::Download(spec), EventView::Answer(yes)) => {
            lemma_settle_expected(s.logged(OutcomeView::NotDownloaded(spec)), world);
        },
        (RequestView::Walk(spec), EventView::Imports(imports)) => {
            lemma_package_tasks(imports);
            lemma_scan_others(s.tasks, package_tasks(imports), s.discovered, world);
            lemma_settle_expected(
                GatherView { tasks: s.tasks + package_tasks(imports), ..s },
                world,
            );
        },
        (RequestView::ReadManifest { name, dir }, EventView::Manifest(manifest)) => match manifest {
            None => lemma_settle_expected(s.logged(OutcomeView::NoManifest { name }), world),
            Some(m) => lemma_settle_expected(
                s.logged(OutcomeView::NameMismatch { name, found: m.name }),
                world,
            ),
        },
        (RequestView::Clear { spec, dir, exclude }, EventView::Answer(yes)) => {
            lemma_settle_expected(s.logged(OutcomeView::NotCleared(spec)), world);
        },
        (RequestView::Copy { spec, dir, exclude }, EventView::Answer(yes)) => {
            lemma_settle_expected(s.logged(OutcomeView::NotCopied(spec)), world);
        },
        _ => {},
    }
}

proof fn lemma_run_expected(
    s: GatherView,
    events: Seq<EventView>,
    world: spec_fn(RequestView) -> EventView,
    n: int,
)
    requires
        0 <= n <= events.len(),
        told(s, events, world),
    ensures
        expected(run(s, events.take(n)), world) == expected(s, world),
    decreases n,
{
    if n == 0 {
        assert(events.take(0) =~= Seq::empty());
    } else {
        lemma_run_expected(s, events, world, n - 1);
        lemma_run_step(s, events, n - 1);
        assert(tells(run(s, events.take(n - 1)).request, events[n - 1], world));
        lemma_step_expected(run(s, events.take(n - 1)), events[n - 1], world);
    }
}

/// Which local packages are discovered, and in which files, depends on the paths and
/// on what stands there, and on nothing else.
pub proof fn law_discoveries_depend_on_paths_only(
    entries: Seq<EntryView>,
    discover: Seq<PlaceView>,
    configured: Seq<Seq<char>>,
    events: Seq<EventView>,
    world: spec_fn(RequestView) -> EventView,
)
    requires
        told(start(entries, discover, configured), events, world),
        run(start(entries, discover, configured), events).request is Done,
    ensures
        run(start(entries, discover, configured), events).discovered == scan_paths(
            discover,
            Seq::empty(),
            world,
        ),
{
    let s0 = start(entries, discover, configured);
    let first = stacked(entries, |entry: EntryView| entry_task(entry));
    let second = stacked(discover, |place: PlaceView| TaskView::Discover(place));
    let s = GatherView {
        configured,
        processed: Seq::empty(),
        log: Seq::empty(),
        discovered: Seq::empty(),
        tasks: first + second,
        request: RequestView::Done,
    };
    let all = scan_paths(discover, Seq::empty(), world);
    lemma_settle_expected(s, world);
    lemma_scan_paths(first, discover, Seq::empty(), world);
    assert forall|i: int| 0 <= i < first.len() implies !((#[trigger] first[i]) is Discover) && !(
    first[i] is Source) by {
        assert(first[i] == entry_task(entries[entries.len() - 1 - i]));
    }
    assert(Seq::<TaskView>::empty() + first =~= first);
    lemma_scan_others(Seq::empty(), first, all, world);
    lemma_run_expected(s0, events, world, events.len() as int);
    assert(events.take(events.len() as int) =~= events);
    law_invariant(entries, discover, configured, events);
}

proof fn lemma_filter_all<A>(s: Seq<A>, pred: spec_fn(A) -> bool)
    requires
        forall|i: int| 0 <= i < s.len() ==> pred(#[trigger] s[i]),
    ensures
        s.filter(pred) == s,
    decreases s.len(),
{
    reveal(Seq::filter);
    if s.len() > 0 {
        assert(pred(s[s.len() - 1]));
        lemma_filter_all(s.drop_last(), pred);
        assert(s.drop_last().push(s.last()) =~= s);
    }
}

/// The entries have no say in which local packages are reported: of two operations
/// that scan the same paths, the one with some packages configured reports what the
/// one with none reports, without those packages.
pub proof fn law_entries_have_no_say_in_the_report(
    entries: Seq<EntryView>,
    others: Seq<EntryView>,
    discover: Seq<PlaceView>,
    configured: Seq<Seq<char>>,
    events: Seq<EventView>,
    other_events: Seq<EventView>,
    world: spec_fn(RequestView) -> EventView,
)
    requires
        told(start(entries, discover, configured), events, world),
        told(start(others, discover, Seq::empty()), other_events, world),
        run(start(entries, discover, configured), events).request is Done,
        run(start(others, discover, Seq::empty()), other_events).request is Done,
    ensures
        ({
            let s = run(start(entries, discover, configured), events);
            let t = run(start(others, discover, Seq::empty()), other_events);
            unconfigured(s.discovered, s.configured) == unconfigured(
                unconfigured(t.discovered, t.configured),
                configured,
            )
        }),
{
    let s = run(start(entries, discover, configured), events);
    let t = run(start(others, discover, Seq::empty()), other_events);
    law_discoveries_depend_on_paths_only(entries, discover, configured, events, world);
    law_discoveries_depend_on_paths_only(others, discover, Seq::empty(), other_events, world);
    law_invariant(entries, discover, configured, events);
    law_invariant(others, discover, Seq::empty(), other_events);
    lemma_filter_all(
        t.discovered,
        |pair: (Seq<char>, Seq<char>)| !t.configured.contains(pair.0),
    );
}

/// The more packages are configured, the fewer are reported.
pub proof fn law_configuring_shrinks_the_report(
    discovered: Seq<(Seq<char>, Seq<char>)>,
    fewer: Seq<Seq<char>>,
    more: Seq<Seq<char>>,
    pair: (Seq<char>, Seq<char>),
)
    requires
        forall|name: Seq<char>| #[trigger] fewer.contains(name) ==> more.contains(name),
    ensures
        unconfigured(discovered, more).contains(pair) ==> unconfigured(discovered, fewer).contains(
            pair,
        ),
{
    lemma_filter_contains(
        discovered,
        |pair: (Seq<char>, Seq<char>)| !more.contains(pair.0),
        pair,
    );
    lemma_filter_contains(
        discovered,
        |pair: (Seq<char>, Seq<char>)| !fewer.contains(pair.0),
        pair,
    );
}

} // verus!
