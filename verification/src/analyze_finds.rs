//! The table of an analysis is what was found, and nothing else.

use vstd::prelude::*;
use vstd::relations::sorted_by;

use crate::analyze::{
    enqueue, failure_text, first_local, is_known, known, local_label, preview_label, preview_pairs,
    start, step, AnalysisView, EventView, RequestView,
};
use crate::analyze_ends::answers;
use crate::analyze_laws::{inv, law_invariant, lemma_known, lemma_run_step, lemma_step_inv, run};
use crate::analyze_steps::{heard, lemma_unanswered};
use crate::config::ConfigView;
use crate::gather::local_spec;
use crate::import_laws::{distinct, law_merge, law_merge_all, same_package};
use crate::imports::{has_import, is_for, merge, merge_all, new_info, promoted, InfoView};
use crate::order::{lemma_pair_order_total, pair_order};
use crate::package::{spec_text, version_text, SpecView};
use crate::package_laws::law_versions_are_told_apart;
use crate::seqs::{chosen, lemma_chosen_push, lemma_push_contains};

verus! {

/// Whether an entry is for a package and version.
pub open spec fn entry_for(info: InfoView, spec: SpecView) -> bool {
    info.namespace == spec.namespace && info.name == spec.name && info.version == version_text(
        spec.version,
    )
}

/// Whether a table says of a package where it was found, and whether directly.
pub open spec fn says(
    table: Seq<InfoView>,
    spec: SpecView,
    find: Option<(Seq<char>, bool)>,
) -> bool {
    match find {
        Some((source, direct)) => exists|i: int|
            0 <= i < table.len() && entry_for(#[trigger] table[i], spec) && table[i].source
                == source && table[i].direct == direct,
        None => forall|i: int| 0 <= i < table.len() ==> !entry_for(#[trigger] table[i], spec),
    }
}

/// Where an answer says that a package is found, and whether directly: in a scanned file,
/// as a local package, in a local package, or in a package in a directory that imports no
/// local one. Packages of other namespaces are not found.
pub open spec fn find(pair: (RequestView, EventView), spec: SpecView) -> Option<
    (Seq<char>, bool),
> {
    let counts = spec.namespace == "preview"@ || spec.namespace == "local"@;
    match pair {
        (RequestView::Read { name, .. }, EventView::Imports(imports)) => if counts
            && imports.contains(spec) {
            Some((name, true))
        } else {
            None
        },
        (RequestView::ReadManifest { name, .. }, EventView::Manifest(Some(m))) => if spec == (
        SpecView { namespace: "local"@, name, version: m.version }) {
            Some(("@local/"@ + name, false))
        } else {
            None
        },
        (RequestView::Walk { name, .. }, EventView::Imports(imports)) => if counts
            && imports.contains(spec) {
            Some(("@local/"@ + name, false))
        } else {
            None
        },
        (
            RequestView::Probe { name, version, .. },
            EventView::Cached(Some(imports)),
        ) => if counts && imports.contains(spec) && forall|i: int|
            0 <= i < imports.len() ==> (#[trigger] imports[i]).namespace != "local"@ {
            Some(("@preview/"@ + name + ":"@ + version, false))
        } else {
            None
        },
        _ => None,
    }
}

/// The finds of a package, in order.
pub open spec fn finds(pairs: Seq<(RequestView, EventView)>, spec: SpecView) -> Seq<
    (Seq<char>, bool),
> {
    chosen(pairs, |pair: (RequestView, EventView)| find(pair, spec))
}

/// What counts of some finds: the first that is direct, or else the first.
pub open spec fn verdict(finds: Seq<(Seq<char>, bool)>) -> Option<(Seq<char>, bool)>
    decreases finds.len(),
{
    if finds.len() == 0 {
        None
    } else {
        updated(verdict(finds.drop_last()), finds.last())
    }
}

/// What counts once there is one more find.
pub open spec fn updated(
    before: Option<(Seq<char>, bool)>,
    find: (Seq<char>, bool),
) -> Option<(Seq<char>, bool)> {
    match before {
        None => Some(find),
        Some((_, direct)) => if find.1 && !direct {
            Some(find)
        } else {
            before
        },
    }
}

/// What counts is the first direct find, or else the first find.
pub proof fn law_first_direct_find_counts(finds: Seq<(Seq<char>, bool)>)
    ensures
        verdict(finds) is None <==> finds.len() == 0,
        forall|i: int|
            0 <= i < finds.len() && (#[trigger] finds[i]).1 && (forall|j: int|
                0 <= j < i ==> !(#[trigger] finds[j]).1) ==> verdict(finds) == Some(finds[i]),
        finds.len() > 0 && (forall|j: int| 0 <= j < finds.len() ==> !(#[trigger] finds[j]).1)
            ==> verdict(finds) == Some(finds[0]),
    decreases finds.len(),
{
    if finds.len() > 0 {
        let front = finds.drop_last();
        law_first_direct_find_counts(front);
        assert(forall|j: int| 0 <= j < front.len() ==> #[trigger] front[j] == finds[j]);
        lemma_verdict_direct(front);
        assert forall|i: int|
            0 <= i < finds.len() && (#[trigger] finds[i]).1 && (forall|j: int|
                0 <= j < i ==> !(#[trigger] finds[j]).1) implies verdict(finds) == Some(
            finds[i],
        ) by {
            if i < front.len() {
                assert(front[i].1);
                assert(verdict(front) == Some(front[i]));
            } else if front.len() > 0 {
                assert(forall|j: int| 0 <= j < front.len() ==> !(#[trigger] front[j]).1);
            }
        }
        if forall|j: int| 0 <= j < finds.len() ==> !(#[trigger] finds[j]).1 {
            assert(!finds[finds.len() - 1].1);
            if front.len() > 0 {
                assert(forall|j: int| 0 <= j < front.len() ==> !(#[trigger] front[j]).1);
            }
        }
    }
}

proof fn lemma_verdict_direct(finds: Seq<(Seq<char>, bool)>)
    ensures
        verdict(finds) matches Some((_, direct)) ==> (direct <==> exists|j: int|
            0 <= j < finds.len() && (#[trigger] finds[j]).1),
    decreases finds.len(),
{
    if finds.len() > 0 {
        let front = finds.drop_last();
        lemma_verdict_direct(front);
        assert(finds.last() == finds[finds.len() - 1]);
        if exists|j: int| 0 <= j < front.len() && (#[trigger] front[j]).1 {
            let j = choose|j: int| 0 <= j < front.len() && (#[trigger] front[j]).1;
            assert(finds[j].1);
        }
        if exists|j: int| 0 <= j < finds.len() && (#[trigger] finds[j]).1 {
            let j = choose|j: int| 0 <= j < finds.len() && (#[trigger] finds[j]).1;
            if j < front.len() {
                assert(front[j].1);
            }
        }
    }
}

proof fn lemma_merge_says(
    table: Seq<InfoView>,
    other: SpecView,
    source: Seq<char>,
    direct: bool,
    spec: SpecView,
    before: Option<(Seq<char>, bool)>,
)
    requires
        distinct(table),
        says(table, spec, before),
    ensures
        says(
            merge(table, other, source, direct),
            spec,
            if spec == other {
                updated(before, (source, direct))
            } else {
                before
            },
        ),
{
    let merged = merge(table, other, source, direct);
    law_merge(table, other, source, direct);
    law_versions_are_told_apart(spec.version, other.version);
    match before {
        Some((s, d)) => {
            let i = choose|i: int|
                0 <= i < table.len() && entry_for(#[trigger] table[i], spec) && table[i].source == s
                    && table[i].direct == d;
            if spec == other {
                assert(is_for(table[i], other));
                assert(has_import(table, other));
                if direct {
                    assert(merged[i] == promoted(table[i], other, source));
                } else {
                    assert(merged[i] == table[i]);
                }
                assert(entry_for(merged[i], spec));
            } else {
                if merged[i] != table[i] {
                    assert(is_for(merged[i], other));
                }
                assert(same_package(merged[i], table[i]));
                assert(entry_for(merged[i], spec));
            }
        },
        None => {
            if spec == other {
                assert(forall|i: int|
                    0 <= i < table.len() ==> !is_for(#[trigger] table[i], other)) by {
                    assert forall|i: int| 0 <= i < table.len() implies !is_for(
                        #[trigger] table[i],
                        other,
                    ) by {
                        assert(!entry_for(table[i], spec));
                    }
                }
                assert(!has_import(table, other));
                let last = table.len() as int;
                assert(merged[last] == new_info(other, source, direct));
                assert(entry_for(merged[last], spec));
            } else {
                assert forall|i: int| 0 <= i < merged.len() implies !entry_for(
                    #[trigger] merged[i],
                    spec,
                ) by {
                    if i < table.len() {
                        assert(!entry_for(table[i], spec));
                        assert(same_package(merged[i], table[i]));
                    } else {
                        assert(is_for(merged[i], other));
                    }
                }
            }
        },
    }
}

proof fn lemma_updated_twice(before: Option<(Seq<char>, bool)>, find: (Seq<char>, bool))
    ensures
        updated(updated(before, find), find) == updated(before, find),
{
}

proof fn lemma_merge_all_says(
    table: Seq<InfoView>,
    imports: Seq<SpecView>,
    source: Seq<char>,
    direct: bool,
    spec: SpecView,
    before: Option<(Seq<char>, bool)>,
)
    requires
        distinct(table),
        says(table, spec, before),
    ensures
        says(
            merge_all(table, imports, source, direct),
            spec,
            if imports.contains(spec) {
                updated(before, (source, direct))
            } else {
                before
            },
        ),
    decreases imports.len(),
{
    if imports.len() > 0 {
        let front = imports.drop_last();
        let last = imports.last();
        lemma_merge_all_says(table, front, source, direct, spec, before);
        law_merge_all(table, front, source, direct);
        assert(imports =~= front.push(last));
        lemma_push_contains(front, last, spec);
        lemma_updated_twice(before, (source, direct));
        let now = if front.contains(spec) {
            updated(before, (source, direct))
        } else {
            before
        };
        lemma_merge_says(
            merge_all(table, front, source, direct),
            last,
            source,
            direct,
            spec,
            now,
        );
    }
}

proof fn lemma_first_local_none(imports: Seq<SpecView>)
    ensures
        first_local(imports) is None <==> forall|i: int|
            0 <= i < imports.len() ==> (#[trigger] imports[i]).namespace != "local"@,
    decreases imports.len(),
{
    if imports.len() > 0 {
        let rest = imports.skip(1);
        lemma_first_local_none(rest);
        assert(forall|i: int| 0 <= i < rest.len() ==> #[trigger] rest[i] == imports[i + 1]);
        if imports[0].namespace != "local"@ {
            if forall|i: int| 0 <= i < rest.len() ==> (#[trigger] rest[i]).namespace != "local"@ {
                assert forall|i: int| 0 <= i < imports.len() implies (
                #[trigger] imports[i]).namespace != "local"@ by {
                    if i > 0 {
                        assert(rest[i - 1] == imports[i]);
                    }
                }
            } else {
                let i = choose|i: int|
                    0 <= i < rest.len() && (#[trigger] rest[i]).namespace == "local"@;
                assert(imports[i + 1].namespace == "local"@);
            }
        }
    }
}

proof fn lemma_step_says(
    s: AnalysisView,
    event: EventView,
    pairs: Seq<(RequestView, EventView)>,
    spec: SpecView,
)
    requires
        inv(s),
        answers(s.request, event),
        says(s.table, spec, verdict(finds(pairs, spec))),
    ensures
        says(
            step(s, event).table,
            spec,
            verdict(finds(pairs.push((s.request, event)), spec)),
        ),
{
    let pair = (s.request, event);
    let before = verdict(finds(pairs, spec));
    let make = |pair: (RequestView, EventView)| find(pair, spec);
    lemma_chosen_push(pairs, pair, make);
    match find(pair, spec) {
        Some(found) => {
            assert(finds(pairs, spec).push(found).drop_last() =~= finds(pairs, spec));
            assert(verdict(finds(pairs.push(pair), spec)) == updated(before, found));
        },
        None => {
            assert(verdict(finds(pairs.push(pair), spec)) == before);
        },
    }
    match (s.request, event) {
        (RequestView::Read { id, name }, EventView::Imports(imports)) => {
            lemma_known(imports, spec);
            lemma_merge_all_says(s.table, known(imports), name, true, spec, before);
        },
        (RequestView::ReadManifest { name, place }, EventView::Manifest(Some(m))) => {
            let other = local_spec(name, m.version);
            lemma_merge_says(s.table, other, local_label(name), false, spec, before);
        },
        (RequestView::Walk { name, place }, EventView::Imports(imports)) => {
            lemma_known(imports, spec);
            lemma_merge_all_says(s.table, known(imports), local_label(name), false, spec, before);
        },
        (
            RequestView::Probe { cache, name, version },
            EventView::Cached(Some(imports)),
        ) => {
            lemma_known(imports, spec);
            lemma_first_local_none(imports);
            lemma_merge_all_says(
                s.table,
                known(imports),
                preview_label(name, version),
                false,
                spec,
                before,
            );
        },
        _ => {},
    }
}

proof fn lemma_run_says(config: ConfigView, events: Seq<EventView>, spec: SpecView)
    ensures
        says(
            run(start(config), events).table,
            spec,
            verdict(finds(heard(start(config), events), spec)),
        ),
    decreases events.len(),
{
    let s0 = start(config);
    if events.len() == 0 {
        assert(s0.table.len() == 0);
    } else {
        let front = events.drop_last();
        lemma_run_says(config, front, spec);
        law_invariant(config, front);
        if answers(run(s0, front).request, events.last()) {
            lemma_step_says(run(s0, front), events.last(), heard(s0, front), spec);
        } else {
            lemma_unanswered(run(s0, front), events.last());
        }
    }
}

/// The table tells of each package what was found: it has an entry for a package and
/// version exactly if that was found, be it in a scanned file, as a local package, in a
/// local package, or in a package in a directory. The entry is direct exactly if a scanned
/// file imports the package; its source is then the first such file, and else whatever was
/// the first to import it.
pub proof fn law_table_is_what_was_found(config: ConfigView, events: Seq<EventView>, spec: SpecView)
    ensures
        says(
            run(start(config), events).table,
            spec,
            verdict(finds(heard(start(config), events), spec)),
        ),
{
    lemma_run_says(config, events, spec);
}

/// Every entry of the table is for a package that was found.
pub proof fn law_every_entry_was_found(config: ConfigView, events: Seq<EventView>, i: int)
    requires
        0 <= i < run(start(config), events).table.len(),
    ensures
        exists|spec: SpecView| #[trigger]
            entry_for(run(start(config), events).table[i], spec) && finds(
                heard(start(config), events),
                spec,
            ).len() > 0,
    decreases events.len(),
{
    let s0 = start(config);
    let t = run(s0, events);
    let info = t.table[i];
    assert(events.len() > 0);
    let front = events.drop_last();
    let s = run(s0, front);
    law_invariant(config, front);
    lemma_step_inv(s, events.last());
    let spec = if i < s.table.len() {
        law_every_entry_was_found(config, front, i);
        assert(same_package(info, s.table[i]));
        choose|spec: SpecView| #[trigger]
            entry_for(s.table[i], spec) && finds(heard(s0, front), spec).len() > 0
    } else {
        lemma_new_entry(s, events.last(), i)
    };
    assert(entry_for(info, spec));
    law_table_is_what_was_found(config, events, spec);
    law_first_direct_find_counts(finds(heard(s0, events), spec));
}

proof fn lemma_new_entry(s: AnalysisView, event: EventView, i: int) -> (spec: SpecView)
    requires
        inv(s),
        s.table.len() <= i < step(s, event).table.len(),
    ensures
        entry_for(step(s, event).table[i], spec),
{
    let info = step(s, event).table[i];
    match (s.request, event) {
        (RequestView::Read { id, name }, EventView::Imports(imports)) => {
            law_merge_all(s.table, known(imports), name, true);
            let j = choose|j: int|
                0 <= j < known(imports).len() && is_for(info, #[trigger] known(imports)[j]);
            known(imports)[j]
        },
        (RequestView::ReadManifest { name, place }, EventView::Manifest(Some(m))) => {
            law_merge(s.table, local_spec(name, m.version), local_label(name), false);
            local_spec(name, m.version)
        },
        (RequestView::Walk { name, place }, EventView::Imports(imports)) => {
            law_merge_all(s.table, known(imports), local_label(name), false);
            let j = choose|j: int|
                0 <= j < known(imports).len() && is_for(info, #[trigger] known(imports)[j]);
            known(imports)[j]
        },
        (
            RequestView::Probe { cache, name, version },
            EventView::Cached(Some(imports)),
        ) => {
            law_merge_all(s.table, known(imports), preview_label(name, version), false);
            let j = choose|j: int|
                0 <= j < known(imports).len() && is_for(info, #[trigger] known(imports)[j]);
            known(imports)[j]
        },
        _ => arbitrary(),
    }
}

/// The first local package among some imports is the one before which there is none.
pub proof fn law_first_local_comes_first(imports: Seq<SpecView>, i: int)
    requires
        0 <= i < imports.len(),
        imports[i].namespace == "local"@,
        forall|j: int| 0 <= j < i ==> (#[trigger] imports[j]).namespace != "local"@,
    ensures
        first_local(imports) == Some(imports[i]),
    decreases imports.len(),
{
    if i > 0 {
        let rest = imports.skip(1);
        assert(forall|j: int| 0 <= j < rest.len() ==> #[trigger] rest[j] == imports[j + 1]);
        assert(imports[0].namespace != "local"@);
        law_first_local_comes_first(rest, i - 1);
    }
}

/// A failure names the package that was found and the local package that it imports.
pub proof fn law_failure_names_both(name: Seq<char>, version: Seq<char>, dependency: SpecView)
    ensures
        failure_text(name, version, dependency) == "@preview/"@ + name + ":"@ + version
            + " imports "@ + spec_text(dependency)
            + " \u{2014} a published package cannot depend on local packages"@,
{
}

/// The packages to look for grow by what is not among them yet, each once, in the order
/// of the imports.
pub proof fn law_queue_grows_in_order(
    packages: Seq<(Seq<char>, Seq<char>)>,
    a: Seq<SpecView>,
    b: Seq<SpecView>,
    spec: SpecView,
)
    ensures
        enqueue(packages, a + b) == enqueue(enqueue(packages, a), b),
        enqueue(packages, seq![spec]) == if packages.contains(
            (spec.name, version_text(spec.version)),
        ) {
            packages
        } else {
            packages.push((spec.name, version_text(spec.version)))
        },
    decreases b.len(),
{
    if b.len() == 0 {
        assert(a + b =~= a);
        assert(seq![spec].drop_last() =~= Seq::empty());
        assert(enqueue(packages, seq![spec].drop_last()) == packages);
    } else {
        law_queue_grows_in_order(packages, a, b.drop_last(), spec);
        assert((a + b).drop_last() =~= a + b.drop_last());
    }
}

/// Those of some imports that are of the `preview` or the `local` namespace, in order.
pub open spec fn counted(imports: Seq<SpecView>) -> Seq<SpecView> {
    imports.filter(|spec: SpecView| spec.namespace == "preview"@ || spec.namespace == "local"@)
}

/// The table grows by what an answer tells, in the order of the imports: by those of a
/// scanned file, which are direct, by a local package and what it imports, and by what a
/// package that was found imports, unless it imports a local one. Nothing else changes it.
pub proof fn law_table_grows_in_order(s: AnalysisView, event: EventView)
    ensures
        step(s, event).table == match (s.request, event) {
            (RequestView::Read { id, name }, EventView::Imports(imports)) => merge_all(
                s.table,
                counted(imports),
                name,
                true,
            ),
            (RequestView::ReadManifest { name, place }, EventView::Manifest(Some(m))) => merge(
                s.table,
                SpecView { namespace: "local"@, name, version: m.version },
                "@local/"@ + name,
                false,
            ),
            (RequestView::Walk { name, place }, EventView::Imports(imports)) => merge_all(
                s.table,
                counted(imports),
                "@local/"@ + name,
                false,
            ),
            (
                RequestView::Probe { cache, name, version },
                EventView::Cached(Some(imports)),
            ) => if exists|i: int|
                0 <= i < imports.len() && (#[trigger] imports[i]).namespace == "local"@ {
                s.table
            } else {
                merge_all(s.table, counted(imports), "@preview/"@ + name + ":"@ + version, false)
            },
            _ => s.table,
        },
{
    match event {
        EventView::Imports(imports) => lemma_counted(imports),
        EventView::Cached(Some(imports)) => {
            lemma_counted(imports);
            lemma_no_local(imports);
        },
        _ => {},
    }
}

/// What a package that was found imports, and is not to be looked for yet, is to be looked
/// for after all others, in the order of the imports.
pub proof fn law_queue_grows_by_what_is_found(s: AnalysisView, imports: Seq<SpecView>)
    requires
        s.request is Probe,
        forall|i: int| 0 <= i < imports.len() ==> (#[trigger] imports[i]).namespace != "local"@,
    ensures
        step(s, EventView::Cached(Some(imports))).packages == enqueue(s.packages, counted(imports)),
{
    lemma_counted(imports);
    lemma_no_local(imports);
}

proof fn lemma_counted(imports: Seq<SpecView>)
    ensures
        known(imports) == counted(imports),
{
    let f = |spec: SpecView| is_known(spec);
    let g = |spec: SpecView| spec.namespace == "preview"@ || spec.namespace == "local"@;
    assert(f =~= g);
}

proof fn lemma_no_local(imports: Seq<SpecView>)
    ensures
        first_local(imports) is Some <==> exists|i: int|
            0 <= i < imports.len() && (#[trigger] imports[i]).namespace == "local"@,
    decreases imports.len(),
{
    if imports.len() > 0 {
        let rest = imports.skip(1);
        lemma_no_local(rest);
        if first_local(rest) is Some {
            let i = choose|i: int|
                0 <= i < rest.len() && (#[trigger] rest[i]).namespace == "local"@;
            assert(imports[i + 1].namespace == "local"@);
        } else if exists|i: int|
            0 <= i < imports.len() && (#[trigger] imports[i]).namespace == "local"@ {
            let i = choose|i: int|
                0 <= i < imports.len() && (#[trigger] imports[i]).namespace == "local"@;
            if i > 0 {
                assert(rest[i - 1].namespace == "local"@);
            }
        }
    }
}

/// The first packages to look for are in order, when they are listed.
pub proof fn law_first_packages_are_in_order(config: ConfigView, events: Seq<EventView>, k: int)
    requires
        0 <= k < events.len(),
        !run(start(config), events.take(k)).seeded,
        run(start(config), events.take(k + 1)).seeded,
    ensures
        sorted_by(run(start(config), events.take(k + 1)).packages, pair_order()),
        run(start(config), events.take(k + 1)).visited == 0,
{
    let s = run(start(config), events.take(k));
    let t = run(start(config), events.take(k + 1));
    lemma_run_step(start(config), events, k);
    law_invariant(config, events.take(k));
    lemma_pair_order_total();
    preview_pairs(t.table).lemma_sort_by_ensures(pair_order());
    assert(t.packages == preview_pairs(t.table).sort_by(pair_order()));
}

} // verus!
