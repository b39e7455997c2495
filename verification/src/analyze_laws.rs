//! What holds of every analysis, whatever is read.

use vstd::prelude::*;
use vstd::relations::sorted_by;

use crate::analyze::{
    analysis_tasks, enqueue, first_local, is_known, known, local_label, preview_label,
    preview_pairs, seed, settle, source_tasks, start, step, visit, with_file, AnalysisView,
    EventView, RequestView, TaskView,
};
use crate::config::ConfigView;
use crate::gather::local_spec;
use crate::import_laws::{
    among, distinct, grown, has_direct, law_grown_keeps, law_merge, law_merge_all,
    lemma_grown_transitive, same_package,
};
use crate::imports::{has_import, is_for, merge_all, InfoView};
use crate::order::{lemma_pair_order_total, pair_order};
use crate::package::{version_text, SpecView};
use crate::seqs::{lemma_filter_contains, lemma_push_contains};
use crate::text::typst_source;
use crate::world::{scanned, sources_of, FoundView, ListedView};

verus! {

/// The state after several events.
pub open spec fn run(s: AnalysisView, events: Seq<EventView>) -> AnalysisView
    decreases events.len(),
{
    if events.len() == 0 {
        s
    } else {
        step(run(s, events.drop_last()), events.last())
    }
}

/// Whether each `preview` package in a table is one of the packages to look
/// for.
pub open spec fn listed(table: Seq<InfoView>, packages: Seq<(Seq<char>, Seq<char>)>) -> bool {
    forall|i: int|
        0 <= i < table.len() && (#[trigger] table[i]).namespace == "preview"@ ==> packages.contains(
            (table[i].name, table[i].version),
        )
}

/// Whether an entry is for a package of a namespace that an analysis tells of.
pub open spec fn of_known_namespace(info: InfoView) -> bool {
    info.namespace == "preview"@ || info.namespace == "local"@
}

/// Whether each of the packages to look for is a `preview` package in a table.
pub open spec fn drawn(packages: Seq<(Seq<char>, Seq<char>)>, table: Seq<InfoView>) -> bool {
    forall|k: int| 0 <= k < packages.len() ==> has_preview(table, #[trigger] packages[k])
}

/// Whether a table has a `preview` package of a name and version.
pub open spec fn has_preview(table: Seq<InfoView>, pair: (Seq<char>, Seq<char>)) -> bool {
    exists|i: int|
        0 <= i < table.len() && (#[trigger] table[i]).namespace == "preview"@ && (
            table[i].name,
            table[i].version,
        ) == pair
}

/// What is kept while files and packages are scanned and looked for.
pub open spec fn tidy(s: AnalysisView) -> bool {
    &&& distinct(s.table)
    &&& s.files.no_duplicates()
    &&& forall|i: int| 0 <= i < s.files.len() ==> typst_source(#[trigger] s.files[i])
    &&& forall|i: int|
        0 <= i < s.tasks.len() ==> ((#[trigger] s.tasks[i]) matches TaskView::Source { id, name }
            ==> typst_source(name))
    &&& s.packages.no_duplicates()
    &&& s.visited <= s.packages.len()
    &&& forall|i: int| 0 <= i < s.table.len() ==> of_known_namespace(#[trigger] s.table[i])
    &&& s.seeded ==> s.tasks.len() == 0 && listed(s.table, s.packages) && drawn(
        s.packages,
        s.table,
    )
    &&& !s.seeded ==> s.visited == 0
}

/// What holds in every state of an analysis.
pub open spec fn inv(s: AnalysisView) -> bool {
    &&& tidy(s)
    &&& match s.request {
        RequestView::Probe { cache, name, version } => {
            &&& s.seeded
            &&& s.failure is None
            &&& s.visited < s.packages.len()
            &&& s.tried < s.caches.len()
            &&& cache == s.caches[s.tried as int]
            &&& (name, version) == s.packages[s.visited as int]
        },
        RequestView::Done => {
            &&& s.seeded
            &&& s.failure is None ==> s.caches.len() == 0 || s.visited == s.packages.len()
        },
        RequestView::Read { id, name } => !s.seeded && s.failure is None && s.files.contains(name),
        _ => !s.seeded && s.failure is None,
    }
}

/// Whether one state has all that another one has.
pub open spec fn follows(s: AnalysisView, t: AnalysisView) -> bool {
    &&& grown(s.table, t.table)
    &&& s.files.is_prefix_of(t.files)
    &&& s.caches.is_prefix_of(t.caches)
    &&& s.visited <= t.visited
    &&& s.seeded ==> t.seeded && s.packages.is_prefix_of(t.packages)
    &&& s.failure is Some ==> t == s
}

proof fn lemma_sources(found: FoundView)
    ensures
        forall|i: int|
            0 <= i < sources_of(found).len() ==> typst_source((#[trigger] sources_of(found)[i]).1),
{
    match found {
        FoundView::Directory(listed) => {
            let pred = |l: ListedView| scanned(l);
            let kept = listed.filter(pred);
            assert forall|i: int| 0 <= i < sources_of(found).len() implies typst_source(
                (#[trigger] sources_of(found)[i]).1,
            ) by {
                listed.lemma_filter_pred(pred, i);
                assert(pred(kept[i]));
            }
        },
        _ => {},
    }
}

proof fn lemma_preview_pairs(table: Seq<InfoView>)
    ensures
        listed(table, preview_pairs(table)),
        forall|pair: (Seq<char>, Seq<char>)| #[trigger]
            preview_pairs(table).contains(pair) ==> exists|i: int|
                0 <= i < table.len() && (#[trigger] table[i]).namespace == "preview"@ && (
                    table[i].name,
                    table[i].version,
                ) == pair,
        distinct(table) ==> preview_pairs(table).no_duplicates(),
    decreases table.len(),
{
    if table.len() > 0 {
        let front = table.drop_last();
        let last = table.last();
        let before = preview_pairs(front);
        let pairs = preview_pairs(table);
        let new = (last.name, last.version);
        lemma_preview_pairs(front);
        assert(last == table[table.len() - 1]);
        assert forall|i: int|
            0 <= i < table.len() && (#[trigger] table[i]).namespace == "preview"@ implies pairs.contains(
            (table[i].name, table[i].version),
        ) by {
            if i < front.len() {
                assert(front[i] == table[i]);
                let k = choose|k: int|
                    0 <= k < before.len() && before[k] == (table[i].name, table[i].version);
                assert(pairs[k] == before[k]);
            } else {
                assert(pairs.last() == new);
            }
        }
        assert forall|pair: (Seq<char>, Seq<char>)| #[trigger]
            pairs.contains(pair) implies exists|i: int|
            0 <= i < table.len() && (#[trigger] table[i]).namespace == "preview"@ && (
                table[i].name,
                table[i].version,
            ) == pair by {
            let k = choose|k: int| 0 <= k < pairs.len() && pairs[k] == pair;
            if k < before.len() {
                assert(before[k] == pair);
                assert(before.contains(pair));
                let i = choose|i: int|
                    0 <= i < front.len() && (#[trigger] front[i]).namespace == "preview"@ && (
                        front[i].name,
                        front[i].version,
                    ) == pair;
                assert(table[i] == front[i]);
            }
        }
        if distinct(table) {
            assert forall|i: int, j: int| 0 <= i < j < front.len() implies !same_package(
                #[trigger] front[i],
                #[trigger] front[j],
            ) by {
                assert(front[i] == table[i] && front[j] == table[j]);
            }
            if last.namespace == "preview"@ && before.contains(new) {
                let i = choose|i: int|
                    0 <= i < front.len() && (#[trigger] front[i]).namespace == "preview"@ && (
                        front[i].name,
                        front[i].version,
                    ) == new;
                assert(front[i] == table[i]);
                assert(same_package(table[i], table[table.len() - 1]));
            }
        }
    }
}

/// An analysis tells of exactly the imports of the `preview` and the `local`
/// namespace.
pub(crate) proof fn lemma_known(imports: Seq<SpecView>, spec: SpecView)
    ensures
        known(imports).contains(spec) <==> imports.contains(spec) && is_known(spec),
{
    lemma_filter_contains(imports, |spec: SpecView| is_known(spec), spec);
}

pub(crate) proof fn lemma_among_known(info: InfoView, imports: Seq<SpecView>)
    ensures
        among(info, known(imports)) <==> among(info, imports) && of_known_namespace(info),
{
    if among(info, known(imports)) {
        let i = choose|i: int|
            0 <= i < known(imports).len() && is_for(info, #[trigger] known(imports)[i]);
        let spec = known(imports)[i];
        lemma_known(imports, spec);
        let j = choose|j: int| 0 <= j < imports.len() && imports[j] == spec;
        assert(is_for(info, imports[j]));
    }
    if among(info, imports) && of_known_namespace(info) {
        let j = choose|j: int| 0 <= j < imports.len() && is_for(info, #[trigger] imports[j]);
        lemma_known(imports, imports[j]);
        let i = choose|i: int| 0 <= i < known(imports).len() && known(imports)[i] == imports[j];
        assert(is_for(info, known(imports)[i]));
    }
}

proof fn lemma_table_stays_known(
    table: Seq<InfoView>,
    imports: Seq<SpecView>,
    source: Seq<char>,
    direct: bool,
)
    requires
        distinct(table),
        forall|i: int| 0 <= i < table.len() ==> of_known_namespace(#[trigger] table[i]),
    ensures
        forall|i: int|
            0 <= i < merge_all(table, known(imports), source, direct).len() ==> of_known_namespace(
                #[trigger] merge_all(table, known(imports), source, direct)[i],
            ),
{
    let merged = merge_all(table, known(imports), source, direct);
    law_merge_all(table, known(imports), source, direct);
    assert forall|i: int| 0 <= i < merged.len() implies of_known_namespace(
        #[trigger] merged[i],
    ) by {
        if !(i < table.len() && merged[i] == table[i]) {
            lemma_among_known(merged[i], imports);
        }
    }
}

proof fn lemma_still_drawn(
    table: Seq<InfoView>,
    packages: Seq<(Seq<char>, Seq<char>)>,
    imports: Seq<SpecView>,
    label: Seq<char>,
)
    requires
        distinct(table),
        packages.no_duplicates(),
        drawn(packages, table),
        first_local(imports) is None,
    ensures
        drawn(enqueue(packages, known(imports)), merge_all(table, known(imports), label, false)),
{
    let kept = known(imports);
    let queued = enqueue(packages, kept);
    let merged = merge_all(table, kept, label, false);
    law_merge_all(table, kept, label, false);
    lemma_enqueue(packages, kept);
    assert forall|k: int| 0 <= k < queued.len() implies has_preview(
        merged,
        #[trigger] queued[k],
    ) by {
        let pair = queued[k];
        if packages.contains(pair) {
            let j = choose|j: int| 0 <= j < packages.len() && packages[j] == pair;
            assert(has_preview(table, packages[j]));
            let i = choose|i: int|
                0 <= i < table.len() && (#[trigger] table[i]).namespace == "preview"@ && (
                    table[i].name,
                    table[i].version,
                ) == pair;
            assert(merged[i] == table[i]);
        } else {
            let j = lemma_queued(packages, kept, pair);
            let spec = kept[j];
            lemma_known(imports, spec);
            lemma_no_local(imports, spec);
            assert(has_import(merged, spec));
            let i = choose|i: int| 0 <= i < merged.len() && is_for(#[trigger] merged[i], spec);
            assert(merged[i].namespace == "preview"@);
        }
    }
}

proof fn lemma_no_local(imports: Seq<SpecView>, spec: SpecView)
    requires
        first_local(imports) is None,
        imports.contains(spec),
    ensures
        spec.namespace != "local"@,
    decreases imports.len(),
{
    let i = choose|i: int| 0 <= i < imports.len() && imports[i] == spec;
    if i > 0 {
        assert(imports.skip(1)[i - 1] == spec);
        lemma_no_local(imports.skip(1), spec);
    }
}

proof fn lemma_queued(
    packages: Seq<(Seq<char>, Seq<char>)>,
    imports: Seq<SpecView>,
    pair: (Seq<char>, Seq<char>),
) -> (j: int)
    requires
        enqueue(packages, imports).contains(pair),
        !packages.contains(pair),
    ensures
        0 <= j < imports.len(),
        pair == (imports[j].name, version_text(imports[j].version)),
    decreases imports.len(),
{
    let front = imports.drop_last();
    let before = enqueue(packages, front);
    let new = (imports.last().name, version_text(imports.last().version));
    lemma_push_contains(before, new, pair);
    if before.contains(pair) {
        lemma_queued(packages, front, pair)
    } else {
        imports.len() - 1
    }
}

proof fn lemma_sorted_pairs(pairs: Seq<(Seq<char>, Seq<char>)>)
    ensures
        sorted_by(pairs.sort_by(pair_order()), pair_order()),
        pairs.sort_by(pair_order()).to_multiset() == pairs.to_multiset(),
        forall|pair: (Seq<char>, Seq<char>)|
            pairs.contains(pair) <==> #[trigger] pairs.sort_by(pair_order()).contains(pair),
        pairs.no_duplicates() ==> pairs.sort_by(pair_order()).no_duplicates(),
{
    let sorted = pairs.sort_by(pair_order());
    lemma_pair_order_total();
    pairs.lemma_sort_by_ensures(pair_order());
    assert forall|pair: (Seq<char>, Seq<char>)|
        pairs.contains(pair) <==> #[trigger] sorted.contains(pair) by {
        broadcast use vstd::seq_lib::group_to_multiset_ensures;

        assert(pairs.to_multiset().count(pair) == sorted.to_multiset().count(pair));
    }
    if pairs.no_duplicates() {
        pairs.lemma_multiset_has_no_duplicates();
        sorted.lemma_multiset_has_no_duplicates_conv();
    }
}

pub(crate) proof fn lemma_enqueue(packages: Seq<(Seq<char>, Seq<char>)>, imports: Seq<SpecView>)
    requires
        packages.no_duplicates(),
    ensures
        ({
            let queued = enqueue(packages, imports);
            &&& packages.is_prefix_of(queued)
            &&& queued.no_duplicates()
            &&& forall|i: int|
                0 <= i < imports.len() ==> queued.contains(
                    ((#[trigger] imports[i]).name, version_text(imports[i].version)),
                )
        }),
    decreases imports.len(),
{
    if imports.len() > 0 {
        let front = imports.drop_last();
        let before = enqueue(packages, front);
        let queued = enqueue(packages, imports);
        lemma_enqueue(packages, front);
        assert forall|i: int| 0 <= i < imports.len() implies queued.contains(
            ((#[trigger] imports[i]).name, version_text(imports[i].version)),
        ) by {
            let pair = (imports[i].name, version_text(imports[i].version));
            if i < front.len() {
                assert(front[i] == imports[i]);
                let k = choose|k: int| 0 <= k < before.len() && before[k] == pair;
                assert(queued[k] == pair);
            } else if !before.contains(pair) {
                assert(queued.last() == pair);
            }
        }
    }
}

proof fn lemma_visit_inv(s: AnalysisView)
    requires
        tidy(s),
        s.seeded,
        s.failure is None,
    ensures
        inv(visit(s)),
        follows(s, visit(s)),
{
}

pub(crate) proof fn lemma_settle_inv(s: AnalysisView)
    requires
        tidy(s),
        !s.seeded,
        s.failure is None,
    ensures
        inv(settle(s)),
        follows(s, settle(s)),
{
    if s.tasks.len() == 0 {
        lemma_preview_pairs(s.table);
        let pairs = preview_pairs(s.table);
        lemma_sorted_pairs(pairs);
        let seeded = seed(s);
        assert(listed(seeded.table, seeded.packages));
        assert forall|k: int| 0 <= k < seeded.packages.len() implies has_preview(
            seeded.table,
            #[trigger] seeded.packages[k],
        ) by {
            assert(seeded.packages.contains(seeded.packages[k]));
            assert(pairs.contains(seeded.packages[k]));
        }
        lemma_visit_inv(seeded);
    } else {
        let last = s.tasks.last();
        assert(last == s.tasks[s.tasks.len() - 1]);
        match last {
            TaskView::Source { id, name } => {
                if !s.files.contains(name) {
                    assert(with_file(s.files, name).last() == name);
                }
            },
            _ => {},
        }
    }
}

pub(crate) proof fn lemma_step_inv(s: AnalysisView, event: EventView)
    requires
        inv(s),
    ensures
        inv(step(s, event)),
        follows(s, step(s, event)),
{
    match (s.request, event) {
        (RequestView::Look(place), EventView::Found(found)) => {
            let next = AnalysisView { tasks: s.tasks + source_tasks(sources_of(found)), ..s };
            lemma_sources(found);
            let files = sources_of(found);
            assert forall|i: int| 0 <= i < next.tasks.len() implies ((
            #[trigger] next.tasks[i]) matches TaskView::Source { id, name } ==> typst_source(
                name,
            )) by {
                if i >= s.tasks.len() {
                    let file = files[files.len() - 1 - (i - s.tasks.len())];
                    assert(next.tasks[i] == TaskView::Source { id: file.0, name: file.1 });
                }
            }
            lemma_settle_inv(next);
        },
        (RequestView::Read { id, name }, EventView::Imports(imports)) => {
            law_merge_all(s.table, known(imports), name, true);
            lemma_table_stays_known(s.table, imports, name, true);
            let next = AnalysisView { table: merge_all(s.table, known(imports), name, true), ..s };
            lemma_settle_inv(next);
            lemma_grown_transitive(s.table, next.table, settle(next).table);
        },
        (RequestView::ReadManifest { name, place }, EventView::Manifest(manifest)) => match manifest {
            Some(m) => law_merge(s.table, local_spec(name, m.version), local_label(name), false),
            None => lemma_settle_inv(s),
        },
        (RequestView::Walk { name, place }, EventView::Imports(imports)) => {
            law_merge_all(s.table, known(imports), local_label(name), false);
            lemma_table_stays_known(s.table, imports, local_label(name), false);
            let next = AnalysisView {
                table: merge_all(s.table, known(imports), local_label(name), false),
                ..s
            };
            lemma_settle_inv(next);
            lemma_grown_transitive(s.table, next.table, settle(next).table);
        },
        (RequestView::CheckCache(place), EventView::Answer(yes)) => {
            lemma_settle_inv(s);
            lemma_settle_inv(AnalysisView { caches: s.caches.push(place), ..s });
        },
        (RequestView::Probe { cache, name, version }, EventView::Cached(cached)) => match cached {
            Some(imports) => {
                if first_local(imports) is None {
                    let label = preview_label(name, version);
                    let next = AnalysisView {
                        table: merge_all(s.table, known(imports), label, false),
                        packages: enqueue(s.packages, known(imports)),
                        visited: s.visited + 1,
                        ..s
                    };
                    law_merge_all(s.table, known(imports), label, false);
                    lemma_table_stays_known(s.table, imports, label, false);
                    lemma_enqueue(s.packages, known(imports));
                    lemma_still_listed(s.table, s.packages, known(imports), label);
                    lemma_still_drawn(s.table, s.packages, imports, label);
                    lemma_visit_inv(next);
                }
            },
            None => {
                lemma_visit_inv(AnalysisView { visited: s.visited + 1, ..s });
            },
        },
        _ => {},
    }
}

proof fn lemma_still_listed(
    table: Seq<InfoView>,
    packages: Seq<(Seq<char>, Seq<char>)>,
    imports: Seq<SpecView>,
    label: Seq<char>,
)
    requires
        distinct(table),
        packages.no_duplicates(),
        listed(table, packages),
    ensures
        listed(merge_all(table, imports, label, false), enqueue(packages, imports)),
{
    let merged = merge_all(table, imports, label, false);
    let queued = enqueue(packages, imports);
    law_merge_all(table, imports, label, false);
    lemma_enqueue(packages, imports);
    assert forall|i: int|
        0 <= i < merged.len() && (#[trigger] merged[i]).namespace
            == "preview"@ implies queued.contains((merged[i].name, merged[i].version)) by {
        let pair = (merged[i].name, merged[i].version);
        if i < table.len() && merged[i] == table[i] {
            let k = choose|k: int| 0 <= k < packages.len() && packages[k] == pair;
            assert(queued[k] == pair);
        } else {
            let j = choose|j: int| 0 <= j < imports.len() && is_for(merged[i], #[trigger] imports[j]);
            assert(queued.contains((imports[j].name, version_text(imports[j].version))));
        }
    }
}

proof fn lemma_follows_transitive(a: AnalysisView, b: AnalysisView, c: AnalysisView)
    requires
        follows(a, b),
        follows(b, c),
    ensures
        follows(a, c),
{
    lemma_grown_transitive(a.table, b.table, c.table);
}

/// The invariant holds from the start, whatever is read.
pub proof fn law_invariant(config: ConfigView, events: Seq<EventView>)
    ensures
        inv(run(start(config), events)),
    decreases events.len(),
{
    if events.len() == 0 {
        let tasks = analysis_tasks(config).reverse();
        let s = AnalysisView {
            table: Seq::empty(),
            files: Seq::empty(),
            tasks,
            caches: Seq::empty(),
            packages: Seq::empty(),
            visited: 0,
            tried: 0,
            seeded: false,
            failure: None,
            request: RequestView::Done,
        };
        assert forall|i: int| 0 <= i < tasks.len() implies ((
        #[trigger] tasks[i]) matches TaskView::Source { id, name } ==> typst_source(name)) by {
            assert(tasks[i] == analysis_tasks(config)[tasks.len() - 1 - i]);
        }
        lemma_settle_inv(s);
    } else {
        law_invariant(config, events.drop_last());
        lemma_step_inv(run(start(config), events.drop_last()), events.last());
    }
}

/// Nothing is forgotten: entries stay, direct entries stay as they are, and a
/// failure is final.
pub proof fn law_only_grows(config: ConfigView, events: Seq<EventView>, k: int)
    requires
        0 <= k <= events.len(),
    ensures
        follows(run(start(config), events.take(k)), run(start(config), events)),
    decreases events.len(),
{
    if k == events.len() {
        assert(events.take(k) =~= events);
        let s = run(start(config), events);
        assert(grown(s.table, s.table));
    } else {
        let front = events.drop_last();
        law_only_grows(config, front, k);
        assert(front.take(k) =~= events.take(k));
        law_invariant(config, front);
        lemma_step_inv(run(start(config), front), events.last());
        lemma_follows_transitive(
            run(start(config), events.take(k)),
            run(start(config), front),
            run(start(config), events),
        );
    }
}

/// Each package and version has one entry at most in the table, and each name
/// stands at most once among the files, which are all source files.
pub proof fn law_nothing_twice(config: ConfigView, events: Seq<EventView>)
    ensures
        ({
            let s = run(start(config), events);
            &&& distinct(s.table)
            &&& s.files.no_duplicates()
            &&& forall|i: int| 0 <= i < s.files.len() ==> typst_source(#[trigger] s.files[i])
        }),
{
    law_invariant(config, events);
}

/// An analysis tells of packages of the `preview` and the `local` namespace only.
pub proof fn law_namespaces(config: ConfigView, events: Seq<EventView>, i: int)
    requires
        0 <= i < run(start(config), events).table.len(),
    ensures
        run(start(config), events).table[i].namespace == "preview"@ || run(
            start(config),
            events,
        ).table[i].namespace == "local"@,
{
    law_invariant(config, events);
    assert(of_known_namespace(run(start(config), events).table[i]));
}

/// The packages to look for are exactly the `preview` packages in the table, once
/// they were listed, and each of them stands there once.
pub proof fn law_preview_packages_are_looked_for(config: ConfigView, events: Seq<EventView>)
    requires
        run(start(config), events).seeded,
    ensures
        ({
            let s = run(start(config), events);
            &&& listed(s.table, s.packages)
            &&& drawn(s.packages, s.table)
            &&& s.packages.no_duplicates()
        }),
{
    law_invariant(config, events);
}

/// Which packages are looked for first, and in which order, depends on the
/// packages in the table alone, not on the order in which they were found.
pub proof fn law_order_of_finds_does_not_matter(s: AnalysisView, t: AnalysisView)
    requires
        distinct(s.table),
        distinct(t.table),
        forall|pair: (Seq<char>, Seq<char>)| #[trigger]
            preview_pairs(s.table).contains(pair) <==> preview_pairs(t.table).contains(pair),
    ensures
        seed(s).packages == seed(t).packages,
        sorted_by(seed(s).packages, pair_order()),
{
    let a = preview_pairs(s.table);
    let b = preview_pairs(t.table);
    lemma_preview_pairs(s.table);
    lemma_preview_pairs(t.table);
    a.lemma_multiset_has_no_duplicates();
    b.lemma_multiset_has_no_duplicates();
    assert(a.to_multiset() =~= b.to_multiset()) by {
        broadcast use vstd::seq_lib::group_to_multiset_ensures;
        broadcast use vstd::multiset::group_multiset_axioms;

        assert forall|pair: (Seq<char>, Seq<char>)|
            #[trigger] a.to_multiset().count(pair) == b.to_multiset().count(pair) by {
            assert(a.contains(pair) <==> b.contains(pair));
            assert(a.to_multiset().contains(pair) <==> a.contains(pair));
            assert(b.to_multiset().contains(pair) <==> b.contains(pair));
        }
    }
    lemma_sorted_pairs(a);
    lemma_sorted_pairs(b);
    lemma_pair_order_total();
    vstd::seq_lib::lemma_sorted_unique(
        a.sort_by(pair_order()),
        b.sort_by(pair_order()),
        pair_order(),
    );
}

pub(crate) proof fn lemma_run_step(s: AnalysisView, events: Seq<EventView>, k: int)
    requires
        0 <= k < events.len(),
    ensures
        run(s, events.take(k + 1)) == step(run(s, events.take(k)), events[k]),
{
    assert(events.take(k + 1).drop_last() =~= events.take(k));
}

/// The imports that an event tells of, if they count: those of a scanned file,
/// of a local package, or of a package that was found and does not import a
/// local one.
pub open spec fn imports_told(request: RequestView, event: EventView) -> Option<Seq<SpecView>> {
    match (request, event) {
        (RequestView::Read { .. }, EventView::Imports(imports)) => Some(imports),
        (RequestView::Walk { .. }, EventView::Imports(imports)) => Some(imports),
        (RequestView::Probe { .. }, EventView::Cached(Some(imports))) => if first_local(
            imports,
        ) is None {
            Some(imports)
        } else {
            None
        },
        _ => None,
    }
}

/// What is imported is in the table: the `preview` and `local` imports of each
/// scanned file, of each local package and of each package that was found. What a
/// scanned file imports is direct.
pub proof fn law_imports_are_entered(
    config: ConfigView,
    events: Seq<EventView>,
    k: int,
    imports: Seq<SpecView>,
    spec: SpecView,
)
    requires
        0 <= k < events.len(),
        imports_told(run(start(config), events.take(k)).request, events[k]) == Some(imports),
        imports.contains(spec),
        is_known(spec),
    ensures
        has_import(run(start(config), events).table, spec),
        run(start(config), events.take(k)).request is Read ==> has_direct(
            run(start(config), events).table,
            spec,
        ),
{
    let s0 = start(config);
    let s = run(s0, events.take(k));
    let next = run(s0, events.take(k + 1));
    lemma_run_step(s0, events, k);
    law_invariant(config, events.take(k));
    let kept = known(imports);
    lemma_known(imports, spec);
    let i = choose|i: int| 0 <= i < kept.len() && kept[i] == spec;
    match s.request {
        RequestView::Read { id, name } => law_merge_all(s.table, kept, name, true),
        RequestView::Walk { name, place } => law_merge_all(
            s.table,
            kept,
            local_label(name),
            false,
        ),
        RequestView::Probe { cache, name, version } => law_merge_all(
            s.table,
            kept,
            preview_label(name, version),
            false,
        ),
        _ => {},
    }
    assert(has_import(next.table, kept[i]));
    law_only_grows(config, events, k + 1);
    law_grown_keeps(next.table, run(s0, events).table, spec);
}

/// A local package whose manifest can be read is in the table, with the version
/// that the manifest gives.
pub proof fn law_local_packages_are_entered(config: ConfigView, events: Seq<EventView>, k: int)
    requires
        0 <= k < events.len(),
        run(start(config), events.take(k)).request is ReadManifest,
        events[k] is Manifest,
        events[k]->Manifest_0 is Some,
    ensures
        has_import(
            run(start(config), events).table,
            local_spec(
                run(start(config), events.take(k)).request->ReadManifest_name,
                (events[k]->Manifest_0->0).version,
            ),
        ),
{
    let s0 = start(config);
    let s = run(s0, events.take(k));
    let name = s.request->ReadManifest_name;
    let spec = local_spec(name, (events[k]->Manifest_0->0).version);
    lemma_run_step(s0, events, k);
    law_invariant(config, events.take(k));
    law_merge(s.table, spec, local_label(name), false);
    law_only_grows(config, events, k + 1);
    law_grown_keeps(run(s0, events.take(k + 1)).table, run(s0, events).table, spec);
}

/// Whether the event at `k` tells that a scanned file imports the package of an
/// entry.
pub open spec fn found_directly(
    s: AnalysisView,
    events: Seq<EventView>,
    k: int,
    info: InfoView,
) -> bool {
    &&& 0 <= k < events.len()
    &&& run(s, events.take(k)).request is Read
    &&& events[k] matches EventView::Imports(imports)
    &&& among(info, imports)
}

/// Whether the event at `k` is the first to tell that a scanned file imports the
/// package of an entry, and the file is the source of the entry.
pub open spec fn first_find(
    s: AnalysisView,
    events: Seq<EventView>,
    k: int,
    info: InfoView,
) -> bool {
    &&& found_directly(s, events, k, info)
    &&& run(s, events.take(k)).request->Read_name == info.source
    &&& forall|j: int| 0 <= j < k ==> !#[trigger] found_directly(s, events, j, info)
}

/// Whether an entry names the first scanned file that imports its package.
pub open spec fn names_first_file(
    s: AnalysisView,
    events: Seq<EventView>,
    info: InfoView,
) -> bool {
    exists|k: int| #[trigger] first_find(s, events, k, info)
}

proof fn lemma_found_front(s: AnalysisView, events: Seq<EventView>, k: int, info: InfoView)
    requires
        0 <= k < events.len() - 1,
    ensures
        found_directly(s, events.drop_last(), k, info) == found_directly(s, events, k, info),
        run(s, events.drop_last().take(k)) == run(s, events.take(k)),
{
    assert(events.drop_last().take(k) =~= events.take(k));
}

proof fn lemma_step_table(s: AnalysisView, event: EventView)
    requires
        inv(s),
    ensures
        ({
            let t = step(s, event);
            &&& distinct(t.table)
            &&& grown(s.table, t.table)
            &&& forall|i: int|
                0 <= i < t.table.len() ==> (i < s.table.len() && #[trigger] t.table[i]
                    == s.table[i]) || !t.table[i].direct || (s.request is Read
                    && event is Imports && among(t.table[i], event->Imports_0)
                    && t.table[i].source == s.request->Read_name)
        }),
{
    lemma_step_inv(s, event);
    match (s.request, event) {
        (RequestView::Read { id, name }, EventView::Imports(imports)) => {
            law_merge_all(s.table, known(imports), name, true);
            assert forall|i: int|
                0 <= i < step(s, event).table.len() && among(
                    #[trigger] step(s, event).table[i],
                    known(imports),
                ) implies among(step(s, event).table[i], imports) by {
                lemma_among_known(step(s, event).table[i], imports);
            }
        },
        (RequestView::ReadManifest { name, place }, EventView::Manifest(Some(m))) => {
            law_merge(s.table, local_spec(name, m.version), local_label(name), false);
        },
        (RequestView::Walk { name, place }, EventView::Imports(imports)) => {
            law_merge_all(s.table, known(imports), local_label(name), false);
        },
        (
            RequestView::Probe { cache, name, version },
            EventView::Cached(Some(imports)),
        ) => {
            law_merge_all(s.table, known(imports), preview_label(name, version), false);
        },
        _ => {},
    }
}

proof fn lemma_direct_entries(config: ConfigView, events: Seq<EventView>)
    ensures
        forall|i: int|
            0 <= i < run(start(config), events).table.len() && (#[trigger] run(
                start(config),
                events,
            ).table[i]).direct ==> names_first_file(
                start(config),
                events,
                run(start(config), events).table[i],
            ),
        forall|k: int, info: InfoView| #[trigger]
            found_directly(start(config), events, k, info) && of_known_namespace(
                info,
            ) ==> exists|i: int|
                0 <= i < run(start(config), events).table.len() && same_package(
                    #[trigger] run(start(config), events).table[i],
                    info,
                ) && run(start(config), events).table[i].direct,
    decreases events.len(),
{
    let s0 = start(config);
    let t = run(s0, events);
    assert forall|k: int, info: InfoView| #[trigger]
        found_directly(s0, events, k, info) && of_known_namespace(info) implies exists|i: int|
        0 <= i < t.table.len() && same_package(#[trigger] t.table[i], info)
            && t.table[i].direct by {
        let imports = events[k]->Imports_0;
        let j = choose|j: int| 0 <= j < imports.len() && is_for(info, #[trigger] imports[j]);
        law_imports_are_entered(config, events, k, imports, imports[j]);
        let i = choose|i: int|
            0 <= i < t.table.len() && is_for(#[trigger] t.table[i], imports[j])
                && t.table[i].direct;
        assert(same_package(t.table[i], info));
    }
    if events.len() > 0 {
        let n = events.len() - 1;
        let front = events.drop_last();
        let s = run(s0, front);
        lemma_direct_entries(config, front);
        law_invariant(config, front);
        law_invariant(config, events);
        lemma_step_table(s, events.last());
        assert(events.take(n) =~= front);
        assert forall|i: int| 0 <= i < t.table.len() && (
        #[trigger] t.table[i]).direct implies names_first_file(s0, events, t.table[i]) by {
            let info = t.table[i];
            assert(of_known_namespace(info));
            if i < s.table.len() && t.table[i] == s.table[i] {
                assert(names_first_file(s0, front, s.table[i]));
                let k = choose|k: int| #[trigger] first_find(s0, front, k, info);
                lemma_found_front(s0, events, k, info);
                assert forall|j: int| 0 <= j < k implies !#[trigger] found_directly(
                    s0,
                    events,
                    j,
                    info,
                ) by {
                    lemma_found_front(s0, events, j, info);
                }
                assert(first_find(s0, events, k, info));
            } else {
                assert(found_directly(s0, events, n, info));
                assert forall|j: int| 0 <= j < n implies !#[trigger] found_directly(
                    s0,
                    events,
                    j,
                    info,
                ) by {
                    lemma_found_front(s0, events, j, info);
                    if found_directly(s0, front, j, info) {
                        let p = choose|p: int|
                            0 <= p < s.table.len() && same_package(#[trigger] s.table[p], info)
                                && s.table[p].direct;
                        assert(same_package(t.table[p], s.table[p]));
                        assert(t.table[p] == s.table[p]);
                        if p < i {
                            assert(!same_package(t.table[p], t.table[i]));
                        } else if i < p {
                            assert(!same_package(t.table[i], t.table[p]));
                        }
                    }
                }
                assert(first_find(s0, events, n, info));
            }
        }
    } else {
        assert(t.table.len() == 0);
    }
}

/// An entry is direct exactly if a scanned file imports its package, no matter
/// which packages import it too; and its source is then the first such file.
pub proof fn law_direct_wins(config: ConfigView, events: Seq<EventView>, i: int)
    requires
        0 <= i < run(start(config), events).table.len(),
    ensures
        ({
            let s0 = start(config);
            let info = run(s0, events).table[i];
            &&& info.direct <==> exists|k: int| #[trigger] found_directly(s0, events, k, info)
            &&& info.direct ==> names_first_file(s0, events, info)
        }),
{
    let s0 = start(config);
    let t = run(s0, events);
    let info = t.table[i];
    lemma_direct_entries(config, events);
    law_invariant(config, events);
    if info.direct {
        let k = choose|k: int| #[trigger] first_find(s0, events, k, info);
        assert(found_directly(s0, events, k, info));
    }
    assert(of_known_namespace(info));
    if exists|k: int| #[trigger] found_directly(s0, events, k, info) {
        let k = choose|k: int| #[trigger] found_directly(s0, events, k, info);
        let p = choose|p: int|
            0 <= p < t.table.len() && same_package(#[trigger] t.table[p], info)
                && t.table[p].direct;
        if p < i {
            assert(!same_package(t.table[p], t.table[i]));
        } else if i < p {
            assert(!same_package(t.table[i], t.table[p]));
        }
    }
}

} // verus!
