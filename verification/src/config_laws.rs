//! What a configuration asks for, and what it makes of a document.

use vstd::prelude::*;

use crate::config::{
    config_entries, config_of, distinct_document, distinct_names, entered, law_distinct_pairs_stay,
    lookup, names, named_texts, paths_field, place_of, raw_of, table_field, text_field, with_entry,
    ConfigView, EntryView, ValueView,
};

verus! {

/// Every configured package is an entry, with its version or its directory: there is one
/// entry for each name, the `preview` packages first.
pub proof fn law_every_configured_package_is_an_entry(config: ConfigView)
    ensures
        config_entries(config).len() == config.preview.len() + config.local.len(),
        forall|i: int|
            0 <= i < config.preview.len() ==> #[trigger] config_entries(config)[i] == (
            EntryView::Preview { name: config.preview[i].0, version: config.preview[i].1 }),
        forall|i: int|
            0 <= i < config.local.len() ==> #[trigger] config_entries(config)[config.preview.len()
                + i] == (EntryView::Local { name: config.local[i].0, dir: config.local[i].1 }),
        forall|i: int|
            0 <= i < config.preview.len() ==> config_entries(config).contains(
                EntryView::Preview {
                    name: (#[trigger] config.preview[i]).0,
                    version: config.preview[i].1,
                },
            ),
        forall|i: int|
            0 <= i < config.local.len() ==> config_entries(config).contains(
                EntryView::Local { name: (#[trigger] config.local[i]).0, dir: config.local[i].1 },
            ),
{
    let entries = config_entries(config);
    let n = config.preview.len() as int;
    assert forall|i: int| 0 <= i < config.preview.len() implies entries.contains(
        EntryView::Preview { name: (#[trigger] config.preview[i]).0, version: config.preview[i].1 },
    ) by {
        assert(entries[i] == (EntryView::Preview {
            name: config.preview[i].0,
            version: config.preview[i].1,
        }));
    }
    assert forall|i: int| 0 <= i < config.local.len() implies entries.contains(
        EntryView::Local { name: (#[trigger] config.local[i]).0, dir: config.local[i].1 },
    ) by {
        assert(entries[n + i] == (EntryView::Local {
            name: config.local[i].0,
            dir: config.local[i].1,
        }));
    }
}

/// The place of a path is the path itself, below the root directory where there is one.
pub proof fn law_places_keep_their_paths(config: ConfigView, path: Seq<char>)
    ensures
        place_of(config, path).path == path,
        place_of(config, path).root == config.rootdir,
{
}

/// The names of a table are all its names, in order.
pub proof fn law_names_leave_nothing_out<A>(pairs: Seq<(Seq<char>, A)>)
    ensures
        names(pairs).len() == pairs.len(),
        forall|i: int| 0 <= i < pairs.len() ==> #[trigger] names(pairs)[i] == pairs[i].0,
{
}

/// What is looked up under a name is what stands there, wherever it stands; and where
/// nothing is found, the name stands nowhere.
pub proof fn law_lookup_finds<A>(pairs: Seq<(Seq<char>, A)>, name: Seq<char>)
    requires
        distinct_names(pairs),
    ensures
        forall|i: int|
            0 <= i < pairs.len() && (#[trigger] pairs[i]).0 == name ==> lookup(pairs, name) == Some(
                pairs[i].1,
            ),
        lookup(pairs, name) is Some ==> exists|i: int|
            0 <= i < pairs.len() && (#[trigger] pairs[i]).0 == name,
    decreases pairs.len(),
{
    if pairs.len() > 0 {
        let rest = pairs.skip(1);
        assert(forall|i: int| 0 <= i < rest.len() ==> #[trigger] rest[i] == pairs[i + 1]);
        law_lookup_finds(rest, name);
        assert forall|i: int| 0 <= i < pairs.len() && (
        #[trigger] pairs[i]).0 == name implies lookup(pairs, name) == Some(pairs[i].1) by {
            if i > 0 {
                assert(pairs[0].0 != pairs[i].0);
                assert(rest[i - 1] == pairs[i]);
            }
        }
        if lookup(pairs, name) is Some && pairs[0].0 != name {
            let i = choose|i: int| 0 <= i < rest.len() && (#[trigger] rest[i]).0 == name;
            assert(pairs[i + 1].0 == name);
        }
    }
}

/// What is put into a table is found there, and all else stays as it was.
pub proof fn law_insert_changes_one_name(
    pairs: Seq<(Seq<char>, Seq<char>)>,
    name: Seq<char>,
    text: Seq<char>,
    other: Seq<char>,
)
    requires
        distinct_names(pairs),
    ensures
        distinct_names(with_entry(pairs, name, text)),
        lookup(with_entry(pairs, name, text), name) == Some(text),
        other != name ==> lookup(with_entry(pairs, name, text), other) == lookup(pairs, other),
        with_entry(pairs, name, text).len() == pairs.len() + if lookup(pairs, name) is Some {
            0nat
        } else {
            1nat
        },
{
    let table = with_entry(pairs, name, text);
    law_lookup_finds(pairs, name);
    law_lookup_finds(pairs, other);
    if names(pairs).contains(name) {
        let i = choose|i: int| 0 <= i < names(pairs).len() && names(pairs)[i] == name;
        assert(pairs[i].0 == name);
        assert(forall|j: int| 0 <= j < table.len() ==> (#[trigger] table[j]).0 == pairs[j].0);
        law_lookup_finds(table, name);
        law_lookup_finds(table, other);
        assert(table[i] == (name, text));
    } else {
        assert forall|j: int| 0 <= j < pairs.len() implies (#[trigger] pairs[j]).0 != name by {
            assert(names(pairs)[j] == pairs[j].0);
        }
        assert(forall|j: int| 0 <= j < pairs.len() ==> #[trigger] table[j] == pairs[j]);
        assert(table[pairs.len() as int] == (name, text));
        law_lookup_finds(table, name);
        law_lookup_finds(table, other);
    }
    if other != name {
        if lookup(pairs, other) is Some {
            let i = choose|i: int| 0 <= i < pairs.len() && (#[trigger] pairs[i]).0 == other;
            assert(table[i] == pairs[i]);
        } else if lookup(table, other) is Some {
            let i = choose|i: int| 0 <= i < table.len() && (#[trigger] table[i]).0 == other;
            assert(pairs[i].0 == other);
        }
    }
}

/// What is put into a table under a name stands where the name stood, or else at the end,
/// and nothing else moves.
pub proof fn law_insert_keeps_the_order(
    pairs: Seq<(Seq<char>, Seq<char>)>,
    name: Seq<char>,
    text: Seq<char>,
)
    ensures
        ({
            let table = with_entry(pairs, name, text);
            if exists|i: int| 0 <= i < pairs.len() && (#[trigger] pairs[i]).0 == name {
                &&& table.len() == pairs.len()
                &&& forall|i: int|
                    0 <= i < pairs.len() ==> #[trigger] table[i] == if pairs[i].0 == name {
                        (name, text)
                    } else {
                        pairs[i]
                    }
            } else {
                table == pairs.push((name, text))
            }
        }),
{
    if exists|i: int| 0 <= i < pairs.len() && (#[trigger] pairs[i]).0 == name {
        let i = choose|i: int| 0 <= i < pairs.len() && (#[trigger] pairs[i]).0 == name;
        assert(names(pairs)[i] == name);
    } else if names(pairs).contains(name) {
        let i = choose|i: int| 0 <= i < names(pairs).len() && names(pairs)[i] == name;
        assert(pairs[i].0 == name);
    }
}

/// Pairs are put into a table one after the other.
pub proof fn law_pairs_are_entered_in_order(
    pairs: Seq<(Seq<char>, Seq<char>)>,
    name: Seq<char>,
    text: Seq<char>,
)
    ensures
        entered(Seq::empty()) == Seq::<(Seq<char>, Seq<char>)>::empty(),
        entered(pairs.push((name, text))) == with_entry(entered(pairs), name, text),
{
    assert(pairs.push((name, text)).drop_last() =~= pairs);
}

/// Whether a document has a field of a name.
pub open spec fn has_field(document: Seq<(Seq<char>, ValueView)>, name: Seq<char>) -> bool {
    exists|i: int| 0 <= i < document.len() && (#[trigger] document[i]).0 == name
}

/// A field that holds a text is that text, a field that is absent is no text, and a
/// field that holds something else makes no configuration.
pub proof fn law_text_fields(document: Seq<(Seq<char>, ValueView)>, name: Seq<char>)
    requires
        distinct_names(document),
    ensures
        forall|i: int|
            0 <= i < document.len() && (#[trigger] document[i]).0 == name ==> text_field(
                document,
                name,
            ) == match document[i].1 {
                ValueView::Text(text) => Some(Some(text)),
                _ => None,
            },
        !has_field(document, name) ==> text_field(document, name) == Some(
            None::<Seq<char>>,
        ),
{
    law_lookup_finds(document, name);
}

/// A field that holds a text is one path, a field that holds a list of texts is all of
/// them in order, and a field that is absent is no list.
pub proof fn law_path_fields(document: Seq<(Seq<char>, ValueView)>, name: Seq<char>)
    requires
        distinct_names(document),
    ensures
        forall|i: int|
            0 <= i < document.len() && (#[trigger] document[i]).0 == name ==> match document[i].1 {
                ValueView::Text(text) => paths_field(document, name) == Some(Some(seq![text])),
                ValueView::List(items) => if exists|j: int|
                    0 <= j < items.len() && #[trigger] items[j] is None {
                    paths_field(document, name) is None
                } else {
                    &&& paths_field(document, name) matches Some(Some(paths))
                    &&& paths.len() == items.len()
                    &&& forall|j: int|
                        0 <= j < items.len() ==> Some(#[trigger] paths[j]) == items[j]
                },
                _ => paths_field(document, name) is None,
            },
        !has_field(document, name) ==> paths_field(document, name) == Some(
            None::<Seq<Seq<char>>>,
        ),
{
    law_lookup_finds(document, name);
}

/// A field that holds a section of texts is all of its names and texts in order, and a
/// field that is absent is a section without names.
pub proof fn law_section_fields(document: Seq<(Seq<char>, ValueView)>, name: Seq<char>)
    requires
        distinct_document(document),
    ensures
        forall|i: int|
            0 <= i < document.len() && (#[trigger] document[i]).0 == name ==> match document[i].1 {
                ValueView::Section(section) => if exists|j: int|
                    0 <= j < section.len() && (#[trigger] section[j]).1 is None {
                    table_field(document, name) is None
                } else {
                    &&& table_field(document, name) matches Some(pairs)
                    &&& pairs.len() == section.len()
                    &&& forall|j: int|
                        0 <= j < section.len() ==> (#[trigger] pairs[j]).0 == section[j].0 && Some(
                            pairs[j].1,
                        ) == section[j].1
                },
                _ => table_field(document, name) is None,
            },
        !has_field(document, name) ==> (table_field(document, name) matches Some(pairs)
            && pairs.len() == 0),
{
    law_lookup_finds(document, name);
    assert forall|i: int| 0 <= i < document.len() && (
    #[trigger] document[i]).0 == name && document[i].1 is Section implies entered(
        named_texts(document[i].1->Section_0),
    ) == named_texts(document[i].1->Section_0) by {
        let section = document[i].1->Section_0;
        let pairs = named_texts(section);
        assert(distinct_names(section));
        assert forall|p: int, q: int| 0 <= p < q < pairs.len() implies (#[trigger] pairs[p]).0 != (
        #[trigger] pairs[q]).0 by {
            assert(section[p].0 != section[q].0);
        }
        law_distinct_pairs_stay(pairs);
    }
}

/// A configuration is what the fields of its document hold, each under its own name.
pub proof fn law_configuration_is_its_fields(document: Seq<(Seq<char>, ValueView)>)
    ensures
        match raw_of(document) {
            Ok(raw) => {
                let config = config_of(raw);
                &&& text_field(document, "rootdir"@) == Some(config.rootdir)
                &&& text_field(document, "destination"@) == Some(config.destination)
                &&& paths_field(document, "discover"@) == Some(raw.discover)
                &&& raw.discover matches Some(paths) ==> config.discover == paths
                &&& raw.discover is None ==> config.discover.len() == 0
                &&& paths_field(document, "package-cache"@) == Some(raw.package_cache)
                &&& raw.package_cache matches Some(paths) ==> config.package_cache == paths
                &&& raw.package_cache is None ==> config.package_cache.len() == 0
                &&& table_field(document, "preview"@) == Some(config.preview)
                &&& table_field(document, "local"@) == Some(config.local)
            },
            Err(name) => {
                ||| (name == "rootdir"@ || name == "destination"@) && text_field(
                    document,
                    name,
                ) is None
                ||| (name == "discover"@ || name == "package-cache"@) && paths_field(
                    document,
                    name,
                ) is None
                ||| (name == "preview"@ || name == "local"@) && table_field(document, name) is None
            },
        },
{
}

} // verus!
