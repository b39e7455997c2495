//! The order in which packages are visited: by name, then by version, both as
//! texts.

use vstd::prelude::*;
use vstd::relations::{sorted_by, total_ordering};

use crate::config::pair_views;

verus! {

/// Whether a text stands no later than another in the order of texts: they are
/// compared character by character, and a text stands before its extensions.
pub open spec fn text_le(a: Seq<char>, b: Seq<char>) -> bool
    decreases a.len(),
{
    if a.len() == 0 {
        true
    } else if b.len() == 0 {
        false
    } else if a[0] == b[0] {
        text_le(a.skip(1), b.skip(1))
    } else {
        a[0] < b[0]
    }
}

/// Whether a name and version stand no later than another.
pub open spec fn pair_le(a: (Seq<char>, Seq<char>), b: (Seq<char>, Seq<char>)) -> bool {
    if a.0 == b.0 {
        text_le(a.1, b.1)
    } else {
        text_le(a.0, b.0)
    }
}

/// The order of names and versions.
pub open spec fn pair_order() -> spec_fn((Seq<char>, Seq<char>), (Seq<char>, Seq<char>)) -> bool {
    |a: (Seq<char>, Seq<char>), b: (Seq<char>, Seq<char>)| pair_le(a, b)
}

proof fn lemma_text_le_reflexive(a: Seq<char>)
    ensures
        text_le(a, a),
    decreases a.len(),
{
    if a.len() > 0 {
        lemma_text_le_reflexive(a.skip(1));
    }
}

proof fn lemma_text_le_antisymmetric(a: Seq<char>, b: Seq<char>)
    requires
        text_le(a, b),
        text_le(b, a),
    ensures
        a == b,
    decreases a.len(),
{
    if a.len() > 0 && b.len() > 0 {
        lemma_text_le_antisymmetric(a.skip(1), b.skip(1));
        assert(a =~= seq![a[0]] + a.skip(1));
        assert(b =~= seq![b[0]] + b.skip(1));
    } else {
        assert(a =~= b);
    }
}

proof fn lemma_text_le_transitive(a: Seq<char>, b: Seq<char>, c: Seq<char>)
    requires
        text_le(a, b),
        text_le(b, c),
    ensures
        text_le(a, c),
    decreases a.len(),
{
    if a.len() > 0 && a[0] == b[0] && b[0] == c[0] {
        lemma_text_le_transitive(a.skip(1), b.skip(1), c.skip(1));
    }
}

proof fn lemma_text_le_total(a: Seq<char>, b: Seq<char>)
    ensures
        text_le(a, b) || text_le(b, a),
    decreases a.len(),
{
    if a.len() > 0 && b.len() > 0 {
        lemma_text_le_total(a.skip(1), b.skip(1));
    }
}

/// The order of names and versions is a total order: any two can be compared,
/// and only equal ones stand level.
pub proof fn lemma_pair_order_total()
    ensures
        total_ordering(pair_order()),
{
    let le = pair_order();
    assert forall|a: (Seq<char>, Seq<char>)| #[trigger] le(a, a) by {
        lemma_text_le_reflexive(a.1);
    }
    assert forall|a: (Seq<char>, Seq<char>), b: (Seq<char>, Seq<char>)| #[trigger]
        le(a, b) && #[trigger] le(b, a) implies a == b by {
        if a.0 == b.0 {
            lemma_text_le_antisymmetric(a.1, b.1);
        } else {
            lemma_text_le_antisymmetric(a.0, b.0);
        }
    }
    assert forall|
        a: (Seq<char>, Seq<char>),
        b: (Seq<char>, Seq<char>),
        c: (Seq<char>, Seq<char>),
    | #[trigger]
        le(a, b) && #[trigger] le(b, c) implies le(a, c) by {
        if a.0 == b.0 && b.0 == c.0 {
            lemma_text_le_transitive(a.1, b.1, c.1);
        } else if a.0 != b.0 && b.0 != c.0 {
            lemma_text_le_transitive(a.0, b.0, c.0);
            if a.0 == c.0 {
                lemma_text_le_antisymmetric(a.0, b.0);
            }
        }
    }
    assert forall|a: (Seq<char>, Seq<char>), b: (Seq<char>, Seq<char>)| #[trigger]
        le(a, b) || #[trigger] le(b, a) by {
        lemma_text_le_total(a.0, b.0);
        lemma_text_le_total(a.1, b.1);
    }
}

fn text_at_most(a: &str, b: &str) -> (yes: bool)
    ensures
        yes == text_le(a@, b@),
{
    let n: usize = a.unicode_len();
    let m: usize = b.unicode_len();
    let mut i: usize = 0;
    assert(a@.skip(0) =~= a@ && b@.skip(0) =~= b@);
    while i < n && i < m
        invariant
            n == a@.len(),
            m == b@.len(),
            i <= n,
            i <= m,
            text_le(a@, b@) == text_le(a@.skip(i as int), b@.skip(i as int)),
        decreases n - i,
    {
        let (x, y) = (a.get_char(i), b.get_char(i));
        assert(a@.skip(i as int).skip(1) =~= a@.skip(i + 1));
        assert(b@.skip(i as int).skip(1) =~= b@.skip(i + 1));
        if x != y {
            return x < y;
        }
        i = i + 1;
    }
    i == n
}

fn pair_at_most(a: &(String, String), b: &(String, String)) -> (yes: bool)
    ensures
        yes == pair_le((a.0@, a.1@), (b.0@, b.1@)),
{
    if a.0 == b.0 {
        text_at_most(a.1.as_str(), b.1.as_str())
    } else {
        text_at_most(a.0.as_str(), b.0.as_str())
    }
}

proof fn lemma_insert_multiset<A>(s: Seq<A>, i: int, x: A)
    requires
        0 <= i <= s.len(),
    ensures
        s.insert(i, x).to_multiset() == s.to_multiset().insert(x),
{
    broadcast use vstd::seq_lib::group_to_multiset_ensures;
    broadcast use vstd::multiset::group_multiset_axioms;

    let t = s.insert(i, x);
    assert(t.remove(i) =~= s);
    assert(t[i] == x);
    assert(t.contains(x));
    assert(t.to_multiset() =~= s.to_multiset().insert(x));
}

/// Puts a pair in its place among sorted pairs.
fn insert_pair(sorted: &mut Vec<(String, String)>, pair: (String, String))
    requires
        sorted_by(pair_views(old(sorted)@), pair_order()),
    ensures
        sorted_by(pair_views(final(sorted)@), pair_order()),
        pair_views(final(sorted)@).to_multiset() == pair_views(old(sorted)@).to_multiset().insert(
            (pair.0@, pair.1@),
        ),
{
    let ghost views = pair_views(sorted@);
    let ghost item = (pair.0@, pair.1@);
    let mut i: usize = 0;
    while i < sorted.len() && pair_at_most(&sorted[i], &pair)
        invariant
            i <= sorted@.len(),
            views == pair_views(sorted@),
            item == (pair.0@, pair.1@),
            forall|j: int| 0 <= j < i ==> pair_le(#[trigger] views[j], item),
        decreases sorted@.len() - i,
    {
        assert(views[i as int] == (sorted@[i as int].0@, sorted@[i as int].1@));
        i = i + 1;
    }
    proof {
        lemma_pair_order_total();
        let le = pair_order();
        if i < views.len() {
            assert(views[i as int] == (sorted@[i as int].0@, sorted@[i as int].1@));
            assert(le(item, views[i as int]) || le(views[i as int], item));
        }
        assert forall|j: int| i <= j < views.len() implies le(item, #[trigger] views[j]) by {
            if j > i {
                assert(le(views[i as int], views[j]));
                assert(le(item, views[i as int]));
            }
        }
        lemma_insert_multiset(views, i as int, item);
    }
    sorted.insert(i, pair);
    proof {
        assert(pair_views(sorted@) =~= views.insert(i as int, item));
        let le = pair_order();
        let new = views.insert(i as int, item);
        assert forall|a: int, b: int| 0 <= a < b < new.len() implies #[trigger] le(
            new[a],
            new[b],
        ) by {
            if a < i && b < i {
                assert(le(views[a], views[b]));
            } else if a < i && b == i {
                assert(pair_le(views[a], item));
            } else if a < i {
                assert(le(views[a], views[b - 1]));
            } else if a == i {
                assert(le(item, views[b - 1]));
            } else {
                assert(le(views[a - 1], views[b - 1]));
            }
        }
    }
}

/// Sorts names and versions.
pub fn sort_pairs(pairs: &Vec<(String, String)>) -> (sorted: Vec<(String, String)>)
    ensures
        pair_views(sorted@) == pair_views(pairs@).sort_by(pair_order()),
{
    let ghost views = pair_views(pairs@);
    let mut sorted: Vec<(String, String)> = Vec::new();
    assert(pair_views(sorted@) =~= views.take(0));
    for i in 0..pairs.len()
        invariant
            views == pair_views(pairs@),
            sorted_by(pair_views(sorted@), pair_order()),
            pair_views(sorted@).to_multiset() == views.take(i as int).to_multiset(),
    {
        proof {
            broadcast use vstd::seq_lib::group_to_multiset_ensures;

            assert(views.take(i + 1) =~= views.take(i as int).push(views[i as int]));
        }
        insert_pair(&mut sorted, (pairs[i].0.clone(), pairs[i].1.clone()));
    }
    proof {
        assert(views.take(views.len() as int) =~= views);
        lemma_pair_order_total();
        views.lemma_sort_by_ensures(pair_order());
        vstd::seq_lib::lemma_sorted_unique(
            pair_views(sorted@),
            views.sort_by(pair_order()),
            pair_order(),
        );
    }
    sorted
}

/// Texts are in the order of their first difference: one stands no later than another
/// exactly if it is how the other starts, or has the lower character where they first
/// differ.
pub proof fn law_first_difference_decides(a: Seq<char>, b: Seq<char>)
    ensures
        text_le(a, b) <==> a.is_prefix_of(b) || exists|k: int|
            #![trigger a[k]]
            0 <= k < a.len() && k < b.len() && a.take(k) == b.take(k) && a[k] < b[k],
    decreases a.len(),
{
    if a.len() == 0 {
        assert(a =~= b.subrange(0, 0));
    } else if b.len() > 0 {
        let x = a.skip(1);
        let y = b.skip(1);
        law_first_difference_decides(x, y);
        if a[0] == b[0] {
            if x.is_prefix_of(y) {
                assert(a =~= b.subrange(0, a.len() as int)) by {
                    assert forall|i: int| 0 <= i < a.len() implies a[i] == b[i] by {
                        if i > 0 {
                            assert(x[i - 1] == y.subrange(0, x.len() as int)[i - 1]);
                        }
                    }
                }
            }
            if a.is_prefix_of(b) {
                assert forall|i: int| 0 <= i < x.len() implies x[i] == y[i] by {
                    assert(a[i + 1] == b.subrange(0, a.len() as int)[i + 1]);
                }
                assert(x =~= y.subrange(0, x.len() as int));
            }
            if exists|k: int|
                #![trigger x[k]]
                0 <= k < x.len() && k < y.len() && x.take(k) == y.take(k) && x[k] < y[k] {
                let k = choose|k: int|
                    #![trigger x[k]]
                    0 <= k < x.len() && k < y.len() && x.take(k) == y.take(k) && x[k] < y[k];
                assert(a.take(k + 1) =~= seq![a[0]] + x.take(k));
                assert(b.take(k + 1) =~= seq![b[0]] + y.take(k));
                assert(a[k + 1] < b[k + 1]);
            }
            if exists|k: int|
                #![trigger a[k]]
                0 <= k < a.len() && k < b.len() && a.take(k) == b.take(k) && a[k] < b[k] {
                let k = choose|k: int|
                    #![trigger a[k]]
                    0 <= k < a.len() && k < b.len() && a.take(k) == b.take(k) && a[k] < b[k];
                assert(k > 0);
                assert(x.take(k - 1) =~= a.take(k).skip(1));
                assert(y.take(k - 1) =~= b.take(k).skip(1));
                assert(x[k - 1] < y[k - 1]);
            }
        } else {
            if a.is_prefix_of(b) {
                assert(a[0] == b.subrange(0, a.len() as int)[0]);
            }
            if a[0] < b[0] {
                assert(a.take(0) =~= b.take(0));
                assert(a[0] < b[0]);
            }
            if exists|k: int|
                #![trigger a[k]]
                0 <= k < a.len() && k < b.len() && a.take(k) == b.take(k) && a[k] < b[k] {
                let k = choose|k: int|
                    #![trigger a[k]]
                    0 <= k < a.len() && k < b.len() && a.take(k) == b.take(k) && a[k] < b[k];
                if k > 0 {
                    assert(a.take(k)[0] == b.take(k)[0]);
                }
            }
        }
    } else {
        if a.is_prefix_of(b) {
            assert(false);
        }
    }
}

/// Packages are in the order of their names, and those of one name in the order of their
/// versions.
pub proof fn law_names_decide_before_versions(
    a: (Seq<char>, Seq<char>),
    b: (Seq<char>, Seq<char>),
)
    ensures
        a.0 != b.0 ==> (pair_le(a, b) <==> text_le(a.0, b.0)),
        a.0 == b.0 ==> (pair_le(a, b) <==> text_le(a.1, b.1)),
        pair_order()(a, b) <==> pair_le(a, b),
{
}

} // verus!
