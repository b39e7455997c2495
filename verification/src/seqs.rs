//! Facts about sequences, and stacks of tasks.

use vstd::prelude::*;

verus! {

/// What a sequence holds once an element was added at its end.
pub proof fn lemma_push_contains<A>(s: Seq<A>, a: A, b: A)
    ensures
        s.push(a).contains(b) <==> s.contains(b) || a == b,
{
    if s.contains(b) {
        let i = choose|i: int| 0 <= i < s.len() && s[i] == b;
        assert(s.push(a)[i] == b);
    }
    if a == b {
        assert(s.push(a)[s.len() as int] == b);
    }
}

/// What two sequences hold, one behind the other.
pub proof fn lemma_concat_contains<A>(s: Seq<A>, t: Seq<A>, a: A)
    ensures
        (s + t).contains(a) <==> s.contains(a) || t.contains(a),
{
    if s.contains(a) {
        let i = choose|i: int| 0 <= i < s.len() && s[i] == a;
        assert((s + t)[i] == a);
    }
    if t.contains(a) {
        let i = choose|i: int| 0 <= i < t.len() && t[i] == a;
        assert((s + t)[s.len() + i] == a);
    }
    if (s + t).contains(a) {
        let i = choose|i: int| 0 <= i < (s + t).len() && (s + t)[i] == a;
        if i < s.len() {
            assert(s[i] == a);
        } else {
            assert(t[i - s.len()] == a);
        }
    }
}

/// What a sequence holds, one that starts with it holds too.
pub proof fn lemma_prefix_contains<A>(s: Seq<A>, t: Seq<A>, a: A)
    requires
        s.is_prefix_of(t),
    ensures
        s.contains(a) ==> t.contains(a),
{
    if s.contains(a) {
        let i = choose|i: int| 0 <= i < s.len() && s[i] == a;
        assert(t[i] == a);
    }
}

/// What a filter leaves.
pub proof fn lemma_filter_contains<A>(s: Seq<A>, pred: spec_fn(A) -> bool, a: A)
    ensures
        s.filter(pred).contains(a) <==> s.contains(a) && pred(a),
    decreases s.len(),
{
    reveal(Seq::filter);
    if s.len() > 0 {
        let front = s.drop_last();
        lemma_filter_contains(front, pred, a);
        assert(s =~= front.push(s.last()));
        lemma_push_contains(front, s.last(), a);
        lemma_push_contains(front.filter(pred), s.last(), a);
    }
}

/// Lays items on a stack, the first on top.
pub fn pile<T>(stack: &mut Vec<T>, items: Vec<T>)
    ensures
        final(stack)@ == old(stack)@ + items@.reverse(),
{
    let ghost start = stack@;
    let ghost all = items@;
    let mut items = items;
    assert(stack@ =~= start + all.reverse().take(0));
    while items.len() > 0
        invariant
            items@.len() <= all.len(),
            items@ == all.take(items@.len() as int),
            stack@ == start + all.reverse().take(all.len() - items@.len()),
        decreases items@.len(),
    {
        let ghost n = items@.len() as int;
        let ghost before = stack@;
        if let Some(item) = items.pop() {
            assert(items@ =~= all.take(n - 1));
            stack.push(item);
            assert(all.reverse()[all.len() - n] == item);
            assert(stack@ =~= start + all.reverse().take(all.len() - n + 1));
        }
    }
    assert(all.reverse().take(all.len() as int) =~= all.reverse());
}

/// A stack of what is made of some items, the first on top.
pub open spec fn stacked<A, B>(items: Seq<A>, make: spec_fn(A) -> B) -> Seq<B> {
    items.map_values(make).reverse()
}

/// The first item lies on top.
pub proof fn lemma_stacked<A, B>(items: Seq<A>, make: spec_fn(A) -> B)
    requires
        items.len() > 0,
    ensures
        stacked(items, make) == stacked(items.skip(1), make).push(make(items[0])),
{
    let rest = items.skip(1);
    let n = items.len() as int;
    assert forall|i: int| 0 <= i < n implies #[trigger] stacked(items, make)[i] == stacked(
        rest,
        make,
    ).push(make(items[0]))[i] by {
        if i < n - 1 {
            assert(rest[n - 2 - i] == items[n - 1 - i]);
        }
    }
    assert(stacked(items, make) =~= stacked(rest, make).push(make(items[0])));
}

/// What is made of those items of which something is made, in order.
pub open spec fn chosen<A, B>(items: Seq<A>, make: spec_fn(A) -> Option<B>) -> Seq<B>
    decreases items.len(),
{
    if items.len() == 0 {
        Seq::empty()
    } else {
        match make(items.last()) {
            Some(b) => chosen(items.drop_last(), make).push(b),
            None => chosen(items.drop_last(), make),
        }
    }
}

/// Items are chosen part by part.
pub proof fn lemma_chosen_concat<A, B>(a: Seq<A>, b: Seq<A>, make: spec_fn(A) -> Option<B>)
    ensures
        chosen(a + b, make) == chosen(a, make) + chosen(b, make),
    decreases b.len(),
{
    if b.len() == 0 {
        assert(a + b =~= a);
        assert(chosen(a, make) + chosen(b, make) =~= chosen(a, make));
    } else {
        assert((a + b).drop_last() =~= a + b.drop_last());
        lemma_chosen_concat(a, b.drop_last(), make);
        assert(chosen(a + b, make) =~= chosen(a, make) + chosen(b, make));
    }
}

/// What is chosen with one more item.
pub proof fn lemma_chosen_push<A, B>(items: Seq<A>, item: A, make: spec_fn(A) -> Option<B>)
    ensures
        chosen(items.push(item), make) == match make(item) {
            Some(b) => chosen(items, make).push(b),
            None => chosen(items, make),
        },
{
    assert(items.push(item).drop_last() =~= items);
}

/// Where something is made of no item, nothing is chosen.
pub proof fn lemma_chosen_none<A, B>(items: Seq<A>, make: spec_fn(A) -> Option<B>)
    requires
        forall|i: int| 0 <= i < items.len() ==> make(#[trigger] items[i]) is None,
    ensures
        chosen(items, make) == Seq::<B>::empty(),
    decreases items.len(),
{
    if items.len() > 0 {
        assert(make(items[items.len() - 1]) is None);
        lemma_chosen_none(items.drop_last(), make);
    }
}

/// What is chosen of a stack, from the top down.
pub open spec fn chosen_down<A, B>(stack: Seq<A>, make: spec_fn(A) -> Option<B>) -> Seq<B> {
    chosen(stack.reverse(), make)
}

/// The top of a stack is chosen first.
pub proof fn lemma_chosen_top<A, B>(stack: Seq<A>, make: spec_fn(A) -> Option<B>)
    requires
        stack.len() > 0,
    ensures
        chosen_down(stack, make) == match make(stack.last()) {
            Some(b) => seq![b] + chosen_down(stack.drop_last(), make),
            None => chosen_down(stack.drop_last(), make),
        },
{
    let rest = stack.drop_last();
    assert(stack.reverse() =~= seq![stack.last()] + rest.reverse());
    lemma_chosen_concat(seq![stack.last()], rest.reverse(), make);
    assert(seq![stack.last()].drop_last() =~= Seq::empty());
    assert(chosen(seq![stack.last()].drop_last(), make) =~= Seq::empty());
    match make(stack.last()) {
        Some(b) => assert(chosen(seq![stack.last()], make) =~= seq![b]),
        None => assert(chosen_down(stack, make) =~= chosen_down(rest, make)),
    }
}

/// What lies on a stack is chosen before what lies below.
pub proof fn lemma_chosen_stack<A, B>(stack: Seq<A>, more: Seq<A>, make: spec_fn(A) -> Option<B>)
    ensures
        chosen_down(stack + more, make) == chosen_down(more, make) + chosen_down(stack, make),
{
    assert((stack + more).reverse() =~= more.reverse() + stack.reverse());
    lemma_chosen_concat(more.reverse(), stack.reverse(), make);
}

/// What is made of each item.
pub proof fn lemma_chosen_all<A, B>(items: Seq<A>, make: spec_fn(A) -> Option<B>, all: Seq<B>)
    requires
        items.len() == all.len(),
        forall|i: int| 0 <= i < items.len() ==> make(#[trigger] items[i]) == Some(all[i]),
    ensures
        chosen(items, make) == all,
    decreases items.len(),
{
    if items.len() > 0 {
        assert(make(items[items.len() - 1]) == Some(all[all.len() - 1]));
        lemma_chosen_all(items.drop_last(), make, all.drop_last());
        assert(all.drop_last().push(all.last()) =~= all);
    } else {
        assert(chosen(items, make) =~= all);
    }
}

/// Where the same is made of the items of two rows, the same is chosen.
pub proof fn lemma_chosen_same<A, B, C>(
    items: Seq<A>,
    others: Seq<B>,
    make: spec_fn(A) -> Option<C>,
    make_other: spec_fn(B) -> Option<C>,
)
    requires
        items.len() == others.len(),
        forall|i: int| 0 <= i < items.len() ==> make(#[trigger] items[i]) == make_other(others[i]),
    ensures
        chosen(items, make) == chosen(others, make_other),
    decreases items.len(),
{
    if items.len() > 0 {
        assert(make(items[items.len() - 1]) == make_other(others[others.len() - 1]));
        lemma_chosen_same(items.drop_last(), others.drop_last(), make, make_other);
    }
}

} // verus!
