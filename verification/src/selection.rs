//! The items found at a set of positions of a sequence, as a bag.

use vstd::multiset::Multiset;
use vstd::prelude::*;
use vstd::seq_lib::{
    to_multiset_build, to_multiset_contains, to_multiset_insert, to_multiset_remove,
};

verus! {

/// The bag of the items of `items` whose position is in `held`.
pub open spec fn selection<A>(items: Seq<A>, held: Set<int>) -> Multiset<A>
    decreases items.len(),
{
    if items.len() == 0 {
        Multiset::empty()
    } else {
        let rest = selection(items.drop_last(), held);
        if held.contains(items.len() - 1) {
            rest.insert(items.last())
        } else {
            rest
        }
    }
}

/// Every position of `items` is in `held`.
pub open spec fn covers<A>(held: Set<int>, items: Seq<A>) -> bool {
    forall|i: int| 0 <= i < items.len() ==> held.contains(i)
}

/// Selecting from a sequence with one more item.
pub proof fn lemma_selection_push<A>(items: Seq<A>, x: A, held: Set<int>)
    ensures
        selection(items.push(x), held) == if held.contains(items.len() as int) {
            selection(items, held).insert(x)
        } else {
            selection(items, held)
        },
{
    assert(items.push(x).drop_last() =~= items);
}

/// Only the positions of `items` matter.
pub proof fn lemma_selection_agrees<A>(items: Seq<A>, held: Set<int>, other: Set<int>)
    requires
        forall|i: int| 0 <= i < items.len() ==> (held.contains(i) <==> other.contains(i)),
    ensures
        selection(items, held) == selection(items, other),
    decreases items.len(),
{
    if items.len() > 0 {
        lemma_selection_agrees(items.drop_last(), held, other);
    }
}

/// What is selected lies at a held position: the lemma returns one.
pub proof fn lemma_selection_source<A>(items: Seq<A>, held: Set<int>, x: A) -> (i: int)
    requires
        selection(items, held).contains(x),
    ensures
        0 <= i < items.len(),
        held.contains(i),
        items[i] == x,
    decreases items.len(),
{
    let front = items.drop_last();
    if selection(front, held).contains(x) {
        lemma_selection_source(front, held, x)
    } else {
        items.len() - 1
    }
}

/// Giving up a held position takes its item out of the selection.
pub proof fn lemma_selection_remove<A>(items: Seq<A>, held: Set<int>, t: int)
    requires
        0 <= t < items.len(),
        held.contains(t),
    ensures
        selection(items, held.remove(t)) == selection(items, held).remove(items[t]),
        selection(items, held).contains(items[t]),
    decreases items.len(),
{
    let front = items.drop_last();
    if t == items.len() - 1 {
        lemma_selection_agrees(front, held, held.remove(t));
    } else {
        lemma_selection_remove(front, held, t);
    }
}

/// As many items are selected as positions of the sequence are held.
pub proof fn lemma_selection_len<A>(items: Seq<A>, held: Set<int>)
    requires
        held.finite(),
        forall|i: int| held.contains(i) ==> 0 <= i < items.len(),
    ensures
        selection(items, held).len() == held.len(),
    decreases items.len(),
{
    if items.len() == 0 {
        assert(held =~= Set::<int>::empty());
    } else {
        let front = items.drop_last();
        let end = items.len() - 1;
        lemma_selection_agrees(front, held, held.remove(end));
        lemma_selection_len(front, held.remove(end));
    }
}

/// Where no position is held, nothing is selected.
pub proof fn lemma_selection_none<A>(items: Seq<A>, held: Set<int>)
    requires
        forall|i: int| 0 <= i < items.len() ==> !held.contains(i),
    ensures
        selection(items, held) == Multiset::<A>::empty(),
    decreases items.len(),
{
    if items.len() > 0 {
        lemma_selection_none(items.drop_last(), held);
    }
}

/// Where every position is held, the selection is the whole sequence.
pub proof fn lemma_selection_all<A>(items: Seq<A>, held: Set<int>)
    requires
        covers(held, items),
    ensures
        selection(items, held) == items.to_multiset(),
    decreases items.len(),
{
    if items.len() == 0 {
        items.to_multiset_ensures();
    } else {
        let front = items.drop_last();
        lemma_selection_all(front, held);
        to_multiset_build(front, items.last());
        assert(front.push(items.last()) =~= items);
    }
}

/// A selection takes nothing that the sequence does not hold, and nothing
/// more often than the sequence holds it.
pub proof fn lemma_selection_within<A>(items: Seq<A>, held: Set<int>)
    ensures
        selection(items, held).subset_of(items.to_multiset()),
    decreases items.len(),
{
    if items.len() > 0 {
        let front = items.drop_last();
        lemma_selection_within(front, held);
        to_multiset_build(front, items.last());
        assert(front.push(items.last()) =~= items);
    }
}

/// A sequence that holds a selection of `vals`, taken through `f` item by
/// item, holds the same selection of `vals` taken through `f`.
pub proof fn lemma_selection_map<A, B>(s: Seq<A>, vals: Seq<A>, held: Set<int>, f: spec_fn(A) -> B)
    requires
        s.to_multiset() == selection(vals, held),
    ensures
        s.map_values(f).to_multiset() == selection(vals.map_values(f), held),
    decreases vals.len(),
{
    if vals.len() == 0 {
        s.to_multiset_ensures();
        assert(s.map_values(f) =~= Seq::<B>::empty());
        Seq::<B>::empty().to_multiset_ensures();
    } else {
        let front = vals.drop_last();
        let x = vals.last();
        assert(vals.map_values(f).drop_last() =~= front.map_values(f));
        if held.contains(vals.len() - 1) {
            to_multiset_contains(s, x);
            let p = choose|p: int| 0 <= p < s.len() && s[p] == x;
            let rest = s.remove(p);
            to_multiset_remove(s, p);
            assert(rest.to_multiset() =~= selection(front, held));
            lemma_selection_map(rest, front, held, f);
            assert(s.map_values(f) =~= rest.map_values(f).insert(p, f(x)));
            to_multiset_insert(rest.map_values(f), p, f(x));
        } else {
            lemma_selection_map(s, front, held, f);
        }
    }
}

} // verus!
