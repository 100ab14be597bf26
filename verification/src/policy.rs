//! Which arrivals of a stream a reservoir of `k` places holds, as a function
//! of the weights drawn for them.
//!
//! Arrivals are named by their position in the stream. An arrival ranks above
//! another if its weight is greater; of two arrivals with the same weight the
//! earlier one ranks above the later one. So any two arrivals compare, and a
//! full reservoir always has exactly one top: the arrival that gives way when
//! a new one comes in.

use vstd::prelude::*;
use vstd::set_lib::{
    lemma_int_range, lemma_len_subset, lemma_map_size, lemma_subset_equality, set_int_range,
};

verus! {

/// Arrival `i` ranks above arrival `j`.
pub open spec fn ranks_above(weights: Seq<u64>, i: int, j: int) -> bool {
    weights[i] > weights[j] || (weights[i] == weights[j] && i < j)
}

/// `t` is held and ranks above every other held arrival.
pub open spec fn is_top(weights: Seq<u64>, held: Set<int>, t: int) -> bool {
    &&& held.contains(t)
    &&& forall|j: int| held.contains(j) && j != t ==> ranks_above(weights, t, j)
}

/// The held arrival that ranks above every other held arrival.
pub open spec fn top(weights: Seq<u64>, held: Set<int>) -> int {
    choose|t: int| is_top(weights, held, t)
}

/// The arrivals held after the last arrival of `weights` has been
/// considered, where `before` were held until then.
///
/// While the reservoir has a free place the arrival takes it. Once it is
/// full, an arrival whose weight is greater than the top's is turned away;
/// any other takes the place of the top.
pub open spec fn consider(weights: Seq<u64>, before: Set<int>, k: nat) -> Set<int>
    recommends
        weights.len() > 0,
{
    let n = weights.len() - 1;
    if n < k {
        before.insert(n)
    } else if k == 0 {
        before
    } else {
        let t = top(weights, before);
        if weights[n] > weights[t] {
            before
        } else {
            before.remove(t).insert(n)
        }
    }
}

/// The arrivals that a reservoir of `k` places holds after a stream for
/// which `weights` were drawn, one per arrival.
pub open spec fn retained(weights: Seq<u64>, k: nat) -> Set<int>
    decreases weights.len(),
{
    if weights.len() == 0 {
        Set::empty()
    } else {
        consider(weights, retained(weights.drop_last(), k), k)
    }
}

/// `held` names arrivals before the `n`-th only.
pub open spec fn within(held: Set<int>, n: nat) -> bool {
    forall|i: int| held.contains(i) ==> 0 <= i < n
}

/// A set of arrivals has at most one top.
pub proof fn lemma_top_unique(weights: Seq<u64>, held: Set<int>, t: int)
    requires
        is_top(weights, held, t),
    ensures
        top(weights, held) == t,
{
}

/// What is retained after one more arrival.
pub proof fn lemma_retained_push(weights: Seq<u64>, w: u64, k: nat)
    ensures
        retained(weights.push(w), k) == consider(weights.push(w), retained(weights, k), k),
{
    assert(weights.push(w).drop_last() =~= weights);
}

/// A set of arrivals that is not empty has a top.
pub proof fn lemma_top_exists(weights: Seq<u64>, held: Set<int>, n: nat, member: int)
    requires
        within(held, n),
        held.contains(member),
    ensures
        is_top(weights, held, top(weights, held)),
    decreases n,
{
    let last = n - 1;
    let rest = held.remove(last);
    if held.contains(last) {
        if exists|i: int| rest.contains(i) {
            let i = choose|i: int| rest.contains(i);
            lemma_top_exists(weights, rest, last as nat, i);
            let t = top(weights, rest);
            if ranks_above(weights, t, last) {
                assert(is_top(weights, held, t));
            } else {
                assert(is_top(weights, held, last));
            }
        } else {
            assert(is_top(weights, held, last));
        }
    } else {
        assert(rest =~= held);
        lemma_top_exists(weights, rest, last as nat, member);
    }
}

/// `held` are the arrivals of the stream that rank lowest: as many as the
/// reservoir has places, or all of them if they are fewer, and each of them
/// ranks below every arrival that is not among them.
pub open spec fn holds_lowest(weights: Seq<u64>, k: nat, held: Set<int>) -> bool {
    &&& within(held, weights.len())
    &&& held.finite()
    &&& held.len() == if weights.len() <= k { weights.len() } else { k }
    &&& forall|i: int, j: int|
        #![trigger held.contains(i), held.contains(j)]
        held.contains(i) && 0 <= j < weights.len() && !held.contains(j) ==> ranks_above(
            weights,
            j,
            i,
        )
}

/// A reservoir retains the arrivals that rank lowest, and all arrivals while
/// they do not outnumber its places.
pub proof fn lemma_retained_lowest(weights: Seq<u64>, k: nat)
    ensures
        holds_lowest(weights, k, retained(weights, k)),
        weights.len() <= k ==> forall|i: int|
            0 <= i < weights.len() ==> retained(weights, k).contains(i),
    decreases weights.len(),
{
    if weights.len() > 0 {
        let n = weights.len() - 1;
        let front = weights.drop_last();
        let before = retained(front, k);
        lemma_retained_lowest(front, k);
        if n >= k && k > 0 {
            let member = before.choose();
            lemma_top_exists(weights, before, n as nat, member);
        }
    }
}

/// Only one set of arrivals ranks lowest: the one a reservoir retains.
pub proof fn lemma_lowest_is_retained(weights: Seq<u64>, k: nat, held: Set<int>)
    requires
        holds_lowest(weights, k, held),
    ensures
        held == retained(weights, k),
{
    let kept = retained(weights, k);
    lemma_retained_lowest(weights, k);
    if !held.subset_of(kept) {
        // Some `x` is in `held` only. Both sets have the same number of
        // members, so some `y` is in `kept` only: each of the two would have
        // to rank above the other.
        let x = choose|x: int| held.contains(x) && !kept.contains(x);
        if kept.subset_of(held) {
            lemma_subset_equality(kept, held);
        }
        let y = choose|y: int| kept.contains(y) && !held.contains(y);
        assert(ranks_above(weights, y, x) && ranks_above(weights, x, y));
    }
    lemma_subset_equality(held, kept);
}

/// What is retained depends on the weights only through the way they rank
/// the arrivals: two draws of weights that rank the arrivals alike retain the
/// same arrivals.
pub proof fn lemma_retained_by_rank_only(weights: Seq<u64>, other: Seq<u64>, k: nat)
    requires
        weights.len() == other.len(),
        forall|i: int, j: int|
            0 <= i < weights.len() && 0 <= j < weights.len() ==> (ranks_above(weights, i, j)
                <==> ranks_above(other, i, j)),
    ensures
        retained(weights, k) == retained(other, k),
{
    lemma_retained_lowest(weights, k);
    lemma_lowest_is_retained(other, k, retained(weights, k));
}

/// No two arrivals have the same weight.
pub open spec fn distinct(weights: Seq<u64>) -> bool {
    forall|i: int, j: int|
        0 <= i < weights.len() && 0 <= j < weights.len() && i != j ==> weights[i] != weights[j]
}

/// `order` lists every position before the `n`-th exactly once.
pub open spec fn is_rearrangement(order: Seq<int>, n: nat) -> bool {
    &&& order.len() == n
    &&& forall|p: int| 0 <= p < n ==> 0 <= #[trigger] order[p] < n
    &&& order.no_duplicates()
    &&& forall|i: int| 0 <= i < n ==> #[trigger] order.contains(i)
}

/// The weights of a stream whose arrivals come in another order: in place
/// `p` comes what was arrival `order[p]`.
pub open spec fn rearranged(weights: Seq<u64>, order: Seq<int>) -> Seq<u64> {
    Seq::new(order.len(), |p: int| weights[order[p]])
}

/// Where no two weights are equal, the order of arrival does not matter: an
/// arrival is retained from the rearranged stream exactly if it is retained
/// from the stream as it was.
pub proof fn lemma_retained_whatever_the_order(weights: Seq<u64>, order: Seq<int>, k: nat)
    requires
        distinct(weights),
        is_rearrangement(order, weights.len()),
    ensures
        forall|p: int|
            0 <= p < weights.len() ==> (retained(rearranged(weights, order), k).contains(p)
                <==> retained(weights, k).contains(#[trigger] order[p])),
{
    let n = weights.len();
    let kept = retained(weights, k);
    let moved = rearranged(weights, order);
    let held = Set::new(|p: int| 0 <= p < n && kept.contains(order[p]));
    let place = |p: int| order[p];
    lemma_retained_lowest(weights, k);
    assert(held.finite() && held.len() == kept.len()) by {
        lemma_int_range(0, n as int);
        lemma_len_subset(held, set_int_range(0, n as int));
        assert forall|i: int| kept.contains(i) implies held.map(place).contains(i) by {
            assert(order.contains(i));
            let p = choose|p: int| 0 <= p < n && order[p] == i;
            assert(held.contains(p) && place(p) == i);
        }
        assert(held.map(place) =~= kept);
        lemma_map_size(held, kept, place);
    }
    lemma_lowest_is_retained(moved, k, held);
}

} // verus!
