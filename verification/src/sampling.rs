//! Sampling from an iterator.

use crate::policy::retained;
use crate::reservoir::{Offered, Reservoir};
use crate::selection::selection;
use crate::weights::{ThreadWeights, WeightSource};
use vstd::multiset::Multiset;
use vstd::prelude::*;
use vstd::seq_lib::to_multiset_len;
use vstd::std_specs::iter::IteratorSpec;

verus! {

/// Why no sample could be taken.
pub enum SampleError<E> {
    /// The source failed to produce its next item; the failure is the
    /// source's own.
    SourceReadFailure(E),
}

/// The items of a stream that did not fail.
pub open spec fn values<T, E>(stream: Seq<Result<T, E>>) -> Seq<T> {
    stream.map_values(|r: Result<T, E>| r->Ok_0)
}

/// No item of the stream is a failure.
pub open spec fn all_ok<T, E>(stream: Seq<Result<T, E>>) -> bool {
    forall|i: int| 0 <= i < stream.len() ==> (#[trigger] stream[i]) is Ok
}

/// `failure` is the first failure of the stream.
pub open spec fn is_first_failure<T, E>(stream: Seq<Result<T, E>>, failure: E) -> bool {
    exists|i: int|
        0 <= i < stream.len() && #[trigger] stream[i] == Err::<T, E>(failure) && all_ok(
            stream.take(i),
        )
}

/// `sample` is a sample of `k` places from `source`.
///
/// It has `k` items, or all of `source` if that has no more than `k`; it
/// takes nothing that `source` does not hold, and nothing more often than
/// `source` holds it; and it is what a reservoir of `k` places retains for
/// some weights, one per item of `source`.
pub open spec fn is_sample_of<T>(sample: Seq<T>, source: Seq<T>, k: nat) -> bool {
    &&& sample.len() == if source.len() <= k { source.len() } else { k }
    &&& sample.to_multiset().subset_of(source.to_multiset())
    &&& source.len() <= k ==> sample.to_multiset() == source.to_multiset()
    &&& exists|weights: Seq<u64>|
        weights.len() == source.len() && sample.to_multiset() == selection(
            source,
            #[trigger] retained(weights, k),
        )
}

/// What a reservoir holds after a whole stream is a sample of the stream.
pub proof fn lemma_reservoir_holds_sample<T>(sample: Seq<T>, offered: Offered<T>)
    requires
        offered.wf(),
        sample.to_multiset() == offered.sample(),
    ensures
        is_sample_of(sample, offered.items, offered.places),
{
    to_multiset_len(sample);
    offered.lemma_sample_size();
    offered.lemma_sample_within();
    if offered.items.len() <= offered.places {
        offered.lemma_short_stream_kept_whole();
    }
    assert(offered.sample() == selection(
        offered.items,
        retained(offered.weights, offered.places),
    ));
}

/// The empty sequence is the sample of no places, from any source.
pub proof fn lemma_nothing_is_sample_of_no_places<T>(source: Seq<T>)
    ensures
        is_sample_of(Seq::<T>::empty(), source, 0),
{
    let offered = Offered {
        places: 0,
        items: source,
        weights: Seq::new(source.len(), |i: int| 0u64),
    };
    offered.lemma_no_places_no_sample();
    assert(Seq::<T>::empty().to_multiset() =~= Multiset::<T>::empty()) by {
        to_multiset_len(Seq::<T>::empty());
    }
    lemma_reservoir_holds_sample(Seq::<T>::empty(), offered);
}

/// A sample from a source of no more than `k` items is the whole source.
pub proof fn lemma_sample_of_short_source<T>(sample: Seq<T>, source: Seq<T>, k: nat)
    requires
        is_sample_of(sample, source, k),
        source.len() <= k,
    ensures
        sample.len() == source.len(),
        sample.to_multiset() == source.to_multiset(),
{
}

/// A sample of no places is empty, whatever the source.
pub proof fn lemma_sample_of_no_places<T>(sample: Seq<T>, source: Seq<T>)
    requires
        is_sample_of(sample, source, 0),
    ensures
        sample == Seq::<T>::empty(),
{
}

/// A sample from an empty source is empty, whatever the number of places.
pub proof fn lemma_sample_of_empty_source<T>(sample: Seq<T>, k: nat)
    requires
        is_sample_of(sample, Seq::<T>::empty(), k),
    ensures
        sample == Seq::<T>::empty(),
{
}

/// Chooses a sample of `k` items from `items`, every item with the same
/// chance of being chosen.
///
/// The stream is read once, to its end, and never more than `k` of its items
/// are kept at a time. A stream of no more than `k` items is returned whole.
/// With `k == 0` the sample is empty and the stream is not read at all. The
/// order of the sample is not specified.
///
/// The weights come from the random number generator of the current thread;
/// [`reservoir_sample_with`] takes them from a source of the caller's.
pub fn reservoir_sample<T>(items: impl Iterator<Item = T>, k: usize) -> (sample: Vec<T>)
    requires
        k > 0 ==> items.obeys_prophetic_iter_laws(),
        k > 0 ==> items.decrease() is Some,
        k > 0 ==> items.remaining().len() <= u64::MAX,
    ensures
        is_sample_of(sample@, items.remaining(), k as nat),
{
    let mut weights = ThreadWeights::new();
    reservoir_sample_with(items, k, &mut weights)
}

/// Chooses a sample of `k` items from `items`, with weights drawn from
/// `weights`.
///
/// One weight is drawn for each item read, after the item. Each arrival is
/// offered to a [`Reservoir`] of `k` places with its weight, so the sample is
/// what the reservoir retains for the weights that were drawn. With `k == 0`
/// neither the stream nor the source of weights is touched.
///
/// The stream has to come to an end, and the reservoir numbers its arrivals
/// in 64 bits, so the stream may not have more items than that.
pub fn reservoir_sample_with<T, W: WeightSource>(
    items: impl Iterator<Item = T>,
    k: usize,
    weights: &mut W,
) -> (sample: Vec<T>)
    requires
        k > 0 ==> items.obeys_prophetic_iter_laws(),
        k > 0 ==> items.decrease() is Some,
        k > 0 ==> items.remaining().len() <= u64::MAX,
    ensures
        is_sample_of(sample@, items.remaining(), k as nat),
{
    if k == 0 {
        proof {
            lemma_nothing_is_sample_of_no_places(items.remaining());
        }
        return Vec::new();
    }
    let mut stream = items;
    let mut reservoir: Reservoir<T> = Reservoir::new(k);
    loop
        invariant
            stream.obeys_prophetic_iter_laws(),
            stream.decrease() is Some,
            items.remaining().len() <= u64::MAX,
            reservoir.wf(),
            reservoir@.places == k,
            reservoir@.items + stream.remaining() == items.remaining(),
        decreases stream.decrease()->0,
    {
        let ghost ahead = stream.remaining();
        match stream.next() {
            Some(item) => {
                let weight: u64 = weights.next_weight();
                proof {
                    assert(reservoir@.items.push(item) + ahead.drop_first() =~= reservoir@.items
                        + ahead);
                }
                reservoir.offer(item, weight);
            },
            None => {
                let ghost offered = reservoir@;
                let sample = reservoir.into_sample();
                proof {
                    lemma_reservoir_holds_sample(sample@, offered);
                }
                return sample;
            },
        }
    }
}

/// Chooses a sample of `k` items from a stream that can fail, every item
/// with the same chance of being chosen.
///
/// This is [`try_reservoir_sample_with`] with weights from the random number
/// generator of the current thread.
pub fn try_reservoir_sample<T, E>(items: impl Iterator<Item = Result<T, E>>, k: usize) -> (outcome:
    Result<Vec<T>, SampleError<E>>)
    requires
        k > 0 ==> items.obeys_prophetic_iter_laws(),
        k > 0 ==> items.decrease() is Some,
        k > 0 ==> items.remaining().len() <= u64::MAX,
    ensures
        match outcome {
            Ok(sample) => {
                &&& k == 0 || all_ok(items.remaining())
                &&& is_sample_of(sample@, values(items.remaining()), k as nat)
            },
            Err(SampleError::SourceReadFailure(failure)) => {
                &&& k > 0
                &&& is_first_failure(items.remaining(), failure)
            },
        },
{
    let mut weights = ThreadWeights::new();
    try_reservoir_sample_with(items, k, &mut weights)
}

/// Chooses a sample of `k` items from a stream that can fail, with weights
/// drawn from `weights`.
///
/// The first failure of the stream ends the sampling and is handed to the
/// caller: no item is skipped, none is made up, and no part of a sample is
/// returned. Where the stream does not fail this is
/// [`reservoir_sample_with`]. With `k == 0` the stream is not read, so a
/// failure in it is not seen.
pub fn try_reservoir_sample_with<T, E, W: WeightSource>(
    items: impl Iterator<Item = Result<T, E>>,
    k: usize,
    weights: &mut W,
) -> (outcome: Result<Vec<T>, SampleError<E>>)
    requires
        k > 0 ==> items.obeys_prophetic_iter_laws(),
        k > 0 ==> items.decrease() is Some,
        k > 0 ==> items.remaining().len() <= u64::MAX,
    ensures
        match outcome {
            Ok(sample) => {
                &&& k == 0 || all_ok(items.remaining())
                &&& is_sample_of(sample@, values(items.remaining()), k as nat)
            },
            Err(SampleError::SourceReadFailure(failure)) => {
                &&& k > 0
                &&& is_first_failure(items.remaining(), failure)
            },
        },
{
    if k == 0 {
        proof {
            lemma_nothing_is_sample_of_no_places(values(items.remaining()));
        }
        return Ok(Vec::new());
    }
    let mut stream = items;
    let mut reservoir: Reservoir<T> = Reservoir::new(k);
    loop
        invariant
            stream.obeys_prophetic_iter_laws(),
            stream.decrease() is Some,
            items.remaining().len() <= u64::MAX,
            reservoir.wf(),
            k > 0,
            reservoir@.places == k,
            reservoir@.items.len() <= items.remaining().len(),
            all_ok(items.remaining().take(reservoir@.items.len() as int)),
            reservoir@.items == values(items.remaining().take(reservoir@.items.len() as int)),
            stream.remaining() == items.remaining().skip(reservoir@.items.len() as int),
        decreases stream.decrease()->0,
    {
        let ghost read = reservoir@.items.len() as int;
        match stream.next() {
            Some(Ok(item)) => {
                let weight: u64 = weights.next_weight();
                reservoir.offer(item, weight);
            },
            Some(Err(failure)) => {
                return Err(SampleError::SourceReadFailure(failure));
            },
            None => {
                let ghost offered = reservoir@;
                let sample = reservoir.into_sample();
                proof {
                    assert(items.remaining().take(read) =~= items.remaining());
                    lemma_reservoir_holds_sample(sample@, offered);
                }
                return Ok(sample);
            },
        }
    }
}

} // verus!
