//! The reservoir: a bounded working set that is offered the arrivals of a
//! stream one by one, each with its weight, and holds a sample of them.

use crate::heap::{is_greatest, MaxHeap};
use crate::policy::{
    is_top, lemma_retained_lowest, lemma_retained_push, lemma_top_unique, retained, top,
};
use crate::selection::{
    lemma_selection_agrees, lemma_selection_all, lemma_selection_len, lemma_selection_map,
    lemma_selection_none, lemma_selection_push, lemma_selection_remove, lemma_selection_source,
    lemma_selection_within, selection,
};
use crate::weighted::WeightedItem;
use vstd::multiset::Multiset;
use vstd::prelude::*;

verus! {

/// How far a reservoir has come. A reservoir only ever moves forward through
/// these phases.
#[derive(Clone, Copy, Debug, PartialEq, Eq, Structural)]
pub enum Phase {
    /// Nothing is held: nothing has arrived yet, or there are no places.
    Empty,
    /// Some places are taken and some are free.
    Filling,
    /// The arrival that took the last free place was the latest one.
    Full,
    /// Every place is taken, and arrivals since have been turned away or
    /// have replaced a held item.
    Replacing,
}

impl Phase {
    /// The place of the phase in the order in which phases follow each
    /// other.
    pub open spec fn step(self) -> nat {
        match self {
            Phase::Empty => 0,
            Phase::Filling => 1,
            Phase::Full => 2,
            Phase::Replacing => 3,
        }
    }
}

/// What a reservoir has been offered so far, and how many places it has.
pub struct Offered<T> {
    /// The number of items the reservoir can hold.
    pub places: nat,
    /// The arrivals so far, in order.
    pub items: Seq<T>,
    /// The weight of each arrival.
    pub weights: Seq<u64>,
}

impl<T> Offered<T> {
    /// The state after one more arrival.
    pub open spec fn offer(self, item: T, weight: u64) -> Self {
        Offered {
            places: self.places,
            items: self.items.push(item),
            weights: self.weights.push(weight),
        }
    }

    /// The arrivals that the reservoir holds.
    pub open spec fn held(self) -> Set<int> {
        retained(self.weights, self.places)
    }

    /// The items that the reservoir holds.
    pub open spec fn sample(self) -> Multiset<T> {
        selection(self.items, self.held())
    }

    /// The number of items that the reservoir holds.
    pub open spec fn size(self) -> nat {
        if self.items.len() <= self.places {
            self.items.len()
        } else {
            self.places
        }
    }

    /// The phase that the reservoir is in.
    pub open spec fn phase(self) -> Phase {
        if self.places == 0 || self.items.len() == 0 {
            Phase::Empty
        } else if self.items.len() < self.places {
            Phase::Filling
        } else if self.items.len() == self.places {
            Phase::Full
        } else {
            Phase::Replacing
        }
    }

    /// Every arrival has its weight.
    pub open spec fn wf(self) -> bool {
        self.items.len() == self.weights.len()
    }

    /// No arrival takes the reservoir back to an earlier phase.
    pub proof fn lemma_phase_moves_forward(self, item: T, weight: u64)
        ensures
            self.phase().step() <= self.offer(item, weight).phase().step(),
    {
    }

    /// The sample has `places` items, or all the arrivals if they are fewer.
    pub proof fn lemma_sample_size(self)
        requires
            self.wf(),
        ensures
            self.sample().len() == self.size(),
    {
        lemma_retained_lowest(self.weights, self.places);
        lemma_selection_len(self.items, self.held());
    }

    /// The sample is drawn from the arrivals: it holds nothing else, and
    /// nothing more often than it arrived.
    pub proof fn lemma_sample_within(self)
        ensures
            self.sample().subset_of(self.items.to_multiset()),
    {
        lemma_selection_within(self.items, self.held());
    }

    /// Of a stream that fits into the reservoir, the sample is the whole.
    pub proof fn lemma_short_stream_kept_whole(self)
        requires
            self.wf(),
            self.items.len() <= self.places,
        ensures
            self.sample() == self.items.to_multiset(),
    {
        lemma_retained_lowest(self.weights, self.places);
        lemma_selection_all(self.items, self.held());
    }

    /// A reservoir without places holds nothing, whatever arrives.
    pub proof fn lemma_no_places_no_sample(self)
        requires
            self.places == 0,
        ensures
            self.sample() == Multiset::<T>::empty(),
    {
        lemma_retained_lowest(self.weights, self.places);
        lemma_selection_none(self.items, self.held());
    }

    /// Of an empty stream the sample is empty, whatever the number of places.
    pub proof fn lemma_empty_stream_no_sample(self)
        requires
            self.items.len() == 0,
        ensures
            self.sample() == Multiset::<T>::empty(),
    {
    }
}

/// The arrivals as the reservoir stores them: each item with its weight and
/// its position in the stream.
spec fn entries<T>(items: Seq<T>, weights: Seq<u64>) -> Seq<WeightedItem<T>> {
    Seq::new(
        items.len(),
        |i: int| WeightedItem { item: items[i], weight: weights[i], arrival: i as u64 },
    )
}

/// Takes the item out of an entry.
spec fn bare<T>() -> spec_fn(WeightedItem<T>) -> T {
    |e: WeightedItem<T>| e.item
}

/// A reservoir of a fixed number of places.
pub struct Reservoir<T> {
    capacity: usize,
    heap: MaxHeap<T>,
    arrivals: u64,
    items: Ghost<Seq<T>>,
    weights: Ghost<Seq<u64>>,
}

impl<T> View for Reservoir<T> {
    type V = Offered<T>;

    closed spec fn view(&self) -> Offered<T> {
        Offered { places: self.capacity as nat, items: self.items@, weights: self.weights@ }
    }
}

impl<T> Reservoir<T> {
    /// Every arrival has its weight, and what is stored is what the view
    /// says.
    pub open spec fn wf(&self) -> bool {
        &&& self@.wf()
        &&& self.stores_held()
    }

    /// The heap holds exactly the arrivals that the policy retains, each with
    /// its weight and position.
    pub closed spec fn stores_held(&self) -> bool {
        &&& self.heap.wf()
        &&& self.items@.len() == self.arrivals
        &&& self.heap@ == selection(entries(self.items@, self.weights@), self@.held())
        &&& self.heap@.len() == self@.size()
    }

    /// An empty reservoir of `k` places.
    pub fn new(k: usize) -> (reservoir: Self)
        ensures
            reservoir.wf(),
            reservoir@ == (Offered {
                places: k as nat,
                items: Seq::<T>::empty(),
                weights: Seq::<u64>::empty(),
            }),
    {
        Reservoir {
            capacity: k,
            heap: MaxHeap::new(),
            arrivals: 0,
            items: Ghost(Seq::empty()),
            weights: Ghost(Seq::empty()),
        }
    }

    /// The number of places.
    pub fn capacity(&self) -> (k: usize)
        ensures
            k == self@.places,
    {
        self.capacity
    }

    /// The number of items held.
    pub fn len(&self) -> (n: usize)
        requires
            self.wf(),
        ensures
            n == self@.size(),
    {
        self.heap.len()
    }

    /// The number of arrivals so far.
    pub fn arrivals(&self) -> (n: u64)
        requires
            self.wf(),
        ensures
            n == self@.items.len(),
    {
        self.arrivals
    }

    /// The phase that the reservoir is in.
    pub fn phase(&self) -> (phase: Phase)
        requires
            self.wf(),
        ensures
            phase == self@.phase(),
    {
        if self.capacity == 0 || self.arrivals == 0 {
            Phase::Empty
        } else if self.heap.len() < self.capacity {
            Phase::Filling
        } else if self.arrivals <= self.capacity as u64 {
            Phase::Full
        } else {
            Phase::Replacing
        }
    }

    /// The greatest weight held, if anything is held: the weight that an
    /// arrival must not exceed to get into a full reservoir.
    pub fn max_weight(&self) -> (max: Option<u64>)
        requires
            self.wf(),
        ensures
            match max {
                Some(weight) => {
                    &&& self@.size() > 0
                    &&& weight == self@.weights[top(self@.weights, self@.held())]
                },
                None => self@.size() == 0,
            },
    {
        match self.heap.peek() {
            Some(greatest) => {
                proof {
                    Self::lemma_greatest_is_top(self@, *greatest);
                }
                Some(greatest.weight)
            },
            None => None,
        }
    }

    /// Offers the next arrival of the stream, with the weight drawn for it.
    ///
    /// While there is a free place the item takes it. Once the reservoir is
    /// full, an item whose weight is greater than every weight held is
    /// dropped; any other replaces the held item of the greatest weight (of
    /// several such items, the one that arrived first).
    ///
    /// Arrivals are numbered in 64 bits, which bounds their number.
    pub fn offer(&mut self, item: T, weight: u64)
        requires
            old(self).wf(),
            old(self)@.items.len() < u64::MAX,
        ensures
            final(self).wf(),
            final(self)@ == old(self)@.offer(item, weight),
    {
        let ghost before = self@;
        let ghost after = self@.offer(item, weight);
        let ghost stored = entries(before.items, before.weights);
        let entry = WeightedItem { item, weight, arrival: self.arrivals };
        proof {
            lemma_retained_push(before.weights, weight, before.places);
            lemma_retained_lowest(before.weights, before.places);
            assert(entries(after.items, after.weights) =~= stored.push(entry));
            lemma_selection_push(stored, entry, after.held());
        }
        if self.heap.len() < self.capacity {
            proof {
                lemma_selection_agrees(stored, before.held(), after.held());
            }
            self.heap.push(entry);
        } else if self.capacity > 0 {
            let replace = match self.heap.peek() {
                Some(greatest) => {
                    proof {
                        Self::lemma_greatest_is_top(before, *greatest);
                    }
                    weight <= greatest.weight
                },
                None => false,
            };
            if replace {
                let gone = self.heap.pop();
                proof {
                    let t = top(after.weights, before.held());
                    Self::lemma_greatest_is_top(before, gone->0);
                    lemma_selection_remove(stored, before.held(), t);
                    lemma_selection_agrees(stored, before.held().remove(t), after.held());
                }
                self.heap.push(entry);
            } else {
                proof {
                    lemma_selection_agrees(stored, before.held(), after.held());
                }
            }
        } else {
            proof {
                lemma_selection_agrees(stored, before.held(), after.held());
            }
        }
        self.arrivals = self.arrivals + 1;
        self.items = Ghost(after.items);
        self.weights = Ghost(after.weights);
    }

    /// Ends the sampling and hands out the items held, in no particular
    /// order.
    pub fn into_sample(self) -> (sample: Vec<T>)
        requires
            self.wf(),
        ensures
            sample@.to_multiset() == self@.sample(),
            sample@.len() == self@.size(),
    {
        let stored = self.heap.into_vec();
        let ghost held = stored@;
        let ghost item_of = bare::<T>();
        let mut sample: Vec<T> = Vec::new();
        for entry in it: stored
            invariant
                it.seq() == held,
                item_of == bare::<T>(),
                sample@ == held.take(it.index()).map_values(item_of),
        {
            proof {
                let i = it.index();
                assert(held.take(i + 1).map_values(item_of) =~= held.take(i).map_values(
                    item_of,
                ).push(item_of(held[i])));
            }
            sample.push(entry.item);
        }
        proof {
            let all = entries(self@.items, self@.weights);
            assert(held.take(held.len() as int) =~= held);
            lemma_selection_map(held, all, self@.held(), item_of);
            assert(all.map_values(item_of) =~= self@.items);
            held.to_multiset_ensures();
        }
        sample
    }

    /// The item that the heap would give up is the top of the held arrivals
    /// in the sense of the policy, also once one more weight has been drawn.
    proof fn lemma_greatest_is_top(before: Offered<T>, greatest: WeightedItem<T>)
        requires
            before.items.len() == before.weights.len(),
            before.items.len() <= u64::MAX,
            is_greatest(
                greatest,
                selection(entries(before.items, before.weights), before.held()),
            ),
        ensures
            0 <= top(before.weights, before.held()) < before.items.len(),
            before.held().contains(top(before.weights, before.held())),
            entries(before.items, before.weights)[top(before.weights, before.held())] == greatest,
            forall|w: u64| #[trigger]
                top(before.weights.push(w), before.held()) == top(before.weights, before.held()),
    {
        let stored = entries(before.items, before.weights);
        let held = before.held();
        let t = lemma_selection_source(stored, held, greatest);
        lemma_retained_lowest(before.weights, before.places);
        assert forall|j: int| held.contains(j) && j != t implies !stored[j].outranks(greatest) by {
            lemma_selection_remove(stored, held, j);
        }
        lemma_top_unique(before.weights, held, t);
        assert forall|w: u64| #[trigger] top(before.weights.push(w), held) == t by {
            lemma_top_unique(before.weights.push(w), held, t);
        }
    }
}

} // verus!
