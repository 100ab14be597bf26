//! An item paired with the random weight that decides whether it stays in a
//! sample.

use vstd::prelude::*;

verus! {

/// One arrival of a stream: the item, the weight drawn for it, and its
/// position in the stream.
///
/// The weight is an integer, so any two weights compare. Two arrivals of one
/// stream never share a position, which makes the order below total even when
/// two weights collide.
pub struct WeightedItem<T> {
    pub item: T,
    pub weight: u64,
    pub arrival: u64,
}

impl<T> WeightedItem<T> {
    /// `self` ranks above `other`: it has the greater weight, or the same
    /// weight and arrived earlier.
    pub open spec fn outranks(self, other: Self) -> bool {
        self.weight > other.weight || (self.weight == other.weight && self.arrival < other.arrival)
    }

    /// Decides [`WeightedItem::outranks`].
    pub fn ranks_above(&self, other: &Self) -> (above: bool)
        ensures
            above == self.outranks(*other),
    {
        self.weight > other.weight || (self.weight == other.weight && self.arrival < other.arrival)
    }
}

} // verus!
