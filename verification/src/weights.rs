//! Where the weights of the arrivals come from.

use rand::Rng;
use vstd::prelude::*;

verus! {

/// A source of weights, one per arrival.
///
/// For a sample to be uniform the weights have to be independent draws from
/// one distribution in which two draws are almost never equal. Nothing is
/// asked of an implementation here, and what the samplers promise holds for
/// any weights whatever.
pub trait WeightSource {
    /// Draws the next weight.
    fn next_weight(&mut self) -> u64;
}

/// Weights from the random number generator of the current thread.
pub struct ThreadWeights {}

impl ThreadWeights {
    /// A source that draws from the generator of the current thread.
    pub fn new() -> Self {
        ThreadWeights {}
    }
}

impl WeightSource for ThreadWeights {
    fn next_weight(&mut self) -> u64 {
        pick_weight()
    }
}

/// Draws one weight at random.
///
/// This calls `gen_range` of the `rand` crate on the generator that
/// `rand::thread_rng` hands out, with the range of all `u64` values, in which
/// every value is equally likely. The range is not empty, so `gen_range` does
/// not refuse it. Nothing is promised of the value that comes back.
///
/// The generator belongs to the current thread and is seeded by the operating
/// system when the thread first uses it; `rand` panics there if the system
/// has no randomness to give.
#[verifier::external_body]
fn pick_weight() -> (weight: u64) {
    rand::thread_rng().gen_range(0..=u64::MAX)
}

} // verus!
