//! Uniform random sampling of `k` items from a stream of unknown length, in
//! one pass and with `O(k)` memory.
//!
//! Every arrival of the stream is given a random weight, and the sample is
//! made of the `k` arrivals that rank lowest by weight. As the weights are
//! drawn independently of the items and of each other, every item of a stream
//! of `n` items ends up in the sample with the same chance, `k / n`, however
//! long the stream is and in whatever order it arrives.
//!
//! A weight is a `u64`, so any two weights compare. Two arrivals can draw the
//! same weight; the later one then ranks lower, so an arrival that ties with
//! the greatest weight held gets in, and the earliest of the held items with
//! that weight gives way.
//!
//! - [`sampling`] samples from an iterator: [`reservoir_sample`] and its
//!   variants for a stream that can fail and for weights of the caller's.
//! - [`reservoir`] is the working set behind them, offered one arrival at a
//!   time together with its weight.
//! - [`policy`] says, as a function of the weights alone, which arrivals a
//!   reservoir holds, and proves that they are the ones that rank lowest.
//! - [`selection`] turns a set of positions into the bag of items found
//!   there.
//! - [`heap`] is the max-heap that finds the item to give way.
//! - [`weighted`] is an item with its weight.
//! - [`weights`] is where the weights come from.

pub mod heap;
pub mod policy;
pub mod reservoir;
pub mod sampling;
pub mod selection;
pub mod weighted;
pub mod weights;

pub use sampling::reservoir_sample;
