//! A Bloom filter library: a probabilistic set-membership structure that
//! answers "definitely absent" or "possibly present" with sub-linear memory.
//!
//! The crate offers a fixed-capacity [`BloomFilter`] (a bit array plus a
//! double-hashing scheme) and a [`ScalableBloomFilter`] that layers fixed
//! filters of growing capacity and tightening false-positive targets so that
//! an unbounded stream of insertions stays under a target false-positive
//! bound.

mod bits;
mod bloom_filter;
mod double_hasher;
mod errors;
mod hashing;
mod scalable_bloom_filter;
mod sizing;

pub use bloom_filter::BloomFilter;
pub use double_hasher::DoubleHasher;
pub use errors::FilterError;
pub use hashing::HashBuilder;
pub use scalable_bloom_filter::ScalableBloomFilter;
pub use sizing::{optimal_number_of_hash_functions, optimal_required_bits, Fpp};
