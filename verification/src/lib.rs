//! A bucket sort for vectors of 32-bit integers.
//!
//! The sort plans a set of value-range buckets from the extremes of the
//! input, routes every element to its bucket, sorts each bucket on its own,
//! and concatenates the buckets in index order. The bucket work runs on
//! rayon's parallel iterators; everything around those calls is verified:
//! the output is sorted ascending and holds exactly the multiset of values
//! of the input.

pub mod buckets;
pub mod order;
pub mod parallel;
pub mod plan;

pub use buckets::bucket_sort;
pub use order::is_sorted;
