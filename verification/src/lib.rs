//! A monotone priority queue ("radix heap") over 32-bit unsigned keys.
//!
//! Entries are grouped into 33 buckets by the distance class of their key
//! relative to a moving baseline: the key of the most recently extracted
//! entry. Extraction always returns an entry with the smallest stored key,
//! and the keys that successive extractions return never decrease, which is what
//! makes the bucket classification sound.

pub mod bucket;
pub mod distance;
pub mod heap;
pub mod iter;
pub mod laws;
pub mod project;

pub use bucket::Bucket;
pub use distance::class_of;
pub use heap::RadixHeap;
pub use iter::BucketIter;
pub use iter::IntoBucketIter;
pub use iter::IntoRadixBucketIter;
pub use iter::RadixBucketIter;
