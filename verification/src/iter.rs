//! Index-based traversal of a bucket's entries and of the heap's buckets,
//! over a borrowed or an owned container.

use vstd::prelude::*;
use crate::bucket::Bucket;
use crate::heap::RadixHeap;

verus! {

/// Walks the entries of a borrowed bucket in insertion order.
pub struct BucketIter<'a, V> {
    pub container: &'a Bucket<V>,
    pub index: usize,
}

impl<'a, V: Copy> BucketIter<'a, V> {
    /// The next entry, or absent once every entry has been handed out.
    pub fn next(&mut self) -> (r: Option<(u32, V)>)
        ensures
            final(self).container == old(self).container,
            old(self).index < old(self).container.items@.len() ==> r == Some(
                old(self).container.items@[old(self).index as int],
            ) && final(self).index == old(self).index + 1,
            old(self).index >= old(self).container.items@.len() ==> r is None && final(self).index
                == old(self).index,
    {
        if self.index >= self.container.items.len() {
            None
        } else {
            self.index += 1;
            Some(self.container.items[self.index - 1])
        }
    }
}

/// Walks the entries of an owned bucket in insertion order.
pub struct IntoBucketIter<V> {
    pub container: Bucket<V>,
    pub index: usize,
}

impl<V: Copy> IntoBucketIter<V> {
    /// The next entry, or absent once every entry has been handed out.
    pub fn next(&mut self) -> (r: Option<(u32, V)>)
        ensures
            final(self).container == old(self).container,
            old(self).index < old(self).container.items@.len() ==> r == Some(
                old(self).container.items@[old(self).index as int],
            ) && final(self).index == old(self).index + 1,
            old(self).index >= old(self).container.items@.len() ==> r is None && final(self).index
                == old(self).index,
    {
        if self.index >= self.container.items.len() {
            None
        } else {
            self.index += 1;
            Some(self.container.items[self.index - 1])
        }
    }
}

/// Walks the buckets of a borrowed heap in class order.
pub struct RadixBucketIter<'a, V> {
    pub container: &'a RadixHeap<V>,
    pub index: usize,
}

impl<'a, V: Copy> RadixBucketIter<'a, V> {
    /// The next bucket, or absent once all 33 have been handed out.
    pub fn next(&mut self) -> (r: Option<&'a Bucket<V>>)
        ensures
            final(self).container == old(self).container,
            old(self).index < old(self).container.buckets@.len() ==> ({
                &&& r matches Some(b) && *b == old(self).container.buckets@[old(self).index as int]
                &&& final(self).index == old(self).index + 1
            }),
            old(self).index >= old(self).container.buckets@.len() ==> r is None && final(self).index
                == old(self).index,
    {
        if self.index >= self.container.buckets.len() {
            None
        } else {
            self.index += 1;
            Some(&self.container.buckets[self.index - 1])
        }
    }
}

/// Walks the buckets of an owned heap in class order, handing out
/// entry-for-entry copies.
pub struct IntoRadixBucketIter<V> {
    pub container: RadixHeap<V>,
    pub index: usize,
}

impl<V: Copy> IntoRadixBucketIter<V> {
    /// The next bucket, or absent once all 33 have been handed out.
    pub fn next(&mut self) -> (r: Option<Bucket<V>>)
        ensures
            final(self).container == old(self).container,
            old(self).index < old(self).container.buckets@.len() ==> ({
                let src = old(self).container.buckets@[old(self).index as int];
                &&& r matches Some(b) && b.index == src.index && b.top == src.top && b.items@
                    == src.items@
                &&& final(self).index == old(self).index + 1
            }),
            old(self).index >= old(self).container.buckets@.len() ==> r is None && final(self).index
                == old(self).index,
    {
        if self.index >= self.container.buckets.len() {
            None
        } else {
            self.index += 1;
            Some(self.container.buckets[self.index - 1].duplicate())
        }
    }
}

impl<V: Copy> Bucket<V> {
    /// A borrowing iterator over the entries, in insertion order.
    pub fn iter(&self) -> (it: BucketIter<'_, V>)
        ensures
            it.container == self,
            it.index == 0,
    {
        BucketIter { container: self, index: 0 }
    }

    /// A consuming iterator over the entries, in insertion order.
    pub fn into_iter(self) -> (it: IntoBucketIter<V>)
        ensures
            it.container == self,
            it.index == 0,
    {
        IntoBucketIter { container: self, index: 0 }
    }
}

impl<V: Copy> RadixHeap<V> {
    /// A borrowing iterator over the 33 buckets, in class order.
    pub fn bucket_iter(&self) -> (it: RadixBucketIter<'_, V>)
        ensures
            it.container == self,
            it.index == 0,
    {
        RadixBucketIter { container: self, index: 0 }
    }

    /// A consuming iterator over the 33 buckets, in class order.
    pub fn into_iter(self) -> (it: IntoRadixBucketIter<V>)
        ensures
            it.container == self,
            it.index == 0,
    {
        IntoRadixBucketIter { container: self, index: 0 }
    }
}

} // verus!
