//! Read-only projections of the heap's contents: snapshots in bucket order,
//! key-sorted snapshots, and the key and value columns of the latter.

use vstd::prelude::*;
use vstd::pervasive::VecAdditionalExecFns;
use vstd::seq_lib::group_to_multiset_ensures;
use vstd::multiset::group_multiset_axioms;
use crate::heap::RadixHeap;
use crate::heap::flat_of;

verus! {

/// Entries ordered by key: no entry's key exceeds a later entry's key.
pub open spec fn sorted_by_key<V>(s: Seq<(u32, V)>) -> bool {
    forall|a: int, b: int| 0 <= a < b < s.len() ==> (#[trigger] s[a]).0 <= (#[trigger] s[b]).0
}

/// Sorts entries by key in place, by insertion sort; keeps the same multiset
/// of entries. Which of two equal-keyed entries comes first is left open.
#[verifier::loop_isolation(false)]
fn sort_entries<V: Copy>(v: &mut Vec<(u32, V)>)
    ensures
        final(v)@.len() == old(v)@.len(),
        final(v)@.to_multiset() == old(v)@.to_multiset(),
        sorted_by_key(final(v)@),
{
    broadcast use group_to_multiset_ensures;
    broadcast use group_multiset_axioms;

    let mut i: usize = 1;
    while i < v.len()
        invariant
            1 <= i,
            v@.len() == old(v)@.len(),
            v@.to_multiset() == old(v)@.to_multiset(),
            forall|a: int, b: int| 0 <= a < b < i && b < v@.len() ==> (#[trigger] v@[a]).0 <= (
            #[trigger] v@[b]).0,
        decreases v@.len() - i,
    {
        let mut j: usize = i;
        while j > 0 && v[j - 1].0 > v[j].0
            invariant
                j <= i < v@.len(),
                v@.len() == old(v)@.len(),
                v@.to_multiset() == old(v)@.to_multiset(),
                forall|a: int, b: int| 0 <= a < b <= i && b != j ==> (#[trigger] v@[a]).0 <= (
                #[trigger] v@[b]).0,
            decreases j,
        {
            let ghost before = v@;
            let x = v[j - 1];
            let y = v[j];
            v.set(j - 1, y);
            v.set(j, x);
            proof {
                assert(v@ =~= before.update(j - 1, y).update(j as int, x));
                assert(v@.to_multiset() =~= before.to_multiset());
            }
            j -= 1;
        }
        proof {
            assert forall|a: int, b: int| 0 <= a < b <= i implies (#[trigger] v@[a]).0 <= (
            #[trigger] v@[b]).0 by {
                if b == j as int && j > 0 {
                    assert(v@[j - 1].0 <= v@[j as int].0);
                    if a < j - 1 {
                        assert(v@[a].0 <= v@[j - 1].0);
                    }
                }
            }
        }
        i += 1;
    }
}

impl<V: Copy> RadixHeap<V> {
    /// A snapshot of all stored entries in bucket order (class 0 through 32),
    /// each bucket's entries in insertion order — not sorted by key.
    #[verifier::loop_isolation(false)]
    pub fn tuples(&self) -> (r: Vec<(u32, V)>)
        ensures
            r@ == self.entries(),
    {
        let mut out: Vec<(u32, V)> = Vec::new();
        let mut i: usize = 0;
        proof {
            assert(out@ =~= flat_of(self.buckets@.subrange(0, 0)));
        }
        while i < self.buckets.len()
            invariant
                i <= self.buckets@.len(),
                out@ == flat_of(self.buckets@.subrange(0, i as int)),
            decreases self.buckets@.len() - i,
        {
            let ghost pre = out@;
            let mut j: usize = 0;
            while j < self.buckets[i].items.len()
                invariant
                    i < self.buckets@.len(),
                    j <= self.buckets@[i as int].items@.len(),
                    out@ == pre + self.buckets@[i as int].items@.subrange(0, j as int),
                decreases self.buckets@[i as int].items@.len() - j,
            {
                out.push(self.buckets[i].items[j]);
                proof {
                    assert(self.buckets@[i as int].items@.subrange(0, j + 1) =~= self.buckets@[
                        i as int
                    ].items@.subrange(0, j as int).push(self.buckets@[i as int].items@[j as int]));
                    assert(out@ =~= pre + self.buckets@[i as int].items@.subrange(0, j + 1));
                }
                j += 1;
            }
            proof {
                assert(self.buckets@.subrange(0, i + 1).drop_last() =~= self.buckets@.subrange(
                    0,
                    i as int,
                ));
                assert(self.buckets@[i as int].items@.subrange(
                    0,
                    self.buckets@[i as int].items@.len() as int,
                ) =~= self.buckets@[i as int].items@);
                assert(out@ == flat_of(self.buckets@.subrange(0, i + 1)));
            }
            i += 1;
        }
        proof {
            assert(self.buckets@.subrange(0, self.buckets@.len() as int) =~= self.buckets@);
        }
        out
    }

    /// The stored entries sorted by key. Which of two equal-keyed entries
    /// comes first is left open.
    pub fn sorted_tuples(&self) -> (r: Vec<(u32, V)>)
        ensures
            r@.len() == self.entries().len(),
            r@.to_multiset() == self.entries().to_multiset(),
            sorted_by_key(r@),
    {
        proof {
            broadcast use group_to_multiset_ensures;

        }
        let mut coll = self.tuples();
        sort_entries(&mut coll);
        coll
    }

    /// The stored keys in non-decreasing order: the key column of some
    /// key-sorted arrangement of the stored entries.
    #[verifier::loop_isolation(false)]
    pub fn keys(&self) -> (r: Vec<u32>)
        ensures
            r@.len() == self.entries().len(),
            forall|a: int, b: int| 0 <= a < b < r@.len() ==> r@[a] <= r@[b],
            exists|s: Seq<(u32, V)>|
                sorted_by_key(s) && s.to_multiset() == self.entries().to_multiset() && r@
                    == s.map_values(|e: (u32, V)| e.0),
    {
        let st = self.sorted_tuples();
        let mut out: Vec<u32> = Vec::new();
        let mut i: usize = 0;
        while i < st.len()
            invariant
                i <= st@.len(),
                out@.len() == i as int,
                forall|t: int| 0 <= t < i ==> out@[t] == (#[trigger] st@[t]).0,
            decreases st@.len() - i,
        {
            out.push(st[i].0);
            i += 1;
        }
        proof {
            assert(out@ =~= st@.map_values(|e: (u32, V)| e.0));
        }
        out
    }

    /// The stored values, ordered by their keys: the value column of some
    /// key-sorted arrangement of the stored entries.
    #[verifier::loop_isolation(false)]
    pub fn values(&self) -> (r: Vec<V>)
        ensures
            r@.len() == self.entries().len(),
            exists|s: Seq<(u32, V)>|
                sorted_by_key(s) && s.to_multiset() == self.entries().to_multiset() && r@
                    == s.map_values(|e: (u32, V)| e.1),
    {
        let st = self.sorted_tuples();
        let mut out: Vec<V> = Vec::new();
        let mut i: usize = 0;
        while i < st.len()
            invariant
                i <= st@.len(),
                out@.len() == i as int,
                forall|t: int| 0 <= t < i ==> out@[t] == (#[trigger] st@[t]).1,
            decreases st@.len() - i,
        {
            out.push(st[i].1);
            i += 1;
        }
        proof {
            assert(out@ =~= st@.map_values(|e: (u32, V)| e.1));
        }
        out
    }
}

} // verus!
