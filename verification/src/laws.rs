//! The heap's governing laws, proved once over its specification view.

use vstd::prelude::*;
use vstd::seq_lib::lemma_multiset_commutative;
use vstd::seq_lib::group_to_multiset_ensures;
use vstd::multiset::group_multiset_axioms;
use crate::bucket::Bucket;
use crate::bucket::first_min_at;
use crate::bucket::first_min_idx;
use crate::bucket::lemma_first_min_exists;
use crate::distance::class_of;
use crate::distance::lemma_class_order;
use crate::heap::RadixHeap;
use crate::heap::flat_of;
use crate::heap::lemma_first_nonempty_from;
use crate::heap::lemma_flat_all_empty;
use crate::heap::lemma_flat_decompose;

verus! {

/// Every entry stored across the buckets is an entry of one of the buckets.
proof fn lemma_flat_membership<V>(s: Seq<Bucket<V>>, p: int)
    requires
        0 <= p < flat_of(s).len(),
    ensures
        exists|i: int, j: int|
            0 <= i < s.len() && 0 <= j < s[i].items@.len() && flat_of(s)[p] == (
            #[trigger] s[i].items@[j]),
    decreases s.len(),
{
    let d = s.drop_last();
    let fd = flat_of(d);
    if p < fd.len() {
        lemma_flat_membership(d, p);
        let (i, j) = choose|i: int, j: int|
            0 <= i < d.len() && 0 <= j < d[i].items@.len() && fd[p] == (#[trigger] d[i].items@[j]);
        assert(d[i] == s[i]);
        assert(flat_of(s)[p] == s[i].items@[j]);
    } else {
        let i = s.len() - 1;
        let j = p - fd.len();
        assert(flat_of(s)[p] == s[i].items@[j]);
    }
}

/// What peek reports and what extraction removes is a minimal stored entry:
/// the pair is stored, its key is at least the baseline, and no stored entry
/// has a smaller key. Together with extraction's contract, which removes
/// exactly this pair from the stored multiset, this is why draining a heap
/// hands back the inserted multiset in non-decreasing key order.
pub proof fn lemma_min_pair_is_minimum<V: Copy>(h: RadixHeap<V>, e: (u32, V))
    requires
        h.wf(),
        h.min_pair() == Some(e),
    ensures
        h.toplast <= e.0,
        h.entries().to_multiset().contains(e),
        forall|p: int| 0 <= p < h.entries().len() ==> e.0 <= (#[trigger] h.entries()[p]).0,
{
    broadcast use group_to_multiset_ensures;
    broadcast use group_multiset_axioms;

    let s = h.buckets@;
    lemma_first_nonempty_from(s, 0);
    let b = h.first_nonempty();
    if b == s.len() as int {
        lemma_flat_all_empty(s);
        assert(false);
    }
    let items = s[b].items@;
    lemma_first_min_exists(items);
    let i0 = first_min_idx(items);
    assert(e == items[i0]);
    assert(h.toplast <= e.0);
    lemma_flat_decompose(s, b);
    let a = s.subrange(0, b);
    let c = s.subrange(b + 1, s.len() as int);
    lemma_multiset_commutative(flat_of(a) + items, flat_of(c));
    lemma_multiset_commutative(flat_of(a), items);
    assert(items.contains(e));
    assert(h.entries().to_multiset().count(e) > 0);
    assert forall|p: int| 0 <= p < h.entries().len() implies e.0 <= (
    #[trigger] h.entries()[p]).0 by {
        lemma_flat_membership(s, p);
        let (i, j) = choose|i: int, j: int|
            0 <= i < s.len() && 0 <= j < s[i].items@.len() && h.entries()[p] == (
            #[trigger] s[i].items@[j]);
        let f = s[i].items@[j];
        if i < b {
            assert(s[i].items@.len() == 0);
        } else if i == b {
            assert(first_min_at(items, i0));
        } else {
            assert(class_of(e.0, h.toplast) == b);
            assert(class_of(f.0, h.toplast) == i);
            lemma_class_order(e.0, f.0, h.toplast);
        }
    }
}

/// Monotonicity of extraction: the key of the entry that the next extraction
/// returns is at least the baseline. Extraction's contract advances the
/// baseline to the extracted key and no operation ever lowers it, so the keys
/// that successive successful extractions yield never decrease.
pub proof fn lemma_extract_monotone<V: Copy>(h: RadixHeap<V>, e: (u32, V))
    requires
        h.wf(),
        h.min_pair() == Some(e),
    ensures
        h.toplast <= e.0,
{
    lemma_min_pair_is_minimum(h, e);
}

/// Two successive extractions yield keys in order. Extraction's contract sets
/// the baseline of the resulting state to the extracted key `e1`, and the
/// contract of every later operation keeps the baseline at least that high,
/// so any later state `h2` satisfies `e1.0 <= h2.toplast`; whatever the next
/// extraction returns from there has a key at least `e1.0`.
pub proof fn lemma_successive_extractions_ordered<V: Copy>(
    h1: RadixHeap<V>,
    h2: RadixHeap<V>,
    e1: (u32, V),
    e2: (u32, V),
)
    requires
        h1.wf(),
        h1.min_pair() == Some(e1),
        h2.wf(),
        h2.min_pair() == Some(e2),
        e1.0 <= h2.toplast,
    ensures
        e1.0 <= e2.0,
{
    lemma_extract_monotone(h2, e2);
}

} // verus!
