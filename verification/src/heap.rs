//! The radix heap: 33 buckets indexed by distance class, a baseline key
//! (`toplast`, the key of the most recently extracted entry) and a running
//! count of stored entries.

use vstd::prelude::*;
use vstd::pervasive::VecAdditionalExecFns;
use vstd::seq_lib::lemma_multiset_commutative;
use vstd::seq_lib::group_to_multiset_ensures;
use vstd::multiset::group_multiset_axioms;
use crate::bucket::Bucket;
use crate::bucket::first_min_idx;
use crate::bucket::min_of;
use crate::bucket::push_top;
use crate::distance::class_index;
use crate::distance::class_of;
use crate::distance::lemma_class_order;
use crate::distance::lemma_class_range;
use crate::distance::lemma_class_stable;

verus! {

/// All entries stored across a sequence of buckets, in bucket order, each
/// bucket's entries in insertion order.
pub open spec fn flat_of<V>(s: Seq<Bucket<V>>) -> Seq<(u32, V)>
    decreases s.len(),
{
    if s.len() == 0 {
        Seq::empty()
    } else {
        flat_of(s.drop_last()) + s.last().items@
    }
}

/// The flattening splits around any one bucket.
pub proof fn lemma_flat_decompose<V>(s: Seq<Bucket<V>>, t: int)
    requires
        0 <= t < s.len(),
    ensures
        flat_of(s) == flat_of(s.subrange(0, t)) + s[t].items@ + flat_of(
            s.subrange(t + 1, s.len() as int),
        ),
    decreases s.len(),
{
    let n = s.len() as int;
    if t == n - 1 {
        assert(s.subrange(0, t) =~= s.drop_last());
        assert(s.subrange(n, n) =~= Seq::<Bucket<V>>::empty());
        assert(flat_of(s) =~= flat_of(s.subrange(0, t)) + s[t].items@ + flat_of(
            s.subrange(t + 1, n),
        ));
    } else {
        let d = s.drop_last();
        lemma_flat_decompose(d, t);
        assert(d.subrange(0, t) =~= s.subrange(0, t));
        assert(d.subrange(t + 1, n - 1) =~= s.subrange(t + 1, n).drop_last());
        assert(s.subrange(t + 1, n).last() == s.last());
        assert(flat_of(s.subrange(t + 1, n)) == flat_of(d.subrange(t + 1, n - 1))
            + s.last().items@);
        assert(flat_of(s) =~= flat_of(s.subrange(0, t)) + s[t].items@ + flat_of(
            s.subrange(t + 1, n),
        ));
    }
}

/// A sequence of empty buckets stores nothing.
pub proof fn lemma_flat_all_empty<V>(s: Seq<Bucket<V>>)
    requires
        forall|j: int| 0 <= j < s.len() ==> (#[trigger] s[j]).items@.len() == 0,
    ensures
        flat_of(s) == Seq::<(u32, V)>::empty(),
    decreases s.len(),
{
    if s.len() > 0 {
        assert(forall|j: int|
            0 <= j < s.drop_last().len() ==> (#[trigger] s.drop_last()[j]).items@.len() == 0);
        lemma_flat_all_empty(s.drop_last());
        assert(flat_of(s) =~= Seq::<(u32, V)>::empty());
    }
}

/// Appending one entry to one bucket grows the stored entries by exactly that
/// entry.
pub proof fn lemma_flat_push_one<V>(s1: Seq<Bucket<V>>, s2: Seq<Bucket<V>>, t: int, e: (u32, V))
    requires
        0 <= t < s1.len(),
        s2.len() == s1.len(),
        forall|i: int| 0 <= i < s1.len() && i != t ==> s2[i] == s1[i],
        s2[t].items@ == s1[t].items@.push(e),
    ensures
        flat_of(s2).len() == flat_of(s1).len() + 1,
        flat_of(s2).to_multiset() == flat_of(s1).to_multiset().insert(e),
{
    broadcast use group_to_multiset_ensures;
    broadcast use group_multiset_axioms;

    let n = s1.len() as int;
    let a = s1.subrange(0, t);
    let b = s1.subrange(t + 1, n);
    let x1 = s1[t].items@;
    let x2 = s2[t].items@;
    lemma_flat_decompose(s1, t);
    lemma_flat_decompose(s2, t);
    assert(s2.subrange(0, t) =~= a);
    assert(s2.subrange(t + 1, n) =~= b);
    lemma_multiset_commutative(flat_of(a) + x1, flat_of(b));
    lemma_multiset_commutative(flat_of(a), x1);
    lemma_multiset_commutative(flat_of(a) + x2, flat_of(b));
    lemma_multiset_commutative(flat_of(a), x2);
    assert(x2.to_multiset() =~= x1.to_multiset().insert(e));
    assert(flat_of(s2).to_multiset() =~= flat_of(s1).to_multiset().insert(e));
}

/// Removing one entry from one bucket shrinks the stored entries by exactly
/// that entry.
pub proof fn lemma_flat_remove_one<V>(s1: Seq<Bucket<V>>, s2: Seq<Bucket<V>>, t: int, i: int)
    requires
        0 <= t < s1.len(),
        s2.len() == s1.len(),
        forall|k: int| 0 <= k < s1.len() && k != t ==> s2[k] == s1[k],
        0 <= i < s1[t].items@.len(),
        s2[t].items@ == s1[t].items@.remove(i),
    ensures
        flat_of(s2).len() == flat_of(s1).len() - 1,
        flat_of(s1).to_multiset().contains(s1[t].items@[i]),
        flat_of(s2).to_multiset() == flat_of(s1).to_multiset().remove(s1[t].items@[i]),
{
    broadcast use group_to_multiset_ensures;
    broadcast use group_multiset_axioms;

    let n = s1.len() as int;
    let a = s1.subrange(0, t);
    let b = s1.subrange(t + 1, n);
    let x1 = s1[t].items@;
    let x2 = s2[t].items@;
    let e = x1[i];
    lemma_flat_decompose(s1, t);
    lemma_flat_decompose(s2, t);
    assert(s2.subrange(0, t) =~= a);
    assert(s2.subrange(t + 1, n) =~= b);
    lemma_multiset_commutative(flat_of(a) + x1, flat_of(b));
    lemma_multiset_commutative(flat_of(a), x1);
    lemma_multiset_commutative(flat_of(a) + x2, flat_of(b));
    lemma_multiset_commutative(flat_of(a), x2);
    assert(x1.contains(e));
    assert(x2.to_multiset() =~= x1.to_multiset().remove(e));
    assert(flat_of(s1).to_multiset().count(e) > 0);
    assert(flat_of(s2).to_multiset() =~= flat_of(s1).to_multiset().remove(e));
}

/// Emptying one bucket removes exactly that bucket's entries.
pub proof fn lemma_flat_drain<V>(s1: Seq<Bucket<V>>, s2: Seq<Bucket<V>>, t: int)
    requires
        0 <= t < s1.len(),
        s2.len() == s1.len(),
        forall|k: int| 0 <= k < s1.len() && k != t ==> s2[k] == s1[k],
        s2[t].items@.len() == 0,
    ensures
        flat_of(s2).len() == flat_of(s1).len() - s1[t].items@.len(),
        flat_of(s2).to_multiset().add(s1[t].items@.to_multiset()) == flat_of(s1).to_multiset(),
{
    broadcast use group_to_multiset_ensures;
    broadcast use group_multiset_axioms;

    let n = s1.len() as int;
    let a = s1.subrange(0, t);
    let b = s1.subrange(t + 1, n);
    let x1 = s1[t].items@;
    let x2 = s2[t].items@;
    lemma_flat_decompose(s1, t);
    lemma_flat_decompose(s2, t);
    assert(s2.subrange(0, t) =~= a);
    assert(s2.subrange(t + 1, n) =~= b);
    lemma_multiset_commutative(flat_of(a) + x1, flat_of(b));
    lemma_multiset_commutative(flat_of(a), x1);
    lemma_multiset_commutative(flat_of(a) + x2, flat_of(b));
    lemma_multiset_commutative(flat_of(a), x2);
    assert(x2 =~= Seq::<(u32, V)>::empty());
    assert(forall|y: (u32, V)| x2.to_multiset().count(y) == 0) by {
        assert(forall|y: (u32, V)| !x2.contains(y));
    }
    assert(flat_of(s2).to_multiset().add(x1.to_multiset()) =~= flat_of(s1).to_multiset());
}

/// The index of the first non-empty bucket at or after `i`, or the length of
/// the sequence when every bucket from `i` on is empty.
pub open spec fn first_nonempty_from<V>(s: Seq<Bucket<V>>, i: int) -> int
    decreases s.len() - i,
{
    if i < 0 || i >= s.len() {
        s.len() as int
    } else if s[i].items@.len() > 0 {
        i
    } else {
        first_nonempty_from(s, i + 1)
    }
}

pub proof fn lemma_first_nonempty_from<V>(s: Seq<Bucket<V>>, i: int)
    requires
        0 <= i <= s.len(),
    ensures
        i <= first_nonempty_from(s, i) <= s.len(),
        first_nonempty_from(s, i) < s.len() ==> s[first_nonempty_from(s, i)].items@.len() > 0,
        forall|j: int| i <= j < first_nonempty_from(s, i) ==> (#[trigger] s[j]).items@.len() == 0,
    decreases s.len() - i,
{
    if i < s.len() && s[i].items@.len() == 0 {
        lemma_first_nonempty_from(s, i + 1);
    }
}

/// A monotone priority queue over 32-bit unsigned keys.
///
/// `toplast` is the baseline: the key of the most recently extracted entry.
/// Every stored key is at least the baseline, and an entry with key `k` sits
/// in the bucket of its distance class `class_of(k, toplast)`.
#[derive(Clone, Debug)]
pub struct RadixHeap<V> {
    pub buckets: Vec<Bucket<V>>,
    pub toplast: u32,
    pub length: usize,
}

impl<V: Copy> RadixHeap<V> {
    /// All stored entries, in bucket order (class 0 through 32), each
    /// bucket's entries in insertion order.
    pub open spec fn entries(self) -> Seq<(u32, V)> {
        flat_of(self.buckets@)
    }

    /// The heap's invariant: 33 well-formed buckets under their own index,
    /// every stored key at least the baseline and in the bucket of its
    /// distance class, and `length` counting all stored entries.
    pub open spec fn wf(self) -> bool {
        &&& self.buckets@.len() == 33
        &&& forall|i: int| 0 <= i < 33 ==> (#[trigger] self.buckets@[i]).wf()
        &&& forall|i: int| 0 <= i < 33 ==> (#[trigger] self.buckets@[i]).index == i
        &&& forall|i: int, j: int|
            0 <= i < 33 && 0 <= j < self.buckets@[i].items@.len() ==> self.toplast <= (
            #[trigger] self.buckets@[i].items@[j]).0 && class_of(
                self.buckets@[i].items@[j].0,
                self.toplast,
            ) == i
        &&& self.length == self.entries().len()
    }

    /// The index of the first non-empty bucket.
    pub open spec fn first_nonempty(self) -> int {
        first_nonempty_from(self.buckets@, 0)
    }

    /// The entry that the next extraction removes and returns, and that a
    /// peek reports: the first minimal entry of the first non-empty bucket,
    /// or absent when the heap is empty.
    pub open spec fn min_pair(self) -> Option<(u32, V)> {
        if self.length == 0 {
            None
        } else {
            Some(min_of(self.buckets@[self.first_nonempty()].items@))
        }
    }

    /// An empty heap. Each of the 33 buckets is pre-sized with the same
    /// capacity hint, and the baseline starts at the smallest key.
    pub fn new(capacity: Option<usize>) -> (h: RadixHeap<V>)
        ensures
            h.wf(),
            h.length == 0,
            h.toplast == 0,
            h.entries() == Seq::<(u32, V)>::empty(),
            forall|i: int| 0 <= i < 33 ==> (#[trigger] h.buckets@[i]).items@.len() == 0,
    {
        let cap = match capacity {
            Some(c) => c,
            None => 0,
        };
        let mut buckets: Vec<Bucket<V>> = Vec::new();
        let mut i: usize = 0;
        while i < 33
            invariant
                i <= 33,
                buckets@.len() == i as int,
                forall|j: int|
                    0 <= j < i ==> (#[trigger] buckets@[j]).index == j && buckets@[j].top is None
                        && buckets@[j].items@.len() == 0 && buckets@[j].wf(),
            decreases 33 - i,
        {
            buckets.push(Bucket::new(i, cap));
            i += 1;
        }
        proof {
            lemma_flat_all_empty(buckets@);
        }
        RadixHeap { buckets, toplast: 0, length: 0 }
    }

    /// Finds the first non-empty bucket of a non-empty heap.
    fn first_nonempty_index(&self) -> (b: usize)
        requires
            self.wf(),
            self.length > 0,
        ensures
            b as int == self.first_nonempty(),
            b < 33,
            self.buckets@[b as int].items@.len() > 0,
            forall|j: int| 0 <= j < b ==> (#[trigger] self.buckets@[j]).items@.len() == 0,
    {
        let mut b: usize = 0;
        while b < 33
            invariant
                self.wf(),
                b <= 33,
                forall|j: int| 0 <= j < b ==> (#[trigger] self.buckets@[j]).items@.len() == 0,
            decreases 33 - b,
        {
            if self.buckets[b].items.len() > 0 {
                proof {
                    lemma_first_nonempty_from(self.buckets@, 0);
                    let r = first_nonempty_from(self.buckets@, 0);
                    if r < b as int {
                        assert(self.buckets@[r].items@.len() == 0);
                    }
                    if r > b as int {
                        assert(self.buckets@[b as int].items@.len() == 0);
                    }
                }
                return b;
            }
            b += 1;
        }
        proof {
            lemma_flat_all_empty(self.buckets@);
            assert(false);
        }
        0
    }

    /// Inserts `(key, val)` into the bucket of the key's distance class.
    /// Rejects, and changes nothing, exactly when `key` lies below the
    /// baseline, the one reportable error of the heap.
    pub fn push(&mut self, key: u32, val: V) -> (r: Result<(), &'static str>)
        requires
            old(self).wf(),
            old(self).length < usize::MAX,
        ensures
            final(self).wf(),
            r is Err <==> key < old(self).toplast,
            r is Err ==> *final(self) == *old(self),
            r is Ok ==> ({
                let t = class_of(key, old(self).toplast);
                &&& final(self).toplast == old(self).toplast
                &&& final(self).length == old(self).length + 1
                &&& final(self).buckets@.len() == 33
                &&& forall|i: int|
                    0 <= i < 33 && i != t ==> final(self).buckets@[i] == old(self).buckets@[i]
                &&& final(self).buckets@[t].items@ == old(self).buckets@[t].items@.push(
                    (key, val),
                )
                &&& final(self).buckets@[t].top == push_top(old(self).buckets@[t].top, key, val)
                &&& final(self).entries().to_multiset() == old(self).entries().to_multiset().insert(
                    (key, val),
                )
            }),
    {
        if key < self.toplast {
            return Err("key too small");
        }
        proof {
            lemma_class_range(key, self.toplast);
        }
        let t = class_index(key, self.toplast);
        let ghost s0 = self.buckets@;
        let mut bkt = Bucket::new(t, 0);
        self.buckets.set_and_swap(t, &mut bkt);
        let _ = bkt.push(key, val);
        self.buckets.set_and_swap(t, &mut bkt);
        self.length = self.length + 1;
        proof {
            assert(self.buckets@ =~= s0.update(t as int, self.buckets@[t as int]));
            lemma_flat_push_one(s0, self.buckets@, t as int, (key, val));
        }
        Ok(())
    }

    /// Removes and returns an entry with the smallest stored key, or absent
    /// when the heap is empty. The baseline advances to the extracted key,
    /// and when the source bucket still holds entries they are drained and
    /// re-inserted under the new baseline, each landing in its new distance
    /// class.
    #[verifier::loop_isolation(false)]
    pub fn pop(&mut self) -> (r: Option<(u32, V)>)
        requires
            old(self).wf(),
        ensures
            final(self).wf(),
            r == old(self).min_pair(),
            r is None <==> old(self).length == 0,
            old(self).length == 0 ==> *final(self) == *old(self),
            r matches Some(e) ==> {
                &&& old(self).toplast <= e.0
                &&& final(self).toplast == e.0
                &&& final(self).length == old(self).length - 1
                &&& old(self).entries().to_multiset().contains(e)
                &&& final(self).entries().to_multiset() == old(self).entries().to_multiset().remove(
                    e,
                )
            },
    {
        if self.length == 0 {
            return None;
        }
        let b = self.first_nonempty_index();
        let ghost s0 = self.buckets@;
        let ghost base = self.toplast;
        let ghost ll = self.length as int;
        let ghost nb = s0[b as int].items@.len() as int;
        let ghost i0 = first_min_idx(s0[b as int].items@);
        let mut bkt = Bucket::new(b, 0);
        self.buckets.set_and_swap(b, &mut bkt);
        let popped = bkt.pop();
        match popped {
            None => {
                proof {
                    assert(false);
                }
                None
            },
            Some(e) => {
                proof {
                    crate::bucket::lemma_first_min_exists(s0[b as int].items@);
                    assert(e == s0[b as int].items@[i0]);
                    assert(base <= e.0 && class_of(e.0, base) == b as int);
                }
                if b == 0 {
                    self.buckets.set_and_swap(0, &mut bkt);
                    self.length = self.length - 1;
                    proof {
                        assert(self.buckets@ =~= s0.update(0, self.buckets@[0]));
                        lemma_flat_remove_one(s0, self.buckets@, 0, i0);
                        lemma_class_range(e.0, base);
                        assert(e.0 == base);
                        assert forall|i: int, j: int|
                            0 <= i < 33 && 0 <= j < self.buckets@[i].items@.len() implies
                            self.toplast <= (#[trigger] self.buckets@[i].items@[j]).0 && class_of(
                                self.buckets@[i].items@[j].0,
                                self.toplast,
                            ) == i by {
                            if i == 0 {
                                if j < i0 {
                                    assert(self.buckets@[0].items@[j] == s0[0].items@[j]);
                                } else {
                                    assert(self.buckets@[0].items@[j] == s0[0].items@[j + 1]);
                                }
                            }
                        }
                    }
                    Some(e)
                } else {
                    self.toplast = e.0;
                    let drained = bkt.length();
                    proof {
                        lemma_flat_decompose(s0, b as int);
                        assert(ll >= nb);
                    }
                    self.length = self.length - 1 - drained;
                    let ghost rem = s0[b as int].items@.remove(i0);
                    proof {
                        assert(bkt.items@ == rem);
                        // the heap without bucket b is well-formed under the
                        // advanced baseline
                        assert forall|i: int, j: int|
                            0 <= i < 33 && 0 <= j < self.buckets@[i].items@.len() implies
                            self.toplast <= (#[trigger] self.buckets@[i].items@[j]).0 && class_of(
                                self.buckets@[i].items@[j].0,
                                self.toplast,
                            ) == i by {
                            assert(self.buckets@[i] == s0[i] || i == b as int);
                            if i != b as int {
                                let k = self.buckets@[i].items@[j].0;
                                assert(base <= k && class_of(k, base) == i);
                                assert(i > b as int);
                                lemma_class_order(e.0, k, base);
                                lemma_class_stable(k, e.0, base);
                            }
                        }
                        assert(self.buckets@ =~= s0.update(b as int, self.buckets@[b as int]));
                        lemma_flat_drain(s0, self.buckets@, b as int);
                        assert(self.wf());
                    }
                    let ghost dm = self.entries().to_multiset();
                    let ghost l1 = self.length as int;
                    proof {
                        broadcast use group_to_multiset_ensures;
                        broadcast use group_multiset_axioms;

                        assert(rem.to_multiset() == s0[b as int].items@.to_multiset().remove(e));
                        assert(s0[b as int].items@.contains(e));
                        assert(dm.add(rem.to_multiset()) =~= flat_of(s0).to_multiset().remove(e));
                        assert(flat_of(s0).to_multiset().contains(e));
                    }
                    let mut j: usize = 0;
                    while j < drained
                        invariant
                            self.wf(),
                            self.toplast == e.0,
                            j <= rem.len(),
                            self.length as int == l1 + j,
                            self.entries().to_multiset() == dm.add(
                                rem.subrange(0, j as int).to_multiset(),
                            ),
                        decreases drained - j,
                    {
                        let pair = bkt.items[j];
                        proof {
                            assert(rem[j as int] == s0[b as int].items@[if j < i0 {
                                j as int
                            } else {
                                j + 1
                            }]);
                            assert(e.0 <= pair.0);
                            assert(self.length < usize::MAX);
                        }
                        let _ = self.push(pair.0, pair.1);
                        proof {
                            broadcast use group_to_multiset_ensures;
                            broadcast use group_multiset_axioms;

                            assert(rem.subrange(0, j + 1) =~= rem.subrange(0, j as int).push(
                                rem[j as int],
                            ));
                            assert(self.entries().to_multiset() =~= dm.add(
                                rem.subrange(0, j + 1).to_multiset(),
                            ));
                        }
                        j += 1;
                    }
                    proof {
                        broadcast use group_multiset_axioms;

                        assert(rem.subrange(0, rem.len() as int) =~= rem);
                        assert(self.entries().to_multiset() =~= flat_of(s0).to_multiset().remove(
                            e,
                        ));
                    }
                    Some(e)
                }
            },
        }
    }

    /// Reports, without mutating anything, the entry that the next
    /// extraction returns: the cached minimum of the first non-empty bucket.
    pub fn peek(&self) -> (r: Option<(u32, V)>)
        requires
            self.wf(),
        ensures
            r == self.min_pair(),
    {
        if self.length == 0 {
            return None;
        }
        let b = self.first_nonempty_index();
        self.buckets[b].top
    }

    /// The number of stored entries.
    pub fn length(&self) -> (n: usize)
        ensures
            n == self.length,
    {
        self.length
    }

    /// The total number of entries the buckets can hold without another
    /// allocation; a diagnostic figure only. Saturates instead of
    /// overflowing.
    #[verifier::loop_isolation(false)]
    pub fn capacity(&self) -> (c: usize)
        requires
            self.wf(),
        ensures
            c >= self.length,
    {
        let mut c: usize = 0;
        let mut i: usize = 0;
        while i < 33
            invariant
                i <= 33,
                c >= flat_of(self.buckets@.subrange(0, i as int)).len() || c == usize::MAX,
            decreases 33 - i,
        {
            let bc = self.buckets[i].capacity();
            proof {
                assert(self.buckets@.subrange(0, i + 1).drop_last() =~= self.buckets@.subrange(
                    0,
                    i as int,
                ));
                assert(flat_of(self.buckets@.subrange(0, i + 1)) == flat_of(
                    self.buckets@.subrange(0, i as int),
                ) + self.buckets@[i as int].items@);
            }
            if usize::MAX - c < bc {
                c = usize::MAX;
            } else {
                c = c + bc;
            }
            i += 1;
        }
        proof {
            assert(self.buckets@.subrange(0, 33) =~= self.buckets@);
        }
        c
    }

    /// Whether the heap stores nothing.
    pub fn empty(&self) -> (e: bool)
        ensures
            e == (self.length == 0),
    {
        self.length == 0
    }

    /// Empties every bucket and zeroes the count. The baseline is kept: keys
    /// below it stay rejected even after a clear.
    #[verifier::loop_isolation(false)]
    pub fn clear(&mut self)
        requires
            old(self).wf(),
        ensures
            final(self).wf(),
            final(self).toplast == old(self).toplast,
            final(self).length == 0,
            final(self).entries() == Seq::<(u32, V)>::empty(),
            forall|i: int| 0 <= i < 33 ==> (#[trigger] final(self).buckets@[i]).items@.len() == 0,
    {
        let mut i: usize = 0;
        while i < 33
            invariant
                i <= 33,
                self.buckets@.len() == 33,
                self.toplast == old(self).toplast,
                self.length == old(self).length,
                forall|j: int|
                    0 <= j < i ==> (#[trigger] self.buckets@[j]).index == j
                        && self.buckets@[j].top is None && self.buckets@[j].items@.len() == 0
                        && self.buckets@[j].wf(),
                forall|j: int| i <= j < 33 ==> self.buckets@[j] == old(self).buckets@[j],
            decreases 33 - i,
        {
            let mut bkt = Bucket::new(i, 0);
            self.buckets.set_and_swap(i, &mut bkt);
            bkt.clear();
            self.buckets.set_and_swap(i, &mut bkt);
            i += 1;
        }
        self.length = 0;
        proof {
            lemma_flat_all_empty(self.buckets@);
        }
    }
}

impl<V: Copy> Default for RadixHeap<V> {
    /// An empty heap with no capacity hint.
    fn default() -> (h: Self)
        ensures
            h.wf(),
            h.length == 0,
            h.toplast == 0,
            h.entries() == Seq::<(u32, V)>::empty(),
    {
        RadixHeap::new(None)
    }
}

} // verus!
