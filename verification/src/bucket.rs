//! A bucket holds the entries of one distance class, in insertion order,
//! together with a cached copy of its minimal entry.

use vstd::prelude::*;

verus! {

/// Position `i` holds the first entry with minimal key in `s`: every entry
/// has a key at least `s[i].0`, and every earlier entry has a strictly
/// greater key.
pub open spec fn first_min_at<V>(s: Seq<(u32, V)>, i: int) -> bool {
    &&& 0 <= i < s.len()
    &&& forall|j: int| 0 <= j < s.len() ==> s[i].0 <= (#[trigger] s[j]).0
    &&& forall|j: int| 0 <= j < i ==> s[i].0 < (#[trigger] s[j]).0
}

/// The position of the first entry with minimal key.
pub open spec fn first_min_idx<V>(s: Seq<(u32, V)>) -> int {
    choose|i: int| first_min_at(s, i)
}

/// The first entry with minimal key.
pub open spec fn min_of<V>(s: Seq<(u32, V)>) -> (u32, V) {
    s[first_min_idx(s)]
}

/// Every non-empty sequence of entries has a first minimal entry.
pub proof fn lemma_first_min_exists<V>(s: Seq<(u32, V)>)
    requires
        s.len() > 0,
    ensures
        first_min_at(s, first_min_idx(s)),
    decreases s.len(),
{
    if s.len() == 1 {
        assert(first_min_at(s, 0));
    } else {
        let t = s.drop_last();
        lemma_first_min_exists(t);
        let i = first_min_idx(t);
        assert(forall|j: int| 0 <= j < t.len() ==> t[j] == (#[trigger] s[j]));
        assert(s.last() == s[s.len() - 1]);
        if s.last().0 < t[i].0 {
            assert(first_min_at(s, s.len() - 1));
        } else {
            assert(first_min_at(s, i));
        }
    }
}

/// At most one position can hold the first minimal entry.
pub proof fn lemma_first_min_unique<V>(s: Seq<(u32, V)>, i1: int, i2: int)
    requires
        first_min_at(s, i1),
        first_min_at(s, i2),
    ensures
        i1 == i2,
{
    if i1 < i2 {
        assert(s[i2].0 < s[i1].0);
        assert(s[i1].0 <= s[i2].0);
    }
    if i2 < i1 {
        assert(s[i1].0 < s[i2].0);
        assert(s[i2].0 <= s[i1].0);
    }
}

/// How the cached minimum changes when `(key, val)` is appended: it is
/// replaced only when the bucket was empty or the new key is strictly
/// smaller, so the first-inserted entry wins among equal keys.
pub open spec fn push_top<V>(t: Option<(u32, V)>, key: u32, val: V) -> Option<(u32, V)> {
    match t {
        None => Some((key, val)),
        Some(e) => if key < e.0 {
            Some((key, val))
        } else {
            Some(e)
        },
    }
}

/// An unordered container for the entries of one distance class.
///
/// `index` is the distance class this bucket was created for and never
/// changes; `items` keeps the entries in insertion order; `top` caches the
/// minimal entry, ties broken in favour of the first-inserted one.
#[derive(Clone, Debug)]
pub struct Bucket<V> {
    pub index: usize,
    pub top: Option<(u32, V)>,
    pub items: Vec<(u32, V)>,
}

/// Relies on Vec::capacity: a vector can hold at least its current length
/// without reallocating.
#[verifier::external_body]
fn vec_capacity<T>(v: &Vec<T>) -> (c: usize)
    ensures
        c >= v@.len(),
{
    v.capacity()
}

/// Finds the position of the first entry with minimal key.
fn find_first_min<V>(items: &Vec<(u32, V)>) -> (i: usize)
    requires
        items@.len() > 0,
    ensures
        i as int == first_min_idx(items@),
        first_min_at(items@, i as int),
{
    let mut best: usize = 0;
    let mut j: usize = 1;
    while j < items.len()
        invariant
            0 < j <= items@.len(),
            best < j,
            forall|t: int| 0 <= t < j ==> items@[best as int].0 <= (#[trigger] items@[t]).0,
            forall|t: int| 0 <= t < best ==> items@[best as int].0 < (#[trigger] items@[t]).0,
        decreases items@.len() - j,
    {
        if items[j].0 < items[best].0 {
            best = j;
        }
        j += 1;
    }
    proof {
        assert(first_min_at(items@, best as int));
        lemma_first_min_exists(items@);
        lemma_first_min_unique(items@, best as int, first_min_idx(items@));
    }
    best
}

impl<V: Copy> Bucket<V> {
    /// The cached minimum a well-formed bucket holds: absent exactly when the
    /// bucket is empty.
    pub open spec fn top_spec(s: Seq<(u32, V)>) -> Option<(u32, V)> {
        if s.len() == 0 {
            None
        } else {
            Some(min_of(s))
        }
    }

    /// The bucket's invariant: its class is one of the 33 bucket indices and
    /// the cached minimum matches the stored entries.
    pub open spec fn wf(self) -> bool {
        &&& self.index <= 32
        &&& self.top == Self::top_spec(self.items@)
    }

    /// An empty bucket for distance class `index`, pre-sized to hold
    /// `capacity` entries without reallocating.
    pub fn new(index: usize, capacity: usize) -> (b: Bucket<V>)
        requires
            index <= 32,
        ensures
            b.index == index,
            b.top is None,
            b.items@ == Seq::<(u32, V)>::empty(),
            b.wf(),
    {
        Bucket { index, top: None, items: Vec::with_capacity(capacity) }
    }

    pub fn length(&self) -> (n: usize)
        ensures
            n == self.items@.len(),
    {
        self.items.len()
    }

    pub fn capacity(&self) -> (c: usize)
        ensures
            c >= self.items@.len(),
    {
        vec_capacity(&self.items)
    }

    pub fn empty(&self) -> (e: bool)
        ensures
            e == (self.items@.len() == 0),
    {
        self.items.is_empty()
    }

    /// Removes every entry and drops the cached minimum; the distance class
    /// is kept.
    pub fn clear(&mut self)
        ensures
            final(self).index == old(self).index,
            final(self).top is None,
            final(self).items@ == Seq::<(u32, V)>::empty(),
            old(self).index <= 32 ==> final(self).wf(),
    {
        self.items.clear();
        self.top = None;
    }

    /// Appends `(key, val)` and refreshes the cached minimum: the cache is
    /// replaced only when the bucket was empty or the new key is strictly
    /// smaller than the cached one.
    pub fn push(&mut self, key: u32, val: V) -> (r: Result<(), &'static str>)
        requires
            old(self).wf(),
        ensures
            r is Ok,
            final(self).index == old(self).index,
            final(self).items@ == old(self).items@.push((key, val)),
            final(self).top == push_top(old(self).top, key, val),
            final(self).wf(),
    {
        proof {
            lemma_push_keeps_top(self.items@, key, val);
        }
        self.items.push((key, val));
        match self.top {
            None => {
                self.top = Some((key, val));
            },
            Some(e) => {
                if key < e.0 {
                    self.top = Some((key, val));
                }
            },
        }
        Ok(())
    }

    /// An entry-for-entry copy of the bucket.
    #[verifier::loop_isolation(false)]
    pub fn duplicate(&self) -> (b: Bucket<V>)
        ensures
            b.index == self.index,
            b.top == self.top,
            b.items@ == self.items@,
    {
        let mut items: Vec<(u32, V)> = Vec::new();
        let mut i: usize = 0;
        proof {
            assert(items@ =~= self.items@.subrange(0, 0));
        }
        while i < self.items.len()
            invariant
                i <= self.items@.len(),
                items@ == self.items@.subrange(0, i as int),
            decreases self.items@.len() - i,
        {
            items.push(self.items[i]);
            proof {
                assert(self.items@.subrange(0, i + 1) =~= self.items@.subrange(0, i as int).push(
                    self.items@[i as int],
                ));
            }
            i += 1;
        }
        proof {
            assert(self.items@.subrange(0, self.items@.len() as int) =~= self.items@);
        }
        Bucket { index: self.index, top: self.top, items }
    }

    /// Removes and returns the first entry with minimal key, then recomputes
    /// the cached minimum by scanning the remaining entries. On an empty
    /// bucket nothing happens; the owning heap never calls it in that state.
    pub fn pop(&mut self) -> (r: Option<(u32, V)>)
        requires
            old(self).wf(),
        ensures
            r == old(self).top,
            final(self).index == old(self).index,
            final(self).wf(),
            old(self).items@.len() == 0 ==> r is None && *final(self) == *old(self),
            old(self).items@.len() > 0 ==> {
                &&& r == Some(min_of(old(self).items@))
                &&& final(self).items@ == old(self).items@.remove(first_min_idx(old(self).items@))
            },
    {
        if self.items.len() == 0 {
            return None;
        }
        proof {
            lemma_first_min_exists(self.items@);
        }
        let best = find_first_min(&self.items);
        let e = self.items.remove(best);
        if self.items.len() == 0 {
            self.top = None;
        } else {
            proof {
                lemma_first_min_exists(self.items@);
            }
            let again = find_first_min(&self.items);
            let m = self.items[again];
            self.top = Some(m);
        }
        Some(e)
    }
}

/// Appending an entry moves the first minimal entry as `push_top` says.
proof fn lemma_push_keeps_top<V: Copy>(s: Seq<(u32, V)>, key: u32, val: V)
    ensures
        Bucket::<V>::top_spec(s.push((key, val))) == push_top(Bucket::<V>::top_spec(s), key, val),
{
    let s2 = s.push((key, val));
    if s.len() == 0 {
        assert(s2[0] == (key, val));
        assert(first_min_at(s2, 0));
        lemma_first_min_exists(s2);
        lemma_first_min_unique(s2, 0, first_min_idx(s2));
    } else {
        lemma_first_min_exists(s);
        let i = first_min_idx(s);
        if key < s[i].0 {
            assert(first_min_at(s2, s.len() as int));
            lemma_first_min_exists(s2);
            lemma_first_min_unique(s2, s.len() as int, first_min_idx(s2));
        } else {
            assert(first_min_at(s2, i));
            lemma_first_min_exists(s2);
            lemma_first_min_unique(s2, i, first_min_idx(s2));
        }
    }
}

} // verus!
