//! A map from dense integer indices to values, and a set that hands out
//! one index per distinct element.
//!
//! `push` appends under the next fresh index; `insert` binds an arbitrary
//! index, replacing the previous value of an equal index.

use vstd::prelude::*;

use crate::object::Object;

verus! {

/// Whether an entry sequence holds a pair whose index is `k`.
pub open spec fn entry_exists<V>(s: Seq<(usize, V)>, k: usize) -> bool {
    exists|i: int| 0 <= i < s.len() && (#[trigger] s[i]).0 == k
}

/// The position of the entry with index `k`; meaningful only when
/// [`entry_exists`] holds.
pub open spec fn entry_pos<V>(s: Seq<(usize, V)>, k: usize) -> int {
    choose|i: int| 0 <= i < s.len() && (#[trigger] s[i]).0 == k
}

/// The value of the entry with index `k`; meaningful only when
/// [`entry_exists`] holds.
pub open spec fn entry_value<V>(s: Seq<(usize, V)>, k: usize) -> V {
    s[entry_pos(s, k)].1
}

/// A map from `usize` indices to values, with a high-water mark `top`
/// used by [`IndexMap::push`] to hand out fresh indices.
pub struct IndexMap<V> {
    innards: Vec<(usize, V)>,
    top: usize,
}

impl<V> IndexMap<V> {
    /// No index occurs twice.
    pub closed spec fn wf(self) -> bool {
        forall|i: int, j: int|
            0 <= i < j < self.innards@.len() ==> (#[trigger] self.innards@[i]).0 != (
            #[trigger] self.innards@[j]).0
    }

    /// The stored entries, in insertion order.
    pub closed spec fn entries(self) -> Seq<(usize, V)> {
        self.innards@
    }

    /// The next index that `push` will hand out.
    pub closed spec fn spec_top(self) -> usize {
        self.top
    }

    /// The position of index `k`; meaningful only when the map contains `k`.
    pub closed spec fn key_at(self, k: usize) -> int {
        entry_pos(self.innards@, k)
    }

    /// Whether the map contains index `k`.
    pub closed spec fn contains_key(self, k: usize) -> bool {
        entry_exists(self.innards@, k)
    }

    /// The value bound to index `k`; meaningful only when the map contains `k`.
    pub closed spec fn spec_get(self, k: usize) -> V {
        entry_value(self.innards@, k)
    }

    /// The map as a mathematical map from indices to values.
    pub closed spec fn as_imap(self) -> Map<usize, V> {
        imap_of(self.innards@)
    }

    /// An empty map.
    pub fn new() -> (r: IndexMap<V>)
        ensures
            r.wf(),
            r.as_imap() == Map::<usize, V>::empty(),
            r.spec_top() == 0,
            r.entries() == Seq::<(usize, V)>::empty(),
    {
        let r = IndexMap { innards: Vec::new(), top: 0 };
        proof {
            assert(r.as_imap() =~= Map::<usize, V>::empty());
        }
        r
    }

    /// The position of index `k` in the entry vector, if present.
    fn find(&self, k: usize) -> (r: Option<usize>)
        ensures
            match r {
                Some(i) => i < self.entries().len() && self.entries()[i as int].0 == k,
                None => !self.contains_key(k),
            },
    {
        let mut i: usize = 0;
        while i < self.innards.len()
            invariant
                i <= self.innards@.len(),
                forall|j: int| 0 <= j < i ==> (#[trigger] self.innards@[j]).0 != k,
            decreases self.innards@.len() - i,
        {
            if self.innards[i].0 == k {
                return Some(i);
            }
            i = i + 1;
        }
        None
    }

    /// Binds `idx` to `element`, returning the value previously bound to an
    /// equal index, if any. The high-water mark is unchanged.
    pub fn insert(&mut self, idx: usize, element: V) -> (r: Option<V>)
        requires
            old(self).wf(),
        ensures
            final(self).wf(),
            final(self).as_imap() == old(self).as_imap().insert(idx, element),
            final(self).spec_top() == old(self).spec_top(),
            match r {
                Some(v) => old(self).contains_key(idx) && v == old(self).spec_get(idx),
                None => !old(self).contains_key(idx),
            },
    {
        let ghost old_self = *self;
        match self.find(idx) {
            Some(i) => {
                let (_, prev) = self.innards.remove(i);
                self.innards.insert(i, (idx, element));
                proof {
                    assert(self.innards@ =~= old_self.innards@.update(i as int, (idx, element)));
                    lemma_imap_update(old_self, *self, idx, element, i as int);
                }
                Some(prev)
            },
            None => {
                self.innards.push((idx, element));
                proof {
                    lemma_imap_push(old_self, *self, idx, element);
                }
                None
            },
        }
    }

    /// The value bound to `idx`, if any.
    pub fn get(&self, idx: &usize) -> (r: Option<&V>)
        requires
            self.wf(),
        ensures
            match r {
                Some(v) => self.contains_key(*idx) && *v == self.spec_get(*idx),
                None => !self.contains_key(*idx),
            },
    {
        match self.find(*idx) {
            Some(i) => {
                proof {
                    lemma_index_unique_key_at(*self, *idx, i as int);
                }
                Some(&self.innards[i].1)
            },
            None => None,
        }
    }

    /// Appends `element` under the next fresh index and returns that index.
    /// If an entry was forced under that index by `insert`, it is replaced.
    pub fn push(&mut self, element: V) -> (r: usize)
        requires
            old(self).wf(),
            old(self).spec_top() < usize::MAX,
        ensures
            final(self).wf(),
            r == old(self).spec_top(),
            final(self).spec_top() == old(self).spec_top() + 1,
            final(self).as_imap() == old(self).as_imap().insert(r, element),
    {
        let idx = self.top;
        let _ = self.insert(idx, element);
        let ghost mid = *self;
        self.top = idx + 1;
        proof {
            assert(self.as_imap() =~= mid.as_imap());
        }
        idx
    }

    /// Replaces the value bound to an existing index in place, returning
    /// the previous value: the mutation `get` cannot hand out a mutable
    /// reference for. An absent index binds nothing.
    pub fn set_value(&mut self, idx: usize, element: V) -> (r: Option<V>)
        requires
            old(self).wf(),
        ensures
            final(self).wf(),
            final(self).spec_top() == old(self).spec_top(),
            match r {
                Some(v) => old(self).contains_key(idx) && v == old(self).spec_get(idx)
                    && final(self).as_imap() == old(self).as_imap().insert(idx, element),
                None => !old(self).contains_key(idx) && final(self).as_imap() == old(
                    self,
                ).as_imap(),
            },
    {
        match self.find(idx) {
            Some(i) => {
                let (_, prev) = self.innards.remove(i);
                self.innards.insert(i, (idx, element));
                proof {
                    lemma_index_unique_key_at(*old(self), idx, i as int);
                    assert(self.innards@ =~= old(self).innards@.update(
                        i as int,
                        (idx, element),
                    ));
                    lemma_imap_update(*old(self), *self, idx, element, i as int);
                }
                Some(prev)
            },
            None => None,
        }
    }

    /// The entries as a slice of (index, value) pairs, in insertion order.
    pub fn elements(&self) -> (r: &Vec<(usize, V)>)
        ensures
            r@ == self.entries(),
    {
        &self.innards
    }

}

/// The map view of an entry sequence.
pub open spec fn imap_of<V>(s: Seq<(usize, V)>) -> Map<usize, V> {
    Map::new(|k: usize| entry_exists(s, k), |k: usize| entry_value(s, k))
}

/// With pairwise-distinct indices, `key_at` picks exactly the position
/// where the index stands.
proof fn lemma_index_unique_key_at<V>(m: IndexMap<V>, k: usize, i: int)
    requires
        m.wf(),
        0 <= i < m.entries().len(),
        m.entries()[i].0 == k,
    ensures
        m.key_at(k) == i,
        m.contains_key(k),
        m.spec_get(k) == m.entries()[i].1,
{
    let j = m.key_at(k);
    assert(m.contains_key(k));
    if j != i {
        if j < i {
            assert(m.entries()[j].0 != m.entries()[i].0);
        } else {
            assert(m.entries()[i].0 != m.entries()[j].0);
        }
    }
}

/// Replacing the entry at the position of `idx` updates exactly that
/// binding of the map view.
proof fn lemma_imap_update<V>(m1: IndexMap<V>, m2: IndexMap<V>, idx: usize, element: V, i: int)
    requires
        m1.wf(),
        0 <= i < m1.entries().len(),
        m1.entries()[i].0 == idx,
        m2.entries() == m1.entries().update(i, (idx, element)),
    ensures
        m2.wf(),
        m2.as_imap() == m1.as_imap().insert(idx, element),
{
    let s1 = m1.entries();
    let s2 = m2.entries();
    assert(m2.wf());
    lemma_index_unique_key_at(m2, idx, i);
    assert(entry_exists(s2, idx) && entry_value(s2, idx) == element);
    assert forall|k2: usize| k2 != idx && #[trigger] entry_exists(s1, k2) implies entry_exists(
        s2,
        k2,
    ) && entry_value(s2, k2) == entry_value(s1, k2) by {
        let j = entry_pos(s1, k2);
        assert(s1[j].0 == k2);
        assert(s2[j].0 == k2);
        lemma_index_unique_key_at(m2, k2, j);
        lemma_index_unique_key_at(m1, k2, j);
    }
    assert forall|k2: usize| k2 != idx && #[trigger] entry_exists(s2, k2) implies entry_exists(
        s1,
        k2,
    ) by {
        let j = entry_pos(s2, k2);
        assert(s2[j].0 == k2);
        assert(s1[j].0 == k2);
    }
    assert(m2.as_imap() =~= m1.as_imap().insert(idx, element));
}

/// Appending an entry with a fresh index adds exactly that binding to the
/// map view.
proof fn lemma_imap_push<V>(m1: IndexMap<V>, m2: IndexMap<V>, idx: usize, element: V)
    requires
        m1.wf(),
        !m1.contains_key(idx),
        m2.entries() == m1.entries().push((idx, element)),
    ensures
        m2.wf(),
        m2.as_imap() == m1.as_imap().insert(idx, element),
{
    let s1 = m1.entries();
    let s2 = m2.entries();
    let n = s1.len() as int;
    assert forall|i: int, j: int| 0 <= i < j < s2.len() implies (#[trigger] s2[i]).0 != (
    #[trigger] s2[j]).0 by {
        if j == n {
            assert(s2[j].0 == idx);
            assert(s1[i].0 != idx);
        }
    }
    assert(s2[n].0 == idx);
    lemma_index_unique_key_at(m2, idx, n);
    assert(entry_exists(s2, idx) && entry_value(s2, idx) == element);
    assert forall|k2: usize| k2 != idx && #[trigger] entry_exists(s1, k2) implies entry_exists(
        s2,
        k2,
    ) && entry_value(s2, k2) == entry_value(s1, k2) by {
        let j = entry_pos(s1, k2);
        assert(s1[j].0 == k2);
        assert(s2[j].0 == k2);
        lemma_index_unique_key_at(m2, k2, j);
        lemma_index_unique_key_at(m1, k2, j);
    }
    assert forall|k2: usize| k2 != idx && #[trigger] entry_exists(s2, k2) implies entry_exists(
        s1,
        k2,
    ) by {
        let j = entry_pos(s2, k2);
        assert(s2[j].0 == k2);
        assert(j < n);
        assert(s1[j].0 == k2);
    }
    assert(m2.as_imap() =~= m1.as_imap().insert(idx, element));
}

/// A set of objects that hands out one index per distinct element: adding
/// an element already present returns the index it got the first time.
pub struct IndexSet {
    innards: IndexMap<Object>,
}

impl IndexSet {
    /// The underlying index map is well formed.
    pub closed spec fn wf(self) -> bool {
        self.innards.wf()
    }

    /// The elements as a mathematical map from handed-out indices.
    pub closed spec fn as_imap(self) -> Map<usize, Object> {
        self.innards.as_imap()
    }

    /// The stored entries, in insertion order.
    pub closed spec fn entries(self) -> Seq<(usize, Object)> {
        self.innards.entries()
    }

    /// The next index that a fresh element will get.
    pub closed spec fn spec_top(self) -> usize {
        self.innards.spec_top()
    }

    /// An empty set.
    pub fn new() -> (r: IndexSet)
        ensures
            r.wf(),
            r.as_imap() == Map::<usize, Object>::empty(),
            r.entries() == Seq::<(usize, Object)>::empty(),
            r.spec_top() == 0,
    {
        IndexSet { innards: IndexMap::new() }
    }

    /// The index of `element`: the index of the first stored entry equal to
    /// it, or a fresh index under which it is added.
    pub fn add(&mut self, element: Object) -> (r: usize)
        requires
            old(self).wf(),
            old(self).spec_top() < usize::MAX,
        ensures
            final(self).wf(),
            ({
                let found = exists|i: int|
                    0 <= i < old(self).entries().len() && (#[trigger] old(self).entries()[i]).1
                        == element;
                if found {
                    &&& *final(self) == *old(self)
                    &&& exists|i: int|
                        0 <= i < old(self).entries().len()
                            && (#[trigger] old(self).entries()[i]) == (r, element)
                } else {
                    &&& r == old(self).spec_top()
                    &&& final(self).spec_top() == old(self).spec_top() + 1
                    &&& final(self).as_imap() == old(self).as_imap().insert(r, element)
                }
            }),
    {
        let elems = self.innards.elements();
        let mut i: usize = 0;
        let mut found: Option<usize> = None;
        while i < elems.len()
            invariant
                i <= elems@.len(),
                elems@ == self.entries(),
                match found {
                    Some(k) => exists|j: int|
                        0 <= j < i && (#[trigger] elems@[j]) == (k, element),
                    None => forall|j: int| 0 <= j < i ==> (#[trigger] elems@[j]).1 != element,
                },
            decreases elems@.len() - i,
        {
            if found.is_none() && elems[i].1 == element {
                found = Some(elems[i].0);
            }
            i = i + 1;
        }
        match found {
            Some(k) => k,
            None => self.innards.push(element),
        }
    }

    /// The element stored under `idx`, if any.
    pub fn get(&self, idx: &usize) -> (r: Option<&Object>)
        requires
            self.wf(),
        ensures
            match r {
                Some(v) => self.as_imap().dom().contains(*idx) && *v == self.as_imap()[*idx],
                None => !self.as_imap().dom().contains(*idx),
            },
    {
        self.innards.get(idx)
    }
}

} // verus!
