//! Vector-backed set and map keyed by [`Object`].
//!
//! Lookup scans for the first equal key, insertion replaces the value of an
//! existing key in place, and insertion order of keys is preserved. These
//! back the frame-local bindings and the function symbol table, whose keys
//! are interned objects compared structurally.

use vstd::prelude::*;

use crate::object::Object;

verus! {

/// A vector of objects with no duplicates, in insertion order.
pub struct ObjSet {
    data: Vec<Object>,
}

impl View for ObjSet {
    type V = Seq<Object>;

    closed spec fn view(&self) -> Seq<Object> {
        self.data@
    }
}

impl ObjSet {
    /// No key occurs twice.
    pub open spec fn wf(self) -> bool {
        forall|i: int, j: int|
            0 <= i < j < self@.len() ==> self@[i] != self@[j]
    }

    /// An empty set.
    pub fn new() -> (r: ObjSet)
        ensures
            r@ == Seq::<Object>::empty(),
            r.wf(),
    {
        ObjSet { data: Vec::new() }
    }

    /// The number of distinct items.
    pub fn len(&self) -> (r: usize)
        ensures
            r == self@.len(),
    {
        self.data.len()
    }

    /// The item at position `i`.
    pub fn at(&self, i: usize) -> (r: Object)
        requires
            i < self@.len(),
        ensures
            r == self@[i as int],
    {
        self.data[i]
    }

    /// Adds `item` unless an equal item is already present.
    pub fn push(&mut self, item: Object)
        requires
            old(self).wf(),
        ensures
            final(self).wf(),
            old(self)@.contains(item) ==> final(self)@ == old(self)@,
            !old(self)@.contains(item) ==> final(self)@ == old(self)@.push(item),
    {
        if self.index_of(&item).is_none() {
            self.data.push(item);
        }
    }

    /// The position of the first item equal to `item`, if any.
    pub fn index_of(&self, item: &Object) -> (r: Option<usize>)
        ensures
            match r {
                Some(i) => i < self@.len() && self@[i as int] == *item && forall|j: int|
                    0 <= j < i ==> self@[j] != *item,
                None => !self@.contains(*item),
            },
    {
        let mut idx: usize = 0;
        while idx < self.data.len()
            invariant
                idx <= self@.len(),
                forall|j: int| 0 <= j < idx ==> self@[j] != *item,
            decreases self@.len() - idx,
        {
            if self.data[idx] == *item {
                return Some(idx);
            }
            idx = idx + 1;
        }
        assert(!self@.contains(*item));
        None
    }

    /// A copy of the set.
    pub fn duplicate(&self) -> (r: ObjSet)
        ensures
            r@ == self@,
    {
        let mut data: Vec<Object> = Vec::new();
        let mut i: usize = 0;
        while i < self.data.len()
            invariant
                i <= self@.len(),
                data@ == self@.subrange(0, i as int),
            decreases self@.len() - i,
        {
            data.push(self.data[i]);
            i = i + 1;
        }
        assert(data@ == self@.subrange(0, self@.len() as int));
        assert(self@.subrange(0, self@.len() as int) =~= self@);
        ObjSet { data }
    }
}

/// A map from [`Object`] keys to values, backed by an [`ObjSet`] of keys
/// and a parallel vector of values.
pub struct ObjMap<V> {
    keys: ObjSet,
    values: Vec<V>,
}

impl<V> ObjMap<V> {
    /// Keys are unique and each key has exactly one value slot.
    pub closed spec fn wf(self) -> bool {
        self.keys.wf() && self.keys@.len() == self.values@.len()
    }

    /// The position of key `k`; meaningful only when the map contains `k`.
    pub closed spec fn key_at(self, k: Object) -> int {
        choose|i: int| 0 <= i < self.keys@.len() && self.keys@[i] == k
    }

    /// Whether the map contains key `k`.
    pub closed spec fn contains_key(self, k: Object) -> bool {
        self.keys@.contains(k)
    }

    /// The value bound to key `k`; meaningful only when the map contains `k`.
    pub closed spec fn spec_get(self, k: Object) -> V {
        self.values@[self.key_at(k)]
    }

    /// The map as a mathematical map from keys to values.
    pub closed spec fn as_map(self) -> Map<Object, V> {
        Map::new(|k: Object| self.contains_key(k), |k: Object| self.spec_get(k))
    }

    /// An empty map.
    pub fn new() -> (r: ObjMap<V>)
        ensures
            r.wf(),
            r.as_map() == Map::<Object, V>::empty(),
    {
        let r = ObjMap { keys: ObjSet::new(), values: Vec::new() };
        proof {
            assert(r.as_map() =~= Map::<Object, V>::empty());
        }
        r
    }

    /// The number of bindings.
    pub fn len(&self) -> (r: usize)
        requires
            self.wf(),
        ensures
            r == self.as_map().dom().len(),
    {
        proof {
            lemma_unique_keys_dom(*self);
        }
        self.keys.len()
    }

    /// Binds `key` to `value`, replacing the previous value of an equal key.
    pub fn insert(&mut self, key: Object, value: V)
        requires
            old(self).wf(),
        ensures
            final(self).wf(),
            final(self).as_map() == old(self).as_map().insert(key, value),
    {
        let ghost old_self = *self;
        match self.keys.index_of(&key) {
            Some(i) => {
                self.values.set(i, value);
                proof {
                    lemma_unique_key_at(self.keys@, key, i as int);
                    assert forall|k2: Object| k2 != key && old_self.contains_key(k2) implies
                        self.spec_get(k2) == old_self.spec_get(k2) by {
                        let j = old_self.key_at(k2);
                        assert(0 <= j < self.keys@.len() && self.keys@[j] == k2);
                        lemma_unique_key_at(self.keys@, k2, j);
                        assert(j != i);
                    }
                    assert(self.as_map() =~= old_self.as_map().insert(key, value));
                }
            },
            None => {
                self.keys.push(key);
                self.values.push(value);
                proof {
                    assert(self.keys@ == old_self.keys@.push(key));
                    assert(self.keys@[self.keys@.len() - 1] == key);
                    assert(self.contains_key(key));
                    lemma_unique_key_at(self.keys@, key, self.keys@.len() - 1);
                    assert forall|k2: Object| k2 != key && old_self.contains_key(k2) implies
                        self.contains_key(k2) && self.spec_get(k2) == old_self.spec_get(k2) by {
                        let j = old_self.key_at(k2);
                        assert(0 <= j < old_self.keys@.len() && old_self.keys@[j] == k2);
                        assert(self.keys@[j] == k2);
                        lemma_unique_key_at(self.keys@, k2, j);
                    }
                    assert forall|k2: Object| k2 != key && self.contains_key(k2) implies
                        old_self.contains_key(k2) by {
                        let j = self.key_at(k2);
                        lemma_unique_key_at(self.keys@, k2, j);
                        assert(self.keys@[j] == k2);
                        assert(j < old_self.keys@.len());
                        assert(old_self.keys@[j] == k2);
                    }
                    assert(self.as_map() =~= old_self.as_map().insert(key, value));
                }
            },
        }
    }

    /// The value bound to `key`, if any.
    pub fn get(&self, key: &Object) -> (r: Option<&V>)
        requires
            self.wf(),
        ensures
            match r {
                Some(v) => self.as_map().dom().contains(*key) && *v == self.as_map()[*key],
                None => !self.as_map().dom().contains(*key),
            },
    {
        match self.keys.index_of(key) {
            Some(i) => {
                proof {
                    lemma_unique_key_at(self.keys@, *key, i as int);
                }
                Some(&self.values[i])
            },
            None => None,
        }
    }
}

impl<V: Copy> ObjMap<V> {
    /// A copy of the map.
    pub fn duplicate(&self) -> (r: ObjMap<V>)
        requires
            self.wf(),
        ensures
            r.wf(),
            r.as_map() == self.as_map(),
    {
        let keys = self.keys.duplicate();
        let mut values: Vec<V> = Vec::new();
        let mut i: usize = 0;
        while i < self.values.len()
            invariant
                i <= self.values@.len(),
                values@ == self.values@.subrange(0, i as int),
            decreases self.values@.len() - i,
        {
            values.push(self.values[i]);
            i = i + 1;
        }
        assert(values@ =~= self.values@);
        let r = ObjMap { keys, values };
        proof {
            assert(r.as_map() =~= self.as_map());
        }
        r
    }
}

/// The domain of the map view is the set of stored keys, so with unique
/// keys its cardinality is the number of key slots.
proof fn lemma_unique_keys_dom<V>(m: ObjMap<V>)
    requires
        m.wf(),
    ensures
        m.as_map().dom().len() == m.keys@.len(),
        m.as_map().dom().finite(),
{
    assert(m.keys@.no_duplicates());
    m.keys@.unique_seq_to_set();
    assert(m.as_map().dom() =~= m.keys@.to_set());
}

/// With pairwise-distinct keys, `key_at` picks exactly the position where
/// the key stands.
pub proof fn lemma_unique_key_at(keys: Seq<Object>, k: Object, i: int)
    requires
        forall|p: int, q: int| 0 <= p < q < keys.len() ==> keys[p] != keys[q],
        0 <= i < keys.len(),
        keys[i] == k,
    ensures
        (choose|j: int| 0 <= j < keys.len() && keys[j] == k) == i,
{
    let j = choose|j: int| 0 <= j < keys.len() && keys[j] == k;
    assert(keys.contains(k));
    if j != i {
        if j < i {
            assert(keys[j] != keys[i]);
        } else {
            assert(keys[i] != keys[j]);
        }
    }
}

} // verus!
