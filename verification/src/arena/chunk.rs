//! One contiguous block of arena storage.

use vstd::prelude::*;

verus! {

/// A single contiguous block of storage owned by an arena: a span of
/// addresses starting at `base`, backing storage of fixed capacity, and a
/// count of the live entries accounted to this chunk.
///
/// Invariant (maintained by the owning arena): `entries` never exceeds the
/// capacity, and the spans of an arena's chunks never overlap.
pub struct Chunk<T> {
    pub base: usize,
    pub storage: Vec<T>,
    pub entries: usize,
}

impl<T: Copy> Chunk<T> {
    /// A fresh chunk of `cap` slots at `base`, filled with `filler`.
    pub fn new(cap: usize, base: usize, filler: T) -> (r: Chunk<T>)
        ensures
            r.base == base,
            r.entries == 0,
            r.storage@ == Seq::new(cap as nat, |i: int| filler),
    {
        let mut storage: Vec<T> = Vec::new();
        let mut i: usize = 0;
        while i < cap
            invariant
                i <= cap,
                storage@ == Seq::new(i as nat, |j: int| filler),
            decreases cap - i,
        {
            storage.push(filler);
            i = i + 1;
            proof {
                assert(storage@ =~= Seq::new(i as nat, |j: int| filler));
            }
        }
        Chunk { base, storage, entries: 0 }
    }

    /// The first address of this chunk's span.
    pub fn start(&self) -> (r: usize)
        ensures
            r == self.base,
    {
        self.base
    }

    /// The address one past this chunk's span.
    pub fn end(&self) -> (r: usize)
        requires
            self.base + self.storage@.len() <= usize::MAX,
        ensures
            r == self.base + self.storage@.len(),
    {
        self.base + self.storage.len()
    }
}

/// Whether `addr` lies in the span of `c`.
pub open spec fn span_contains<T>(c: Chunk<T>, addr: int) -> bool {
    c.base <= addr < c.base + c.storage@.len()
}

/// Whether the region of `s` addresses at `a` lies within the span of `c`.
pub open spec fn region_within<T>(c: Chunk<T>, a: int, s: int) -> bool {
    c.base <= a && a + s <= c.base + c.storage@.len()
}

/// Whether two (address, size) regions do not overlap.
pub open spec fn regions_disjoint(m1: (usize, usize), m2: (usize, usize)) -> bool {
    m1.0 + m1.1 <= m2.0 || m2.0 + m2.1 <= m1.0
}

/// Whether some chunk's span contains `addr`.
pub open spec fn chunk_has<T>(cs: Seq<Chunk<T>>, addr: int) -> bool {
    exists|j: int| 0 <= j < cs.len() && span_contains(#[trigger] cs[j], addr)
}

/// The index of the chunk whose span contains `addr`; meaningful only
/// when [`chunk_has`] holds.
pub open spec fn chunk_at<T>(cs: Seq<Chunk<T>>, addr: int) -> int {
    choose|j: int| 0 <= j < cs.len() && span_contains(#[trigger] cs[j], addr)
}

/// The value stored at `addr`; meaningful only when [`chunk_has`] holds.
pub open spec fn value_at<T>(cs: Seq<Chunk<T>>, addr: int) -> T {
    let j = chunk_at(cs, addr);
    cs[j].storage@[addr - cs[j].base]
}

/// Chunk spans start at one or above, stay within the address space, and
/// come in strictly increasing, pairwise disjoint order.
pub open spec fn chunks_ordered<T>(cs: Seq<Chunk<T>>) -> bool {
    &&& forall|j: int|
        0 <= j < cs.len() ==> 1 <= (#[trigger] cs[j]).base && cs[j].base + cs[j].storage@.len()
            <= usize::MAX
    &&& forall|i: int, j: int|
        0 <= i < j < cs.len() ==> (#[trigger] cs[i]).base + cs[i].storage@.len() <= (
        #[trigger] cs[j]).base
}

/// With ordered chunks, the owning chunk of an address is unique.
pub proof fn lemma_owner_unique<T>(cs: Seq<Chunk<T>>, addr: int, j: int)
    requires
        chunks_ordered(cs),
        0 <= j < cs.len(),
        span_contains(cs[j], addr),
    ensures
        chunk_has(cs, addr),
        chunk_at(cs, addr) == j,
{
    assert(chunk_has(cs, addr));
    let k = chunk_at(cs, addr);
    if k < j {
        assert(cs[k].base + cs[k].storage@.len() <= cs[j].base);
    } else if j < k {
        assert(cs[j].base + cs[j].storage@.len() <= cs[k].base);
    }
}

/// Rewriting one run of slots of one chunk changes the stored values at
/// exactly those addresses.
pub proof fn lemma_value_at_region_update<T>(
    cs1: Seq<Chunk<T>>,
    cs2: Seq<Chunk<T>>,
    j: int,
    lo: int,
    n: int,
)
    requires
        chunks_ordered(cs1),
        0 <= j < cs1.len(),
        cs2.len() == cs1.len(),
        forall|i: int| 0 <= i < cs1.len() && i != j ==> cs2[i] == cs1[i],
        cs2[j].base == cs1[j].base,
        cs2[j].storage@.len() == cs1[j].storage@.len(),
        0 <= lo,
        0 <= n,
        lo + n <= cs1[j].storage@.len(),
        forall|s: int|
            0 <= s < cs1[j].storage@.len() && !(lo <= s < lo + n) ==> cs2[j].storage@[s]
                == cs1[j].storage@[s],
    ensures
        chunks_ordered(cs2),
        forall|a: int| chunk_has(cs1, a) <==> chunk_has(cs2, a),
        forall|a: int|
            chunk_has(cs1, a) && !(cs1[j].base + lo <= a < cs1[j].base + lo + n) ==> value_at(
                cs2,
                a,
            ) == value_at(cs1, a),
        forall|s: int|
            lo <= s < lo + n ==> chunk_has(cs2, cs1[j].base + s) && value_at(
                cs2,
                cs1[j].base + s,
            ) == cs2[j].storage@[s],
{
    assert forall|i: int| 0 <= i < cs2.len() implies 1 <= (#[trigger] cs2[i]).base && cs2[i].base
        + cs2[i].storage@.len() <= usize::MAX by {
        assert(cs2[i].storage@.len() == cs1[i].storage@.len());
        assert(cs2[i].base == cs1[i].base);
    }
    assert forall|i: int, k: int| 0 <= i < k < cs2.len() implies (#[trigger] cs2[i]).base
        + cs2[i].storage@.len() <= (#[trigger] cs2[k]).base by {
        assert(cs2[i].storage@.len() == cs1[i].storage@.len());
        assert(cs2[i].base == cs1[i].base && cs2[k].base == cs1[k].base);
    }
    assert forall|a: int| chunk_has(cs1, a) implies chunk_has(cs2, a) by {
        let i = chunk_at(cs1, a);
        assert(span_contains(cs1[i], a));
        assert(span_contains(cs2[i], a));
    }
    assert forall|a: int| chunk_has(cs2, a) implies chunk_has(cs1, a) by {
        let i = chunk_at(cs2, a);
        assert(span_contains(cs2[i], a));
        assert(span_contains(cs1[i], a));
    }
    assert forall|a: int| chunk_has(cs1, a) && !(cs1[j].base + lo <= a < cs1[j].base + lo
        + n) implies value_at(cs2, a) == value_at(cs1, a) by {
        let i = chunk_at(cs1, a);
        assert(span_contains(cs1[i], a));
        lemma_owner_unique(cs1, a, i);
        assert(span_contains(cs2[i], a));
        lemma_owner_unique(cs2, a, i);
        if i == j {
            assert(!(lo <= a - cs1[j].base < lo + n));
        }
    }
    assert forall|s: int| lo <= s < lo + n implies chunk_has(cs2, cs1[j].base + s) && value_at(
        cs2,
        cs1[j].base + s,
    ) == cs2[j].storage@[s] by {
        assert(span_contains(cs2[j], cs1[j].base + s));
        lemma_owner_unique(cs2, cs1[j].base + s, j);
    }
}

/// Chunk lists with the same bases and storages (the live-entry counters
/// may differ) order alike, own the same addresses and store the same
/// values.
pub proof fn lemma_same_layout<T>(cs1: Seq<Chunk<T>>, cs2: Seq<Chunk<T>>)
    requires
        chunks_ordered(cs1),
        cs2.len() == cs1.len(),
        forall|i: int|
            0 <= i < cs1.len() ==> (#[trigger] cs2[i]).base == cs1[i].base && cs2[i].storage
                == cs1[i].storage,
    ensures
        chunks_ordered(cs2),
        forall|a: int| chunk_has(cs1, a) <==> chunk_has(cs2, a),
        forall|a: int| chunk_has(cs1, a) ==> value_at(cs2, a) == value_at(cs1, a),
{
    assert forall|i: int| 0 <= i < cs2.len() implies 1 <= (#[trigger] cs2[i]).base && cs2[i].base
        + cs2[i].storage@.len() <= usize::MAX by {
        assert(cs2[i].storage@.len() == cs1[i].storage@.len());
    }
    assert forall|i: int, k: int| 0 <= i < k < cs2.len() implies (#[trigger] cs2[i]).base
        + cs2[i].storage@.len() <= (#[trigger] cs2[k]).base by {
        assert(cs2[i].storage@.len() == cs1[i].storage@.len());
    }
    assert forall|a: int| chunk_has(cs1, a) implies chunk_has(cs2, a) by {
        let i = chunk_at(cs1, a);
        assert(span_contains(cs1[i], a));
        assert(span_contains(cs2[i], a));
    }
    assert forall|a: int| chunk_has(cs2, a) implies chunk_has(cs1, a) by {
        let i = chunk_at(cs2, a);
        assert(span_contains(cs2[i], a));
        assert(span_contains(cs1[i], a));
    }
    assert forall|a: int| chunk_has(cs1, a) implies value_at(cs2, a) == value_at(cs1, a) by {
        let i = chunk_at(cs1, a);
        assert(span_contains(cs1[i], a));
        lemma_owner_unique(cs1, a, i);
        assert(span_contains(cs2[i], a));
        lemma_owner_unique(cs2, a, i);
    }
}

/// Growing the chunk list by new chunks leaves every stored value of the
/// old chunks in place.
pub proof fn lemma_value_at_prefix<T>(cs1: Seq<Chunk<T>>, cs2: Seq<Chunk<T>>)
    requires
        chunks_ordered(cs2),
        cs1 == cs2.subrange(0, cs1.len() as int),
        cs1.len() <= cs2.len(),
    ensures
        forall|a: int|
            chunk_has(cs1, a) ==> chunk_has(cs2, a) && value_at(cs2, a) == value_at(cs1, a),
{
    assert forall|a: int| chunk_has(cs1, a) implies chunk_has(cs2, a) && value_at(cs2, a)
        == value_at(cs1, a) by {
        let i = chunk_at(cs1, a);
        assert(span_contains(cs1[i], a));
        assert(cs1[i] == cs2[i]);
        assert(chunks_ordered(cs1)) by {
            assert(forall|j: int| 0 <= j < cs1.len() ==> cs1[j] == cs2[j]);
        }
        lemma_owner_unique(cs1, a, i);
        lemma_owner_unique(cs2, a, i);
    }
}

} // verus!
