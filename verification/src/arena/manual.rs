//! The free-list-recycling arena: bump growth like the bump arena, plus
//! explicit deallocation. Freed ranges go on a free list; allocation first
//! reuses an exact-size match, then splits the requested prefix off a
//! larger one, and only then bump-allocates, growing a new chunk when the
//! current one is exhausted.
//!
//! The arena is element-addressed: every address names one slot of the
//! element type, so sizes count elements and alignment is moot. Each chunk
//! keeps a live-entry counter; the arena's invariant ties that counter to
//! the sizes of the live regions inside the chunk and bounds it by the
//! chunk's capacity. An address handed out by `allocate` is never touched
//! by the arena again until passed back through `deallocate`, and live
//! allocations are never moved.

use vstd::prelude::*;

use crate::arena::chunk::{
    chunk_at, chunk_has, chunks_ordered, region_within, regions_disjoint, span_contains,
    value_at, Chunk,
};
use crate::arena::dropless::{region_in_chunks, MAX_ALLOC};
use crate::arena::{align_up, spec_align_up, spec_max, spec_min, HUGE_PAGE, PAGE};

verus! {

/// One reclaimed range on the free list.
#[derive(Clone, Copy, PartialEq, Eq, Structural, Debug)]
pub struct Free {
    pub start: usize,
    pub size: usize,
}

/// Whether the region of `s` addresses at `a` lies within `lo..hi`.
pub open spec fn pair_within(a: int, s: int, lo: int, hi: int) -> bool {
    lo <= a && a + s <= hi
}

/// The total size of the live regions that lie within `lo..hi`.
pub open spec fn live_sum(ms: Seq<(usize, usize)>, lo: int, hi: int) -> int
    decreases ms.len(),
{
    if ms.len() == 0 {
        0
    } else {
        live_sum(ms.drop_last(), lo, hi) + if pair_within(
            ms.last().0 as int,
            ms.last().1 as int,
            lo,
            hi,
        ) {
            ms.last().1 as int
        } else {
            0
        }
    }
}

/// The total size of the free ranges that lie within `lo..hi`.
pub open spec fn free_sum(fs: Seq<Free>, lo: int, hi: int) -> int
    decreases fs.len(),
{
    if fs.len() == 0 {
        0
    } else {
        free_sum(fs.drop_last(), lo, hi) + if pair_within(
            fs.last().start as int,
            fs.last().size as int,
            lo,
            hi,
        ) {
            fs.last().size as int
        } else {
            0
        }
    }
}

/// Whether the free list holds a range of exactly `size`.
pub open spec fn has_exact(fs: Seq<Free>, size: int) -> bool {
    exists|i: int| 0 <= i < fs.len() && (#[trigger] fs[i]).size == size
}

/// Whether the free list holds a range larger than `size`.
pub open spec fn has_larger(fs: Seq<Free>, size: int) -> bool {
    exists|i: int| 0 <= i < fs.len() && (#[trigger] fs[i]).size > size
}

/// The position of the first free range of exactly `size`; meaningful
/// only when [`has_exact`] holds.
pub open spec fn first_exact_idx(fs: Seq<Free>, size: int) -> int
    decreases fs.len(),
{
    if fs.len() == 0 {
        0
    } else if fs.first().size == size {
        0
    } else {
        1 + first_exact_idx(fs.drop_first(), size)
    }
}

/// The position of the first free range larger than `size`; meaningful
/// only when [`has_larger`] holds.
pub open spec fn first_larger_idx(fs: Seq<Free>, size: int) -> int
    decreases fs.len(),
{
    if fs.len() == 0 {
        0
    } else if fs.first().size > size {
        0
    } else {
        1 + first_larger_idx(fs.drop_first(), size)
    }
}

/// The address an exact-fit allocation of `size` returns; meaningful only
/// when [`has_exact`] holds.
pub open spec fn exact_fit_addr(fs: Seq<Free>, size: int) -> usize
    decreases fs.len(),
{
    if fs.len() == 0 {
        0
    } else if fs.first().size == size {
        fs.first().start
    } else {
        exact_fit_addr(fs.drop_first(), size)
    }
}

/// A position whose range matches exactly, with no exact match before
/// it, is the first exact match, and the exact-fit address is its start.
pub proof fn lemma_first_exact_at(fs: Seq<Free>, size: int, i: int)
    requires
        0 <= i < fs.len(),
        fs[i].size == size,
        forall|q: int| 0 <= q < i ==> (#[trigger] fs[q]).size != size,
    ensures
        has_exact(fs, size),
        first_exact_idx(fs, size) == i,
        exact_fit_addr(fs, size) == fs[i].start,
    decreases i,
{
    assert(has_exact(fs, size));
    if i > 0 {
        let rest = fs.drop_first();
        assert(rest[i - 1] == fs[i]);
        assert forall|q: int| 0 <= q < i - 1 implies (#[trigger] rest[q]).size != size by {
            assert(rest[q] == fs[q + 1]);
        }
        lemma_first_exact_at(rest, size, i - 1);
    }
}

/// A position whose range is larger, with no larger range before it, is
/// the first larger match.
pub proof fn lemma_first_larger_at(fs: Seq<Free>, size: int, i: int)
    requires
        0 <= i < fs.len(),
        fs[i].size > size,
        forall|q: int| 0 <= q < i ==> (#[trigger] fs[q]).size <= size,
    ensures
        has_larger(fs, size),
        first_larger_idx(fs, size) == i,
    decreases i,
{
    assert(has_larger(fs, size));
    if i > 0 {
        let rest = fs.drop_first();
        assert(rest[i - 1] == fs[i]);
        assert forall|q: int| 0 <= q < i - 1 implies (#[trigger] rest[q]).size <= size by {
            assert(rest[q] == fs[q + 1]);
        }
        lemma_first_larger_at(rest, size, i - 1);
    }
}

/// A region contained in one of two disjoint regions is disjoint from
/// the other.
pub proof fn lemma_subregion_disjoint(sub: (usize, usize), sup: (usize, usize), other: (usize, usize))
    requires
        sup.0 <= sub.0,
        sub.0 + sub.1 <= sup.0 + sup.1,
        regions_disjoint(sup, other) || regions_disjoint(other, sup),
    ensures
        regions_disjoint(sub, other),
        regions_disjoint(other, sub),
{
}

/// Law (recycling arena): an allocation immediately following a
/// deallocation of a range of the same size reuses exactly that range's
/// address, provided no other free range of that size was already
/// waiting.
pub proof fn lemma_exact_fit_reuse(fs: Seq<Free>, p: usize, s: usize)
    requires
        forall|i: int| 0 <= i < fs.len() ==> (#[trigger] fs[i]).size != s,
    ensures
        has_exact(fs.push(Free { start: p, size: s }), s as int),
        exact_fit_addr(fs.push(Free { start: p, size: s }), s as int) == p,
    decreases fs.len(),
{
    let fs1 = fs.push(Free { start: p, size: s });
    assert(fs1[fs.len() as int] == Free { start: p, size: s });
    assert(has_exact(fs1, s as int));
    if fs.len() == 0 {
        assert(fs1.first() == Free { start: p, size: s });
    } else {
        assert(fs1.first() == fs.first());
        assert(fs1.first().size != s);
        let rest = fs.drop_first();
        assert forall|i: int| 0 <= i < rest.len() implies (#[trigger] rest[i]).size != s by {
            assert(rest[i] == fs[i + 1]);
        }
        lemma_exact_fit_reuse(rest, p, s);
        assert(fs1.drop_first() =~= rest.push(Free { start: p, size: s }));
    }
}

/// A live sum is never negative.
proof fn lemma_live_sum_nonneg(ms: Seq<(usize, usize)>, lo: int, hi: int)
    ensures
        live_sum(ms, lo, hi) >= 0,
    decreases ms.len(),
{
    if ms.len() > 0 {
        lemma_live_sum_nonneg(ms.drop_last(), lo, hi);
    }
}

/// A free sum is never negative.
proof fn lemma_free_sum_nonneg(fs: Seq<Free>, lo: int, hi: int)
    ensures
        free_sum(fs, lo, hi) >= 0,
    decreases fs.len(),
{
    if fs.len() > 0 {
        lemma_free_sum_nonneg(fs.drop_last(), lo, hi);
    }
}

/// Removing one live region takes exactly its contribution out of the
/// live sum.
proof fn lemma_live_sum_remove(ms: Seq<(usize, usize)>, i: int, lo: int, hi: int)
    requires
        0 <= i < ms.len(),
    ensures
        live_sum(ms.remove(i), lo, hi) == live_sum(ms, lo, hi) - if pair_within(
            ms[i].0 as int,
            ms[i].1 as int,
            lo,
            hi,
        ) {
            ms[i].1 as int
        } else {
            0
        },
    decreases ms.len(),
{
    if i == ms.len() - 1 {
        assert(ms.remove(i) =~= ms.drop_last());
    } else {
        lemma_live_sum_remove(ms.drop_last(), i, lo, hi);
        assert(ms.remove(i).drop_last() =~= ms.drop_last().remove(i));
        assert(ms.remove(i).last() == ms.last());
    }
}

/// A live region contributes no more than the whole live sum.
proof fn lemma_live_sum_member(ms: Seq<(usize, usize)>, i: int, lo: int, hi: int)
    requires
        0 <= i < ms.len(),
        pair_within(ms[i].0 as int, ms[i].1 as int, lo, hi),
    ensures
        live_sum(ms, lo, hi) >= ms[i].1 as int,
    decreases ms.len(),
{
    if i == ms.len() - 1 {
        lemma_live_sum_nonneg(ms.drop_last(), lo, hi);
    } else {
        lemma_live_sum_member(ms.drop_last(), i, lo, hi);
    }
}

/// A free range contributes no more than the whole free sum.
proof fn lemma_free_sum_member(fs: Seq<Free>, i: int, lo: int, hi: int)
    requires
        0 <= i < fs.len(),
        pair_within(fs[i].start as int, fs[i].size as int, lo, hi),
    ensures
        free_sum(fs, lo, hi) >= fs[i].size as int,
    decreases fs.len(),
{
    if i == fs.len() - 1 {
        lemma_free_sum_nonneg(fs.drop_last(), lo, hi);
    } else {
        lemma_free_sum_member(fs.drop_last(), i, lo, hi);
    }
}

/// Appending one live region adds exactly its contribution to the live
/// sum.
proof fn lemma_live_sum_push(ms: Seq<(usize, usize)>, m: (usize, usize), lo: int, hi: int)
    ensures
        live_sum(ms.push(m), lo, hi) == live_sum(ms, lo, hi) + if pair_within(
            m.0 as int,
            m.1 as int,
            lo,
            hi,
        ) {
            m.1 as int
        } else {
            0
        },
{
    assert(ms.push(m).drop_last() =~= ms);
    assert(ms.push(m).last() == m);
}

/// Appending one free range adds exactly its contribution to the free
/// sum.
proof fn lemma_free_sum_push(fs: Seq<Free>, f: Free, lo: int, hi: int)
    ensures
        free_sum(fs.push(f), lo, hi) == free_sum(fs, lo, hi) + if pair_within(
            f.start as int,
            f.size as int,
            lo,
            hi,
        ) {
            f.size as int
        } else {
            0
        },
{
    assert(fs.push(f).drop_last() =~= fs);
    assert(fs.push(f).last() == f);
}

/// Replacing one free range changes the free sum by the difference of
/// the contributions.
proof fn lemma_free_sum_update(fs: Seq<Free>, i: int, f2: Free, lo: int, hi: int)
    requires
        0 <= i < fs.len(),
    ensures
        free_sum(fs.update(i, f2), lo, hi) == free_sum(fs, lo, hi) - (if pair_within(
            fs[i].start as int,
            fs[i].size as int,
            lo,
            hi,
        ) {
            fs[i].size as int
        } else {
            0
        }) + (if pair_within(f2.start as int, f2.size as int, lo, hi) {
            f2.size as int
        } else {
            0
        }),
    decreases fs.len(),
{
    if i == fs.len() - 1 {
        assert(fs.update(i, f2).drop_last() =~= fs.drop_last());
        assert(fs.update(i, f2).last() == f2);
    } else {
        lemma_free_sum_update(fs.drop_last(), i, f2, lo, hi);
        assert(fs.update(i, f2).drop_last() =~= fs.drop_last().update(i, f2));
        assert(fs.update(i, f2).last() == fs.last());
    }
}

/// Removing one free range takes exactly its contribution out of the
/// free sum.
proof fn lemma_free_sum_remove(fs: Seq<Free>, i: int, lo: int, hi: int)
    requires
        0 <= i < fs.len(),
    ensures
        free_sum(fs.remove(i), lo, hi) == free_sum(fs, lo, hi) - if pair_within(
            fs[i].start as int,
            fs[i].size as int,
            lo,
            hi,
        ) {
            fs[i].size as int
        } else {
            0
        },
    decreases fs.len(),
{
    if i == fs.len() - 1 {
        assert(fs.remove(i) =~= fs.drop_last());
    } else {
        lemma_free_sum_remove(fs.drop_last(), i, lo, hi);
        assert(fs.remove(i).drop_last() =~= fs.drop_last().remove(i));
        assert(fs.remove(i).last() == fs.last());
    }
}

/// The free-list-recycling arena.
pub struct Manual<T> {
    pub chunks: Vec<Chunk<T>>,
    pub start: usize,
    pub endaa: usize,
    pub free: Vec<Free>,
    pub filler: T,
    pub marks: Ghost<Seq<(usize, usize)>>,
}

impl<T: Copy> Manual<T> {
    /// Well-formedness: ordered disjoint chunks; the bump cursor inside
    /// the current chunk; free ranges and live regions inside chunks,
    /// below the cursor in the current one, all pairwise disjoint; each
    /// chunk's live-entry counter equal to the live size inside it; and
    /// live plus free size bounded by the used span of each chunk.
    pub open spec fn wf(self) -> bool {
        &&& chunks_ordered(self.chunks@)
        &&& forall|j: int|
            0 <= j < self.chunks@.len() ==> (#[trigger] self.chunks@[j]).storage@.len() >= 1
        &&& if self.chunks@.len() == 0 {
            self.start == 0 && self.endaa == 0 && self.free@.len() == 0 && self.marks@.len()
                == 0
        } else {
            let last = self.chunks@.last();
            last.base <= self.start <= self.endaa && self.endaa == last.base
                + last.storage@.len()
        }
        &&& forall|k: int| 0 <= k < self.marks@.len() ==> (#[trigger] self.marks@[k]).1 >= 1
        &&& forall|k: int| 0 <= k < self.free@.len() ==> (#[trigger] self.free@[k]).size >= 1
        &&& forall|k: int|
            0 <= k < self.marks@.len() ==> exists|j: int|
                0 <= j < self.chunks@.len() && region_within(
                    #[trigger] self.chunks@[j],
                    (#[trigger] self.marks@[k]).0 as int,
                    self.marks@[k].1 as int,
                ) && (j == self.chunks@.len() - 1 ==> self.marks@[k].0 + self.marks@[k].1
                    <= self.start)
        &&& forall|k: int|
            0 <= k < self.free@.len() ==> exists|j: int|
                0 <= j < self.chunks@.len() && region_within(
                    #[trigger] self.chunks@[j],
                    (#[trigger] self.free@[k]).start as int,
                    self.free@[k].size as int,
                ) && (j == self.chunks@.len() - 1 ==> self.free@[k].start + self.free@[k].size
                    <= self.start)
        &&& forall|k1: int, k2: int|
            0 <= k1 < k2 < self.marks@.len() ==> regions_disjoint(
                #[trigger] self.marks@[k1],
                #[trigger] self.marks@[k2],
            )
        &&& forall|k1: int, k2: int|
            0 <= k1 < k2 < self.free@.len() ==> regions_disjoint(
                ((#[trigger] self.free@[k1]).start, self.free@[k1].size),
                ((#[trigger] self.free@[k2]).start, self.free@[k2].size),
            )
        &&& forall|k1: int, k2: int|
            0 <= k1 < self.marks@.len() && 0 <= k2 < self.free@.len() ==> regions_disjoint(
                #[trigger] self.marks@[k1],
                ((#[trigger] self.free@[k2]).start, self.free@[k2].size),
            )
        &&& forall|j: int|
            0 <= j < self.chunks@.len() ==> (#[trigger] self.chunks@[j]).entries == live_sum(
                self.marks@,
                self.chunks@[j].base as int,
                self.chunks@[j].base + self.chunks@[j].storage@.len(),
            )
        &&& forall|j: int|
            0 <= j < self.chunks@.len() ==> live_sum(
                self.marks@,
                (#[trigger] self.chunks@[j]).base as int,
                self.chunks@[j].base + self.chunks@[j].storage@.len(),
            ) + free_sum(
                self.free@,
                self.chunks@[j].base as int,
                self.chunks@[j].base + self.chunks@[j].storage@.len(),
            ) <= if j == self.chunks@.len() - 1 {
                self.start - self.chunks@[j].base
            } else {
                self.chunks@[j].storage@.len() as int
            }
    }

    /// The base address the next chunk would get.
    pub open spec fn next_base(self) -> int {
        if self.chunks@.len() == 0 {
            PAGE as int
        } else {
            self.chunks@.last().base + self.chunks@.last().storage@.len()
        }
    }

    /// The capacity the next chunk would get for a request of `size`
    /// elements.
    pub open spec fn grow_cap(self, size: int) -> int {
        let padding = size + 1;
        let doubled = if self.chunks@.len() == 0 {
            PAGE as int
        } else {
            2 * spec_min(self.chunks@.last().storage@.len() as int, HUGE_PAGE as int / 2)
        };
        spec_align_up(spec_max(padding, doubled), PAGE as int)
    }

    /// Whether a request of `size` elements is one the arena can serve.
    pub open spec fn can_alloc(self, size: int) -> bool {
        &&& 1 <= size <= MAX_ALLOC
        &&& self.next_base() + self.grow_cap(size) <= usize::MAX
    }

    /// An empty arena whose fresh storage reads as `filler`.
    pub fn with_filler(filler: T) -> (r: Manual<T>)
        ensures
            r.wf(),
            r.marks@ == Seq::<(usize, usize)>::empty(),
            r.free@ == Seq::<Free>::empty(),
            r.chunks@ == Seq::<Chunk<T>>::empty(),
            r.start == 0,
            r.endaa == 0,
    {
        Manual {
            chunks: Vec::new(),
            start: 0,
            endaa: 0,
            free: Vec::new(),
            filler,
            marks: Ghost(Seq::empty()),
        }
    }

    /// The bump cursor: the lowest address of the current chunk's unused
    /// tail, or the null address zero while the arena has no chunk.
    pub fn start(&self) -> (r: usize)
        ensures
            r == self.start,
    {
        self.start
    }

    /// Checks at run time whether a request can be served; mirrors
    /// [`Manual::can_alloc`].
    pub fn has_room(&self, size: usize) -> (r: bool)
        requires
            self.wf(),
        ensures
            r == self.can_alloc(size as int),
    {
        if !(1 <= size && size <= MAX_ALLOC) {
            return false;
        }
        let next_base = if self.chunks.len() == 0 {
            PAGE
        } else {
            let last = &self.chunks[self.chunks.len() - 1];
            last.base + last.storage.len()
        };
        let padding = size + 1;
        let doubled = if self.chunks.len() == 0 {
            PAGE
        } else {
            let last_len = self.chunks[self.chunks.len() - 1].storage.len();
            2 * (if last_len <= HUGE_PAGE / 2 {
                last_len
            } else {
                HUGE_PAGE / 2
            })
        };
        let wanted = if padding >= doubled {
            padding
        } else {
            doubled
        };
        if wanted > usize::MAX - PAGE {
            return false;
        }
        let cap = align_up(wanted, PAGE);
        proof {
            assert(cap == self.grow_cap(size as int));
        }
        if next_base > usize::MAX - cap {
            proof {
                assert(self.next_base() + self.grow_cap(size as int) > usize::MAX);
            }
            return false;
        }
        true
    }

    /// Appends a chunk big enough for a request of `size` elements, and
    /// resets the bump window to it.
    pub fn grow(&mut self, size: usize)
        requires
            old(self).wf(),
            old(self).can_alloc(size as int),
        ensures
            final(self).wf(),
            final(self).marks@ == old(self).marks@,
            final(self).free@ == old(self).free@,
            final(self).filler == old(self).filler,
            final(self).chunks@.len() == old(self).chunks@.len() + 1,
            final(self).chunks@.subrange(0, old(self).chunks@.len() as int) == old(
                self,
            ).chunks@,
            final(self).chunks@.last().base == old(self).next_base(),
            final(self).chunks@.last().storage@.len() == old(self).grow_cap(size as int),
            final(self).chunks@.last().storage@ == Seq::new(
                old(self).grow_cap(size as int) as nat,
                |i: int| old(self).filler,
            ),
            final(self).chunks@.last().entries == 0,
            final(self).start == final(self).chunks@.last().base,
            final(self).endaa == final(self).chunks@.last().base
                + final(self).chunks@.last().storage@.len(),
            final(self).start + size <= final(self).endaa,
    {
        let ghost pre = *self;
        let base = if self.chunks.len() == 0 {
            PAGE
        } else {
            let last = &self.chunks[self.chunks.len() - 1];
            last.base + last.storage.len()
        };
        let padding = size + 1;
        let doubled = if self.chunks.len() == 0 {
            PAGE
        } else {
            let last_len = self.chunks[self.chunks.len() - 1].storage.len();
            2 * (if last_len <= HUGE_PAGE / 2 {
                last_len
            } else {
                HUGE_PAGE / 2
            })
        };
        let wanted = if padding >= doubled {
            padding
        } else {
            doubled
        };
        let cap = align_up(wanted, PAGE);
        proof {
            assert(cap == pre.grow_cap(size as int));
            assert(cap >= padding);
        }
        let chunk = Chunk::new(cap, base, self.filler);
        self.start = base;
        self.endaa = base + cap;
        let ghost old_chunks = self.chunks@;
        self.chunks.push(chunk);
        proof {
            assert(self.chunks@.subrange(0, old_chunks.len() as int) =~= old_chunks);
            lemma_sums_same_window(pre, *self, old_chunks.len() as int);
            assert(live_sum(
                self.marks@,
                base as int,
                base + cap,
            ) == 0 && free_sum(self.free@, base as int, base + cap) == 0) by {
                lemma_sums_outside_chunks(pre, base as int, base + cap);
            }
            assert forall|k: int| 0 <= k < self.marks@.len() implies exists|j: int|
                0 <= j < self.chunks@.len() && region_within(
                    #[trigger] self.chunks@[j],
                    (#[trigger] self.marks@[k]).0 as int,
                    self.marks@[k].1 as int,
                ) && (j == self.chunks@.len() - 1 ==> self.marks@[k].0 + self.marks@[k].1
                    <= self.start) by {
                let j = choose|j: int|
                    0 <= j < old_chunks.len() && region_within(
                        #[trigger] old_chunks[j],
                        self.marks@[k].0 as int,
                        self.marks@[k].1 as int,
                    ) && (j == old_chunks.len() - 1 ==> self.marks@[k].0 + self.marks@[k].1
                        <= pre.start);
                assert(self.chunks@[j] == old_chunks[j]);
                assert(region_within(
                    self.chunks@[j],
                    self.marks@[k].0 as int,
                    self.marks@[k].1 as int,
                ));
            }
            assert forall|k: int| 0 <= k < self.free@.len() implies exists|j: int|
                0 <= j < self.chunks@.len() && region_within(
                    #[trigger] self.chunks@[j],
                    (#[trigger] self.free@[k]).start as int,
                    self.free@[k].size as int,
                ) && (j == self.chunks@.len() - 1 ==> self.free@[k].start + self.free@[k].size
                    <= self.start) by {
                let j = choose|j: int|
                    0 <= j < old_chunks.len() && region_within(
                        #[trigger] old_chunks[j],
                        self.free@[k].start as int,
                        self.free@[k].size as int,
                    ) && (j == old_chunks.len() - 1 ==> self.free@[k].start
                        + self.free@[k].size <= pre.start);
                assert(self.chunks@[j] == old_chunks[j]);
                assert(region_within(
                    self.chunks@[j],
                    self.free@[k].start as int,
                    self.free@[k].size as int,
                ));
            }
        }
    }
}

/// The live and free sums of the windows of the old chunks do not change
/// when the state around them changes but the lists do not.
proof fn lemma_sums_same_window<T: Copy>(pre: Manual<T>, post: Manual<T>, n: int)
    requires
        pre.marks@ == post.marks@,
        pre.free@ == post.free@,
    ensures
        forall|lo: int, hi: int|
            #![trigger live_sum(post.marks@, lo, hi)]
            live_sum(post.marks@, lo, hi) == live_sum(pre.marks@, lo, hi),
        forall|lo: int, hi: int|
            #![trigger free_sum(post.free@, lo, hi)]
            free_sum(post.free@, lo, hi) == free_sum(pre.free@, lo, hi),
{
}

/// Regions that all lie inside the existing chunks contribute nothing to
/// a window beyond those chunks.
proof fn lemma_sums_outside_chunks<T: Copy>(m: Manual<T>, lo: int, hi: int)
    requires
        m.wf(),
        lo >= m.next_base(),
        lo <= hi,
    ensures
        live_sum(m.marks@, lo, hi) == 0,
        free_sum(m.free@, lo, hi) == 0,
{
    lemma_live_sum_outside(m, m.marks@, lo, hi);
    lemma_free_sum_outside(m, m.free@, lo, hi);
}

/// Helper for [`lemma_sums_outside_chunks`]: live regions lie below the
/// next chunk base.
proof fn lemma_live_sum_outside<T: Copy>(m: Manual<T>, ms: Seq<(usize, usize)>, lo: int, hi: int)
    requires
        m.wf(),
        lo >= m.next_base(),
        forall|k: int|
            0 <= k < ms.len() ==> exists|j: int|
                0 <= j < m.chunks@.len() && region_within(
                    #[trigger] m.chunks@[j],
                    (#[trigger] ms[k]).0 as int,
                    ms[k].1 as int,
                ),
        forall|k: int| 0 <= k < ms.len() ==> (#[trigger] ms[k]).1 >= 1,
    ensures
        live_sum(ms, lo, hi) == 0,
    decreases ms.len(),
{
    if ms.len() > 0 {
        let k = ms.len() - 1;
        let j = choose|j: int|
            0 <= j < m.chunks@.len() && region_within(
                #[trigger] m.chunks@[j],
                ms[k].0 as int,
                ms[k].1 as int,
            );
        assert(m.chunks@[j].base + m.chunks@[j].storage@.len() <= m.next_base()) by {
            if j < m.chunks@.len() - 1 {
                assert(m.chunks@[j].base + m.chunks@[j].storage@.len()
                    <= m.chunks@[m.chunks@.len() - 1].base);
            }
        }
        assert(ms[k].0 + ms[k].1 <= m.next_base());
        assert(!pair_within(ms[k].0 as int, ms[k].1 as int, lo, hi));
        assert(ms.drop_last() =~= ms.subrange(0, k));
        assert forall|k2: int| 0 <= k2 < ms.drop_last().len() implies exists|j2: int|
            0 <= j2 < m.chunks@.len() && region_within(
                #[trigger] m.chunks@[j2],
                (#[trigger] ms.drop_last()[k2]).0 as int,
                ms.drop_last()[k2].1 as int,
            ) by {
            assert(ms.drop_last()[k2] == ms[k2]);
            let j2 = choose|j2: int|
                0 <= j2 < m.chunks@.len() && region_within(
                    #[trigger] m.chunks@[j2],
                    ms[k2].0 as int,
                    ms[k2].1 as int,
                );
            assert(region_within(
                m.chunks@[j2],
                ms.drop_last()[k2].0 as int,
                ms.drop_last()[k2].1 as int,
            ));
        }
        lemma_live_sum_outside(m, ms.drop_last(), lo, hi);
    }
}

/// Helper for [`lemma_sums_outside_chunks`]: free ranges lie below the
/// next chunk base.
proof fn lemma_free_sum_outside<T: Copy>(m: Manual<T>, fs: Seq<Free>, lo: int, hi: int)
    requires
        m.wf(),
        lo >= m.next_base(),
        forall|k: int|
            0 <= k < fs.len() ==> exists|j: int|
                0 <= j < m.chunks@.len() && region_within(
                    #[trigger] m.chunks@[j],
                    (#[trigger] fs[k]).start as int,
                    fs[k].size as int,
                ),
        forall|k: int| 0 <= k < fs.len() ==> (#[trigger] fs[k]).size >= 1,
    ensures
        free_sum(fs, lo, hi) == 0,
    decreases fs.len(),
{
    if fs.len() > 0 {
        let k = fs.len() - 1;
        let j = choose|j: int|
            0 <= j < m.chunks@.len() && region_within(
                #[trigger] m.chunks@[j],
                fs[k].start as int,
                fs[k].size as int,
            );
        assert(m.chunks@[j].base + m.chunks@[j].storage@.len() <= m.next_base()) by {
            if j < m.chunks@.len() - 1 {
                assert(m.chunks@[j].base + m.chunks@[j].storage@.len()
                    <= m.chunks@[m.chunks@.len() - 1].base);
            }
        }
        assert(!pair_within(fs[k].start as int, fs[k].size as int, lo, hi));
        assert forall|k2: int| 0 <= k2 < fs.drop_last().len() implies exists|j2: int|
            0 <= j2 < m.chunks@.len() && region_within(
                #[trigger] m.chunks@[j2],
                (#[trigger] fs.drop_last()[k2]).start as int,
                fs.drop_last()[k2].size as int,
            ) by {
            assert(fs.drop_last()[k2] == fs[k2]);
            let j2 = choose|j2: int|
                0 <= j2 < m.chunks@.len() && region_within(
                    #[trigger] m.chunks@[j2],
                    fs[k2].start as int,
                    fs[k2].size as int,
                );
            assert(region_within(
                m.chunks@[j2],
                fs.drop_last()[k2].start as int,
                fs.drop_last()[k2].size as int,
            ));
        }
        lemma_free_sum_outside(m, fs.drop_last(), lo, hi);
    }
}


impl<T: Copy> Manual<T> {
    /// Adds `count` live entries to the chunk that owns `ptr`.
    fn update_chunks(&mut self, ptr: usize, count: usize)
        requires
            chunks_ordered(old(self).chunks@),
            chunk_has(old(self).chunks@, ptr as int),
            old(self).chunks@[chunk_at(old(self).chunks@, ptr as int)].entries + count
                <= usize::MAX,
        ensures
            final(self).chunks@.len() == old(self).chunks@.len(),
            forall|i: int|
                0 <= i < old(self).chunks@.len() && i != chunk_at(old(self).chunks@, ptr as int)
                    ==> final(self).chunks@[i] == old(self).chunks@[i],
            ({
                let j = chunk_at(old(self).chunks@, ptr as int);
                &&& final(self).chunks@[j].base == old(self).chunks@[j].base
                &&& final(self).chunks@[j].storage == old(self).chunks@[j].storage
                &&& final(self).chunks@[j].entries == old(self).chunks@[j].entries + count
            }),
            final(self).start == old(self).start,
            final(self).endaa == old(self).endaa,
            final(self).free == old(self).free,
            final(self).marks == old(self).marks,
            final(self).filler == old(self).filler,
    {
        let ghost cs = self.chunks@;
        let mut j: usize = 0;
        loop
            invariant
                *self == *old(self),
                cs == self.chunks@,
                j <= cs.len(),
                chunk_has(cs, ptr as int),
                forall|i: int| 0 <= i < j ==> !span_contains(#[trigger] cs[i], ptr as int),
            ensures
                j < cs.len(),
                span_contains(cs[j as int], ptr as int),
            decreases cs.len() - j,
        {
            if j >= self.chunks.len() {
                proof {
                    let w = chunk_at(cs, ptr as int);
                    assert(span_contains(cs[w], ptr as int));
                    assert(false);
                }
            }
            let c = &self.chunks[j];
            if c.base <= ptr && ptr - c.base < c.storage.len() {
                break ;
            }
            j = j + 1;
        }
        proof {
            crate::arena::chunk::lemma_owner_unique(cs, ptr as int, j as int);
        }
        let mut c = self.chunks.remove(j);
        c.entries = c.entries + count;
        self.chunks.insert(j, c);
        proof {
            assert(self.chunks@ =~= cs.update(j as int, c));
        }
    }

    /// Removes `count` live entries from the chunk that owns `ptr`.
    fn shed_entries(&mut self, ptr: usize, count: usize)
        requires
            chunks_ordered(old(self).chunks@),
            chunk_has(old(self).chunks@, ptr as int),
            old(self).chunks@[chunk_at(old(self).chunks@, ptr as int)].entries >= count,
        ensures
            final(self).chunks@.len() == old(self).chunks@.len(),
            forall|i: int|
                0 <= i < old(self).chunks@.len() && i != chunk_at(old(self).chunks@, ptr as int)
                    ==> final(self).chunks@[i] == old(self).chunks@[i],
            ({
                let j = chunk_at(old(self).chunks@, ptr as int);
                &&& final(self).chunks@[j].base == old(self).chunks@[j].base
                &&& final(self).chunks@[j].storage == old(self).chunks@[j].storage
                &&& final(self).chunks@[j].entries == old(self).chunks@[j].entries - count
            }),
            final(self).start == old(self).start,
            final(self).endaa == old(self).endaa,
            final(self).free == old(self).free,
            final(self).marks == old(self).marks,
            final(self).filler == old(self).filler,
    {
        let ghost cs = self.chunks@;
        let mut j: usize = 0;
        loop
            invariant
                *self == *old(self),
                cs == self.chunks@,
                j <= cs.len(),
                chunk_has(cs, ptr as int),
                forall|i: int| 0 <= i < j ==> !span_contains(#[trigger] cs[i], ptr as int),
            ensures
                j < cs.len(),
                span_contains(cs[j as int], ptr as int),
            decreases cs.len() - j,
        {
            if j >= self.chunks.len() {
                proof {
                    let w = chunk_at(cs, ptr as int);
                    assert(span_contains(cs[w], ptr as int));
                    assert(false);
                }
            }
            let c = &self.chunks[j];
            if c.base <= ptr && ptr - c.base < c.storage.len() {
                break ;
            }
            j = j + 1;
        }
        proof {
            crate::arena::chunk::lemma_owner_unique(cs, ptr as int, j as int);
        }
        let mut c = self.chunks.remove(j);
        c.entries = c.entries - count;
        self.chunks.insert(j, c);
        proof {
            assert(self.chunks@ =~= cs.update(j as int, c));
        }
    }
}


/// Common shape of the state after taking `size` elements out of the
/// free range `f`: the new live region is `f`'s prefix, the owning
/// chunk's counter grew by `size`, and nothing else moved.
spec fn reuse_shape<T: Copy>(pre: Manual<T>, post: Manual<T>, f: Free, size: usize) -> bool {
    let fj = chunk_at(pre.chunks@, f.start as int);
    &&& post.marks@ == pre.marks@.push((f.start, size))
    &&& post.start == pre.start
    &&& post.endaa == pre.endaa
    &&& post.chunks@.len() == pre.chunks@.len()
    &&& forall|i: int| 0 <= i < pre.chunks@.len() && i != fj ==> post.chunks@[i] == pre.chunks@[i]
    &&& post.chunks@[fj].base == pre.chunks@[fj].base
    &&& post.chunks@[fj].storage == pre.chunks@[fj].storage
    &&& post.chunks@[fj].entries == pre.chunks@[fj].entries + size
}

/// Facts common to both reuse branches of `allocate`.
proof fn lemma_reuse_common<T: Copy>(pre: Manual<T>, post: Manual<T>, w: int, size: usize)
    requires
        pre.wf(),
        1 <= size,
        0 <= w < pre.free@.len(),
        size <= pre.free@[w].size,
        reuse_shape(pre, post, pre.free@[w], size),
    ensures
        chunks_ordered(post.chunks@),
        forall|a: int| chunk_has(pre.chunks@, a) ==> chunk_has(post.chunks@, a) && value_at(
            post.chunks@,
            a,
        ) == value_at(pre.chunks@, a),
        region_in_chunks(post.chunks@, pre.free@[w].start as int, size as int),
        forall|k: int|
            0 <= k < pre.marks@.len() ==> regions_disjoint(
                (pre.free@[w].start, size),
                #[trigger] pre.marks@[k],
            ),
        // every mark of the new state sits in a chunk, below the cursor in
        // the last one
        forall|k: int|
            0 <= k < post.marks@.len() ==> exists|j: int|
                0 <= j < post.chunks@.len() && region_within(
                    #[trigger] post.chunks@[j],
                    (#[trigger] post.marks@[k]).0 as int,
                    post.marks@[k].1 as int,
                ) && (j == post.chunks@.len() - 1 ==> post.marks@[k].0 + post.marks@[k].1
                    <= post.start),
        forall|k: int| 0 <= k < post.marks@.len() ==> (#[trigger] post.marks@[k]).1 >= 1,
        forall|k1: int, k2: int|
            0 <= k1 < k2 < post.marks@.len() ==> regions_disjoint(
                #[trigger] post.marks@[k1],
                #[trigger] post.marks@[k2],
            ),
        // chunk counters match the live sums of the new mark list
        forall|j: int|
            0 <= j < post.chunks@.len() ==> (#[trigger] post.chunks@[j]).entries == live_sum(
                post.marks@,
                post.chunks@[j].base as int,
                post.chunks@[j].base + post.chunks@[j].storage@.len(),
            ),
{
    let f = pre.free@[w];
    let cs1 = pre.chunks@;
    let cs2 = post.chunks@;
    let fj = choose|j: int|
        0 <= j < cs1.len() && region_within(#[trigger] cs1[j], f.start as int, f.size as int)
            && (j == cs1.len() - 1 ==> f.start + f.size <= pre.start);
    assert(span_contains(cs1[fj], f.start as int));
    crate::arena::chunk::lemma_owner_unique(cs1, f.start as int, fj);
    assert(chunk_at(cs1, f.start as int) == fj);
    crate::arena::chunk::lemma_same_layout(cs1, cs2);
    assert(region_within(cs2[fj], f.start as int, size as int));
    assert(region_in_chunks(cs2, f.start as int, size as int));
    // freshness: the prefix of a free range is disjoint from every mark
    assert forall|k: int| 0 <= k < pre.marks@.len() implies regions_disjoint(
        (f.start, size),
        #[trigger] pre.marks@[k],
    ) by {
        lemma_subregion_disjoint((f.start, size), (f.start, f.size), pre.marks@[k]);
    }
    // mark locations
    assert forall|k: int| 0 <= k < post.marks@.len() implies exists|j: int|
        0 <= j < cs2.len() && region_within(
            #[trigger] cs2[j],
            (#[trigger] post.marks@[k]).0 as int,
            post.marks@[k].1 as int,
        ) && (j == cs2.len() - 1 ==> post.marks@[k].0 + post.marks@[k].1 <= post.start) by {
        if k < pre.marks@.len() {
            let m = pre.marks@[k];
            let j = choose|j: int|
                0 <= j < cs1.len() && region_within(#[trigger] cs1[j], m.0 as int, m.1 as int)
                    && (j == cs1.len() - 1 ==> m.0 + m.1 <= pre.start);
            assert(cs2[j].base == cs1[j].base && cs2[j].storage == cs1[j].storage);
            assert(region_within(cs2[j], m.0 as int, m.1 as int));
            assert(post.marks@[k] == m);
        } else {
            assert(post.marks@[k] == (f.start, size));
            assert(region_within(cs2[fj], f.start as int, size as int));
            assert(fj == cs2.len() - 1 ==> f.start + size <= f.start + f.size <= post.start);
        }
    }
    // mark disjointness
    assert forall|k1: int, k2: int| 0 <= k1 < k2 < post.marks@.len() implies regions_disjoint(
        #[trigger] post.marks@[k1],
        #[trigger] post.marks@[k2],
    ) by {
        if k2 == post.marks@.len() - 1 {
            lemma_subregion_disjoint((f.start, size), (f.start, f.size), pre.marks@[k1]);
        }
    }
    // counters
    assert forall|j: int| 0 <= j < cs2.len() implies (#[trigger] cs2[j]).entries == live_sum(
        post.marks@,
        cs2[j].base as int,
        cs2[j].base + cs2[j].storage@.len(),
    ) by {
        let lo = cs2[j].base as int;
        let hi = cs2[j].base + cs2[j].storage@.len();
        lemma_live_sum_push(pre.marks@, (f.start, size), lo, hi);
        assert(cs2[j].base == cs1[j].base && cs2[j].storage == cs1[j].storage);
        if j == fj {
            assert(pair_within(f.start as int, size as int, lo, hi));
        } else {
            if j < fj {
                assert(cs1[j].base + cs1[j].storage@.len() <= cs1[fj].base);
            } else {
                assert(cs1[fj].base + cs1[fj].storage@.len() <= cs1[j].base);
            }
            assert(!pair_within(f.start as int, size as int, lo, hi));
        }
    }
}

impl<T: Copy> Manual<T> {
    /// Allocates `size` elements and returns their address. An exact-size
    /// free range is reused whole (the first one in free-list order); a
    /// larger one gives up its prefix; otherwise the request comes off
    /// the bump cursor, growing a new chunk when the current one is
    /// exhausted. The result is disjoint from every live region, and no
    /// stored value moves.
    #[verifier::rlimit(100)]
    pub fn allocate(&mut self, size: usize) -> (addr: usize)
        requires
            old(self).wf(),
            old(self).can_alloc(size as int),
        ensures
            final(self).wf(),
            final(self).marks@ == old(self).marks@.push((addr, size)),
            forall|k: int|
                0 <= k < old(self).marks@.len() ==> regions_disjoint(
                    (addr, size),
                    #[trigger] old(self).marks@[k],
                ),
            region_in_chunks(final(self).chunks@, addr as int, size as int),
            forall|a: int|
                chunk_has(old(self).chunks@, a) ==> chunk_has(final(self).chunks@, a)
                    && value_at(final(self).chunks@, a) == value_at(old(self).chunks@, a),
            final(self).filler == old(self).filler,
            old(self).chunks@.len() <= final(self).chunks@.len() <= old(self).chunks@.len() + 1,
            forall|i: int|
                0 <= i < old(self).chunks@.len() ==> (#[trigger] final(self).chunks@[i]).base
                    == old(self).chunks@[i].base && final(self).chunks@[i].storage == old(
                    self,
                ).chunks@[i].storage,
            forall|i: int|
                0 <= i < old(self).chunks@.len() && i != chunk_at(
                    final(self).chunks@,
                    addr as int,
                ) ==> (#[trigger] final(self).chunks@[i]).entries == old(
                    self,
                ).chunks@[i].entries,
            has_exact(old(self).free@, size as int) ==> addr == exact_fit_addr(
                old(self).free@,
                size as int,
            ) && final(self).free@ == old(self).free@.remove(
                first_exact_idx(old(self).free@, size as int),
            ),
            !has_exact(old(self).free@, size as int) && has_larger(old(self).free@, size as int)
                ==> ({
                let w = first_larger_idx(old(self).free@, size as int);
                addr == old(self).free@[w].start && final(self).free@ == old(self).free@.update(
                    w,
                    Free {
                        start: (old(self).free@[w].start + size) as usize,
                        size: (old(self).free@[w].size - size) as usize,
                    },
                )
            }),
            !has_exact(old(self).free@, size as int) && !has_larger(old(self).free@, size as int)
                ==> final(self).free@ == old(self).free@,
    {
        let ghost pre = *self;
        // Prefer an exact-size free range.
        let mut i: usize = 0;
        while i < self.free.len()
            invariant
                *self == pre,
                pre == *old(self),
                pre.wf(),
                1 <= size <= MAX_ALLOC,
                i <= self.free@.len(),
                forall|q: int| 0 <= q < i ==> (#[trigger] self.free@[q]).size != size,
            decreases self.free@.len() - i,
        {
            if self.free[i].size == size {
                let f = self.free[i];
                proof {
                    lemma_first_exact_at(pre.free@, size as int, i as int);
                }
                self.free.remove(i);
                proof {
                    lemma_entries_headroom(pre, i as int, size);
                }
                self.update_chunks(f.start, size);
                proof {
                    self.marks@ = pre.marks@.push((f.start, size));
                    assert(reuse_shape(pre, *self, f, size));
                    lemma_reuse_common(pre, *self, i as int, size);
                    lemma_wf_after_exact(pre, *self, i as int, size);
                }
                return f.start;
            }
            i = i + 1;
        }
        proof {
            assert(!has_exact(pre.free@, size as int));
        }
        // Then split the prefix off a larger free range.
        let mut i2: usize = 0;
        while i2 < self.free.len()
            invariant
                *self == pre,
                pre == *old(self),
                pre.wf(),
                1 <= size <= MAX_ALLOC,
                !has_exact(pre.free@, size as int),
                i2 <= self.free@.len(),
                forall|q: int| 0 <= q < i2 ==> (#[trigger] self.free@[q]).size <= size,
            decreases self.free@.len() - i2,
        {
            if self.free[i2].size > size {
                let f = self.free[i2];
                proof {
                    lemma_first_larger_at(pre.free@, size as int, i2 as int);
                }
                let rest = Free { start: f.start + size, size: f.size - size };
                self.free.set(i2, rest);
                proof {
                    lemma_entries_headroom(pre, i2 as int, size);
                }
                self.update_chunks(f.start, size);
                proof {
                    self.marks@ = pre.marks@.push((f.start, size));
                    assert(reuse_shape(pre, *self, f, size));
                    lemma_reuse_common(pre, *self, i2 as int, size);
                    lemma_wf_after_split(pre, *self, i2 as int, size);
                }
                return f.start;
            }
            i2 = i2 + 1;
        }
        proof {
            assert(!has_larger(pre.free@, size as int));
        }
        // Fall back to the bump cursor.
        if !(self.chunks.len() > 0 && self.endaa - self.start >= size) {
            self.grow(size);
        }
        let ghost mid = *self;
        let addr = self.start;
        self.start = addr + size;
        let ghost mid2 = *self;
        proof {
            assert(chunk_has(mid.chunks@, addr as int)) by {
                assert(span_contains(
                    mid.chunks@[mid.chunks@.len() - 1],
                    addr as int,
                ));
            }
            crate::arena::chunk::lemma_owner_unique(
                mid.chunks@,
                addr as int,
                mid.chunks@.len() - 1,
            );
            assert(mid2.chunks@[mid.chunks@.len() - 1].entries + size <= usize::MAX) by {
                lemma_bump_headroom(mid, size);
            }
        }
        self.update_chunks(addr, size);
        proof {
            self.marks@ = mid.marks@.push((addr, size));
            lemma_wf_after_bump(pre, mid, *self, addr, size);
        }
        addr
    }
}

/// The owning chunk's counter has headroom for the reused prefix.
proof fn lemma_entries_headroom<T: Copy>(pre: Manual<T>, w: int, size: usize)
    requires
        pre.wf(),
        0 <= w < pre.free@.len(),
        1 <= size <= pre.free@[w].size,
    ensures
        chunk_has(pre.chunks@, pre.free@[w].start as int),
        pre.chunks@[chunk_at(pre.chunks@, pre.free@[w].start as int)].entries + size
            <= usize::MAX,
{
    let f = pre.free@[w];
    let cs = pre.chunks@;
    let fj = choose|j: int|
        0 <= j < cs.len() && region_within(#[trigger] cs[j], f.start as int, f.size as int) && (
        j == cs.len() - 1 ==> f.start + f.size <= pre.start);
    assert(span_contains(cs[fj], f.start as int));
    crate::arena::chunk::lemma_owner_unique(cs, f.start as int, fj);
    let lo = cs[fj].base as int;
    let hi = cs[fj].base + cs[fj].storage@.len();
    lemma_free_sum_member(pre.free@, w, lo, hi);
    assert(live_sum(pre.marks@, lo, hi) + free_sum(pre.free@, lo, hi) <= hi - lo);
}

/// The current chunk's counter has headroom for a bump allocation.
proof fn lemma_bump_headroom<T: Copy>(mid: Manual<T>, size: usize)
    requires
        mid.wf(),
        mid.chunks@.len() > 0,
        mid.start + size <= mid.endaa,
    ensures
        mid.chunks@.last().entries + size <= usize::MAX,
{
    let n = mid.chunks@.len() - 1;
    let lo = mid.chunks@[n].base as int;
    let hi = mid.chunks@[n].base + mid.chunks@[n].storage@.len();
    lemma_free_sum_nonneg(mid.free@, lo, hi);
    assert(live_sum(mid.marks@, lo, hi) + free_sum(mid.free@, lo, hi) <= mid.start - lo);
}

/// Remaining well-formedness clauses after an exact-fit reuse: the free
/// list lost exactly the reused range.
proof fn lemma_wf_after_exact<T: Copy>(pre: Manual<T>, post: Manual<T>, w: int, size: usize)
    requires
        pre.wf(),
        1 <= size,
        0 <= w < pre.free@.len(),
        size == pre.free@[w].size,
        reuse_shape(pre, post, pre.free@[w], size),
        post.free@ == pre.free@.remove(w),
        post.filler == pre.filler,
    ensures
        post.wf(),
{
    let f = pre.free@[w];
    let cs1 = pre.chunks@;
    let cs2 = post.chunks@;
    lemma_reuse_common(pre, post, w, size);
    assert(cs2.len() > 0);
    assert(cs2.last().base == cs1.last().base && cs2.last().storage == cs1.last().storage);
    // free ranges: each survivor was a range of the old list
    assert forall|k: int| 0 <= k < post.free@.len() implies (#[trigger] post.free@[k]).size >= 1
        && exists|j: int|
        0 <= j < cs2.len() && region_within(
            #[trigger] cs2[j],
            post.free@[k].start as int,
            post.free@[k].size as int,
        ) && (j == cs2.len() - 1 ==> post.free@[k].start + post.free@[k].size <= post.start) by {
        let k0 = if k < w {
            k
        } else {
            k + 1
        };
        assert(post.free@[k] == pre.free@[k0]);
        let g = pre.free@[k0];
        let j = choose|j: int|
            0 <= j < cs1.len() && region_within(#[trigger] cs1[j], g.start as int, g.size as int)
                && (j == cs1.len() - 1 ==> g.start + g.size <= pre.start);
        assert(cs2[j].base == cs1[j].base && cs2[j].storage == cs1[j].storage);
        assert(region_within(cs2[j], g.start as int, g.size as int));
    }
    // free-free disjointness among survivors
    assert forall|k1: int, k2: int| 0 <= k1 < k2 < post.free@.len() implies regions_disjoint(
        ((#[trigger] post.free@[k1]).start, post.free@[k1].size),
        ((#[trigger] post.free@[k2]).start, post.free@[k2].size),
    ) by {
        let a = if k1 < w {
            k1
        } else {
            k1 + 1
        };
        let b = if k2 < w {
            k2
        } else {
            k2 + 1
        };
        assert(post.free@[k1] == pre.free@[a]);
        assert(post.free@[k2] == pre.free@[b]);
    }
    // marks-free disjointness
    assert forall|k1: int, k2: int|
        0 <= k1 < post.marks@.len() && 0 <= k2 < post.free@.len() implies regions_disjoint(
        #[trigger] post.marks@[k1],
        ((#[trigger] post.free@[k2]).start, post.free@[k2].size),
    ) by {
        let b = if k2 < w {
            k2
        } else {
            k2 + 1
        };
        assert(post.free@[k2] == pre.free@[b]);
        if k1 < pre.marks@.len() {
            assert(post.marks@[k1] == pre.marks@[k1]);
        } else {
            assert(post.marks@[k1] == (f.start, size));
            assert(b != w);
            lemma_subregion_disjoint(
                (f.start, size),
                (f.start, f.size),
                (pre.free@[b].start, pre.free@[b].size),
            );
        }
    }
    // capacity accounting
    assert forall|j: int| 0 <= j < cs2.len() implies live_sum(
        post.marks@,
        (#[trigger] cs2[j]).base as int,
        cs2[j].base + cs2[j].storage@.len(),
    ) + free_sum(post.free@, cs2[j].base as int, cs2[j].base + cs2[j].storage@.len()) <= (if j
        == cs2.len() - 1 {
        post.start - cs2[j].base
    } else {
        cs2[j].storage@.len() as int
    }) by {
        let lo = cs2[j].base as int;
        let hi = cs2[j].base + cs2[j].storage@.len();
        assert(cs2[j].base == cs1[j].base && cs2[j].storage == cs1[j].storage);
        lemma_live_sum_push(pre.marks@, (f.start, size), lo, hi);
        lemma_free_sum_remove(pre.free@, w, lo, hi);
    }
}

/// Remaining well-formedness clauses after a prefix split: the matched
/// free range shrank to its tail.
proof fn lemma_wf_after_split<T: Copy>(pre: Manual<T>, post: Manual<T>, w: int, size: usize)
    requires
        pre.wf(),
        1 <= size,
        0 <= w < pre.free@.len(),
        size < pre.free@[w].size,
        reuse_shape(pre, post, pre.free@[w], size),
        post.free@ == pre.free@.update(
            w,
            Free {
                start: (pre.free@[w].start + size) as usize,
                size: (pre.free@[w].size - size) as usize,
            },
        ),
        post.filler == pre.filler,
    ensures
        post.wf(),
{
    let f = pre.free@[w];
    let rest = Free { start: (f.start + size) as usize, size: (f.size - size) as usize };
    let cs1 = pre.chunks@;
    let cs2 = post.chunks@;
    lemma_reuse_common(pre, post, w, size);
    assert(cs2.last().base == cs1.last().base && cs2.last().storage == cs1.last().storage);
    // free ranges: the shrunk one stays inside the old one's chunk
    assert forall|k: int| 0 <= k < post.free@.len() implies (#[trigger] post.free@[k]).size >= 1
        && exists|j: int|
        0 <= j < cs2.len() && region_within(
            #[trigger] cs2[j],
            post.free@[k].start as int,
            post.free@[k].size as int,
        ) && (j == cs2.len() - 1 ==> post.free@[k].start + post.free@[k].size <= post.start) by {
        let g = pre.free@[k];
        let j = choose|j: int|
            0 <= j < cs1.len() && region_within(#[trigger] cs1[j], g.start as int, g.size as int)
                && (j == cs1.len() - 1 ==> g.start + g.size <= pre.start);
        assert(cs2[j].base == cs1[j].base && cs2[j].storage == cs1[j].storage);
        if k == w {
            assert(post.free@[k] == rest);
            assert(region_within(cs2[j], rest.start as int, rest.size as int));
        } else {
            assert(post.free@[k] == g);
            assert(region_within(cs2[j], g.start as int, g.size as int));
        }
    }
    // free-free disjointness
    assert forall|k1: int, k2: int| 0 <= k1 < k2 < post.free@.len() implies regions_disjoint(
        ((#[trigger] post.free@[k1]).start, post.free@[k1].size),
        ((#[trigger] post.free@[k2]).start, post.free@[k2].size),
    ) by {
        if k1 == w {
            lemma_subregion_disjoint(
                (rest.start, rest.size),
                (f.start, f.size),
                (pre.free@[k2].start, pre.free@[k2].size),
            );
        } else if k2 == w {
            lemma_subregion_disjoint(
                (rest.start, rest.size),
                (f.start, f.size),
                (pre.free@[k1].start, pre.free@[k1].size),
            );
        }
    }
    // marks-free disjointness: the new mark is the prefix, the shrunk
    // range is the tail
    assert forall|k1: int, k2: int|
        0 <= k1 < post.marks@.len() && 0 <= k2 < post.free@.len() implies regions_disjoint(
        #[trigger] post.marks@[k1],
        ((#[trigger] post.free@[k2]).start, post.free@[k2].size),
    ) by {
        if k1 < pre.marks@.len() {
            if k2 == w {
                lemma_subregion_disjoint(
                    (rest.start, rest.size),
                    (f.start, f.size),
                    pre.marks@[k1],
                );
            }
        } else {
            assert(post.marks@[k1] == (f.start, size));
            if k2 == w {
                assert(f.start + size <= rest.start);
            } else {
                lemma_subregion_disjoint(
                    (f.start, size),
                    (f.start, f.size),
                    (pre.free@[k2].start, pre.free@[k2].size),
                );
            }
        }
    }
    // capacity accounting: the prefix moved from free to live
    assert forall|j: int| 0 <= j < cs2.len() implies live_sum(
        post.marks@,
        (#[trigger] cs2[j]).base as int,
        cs2[j].base + cs2[j].storage@.len(),
    ) + free_sum(post.free@, cs2[j].base as int, cs2[j].base + cs2[j].storage@.len()) <= (if j
        == cs2.len() - 1 {
        post.start - cs2[j].base
    } else {
        cs2[j].storage@.len() as int
    }) by {
        let lo = cs2[j].base as int;
        let hi = cs2[j].base + cs2[j].storage@.len();
        assert(cs2[j].base == cs1[j].base && cs2[j].storage == cs1[j].storage);
        lemma_live_sum_push(pre.marks@, (f.start, size), lo, hi);
        lemma_free_sum_update(pre.free@, w, rest, lo, hi);
        if pair_within(f.start as int, f.size as int, lo, hi) {
            assert(pair_within(rest.start as int, rest.size as int, lo, hi));
            assert(pair_within(f.start as int, size as int, lo, hi));
        } else {
            let fj = chunk_at(cs1, f.start as int);
            if j == fj {
                assert(region_within(cs1[j], f.start as int, f.size as int)) by {
                    let jj = choose|jj: int|
                        0 <= jj < cs1.len() && region_within(
                            #[trigger] cs1[jj],
                            f.start as int,
                            f.size as int,
                        ) && (jj == cs1.len() - 1 ==> f.start + f.size <= pre.start);
                    assert(span_contains(cs1[jj], f.start as int));
                    crate::arena::chunk::lemma_owner_unique(cs1, f.start as int, jj);
                }
                assert(pair_within(f.start as int, f.size as int, lo, hi));
            } else {
                if j < fj {
                    assert(cs1[j].base + cs1[j].storage@.len() <= cs1[fj].base);
                } else {
                    assert(cs1[fj].base + cs1[fj].storage@.len() <= cs1[j].base);
                }
                assert(region_within(cs1[fj], f.start as int, f.size as int)) by {
                    let jj = choose|jj: int|
                        0 <= jj < cs1.len() && region_within(
                            #[trigger] cs1[jj],
                            f.start as int,
                            f.size as int,
                        ) && (jj == cs1.len() - 1 ==> f.start + f.size <= pre.start);
                    assert(span_contains(cs1[jj], f.start as int));
                    crate::arena::chunk::lemma_owner_unique(cs1, f.start as int, jj);
                }
                assert(!pair_within(f.start as int, size as int, lo, hi));
                assert(!pair_within(rest.start as int, rest.size as int, lo, hi));
            }
        }
    }
}

/// Remaining well-formedness clauses after a bump allocation off the
/// cursor of the (possibly freshly grown) current chunk.
proof fn lemma_wf_after_bump<T: Copy>(
    pre: Manual<T>,
    mid: Manual<T>,
    post: Manual<T>,
    addr: usize,
    size: usize,
)
    requires
        pre.wf(),
        mid.wf(),
        1 <= size,
        mid.chunks@.len() > 0,
        addr == mid.start,
        mid.start + size <= mid.endaa,
        mid.marks@ == pre.marks@,
        mid.free@ == pre.free@,
        mid.filler == pre.filler,
        forall|a: int|
            chunk_has(pre.chunks@, a) ==> chunk_has(mid.chunks@, a) && value_at(mid.chunks@, a)
                == value_at(pre.chunks@, a),
        post.marks@ == mid.marks@.push((addr, size)),
        post.free@ == mid.free@,
        post.filler == mid.filler,
        post.start == addr + size,
        post.endaa == mid.endaa,
        post.chunks@.len() == mid.chunks@.len(),
        forall|i: int|
            0 <= i < mid.chunks@.len() && i != mid.chunks@.len() - 1 ==> post.chunks@[i]
                == mid.chunks@[i],
        post.chunks@.last().base == mid.chunks@.last().base,
        post.chunks@.last().storage == mid.chunks@.last().storage,
        post.chunks@.last().entries == mid.chunks@.last().entries + size,
    ensures
        post.wf(),
        post.marks@ == pre.marks@.push((addr, size)),
        forall|k: int|
            0 <= k < pre.marks@.len() ==> regions_disjoint(
                (addr, size),
                #[trigger] pre.marks@[k],
            ),
        region_in_chunks(post.chunks@, addr as int, size as int),
        forall|a: int|
            chunk_has(pre.chunks@, a) ==> chunk_has(post.chunks@, a) && value_at(post.chunks@, a)
                == value_at(pre.chunks@, a),
{
    let cs1 = mid.chunks@;
    let cs2 = post.chunks@;
    let n = cs1.len() - 1;
    crate::arena::chunk::lemma_same_layout(cs1, cs2);
    assert(region_within(cs2[n], addr as int, size as int));
    assert(region_in_chunks(cs2, addr as int, size as int));
    // freshness: every old mark ends at or below the old cursor
    assert forall|k: int| 0 <= k < mid.marks@.len() implies regions_disjoint(
        (addr, size),
        #[trigger] mid.marks@[k],
    ) by {
        let m = mid.marks@[k];
        let j = choose|j: int|
            0 <= j < cs1.len() && region_within(#[trigger] cs1[j], m.0 as int, m.1 as int) && (j
                == cs1.len() - 1 ==> m.0 + m.1 <= mid.start);
        if j < n {
            assert(cs1[j].base + cs1[j].storage@.len() <= cs1[n].base);
        }
        assert(m.0 + m.1 <= addr);
    }
    // mark locations
    assert forall|k: int| 0 <= k < post.marks@.len() implies exists|j: int|
        0 <= j < cs2.len() && region_within(
            #[trigger] cs2[j],
            (#[trigger] post.marks@[k]).0 as int,
            post.marks@[k].1 as int,
        ) && (j == cs2.len() - 1 ==> post.marks@[k].0 + post.marks@[k].1 <= post.start) by {
        if k < mid.marks@.len() {
            let m = mid.marks@[k];
            let j = choose|j: int|
                0 <= j < cs1.len() && region_within(#[trigger] cs1[j], m.0 as int, m.1 as int)
                    && (j == cs1.len() - 1 ==> m.0 + m.1 <= mid.start);
            assert(cs2[j].base == cs1[j].base && cs2[j].storage == cs1[j].storage);
            assert(region_within(cs2[j], m.0 as int, m.1 as int));
            assert(post.marks@[k] == m);
        } else {
            assert(post.marks@[k] == (addr, size));
            assert(region_within(cs2[n], addr as int, size as int));
        }
    }
    // free locations: the cursor only moved up
    assert forall|k: int| 0 <= k < post.free@.len() implies exists|j: int|
        0 <= j < cs2.len() && region_within(
            #[trigger] cs2[j],
            (#[trigger] post.free@[k]).start as int,
            post.free@[k].size as int,
        ) && (j == cs2.len() - 1 ==> post.free@[k].start + post.free@[k].size <= post.start) by {
        let g = mid.free@[k];
        let j = choose|j: int|
            0 <= j < cs1.len() && region_within(#[trigger] cs1[j], g.start as int, g.size as int)
                && (j == cs1.len() - 1 ==> g.start + g.size <= mid.start);
        assert(cs2[j].base == cs1[j].base && cs2[j].storage == cs1[j].storage);
        assert(region_within(cs2[j], g.start as int, g.size as int));
    }
    // mark disjointness
    assert forall|k1: int, k2: int| 0 <= k1 < k2 < post.marks@.len() implies regions_disjoint(
        #[trigger] post.marks@[k1],
        #[trigger] post.marks@[k2],
    ) by {
        if k2 == post.marks@.len() - 1 {
            assert(regions_disjoint((addr, size), mid.marks@[k1]));
        }
    }
    // marks-free disjointness: frees also end below the old cursor
    assert forall|k1: int, k2: int|
        0 <= k1 < post.marks@.len() && 0 <= k2 < post.free@.len() implies regions_disjoint(
        #[trigger] post.marks@[k1],
        ((#[trigger] post.free@[k2]).start, post.free@[k2].size),
    ) by {
        if k1 == post.marks@.len() - 1 {
            let g = mid.free@[k2];
            let j = choose|j: int|
                0 <= j < cs1.len() && region_within(
                    #[trigger] cs1[j],
                    g.start as int,
                    g.size as int,
                ) && (j == cs1.len() - 1 ==> g.start + g.size <= mid.start);
            if j < n {
                assert(cs1[j].base + cs1[j].storage@.len() <= cs1[n].base);
            }
            assert(g.start + g.size <= addr);
        }
    }
    // counters
    assert forall|j: int| 0 <= j < cs2.len() implies (#[trigger] cs2[j]).entries == live_sum(
        post.marks@,
        cs2[j].base as int,
        cs2[j].base + cs2[j].storage@.len(),
    ) by {
        let lo = cs2[j].base as int;
        let hi = cs2[j].base + cs2[j].storage@.len();
        assert(cs2[j].base == cs1[j].base && cs2[j].storage == cs1[j].storage);
        lemma_live_sum_push(mid.marks@, (addr, size), lo, hi);
        if j == n {
            assert(pair_within(addr as int, size as int, lo, hi));
        } else {
            assert(cs1[j].base + cs1[j].storage@.len() <= cs1[n].base);
            assert(!pair_within(addr as int, size as int, lo, hi));
        }
    }
    // capacity accounting
    assert forall|j: int| 0 <= j < cs2.len() implies live_sum(
        post.marks@,
        (#[trigger] cs2[j]).base as int,
        cs2[j].base + cs2[j].storage@.len(),
    ) + free_sum(post.free@, cs2[j].base as int, cs2[j].base + cs2[j].storage@.len()) <= (if j
        == cs2.len() - 1 {
        post.start - cs2[j].base
    } else {
        cs2[j].storage@.len() as int
    }) by {
        let lo = cs2[j].base as int;
        let hi = cs2[j].base + cs2[j].storage@.len();
        assert(cs2[j].base == cs1[j].base && cs2[j].storage == cs1[j].storage);
        lemma_live_sum_push(mid.marks@, (addr, size), lo, hi);
        if j == n {
            assert(pair_within(addr as int, size as int, lo, hi));
        } else {
            assert(cs1[j].base + cs1[j].storage@.len() <= cs1[n].base);
            assert(!pair_within(addr as int, size as int, lo, hi));
        }
    }
    // values of the chunks the pre state already had are untouched
    assert forall|a: int| chunk_has(pre.chunks@, a) implies chunk_has(post.chunks@, a)
        && value_at(post.chunks@, a) == value_at(pre.chunks@, a) by {
        assert(chunk_has(mid.chunks@, a) && value_at(mid.chunks@, a) == value_at(
            pre.chunks@,
            a,
        ));
    }
}


impl<T: Copy> Manual<T> {
    /// Returns a freed range to the arena: the owning chunk's live-entry
    /// counter drops by the range's size and the range goes on the free
    /// list, coalescing only with an entry of the same start address —
    /// which, for a live region, never exists. The freed range must be a
    /// leading sub-range of a live region (the whole region, or a prefix
    /// of it; the unfreed tail stays live). No stored value changes, so
    /// the freed range still reads as it did.
    pub fn deallocate(&mut self, ptr: usize, size: usize)
        requires
            old(self).wf(),
            exists|w: int|
                0 <= w < old(self).marks@.len() && (#[trigger] old(self).marks@[w]).0 == ptr && 1
                    <= size <= old(self).marks@[w].1,
        ensures
            final(self).wf(),
            exists|w: int|
                {
                    &&& 0 <= w < old(self).marks@.len()
                    &&& (#[trigger] old(self).marks@[w]).0 == ptr
                    &&& size <= old(self).marks@[w].1
                    &&& final(self).marks@ == (if size == old(self).marks@[w].1 {
                        old(self).marks@.remove(w)
                    } else {
                        old(self).marks@.remove(w).push(
                            (
                                (ptr + size) as usize,
                                (old(self).marks@[w].1 - size) as usize,
                            ),
                        )
                    })
                },
            final(self).free@ == old(self).free@.push(Free { start: ptr, size }),
            final(self).start == old(self).start,
            final(self).filler == old(self).filler,
            forall|a: int|
                chunk_has(old(self).chunks@, a) ==> chunk_has(final(self).chunks@, a)
                    && value_at(final(self).chunks@, a) == value_at(old(self).chunks@, a),
            final(self).chunks@.len() == old(self).chunks@.len(),
            forall|i: int|
                0 <= i < old(self).chunks@.len() ==> (#[trigger] final(self).chunks@[i]).base
                    == old(self).chunks@[i].base && final(self).chunks@[i].storage == old(
                    self,
                ).chunks@[i].storage,
            forall|i: int|
                0 <= i < old(self).chunks@.len() && i != chunk_at(old(self).chunks@, ptr as int)
                    ==> (#[trigger] final(self).chunks@[i]).entries == old(
                    self,
                ).chunks@[i].entries,
            ({
                let j = chunk_at(old(self).chunks@, ptr as int);
                final(self).chunks@[j].entries == old(self).chunks@[j].entries - size
            }),
    {
        let ghost pre = *self;
        let ghost w = choose|w: int|
            0 <= w < pre.marks@.len() && (#[trigger] pre.marks@[w]).0 == ptr && 1 <= size
                <= pre.marks@[w].1;
        if ptr < self.start {
            proof {
                lemma_dealloc_headroom(pre, w);
                assert(pre.chunks@[chunk_at(pre.chunks@, ptr as int)].entries >= size);
            }
            self.shed_entries(ptr, size);
            let ghost mid = *self;
            // A freed range coalesces only with a free range of the same
            // start; a live region never shares its start with a free
            // range, so this scan always comes up empty.
            let mut i: usize = 0;
            while i < self.free.len()
                invariant
                    *self == mid,
                    pre.wf(),
                    self.free@ == pre.free@,
                    self.marks@ == pre.marks@,
                    0 <= w < pre.marks@.len(),
                    pre.marks@[w].0 == ptr,
                    1 <= size <= pre.marks@[w].1,
                    i <= self.free@.len(),
                decreases self.free@.len() - i,
            {
                if self.free[i].size >= 1 && self.free[i].start == ptr {
                    proof {
                        assert(regions_disjoint(
                            pre.marks@[w],
                            (pre.free@[i as int].start, pre.free@[i as int].size),
                        ));
                        assert(pre.marks@[w].1 >= 1);
                        assert(false);
                    }
                }
                i = i + 1;
            }
            self.free.push(Free { start: ptr, size });
            proof {
                if size == pre.marks@[w].1 {
                    self.marks@ = pre.marks@.remove(w);
                    lemma_wf_after_dealloc(pre, *self, w);
                } else {
                    self.marks@ = pre.marks@.remove(w).push(
                        ((ptr + size) as usize, (pre.marks@[w].1 - size) as usize),
                    );
                    lemma_wf_after_prefix_dealloc(pre, *self, w, size);
                }
            }
        } else {
            proof {
                let m = pre.marks@[w];
                assert(m.0 == ptr && m.1 >= 1);
                let cs = pre.chunks@;
                let j = choose|j: int|
                    0 <= j < cs.len() && region_within(#[trigger] cs[j], m.0 as int, m.1 as int)
                        && (j == cs.len() - 1 ==> m.0 + m.1 <= pre.start);
                if j < cs.len() - 1 {
                    assert(cs[j].base + cs[j].storage@.len() <= cs[cs.len() - 1].base);
                    assert(cs[cs.len() - 1].base <= pre.start);
                }
                assert(m.0 < pre.start);
                assert(false);
            }
        }
    }

    /// The value stored at `addr`, or `None` where no chunk owns that
    /// address: the bounds-checked read through which every pointer-like
    /// access of the VM goes.
    pub fn try_read(&self, addr: usize) -> (r: Option<T>)
        requires
            self.wf(),
        ensures
            match r {
                Some(v) => chunk_has(self.chunks@, addr as int) && v == value_at(
                    self.chunks@,
                    addr as int,
                ),
                None => !chunk_has(self.chunks@, addr as int),
            },
    {
        let mut j: usize = 0;
        while j < self.chunks.len()
            invariant
                self.wf(),
                j <= self.chunks@.len(),
                forall|i: int| 0 <= i < j ==> !span_contains(#[trigger] self.chunks@[i], addr as int),
            decreases self.chunks@.len() - j,
        {
            let c = &self.chunks[j];
            if c.base <= addr && addr - c.base < c.storage.len() {
                proof {
                    crate::arena::chunk::lemma_owner_unique(self.chunks@, addr as int, j as int);
                }
                return Some(c.storage[addr - c.base]);
            }
            j = j + 1;
        }
        proof {
            if chunk_has(self.chunks@, addr as int) {
                let i = chunk_at(self.chunks@, addr as int);
                assert(span_contains(self.chunks@[i], addr as int));
                assert(false);
            }
        }
        None
    }

    /// Writes `val` at `addr` if some chunk owns that address, returning
    /// whether it did: the bounds-checked write through which every
    /// pointer-like mutation of the VM goes. Exactly the one slot changes.
    pub fn try_write(&mut self, addr: usize, val: T) -> (r: bool)
        requires
            old(self).wf(),
        ensures
            r == chunk_has(old(self).chunks@, addr as int),
            !r ==> *final(self) == *old(self),
            final(self).wf(),
            final(self).marks@ == old(self).marks@,
            final(self).free@ == old(self).free@,
            final(self).start == old(self).start,
            final(self).endaa == old(self).endaa,
            final(self).filler == old(self).filler,
            forall|a: int| chunk_has(old(self).chunks@, a) <==> chunk_has(final(self).chunks@, a),
            r ==> value_at(final(self).chunks@, addr as int) == val,
            forall|a: int|
                chunk_has(old(self).chunks@, a) && a != addr ==> value_at(final(self).chunks@, a)
                    == value_at(old(self).chunks@, a),
    {
        let ghost pre = *self;
        let mut j: usize = 0;
        while j < self.chunks.len()
            invariant
                *self == pre,
                pre == *old(self),
                pre.wf(),
                j <= self.chunks@.len(),
                forall|i: int| 0 <= i < j ==> !span_contains(#[trigger] self.chunks@[i], addr as int),
            decreases self.chunks@.len() - j,
        {
            let cref = &self.chunks[j];
            if cref.base <= addr && addr - cref.base < cref.storage.len() {
                proof {
                    crate::arena::chunk::lemma_owner_unique(pre.chunks@, addr as int, j as int);
                }
                let mut c = self.chunks.remove(j);
                let slot = addr - c.base;
                c.storage.set(slot, val);
                self.chunks.insert(j, c);
                proof {
                    assert(self.chunks@ =~= pre.chunks@.update(j as int, c));
                    crate::arena::chunk::lemma_value_at_region_update(
                        pre.chunks@,
                        self.chunks@,
                        j as int,
                        slot as int,
                        1,
                    );
                    lemma_wf_after_write(pre, *self, j as int);
                }
                return true;
            }
            j = j + 1;
        }
        proof {
            if chunk_has(pre.chunks@, addr as int) {
                let i = chunk_at(pre.chunks@, addr as int);
                assert(span_contains(pre.chunks@[i], addr as int));
                assert(false);
            }
        }
        false
    }

    /// Copies `slice` into the arena and returns the address of the copy:
    /// a region disjoint from every live region, which is never moved by
    /// the arena; the values of all live regions stay in place.
    #[verifier::rlimit(100)]
    pub fn alloc_slice(&mut self, slice: &[T]) -> (addr: usize)
        requires
            old(self).wf(),
            slice@.len() >= 1,
            old(self).can_alloc(slice@.len() as int),
        ensures
            final(self).wf(),
            final(self).marks@ == old(self).marks@.push((addr, slice@.len() as usize)),
            forall|k: int|
                0 <= k < old(self).marks@.len() ==> regions_disjoint(
                    (addr, slice@.len() as usize),
                    #[trigger] old(self).marks@[k],
                ),
            forall|k: int|
                0 <= k < slice@.len() ==> chunk_has(final(self).chunks@, addr + k) && value_at(
                    final(self).chunks@,
                    addr + k,
                ) == slice@[k],
            forall|m: int, a: int|
                #![trigger old(self).marks@[m], value_at(final(self).chunks@, a)]
                0 <= m < old(self).marks@.len() && old(self).marks@[m].0 <= a < old(
                    self,
                ).marks@[m].0 + old(self).marks@[m].1 ==> chunk_has(final(self).chunks@, a)
                    && value_at(final(self).chunks@, a) == value_at(old(self).chunks@, a),
            final(self).filler == old(self).filler,
            old(self).chunks@.len() <= final(self).chunks@.len() <= old(self).chunks@.len() + 1,
            forall|i: int|
                0 <= i < old(self).chunks@.len() ==> (#[trigger] final(self).chunks@[i]).base
                    == old(self).chunks@[i].base && final(self).chunks@[i].storage@.len() == old(
                    self,
                ).chunks@[i].storage@.len(),
    {
        let ghost pre = *self;
        let len = slice.len();
        let addr = self.allocate(len);
        let ghost mid = *self;
        let mut j: usize = 0;
        loop
            invariant
                *self == mid,
                len == slice@.len(),
                j <= self.chunks@.len(),
                region_in_chunks(self.chunks@, addr as int, len as int),
                forall|i: int|
                    0 <= i < j ==> !region_within(
                        #[trigger] self.chunks@[i],
                        addr as int,
                        len as int,
                    ),
            ensures
                j < mid.chunks@.len(),
                region_within(mid.chunks@[j as int], addr as int, len as int),
            decreases self.chunks@.len() - j,
        {
            if j >= self.chunks.len() {
                proof {
                    let ww = choose|i: int|
                        0 <= i < self.chunks@.len() && region_within(
                            #[trigger] self.chunks@[i],
                            addr as int,
                            len as int,
                        );
                    assert(false);
                }
            }
            let c = &self.chunks[j];
            if c.base <= addr && len <= c.storage.len() && addr - c.base <= c.storage.len()
                - len {
                break ;
            }
            j = j + 1;
        }
        let mut c = self.chunks.remove(j);
        let ghost c0 = c;
        let off = addr - c.base;
        let cap_total = c.storage.len();
        let mut k: usize = 0;
        while k < len
            invariant
                len == slice@.len(),
                c.storage@.len() == cap_total,
                off + len <= c.storage@.len(),
                k <= len,
                c.base == c0.base,
                c.entries == c0.entries,
                forall|s: int|
                    0 <= s < c.storage@.len() && !(off <= s < off + k) ==> c.storage@[s]
                        == c0.storage@[s],
                forall|s: int| off <= s < off + k ==> c.storage@[s] == slice@[s - off],
            decreases len - k,
        {
            proof {
                assert(off + k < c.storage@.len());
            }
            c.storage.set(off + k, slice[k]);
            k = k + 1;
        }
        self.chunks.insert(j, c);
        proof {
            assert(self.chunks@ =~= mid.chunks@.update(j as int, c));
            crate::arena::chunk::lemma_value_at_region_update(
                mid.chunks@,
                self.chunks@,
                j as int,
                off as int,
                len as int,
            );
            lemma_wf_after_write(mid, *self, j as int);
            assert forall|kk: int| 0 <= kk < len implies chunk_has(self.chunks@, addr + kk)
                && value_at(self.chunks@, addr + kk) == slice@[kk] by {
                assert(value_at(self.chunks@, mid.chunks@[j as int].base + (off + kk))
                    == self.chunks@[j as int].storage@[off + kk]);
            }
            assert forall|m: int, a: int|
                #![trigger pre.marks@[m], value_at(self.chunks@, a)]
                0 <= m < pre.marks@.len() && pre.marks@[m].0 <= a < pre.marks@[m].0
                    + pre.marks@[m].1 implies chunk_has(self.chunks@, a) && value_at(
                self.chunks@,
                a,
            ) == value_at(pre.chunks@, a) by {
                let mm = pre.marks@[m];
                let jj = choose|jj: int|
                    0 <= jj < pre.chunks@.len() && region_within(
                        #[trigger] pre.chunks@[jj],
                        mm.0 as int,
                        mm.1 as int,
                    ) && (jj == pre.chunks@.len() - 1 ==> mm.0 + mm.1 <= pre.start);
                assert(span_contains(pre.chunks@[jj], a));
                assert(chunk_has(pre.chunks@, a));
                assert(regions_disjoint((addr, len), mm));
                assert(!(addr <= a < addr + len));
                assert(!(mid.chunks@[j as int].base + off <= a < mid.chunks@[j as int].base
                    + off + len));
            }
        }
        addr
    }
}

/// The owning chunk's counter covers the live region being freed.
proof fn lemma_dealloc_headroom<T: Copy>(pre: Manual<T>, w: int)
    requires
        pre.wf(),
        0 <= w < pre.marks@.len(),
    ensures
        chunk_has(pre.chunks@, pre.marks@[w].0 as int),
        pre.chunks@[chunk_at(pre.chunks@, pre.marks@[w].0 as int)].entries >= pre.marks@[w].1,
{
    let m = pre.marks@[w];
    let cs = pre.chunks@;
    let j = choose|j: int|
        0 <= j < cs.len() && region_within(#[trigger] cs[j], m.0 as int, m.1 as int) && (j
            == cs.len() - 1 ==> m.0 + m.1 <= pre.start);
    assert(span_contains(cs[j], m.0 as int));
    crate::arena::chunk::lemma_owner_unique(cs, m.0 as int, j);
    let lo = cs[j].base as int;
    let hi = cs[j].base + cs[j].storage@.len();
    lemma_live_sum_member(pre.marks@, w, lo, hi);
}

/// Remaining well-formedness clauses after a deallocation.
proof fn lemma_wf_after_dealloc<T: Copy>(pre: Manual<T>, post: Manual<T>, w: int)
    requires
        pre.wf(),
        0 <= w < pre.marks@.len(),
        post.marks@ == pre.marks@.remove(w),
        post.free@ == pre.free@.push(
            Free { start: pre.marks@[w].0, size: pre.marks@[w].1 },
        ),
        post.start == pre.start,
        post.endaa == pre.endaa,
        post.filler == pre.filler,
        post.chunks@.len() == pre.chunks@.len(),
        forall|i: int|
            0 <= i < pre.chunks@.len() && i != chunk_at(pre.chunks@, pre.marks@[w].0 as int)
                ==> post.chunks@[i] == pre.chunks@[i],
        ({
            let j = chunk_at(pre.chunks@, pre.marks@[w].0 as int);
            &&& post.chunks@[j].base == pre.chunks@[j].base
            &&& post.chunks@[j].storage == pre.chunks@[j].storage
            &&& post.chunks@[j].entries == pre.chunks@[j].entries - pre.marks@[w].1
        }),
    ensures
        post.wf(),
        forall|a: int|
            chunk_has(pre.chunks@, a) ==> chunk_has(post.chunks@, a) && value_at(post.chunks@, a)
                == value_at(pre.chunks@, a),
{
    let m = pre.marks@[w];
    let cs1 = pre.chunks@;
    let cs2 = post.chunks@;
    let fj = choose|j: int|
        0 <= j < cs1.len() && region_within(#[trigger] cs1[j], m.0 as int, m.1 as int) && (j
            == cs1.len() - 1 ==> m.0 + m.1 <= pre.start);
    assert(span_contains(cs1[fj], m.0 as int));
    crate::arena::chunk::lemma_owner_unique(cs1, m.0 as int, fj);
    crate::arena::chunk::lemma_same_layout(cs1, cs2);
    assert(cs2.last().base == cs1.last().base && cs2.last().storage == cs1.last().storage);
    // surviving marks keep their places
    assert forall|k: int| 0 <= k < post.marks@.len() implies (#[trigger] post.marks@[k]).1 >= 1
        && exists|j: int|
        0 <= j < cs2.len() && region_within(
            #[trigger] cs2[j],
            post.marks@[k].0 as int,
            post.marks@[k].1 as int,
        ) && (j == cs2.len() - 1 ==> post.marks@[k].0 + post.marks@[k].1 <= post.start) by {
        let k0 = if k < w {
            k
        } else {
            k + 1
        };
        assert(post.marks@[k] == pre.marks@[k0]);
        let g = pre.marks@[k0];
        let j = choose|j: int|
            0 <= j < cs1.len() && region_within(#[trigger] cs1[j], g.0 as int, g.1 as int) && (j
                == cs1.len() - 1 ==> g.0 + g.1 <= pre.start);
        assert(cs2[j].base == cs1[j].base && cs2[j].storage == cs1[j].storage);
        assert(region_within(cs2[j], g.0 as int, g.1 as int));
    }
    // the freed range and the old frees keep their places
    assert forall|k: int| 0 <= k < post.free@.len() implies (#[trigger] post.free@[k]).size >= 1
        && exists|j: int|
        0 <= j < cs2.len() && region_within(
            #[trigger] cs2[j],
            post.free@[k].start as int,
            post.free@[k].size as int,
        ) && (j == cs2.len() - 1 ==> post.free@[k].start + post.free@[k].size <= post.start) by {
        if k < pre.free@.len() {
            assert(post.free@[k] == pre.free@[k]);
            let g = pre.free@[k];
            let j = choose|j: int|
                0 <= j < cs1.len() && region_within(
                    #[trigger] cs1[j],
                    g.start as int,
                    g.size as int,
                ) && (j == cs1.len() - 1 ==> g.start + g.size <= pre.start);
            assert(cs2[j].base == cs1[j].base && cs2[j].storage == cs1[j].storage);
            assert(region_within(cs2[j], g.start as int, g.size as int));
        } else {
            assert(post.free@[k] == Free { start: m.0, size: m.1 });
            assert(region_within(cs2[fj], m.0 as int, m.1 as int));
        }
    }
    // disjointness: survivors among themselves and against the frees
    assert forall|k1: int, k2: int| 0 <= k1 < k2 < post.marks@.len() implies regions_disjoint(
        #[trigger] post.marks@[k1],
        #[trigger] post.marks@[k2],
    ) by {
        let a = if k1 < w {
            k1
        } else {
            k1 + 1
        };
        let b = if k2 < w {
            k2
        } else {
            k2 + 1
        };
        assert(post.marks@[k1] == pre.marks@[a]);
        assert(post.marks@[k2] == pre.marks@[b]);
    }
    assert forall|k1: int, k2: int| 0 <= k1 < k2 < post.free@.len() implies regions_disjoint(
        ((#[trigger] post.free@[k1]).start, post.free@[k1].size),
        ((#[trigger] post.free@[k2]).start, post.free@[k2].size),
    ) by {
        if k2 == post.free@.len() - 1 {
            assert(post.free@[k1] == pre.free@[k1]);
            assert(regions_disjoint(m, (pre.free@[k1].start, pre.free@[k1].size)));
        }
    }
    assert forall|k1: int, k2: int|
        0 <= k1 < post.marks@.len() && 0 <= k2 < post.free@.len() implies regions_disjoint(
        #[trigger] post.marks@[k1],
        ((#[trigger] post.free@[k2]).start, post.free@[k2].size),
    ) by {
        let a = if k1 < w {
            k1
        } else {
            k1 + 1
        };
        assert(post.marks@[k1] == pre.marks@[a]);
        if k2 == post.free@.len() - 1 {
            if a < w {
                assert(regions_disjoint(pre.marks@[a], pre.marks@[w]));
            } else {
                assert(regions_disjoint(pre.marks@[w], pre.marks@[a]));
            }
        }
    }
    // counters and capacity
    assert forall|j: int| 0 <= j < cs2.len() implies (#[trigger] cs2[j]).entries == live_sum(
        post.marks@,
        cs2[j].base as int,
        cs2[j].base + cs2[j].storage@.len(),
    ) && live_sum(post.marks@, cs2[j].base as int, cs2[j].base + cs2[j].storage@.len())
        + free_sum(post.free@, cs2[j].base as int, cs2[j].base + cs2[j].storage@.len()) <= (if j
        == cs2.len() - 1 {
        post.start - cs2[j].base
    } else {
        cs2[j].storage@.len() as int
    }) by {
        let lo = cs2[j].base as int;
        let hi = cs2[j].base + cs2[j].storage@.len();
        assert(cs2[j].base == cs1[j].base && cs2[j].storage == cs1[j].storage);
        lemma_live_sum_remove(pre.marks@, w, lo, hi);
        lemma_free_sum_push(pre.free@, Free { start: m.0, size: m.1 }, lo, hi);
        if j != fj {
            if j < fj {
                assert(cs1[j].base + cs1[j].storage@.len() <= cs1[fj].base);
            } else {
                assert(cs1[fj].base + cs1[fj].storage@.len() <= cs1[j].base);
            }
            assert(region_within(cs1[fj], m.0 as int, m.1 as int));
            assert(!pair_within(m.0 as int, m.1 as int, lo, hi));
        } else {
            assert(pair_within(m.0 as int, m.1 as int, lo, hi));
        }
    }
}


/// Remaining well-formedness clauses after freeing a proper prefix of a
/// live region: the tail of the region stays live in the same chunk.
proof fn lemma_wf_after_prefix_dealloc<T: Copy>(
    pre: Manual<T>,
    post: Manual<T>,
    w: int,
    size: usize,
)
    requires
        pre.wf(),
        0 <= w < pre.marks@.len(),
        1 <= size < pre.marks@[w].1,
        post.marks@ == pre.marks@.remove(w).push(
            (
                (pre.marks@[w].0 + size) as usize,
                (pre.marks@[w].1 - size) as usize,
            ),
        ),
        post.free@ == pre.free@.push(Free { start: pre.marks@[w].0, size }),
        post.start == pre.start,
        post.endaa == pre.endaa,
        post.filler == pre.filler,
        post.chunks@.len() == pre.chunks@.len(),
        forall|i: int|
            0 <= i < pre.chunks@.len() && i != chunk_at(pre.chunks@, pre.marks@[w].0 as int)
                ==> post.chunks@[i] == pre.chunks@[i],
        ({
            let j = chunk_at(pre.chunks@, pre.marks@[w].0 as int);
            &&& post.chunks@[j].base == pre.chunks@[j].base
            &&& post.chunks@[j].storage == pre.chunks@[j].storage
            &&& post.chunks@[j].entries == pre.chunks@[j].entries - size
        }),
    ensures
        post.wf(),
        forall|a: int|
            chunk_has(pre.chunks@, a) ==> chunk_has(post.chunks@, a) && value_at(post.chunks@, a)
                == value_at(pre.chunks@, a),
{
    let m = pre.marks@[w];
    let rem = ((m.0 + size) as usize, (m.1 - size) as usize);
    let freed = (m.0, size);
    let cs1 = pre.chunks@;
    let cs2 = post.chunks@;
    let fj = choose|j: int|
        0 <= j < cs1.len() && region_within(#[trigger] cs1[j], m.0 as int, m.1 as int) && (j
            == cs1.len() - 1 ==> m.0 + m.1 <= pre.start);
    assert(span_contains(cs1[fj], m.0 as int));
    crate::arena::chunk::lemma_owner_unique(cs1, m.0 as int, fj);
    crate::arena::chunk::lemma_same_layout(cs1, cs2);
    assert(cs2.last().base == cs1.last().base && cs2.last().storage == cs1.last().storage);
    let n1 = pre.marks@.len() as int;
    // the surviving marks: the untouched ones and the tail of the freed one
    assert forall|k: int| 0 <= k < post.marks@.len() implies (#[trigger] post.marks@[k]).1 >= 1
        && exists|j: int|
        0 <= j < cs2.len() && region_within(
            #[trigger] cs2[j],
            post.marks@[k].0 as int,
            post.marks@[k].1 as int,
        ) && (j == cs2.len() - 1 ==> post.marks@[k].0 + post.marks@[k].1 <= post.start) by {
        if k < n1 - 1 {
            let k0 = if k < w {
                k
            } else {
                k + 1
            };
            assert(post.marks@[k] == pre.marks@[k0]);
            let g = pre.marks@[k0];
            let j = choose|j: int|
                0 <= j < cs1.len() && region_within(#[trigger] cs1[j], g.0 as int, g.1 as int)
                    && (j == cs1.len() - 1 ==> g.0 + g.1 <= pre.start);
            assert(cs2[j].base == cs1[j].base && cs2[j].storage == cs1[j].storage);
            assert(region_within(cs2[j], g.0 as int, g.1 as int));
        } else {
            assert(post.marks@[k] == rem);
            assert(region_within(cs2[fj], rem.0 as int, rem.1 as int));
            assert(fj == cs2.len() - 1 ==> rem.0 + rem.1 <= post.start);
        }
    }
    // the freed prefix and the old frees keep their places
    assert forall|k: int| 0 <= k < post.free@.len() implies (#[trigger] post.free@[k]).size >= 1
        && exists|j: int|
        0 <= j < cs2.len() && region_within(
            #[trigger] cs2[j],
            post.free@[k].start as int,
            post.free@[k].size as int,
        ) && (j == cs2.len() - 1 ==> post.free@[k].start + post.free@[k].size <= post.start) by {
        if k < pre.free@.len() {
            assert(post.free@[k] == pre.free@[k]);
            let g = pre.free@[k];
            let j = choose|j: int|
                0 <= j < cs1.len() && region_within(
                    #[trigger] cs1[j],
                    g.start as int,
                    g.size as int,
                ) && (j == cs1.len() - 1 ==> g.start + g.size <= pre.start);
            assert(cs2[j].base == cs1[j].base && cs2[j].storage == cs1[j].storage);
            assert(region_within(cs2[j], g.start as int, g.size as int));
        } else {
            assert(post.free@[k] == Free { start: m.0, size });
            assert(region_within(cs2[fj], m.0 as int, size as int));
        }
    }
    // disjointness: survivors, the tail, the freed prefix
    assert forall|k1: int, k2: int| 0 <= k1 < k2 < post.marks@.len() implies regions_disjoint(
        #[trigger] post.marks@[k1],
        #[trigger] post.marks@[k2],
    ) by {
        if k2 == post.marks@.len() - 1 {
            let a = if k1 < w {
                k1
            } else {
                k1 + 1
            };
            assert(post.marks@[k1] == pre.marks@[a]);
            lemma_subregion_disjoint(rem, m, pre.marks@[a]);
        } else {
            let a = if k1 < w {
                k1
            } else {
                k1 + 1
            };
            let b = if k2 < w {
                k2
            } else {
                k2 + 1
            };
            assert(post.marks@[k1] == pre.marks@[a]);
            assert(post.marks@[k2] == pre.marks@[b]);
        }
    }
    assert forall|k1: int, k2: int| 0 <= k1 < k2 < post.free@.len() implies regions_disjoint(
        ((#[trigger] post.free@[k1]).start, post.free@[k1].size),
        ((#[trigger] post.free@[k2]).start, post.free@[k2].size),
    ) by {
        if k2 == post.free@.len() - 1 {
            assert(post.free@[k1] == pre.free@[k1]);
            lemma_subregion_disjoint(
                freed,
                m,
                (pre.free@[k1].start, pre.free@[k1].size),
            );
        }
    }
    assert forall|k1: int, k2: int|
        0 <= k1 < post.marks@.len() && 0 <= k2 < post.free@.len() implies regions_disjoint(
        #[trigger] post.marks@[k1],
        ((#[trigger] post.free@[k2]).start, post.free@[k2].size),
    ) by {
        if k1 == post.marks@.len() - 1 {
            // the tail against the freed prefix and the old frees
            if k2 == post.free@.len() - 1 {
                assert(m.0 + size <= rem.0);
            } else {
                lemma_subregion_disjoint(
                    rem,
                    m,
                    (pre.free@[k2].start, pre.free@[k2].size),
                );
            }
        } else {
            let a = if k1 < w {
                k1
            } else {
                k1 + 1
            };
            assert(post.marks@[k1] == pre.marks@[a]);
            if k2 == post.free@.len() - 1 {
                if a < w {
                    assert(regions_disjoint(pre.marks@[a], pre.marks@[w]));
                } else {
                    assert(regions_disjoint(pre.marks@[w], pre.marks@[a]));
                }
                lemma_subregion_disjoint(freed, m, pre.marks@[a]);
            }
        }
    }
    // counters and capacity: the freed prefix moves from live to free,
    // the tail stays live
    assert forall|j: int| 0 <= j < cs2.len() implies (#[trigger] cs2[j]).entries == live_sum(
        post.marks@,
        cs2[j].base as int,
        cs2[j].base + cs2[j].storage@.len(),
    ) && live_sum(post.marks@, cs2[j].base as int, cs2[j].base + cs2[j].storage@.len())
        + free_sum(post.free@, cs2[j].base as int, cs2[j].base + cs2[j].storage@.len()) <= (if j
        == cs2.len() - 1 {
        post.start - cs2[j].base
    } else {
        cs2[j].storage@.len() as int
    }) by {
        let lo = cs2[j].base as int;
        let hi = cs2[j].base + cs2[j].storage@.len();
        assert(cs2[j].base == cs1[j].base && cs2[j].storage == cs1[j].storage);
        lemma_live_sum_remove(pre.marks@, w, lo, hi);
        lemma_live_sum_push(pre.marks@.remove(w), rem, lo, hi);
        lemma_free_sum_push(pre.free@, Free { start: m.0, size }, lo, hi);
        if j == fj {
            assert(pair_within(m.0 as int, m.1 as int, lo, hi));
            assert(pair_within(rem.0 as int, rem.1 as int, lo, hi));
            assert(pair_within(m.0 as int, size as int, lo, hi));
        } else {
            if j < fj {
                assert(cs1[j].base + cs1[j].storage@.len() <= cs1[fj].base);
            } else {
                assert(cs1[fj].base + cs1[fj].storage@.len() <= cs1[j].base);
            }
            assert(region_within(cs1[fj], m.0 as int, m.1 as int));
            assert(!pair_within(m.0 as int, m.1 as int, lo, hi));
            assert(!pair_within(rem.0 as int, rem.1 as int, lo, hi));
            assert(!pair_within(m.0 as int, size as int, lo, hi));
        }
    }
}

/// Rewriting storage slots keeps the arena well formed: only the stored
/// values change.
proof fn lemma_wf_after_write<T: Copy>(pre: Manual<T>, post: Manual<T>, j: int)
    requires
        pre.wf(),
        0 <= j < pre.chunks@.len(),
        post.marks@ == pre.marks@,
        post.free@ == pre.free@,
        post.start == pre.start,
        post.endaa == pre.endaa,
        post.chunks@.len() == pre.chunks@.len(),
        forall|i: int| 0 <= i < pre.chunks@.len() && i != j ==> post.chunks@[i] == pre.chunks@[i],
        post.chunks@[j].base == pre.chunks@[j].base,
        post.chunks@[j].entries == pre.chunks@[j].entries,
        post.chunks@[j].storage@.len() == pre.chunks@[j].storage@.len(),
    ensures
        post.wf(),
{
    let cs1 = pre.chunks@;
    let cs2 = post.chunks@;
    assert forall|i: int| 0 <= i < cs2.len() implies 1 <= (#[trigger] cs2[i]).base && cs2[i].base
        + cs2[i].storage@.len() <= usize::MAX && cs2[i].storage@.len() >= 1 by {
        assert(cs2[i].base == cs1[i].base);
        assert(cs2[i].storage@.len() == cs1[i].storage@.len());
    }
    assert forall|i: int, k: int| 0 <= i < k < cs2.len() implies (#[trigger] cs2[i]).base
        + cs2[i].storage@.len() <= (#[trigger] cs2[k]).base by {
        assert(cs2[i].base == cs1[i].base && cs2[k].base == cs1[k].base);
        assert(cs2[i].storage@.len() == cs1[i].storage@.len());
    }
    assert(cs2.last().base == cs1.last().base);
    assert(cs2.last().storage@.len() == cs1.last().storage@.len());
    assert forall|k: int| 0 <= k < post.marks@.len() implies exists|jj: int|
        0 <= jj < cs2.len() && region_within(
            #[trigger] cs2[jj],
            (#[trigger] post.marks@[k]).0 as int,
            post.marks@[k].1 as int,
        ) && (jj == cs2.len() - 1 ==> post.marks@[k].0 + post.marks@[k].1 <= post.start) by {
        let g = pre.marks@[k];
        let jj = choose|jj: int|
            0 <= jj < cs1.len() && region_within(#[trigger] cs1[jj], g.0 as int, g.1 as int) && (
            jj == cs1.len() - 1 ==> g.0 + g.1 <= pre.start);
        assert(cs2[jj].base == cs1[jj].base);
        assert(cs2[jj].storage@.len() == cs1[jj].storage@.len());
        assert(region_within(cs2[jj], g.0 as int, g.1 as int));
    }
    assert forall|k: int| 0 <= k < post.free@.len() implies exists|jj: int|
        0 <= jj < cs2.len() && region_within(
            #[trigger] cs2[jj],
            (#[trigger] post.free@[k]).start as int,
            post.free@[k].size as int,
        ) && (jj == cs2.len() - 1 ==> post.free@[k].start + post.free@[k].size <= post.start) by {
        let g = pre.free@[k];
        let jj = choose|jj: int|
            0 <= jj < cs1.len() && region_within(
                #[trigger] cs1[jj],
                g.start as int,
                g.size as int,
            ) && (jj == cs1.len() - 1 ==> g.start + g.size <= pre.start);
        assert(cs2[jj].base == cs1[jj].base);
        assert(cs2[jj].storage@.len() == cs1[jj].storage@.len());
        assert(region_within(cs2[jj], g.start as int, g.size as int));
    }
    assert forall|jj: int| 0 <= jj < cs2.len() implies (#[trigger] cs2[jj]).entries == live_sum(
        post.marks@,
        cs2[jj].base as int,
        cs2[jj].base + cs2[jj].storage@.len(),
    ) && live_sum(post.marks@, cs2[jj].base as int, cs2[jj].base + cs2[jj].storage@.len())
        + free_sum(post.free@, cs2[jj].base as int, cs2[jj].base + cs2[jj].storage@.len()) <= (
    if jj == cs2.len() - 1 {
        post.start - cs2[jj].base
    } else {
        cs2[jj].storage@.len() as int
    }) by {
        assert(cs2[jj].base == cs1[jj].base);
        assert(cs2[jj].storage@.len() == cs1[jj].storage@.len());
        assert(cs2[jj].entries == cs1[jj].entries);
    }
}

/// Law (recycling arena): no chunk's live-entry count ever exceeds the
/// chunk's capacity — and as a machine natural it can never go negative.
pub proof fn lemma_entries_within_capacity<T: Copy>(m: &Manual<T>, j: int)
    requires
        m.wf(),
        0 <= j < m.chunks@.len(),
    ensures
        m.chunks@[j].entries <= m.chunks@[j].storage@.len(),
{
    let lo = m.chunks@[j].base as int;
    let hi = m.chunks@[j].base + m.chunks@[j].storage@.len();
    lemma_free_sum_nonneg(m.free@, lo, hi);
    assert(m.chunks@[j].entries == live_sum(m.marks@, lo, hi));
    assert(live_sum(m.marks@, lo, hi) + free_sum(m.free@, lo, hi) <= if j == m.chunks@.len()
        - 1 {
        m.start - m.chunks@[j].base
    } else {
        m.chunks@[j].storage@.len() as int
    });
}

impl Default for Manual<u8> {
    /// An empty byte arena, reading zero from fresh storage.
    fn default() -> (r: Manual<u8>)
        ensures
            r.wf(),
            r.marks@ == Seq::<(usize, usize)>::empty(),
            r.free@ == Seq::<Free>::empty(),
            r.chunks@ == Seq::<Chunk<u8>>::empty(),
            r.start == 0,
            r.endaa == 0,
    {
        Manual::with_filler(0u8)
    }
}


/// The total capacity of the chunks from position `k` on.
pub open spec fn suffix_cap_sum<T>(cs: Seq<Chunk<T>>, k: int) -> int
    decreases cs.len() - k,
{
    if k < 0 || k >= cs.len() {
        0
    } else {
        cs[k].storage@.len() + suffix_cap_sum(cs, k + 1)
    }
}

/// Suffix capacity sums shrink strictly as the suffix start moves right
/// over chunks of positive capacity.
proof fn lemma_suffix_cap_sum_strict<T>(cs: Seq<Chunk<T>>, k1: int, k2: int)
    requires
        0 <= k1 < k2 <= cs.len(),
        forall|j: int| 0 <= j < cs.len() ==> (#[trigger] cs[j]).storage@.len() >= 1,
    ensures
        suffix_cap_sum(cs, k1) > suffix_cap_sum(cs, k2),
        suffix_cap_sum(cs, k2) >= 0,
    decreases k2 - k1,
{
    lemma_suffix_cap_sum_nonneg(cs, k2);
    if k1 + 1 < k2 {
        lemma_suffix_cap_sum_strict(cs, k1 + 1, k2);
    }
}

/// A suffix capacity sum is never negative.
proof fn lemma_suffix_cap_sum_nonneg<T>(cs: Seq<Chunk<T>>, k: int)
    ensures
        suffix_cap_sum(cs, k) >= 0,
    decreases cs.len() - k,
{
    if 0 <= k < cs.len() {
        lemma_suffix_cap_sum_nonneg(cs, k + 1);
    }
}

impl<T: Copy> Manual<T> {
    /// Whether dropping the chunks from position `k` on frees exactly
    /// `size` elements of storage that hold no live region and no free
    /// range: the accounting `shrink` demands.
    pub open spec fn can_shrink_at(self, size: int, k: int) -> bool {
        &&& 0 <= k <= self.chunks@.len()
        &&& suffix_cap_sum(self.chunks@, k) == size
        &&& forall|j: int|
            k <= j < self.chunks@.len() ==> (#[trigger] self.chunks@[j]).entries == 0
        &&& forall|q: int|
            0 <= q < self.marks@.len() ==> exists|j: int|
                0 <= j < k && region_within(
                    #[trigger] self.chunks@[j],
                    (#[trigger] self.marks@[q]).0 as int,
                    self.marks@[q].1 as int,
                )
        &&& forall|q: int|
            0 <= q < self.free@.len() ==> exists|j: int|
                0 <= j < k && region_within(
                    #[trigger] self.chunks@[j],
                    (#[trigger] self.free@[q]).start as int,
                    self.free@[q].size as int,
                )
    }

    /// Drops trailing chunks until exactly `size` elements of capacity
    /// are gone. The dropped chunks must be fully accounted for: no live
    /// entries and no free ranges may remain in them, and the requested
    /// size must match their capacities exactly. Afterwards the bump
    /// window closes over the new last chunk (or over nothing).
    #[verifier::rlimit(100)]
    pub fn shrink(&mut self, size: usize)
        requires
            old(self).wf(),
            size >= 1,
            exists|k: int| old(self).can_shrink_at(size as int, k),
        ensures
            final(self).wf(),
            final(self).marks@ == old(self).marks@,
            final(self).free@ == old(self).free@,
            final(self).filler == old(self).filler,
            exists|k: int|
                old(self).can_shrink_at(size as int, k) && final(self).chunks@ == old(
                    self,
                ).chunks@.subrange(0, k),
            final(self).chunks@.len() == 0 ==> final(self).start == 0 && final(self).endaa == 0,
    {
        let ghost pre = *self;
        let ghost k = choose|k: int| pre.can_shrink_at(size as int, k);
        let mut rem: usize = size;
        while rem > 0
            invariant
                pre.wf(),
                pre.can_shrink_at(size as int, k),
                size >= 1,
                self.marks@ == pre.marks@,
                self.free@ == pre.free@,
                self.filler == pre.filler,
                self.start == pre.start,
                self.endaa == pre.endaa,
                k <= self.chunks@.len() <= pre.chunks@.len(),
                self.chunks@ == pre.chunks@.subrange(0, self.chunks@.len() as int),
                rem + suffix_cap_sum(pre.chunks@, self.chunks@.len() as int) == size,
            decreases rem,
        {
            proof {
                let cur = self.chunks@.len() as int;
                lemma_suffix_cap_sum_nonneg(pre.chunks@, cur);
                if cur <= k {
                    if cur < k {
                        lemma_suffix_cap_sum_strict(pre.chunks@, cur, k);
                    }
                    assert(suffix_cap_sum(pre.chunks@, cur) >= size);
                    assert(rem <= 0);
                    assert(false);
                }
                assert(cur >= k + 1);
                assert(suffix_cap_sum(pre.chunks@, cur - 1) == pre.chunks@[cur
                    - 1].storage@.len() + suffix_cap_sum(pre.chunks@, cur));
                if k < cur - 1 {
                    lemma_suffix_cap_sum_strict(pre.chunks@, k, cur - 1);
                }
                lemma_suffix_cap_sum_nonneg(pre.chunks@, cur - 1);
                assert(pre.chunks@[cur - 1].storage@.len() <= rem);
            }
            let last = self.chunks.pop();
            match last {
                Some(c) => {
                    rem = rem - c.storage.len();
                    proof {
                        assert(self.chunks@ =~= pre.chunks@.subrange(
                            0,
                            self.chunks@.len() as int,
                        ));
                    }
                },
                None => {
                    proof {
                        assert(false);
                    }
                },
            }
        }
        proof {
            let cur = self.chunks@.len() as int;
            assert(suffix_cap_sum(pre.chunks@, cur) == size);
            if cur != k {
                if cur < k {
                    lemma_suffix_cap_sum_strict(pre.chunks@, cur, k);
                } else {
                    lemma_suffix_cap_sum_strict(pre.chunks@, k, cur);
                }
                assert(false);
            }
        }
        if self.chunks.len() > 0 {
            let last_end = {
                let last = &self.chunks[self.chunks.len() - 1];
                last.base + last.storage.len()
            };
            self.start = last_end;
            self.endaa = last_end;
        } else {
            self.start = 0;
            self.endaa = 0;
        }
        proof {
            lemma_wf_after_shrink(pre, *self, k);
        }
    }
}

/// Remaining well-formedness clauses after dropping fully accounted-for
/// trailing chunks.
proof fn lemma_wf_after_shrink<T: Copy>(pre: Manual<T>, post: Manual<T>, k: int)
    requires
        pre.wf(),
        pre.can_shrink_at(
            suffix_cap_sum(pre.chunks@, k),
            k,
        ),
        post.chunks@ == pre.chunks@.subrange(0, k),
        post.marks@ == pre.marks@,
        post.free@ == pre.free@,
        k > 0 ==> post.start == post.chunks@.last().base + post.chunks@.last().storage@.len()
            && post.endaa == post.start,
        k == 0 ==> post.start == 0 && post.endaa == 0,
    ensures
        post.wf(),
{
    let cs1 = pre.chunks@;
    let cs2 = post.chunks@;
    assert(forall|j: int| 0 <= j < cs2.len() ==> cs2[j] == cs1[j]);
    if k == 0 {
        assert(post.marks@.len() == 0) by {
            if post.marks@.len() > 0 {
                let q = 0;
                let j = choose|j: int|
                    0 <= j < 0 && region_within(
                        #[trigger] cs1[j],
                        pre.marks@[q].0 as int,
                        pre.marks@[q].1 as int,
                    );
                assert(false);
            }
        }
        assert(post.free@.len() == 0) by {
            if post.free@.len() > 0 {
                let q = 0;
                let j = choose|j: int|
                    0 <= j < 0 && region_within(
                        #[trigger] cs1[j],
                        pre.free@[q].start as int,
                        pre.free@[q].size as int,
                    );
                assert(false);
            }
        }
    } else {
        assert forall|q: int| 0 <= q < post.marks@.len() implies exists|j: int|
            0 <= j < cs2.len() && region_within(
                #[trigger] cs2[j],
                (#[trigger] post.marks@[q]).0 as int,
                post.marks@[q].1 as int,
            ) && (j == cs2.len() - 1 ==> post.marks@[q].0 + post.marks@[q].1 <= post.start) by {
            let j = choose|j: int|
                0 <= j < k && region_within(
                    #[trigger] cs1[j],
                    pre.marks@[q].0 as int,
                    pre.marks@[q].1 as int,
                );
            assert(cs2[j] == cs1[j]);
            assert(region_within(cs2[j], post.marks@[q].0 as int, post.marks@[q].1 as int));
            assert(post.marks@[q].0 + post.marks@[q].1 <= cs2[j].base + cs2[j].storage@.len());
            assert(j == cs2.len() - 1 ==> cs2[j].base + cs2[j].storage@.len() == post.start);
        }
        assert forall|q: int| 0 <= q < post.free@.len() implies exists|j: int|
            0 <= j < cs2.len() && region_within(
                #[trigger] cs2[j],
                (#[trigger] post.free@[q]).start as int,
                post.free@[q].size as int,
            ) && (j == cs2.len() - 1 ==> post.free@[q].start + post.free@[q].size
                <= post.start) by {
            let j = choose|j: int|
                0 <= j < k && region_within(
                    #[trigger] cs1[j],
                    pre.free@[q].start as int,
                    pre.free@[q].size as int,
                );
            assert(cs2[j] == cs1[j]);
            assert(region_within(cs2[j], post.free@[q].start as int, post.free@[q].size as int));
        }
        assert forall|j: int| 0 <= j < cs2.len() implies (#[trigger] cs2[j]).entries == live_sum(
            post.marks@,
            cs2[j].base as int,
            cs2[j].base + cs2[j].storage@.len(),
        ) && live_sum(post.marks@, cs2[j].base as int, cs2[j].base + cs2[j].storage@.len())
            + free_sum(post.free@, cs2[j].base as int, cs2[j].base + cs2[j].storage@.len()) <= (
        if j == cs2.len() - 1 {
            post.start - cs2[j].base
        } else {
            cs2[j].storage@.len() as int
        }) by {
            assert(cs2[j] == cs1[j]);
            assert(cs1[j].entries == live_sum(
                pre.marks@,
                cs1[j].base as int,
                cs1[j].base + cs1[j].storage@.len(),
            ));
            assert(live_sum(pre.marks@, cs1[j].base as int, cs1[j].base + cs1[j].storage@.len())
                + free_sum(pre.free@, cs1[j].base as int, cs1[j].base + cs1[j].storage@.len())
                <= cs1[j].storage@.len() as int);
        }
    }
}

} // verus!
