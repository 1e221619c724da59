//! The bump arena: a monotonically growing allocator over a list of
//! chunks, serving write-once byte data (interned strings and name bytes).
//!
//! Chunks start one page large and double until the huge-page ceiling;
//! a request larger than the growth step forces a chunk sized to fit it,
//! rounded up to a page multiple. The bump cursor runs downward from the
//! high end of the current chunk, and every allocation keeps the cursor
//! aligned to the arena's natural alignment.
//!
//! The arena records every region it has handed out in a ghost mark list.
//! Its well-formedness invariant says the marks never overlap, and the
//! allocation contracts say the bytes of previously returned regions are
//! never touched again: together these are the guarantees the interner
//! builds on.

use vstd::prelude::*;

use crate::arena::chunk::{
    chunk_at, chunk_has, chunks_ordered, region_within, regions_disjoint, span_contains,
    value_at, Chunk,
};
use crate::arena::{align_down, align_up, spec_align_up, spec_max, spec_min, HUGE_PAGE, PAGE};

verus! {

/// The natural alignment the bump cursor keeps: that of a machine word.
pub const BUMP_ALIGN: usize = 8;

/// The largest single request either arena serves: an eighth of the
/// address space, so that the chunk-growth padding arithmetic can never
/// overflow the machine word.
pub const MAX_ALLOC: usize = usize::MAX / 8;

/// Whether the region of `s` addresses at `a` lies within some chunk.
pub open spec fn region_in_chunks<T>(cs: Seq<Chunk<T>>, a: int, s: int) -> bool {
    exists|j: int| 0 <= j < cs.len() && region_within(#[trigger] cs[j], a, s)
}

/// The bump arena.
pub struct Dropless {
    pub chunks: Vec<Chunk<u8>>,
    pub start: usize,
    pub end: usize,
    pub marks: Ghost<Seq<(usize, usize)>>,
}

impl Dropless {
    /// Well-formedness: chunks are page-aligned, ordered and disjoint; the
    /// bump cursor stays inside the current chunk, word-aligned; every
    /// handed-out region lies inside a chunk, below the cursor if in the
    /// current one; and no two handed-out regions overlap.
    pub open spec fn wf(self) -> bool {
        &&& chunks_ordered(self.chunks@)
        &&& forall|j: int|
            0 <= j < self.chunks@.len() ==> (#[trigger] self.chunks@[j]).base as int % (
            PAGE as int) == 0 && self.chunks@[j].storage@.len() as int % (PAGE as int) == 0
        &&& if self.chunks@.len() == 0 {
            self.start == 0 && self.end == 0 && self.marks@.len() == 0
        } else {
            let last = self.chunks@.last();
            self.start == last.base && last.base <= self.end <= last.base
                + last.storage@.len() && self.end as int % (BUMP_ALIGN as int) == 0
        }
        &&& forall|k: int| 0 <= k < self.marks@.len() ==> (#[trigger] self.marks@[k]).1 >= 1
        &&& forall|k: int|
            0 <= k < self.marks@.len() ==> exists|j: int|
                0 <= j < self.chunks@.len() && region_within(
                    #[trigger] self.chunks@[j],
                    (#[trigger] self.marks@[k]).0 as int,
                    self.marks@[k].1 as int,
                ) && (j == self.chunks@.len() - 1 ==> self.marks@[k].0 >= self.end)
        &&& forall|k1: int, k2: int|
            0 <= k1 < k2 < self.marks@.len() ==> regions_disjoint(
                #[trigger] self.marks@[k1],
                #[trigger] self.marks@[k2],
            )
    }

    /// The base address the next chunk would get.
    pub open spec fn next_base(self) -> int {
        if self.chunks@.len() == 0 {
            PAGE as int
        } else {
            self.chunks@.last().base + self.chunks@.last().storage@.len()
        }
    }

    /// The capacity the next chunk would get for a request of `size`
    /// bytes at alignment `align`.
    pub open spec fn grow_cap(self, size: int, align: int) -> int {
        let additional = size + spec_max(BUMP_ALIGN as int, align) - 1;
        let doubled = if self.chunks@.len() == 0 {
            PAGE as int
        } else {
            2 * spec_min(self.chunks@.last().storage@.len() as int, HUGE_PAGE as int / 2)
        };
        spec_align_up(spec_max(additional, doubled), PAGE as int)
    }

    /// Whether a request of `size` bytes at alignment `align` is one the
    /// arena can serve: a positive size within the machine's reach, an
    /// alignment compatible with the word and page alignment the arena
    /// keeps, and room in the address space for one more chunk.
    pub open spec fn can_alloc(self, size: int, align: int) -> bool {
        &&& 1 <= size <= MAX_ALLOC
        &&& 1 <= align
        &&& ((BUMP_ALIGN as int) % align == 0 || (align % (BUMP_ALIGN as int) == 0 && (
        PAGE as int) % align == 0))
        &&& self.next_base() + self.grow_cap(size, align) <= usize::MAX
    }

    /// An empty arena.
    pub fn new() -> (r: Dropless)
        ensures
            r.wf(),
            r.marks@ == Seq::<(usize, usize)>::empty(),
            r.chunks@ == Seq::<Chunk<u8>>::empty(),
    {
        Dropless { chunks: Vec::new(), start: 0, end: 0, marks: Ghost(Seq::empty()) }
    }

    /// Checks at run time whether a request can be served; mirrors
    /// [`Dropless::can_alloc`].
    pub fn has_room(&self, size: usize, align: usize) -> (r: bool)
        requires
            self.wf(),
        ensures
            r == self.can_alloc(size as int, align as int),
    {
        if !(1 <= size && size <= MAX_ALLOC) {
            return false;
        }
        if align < 1 {
            return false;
        }
        if !(BUMP_ALIGN % align == 0 || (align % BUMP_ALIGN == 0 && PAGE % align == 0)) {
            return false;
        }
        proof {
            if BUMP_ALIGN as int % (align as int) == 0 {
                lemma_divisor_le(BUMP_ALIGN as int, align as int);
            } else {
                lemma_divisor_le(PAGE as int, align as int);
            }
        }
        let next_base = if self.chunks.len() == 0 {
            PAGE
        } else {
            let last = &self.chunks[self.chunks.len() - 1];
            last.base + last.storage.len()
        };
        let additional = size + (if align >= BUMP_ALIGN {
            align
        } else {
            BUMP_ALIGN
        }) - 1;
        let doubled = if self.chunks.len() == 0 {
            PAGE
        } else {
            let last_len = self.chunks[self.chunks.len() - 1].storage.len();
            2 * (if last_len <= HUGE_PAGE / 2 {
                last_len
            } else {
                HUGE_PAGE / 2
            })
        };
        let wanted = if additional >= doubled {
            additional
        } else {
            doubled
        };
        if wanted > usize::MAX - PAGE {
            return false;
        }
        let cap = align_up(wanted, PAGE);
        proof {
            assert(cap == self.grow_cap(size as int, align as int));
        }
        if next_base > usize::MAX - cap {
            proof {
                assert(self.next_base() + self.grow_cap(size as int, align as int)
                    > usize::MAX);
            }
            return false;
        }
        true
    }

    /// Appends a chunk big enough for a request of `size` bytes at
    /// alignment `align`, and resets the bump window to it.
    fn grow(&mut self, size: usize, align: usize)
        requires
            old(self).wf(),
            old(self).can_alloc(size as int, align as int),
        ensures
            final(self).wf(),
            final(self).marks@ == old(self).marks@,
            final(self).chunks@.len() == old(self).chunks@.len() + 1,
            final(self).chunks@.subrange(0, old(self).chunks@.len() as int) == old(self).chunks@,
            final(self).chunks@.last().base == old(self).next_base(),
            final(self).chunks@.last().storage@.len() == old(self).grow_cap(
                size as int,
                align as int,
            ),
            final(self).start == final(self).chunks@.last().base,
            final(self).end == final(self).chunks@.last().base
                + final(self).chunks@.last().storage@.len(),
    {
        proof {
            if BUMP_ALIGN as int % (align as int) == 0 {
                lemma_divisor_le(BUMP_ALIGN as int, align as int);
            } else {
                lemma_divisor_le(PAGE as int, align as int);
            }
        }
        let base = if self.chunks.len() == 0 {
            PAGE
        } else {
            let last = &self.chunks[self.chunks.len() - 1];
            last.base + last.storage.len()
        };
        let additional = size + (if align >= BUMP_ALIGN {
            align
        } else {
            BUMP_ALIGN
        }) - 1;
        let doubled = if self.chunks.len() == 0 {
            PAGE
        } else {
            let last_len = self.chunks[self.chunks.len() - 1].storage.len();
            2 * (if last_len <= HUGE_PAGE / 2 {
                last_len
            } else {
                HUGE_PAGE / 2
            })
        };
        let wanted = if additional >= doubled {
            additional
        } else {
            doubled
        };
        let cap = align_up(wanted, PAGE);
        proof {
            assert(cap == old(self).grow_cap(size as int, align as int));
            assert(cap as int % (PAGE as int) == 0);
            assert(base as int % (PAGE as int) == 0);
        }
        let chunk = Chunk::new(cap, base, 0u8);
        self.start = base;
        self.end = align_down(base + cap, BUMP_ALIGN);
        proof {
            assert((base + cap) as int % (BUMP_ALIGN as int) == 0) by (nonlinear_arith)
                requires
                    base as int % 4096 == 0,
                    cap as int % 4096 == 0,
            ;
            assert(self.end == base + cap);
        }
        let ghost old_chunks = self.chunks@;
        self.chunks.push(chunk);
        proof {
            assert(self.chunks@.subrange(0, old_chunks.len() as int) =~= old_chunks);
            assert forall|k: int| 0 <= k < self.marks@.len() implies exists|j: int|
                0 <= j < self.chunks@.len() && region_within(
                    #[trigger] self.chunks@[j],
                    (#[trigger] self.marks@[k]).0 as int,
                    self.marks@[k].1 as int,
                ) && (j == self.chunks@.len() - 1 ==> self.marks@[k].0 >= self.end) by {
                let j = choose|j: int|
                    0 <= j < old_chunks.len() && region_within(
                        #[trigger] old_chunks[j],
                        self.marks@[k].0 as int,
                        self.marks@[k].1 as int,
                    ) && (j == old_chunks.len() - 1 ==> self.marks@[k].0 >= old(self).end);
                assert(self.chunks@[j] == old_chunks[j]);
                assert(region_within(
                    self.chunks@[j],
                    self.marks@[k].0 as int,
                    self.marks@[k].1 as int,
                ));
            }
        }
    }

    /// Allocates `size` uninitialised bytes at alignment `align` and
    /// returns their address: a fresh region, disjoint from every region
    /// the arena handed out before, which is never moved or reused.
    pub fn alloc_raw(&mut self, size: usize, align: usize) -> (addr: usize)
        requires
            old(self).wf(),
            old(self).can_alloc(size as int, align as int),
        ensures
            final(self).wf(),
            addr as int % (align as int) == 0,
            final(self).marks@ == old(self).marks@.push((addr, size)),
            forall|k: int|
                0 <= k < old(self).marks@.len() ==> regions_disjoint(
                    (addr, size),
                    #[trigger] old(self).marks@[k],
                ),
            region_in_chunks(final(self).chunks@, addr as int, size as int),
            old(self).chunks@.len() <= final(self).chunks@.len() <= old(self).chunks@.len() + 1,
            final(self).chunks@.subrange(0, old(self).chunks@.len() as int) == old(self).chunks@,
    {
        let bytes = align_up(size, BUMP_ALIGN);
        let fits = if self.end >= bytes {
            let ne = align_down(self.end - bytes, align);
            ne >= self.start && self.chunks.len() > 0
        } else {
            false
        };
        if !fits {
            self.grow(size, align);
            proof {
                lemma_grown_chunk_fits(*old(self), *self, size as int, align as int);
            }
        }
        let ghost pre = *self;
        let new_end = align_down(self.end - bytes, align);
        proof {
            assert(new_end >= self.start);
            lemma_cursor_stays_aligned(
                self.end as int,
                bytes as int,
                align as int,
                new_end as int,
            );
        }
        self.end = new_end;
        proof {
            self.marks@ = pre.marks@.push((new_end, size));
            let cs = self.chunks@;
            let n = cs.len() as int;
            assert(span_contains(cs[n - 1], new_end as int));
            assert(region_within(cs[n - 1], new_end as int, size as int));
            assert forall|k: int| 0 <= k < pre.marks@.len() implies regions_disjoint(
                (new_end, size),
                #[trigger] pre.marks@[k],
            ) by {
                let m = pre.marks@[k];
                let j = choose|j: int|
                    0 <= j < cs.len() && region_within(#[trigger] cs[j], m.0 as int, m.1 as int)
                        && (j == cs.len() - 1 ==> m.0 >= pre.end);
                if j == n - 1 {
                    assert(m.0 >= pre.end);
                    assert(new_end + size <= new_end + bytes <= pre.end);
                } else {
                    assert(cs[j].base + cs[j].storage@.len() <= cs[n - 1].base);
                    assert(m.0 + m.1 <= cs[n - 1].base <= new_end);
                }
            }
            assert forall|k: int| 0 <= k < self.marks@.len() implies exists|j: int|
                0 <= j < cs.len() && region_within(
                    #[trigger] cs[j],
                    (#[trigger] self.marks@[k]).0 as int,
                    self.marks@[k].1 as int,
                ) && (j == cs.len() - 1 ==> self.marks@[k].0 >= self.end) by {
                if k < pre.marks@.len() {
                    let m = pre.marks@[k];
                    let j = choose|j: int|
                        0 <= j < cs.len() && region_within(
                            #[trigger] cs[j],
                            m.0 as int,
                            m.1 as int,
                        ) && (j == cs.len() - 1 ==> m.0 >= pre.end);
                    assert(self.marks@[k] == m);
                    assert(region_within(cs[j], m.0 as int, m.1 as int));
                    assert(j == cs.len() - 1 ==> m.0 >= pre.end >= self.end);
                } else {
                    assert(self.marks@[k] == (new_end, size));
                    assert(region_within(cs[n - 1], new_end as int, size as int));
                }
            }
            assert(self.chunks@.subrange(0, old(self).chunks@.len() as int) == old(
                self,
            ).chunks@);
        }
        new_end
    }
}

/// The bytes stored at the `s` addresses starting at `a`.
pub open spec fn region_bytes(cs: Seq<Chunk<u8>>, a: int, s: int) -> Seq<u8> {
    Seq::new(s as nat, |k: int| value_at(cs, a + k))
}

impl Dropless {
    /// Copies `slice` into the arena and returns the address of the copy:
    /// a fresh region, disjoint from every region handed out before, whose
    /// bytes are never changed or moved afterwards — as the contract says,
    /// this very call leaves the bytes of all earlier regions in place.
    #[verifier::rlimit(80)]
    pub fn alloc_slice(&mut self, slice: &[u8]) -> (addr: usize)
        requires
            old(self).wf(),
            slice@.len() >= 1,
            old(self).can_alloc(slice@.len() as int, 1),
        ensures
            final(self).wf(),
            final(self).marks@ == old(self).marks@.push((addr, slice@.len() as usize)),
            forall|k: int|
                0 <= k < old(self).marks@.len() ==> regions_disjoint(
                    (addr, slice@.len() as usize),
                    #[trigger] old(self).marks@[k],
                ),
            region_bytes(final(self).chunks@, addr as int, slice@.len() as int) == slice@,
            forall|m: int, a: int|
                #![trigger old(self).marks@[m], value_at(final(self).chunks@, a)]
                0 <= m < old(self).marks@.len() && old(self).marks@[m].0 <= a < old(
                    self,
                ).marks@[m].0 + old(self).marks@[m].1 ==> chunk_has(final(self).chunks@, a)
                    && value_at(final(self).chunks@, a) == value_at(old(self).chunks@, a),
            old(self).chunks@.len() <= final(self).chunks@.len() <= old(self).chunks@.len() + 1,
            forall|i: int|
                0 <= i < old(self).chunks@.len() ==> (#[trigger] final(self).chunks@[i]).base
                    == old(self).chunks@[i].base && final(self).chunks@[i].storage@.len() == old(
                    self,
                ).chunks@[i].storage@.len(),
    {
        let ghost pre = *self;
        let len = slice.len();
        let addr = self.alloc_raw(len, 1);
        let ghost mid = *self;
        // Find the chunk that owns the fresh region.
        let mut j: usize = 0;
        loop
            invariant
                *self == mid,
                len == slice@.len(),
                j <= self.chunks@.len(),
                region_in_chunks(self.chunks@, addr as int, len as int),
                forall|i: int|
                    0 <= i < j ==> !region_within(
                        #[trigger] self.chunks@[i],
                        addr as int,
                        len as int,
                    ),
            ensures
                j < mid.chunks@.len(),
                region_within(mid.chunks@[j as int], addr as int, len as int),
            decreases self.chunks@.len() - j,
        {
            if j >= self.chunks.len() {
                proof {
                    let w = choose|i: int|
                        0 <= i < self.chunks@.len() && region_within(
                            #[trigger] self.chunks@[i],
                            addr as int,
                            len as int,
                        );
                    assert(false);
                }
            }
            let c = &self.chunks[j];
            if c.base <= addr && len <= c.storage.len() && addr - c.base <= c.storage.len()
                - len {
                break ;
            }
            j = j + 1;
        }
        // Copy the bytes into the owning chunk.
        let mut c = self.chunks.remove(j);
        let ghost c0 = c;
        let off = addr - c.base;
        let cap_total = c.storage.len();
        let mut k: usize = 0;
        while k < len
            invariant
                len == slice@.len(),
                c.storage@.len() == cap_total,
                off + len <= c.storage@.len(),
                k <= len,
                c.base == c0.base,
                c.entries == c0.entries,
                c.storage@.len() == c0.storage@.len(),
                forall|s: int|
                    0 <= s < c.storage@.len() && !(off <= s < off + k) ==> c.storage@[s]
                        == c0.storage@[s],
                forall|s: int| off <= s < off + k ==> c.storage@[s] == slice@[s - off],
            decreases len - k,
        {
            proof {
                assert(off + k < c.storage@.len());
            }
            c.storage.set(off + k, slice[k]);
            k = k + 1;
        }
        self.chunks.insert(j, c);
        proof {
            assert(self.chunks@ =~= mid.chunks@.update(j as int, c));
            crate::arena::chunk::lemma_value_at_region_update(
                mid.chunks@,
                self.chunks@,
                j as int,
                off as int,
                len as int,
            );
            // Well-formedness: only stored values changed.
            assert forall|kk: int| 0 <= kk < self.marks@.len() implies exists|jj: int|
                0 <= jj < self.chunks@.len() && region_within(
                    #[trigger] self.chunks@[jj],
                    (#[trigger] self.marks@[kk]).0 as int,
                    self.marks@[kk].1 as int,
                ) && (jj == self.chunks@.len() - 1 ==> self.marks@[kk].0 >= self.end) by {
                let jj = choose|jj: int|
                    0 <= jj < mid.chunks@.len() && region_within(
                        #[trigger] mid.chunks@[jj],
                        self.marks@[kk].0 as int,
                        self.marks@[kk].1 as int,
                    ) && (jj == mid.chunks@.len() - 1 ==> self.marks@[kk].0 >= mid.end);
                assert(self.chunks@[jj].base == mid.chunks@[jj].base);
                assert(self.chunks@[jj].storage@.len() == mid.chunks@[jj].storage@.len());
                assert(region_within(
                    self.chunks@[jj],
                    self.marks@[kk].0 as int,
                    self.marks@[kk].1 as int,
                ));
            }
            assert forall|jj: int| 0 <= jj < self.chunks@.len() implies (
            #[trigger] self.chunks@[jj]).base as int % (PAGE as int) == 0
                && self.chunks@[jj].storage@.len() as int % (PAGE as int) == 0 by {
                assert(self.chunks@[jj].base == mid.chunks@[jj].base);
                assert(self.chunks@[jj].storage@.len() == mid.chunks@[jj].storage@.len());
            }
            assert(self.chunks@.last().base == mid.chunks@.last().base);
            assert(self.chunks@.last().storage@.len() == mid.chunks@.last().storage@.len());
            // The new region got exactly the bytes of the slice.
            assert forall|kk: int| 0 <= kk < len implies value_at(self.chunks@, addr + kk)
                == slice@[kk] by {
                assert(value_at(self.chunks@, mid.chunks@[j as int].base + (off + kk))
                    == self.chunks@[j as int].storage@[off + kk]);
            }
            assert(region_bytes(self.chunks@, addr as int, len as int) =~= slice@);
            // Older regions kept their bytes.
            assert forall|m: int, a: int|
                #![trigger pre.marks@[m], value_at(self.chunks@, a)]
                0 <= m < pre.marks@.len() && pre.marks@[m].0 <= a < pre.marks@[m].0
                    + pre.marks@[m].1 implies chunk_has(self.chunks@, a) && value_at(
                self.chunks@,
                a,
            ) == value_at(pre.chunks@, a) by {
                let mm = pre.marks@[m];
                let jj = choose|jj: int|
                    0 <= jj < pre.chunks@.len() && region_within(
                        #[trigger] pre.chunks@[jj],
                        mm.0 as int,
                        mm.1 as int,
                    ) && (jj == pre.chunks@.len() - 1 ==> mm.0 >= pre.end);
                assert(span_contains(pre.chunks@[jj], a));
                assert(chunk_has(pre.chunks@, a));
                crate::arena::chunk::lemma_value_at_prefix(pre.chunks@, mid.chunks@);
                assert(regions_disjoint((addr, len), mm));
                assert(!(addr <= a < addr + len));
                assert(!(mid.chunks@[j as int].base + off <= a < mid.chunks@[j as int].base
                    + off + len));
            }
        }
        addr
    }
}


impl Dropless {
    /// The byte stored at `addr`, or `None` where no chunk owns that
    /// address: the bounds-checked read through which interned bytes are
    /// fetched back.
    pub fn read_byte(&self, addr: usize) -> (r: Option<u8>)
        requires
            self.wf(),
        ensures
            match r {
                Some(v) => chunk_has(self.chunks@, addr as int) && v == value_at(
                    self.chunks@,
                    addr as int,
                ),
                None => !chunk_has(self.chunks@, addr as int),
            },
    {
        let mut j: usize = 0;
        while j < self.chunks.len()
            invariant
                self.wf(),
                j <= self.chunks@.len(),
                forall|i: int|
                    0 <= i < j ==> !span_contains(#[trigger] self.chunks@[i], addr as int),
            decreases self.chunks@.len() - j,
        {
            let c = &self.chunks[j];
            if c.base <= addr && addr - c.base < c.storage.len() {
                proof {
                    crate::arena::chunk::lemma_owner_unique(self.chunks@, addr as int, j as int);
                }
                return Some(c.storage[addr - c.base]);
            }
            j = j + 1;
        }
        proof {
            if chunk_has(self.chunks@, addr as int) {
                let i = chunk_at(self.chunks@, addr as int);
                assert(span_contains(self.chunks@[i], addr as int));
                assert(false);
            }
        }
        None
    }
}

/// After growing for a request, the fresh bump window fits it.
proof fn lemma_grown_chunk_fits(pre: Dropless, post: Dropless, size: int, align: int)
    requires
        pre.wf(),
        pre.can_alloc(size, align),
        post.wf(),
        post.chunks@.len() > 0,
        post.start == post.chunks@.last().base,
        post.end == post.chunks@.last().base + post.chunks@.last().storage@.len(),
        post.chunks@.last().storage@.len() == pre.grow_cap(size, align),
        post.chunks@.last().base as int % (PAGE as int) == 0,
        post.chunks@.last().storage@.len() as int % (PAGE as int) == 0,
    ensures
        post.end >= spec_align_up(size, BUMP_ALIGN as int),
        post.end - spec_align_up(size, BUMP_ALIGN as int) - ((post.end - spec_align_up(
            size,
            BUMP_ALIGN as int,
        )) % align) >= post.start,
{
    let cap = pre.grow_cap(size, align);
    let base = post.chunks@.last().base as int;
    let bytes = spec_align_up(size, BUMP_ALIGN as int);
    let additional = size + spec_max(BUMP_ALIGN as int, align) - 1;
    lemma_align_up_bounds(size, BUMP_ALIGN as int);
    lemma_align_up_bounds(spec_max(additional, if pre.chunks@.len() == 0 {
        PAGE as int
    } else {
        2 * spec_min(pre.chunks@.last().storage@.len() as int, HUGE_PAGE as int / 2)
    }), PAGE as int);
    assert(cap >= additional);
    assert(bytes <= size + BUMP_ALIGN - 1 <= additional);
    // The alignment divides the page size in both admissible cases, so it
    // divides the chunk base, the capacity, and the rounded request.
    assert(align <= PAGE) by {
        if BUMP_ALIGN as int % align == 0 {
            lemma_divisor_le(BUMP_ALIGN as int, align);
        } else {
            lemma_divisor_le(PAGE as int, align);
        }
    }
    let aligned_bytes = spec_align_up(bytes, align);
    lemma_align_up_bounds(bytes, align);
    assert(aligned_bytes <= bytes + align - 1 <= additional + PAGE - 1);
    assert(aligned_bytes <= cap) by {
        if BUMP_ALIGN as int % align == 0 {
            // align divides the word alignment, hence the word-aligned
            // request and the page-aligned capacity.
            lemma_mod_transitive(bytes, BUMP_ALIGN as int, align);
            assert(aligned_bytes == bytes) by {
                assert((align - (bytes % align)) % align == 0) by (nonlinear_arith)
                    requires
                        align >= 1,
                        bytes % align == 0,
                ;
            }
            assert(bytes <= cap);
        } else {
            // The word alignment divides align, which divides the page
            // size, so the page-multiple capacity is a multiple of align
            // at least as large as the rounded request.
            lemma_mod_transitive(cap, PAGE as int, align);
            lemma_align_up_minimal(bytes, align, cap);
        }
    }
    assert(post.end == base + cap);
    assert(post.end - bytes >= base + cap - additional >= base >= 0);
    assert((post.end - bytes) - ((post.end - bytes) % align) >= base) by {
        if BUMP_ALIGN as int % align == 0 {
            assert((base + cap - bytes) % (BUMP_ALIGN as int) == 0) by (nonlinear_arith)
                requires
                    base % 4096 == 0,
                    cap % 4096 == 0,
                    bytes % 8 == 0,
                    base + cap >= bytes >= 0,
            ;
            lemma_mod_transitive(base + cap - bytes, BUMP_ALIGN as int, align);
            assert((base + cap - bytes) % align == 0);
        } else {
            lemma_mod_transitive(base, PAGE as int, align);
            lemma_mod_transitive(cap, PAGE as int, align);
            lemma_aligned_add(base, cap, align);
            lemma_aligned_sub(base + cap, aligned_bytes, align);
            assert(spec_align_up(bytes, align) >= bytes);
            assert((base + cap - bytes) - ((base + cap - bytes) % align) == base + cap
                - aligned_bytes) by {
                lemma_align_down_vs_up(base + cap, bytes, align);
            }
        }
    }
}

/// The bump cursor stays word-aligned across an allocation.
proof fn lemma_cursor_stays_aligned(end: int, bytes: int, align: int, new_end: int)
    requires
        end % BUMP_ALIGN as int == 0,
        bytes % BUMP_ALIGN as int == 0,
        align >= 1,
        BUMP_ALIGN as int % align == 0 || align % BUMP_ALIGN as int == 0,
        bytes <= end,
        new_end == (end - bytes) - ((end - bytes) % align),
    ensures
        new_end % BUMP_ALIGN as int == 0,
{
    let x = end - bytes;
    assert(x % BUMP_ALIGN as int == 0) by (nonlinear_arith)
        requires
            end % BUMP_ALIGN as int == 0,
            bytes % BUMP_ALIGN as int == 0,
            x == end - bytes,
    ;
    if BUMP_ALIGN as int % align == 0 {
        lemma_mod_transitive(x, BUMP_ALIGN as int, align);
        assert(new_end == x);
    } else {
        assert(new_end % align == 0 && new_end >= 0) by (nonlinear_arith)
            requires
                align >= 1,
                x >= 0,
                new_end == x - (x % align),
        ;
        lemma_mod_transitive(new_end, align, BUMP_ALIGN as int);
    }
}

/// A divisor is no larger than a positive multiple.
proof fn lemma_divisor_le(m: int, a: int)
    requires
        m >= 1,
        a >= 1,
        m % a == 0,
    ensures
        a <= m,
{
    if a > m {
        assert(m % a == m) by (nonlinear_arith)
            requires
                0 < m < a,
        ;
    }
}

/// Divisibility is transitive: if `a` divides `m` and `x` is a multiple
/// of `m`, then `x` is a multiple of `a`.
proof fn lemma_mod_transitive(x: int, m: int, a: int)
    requires
        m >= 1,
        a >= 1,
        x >= 0,
        x % m == 0,
        m % a == 0,
    ensures
        x % a == 0,
{
    vstd::arithmetic::div_mod::lemma_fundamental_div_mod(x, m);
    let k = x / m;
    assert(x == m * k);
    vstd::arithmetic::div_mod::lemma_fundamental_div_mod(m, a);
    let j = m / a;
    assert(m == a * j);
    assert(x == (j * k) * a) by (nonlinear_arith)
        requires
            x == m * k,
            m == a * j,
    ;
    vstd::arithmetic::div_mod::lemma_mod_multiples_basic(j * k, a);
}

/// Rounding up lands between the value and one alignment above it.
proof fn lemma_align_up_bounds(v: int, a: int)
    requires
        v >= 0,
        a >= 1,
    ensures
        v <= spec_align_up(v, a) < v + a,
        spec_align_up(v, a) % a == 0,
{
    assert(v <= v + ((a - (v % a)) % a) < v + a && (v + ((a - (v % a)) % a)) % a == 0)
        by (nonlinear_arith)
        requires
            v >= 0,
            a >= 1,
    ;
}

/// Rounding up is minimal among multiples of the alignment at or above
/// the value.
proof fn lemma_align_up_minimal(v: int, a: int, m: int)
    requires
        v >= 0,
        a >= 1,
        m % a == 0,
        m >= v,
    ensures
        spec_align_up(v, a) <= m,
{
    lemma_align_up_bounds(v, a);
    let u = spec_align_up(v, a);
    if u > m {
        assert(false) by (nonlinear_arith)
            requires
                u % a == 0,
                m % a == 0,
                a >= 1,
                m < u < v + a,
                m >= v,
        ;
    }
}

/// Subtracting one multiple of the alignment from another leaves a
/// multiple of the alignment.
proof fn lemma_aligned_sub(m1: int, m2: int, a: int)
    requires
        a >= 1,
        m1 % a == 0,
        m2 % a == 0,
        m2 <= m1,
    ensures
        (m1 - m2) % a == 0,
{
    vstd::arithmetic::div_mod::lemma_fundamental_div_mod(m1, a);
    vstd::arithmetic::div_mod::lemma_fundamental_div_mod(m2, a);
    let j1 = m1 / a;
    let j2 = m2 / a;
    assert(m1 - m2 == (j1 - j2) * a) by (nonlinear_arith)
        requires
            m1 == a * j1,
            m2 == a * j2,
    ;
    vstd::arithmetic::div_mod::lemma_mod_multiples_basic(j1 - j2, a);
}

/// The sum of two multiples of the alignment is a multiple of it.
proof fn lemma_aligned_add(m1: int, m2: int, a: int)
    requires
        a >= 1,
        m1 % a == 0,
        m2 % a == 0,
    ensures
        (m1 + m2) % a == 0,
{
    vstd::arithmetic::div_mod::lemma_fundamental_div_mod(m1, a);
    vstd::arithmetic::div_mod::lemma_fundamental_div_mod(m2, a);
    let j1 = m1 / a;
    let j2 = m2 / a;
    assert(m1 + m2 == (j1 + j2) * a) by (nonlinear_arith)
        requires
            m1 == a * j1,
            m2 == a * j2,
    ;
    vstd::arithmetic::div_mod::lemma_mod_multiples_basic(j1 + j2, a);
}

/// Rounding the free top down past a request equals subtracting the
/// rounded-up request, when the top is aligned.
proof fn lemma_align_down_vs_up(top: int, b: int, a: int)
    requires
        a >= 1,
        top % a == 0,
        0 <= b <= top,
        spec_align_up(b, a) <= top,
    ensures
        (top - b) - ((top - b) % a) == top - spec_align_up(b, a),
{
    lemma_align_up_bounds(b, a);
    let u = spec_align_up(b, a);
    let diff = top - u;
    lemma_aligned_sub(top, u, a);
    let rem = u - b;
    assert((diff + rem) % a == rem) by (nonlinear_arith)
        requires
            diff % a == 0,
            0 <= rem,
            rem < a,
            diff >= 0,
            a >= 1,
    ;
    assert(top - b == diff + rem);
}

/// Law (bump arena): no two regions the arena has handed out overlap.
pub proof fn lemma_bump_regions_disjoint(d: &Dropless, i: int, j: int)
    requires
        d.wf(),
        0 <= i < d.marks@.len(),
        0 <= j < d.marks@.len(),
        i != j,
    ensures
        regions_disjoint(d.marks@[i], d.marks@[j]),
{
    if i < j {
        assert(regions_disjoint(d.marks@[i], d.marks@[j]));
    } else {
        assert(regions_disjoint(d.marks@[j], d.marks@[i]));
    }
}

} // verus!
