//! The program: the immutable instruction sequence, the interned-string
//! table backed by the bump arena, the function symbol table, the
//! memoization cache, and the block-closer table the dispatch loop uses
//! to skip untaken branches.
//!
//! Interning guarantees at most one stored copy per distinct byte string:
//! registering the same bytes twice returns the same arena range, so
//! structural equality of interned objects coincides with byte equality
//! of their names.

use vstd::prelude::*;

use crate::arena::chunk::{chunk_has, value_at};
use crate::arena::dropless::{region_bytes, Dropless};
use crate::binops::BinOpKind;
use crate::error::ProgramErrorKind;
use crate::indexmap::IndexMap;
use crate::map::ObjMap;
use crate::object::{Object, ObjectData, ObjectKind};
use crate::operation::{spec_opcode, Operation};
use crate::utils::{is_digit, string_to_t};
use vstd::string::StringSliceAdditionalSpecFns;

verus! {

/// Whether a memo key matches the pair of an entry index and an argument
/// tuple, compared by structural value equality.
pub open spec fn memo_matches(k: (usize, Vec<Object>), entry: usize, args: Seq<Object>) -> bool {
    k.0 == entry && k.1@ == args
}

/// Whether a key list holds a key for `(entry, args)`.
pub open spec fn memo_has(ks: Seq<(usize, Vec<Object>)>, entry: usize, args: Seq<Object>) -> bool {
    exists|i: int| 0 <= i < ks.len() && memo_matches(#[trigger] ks[i], entry, args)
}

/// The position of the key for `(entry, args)`; meaningful only when
/// [`memo_has`] holds.
pub open spec fn memo_idx(ks: Seq<(usize, Vec<Object>)>, entry: usize, args: Seq<Object>) -> int {
    choose|i: int| 0 <= i < ks.len() && memo_matches(#[trigger] ks[i], entry, args)
}

/// The memoization cache: return values keyed by (function entry index,
/// interned argument tuple), compared by structural value equality.
pub struct MemoTable {
    pub keys: Vec<(usize, Vec<Object>)>,
    pub values: Vec<Object>,
}

impl MemoTable {
    /// Keys are unique and each key has exactly one value slot.
    pub open spec fn wf(self) -> bool {
        &&& self.keys@.len() == self.values@.len()
        &&& forall|i: int, j: int|
            0 <= i < j < self.keys@.len() ==> !memo_matches(
                #[trigger] self.keys@[i],
                (#[trigger] self.keys@[j]).0,
                self.keys@[j].1@,
            )
    }

    /// The cache as a mathematical map from keys to return values.
    pub open spec fn as_memo_map(self) -> Map<(usize, Seq<Object>), Object> {
        Map::new(
            |k: (usize, Seq<Object>)| memo_has(self.keys@, k.0, k.1),
            |k: (usize, Seq<Object>)| self.values@[memo_idx(self.keys@, k.0, k.1)],
        )
    }

    /// An empty cache.
    pub fn new() -> (r: MemoTable)
        ensures
            r.wf(),
            r.as_memo_map() == Map::<(usize, Seq<Object>), Object>::empty(),
    {
        let r = MemoTable { keys: Vec::new(), values: Vec::new() };
        proof {
            assert(r.as_memo_map() =~= Map::<(usize, Seq<Object>), Object>::empty());
        }
        r
    }

    /// The position of the key for `(entry, args)`, if cached.
    fn find(&self, entry: usize, args: &Vec<Object>) -> (r: Option<usize>)
        ensures
            match r {
                Some(i) => i < self.keys@.len() && memo_matches(
                    self.keys@[i as int],
                    entry,
                    args@,
                ),
                None => !memo_has(self.keys@, entry, args@),
            },
    {
        let mut i: usize = 0;
        while i < self.keys.len()
            invariant
                i <= self.keys@.len(),
                forall|q: int| 0 <= q < i ==> !memo_matches(#[trigger] self.keys@[q], entry, args@),
            decreases self.keys@.len() - i,
        {
            if self.keys[i].0 == entry && objects_equal(&self.keys[i].1, args) {
                return Some(i);
            }
            i = i + 1;
        }
        None
    }

    /// The cached return value for `(entry, args)`, if any.
    pub fn lookup(&self, entry: usize, args: &Vec<Object>) -> (r: Option<Object>)
        requires
            self.wf(),
        ensures
            match r {
                Some(v) => self.as_memo_map().dom().contains((entry, args@)) && v
                    == self.as_memo_map()[(entry, args@)],
                None => !self.as_memo_map().dom().contains((entry, args@)),
            },
    {
        match self.find(entry, args) {
            Some(i) => {
                proof {
                    lemma_memo_unique_idx(*self, entry, args@, i as int);
                }
                Some(self.values[i])
            },
            None => None,
        }
    }

    /// Caches `val` as the return value for `(entry, args)`, replacing a
    /// previous entry for a structurally equal key.
    pub fn insert(&mut self, entry: usize, args: Vec<Object>, val: Object)
        requires
            old(self).wf(),
        ensures
            final(self).wf(),
            final(self).as_memo_map() == old(self).as_memo_map().insert((entry, args@), val),
    {
        let ghost pre = *self;
        match self.find(entry, &args) {
            Some(i) => {
                self.values.set(i, val);
                proof {
                    lemma_memo_unique_idx(pre, entry, args@, i as int);
                    assert forall|k2: (usize, Seq<Object>)|
                        k2 != (entry, args@) && pre.as_memo_map().dom().contains(
                            k2,
                        ) implies #[trigger] self.as_memo_map()[k2] == pre.as_memo_map()[k2] by {
                        let j = memo_idx(pre.keys@, k2.0, k2.1);
                        lemma_memo_unique_idx(pre, k2.0, k2.1, j);
                        lemma_memo_unique_idx(*self, k2.0, k2.1, j);
                        assert(j != i) by {
                            if j == i {
                                assert(memo_matches(pre.keys@[i as int], k2.0, k2.1));
                                assert(memo_matches(pre.keys@[i as int], entry, args@));
                                assert(k2 == (entry, args@));
                            }
                        }
                    }
                    assert(self.as_memo_map() =~= pre.as_memo_map().insert((entry, args@), val));
                }
            },
            None => {
                let n = self.keys.len();
                self.keys.push((entry, args));
                self.values.push(val);
                proof {
                    assert(memo_matches(self.keys@[n as int], entry, self.keys@[n as int].1@));
                    assert forall|i: int, j: int| 0 <= i < j < self.keys@.len() implies
                        !memo_matches(
                        #[trigger] self.keys@[i],
                        (#[trigger] self.keys@[j]).0,
                        self.keys@[j].1@,
                    ) by {
                        if j == n {
                            assert(self.keys@[i] == pre.keys@[i]);
                            assert(!memo_has(pre.keys@, entry, self.keys@[j].1@));
                        }
                    }
                    lemma_memo_unique_idx(*self, entry, self.keys@[n as int].1@, n as int);
                    assert forall|k2: (usize, Seq<Object>)|
                        k2 != (entry, self.keys@[n as int].1@) && pre.as_memo_map().dom().contains(
                            k2,
                        ) implies #[trigger] self.as_memo_map().dom().contains(k2)
                        && self.as_memo_map()[k2] == pre.as_memo_map()[k2] by {
                        let j = memo_idx(pre.keys@, k2.0, k2.1);
                        lemma_memo_unique_idx(pre, k2.0, k2.1, j);
                        assert(self.keys@[j] == pre.keys@[j]);
                        lemma_memo_unique_idx(*self, k2.0, k2.1, j);
                    }
                    assert forall|k2: (usize, Seq<Object>)|
                        k2 != (entry, self.keys@[n as int].1@) && self.as_memo_map().dom().contains(
                            k2,
                        ) implies pre.as_memo_map().dom().contains(k2) by {
                        let j = memo_idx(self.keys@, k2.0, k2.1);
                        assert(memo_matches(self.keys@[j], k2.0, k2.1));
                        assert(j != n);
                        assert(pre.keys@[j] == self.keys@[j]);
                    }
                    assert(self.as_memo_map() =~= pre.as_memo_map().insert((entry, args@), val));
                }
            },
        }
    }
}

/// Law (memoization): looking a key up right after caching a value under
/// a structurally equal key yields exactly that value.
pub proof fn lemma_memo_round_trip(
    m1: MemoTable,
    m2: MemoTable,
    entry: usize,
    args: Seq<Object>,
    val: Object,
)
    requires
        m2.as_memo_map() == m1.as_memo_map().insert((entry, args), val),
    ensures
        m2.as_memo_map().dom().contains((entry, args)),
        m2.as_memo_map()[(entry, args)] == val,
{
}

/// With unique keys, the key position of a matching pair is pinned.
proof fn lemma_memo_unique_idx(m: MemoTable, entry: usize, args: Seq<Object>, i: int)
    requires
        m.wf(),
        0 <= i < m.keys@.len(),
        memo_matches(m.keys@[i], entry, args),
    ensures
        memo_has(m.keys@, entry, args),
        memo_idx(m.keys@, entry, args) == i,
{
    assert(memo_has(m.keys@, entry, args));
    let j = memo_idx(m.keys@, entry, args);
    if j < i {
        assert(!memo_matches(m.keys@[j], m.keys@[i].0, m.keys@[i].1@));
    } else if i < j {
        assert(!memo_matches(m.keys@[i], m.keys@[j].0, m.keys@[j].1@));
    }
}

/// Compares two object vectors element by element.
pub fn objects_equal(a: &Vec<Object>, b: &Vec<Object>) -> (r: bool)
    ensures
        r == (a@ == b@),
{
    if a.len() != b.len() {
        return false;
    }
    let mut i: usize = 0;
    while i < a.len()
        invariant
            i <= a@.len(),
            a@.len() == b@.len(),
            forall|j: int| 0 <= j < i ==> a@[j] == b@[j],
        decreases a@.len() - i,
    {
        if !(a[i] == b[i]) {
            return false;
        }
        i = i + 1;
    }
    proof {
        assert(a@ =~= b@);
    }
    true
}

/// Whether some interned range already holds exactly `bytes`.
pub open spec fn has_interned(arena: Dropless, interned: Seq<(usize, usize)>, bytes: Seq<u8>) -> bool {
    exists|i: int|
        0 <= i < interned.len() && region_bytes(
            arena.chunks@,
            (#[trigger] interned[i]).0 as int,
            interned[i].1 as int,
        ) == bytes
}

/// Well-formedness of the interner: the arena is well formed, every
/// interned range is a region the arena handed out, and no two interned
/// ranges hold the same bytes (the deduplication guarantee).
pub open spec fn interner_wf(arena: Dropless, interned: Seq<(usize, usize)>) -> bool {
    &&& arena.wf()
    &&& forall|i: int|
        0 <= i < interned.len() ==> exists|m: int|
            0 <= m < arena.marks@.len() && #[trigger] arena.marks@[m] == (
            #[trigger] interned[i])
    &&& forall|i: int| 0 <= i < interned.len() ==> (#[trigger] interned[i]).1 >= 1
    &&& forall|i: int, j: int|
        0 <= i < j < interned.len() ==> region_bytes(
            arena.chunks@,
            (#[trigger] interned[i]).0 as int,
            interned[i].1 as int,
        ) != region_bytes(
            arena.chunks@,
            (#[trigger] interned[j]).0 as int,
            interned[j].1 as int,
        )
}

/// The program.
pub struct Program {
    pub arena: Dropless,
    pub instructions: Vec<Operation>,
    pub funcs: ObjMap<(usize, usize)>,
    pub memos: MemoTable,
    pub interned: Vec<(usize, usize)>,
    pub closers: IndexMap<usize>,
}

impl Program {
    /// Well-formedness: the arena and interner are well formed and the
    /// tables are well formed.
    pub open spec fn wf(self) -> bool {
        &&& interner_wf(self.arena, self.interned@)
        &&& self.funcs.wf()
        &&& self.memos.wf()
        &&& self.closers.wf()
    }

    /// An empty program.
    pub fn empty() -> (r: Program)
        ensures
            r.wf(),
            r.instructions@ == Seq::<Operation>::empty(),
            r.funcs.as_map() == Map::<Object, (usize, usize)>::empty(),
            r.memos.as_memo_map() == Map::<(usize, Seq<Object>), Object>::empty(),
            r.interned@ == Seq::<(usize, usize)>::empty(),
    {
        Program {
            arena: Dropless::new(),
            instructions: Vec::new(),
            funcs: ObjMap::new(),
            memos: MemoTable::new(),
            interned: Vec::new(),
            closers: IndexMap::new(),
        }
    }

    /// The instruction at `idx`.
    pub fn get_op(&self, idx: usize) -> (r: &Operation)
        requires
            idx < self.instructions@.len(),
        ensures
            *r == self.instructions@[idx as int],
    {
        &self.instructions[idx]
    }

    /// The bytes of the interned range at `start` of length `len`, where
    /// the whole range lies inside the arena.
    pub fn read_range(&self, start: usize, len: usize) -> (r: Vec<u8>)
        requires
            self.wf(),
        ensures
            r@.len() <= len,
            (forall|k: int| 0 <= k < len ==> #[trigger] chunk_has(self.arena.chunks@, start + k))
                ==> r@ == region_bytes(self.arena.chunks@, start as int, len as int),
    {
        let mut out: Vec<u8> = Vec::new();
        let mut k: usize = 0;
        while k < len
            invariant
                self.wf(),
                k <= len,
                out@ == region_bytes(self.arena.chunks@, start as int, k as int),
            decreases len - k,
        {
            if usize::MAX - start < k {
                proof {
                    lemma_address_in_range(self.arena.chunks@, start + k);
                }
                return Vec::new();
            }
            match self.arena.read_byte(start + k) {
                Some(b) => {
                    out.push(b);
                    proof {
                        assert(out@ =~= region_bytes(
                            self.arena.chunks@,
                            start as int,
                            k + 1 as int,
                        ));
                    }
                },
                None => {
                    return Vec::new();
                },
            }
            k = k + 1;
        }
        out
    }

    /// Whether the interned range holds exactly `bytes`.
    fn range_equals(&self, start: usize, len: usize, bytes: &[u8]) -> (r: bool)
        requires
            self.wf(),
        ensures
            (forall|k: int| 0 <= k < len ==> #[trigger] chunk_has(self.arena.chunks@, start + k))
                && r ==> region_bytes(self.arena.chunks@, start as int, len as int) == bytes@,
            region_bytes(self.arena.chunks@, start as int, len as int) == bytes@ && (forall|
                k: int,
            | 0 <= k < len ==> #[trigger] chunk_has(self.arena.chunks@, start + k)) ==> r,
    {
        if len != bytes.len() {
            proof {
                assert(region_bytes(self.arena.chunks@, start as int, len as int).len() == len);
            }
            return false;
        }
        let mut k: usize = 0;
        while k < len
            invariant
                self.wf(),
                k <= len,
                len == bytes@.len(),
                region_bytes(self.arena.chunks@, start as int, k as int) == bytes@.subrange(
                    0,
                    k as int,
                ),
            decreases len - k,
        {
            if usize::MAX - start < k {
                proof {
                    lemma_address_in_range(self.arena.chunks@, start + k);
                }
                return false;
            }
            match self.arena.read_byte(start + k) {
                Some(b) => {
                    if b != bytes[k] {
                        proof {
                            assert(region_bytes(
                                self.arena.chunks@,
                                start as int,
                                len as int,
                            )[k as int] == value_at(self.arena.chunks@, start + k));
                        }
                        return false;
                    }
                    proof {
                        assert(region_bytes(self.arena.chunks@, start as int, k + 1 as int)
                            =~= bytes@.subrange(0, k + 1 as int));
                    }
                },
                None => {
                    return false;
                },
            }
            k = k + 1;
        }
        proof {
            assert(bytes@.subrange(0, len as int) =~= bytes@);
            assert(region_bytes(self.arena.chunks@, start as int, len as int) =~= bytes@);
        }
        true
    }

    /// Interns `byte_str`: returns the range of the one stored copy of
    /// those bytes, copying them into the bump arena only if no equal
    /// range exists yet. Returns `None` for empty input or when the arena
    /// cannot serve the request.
    pub fn register(&mut self, byte_str: &[u8]) -> (r: Option<(usize, usize)>)
        requires
            old(self).wf(),
        ensures
            final(self).wf(),
            final(self).instructions == old(self).instructions,
            final(self).funcs == old(self).funcs,
            final(self).memos == old(self).memos,
            final(self).closers == old(self).closers,
            match r {
                Some(rg) => {
                    &&& final(self).interned@.contains(rg)
                    &&& rg.1 == byte_str@.len()
                    &&& region_bytes(final(self).arena.chunks@, rg.0 as int, rg.1 as int)
                        == byte_str@
                    &&& forall|i: int|
                        0 <= i < old(self).interned@.len() ==> final(self).interned@[i] == old(
                            self,
                        ).interned@[i] && region_bytes(
                            final(self).arena.chunks@,
                            (#[trigger] old(self).interned@[i]).0 as int,
                            old(self).interned@[i].1 as int,
                        ) == region_bytes(
                            old(self).arena.chunks@,
                            old(self).interned@[i].0 as int,
                            old(self).interned@[i].1 as int,
                        )
                    &&& forall|i: int|
                        0 <= i < old(self).interned@.len() && region_bytes(
                            old(self).arena.chunks@,
                            (#[trigger] old(self).interned@[i]).0 as int,
                            old(self).interned@[i].1 as int,
                        ) == byte_str@ ==> rg == old(self).interned@[i] && *final(self) == *old(
                            self,
                        )
                },
                None => *final(self) == *old(self) && (byte_str@.len() == 0 || (!has_interned(
                    old(self).arena,
                    old(self).interned@,
                    byte_str@,
                ) && !old(self).arena.can_alloc(byte_str@.len() as int, 1))),
            },
            byte_str@.len() >= 1 && (has_interned(old(self).arena, old(self).interned@, byte_str@)
                || old(self).arena.can_alloc(byte_str@.len() as int, 1)) ==> r is Some,
    {
        if byte_str.len() == 0 {
            return None;
        }
        let ghost pre = *self;
        let mut i: usize = 0;
        while i < self.interned.len()
            invariant
                *self == pre,
                pre.wf(),
                byte_str@.len() >= 1,
                i <= self.interned@.len(),
                forall|q: int|
                    0 <= q < i ==> region_bytes(
                        self.arena.chunks@,
                        (#[trigger] self.interned@[q]).0 as int,
                        self.interned@[q].1 as int,
                    ) != byte_str@,
            decreases self.interned@.len() - i,
        {
            let (rs, rl) = self.interned[i];
            proof {
                lemma_interned_owned(pre, i as int);
            }
            if self.range_equals(rs, rl, byte_str) {
                proof {
                    assert(rl >= 1);
                    assert(region_bytes(self.arena.chunks@, rs as int, rl as int)
                        == byte_str@);
                    assert(region_bytes(self.arena.chunks@, rs as int, rl as int).len()
                        == rl);
                    // deduplication makes the equal-content range unique
                    assert forall|q: int|
                        0 <= q < pre.interned@.len() && region_bytes(
                            pre.arena.chunks@,
                            (#[trigger] pre.interned@[q]).0 as int,
                            pre.interned@[q].1 as int,
                        ) == byte_str@ implies (rs, rl) == pre.interned@[q] by {
                        if q != i {
                            if q < i {
                                assert(region_bytes(
                                    pre.arena.chunks@,
                                    pre.interned@[q].0 as int,
                                    pre.interned@[q].1 as int,
                                ) != region_bytes(
                                    pre.arena.chunks@,
                                    pre.interned@[i as int].0 as int,
                                    pre.interned@[i as int].1 as int,
                                ));
                            } else {
                                assert(region_bytes(
                                    pre.arena.chunks@,
                                    pre.interned@[i as int].0 as int,
                                    pre.interned@[i as int].1 as int,
                                ) != region_bytes(
                                    pre.arena.chunks@,
                                    pre.interned@[q].0 as int,
                                    pre.interned@[q].1 as int,
                                ));
                            }
                        }
                    }
                }
                return Some((rs, rl));
            }
            proof {
                assert(region_bytes(self.arena.chunks@, rs as int, rl as int) != byte_str@);
            }
            i = i + 1;
        }
        if !self.arena.has_room(byte_str.len(), 1) {
            return None;
        }
        let addr = self.arena.alloc_slice(byte_str);
        let rg = (addr, byte_str.len());
        self.interned.push(rg);
        proof {
            let n = pre.interned@.len() as int;
            assert(self.interned@[n] == rg);
            assert(self.interned@.contains(rg));
            assert(self.arena.marks@ == pre.arena.marks@.push((addr, byte_str@.len() as usize)));
            assert(self.arena.marks@[pre.arena.marks@.len() as int] == rg);
            // old interned ranges keep their places and bytes
            assert forall|q: int| 0 <= q < n implies (exists|m: int|
                0 <= m < self.arena.marks@.len() && #[trigger] self.arena.marks@[m] == (
                #[trigger] self.interned@[q])) && region_bytes(
                self.arena.chunks@,
                self.interned@[q].0 as int,
                self.interned@[q].1 as int,
            ) == region_bytes(
                pre.arena.chunks@,
                pre.interned@[q].0 as int,
                pre.interned@[q].1 as int,
            ) by {
                assert(self.interned@[q] == pre.interned@[q]);
                let m = choose|m: int|
                    0 <= m < pre.arena.marks@.len() && #[trigger] pre.arena.marks@[m] == (
                    pre.interned@[q]);
                assert(self.arena.marks@[m] == pre.interned@[q]);
                assert forall|a: int|
                    pre.interned@[q].0 <= a < pre.interned@[q].0
                        + pre.interned@[q].1 implies value_at(self.arena.chunks@, a) == value_at(
                    pre.arena.chunks@,
                    a,
                ) by {
                    assert(pre.arena.marks@[m].0 <= a < pre.arena.marks@[m].0
                        + pre.arena.marks@[m].1);
                }
                assert(region_bytes(
                    self.arena.chunks@,
                    self.interned@[q].0 as int,
                    self.interned@[q].1 as int,
                ) =~= region_bytes(
                    pre.arena.chunks@,
                    pre.interned@[q].0 as int,
                    pre.interned@[q].1 as int,
                ));
            }
            // deduplication survives: the new bytes differ from all old ones
            assert forall|a: int, b: int| 0 <= a < b < self.interned@.len() implies region_bytes(
                self.arena.chunks@,
                (#[trigger] self.interned@[a]).0 as int,
                self.interned@[a].1 as int,
            ) != region_bytes(
                self.arena.chunks@,
                (#[trigger] self.interned@[b]).0 as int,
                self.interned@[b].1 as int,
            ) by {
                if b == n {
                    assert(region_bytes(self.arena.chunks@, addr as int, byte_str@.len() as int)
                        == byte_str@);
                    assert(region_bytes(
                        self.arena.chunks@,
                        self.interned@[a].0 as int,
                        self.interned@[a].1 as int,
                    ) == region_bytes(
                        pre.arena.chunks@,
                        pre.interned@[a].0 as int,
                        pre.interned@[a].1 as int,
                    ));
                }
            }
        }
        Some(rg)
    }
}

/// Addresses past the machine's reach belong to no chunk.
proof fn lemma_address_in_range(cs: Seq<crate::arena::chunk::Chunk<u8>>, a: int)
    requires
        crate::arena::chunk::chunks_ordered(cs),
        a > usize::MAX,
    ensures
        !chunk_has(cs, a),
{
    if chunk_has(cs, a) {
        let j = crate::arena::chunk::chunk_at(cs, a);
        assert(crate::arena::chunk::span_contains(cs[j], a));
    }
}

/// Each interned range's addresses are owned by the arena's chunks.
proof fn lemma_interned_owned(p: Program, i: int)
    requires
        p.wf(),
        0 <= i < p.interned@.len(),
    ensures
        forall|k: int|
            0 <= k < p.interned@[i].1 ==> #[trigger] chunk_has(
                p.arena.chunks@,
                p.interned@[i].0 + k,
            ),
{
    let rg = p.interned@[i];
    let m = choose|m: int|
        0 <= m < p.arena.marks@.len() && #[trigger] p.arena.marks@[m] == rg;
    let cs = p.arena.chunks@;
    let j = choose|j: int|
        0 <= j < cs.len() && crate::arena::chunk::region_within(
            #[trigger] cs[j],
            rg.0 as int,
            rg.1 as int,
        ) && (j == cs.len() - 1 ==> rg.0 >= p.arena.end);
    assert forall|k: int| 0 <= k < rg.1 implies #[trigger] chunk_has(cs, rg.0 + k) by {
        assert(crate::arena::chunk::span_contains(cs[j], rg.0 + k));
    }
}


/// What the binary-operator dispatch returns for each operator kind.
pub open spec fn spec_handle_bin_op(kind: BinOpKind, lhs: ObjectData, rhs: ObjectData) -> Result<
    Object,
    ProgramErrorKind,
> {
    match kind {
        BinOpKind::Add => crate::binops::spec_add(lhs, rhs),
        BinOpKind::Sub => crate::binops::spec_sub(lhs, rhs),
        BinOpKind::Mul => crate::binops::spec_mul(lhs, rhs),
        BinOpKind::Div => crate::binops::spec_div(lhs, rhs),
        BinOpKind::Mod => crate::binops::spec_modulus(lhs, rhs),
        BinOpKind::Eq => crate::binops::spec_eq(lhs, rhs),
        BinOpKind::LessEq => crate::binops::spec_lesseq(lhs, rhs),
        BinOpKind::GreatEq => crate::binops::spec_greateq(lhs, rhs),
        BinOpKind::Lesser => crate::binops::spec_lesser(lhs, rhs),
        BinOpKind::Greater => crate::binops::spec_greater(lhs, rhs),
        BinOpKind::And => crate::binops::spec_and(lhs, rhs),
        BinOpKind::Or => crate::binops::spec_or(lhs, rhs),
        BinOpKind::Power => crate::binops::spec_pow(lhs, rhs),
        BinOpKind::Root => crate::binops::spec_root(lhs, rhs),
    }
}

impl Program {
    /// Interns `string` and returns a string object viewing its bytes.
    pub fn register_string(&mut self, string: &str) -> (r: Result<Object, ProgramErrorKind>)
        requires
            old(self).wf(),
        ensures
            final(self).wf(),
            final(self).instructions == old(self).instructions,
            final(self).funcs == old(self).funcs,
            final(self).memos == old(self).memos,
            final(self).closers == old(self).closers,
            match r {
                Ok(o) => o.kind == ObjectKind::String && (o.data matches ObjectData::Str(st, ln)
                    && region_bytes(final(self).arena.chunks@, st as int, ln as int)
                    == string.spec_bytes()),
                Err(e) => (e matches ProgramErrorKind::ParsingError(_)) && *final(self) == *old(
                    self,
                ) && (string.spec_bytes().len() == 0 || (!has_interned(
                    old(self).arena,
                    old(self).interned@,
                    string.spec_bytes(),
                ) && !old(self).arena.can_alloc(string.spec_bytes().len() as int, 1))),
            },
            string.spec_bytes().len() >= 1 && (has_interned(
                old(self).arena,
                old(self).interned@,
                string.spec_bytes(),
            ) || old(self).arena.can_alloc(string.spec_bytes().len() as int, 1)) ==> r is Ok,
    {
        match self.register(string.as_bytes()) {
            Some(rg) => Ok(Object::string(rg.0, rg.1)),
            None => Err(ProgramErrorKind::ParsingError(string.to_owned())),
        }
    }

    /// Interns `string` and returns a function-name object viewing its
    /// bytes.
    pub fn register_func_name(&mut self, string: &str) -> (r: Result<Object, ProgramErrorKind>)
        requires
            old(self).wf(),
        ensures
            final(self).wf(),
            final(self).instructions == old(self).instructions,
            final(self).funcs == old(self).funcs,
            final(self).memos == old(self).memos,
            final(self).closers == old(self).closers,
            match r {
                Ok(o) => o.kind == ObjectKind::Func && (o.data matches ObjectData::Func(st, ln)
                    && region_bytes(final(self).arena.chunks@, st as int, ln as int)
                    == string.spec_bytes()),
                Err(e) => (e matches ProgramErrorKind::ParsingError(_)) && *final(self) == *old(
                    self,
                ) && (string.spec_bytes().len() == 0 || (!has_interned(
                    old(self).arena,
                    old(self).interned@,
                    string.spec_bytes(),
                ) && !old(self).arena.can_alloc(string.spec_bytes().len() as int, 1))),
            },
            string.spec_bytes().len() >= 1 && (has_interned(
                old(self).arena,
                old(self).interned@,
                string.spec_bytes(),
            ) || old(self).arena.can_alloc(string.spec_bytes().len() as int, 1)) ==> r is Ok,
    {
        match self.register(string.as_bytes()) {
            Some(rg) => Ok(Object::func(rg.0, rg.1)),
            None => Err(ProgramErrorKind::ParsingError(string.to_owned())),
        }
    }

    /// Reads a literal as a number object: a fixed-point number where the
    /// first non-digit character is a dot, a signed integer otherwise.
    /// Both branches pin the parsed value exactly and succeed if and only
    /// if the literal is well formed and its parts fit their payloads.
    #[verifier::rlimit(50)]
    pub fn register_as_a_number(&mut self, number: &str) -> (r: Result<Object, ProgramErrorKind>)
        ensures
            *final(self) == *old(self),
            !crate::utils::float_like(number@) ==> match r {
                Ok(o) => crate::utils::is_int_literal(number@) && o == (Object {
                    kind: ObjectKind::Integer,
                    data: ObjectData::Integer(crate::utils::int_literal_value(number@) as i64),
                }) && i64::MIN <= crate::utils::int_literal_value(number@) <= i64::MAX,
                Err(e) => (e matches ProgramErrorKind::ParsingError(_)) && !(
                crate::utils::is_int_literal(number@) && i64::MIN <= crate::utils::int_literal_value(
                    number@,
                ) <= i64::MAX),
            },
            crate::utils::float_like(number@) ==> match r {
                Ok(o) => is_float_literal(number@) && float_whole_value(number@) <= i64::MAX
                    && float_frac_value(number@) <= u32::MAX && o == (Object {
                    kind: ObjectKind::Float,
                    data: ObjectData::Float(
                        float_whole_value(number@) as i64,
                        float_frac_value(number@) as u32,
                    ),
                }),
                Err(e) => (e matches ProgramErrorKind::ParsingError(_)) && !(is_float_literal(
                    number@,
                ) && float_whole_value(number@) <= i64::MAX && float_frac_value(number@)
                    <= u32::MAX),
            },
    {
        if crate::utils::string_is_float_like(number.to_owned()) {
            let n = number.unicode_len();
            let mut p: usize = 0;
            while p < n
                invariant
                    p <= n,
                    n == number@.len(),
                    forall|j: int| 0 <= j < p ==> number@[j] != '.',
                ensures
                    p <= n,
                    n == number@.len(),
                    forall|j: int| 0 <= j < p ==> number@[j] != '.',
                    p < n ==> number@[p as int] == '.',
                decreases n - p,
            {
                if number.get_char(p) == '.' {
                    break ;
                }
                p = p + 1;
            }
            if p >= n {
                proof {
                    let w = choose|i: int|
                        0 <= i < number@.len() && number@[i] == '.' && forall|j: int|
                            0 <= j < i ==> is_digit(#[trigger] number@[j]);
                    assert(false);
                }
                return Err(ProgramErrorKind::ParsingError(number.to_owned()));
            }
            proof {
                let w = choose|i: int|
                    0 <= i < number@.len() && number@[i] == '.' && forall|j: int|
                        0 <= j < i ==> is_digit(#[trigger] number@[j]);
                assert(w == p) by {
                    if w < p {
                        assert(number@[w] != '.');
                    } else if (p as int) < w {
                        assert(is_digit(number@[p as int]));
                    }
                }
                lemma_first_dot_at(number@, p as int);
            }
            let whole = match string_to_t(number.substring_char(0, p)) {
                Ok(v) => v,
                Err(_) => {
                    proof {
                        let sub = number@.subrange(0, p as int);
                        if p >= 1 {
                            assert(sub[0] != '-') by {
                                assert(is_digit(number@[0]));
                            }
                            assert(crate::utils::is_int_literal(sub) == (sub.len() > 0
                                && crate::utils::all_digits(sub)));
                            assert(crate::utils::all_digits(sub)) by {
                                assert(forall|j: int|
                                    0 <= j < sub.len() ==> is_digit(#[trigger] sub[j]) == is_digit(
                                        number@[j],
                                    ));
                            }
                            // only the range bound can have failed
                            assert(!(i64::MIN <= crate::utils::int_literal_value(sub)
                                <= i64::MAX));
                            assert(float_whole_value(number@) > i64::MAX) by {
                                crate::utils::lemma_digits_value_nonneg(sub);
                            }
                        }
                    }
                    return Err(ProgramErrorKind::ParsingError(number.to_owned()));
                },
            };
            proof {
                let sub = number@.subrange(0, p as int);
                assert(sub[0] != '-');
                assert(crate::utils::int_literal_value(sub) == crate::utils::digits_value(sub));
                assert(whole == float_whole_value(number@));
                assert(whole >= 0) by {
                    assert(crate::utils::all_digits(sub));
                    crate::utils::lemma_digits_value_nonneg(sub);
                }
                assert(p >= 1);
            }
            let ghost fracpart = number@.skip(p + 1 as int);
            let mut frac: u32 = 0;
            let mut q: usize = p + 1;
            while q < n
                invariant
                    crate::utils::float_like(number@),
                    first_dot(number@) == p,
                    1 <= p,
                    p + 1 <= q <= n,
                    n == number@.len(),
                    whole == float_whole_value(number@),
                    fracpart == number@.skip(p + 1 as int),
                    crate::utils::all_digits(fracpart.subrange(0, q - p - 1)),
                    frac == crate::utils::digits_value(fracpart.subrange(0, q - p - 1)),
                decreases n - q,
            {
                let c = number.get_char(q);
                let ghost prefix = fracpart.subrange(0, q - p - 1);
                let ghost prefix2 = fracpart.subrange(0, q - p);
                proof {
                    assert(prefix2.drop_last() =~= prefix);
                    assert(prefix2.last() == fracpart[q - p - 1]);
                    assert(fracpart[q - p - 1] == c);
                }
                if !(c >= '0' && c <= '9') {
                    proof {
                        if is_float_literal(number@) {
                            assert(is_digit(fracpart[q - p - 1]));
                        }
                    }
                    return Err(ProgramErrorKind::ParsingError(number.to_owned()));
                }
                let d = (c as u32) - ('0' as u32);
                if frac > (u32::MAX - d) / 10 {
                    proof {
                        assert(frac * 10 + d > u32::MAX) by (nonlinear_arith)
                            requires
                                frac > (u32::MAX - d) / 10,
                                d <= u32::MAX,
                        ;
                        assert(crate::utils::digits_value(prefix2) == frac * 10 + (
                        c as int - '0' as int));
                        if is_float_literal(number@) {
                            assert(crate::utils::all_digits(fracpart));
                            crate::utils::lemma_digits_value_prefix(fracpart, q - p);
                            assert(fracpart.subrange(0, fracpart.len() as int) =~= fracpart);
                            assert(float_frac_value(number@) > u32::MAX);
                        }
                    }
                    return Err(ProgramErrorKind::ParsingError(number.to_owned()));
                }
                proof {
                    assert(frac * 10 + d <= u32::MAX) by (nonlinear_arith)
                        requires
                            frac <= (u32::MAX - d) / 10,
                            d <= u32::MAX,
                    ;
                }
                frac = frac * 10 + d;
                q = q + 1;
                proof {
                    assert(crate::utils::digits_value(prefix2) == crate::utils::digits_value(
                        prefix,
                    ) * 10 + (c as int - '0' as int));
                }
            }
            proof {
                assert(fracpart.subrange(0, n - p - 1) =~= fracpart);
                assert(frac == float_frac_value(number@));
                assert(is_float_literal(number@));
            }
            Ok(Object::float(whole, frac))
        } else {
            match string_to_t(number) {
                Ok(v) => Ok(Object::integer(v)),
                Err(e) => Err(e),
            }
        }
    }

    /// A boolean object; booleans carry their flag directly.
    pub fn register_bool(&mut self, bol: bool) -> (r: Object)
        ensures
            *final(self) == *old(self),
            r == (Object { kind: ObjectKind::Bool, data: ObjectData::Bool(bol) }),
    {
        Object::boolean(bol)
    }

    /// An integer object; integers carry their word directly.
    pub fn register_integer(&mut self, number: i64) -> (r: Object)
        ensures
            *final(self) == *old(self),
            r == (Object { kind: ObjectKind::Integer, data: ObjectData::Integer(number) }),
    {
        Object::integer(number)
    }

    /// A fixed-point number object; they carry both parts directly.
    pub fn register_float(&mut self, whole: i64, frac: u32) -> (r: Object)
        ensures
            *final(self) == *old(self),
            r == (Object { kind: ObjectKind::Float, data: ObjectData::Float(whole, frac) }),
    {
        Object::float(whole, frac)
    }

    /// The entry index and arity of the function named by `lbl`, if any.
    pub fn get_func(&self, lbl: &Object) -> (r: Option<(usize, usize)>)
        requires
            self.wf(),
        ensures
            match r {
                Some(f) => self.funcs.as_map().dom().contains(*lbl) && f
                    == self.funcs.as_map()[*lbl],
                None => !self.funcs.as_map().dom().contains(*lbl),
            },
    {
        match self.funcs.get(lbl) {
            Some(f) => Some(*f),
            None => None,
        }
    }

    /// Applies the binary operator `kind` to two operands; see
    /// [`spec_handle_bin_op`].
    pub fn handle_bin_op(&self, kind: BinOpKind, lhs: Object, rhs: Object) -> (r: Result<
        Object,
        ProgramErrorKind,
    >)
        ensures
            r == spec_handle_bin_op(kind, lhs.data, rhs.data),
    {
        match kind {
            BinOpKind::Add => crate::binops::add(lhs.data, rhs.data),
            BinOpKind::Sub => crate::binops::sub(lhs.data, rhs.data),
            BinOpKind::Mul => crate::binops::mul(lhs.data, rhs.data),
            BinOpKind::Div => crate::binops::div(lhs.data, rhs.data),
            BinOpKind::Mod => crate::binops::modulus(lhs.data, rhs.data),
            BinOpKind::Eq => crate::binops::eq(lhs.data, rhs.data),
            BinOpKind::LessEq => crate::binops::lesseq(lhs.data, rhs.data),
            BinOpKind::GreatEq => crate::binops::greateq(lhs.data, rhs.data),
            BinOpKind::Lesser => crate::binops::lesser(lhs.data, rhs.data),
            BinOpKind::Greater => crate::binops::greater(lhs.data, rhs.data),
            BinOpKind::And => crate::binops::and(lhs.data, rhs.data),
            BinOpKind::Or => crate::binops::or(lhs.data, rhs.data),
            BinOpKind::Power => crate::binops::pow(lhs.data, rhs.data),
            BinOpKind::Root => crate::binops::root(lhs.data, rhs.data),
        }
    }
}

/// The position of the dot of a dot-shaped literal: the first character
/// that is not a decimal digit; meaningful only when
/// [`crate::utils::float_like`] holds.
pub open spec fn first_dot(s: Seq<char>) -> int {
    choose|p: int|
        0 <= p < s.len() && s[p] == '.' && forall|j: int| 0 <= j < p ==> is_digit(#[trigger] s[j])
}

/// Whether `s` matches the fixed-point literal grammar: at least one
/// digit, a dot, then digits only (possibly none).
pub open spec fn is_float_literal(s: Seq<char>) -> bool {
    &&& crate::utils::float_like(s)
    &&& first_dot(s) >= 1
    &&& crate::utils::all_digits(s.skip(first_dot(s) + 1))
}

/// The whole part of a fixed-point literal: the digits before the dot.
pub open spec fn float_whole_value(s: Seq<char>) -> int {
    crate::utils::digits_value(s.subrange(0, first_dot(s)))
}

/// The fractional part of a fixed-point literal: the digits after the
/// dot, read as a plain decimal value.
pub open spec fn float_frac_value(s: Seq<char>) -> int {
    crate::utils::digits_value(s.skip(first_dot(s) + 1))
}

/// A dot position with digits before it is the first dot.
proof fn lemma_first_dot_at(s: Seq<char>, p: int)
    requires
        0 <= p < s.len(),
        s[p] == '.',
        forall|j: int| 0 <= j < p ==> is_digit(#[trigger] s[j]),
    ensures
        first_dot(s) == p,
{
    let q = first_dot(s);
    assert(0 <= q < s.len() && s[q] == '.' && forall|j: int|
        0 <= j < q ==> is_digit(#[trigger] s[j]));
    if q < p {
        assert(is_digit(s[q]));
    } else if p < q {
        assert(is_digit(s[p]));
    }
}


/// Whether `c` is inline whitespace (space, tab, carriage return).
fn is_ws(c: char) -> (r: bool)
    ensures
        r == (c == ' ' || c == '\t' || c == '\r'),
{
    c == ' ' || c == '\t' || c == '\r'
}

/// The maximal runs of non-whitespace characters within `ls..le` of `s`,
/// as (start, end) position pairs.
fn tokenize(s: &str, ls: usize, le: usize) -> (r: Vec<(usize, usize)>)
    requires
        ls <= le <= s@.len(),
    ensures
        forall|i: int| 0 <= i < r@.len() ==> ls <= (#[trigger] r@[i]).0 < r@[i].1 <= le,
{
    let mut toks: Vec<(usize, usize)> = Vec::new();
    let mut p: usize = ls;
    while p < le
        invariant
            ls <= p <= le <= s@.len(),
            forall|i: int| 0 <= i < toks@.len() ==> ls <= (#[trigger] toks@[i]).0 < toks@[i].1 <= le,
        decreases le - p,
    {
        let c = s.get_char(p);
        if is_ws(c) {
            p = p + 1;
        } else {
            let start = p;
            p = p + 1;
            while p < le
                invariant
                    ls <= start < p <= le <= s@.len(),
                decreases le - p,
            {
                if is_ws(s.get_char(p)) {
                    break ;
                }
                p = p + 1;
            }
            toks.push((start, p));
        }
    }
    toks
}

/// Whether every character of `s` is a decimal digit or a dot: the shape
/// under which the loader reads an argument as a number literal.
fn all_digits_or_dots(s: &str) -> (r: bool)
{
    let n = s.unicode_len();
    let mut i: usize = 0;
    while i < n
        invariant
            i <= n,
            n == s@.len(),
        decreases n - i,
    {
        let c = s.get_char(i);
        if !((c >= '0' && c <= '9') || c == '.') {
            return false;
        }
        i = i + 1;
    }
    true
}

impl Program {
    /// Builds a program from its line-oriented textual listing: one
    /// operation per line, `func` lines feeding the function table
    /// instead of the instruction sequence, literal arguments interned
    /// as numbers or strings, and a final pass pairing each block opener
    /// with its matching `done`.
    pub fn from_string(text: String) -> (r: Result<Program, ProgramErrorKind>)
        ensures
            r matches Ok(p) ==> p.wf() && p.memos.as_memo_map() == Map::<
                (usize, Seq<Object>),
                Object,
            >::empty() && forall|k: Object|
                #[trigger] p.funcs.as_map().dom().contains(k) ==> p.funcs.as_map()[k].0
                    <= p.instructions@.len(),
    {
        let s = text.as_str();
        let n = s.unicode_len();
        let mut prog = Program::empty();
        let mut pos: usize = 0;
        while pos < n
            invariant
                prog.wf(),
                prog.memos.as_memo_map() == Map::<(usize, Seq<Object>), Object>::empty(),
                forall|k: Object|
                    #[trigger] prog.funcs.as_map().dom().contains(k)
                        ==> prog.funcs.as_map()[k].0 <= prog.instructions@.len(),
                pos <= n,
                n == s@.len(),
            decreases n - pos,
        {
            let mut le: usize = pos;
            while le < n
                invariant
                    pos <= le <= n,
                    n == s@.len(),
                decreases n - le,
            {
                if s.get_char(le) == '\n' {
                    break ;
                }
                le = le + 1;
            }
            let toks = tokenize(s, pos, le);
            if toks.len() > 0 {
                let (o0, o1) = toks[0];
                let op_str = s.substring_char(o0, o1);
                let mut arg = String::new();
                let mut ti: usize = 1;
                while ti < toks.len()
                    invariant
                        1 <= ti,
                        n == s@.len(),
                        forall|i: int|
                            0 <= i < toks@.len() ==> (#[trigger] toks@[i]).0 < toks@[i].1 <= n,
                    decreases toks@.len() - ti,
                {
                    if ti > 1 {
                        arg.append(" ");
                    }
                    let (a0, a1) = toks[ti];
                    arg.append(s.substring_char(a0, a1));
                    ti = ti + 1;
                }
                let has_arg = toks.len() >= 2;
                if crate::utils::chars_eq(op_str, "func") {
                    if !has_arg {
                        return Err(Operation::arg_error());
                    }
                    let (a0, a1) = toks[1];
                    let name = s.substring_char(a0, a1);
                    let fo = match prog.register_func_name(name) {
                        Ok(o) => o,
                        Err(e) => {
                            return Err(e);
                        },
                    };
                    let arity: usize = if toks.len() >= 3 {
                        let (b0, b1) = toks[2];
                        match string_to_t(s.substring_char(b0, b1)) {
                            Ok(v) => {
                                if v >= 0 && (v as u64) <= (usize::MAX as u64) {
                                    v as usize
                                } else {
                                    return Err(ProgramErrorKind::IntegerToUnsigned);
                                }
                            },
                            Err(e) => {
                                return Err(e);
                            },
                        }
                    } else {
                        0
                    };
                    let entry = prog.instructions.len();
                    prog.funcs.insert(fo, (entry, arity));
                } else if crate::utils::chars_eq(op_str, "bin_op") {
                    if !has_arg {
                        return Err(Operation::arg_error());
                    }
                    match BinOpKind::from_string(arg.as_str()) {
                        Some(k) => {
                            prog.instructions.push(Operation::BinOp(k));
                        },
                        None => {
                            return Err(ProgramErrorKind::ParsingError(arg));
                        },
                    }
                } else if crate::utils::chars_eq(op_str, "call_builtin") {
                    if !has_arg {
                        return Err(Operation::arg_error());
                    }
                    match crate::builtin::BuiltIn::from_string(arg.as_str()) {
                        Some(b) => {
                            prog.instructions.push(Operation::CallBuiltIn(b));
                        },
                        None => {
                            return Err(ProgramErrorKind::ParsingError(arg));
                        },
                    }
                } else {
                    let code = Operation::get_opcode(op_str);
                    if code == 0 {
                        return Err(ProgramErrorKind::ParsingError(op_str.to_owned()));
                    }
                    let arg_obj = if has_arg {
                        if all_digits_or_dots(arg.as_str()) {
                            match prog.register_as_a_number(arg.as_str()) {
                                Ok(o) => Some(o),
                                Err(e) => {
                                    return Err(e);
                                },
                            }
                        } else {
                            match prog.register_string(arg.as_str()) {
                                Ok(o) => Some(o),
                                Err(e) => {
                                    return Err(e);
                                },
                            }
                        }
                    } else {
                        None
                    };
                    match Operation::new(code, arg_obj) {
                        Some(op) => {
                            prog.instructions.push(op);
                        },
                        None => {
                            return Err(Operation::arg_error());
                        },
                    }
                }
            }
            pos = if le < n {
                le + 1
            } else {
                n
            };
        }
        // pair each block opener with its matching closer
        let mut openers: Vec<usize> = Vec::new();
        let mut idx: usize = 0;
        while idx < prog.instructions.len()
            invariant
                prog.wf(),
                prog.memos.as_memo_map() == Map::<(usize, Seq<Object>), Object>::empty(),
                forall|k: Object|
                    #[trigger] prog.funcs.as_map().dom().contains(k)
                        ==> prog.funcs.as_map()[k].0 <= prog.instructions@.len(),
            decreases prog.instructions@.len() - idx,
        {
            let op = prog.instructions[idx];
            match op {
                Operation::DoFor => {
                    openers.push(idx);
                },
                Operation::DoForIn(_) => {
                    openers.push(idx);
                },
                Operation::Iterate => {
                    openers.push(idx);
                },
                Operation::DoIf => {
                    openers.push(idx);
                },
                Operation::Done => {
                    match openers.pop() {
                        Some(opener) => {
                            let _ = prog.closers.insert(opener, idx);
                        },
                        None => {},
                    }
                },
                _ => {},
            }
            idx = idx + 1;
        }
        Ok(prog)
    }
}

} // verus!
