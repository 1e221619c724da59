//! The two arena allocators that back every heap-like allocation of the
//! VM: a monotonically growing bump arena ([`Dropless`]) for write-once
//! data, and a free-list-recycling arena ([`Manual`]) for the mutable
//! object heap.
//!
//! Both arenas are index-addressed: an allocation returns a stable address
//! into a flat address space that the arena's chunks partition, and every
//! access through such an address is bounds-checked against the chunks.
//! The address zero is never part of any chunk, so it can serve as a null
//! address.

pub mod chunk;
pub mod dropless;
pub mod manual;

pub use chunk::Chunk;
pub use dropless::Dropless;
pub use manual::Manual;

use vstd::prelude::*;

verus! {

/// The size of the first chunk of an arena, and the unit chunk sizes are
/// rounded up to.
pub const PAGE: usize = 4096;

/// The ceiling of the chunk-doubling policy: once a chunk reaches this
/// size, later chunks grow linearly in steps of this size.
pub const HUGE_PAGE: usize = 2 * 1024 * 1024;

/// The larger of two integers.
pub open spec fn spec_max(a: int, b: int) -> int {
    if a >= b {
        a
    } else {
        b
    }
}

/// The smaller of two integers.
pub open spec fn spec_min(a: int, b: int) -> int {
    if a <= b {
        a
    } else {
        b
    }
}

/// `v` rounded up to a multiple of `a`.
pub open spec fn spec_align_up(v: int, a: int) -> int {
    v + ((a - (v % a)) % a)
}

/// Rounds `val` down to a multiple of `align`.
pub fn align_down(val: usize, align: usize) -> (r: usize)
    requires
        align >= 1,
    ensures
        r == val as int - (val as int % align as int),
        r as int % align as int == 0,
        r <= val,
        val - r < align,
{
    let rem = val % align;
    proof {
        lemma_aligned_diff(val as int, align as int);
    }
    val - rem
}

/// Rounds `val` up to a multiple of `align`.
pub fn align_up(val: usize, align: usize) -> (r: usize)
    requires
        align >= 1,
        val + align <= usize::MAX,
    ensures
        r as int % align as int == 0,
        val <= r,
        r < val + align,
        r == spec_align_up(val as int, align as int),
{
    let rem = val % align;
    proof {
        lemma_aligned_diff(val as int, align as int);
    }
    if rem == 0 {
        proof {
            assert((align as int - (val as int % align as int)) % align as int == 0)
                by (nonlinear_arith)
                requires
                    align as int >= 1,
                    val as int % align as int == 0,
            ;
        }
        val
    } else {
        proof {
            assert((val as int - rem as int + align as int) % align as int == 0)
                by (nonlinear_arith)
                requires
                    align as int >= 1,
                    rem as int == val as int % align as int,
                    rem as int != 0,
            ;
            assert((align as int - (val as int % align as int)) % align as int == align as int
                - rem as int) by (nonlinear_arith)
                requires
                    align as int >= 1,
                    rem as int == val as int % align as int,
                    0 < rem as int,
                    (rem as int) < (align as int),
            ;
        }
        val - rem + align
    }
}

/// Subtracting its remainder leaves a multiple of the divisor.
proof fn lemma_aligned_diff(val: int, align: int)
    requires
        align >= 1,
        val >= 0,
    ensures
        0 <= val % align < align,
        val % align <= val,
        (val - (val % align)) % align == 0,
{
    assert(0 <= val % align < align && val % align <= val && (val - (val % align)) % align == 0)
        by (nonlinear_arith)
        requires
            align >= 1,
            val >= 0,
    ;
}

} // verus!
