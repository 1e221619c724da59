//! The built-in functions the VM can call: `println` and `sqrt`.
//!
//! `println` itself produces no value; the VM records the argument on its
//! output channel and the caller of the library renders it. `sqrt` is the
//! integer square root on integer payloads.

use vstd::prelude::*;

use crate::object::{Object, ObjectData, ObjectKind};

verus! {

/// One built-in function.
#[derive(Debug, Clone, Copy, PartialEq, Eq, Structural)]
pub enum BuiltIn {
    PrintLn,
    Sqrt,
}

/// The built-in named by a character sequence, if any.
pub open spec fn spec_builtin_token(s: Seq<char>) -> Option<BuiltIn> {
    if s == "println"@ {
        Some(BuiltIn::PrintLn)
    } else if s == "sqrt"@ {
        Some(BuiltIn::Sqrt)
    } else {
        None
    }
}

impl BuiltIn {
    /// The built-in named by `s`, if any (`println` or `sqrt`).
    pub fn from_string(s: &str) -> (r: Option<BuiltIn>)
        ensures
            r == spec_builtin_token(s@),
    {
        if crate::utils::chars_eq(s, "println") {
            Some(BuiltIn::PrintLn)
        } else if crate::utils::chars_eq(s, "sqrt") {
            Some(BuiltIn::Sqrt)
        } else {
            None
        }
    }

    /// Applies the built-in to `arg`. `println` yields no value (the VM
    /// records the argument on its output channel); `sqrt` yields the
    /// integer square root, and is only defined on non-negative integers.
    pub fn call(&self, arg: Object) -> (r: Option<Object>)
        requires
            *self is Sqrt ==> (arg.data matches ObjectData::Integer(v) && v >= 0),
        ensures
            *self is PrintLn ==> r is None,
            *self is Sqrt ==> r == Some(object_sqrt_spec(arg)),
    {
        match self {
            BuiltIn::PrintLn => None,
            BuiltIn::Sqrt => Some(object_sqrt(arg)),
        }
    }
}

/// `r` is the integer square root of `n`.
pub open spec fn is_isqrt(n: int, r: int) -> bool {
    r >= 0 && r * r <= n < (r + 1) * (r + 1)
}

/// The integer-square-root object of an integer object.
pub open spec fn object_sqrt_spec(obj: Object) -> Object {
    Object {
        kind: ObjectKind::Integer,
        data: ObjectData::Integer(
            (choose|r: int| is_isqrt(obj.data->Integer_0 as int, r)) as i64,
        ),
    }
}

/// The integer square root of a non-negative integer object.
pub fn object_sqrt(obj: Object) -> (r: Object)
    requires
        obj.data matches ObjectData::Integer(v) && v >= 0,
    ensures
        r == object_sqrt_spec(obj),
{
    match obj.data {
        ObjectData::Integer(v) => {
            let rt = int_isqrt(v);
            proof {
                let n = obj.data->Integer_0 as int;
                assert(is_isqrt(n, rt as int));
                let c = choose|r0: int| is_isqrt(n, r0);
                lemma_isqrt_unique(n, rt as int, c);
            }
            Object::integer(rt)
        },
        _ => {
            proof {
                assert(false);
            }
            Object::nil()
        },
    }
}

/// The integer square root is unique.
proof fn lemma_isqrt_unique(n: int, a: int, b: int)
    requires
        is_isqrt(n, a),
        is_isqrt(n, b),
    ensures
        a == b,
{
    if a < b {
        assert((a + 1) * (a + 1) <= b * b) by (nonlinear_arith)
            requires
                0 <= a,
                a + 1 <= b,
        ;
    }
    if b < a {
        assert((b + 1) * (b + 1) <= a * a) by (nonlinear_arith)
            requires
                0 <= b,
                b + 1 <= a,
        ;
    }
}

/// The integer square root of a non-negative machine integer, by binary
/// search.
pub fn int_isqrt(n: i64) -> (r: i64)
    requires
        n >= 0,
    ensures
        is_isqrt(n as int, r as int),
{
    let mut lo: i64 = 0;
    let mut hi: i64 = if n < 3037000499 {
        n
    } else {
        3037000499
    };
    proof {
        assert((hi + 1) * (hi + 1) > n) by (nonlinear_arith)
            requires
                hi >= 0,
                n >= 0,
                hi >= n || hi == 3037000499,
                n <= i64::MAX,
        ;
    }
    while lo < hi
        invariant
            0 <= lo <= hi <= 3037000499,
            lo * lo <= n,
            (hi + 1) * (hi + 1) > n,
        decreases hi - lo,
    {
        let mid = lo + (hi - lo + 1) / 2;
        proof {
            assert(mid <= hi);
            assert(mid * mid <= 3037000499i64 * 3037000499) by (nonlinear_arith)
                requires
                    0 <= mid <= 3037000499,
            ;
        }
        if mid * mid <= n {
            lo = mid;
        } else {
            hi = mid - 1;
        }
    }
    lo
}

} // verus!
