//! The binary operators of the VM, over object payloads.
//!
//! Integer arithmetic is checked: an out-of-range result yields an
//! `Overflow` error instead of wrapping. Operator and payload combinations
//! the VM does not implement (most fixed-point cases) yield a `BinopError`.
//! Each operator has a spec twin that states its result exactly.

use vstd::prelude::*;

use crate::error::ProgramErrorKind;
use crate::object::{Object, ObjectData, ObjectKind};

verus! {

/// One binary operator.
#[derive(Debug, Clone, Copy, PartialEq, Eq, Structural)]
pub enum BinOpKind {
    Add,
    Sub,
    Mul,
    Div,
    Mod,
    Eq,
    LessEq,
    GreatEq,
    Lesser,
    Greater,
    And,
    Or,
    Power,
    Root,
}

impl BinOpKind {
    /// The operator named by `s`, if any: the operator tokens of the
    /// textual program form (`+`, `-`, `*`, `/`, `%`, `==`, `<=`, `>=`,
    /// `<`, `>`, `&&`, `||`, `pow`, `root`).
    pub fn from_string(s: &str) -> (r: Option<BinOpKind>)
        ensures
            r == spec_binop_token(s@),
    {
        let n = s.unicode_len();
        if n == 1 {
            let c = s.get_char(0);
            if c == '+' {
                Some(BinOpKind::Add)
            } else if c == '-' {
                Some(BinOpKind::Sub)
            } else if c == '*' {
                Some(BinOpKind::Mul)
            } else if c == '/' {
                Some(BinOpKind::Div)
            } else if c == '%' {
                Some(BinOpKind::Mod)
            } else if c == '<' {
                Some(BinOpKind::Lesser)
            } else if c == '>' {
                Some(BinOpKind::Greater)
            } else {
                None
            }
        } else if n == 2 {
            let c0 = s.get_char(0);
            let c1 = s.get_char(1);
            if c0 == '=' && c1 == '=' {
                Some(BinOpKind::Eq)
            } else if c0 == '<' && c1 == '=' {
                Some(BinOpKind::LessEq)
            } else if c0 == '>' && c1 == '=' {
                Some(BinOpKind::GreatEq)
            } else if c0 == '&' && c1 == '&' {
                Some(BinOpKind::And)
            } else if c0 == '|' && c1 == '|' {
                Some(BinOpKind::Or)
            } else {
                None
            }
        } else if n == 3 {
            if s.get_char(0) == 'p' && s.get_char(1) == 'o' && s.get_char(2) == 'w' {
                Some(BinOpKind::Power)
            } else {
                None
            }
        } else if n == 4 {
            if s.get_char(0) == 'r' && s.get_char(1) == 'o' && s.get_char(2) == 'o' && s.get_char(
                3,
            ) == 't' {
                Some(BinOpKind::Root)
            } else {
                None
            }
        } else {
            None
        }
    }
}

/// The operator named by a character sequence, if any.
pub open spec fn spec_binop_token(s: Seq<char>) -> Option<BinOpKind> {
    if s.len() == 1 {
        if s[0] == '+' {
            Some(BinOpKind::Add)
        } else if s[0] == '-' {
            Some(BinOpKind::Sub)
        } else if s[0] == '*' {
            Some(BinOpKind::Mul)
        } else if s[0] == '/' {
            Some(BinOpKind::Div)
        } else if s[0] == '%' {
            Some(BinOpKind::Mod)
        } else if s[0] == '<' {
            Some(BinOpKind::Lesser)
        } else if s[0] == '>' {
            Some(BinOpKind::Greater)
        } else {
            None
        }
    } else if s.len() == 2 {
        if s[0] == '=' && s[1] == '=' {
            Some(BinOpKind::Eq)
        } else if s[0] == '<' && s[1] == '=' {
            Some(BinOpKind::LessEq)
        } else if s[0] == '>' && s[1] == '=' {
            Some(BinOpKind::GreatEq)
        } else if s[0] == '&' && s[1] == '&' {
            Some(BinOpKind::And)
        } else if s[0] == '|' && s[1] == '|' {
            Some(BinOpKind::Or)
        } else {
            None
        }
    } else if s.len() == 3 {
        if s[0] == 'p' && s[1] == 'o' && s[2] == 'w' {
            Some(BinOpKind::Power)
        } else {
            None
        }
    } else if s.len() == 4 {
        if s[0] == 'r' && s[1] == 'o' && s[2] == 'o' && s[3] == 't' {
            Some(BinOpKind::Root)
        } else {
            None
        }
    } else {
        None
    }
}

/// Truncated division (rounds toward zero), as machine division does;
/// meaningful only for `d != 0`.
pub open spec fn trunc_div(x: int, d: int) -> int {
    if x == 0 {
        0
    } else if x > 0 && d > 0 {
        x / d
    } else if x < 0 && d < 0 {
        ((x * -1) / (d * -1))
    } else if x < 0 {
        ((x * -1) / d) * -1
    } else {
        (x / (d * -1)) * -1
    }
}

/// Truncated remainder (takes the sign of the dividend), as the machine
/// remainder does; meaningful only for `d != 0`.
pub open spec fn trunc_rem(x: int, d: int) -> int {
    if x == 0 {
        0
    } else if x > 0 && d > 0 {
        x % d
    } else if x < 0 && d < 0 {
        ((x * -1) % (d * -1)) * -1
    } else if x < 0 {
        ((x * -1) % d) * -1
    } else {
        x % (d * -1)
    }
}

/// `base` raised to the `e`-th power.
pub open spec fn int_pow(base: int, e: nat) -> int
    decreases e,
{
    if e == 0 {
        1
    } else {
        base * int_pow(base, (e - 1) as nat)
    }
}

/// What `add` returns: checked integer addition; adding an integer to a
/// fixed-point number adds the whole parts and keeps the fraction; all
/// other combinations are unimplemented.
pub open spec fn spec_add(lhs: ObjectData, rhs: ObjectData) -> Result<Object, ProgramErrorKind> {
    match (lhs, rhs) {
        (ObjectData::Integer(l), ObjectData::Integer(r)) => if i64::MIN <= l + r <= i64::MAX {
            Ok(Object { kind: ObjectKind::Integer, data: ObjectData::Integer((l + r) as i64) })
        } else {
            Err(ProgramErrorKind::Overflow(BinOpKind::Add, l, r))
        },
        (ObjectData::Integer(l), ObjectData::Float(w, p)) => if i64::MIN <= l + w <= i64::MAX {
            Ok(Object { kind: ObjectKind::Float, data: ObjectData::Float((l + w) as i64, p) })
        } else {
            Err(ProgramErrorKind::Overflow(BinOpKind::Add, l, w))
        },
        (ObjectData::Float(w, p), ObjectData::Integer(r)) => if i64::MIN <= r + w <= i64::MAX {
            Ok(Object { kind: ObjectKind::Float, data: ObjectData::Float((r + w) as i64, p) })
        } else {
            Err(ProgramErrorKind::Overflow(BinOpKind::Add, r, w))
        },
        _ => Err(ProgramErrorKind::BinopError(BinOpKind::Add, lhs, rhs)),
    }
}

/// Adds two payloads; see [`spec_add`].
pub fn add(lhs: ObjectData, rhs: ObjectData) -> (r: Result<Object, ProgramErrorKind>)
    ensures
        r == spec_add(lhs, rhs),
{
    match (lhs, rhs) {
        (ObjectData::Integer(l), ObjectData::Integer(r)) => match l.checked_add(r) {
            Some(v) => Ok(Object::integer(v)),
            None => Err(ProgramErrorKind::Overflow(BinOpKind::Add, l, r)),
        },
        (ObjectData::Integer(l), ObjectData::Float(w, p)) => match l.checked_add(w) {
            Some(v) => Ok(Object::float(v, p)),
            None => Err(ProgramErrorKind::Overflow(BinOpKind::Add, l, w)),
        },
        (ObjectData::Float(w, p), ObjectData::Integer(r)) => match r.checked_add(w) {
            Some(v) => Ok(Object::float(v, p)),
            None => Err(ProgramErrorKind::Overflow(BinOpKind::Add, r, w)),
        },
        _ => Err(ProgramErrorKind::BinopError(BinOpKind::Add, lhs, rhs)),
    }
}

/// What `sub` returns: checked integer subtraction; everything else is
/// unimplemented.
pub open spec fn spec_sub(lhs: ObjectData, rhs: ObjectData) -> Result<Object, ProgramErrorKind> {
    match (lhs, rhs) {
        (ObjectData::Integer(l), ObjectData::Integer(r)) => if i64::MIN <= l - r <= i64::MAX {
            Ok(Object { kind: ObjectKind::Integer, data: ObjectData::Integer((l - r) as i64) })
        } else {
            Err(ProgramErrorKind::Overflow(BinOpKind::Sub, l, r))
        },
        _ => Err(ProgramErrorKind::BinopError(BinOpKind::Sub, lhs, rhs)),
    }
}

/// Subtracts two payloads; see [`spec_sub`].
pub fn sub(lhs: ObjectData, rhs: ObjectData) -> (r: Result<Object, ProgramErrorKind>)
    ensures
        r == spec_sub(lhs, rhs),
{
    match (lhs, rhs) {
        (ObjectData::Integer(l), ObjectData::Integer(r)) => match l.checked_sub(r) {
            Some(v) => Ok(Object::integer(v)),
            None => Err(ProgramErrorKind::Overflow(BinOpKind::Sub, l, r)),
        },
        _ => Err(ProgramErrorKind::BinopError(BinOpKind::Sub, lhs, rhs)),
    }
}

/// What `mul` returns: checked integer multiplication; everything else is
/// unimplemented.
pub open spec fn spec_mul(lhs: ObjectData, rhs: ObjectData) -> Result<Object, ProgramErrorKind> {
    match (lhs, rhs) {
        (ObjectData::Integer(l), ObjectData::Integer(r)) => if i64::MIN <= l * r <= i64::MAX {
            Ok(Object { kind: ObjectKind::Integer, data: ObjectData::Integer((l * r) as i64) })
        } else {
            Err(ProgramErrorKind::Overflow(BinOpKind::Mul, l, r))
        },
        _ => Err(ProgramErrorKind::BinopError(BinOpKind::Mul, lhs, rhs)),
    }
}

/// Multiplies two payloads; see [`spec_mul`].
pub fn mul(lhs: ObjectData, rhs: ObjectData) -> (r: Result<Object, ProgramErrorKind>)
    ensures
        r == spec_mul(lhs, rhs),
{
    match (lhs, rhs) {
        (ObjectData::Integer(l), ObjectData::Integer(r)) => match l.checked_mul(r) {
            Some(v) => Ok(Object::integer(v)),
            None => Err(ProgramErrorKind::Overflow(BinOpKind::Mul, l, r)),
        },
        _ => Err(ProgramErrorKind::BinopError(BinOpKind::Mul, lhs, rhs)),
    }
}

/// What `div` returns: truncated integer division; dividing by zero or
/// overflowing (the minimum value by minus one) yields an `Overflow`
/// error; everything else is unimplemented.
pub open spec fn spec_div(lhs: ObjectData, rhs: ObjectData) -> Result<Object, ProgramErrorKind> {
    match (lhs, rhs) {
        (ObjectData::Integer(l), ObjectData::Integer(r)) => if r != 0 && i64::MIN <= trunc_div(
            l as int,
            r as int,
        ) <= i64::MAX {
            Ok(
                Object {
                    kind: ObjectKind::Integer,
                    data: ObjectData::Integer(trunc_div(l as int, r as int) as i64),
                },
            )
        } else {
            Err(ProgramErrorKind::Overflow(BinOpKind::Div, l, r))
        },
        _ => Err(ProgramErrorKind::BinopError(BinOpKind::Div, lhs, rhs)),
    }
}

/// Divides two payloads; see [`spec_div`].
pub fn div(lhs: ObjectData, rhs: ObjectData) -> (r: Result<Object, ProgramErrorKind>)
    ensures
        r == spec_div(lhs, rhs),
{
    match (lhs, rhs) {
        (ObjectData::Integer(l), ObjectData::Integer(r)) => match l.checked_div(r) {
            Some(v) => Ok(Object::integer(v)),
            None => Err(ProgramErrorKind::Overflow(BinOpKind::Div, l, r)),
        },
        _ => Err(ProgramErrorKind::BinopError(BinOpKind::Div, lhs, rhs)),
    }
}

/// What `modulus` returns: the truncated remainder; a zero divisor or the
/// overflowing pair yields an `Overflow` error; everything else is
/// unimplemented.
pub open spec fn spec_modulus(lhs: ObjectData, rhs: ObjectData) -> Result<
    Object,
    ProgramErrorKind,
> {
    match (lhs, rhs) {
        (ObjectData::Integer(l), ObjectData::Integer(r)) => if r != 0 && !(l == i64::MIN && r
            == -1) {
            Ok(
                Object {
                    kind: ObjectKind::Integer,
                    data: ObjectData::Integer(trunc_rem(l as int, r as int) as i64),
                },
            )
        } else {
            Err(ProgramErrorKind::Overflow(BinOpKind::Mod, l, r))
        },
        _ => Err(ProgramErrorKind::BinopError(BinOpKind::Mod, lhs, rhs)),
    }
}

/// Takes the remainder of two payloads; see [`spec_modulus`].
pub fn modulus(lhs: ObjectData, rhs: ObjectData) -> (r: Result<Object, ProgramErrorKind>)
    ensures
        r == spec_modulus(lhs, rhs),
{
    match (lhs, rhs) {
        (ObjectData::Integer(l), ObjectData::Integer(r)) => match l.checked_rem(r) {
            Some(v) => Ok(Object::integer(v)),
            None => Err(ProgramErrorKind::Overflow(BinOpKind::Mod, l, r)),
        },
        _ => Err(ProgramErrorKind::BinopError(BinOpKind::Mod, lhs, rhs)),
    }
}

/// What `eq` returns: integer equality as a boolean object; everything
/// else is unimplemented.
pub open spec fn spec_eq(lhs: ObjectData, rhs: ObjectData) -> Result<Object, ProgramErrorKind> {
    match (lhs, rhs) {
        (ObjectData::Integer(l), ObjectData::Integer(r)) => Ok(
            Object { kind: ObjectKind::Bool, data: ObjectData::Bool(l == r) },
        ),
        _ => Err(ProgramErrorKind::BinopError(BinOpKind::Eq, lhs, rhs)),
    }
}

/// Compares two payloads for equality; see [`spec_eq`].
pub fn eq(lhs: ObjectData, rhs: ObjectData) -> (r: Result<Object, ProgramErrorKind>)
    ensures
        r == spec_eq(lhs, rhs),
{
    match (lhs, rhs) {
        (ObjectData::Integer(l), ObjectData::Integer(r)) => Ok(Object::boolean(l == r)),
        _ => Err(ProgramErrorKind::BinopError(BinOpKind::Eq, lhs, rhs)),
    }
}

/// What `lesser` returns: integer strict-less as a boolean object.
pub open spec fn spec_lesser(lhs: ObjectData, rhs: ObjectData) -> Result<
    Object,
    ProgramErrorKind,
> {
    match (lhs, rhs) {
        (ObjectData::Integer(l), ObjectData::Integer(r)) => Ok(
            Object { kind: ObjectKind::Bool, data: ObjectData::Bool(l < r) },
        ),
        _ => Err(ProgramErrorKind::BinopError(BinOpKind::Lesser, lhs, rhs)),
    }
}

/// Compares two payloads with `<`; see [`spec_lesser`].
pub fn lesser(lhs: ObjectData, rhs: ObjectData) -> (r: Result<Object, ProgramErrorKind>)
    ensures
        r == spec_lesser(lhs, rhs),
{
    match (lhs, rhs) {
        (ObjectData::Integer(l), ObjectData::Integer(r)) => Ok(Object::boolean(l < r)),
        _ => Err(ProgramErrorKind::BinopError(BinOpKind::Lesser, lhs, rhs)),
    }
}

/// What `greater` returns: integer strict-greater as a boolean object.
pub open spec fn spec_greater(lhs: ObjectData, rhs: ObjectData) -> Result<
    Object,
    ProgramErrorKind,
> {
    match (lhs, rhs) {
        (ObjectData::Integer(l), ObjectData::Integer(r)) => Ok(
            Object { kind: ObjectKind::Bool, data: ObjectData::Bool(l > r) },
        ),
        _ => Err(ProgramErrorKind::BinopError(BinOpKind::Greater, lhs, rhs)),
    }
}

/// Compares two payloads with `>`; see [`spec_greater`].
pub fn greater(lhs: ObjectData, rhs: ObjectData) -> (r: Result<Object, ProgramErrorKind>)
    ensures
        r == spec_greater(lhs, rhs),
{
    match (lhs, rhs) {
        (ObjectData::Integer(l), ObjectData::Integer(r)) => Ok(Object::boolean(l > r)),
        _ => Err(ProgramErrorKind::BinopError(BinOpKind::Greater, lhs, rhs)),
    }
}

/// What `lesseq` returns: integer less-or-equal as a boolean object.
pub open spec fn spec_lesseq(lhs: ObjectData, rhs: ObjectData) -> Result<
    Object,
    ProgramErrorKind,
> {
    match (lhs, rhs) {
        (ObjectData::Integer(l), ObjectData::Integer(r)) => Ok(
            Object { kind: ObjectKind::Bool, data: ObjectData::Bool(l <= r) },
        ),
        _ => Err(ProgramErrorKind::BinopError(BinOpKind::LessEq, lhs, rhs)),
    }
}

/// Compares two payloads with `<=`; see [`spec_lesseq`].
pub fn lesseq(lhs: ObjectData, rhs: ObjectData) -> (r: Result<Object, ProgramErrorKind>)
    ensures
        r == spec_lesseq(lhs, rhs),
{
    match (lhs, rhs) {
        (ObjectData::Integer(l), ObjectData::Integer(r)) => Ok(Object::boolean(l <= r)),
        _ => Err(ProgramErrorKind::BinopError(BinOpKind::LessEq, lhs, rhs)),
    }
}

/// What `greateq` returns: integer greater-or-equal as a boolean object.
pub open spec fn spec_greateq(lhs: ObjectData, rhs: ObjectData) -> Result<
    Object,
    ProgramErrorKind,
> {
    match (lhs, rhs) {
        (ObjectData::Integer(l), ObjectData::Integer(r)) => Ok(
            Object { kind: ObjectKind::Bool, data: ObjectData::Bool(l >= r) },
        ),
        _ => Err(ProgramErrorKind::BinopError(BinOpKind::GreatEq, lhs, rhs)),
    }
}

/// Compares two payloads with `>=`; see [`spec_greateq`].
pub fn greateq(lhs: ObjectData, rhs: ObjectData) -> (r: Result<Object, ProgramErrorKind>)
    ensures
        r == spec_greateq(lhs, rhs),
{
    match (lhs, rhs) {
        (ObjectData::Integer(l), ObjectData::Integer(r)) => Ok(Object::boolean(l >= r)),
        _ => Err(ProgramErrorKind::BinopError(BinOpKind::GreatEq, lhs, rhs)),
    }
}

/// What `and` returns: boolean conjunction; everything else is
/// unimplemented.
pub open spec fn spec_and(lhs: ObjectData, rhs: ObjectData) -> Result<Object, ProgramErrorKind> {
    match (lhs, rhs) {
        (ObjectData::Bool(l), ObjectData::Bool(r)) => Ok(
            Object { kind: ObjectKind::Bool, data: ObjectData::Bool(l && r) },
        ),
        _ => Err(ProgramErrorKind::BinopError(BinOpKind::And, lhs, rhs)),
    }
}

/// Conjoins two boolean payloads; see [`spec_and`].
pub fn and(lhs: ObjectData, rhs: ObjectData) -> (r: Result<Object, ProgramErrorKind>)
    ensures
        r == spec_and(lhs, rhs),
{
    match (lhs, rhs) {
        (ObjectData::Bool(l), ObjectData::Bool(r)) => Ok(Object::boolean(l && r)),
        _ => Err(ProgramErrorKind::BinopError(BinOpKind::And, lhs, rhs)),
    }
}

/// What `or` returns: boolean disjunction; everything else is
/// unimplemented.
pub open spec fn spec_or(lhs: ObjectData, rhs: ObjectData) -> Result<Object, ProgramErrorKind> {
    match (lhs, rhs) {
        (ObjectData::Bool(l), ObjectData::Bool(r)) => Ok(
            Object { kind: ObjectKind::Bool, data: ObjectData::Bool(l || r) },
        ),
        _ => Err(ProgramErrorKind::BinopError(BinOpKind::Or, lhs, rhs)),
    }
}

/// Disjoins two boolean payloads; see [`spec_or`].
pub fn or(lhs: ObjectData, rhs: ObjectData) -> (r: Result<Object, ProgramErrorKind>)
    ensures
        r == spec_or(lhs, rhs),
{
    match (lhs, rhs) {
        (ObjectData::Bool(l), ObjectData::Bool(r)) => Ok(Object::boolean(l || r)),
        _ => Err(ProgramErrorKind::BinopError(BinOpKind::Or, lhs, rhs)),
    }
}

/// What `pow` returns: a negative exponent fails the signed-to-unsigned
/// conversion; otherwise the exact power, or an `Overflow` error where it
/// does not fit an integer payload; everything else is unimplemented.
pub open spec fn spec_pow(lhs: ObjectData, rhs: ObjectData) -> Result<Object, ProgramErrorKind> {
    match (lhs, rhs) {
        (ObjectData::Integer(l), ObjectData::Integer(r)) => if r < 0 {
            Err(ProgramErrorKind::IntegerToUnsigned)
        } else if i64::MIN <= int_pow(l as int, r as nat) <= i64::MAX {
            Ok(
                Object {
                    kind: ObjectKind::Integer,
                    data: ObjectData::Integer(int_pow(l as int, r as nat) as i64),
                },
            )
        } else {
            Err(ProgramErrorKind::Overflow(BinOpKind::Power, l, r))
        },
        _ => Err(ProgramErrorKind::BinopError(BinOpKind::Power, lhs, rhs)),
    }
}

/// Raises a payload to a power; see [`spec_pow`].
pub fn pow(lhs: ObjectData, rhs: ObjectData) -> (r: Result<Object, ProgramErrorKind>)
    ensures
        r == spec_pow(lhs, rhs),
{
    match (lhs, rhs) {
        (ObjectData::Integer(l), ObjectData::Integer(r)) => {
            if r < 0 {
                return Err(ProgramErrorKind::IntegerToUnsigned);
            }
            let mut acc: i64 = 1;
            let mut i: i64 = 0;
            while i < r
                invariant
                    0 <= i <= r,
                    acc == int_pow(l as int, i as nat),
                    lhs == ObjectData::Integer(l),
                    rhs == ObjectData::Integer(r),
                decreases r - i,
            {
                let ghost e = i as nat;
                proof {
                    lemma_int_pow_step(l as int, e);
                    assert((i + 1) as nat == e + 1);
                }
                match acc.checked_mul(l) {
                    Some(v) => {
                        proof {
                            assert(v == acc * l);
                            assert(v == int_pow(l as int, (e + 1) as nat));
                        }
                        acc = v;
                        i = i + 1;
                    },
                    None => {
                        proof {
                            assert(!(i64::MIN <= acc * l <= i64::MAX));
                            assert(acc * l == int_pow(l as int, (e + 1) as nat));
                            lemma_pow_overflow_sticks(l as int, (e + 1) as nat, r as nat);
                        }
                        return Err(ProgramErrorKind::Overflow(BinOpKind::Power, l, r));
                    },
                }
            }
            Ok(Object::integer(acc))
        },
        _ => Err(ProgramErrorKind::BinopError(BinOpKind::Power, lhs, rhs)),
    }
}

/// What `root` returns. The whole-number root operator of this VM is only
/// meaningful for a root exponent of one (where it returns the base): the
/// exponent is first inverted in integer arithmetic, so any larger root
/// collapses to the zeroth power. A zero exponent yields an `Overflow`
/// error, a negative-one exponent fails the signed-to-unsigned conversion.
pub open spec fn spec_root(lhs: ObjectData, rhs: ObjectData) -> Result<Object, ProgramErrorKind> {
    match (lhs, rhs) {
        (ObjectData::Integer(l), ObjectData::Integer(r)) => if r == 0 {
            Err(ProgramErrorKind::Overflow(BinOpKind::Root, l, r))
        } else if r == -1 {
            Err(ProgramErrorKind::IntegerToUnsigned)
        } else if r == 1 {
            Ok(Object { kind: ObjectKind::Integer, data: ObjectData::Integer(l) })
        } else {
            Ok(Object { kind: ObjectKind::Integer, data: ObjectData::Integer(1) })
        },
        _ => Err(ProgramErrorKind::BinopError(BinOpKind::Root, lhs, rhs)),
    }
}

/// Takes a whole-number root; see [`spec_root`].
pub fn root(lhs: ObjectData, rhs: ObjectData) -> (r: Result<Object, ProgramErrorKind>)
    ensures
        r == spec_root(lhs, rhs),
{
    match (lhs, rhs) {
        (ObjectData::Integer(l), ObjectData::Integer(r)) => {
            if r == 0 {
                Err(ProgramErrorKind::Overflow(BinOpKind::Root, l, r))
            } else if r == -1 {
                Err(ProgramErrorKind::IntegerToUnsigned)
            } else if r == 1 {
                Ok(Object::integer(l))
            } else {
                Ok(Object::integer(1))
            }
        },
        _ => Err(ProgramErrorKind::BinopError(BinOpKind::Root, lhs, rhs)),
    }
}

/// One more factor is one more power.
proof fn lemma_int_pow_step(base: int, e: nat)
    ensures
        int_pow(base, e + 1) == base * int_pow(base, e),
{
    assert(int_pow(base, e + 1) == base * int_pow(base, (e + 1 - 1) as nat));
}

/// Once one step of the power loop leaves the integer range, every later
/// power is out of range too: a base of magnitude at most one never
/// leaves the range, and a base of magnitude at least two grows strictly.
proof fn lemma_pow_overflow_sticks(base: int, e1: nat, e2: nat)
    requires
        e1 <= e2,
        !(i64::MIN <= int_pow(base, e1) <= i64::MAX),
    ensures
        !(i64::MIN <= int_pow(base, e2) <= i64::MAX),
{
    if e1 < e2 {
        if abs_of(base) <= 1 {
            lemma_small_base_pow(base, e1);
        } else {
            lemma_pow_strictly_grows(base, e1, e2);
            let p1 = int_pow(base, e1);
            let p2 = int_pow(base, e2);
            assert(abs_of(p1) >= i64::MAX + 1);
            assert(abs_of(p2) > abs_of(p1));
        }
    }
}

/// The absolute value of an integer.
pub open spec fn abs_of(x: int) -> int {
    if x >= 0 {
        x
    } else {
        -x
    }
}

/// Powers of a base of magnitude at most one keep magnitude at most one.
proof fn lemma_small_base_pow(base: int, e: nat)
    requires
        abs_of(base) <= 1,
    ensures
        abs_of(int_pow(base, e)) <= 1,
    decreases e,
{
    if e > 0 {
        lemma_small_base_pow(base, (e - 1) as nat);
        let p = int_pow(base, (e - 1) as nat);
        lemma_abs_mul(base, p);
        assert(abs_of(base) * abs_of(p) <= 1) by (nonlinear_arith)
            requires
                0 <= abs_of(base) <= 1,
                0 <= abs_of(p) <= 1,
        ;
    }
}

/// Powers of a base of magnitude at least two grow strictly in magnitude.
proof fn lemma_pow_strictly_grows(base: int, ea: nat, eb: nat)
    requires
        abs_of(base) >= 2,
        ea < eb,
    ensures
        int_pow(base, ea) != 0,
        abs_of(int_pow(base, ea)) < abs_of(int_pow(base, eb)),
    decreases eb - ea,
{
    lemma_pow_nonzero(base, ea);
    let prev = (eb - 1) as nat;
    if ea < prev {
        lemma_pow_strictly_grows(base, ea, prev);
    }
    lemma_pow_nonzero(base, prev);
    let p = int_pow(base, prev);
    assert(int_pow(base, eb) == base * p);
    lemma_abs_mul(base, p);
    assert(abs_of(base * p) == abs_of(base) * abs_of(p));
    assert(abs_of(base) * abs_of(p) >= 2 * abs_of(p)) by (nonlinear_arith)
        requires
            abs_of(base) >= 2,
            abs_of(p) >= 0,
    ;
    assert(abs_of(p) >= 1);
}

/// Powers of a nonzero base are nonzero.
proof fn lemma_pow_nonzero(base: int, e: nat)
    requires
        base != 0,
    ensures
        int_pow(base, e) != 0,
        abs_of(int_pow(base, e)) >= 1,
    decreases e,
{
    if e > 0 {
        lemma_pow_nonzero(base, (e - 1) as nat);
        let p = int_pow(base, (e - 1) as nat);
        lemma_abs_mul(base, p);
        assert(abs_of(base) * abs_of(p) >= 1) by (nonlinear_arith)
            requires
                abs_of(base) >= 1,
                abs_of(p) >= 1,
        ;
    }
}

/// The magnitude of a product is the product of the magnitudes.
proof fn lemma_abs_mul(a: int, b: int)
    ensures
        abs_of(a * b) == abs_of(a) * abs_of(b),
{
    assert(abs_of(a * b) == abs_of(a) * abs_of(b)) by (nonlinear_arith);
}

} // verus!
