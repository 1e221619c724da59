//! Small helpers shared across the VM: string comparison, the integer
//! literal grammar, and option-to-error plumbing.

use vstd::prelude::*;

use crate::error::ProgramErrorKind;
use vstd::utf8::{encode_utf8, valid_utf8};

verus! {

/// Compares two strings character by character.
pub fn chars_eq(a: &str, b: &str) -> (r: bool)
    ensures
        r == (a@ == b@),
{
    let na = a.unicode_len();
    let nb = b.unicode_len();
    if na != nb {
        return false;
    }
    let mut i: usize = 0;
    while i < na
        invariant
            i <= na,
            na == a@.len(),
            na == b@.len(),
            forall|j: int| 0 <= j < i ==> a@[j] == b@[j],
        decreases na - i,
    {
        if a.get_char(i) != b.get_char(i) {
            return false;
        }
        i = i + 1;
    }
    proof {
        assert(a@ =~= b@);
    }
    true
}

/// Relies on `String::from_utf8`: it succeeds exactly on valid UTF-8 and
/// the resulting string's characters encode back to the given bytes.
#[verifier::external_body]
fn utf8_to_string(bytes: Vec<u8>) -> (r: Option<String>)
    ensures
        r is Some <==> valid_utf8(bytes@),
        r matches Some(s) ==> encode_utf8(s@) == bytes@,
{
    match String::from_utf8(bytes) {
        Ok(s) => Some(s),
        Err(_) => None,
    }
}

/// Decodes arena-owned name bytes for display; callers pass only byte
/// ranges that were encoded from program text.
pub fn bytes_to_string(bytes: &[u8]) -> (r: String)
    requires
        valid_utf8(bytes@),
    ensures
        encode_utf8(r@) == bytes@,
{
    let owned = vstd::slice::slice_to_vec(bytes);
    match utf8_to_string(owned) {
        Some(s) => s,
        None => {
            proof {
                assert(false);
            }
            String::new()
        },
    }
}

/// Turns an absent value into the given error.
pub fn unwrap_or_error<T>(option: Option<T>, kind: ProgramErrorKind) -> (r: Result<
    T,
    ProgramErrorKind,
>)
    ensures
        match option {
            Some(v) => r == Ok::<T, ProgramErrorKind>(v),
            None => r == Err::<T, ProgramErrorKind>(kind),
        },
{
    match option {
        Some(v) => Ok(v),
        None => Err(kind),
    }
}

/// Whether `c` is a decimal digit.
pub open spec fn is_digit(c: char) -> bool {
    '0' <= c <= '9'
}

/// The value of a decimal digit string, read left to right.
pub open spec fn digits_value(s: Seq<char>) -> int
    decreases s.len(),
{
    if s.len() == 0 {
        0
    } else {
        digits_value(s.drop_last()) * 10 + (s.last() as int - '0' as int)
    }
}

/// Whether `s` consists of decimal digits only.
pub open spec fn all_digits(s: Seq<char>) -> bool {
    forall|i: int| 0 <= i < s.len() ==> is_digit(#[trigger] s[i])
}

/// Whether `s` matches the signed decimal integer grammar: an optional
/// leading minus sign followed by at least one digit.
pub open spec fn is_int_literal(s: Seq<char>) -> bool {
    if s.len() > 0 && s[0] == '-' {
        s.len() > 1 && all_digits(s.skip(1))
    } else {
        s.len() > 0 && all_digits(s)
    }
}

/// The value of a signed decimal integer literal.
pub open spec fn int_literal_value(s: Seq<char>) -> int {
    if s.len() > 0 && s[0] == '-' {
        -digits_value(s.skip(1))
    } else {
        digits_value(s)
    }
}

/// A digit string's value is non-negative.
pub proof fn lemma_digits_value_nonneg(s: Seq<char>)
    requires
        all_digits(s),
    ensures
        digits_value(s) >= 0,
    decreases s.len(),
{
    if s.len() > 0 {
        assert(all_digits(s.drop_last()));
        lemma_digits_value_nonneg(s.drop_last());
    }
}

/// Extending a digit string never shrinks its value.
pub proof fn lemma_digits_value_prefix(s: Seq<char>, i: int)
    requires
        all_digits(s),
        0 <= i <= s.len(),
    ensures
        digits_value(s.subrange(0, i)) <= digits_value(s),
    decreases s.len() - i,
{
    if i < s.len() {
        lemma_digits_value_prefix(s, i + 1);
        let p = s.subrange(0, i);
        let q = s.subrange(0, i + 1);
        assert(q.drop_last() =~= p);
        assert(all_digits(p));
        lemma_digits_value_nonneg(p);
        assert(digits_value(q) == digits_value(p) * 10 + (q.last() as int - '0' as int));
        assert(digits_value(p) * 10 >= digits_value(p)) by (nonlinear_arith)
            requires
                digits_value(p) >= 0,
        ;
    } else {
        assert(s.subrange(0, i) =~= s);
    }
}

/// Parses a signed decimal integer, the one literal form the loader needs
/// a machine value for. Returns the exact value of a well-formed literal
/// that fits a signed word, and a parsing error (carrying the text) for
/// anything else.
pub fn string_to_t(s: &str) -> (r: Result<i64, ProgramErrorKind>)
    ensures
        match r {
            Ok(v) => is_int_literal(s@) && v == int_literal_value(s@) && i64::MIN
                <= int_literal_value(s@) <= i64::MAX,
            Err(e) => (!is_int_literal(s@) || !(i64::MIN <= int_literal_value(s@)
                <= i64::MAX)) && (e matches ProgramErrorKind::ParsingError(msg) && msg@ == s@),
        },
{
    let n = s.unicode_len();
    if n == 0 {
        return Err(ProgramErrorKind::ParsingError(s.to_owned()));
    }
    let neg = s.get_char(0) == '-';
    let start: usize = if neg {
        1
    } else {
        0
    };
    if n == start {
        return Err(ProgramErrorKind::ParsingError(s.to_owned()));
    }
    let ghost digits = if neg {
        s@.skip(1)
    } else {
        s@
    };
    let mut acc: u64 = 0;
    let mut i: usize = start;
    while i < n
        invariant
            start < n,
            start <= i <= n,
            n == s@.len(),
            neg == (s@[0] == '-'),
            start == if neg {
                1int
            } else {
                0
            },
            digits == if neg {
                s@.skip(1)
            } else {
                s@
            },
            all_digits(digits.subrange(0, i - start)),
            acc == digits_value(digits.subrange(0, i - start)),
            acc <= 0x8000_0000_0000_0000u64,
        decreases n - i,
    {
        let c = s.get_char(i);
        if !(c >= '0' && c <= '9') {
            proof {
                if is_int_literal(s@) {
                    lemma_digits_value_full_digits_or_err(s@, neg, i as int);
                    assert(all_digits(digits));
                    assert(is_digit(digits[i - start]));
                }
            }
            return Err(ProgramErrorKind::ParsingError(s.to_owned()));
        }
        let d: u64 = (c as u32 - '0' as u32) as u64;
        let ghost prefix = digits.subrange(0, i - start);
        let ghost prefix2 = digits.subrange(0, i + 1 - start);
        proof {
            assert(prefix2.drop_last() =~= prefix);
            assert(prefix2.last() == digits[i - start]);
            assert(digits[i - start] == c);
        }
        if acc > 922337203685477580u64 || (acc == 922337203685477580u64 && d > 8) {
            // The value is already past the magnitude of the most negative
            // word, so no sign can bring the literal back in range.
            proof {
                let full = digits;
                lemma_digits_value_full_digits_or_err(s@, neg, i as int);
                if is_int_literal(s@) {
                    assert(all_digits(full));
                    lemma_digits_value_prefix(full, i + 1 - start);
                    assert(full.subrange(0, i + 1 - start) =~= prefix2);
                    assert(digits_value(prefix2) == acc * 10 + d);
                    assert(digits_value(full) >= acc * 10 + d);
                    assert(acc * 10 + d > 0x8000_0000_0000_0000u64) by (nonlinear_arith)
                        requires
                            acc > 922337203685477580u64 || (acc == 922337203685477580u64 && d
                                > 8),
                            d >= 0,
                            acc >= 0,
                    ;
                }
            }
            return Err(ProgramErrorKind::ParsingError(s.to_owned()));
        }
        acc = acc * 10 + d;
        i = i + 1;
        proof {
            assert(digits_value(prefix2) == digits_value(prefix) * 10 + (c as int - '0' as int));
        }
    }
    proof {
        assert(digits.subrange(0, n - start) =~= digits);
        if neg {
            assert(is_int_literal(s@));
        } else {
            assert(is_int_literal(s@));
        }
    }
    if neg {
        if acc == 0x8000_0000_0000_0000u64 {
            Ok(i64::MIN)
        } else {
            proof {
                assert(acc < 0x8000_0000_0000_0000u64);
            }
            Ok(-(acc as i64))
        }
    } else {
        if acc > i64::MAX as u64 {
            // Exactly the magnitude of the most negative word, but positive.
            return Err(ProgramErrorKind::ParsingError(s.to_owned()));
        }
        Ok(acc as i64)
    }
}

/// If the whole literal is well formed, its digit part is all digits.
proof fn lemma_digits_value_full_digits_or_err(s: Seq<char>, neg: bool, i: int)
    requires
        s.len() > 0,
        neg == (s[0] == '-'),
    ensures
        is_int_literal(s) ==> all_digits(
            if neg {
                s.skip(1)
            } else {
                s
            },
        ),
{
}

/// Whether the first character that is not a decimal digit exists and is
/// a dot: the shape under which the loader reads a literal as a
/// fixed-point number.
pub open spec fn float_like(s: Seq<char>) -> bool {
    exists|i: int|
        0 <= i < s.len() && s[i] == '.' && forall|j: int| 0 <= j < i ==> is_digit(#[trigger] s[j])
}

/// Whether the first non-digit character of `str` is a dot; see
/// [`float_like`]. Only ASCII digits count as digits here.
pub fn string_is_float_like(str: String) -> (r: bool)
    ensures
        r == float_like(str@),
{
    let s = str.as_str();
    let n = s.unicode_len();
    let mut i: usize = 0;
    while i < n
        invariant
            i <= n,
            n == s@.len(),
            s@ == str@,
            forall|j: int| 0 <= j < i ==> is_digit(#[trigger] s@[j]),
        decreases n - i,
    {
        let c = s.get_char(i);
        if c == '.' {
            return true;
        }
        if !(c >= '0' && c <= '9') {
            return false;
        }
        i = i + 1;
    }
    false
}

/// The given string, or the fallback where it is absent.
pub fn unwrap_as_string_or(option: Option<String>, or: &str) -> (r: String)
    ensures
        match option {
            Some(v) => r@ == v@,
            None => r@ == or@,
        },
{
    match option {
        Some(v) => v,
        None => or.to_owned(),
    }
}

/// Reinterprets a signed machine word as unsigned, bit for bit.
pub fn isize_to_usize(i: isize) -> (r: usize)
    ensures
        r == i as usize,
{
    #[verifier::truncate]
    (i as usize)
}

/// Whether `v` lies between `min` and `max` inclusive.
pub fn bounded(min: usize, v: usize, max: usize) -> (r: bool)
    ensures
        r == (min <= v <= max),
{
    v >= min && v <= max
}

} // verus!
