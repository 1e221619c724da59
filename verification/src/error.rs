//! The error taxonomy of the virtual machine.
//!
//! Every VM-level operation returns a result; errors are never silently
//! swallowed and the core attempts no local recovery. Rendering an error as
//! text is left to the caller of the library.

use vstd::prelude::*;

use crate::binops::BinOpKind;
use crate::object::{ObjectData, ObjectKind};
use crate::span::Span;

verus! {

/// One kind of execution error.
///
/// - `StackError(n)`: the operand or frame stack held fewer than the `n`
///   entries an instruction needed.
/// - `BinopError(kind, lhs, rhs)`: the operator is not implemented for the
///   given payload combination.
/// - `FunctionExists` / `VariableExists` / `ConstantExists`: an unresolved
///   reference, carrying the name bytes.
/// - `TempPush`: the temp register was read while empty.
/// - `TypeError(wanted, given)`: an operand had the wrong kind.
/// - `ParsingError`: a program line did not match the literal grammar.
/// - `Overflow(kind, lhs, rhs)`: arithmetic overflow on an operator.
/// - `IntegerToUnsigned`: an integer was used where a non-negative count
///   was needed.
/// - `ListIndexError(index, length)`: a list index out of bounds.
/// - `IterNext(length)` / `IterPrevious`: an iterator pushed past one of
///   its two ends.
/// - `StackOverflow(limit)`: a depth or step guard tripped; execution is
///   aborted as a safety valve.
/// - `OutOfMemory`: an arena could not serve an allocation; execution is
///   aborted as a safety valve.
#[derive(Debug, Clone, PartialEq, Eq)]
pub enum ProgramErrorKind {
    StackError(usize),
    BinopError(BinOpKind, ObjectData, ObjectData),
    FunctionExists(Vec<u8>),
    VariableExists(Vec<u8>),
    TempPush,
    TypeError(ObjectKind, ObjectKind),
    ParsingError(String),
    Overflow(BinOpKind, i64, i64),
    IntegerToUnsigned,
    ListIndexError(usize, usize),
    ConstantExists(Vec<u8>),
    IterNext(usize),
    IterPrevious,
    StackOverflow(usize),
    OutOfMemory,
}

/// An execution error together with the instruction context it arose in.
#[derive(Debug, Clone)]
pub struct ProgramError(pub ProgramErrorKind, pub Span);

} // verus!
