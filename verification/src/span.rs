//! The instruction context reported alongside an execution error: the
//! program counter and the previous, current and next instruction.

use vstd::prelude::*;

use crate::operation::Operation;

verus! {

/// A window of three instructions around the program counter.
#[derive(Clone, Debug)]
pub struct Span {
    pub program_count: usize,
    pub current_op: Operation,
    pub prev_op: Operation,
    pub next_op: Operation,
}

impl Span {
    /// A span that points nowhere: counter zero, all three slots empty.
    pub fn empty() -> (r: Span)
        ensures
            r.program_count == 0,
            r.current_op == Operation::Empty,
            r.prev_op == Operation::Empty,
            r.next_op == Operation::Empty,
    {
        Span {
            program_count: 0,
            current_op: Operation::Empty,
            prev_op: Operation::Empty,
            next_op: Operation::Empty,
        }
    }
}

} // verus!
