//! The instruction set of the VM, and the opcode table the loader uses.
//!
//! Instructions carry already-interned objects as arguments. The loader
//! decodes `bin_op` and `call_builtin` arguments itself (they name an
//! operator or a built-in, not a value), so [`Operation::new`] covers
//! every opcode but those two.

use vstd::prelude::*;

use crate::binops::BinOpKind;
use crate::builtin::BuiltIn;
use crate::error::ProgramErrorKind;
use crate::object::{Object, ObjectData};
use crate::utils::chars_eq;

verus! {

/// One instruction.
///
/// `Empty` is the placeholder instruction of an empty [`crate::span::Span`]
/// slot; it never appears in a program.
#[derive(Debug, Clone, Copy, PartialEq, Eq)]
pub enum Operation {
    BinOp(BinOpKind),
    Call(Object),
    CallBuiltIn(BuiltIn),
    PushLit(Object),
    PushName(Object),
    PushTemp,
    Pop,
    ReturnIf(Object),
    ReturnIfConst(Object),
    StoreConst(Object),
    StoreName(Object),
    StoreTemp,
    Func(Object, usize),
    Done,
    Exit,
    DoFor,
    DoForIn(Object),
    Iterate,
    DoIf,
    CreateList(Option<usize>),
    ListPush,
    ListGet(Option<usize>),
    ListSet(Option<usize>),
    PushRange,
    GetPtr,
    ReadPtr,
    SetPtr,
    GetIter,
    IterNext,
    IterPrev,
    IterCurrent,
    Empty,
}

/// The opcode of an operation name, or zero for an unknown name.
pub open spec fn spec_opcode(s: Seq<char>) -> usize {
    if s == "bin_op"@ {
        1usize
    } else if s == "call"@ {
        2
    } else if s == "call_builtin"@ {
        3
    } else if s == "push_lit"@ {
        4
    } else if s == "push_name"@ {
        5
    } else if s == "push_temp"@ {
        6
    } else if s == "pop"@ {
        7
    } else if s == "return_if"@ {
        8
    } else if s == "store_const"@ {
        9
    } else if s == "store_name"@ {
        10
    } else if s == "store_temp"@ {
        11
    } else if s == "func"@ {
        12
    } else if s == "done"@ {
        13
    } else if s == "return_if_const"@ {
        14
    } else if s == "exit"@ {
        15
    } else if s == "do_for"@ {
        16
    } else if s == "do_for_in"@ {
        17
    } else if s == "iterate"@ {
        18
    } else if s == "do_if"@ {
        19
    } else if s == "create_list"@ {
        20
    } else if s == "list_push"@ {
        21
    } else if s == "list_get"@ {
        22
    } else if s == "list_set"@ {
        23
    } else if s == "push_range"@ {
        24
    } else if s == "get_ptr"@ {
        25
    } else if s == "read_ptr"@ {
        26
    } else if s == "set_ptr"@ {
        27
    } else if s == "get_iter"@ {
        28
    } else if s == "iter_next"@ {
        29
    } else if s == "iter_prev"@ {
        30
    } else if s == "iter_current"@ {
        31
    } else {
        0
    }
}

/// A non-negative integer payload as a count, where it fits the machine.
pub open spec fn spec_count_of(n: i64) -> Option<usize> {
    if 0 <= n <= usize::MAX {
        Some(n as usize)
    } else {
        None
    }
}

/// Converts an integer payload to a count; see [`spec_count_of`].
fn count_of(n: i64) -> (r: Option<usize>)
    ensures
        r == spec_count_of(n),
{
    if n >= 0 && (n as u64) <= (usize::MAX as u64) {
        Some(n as usize)
    } else {
        None
    }
}

impl Operation {
    /// Whether `s` names an operation.
    pub fn op_exists(s: &str) -> (r: bool)
        ensures
            r == (spec_opcode(s@) != 0),
    {
        Self::get_opcode(s) != 0
    }

    /// The opcode of the operation named `s`, or zero for an unknown name.
    pub fn get_opcode(op: &str) -> (r: usize)
        ensures
            r == spec_opcode(op@),
    {
        proof {
            reveal_strlit("bin_op");
            reveal_strlit("call");
            reveal_strlit("call_builtin");
            reveal_strlit("push_lit");
            reveal_strlit("push_name");
            reveal_strlit("push_temp");
            reveal_strlit("pop");
            reveal_strlit("return_if");
            reveal_strlit("store_const");
            reveal_strlit("store_name");
            reveal_strlit("store_temp");
            reveal_strlit("func");
            reveal_strlit("done");
            reveal_strlit("return_if_const");
            reveal_strlit("exit");
            reveal_strlit("do_for");
            reveal_strlit("do_for_in");
            reveal_strlit("iterate");
            reveal_strlit("do_if");
            reveal_strlit("create_list");
            reveal_strlit("list_push");
            reveal_strlit("list_get");
            reveal_strlit("list_set");
            reveal_strlit("push_range");
            reveal_strlit("get_ptr");
            reveal_strlit("read_ptr");
            reveal_strlit("set_ptr");
            reveal_strlit("get_iter");
            reveal_strlit("iter_next");
            reveal_strlit("iter_prev");
            reveal_strlit("iter_current");
        }
        if chars_eq(op, "bin_op") {
            1
        } else if chars_eq(op, "call") {
            2
        } else if chars_eq(op, "call_builtin") {
            3
        } else if chars_eq(op, "push_lit") {
            4
        } else if chars_eq(op, "push_name") {
            5
        } else if chars_eq(op, "push_temp") {
            6
        } else if chars_eq(op, "pop") {
            7
        } else if chars_eq(op, "return_if") {
            8
        } else if chars_eq(op, "store_const") {
            9
        } else if chars_eq(op, "store_name") {
            10
        } else if chars_eq(op, "store_temp") {
            11
        } else if chars_eq(op, "func") {
            12
        } else if chars_eq(op, "done") {
            13
        } else if chars_eq(op, "return_if_const") {
            14
        } else if chars_eq(op, "exit") {
            15
        } else if chars_eq(op, "do_for") {
            16
        } else if chars_eq(op, "do_for_in") {
            17
        } else if chars_eq(op, "iterate") {
            18
        } else if chars_eq(op, "do_if") {
            19
        } else if chars_eq(op, "create_list") {
            20
        } else if chars_eq(op, "list_push") {
            21
        } else if chars_eq(op, "list_get") {
            22
        } else if chars_eq(op, "list_set") {
            23
        } else if chars_eq(op, "push_range") {
            24
        } else if chars_eq(op, "get_ptr") {
            25
        } else if chars_eq(op, "read_ptr") {
            26
        } else if chars_eq(op, "set_ptr") {
            27
        } else if chars_eq(op, "get_iter") {
            28
        } else if chars_eq(op, "iter_next") {
            29
        } else if chars_eq(op, "iter_prev") {
            30
        } else if chars_eq(op, "iter_current") {
            31
        } else {
            0
        }
    }

    /// The error a loader reports for an operation whose required argument
    /// is missing.
    pub fn arg_error() -> (r: ProgramErrorKind)
        ensures
            r matches ProgramErrorKind::ParsingError(msg) && msg@ == Seq::<char>::empty(),
    {
        ProgramErrorKind::ParsingError(String::new())
    }

    /// What `new` builds for each opcode; `None` stands for an opcode that
    /// `new` does not cover (unknown, or decoded by the loader itself) or a
    /// missing or ill-shaped argument.
    pub open spec fn spec_new(op: usize, arg: Option<Object>) -> Option<Operation> {
        match op {
            2usize => match arg {
                Some(a) => Some(Operation::Call(a)),
                None => None,
            },
            4usize => match arg {
                Some(a) => Some(Operation::PushLit(a)),
                None => None,
            },
            5usize => match arg {
                Some(a) => Some(Operation::PushName(a)),
                None => None,
            },
            6usize => Some(Operation::PushTemp),
            7usize => Some(Operation::Pop),
            8usize => match arg {
                Some(a) => Some(Operation::ReturnIf(a)),
                None => None,
            },
            9usize => match arg {
                Some(a) => Some(Operation::StoreConst(a)),
                None => None,
            },
            10usize => match arg {
                Some(a) => Some(Operation::StoreName(a)),
                None => None,
            },
            11usize => Some(Operation::StoreTemp),
            13usize => Some(Operation::Done),
            14usize => match arg {
                Some(a) => Some(Operation::ReturnIfConst(a)),
                None => None,
            },
            15usize => Some(Operation::Exit),
            16usize => Some(Operation::DoFor),
            17usize => match arg {
                Some(a) => Some(Operation::DoForIn(a)),
                None => None,
            },
            18usize => Some(Operation::Iterate),
            19usize => Some(Operation::DoIf),
            20usize => match arg {
                Some(a) => match a.data {
                    ObjectData::Integer(n) => match spec_count_of(n) {
                        Some(c) => Some(Operation::CreateList(Some(c))),
                        None => None,
                    },
                    _ => None,
                },
                None => Some(Operation::CreateList(None)),
            },
            21usize => Some(Operation::ListPush),
            22usize => match arg {
                Some(a) => match a.data {
                    ObjectData::Integer(n) => match spec_count_of(n) {
                        Some(c) => Some(Operation::ListGet(Some(c))),
                        None => None,
                    },
                    _ => None,
                },
                None => Some(Operation::ListGet(None)),
            },
            23usize => match arg {
                Some(a) => match a.data {
                    ObjectData::Integer(n) => match spec_count_of(n) {
                        Some(c) => Some(Operation::ListSet(Some(c))),
                        None => None,
                    },
                    _ => None,
                },
                None => Some(Operation::ListSet(None)),
            },
            24usize => Some(Operation::PushRange),
            25usize => Some(Operation::GetPtr),
            26usize => Some(Operation::ReadPtr),
            27usize => Some(Operation::SetPtr),
            28usize => Some(Operation::GetIter),
            29usize => Some(Operation::IterNext),
            30usize => Some(Operation::IterPrev),
            31usize => Some(Operation::IterCurrent),
            _ => None,
        }
    }

    /// Builds the operation with opcode `op` and argument `arg`; see
    /// [`Operation::spec_new`]. Opcodes one and three (`bin_op`,
    /// `call_builtin`) are decoded by the loader itself, `func` lines go
    /// to the function table instead of the instruction sequence, and a
    /// count argument must be a non-negative integer literal.
    pub fn new(op: usize, arg: Option<Object>) -> (r: Option<Operation>)
        ensures
            r == Self::spec_new(op, arg),
    {
        match op {
            2 => match arg {
                Some(a) => Some(Operation::Call(a)),
                None => None,
            },
            4 => match arg {
                Some(a) => Some(Operation::PushLit(a)),
                None => None,
            },
            5 => match arg {
                Some(a) => Some(Operation::PushName(a)),
                None => None,
            },
            6 => Some(Operation::PushTemp),
            7 => Some(Operation::Pop),
            8 => match arg {
                Some(a) => Some(Operation::ReturnIf(a)),
                None => None,
            },
            9 => match arg {
                Some(a) => Some(Operation::StoreConst(a)),
                None => None,
            },
            10 => match arg {
                Some(a) => Some(Operation::StoreName(a)),
                None => None,
            },
            11 => Some(Operation::StoreTemp),
            13 => Some(Operation::Done),
            14 => match arg {
                Some(a) => Some(Operation::ReturnIfConst(a)),
                None => None,
            },
            15 => Some(Operation::Exit),
            16 => Some(Operation::DoFor),
            17 => match arg {
                Some(a) => Some(Operation::DoForIn(a)),
                None => None,
            },
            18 => Some(Operation::Iterate),
            19 => Some(Operation::DoIf),
            20 => match arg {
                Some(a) => match a.data {
                    ObjectData::Integer(n) => match count_of(n) {
                        Some(c) => Some(Operation::CreateList(Some(c))),
                        None => None,
                    },
                    _ => None,
                },
                None => Some(Operation::CreateList(None)),
            },
            21 => Some(Operation::ListPush),
            22 => match arg {
                Some(a) => match a.data {
                    ObjectData::Integer(n) => match count_of(n) {
                        Some(c) => Some(Operation::ListGet(Some(c))),
                        None => None,
                    },
                    _ => None,
                },
                None => Some(Operation::ListGet(None)),
            },
            23 => match arg {
                Some(a) => match a.data {
                    ObjectData::Integer(n) => match count_of(n) {
                        Some(c) => Some(Operation::ListSet(Some(c))),
                        None => None,
                    },
                    _ => None,
                },
                None => Some(Operation::ListSet(None)),
            },
            24 => Some(Operation::PushRange),
            25 => Some(Operation::GetPtr),
            26 => Some(Operation::ReadPtr),
            27 => Some(Operation::SetPtr),
            28 => Some(Operation::GetIter),
            29 => Some(Operation::IterNext),
            30 => Some(Operation::IterPrev),
            31 => Some(Operation::IterCurrent),
            _ => None,
        }
    }
}

} // verus!
