//! The virtual machine: program counter, operand stack, call-frame
//! stack, temp register, named-constant cache, object heap, output
//! channel, and the fetch-decode-execute loop over all of them.
//!
//! Structured blocks (counted loops, list iterations, conditionals) run
//! on the same flat loop: each opener pushes a block frame carrying a
//! copy of the enclosing locals, each `done` either rewinds to the body
//! start or pops the frame and propagates the locals back, so mutations
//! inside a body are visible to the next iteration and to the enclosing
//! frame, without host recursion.
//!
//! Execution is bounded by three safety valves: the call-frame and
//! operand depth guards, and a step budget; exceeding one aborts the run
//! with an error the caller treats as fatal.

use vstd::prelude::*;

use crate::binops::BinOpKind;
use crate::builtin::BuiltIn;
use crate::error::{ProgramError, ProgramErrorKind};
use crate::frame::{Frame, FrameKind};
use crate::map::ObjMap;
use crate::object::{Object, ObjectData, ObjectKind};
use crate::operation::Operation;
use crate::program::{spec_handle_bin_op, Program};
use crate::span::Span;
use crate::stack::Stack;
use vstd::string::StringSliceAdditionalSpecFns;

verus! {

/// The most call frames a run may hold.
pub const CALL_DEPTH_LIMIT: usize = 100_000;

/// The most operands a run may hold.
pub const OBJ_DEPTH_LIMIT: usize = 1_000_000;

/// Every frame of a frame sequence is well formed.
pub open spec fn frames_wf(fs: Seq<Frame>) -> bool {
    forall|i: int| 0 <= i < fs.len() ==> (#[trigger] fs[i]).wf()
}

/// The virtual machine.
pub struct VM {
    pub program: Program,
    pub counter: usize,
    pub main_entry: usize,
    pub call_stack: Stack<Frame>,
    pub obj_stack: Stack<Object>,
    pub temp: Option<Object>,
    pub consts: ObjMap<Object>,
    pub heap: Manual,
    pub output: Vec<Object>,
}

/// The object heap: a recycling arena of objects.
pub type Manual = crate::arena::Manual<Object>;

impl VM {
    /// Well-formedness: the program, the heap, the constant cache and
    /// every call frame are well formed.
    pub open spec fn wf(self) -> bool {
        &&& self.program.wf()
        &&& self.heap.wf()
        &&& self.consts.wf()
        &&& frames_wf(self.call_stack@)
    }

    /// A machine over `program`, stopped at the entry of `main` with one
    /// top-level frame whose return address is the end-of-program
    /// sentinel. Fails when the program has no `main` function.
    pub fn new(program: Program) -> (r: Result<VM, ProgramErrorKind>)
        requires
            program.wf(),
        ensures
            match r {
                Ok(vm) => {
                    &&& vm.wf()
                    &&& vm.obj_stack@.len() == 0
                    &&& vm.call_stack@.len() == 1
                    &&& vm.call_stack@.last().kind == FrameKind::TopLevel
                    &&& vm.call_stack@.last().return_address == vm.program.instructions@.len()
                    &&& vm.counter == vm.main_entry
                    &&& vm.temp is None
                    &&& vm.consts.as_map() == Map::<Object, Object>::empty()
                    &&& vm.output@ == Seq::<Object>::empty()
                    &&& vm.program.instructions == program.instructions
                    &&& vm.program.funcs == program.funcs
                    &&& vm.program.memos == program.memos
                    &&& exists|st: usize, ln: usize|
                        #![trigger crate::arena::dropless::region_bytes(vm.program.arena.chunks@, st as int, ln as int)]
                        {
                            let key = Object {
                                kind: ObjectKind::Func,
                                data: ObjectData::Func(st, ln),
                            };
                            &&& crate::arena::dropless::region_bytes(
                                vm.program.arena.chunks@,
                                st as int,
                                ln as int,
                            ) == "main".spec_bytes()
                            &&& vm.program.funcs.as_map().dom().contains(key)
                            &&& vm.program.funcs.as_map()[key].0 == vm.main_entry
                        }
                },
                Err(e) => e matches ProgramErrorKind::FunctionExists(_),
            },
            main_resolvable(program) ==> r is Ok,
    {
        let mut program = program;
        let ghost pre = program;
        let name = "main".as_bytes_vec();
        proof {
            reveal_strlit("main");
            assert(name@ == "main".spec_bytes());
        }
        let entry: usize = match program.register(name.as_slice()) {
            Some(rg) => {
                match program.get_func(&Object::func(rg.0, rg.1)) {
                    Some(f) => f.0,
                    None => {
                        proof {
                            if main_resolvable(pre) {
                                let i = choose|i: int|
                                    0 <= i < pre.interned@.len()
                                        && crate::arena::dropless::region_bytes(
                                        pre.arena.chunks@,
                                        (#[trigger] pre.interned@[i]).0 as int,
                                        pre.interned@[i].1 as int,
                                    ) == "main".spec_bytes() && pre.funcs.as_map().dom().contains(
                                        Object {
                                            kind: ObjectKind::Func,
                                            data: ObjectData::Func(
                                                pre.interned@[i].0,
                                                pre.interned@[i].1,
                                            ),
                                        },
                                    );
                                assert(rg == pre.interned@[i]);
                                assert(false);
                            }
                        }
                        return Err(ProgramErrorKind::FunctionExists(name));
                    },
                }
            },
            None => {
                proof {
                    if main_resolvable(pre) {
                        let i = choose|i: int|
                            0 <= i < pre.interned@.len()
                                && crate::arena::dropless::region_bytes(
                                pre.arena.chunks@,
                                (#[trigger] pre.interned@[i]).0 as int,
                                pre.interned@[i].1 as int,
                            ) == "main".spec_bytes() && pre.funcs.as_map().dom().contains(
                                Object {
                                    kind: ObjectKind::Func,
                                    data: ObjectData::Func(
                                        pre.interned@[i].0,
                                        pre.interned@[i].1,
                                    ),
                                },
                            );
                        assert(crate::program::has_interned(
                            pre.arena,
                            pre.interned@,
                            name@,
                        ));
                        assert(false);
                    }
                }
                return Err(ProgramErrorKind::FunctionExists(name));
            },
        };
        let mut call_stack: Stack<Frame> = Stack::new();
        let mut top = Frame::new(program.instructions.len());
        top.kind = FrameKind::TopLevel;
        call_stack.push(top);
        Ok(
            VM {
                program,
                counter: entry,
                main_entry: entry,
                call_stack,
                obj_stack: Stack::new(),
                temp: None,
                consts: ObjMap::new(),
                heap: crate::arena::Manual::with_filler(Object::nil()),
                output: Vec::new(),
            },
        )
    }

    /// A machine over the program read from `text`.
    pub fn from_string(text: String) -> (r: Result<VM, ProgramErrorKind>)
        ensures
            r matches Ok(vm) ==> vm.wf(),
    {
        match Program::from_string(text) {
            Ok(p) => Self::new(p),
            Err(e) => Err(e),
        }
    }

    /// The instruction at the counter, advancing the counter past it;
    /// `None` once the counter has reached the end-of-program sentinel.
    pub fn next(&mut self) -> (r: Option<Operation>)
        ensures
            old(self).counter < old(self).program.instructions@.len() ==> r == Some(
                old(self).program.instructions@[old(self).counter as int],
            ) && final(self).counter == old(self).counter + 1,
            old(self).counter >= old(self).program.instructions@.len() ==> r is None
                && *final(self) == *old(self),
            final(self).program == old(self).program,
            final(self).call_stack == old(self).call_stack,
            final(self).obj_stack == old(self).obj_stack,
            final(self).heap == old(self).heap,
            final(self).consts == old(self).consts,
            final(self).temp == old(self).temp,
            final(self).output == old(self).output,
            final(self).main_entry == old(self).main_entry,
    {
        if self.counter < self.program.instructions.len() {
            let op = *self.program.get_op(self.counter);
            self.counter = self.counter + 1;
            Some(op)
        } else {
            None
        }
    }

    /// Moves the counter to the entry of the function named by `func`,
    /// or reports an unresolved function reference.
    pub fn jump(&mut self, func: &Object) -> (r: Result<(), ProgramErrorKind>)
        requires
            old(self).wf(),
        ensures
            final(self).wf(),
            match r {
                Ok(()) => old(self).program.funcs.as_map().dom().contains(*func)
                    && final(self).counter == old(self).program.funcs.as_map()[*func].0,
                Err(e) => !old(self).program.funcs.as_map().dom().contains(*func) && (
                e matches ProgramErrorKind::FunctionExists(_)) && final(self).counter
                    == old(self).counter,
            },
            final(self).program == old(self).program,
            final(self).call_stack == old(self).call_stack,
            final(self).obj_stack == old(self).obj_stack,
            final(self).heap == old(self).heap,
            final(self).consts == old(self).consts,
            final(self).temp == old(self).temp,
            final(self).output == old(self).output,
            final(self).main_entry == old(self).main_entry,
    {
        match self.program.get_func(func) {
            Some(f) => {
                self.counter = f.0;
                Ok(())
            },
            None => Err(ProgramErrorKind::FunctionExists(self.name_bytes(func))),
        }
    }

    /// The name bytes an object refers to, for error reports.
    fn name_bytes(&self, obj: &Object) -> (r: Vec<u8>)
        requires
            self.wf(),
    {
        match obj.data {
            ObjectData::Str(s, l) => self.program.read_range(s, l),
            ObjectData::Func(s, l) => self.program.read_range(s, l),
            _ => Vec::new(),
        }
    }

    /// Pops the two operands of a binary operator, applies it, and
    /// pushes the result; an underflow or operator error pins the exact
    /// outcome.
    pub fn handle_bin_op(&mut self, kind: &BinOpKind) -> (r: Result<(), ProgramErrorKind>)
        requires
            old(self).wf(),
        ensures
            final(self).wf(),
            final(self).program == old(self).program,
            final(self).call_stack == old(self).call_stack,
            final(self).counter == old(self).counter,
            final(self).main_entry == old(self).main_entry,
            final(self).heap == old(self).heap,
            final(self).consts == old(self).consts,
            old(self).obj_stack@.len() < 2 ==> r == Err::<(), ProgramErrorKind>(
                ProgramErrorKind::StackError(2),
            ) && final(self).obj_stack == old(self).obj_stack,
            old(self).obj_stack@.len() >= 2 ==> {
                let n = old(self).obj_stack@.len() as int;
                let lhs = old(self).obj_stack@[n - 2];
                let rhs = old(self).obj_stack@[n - 1];
                match spec_handle_bin_op(*kind, lhs.data, rhs.data) {
                    Ok(v) => r == Ok::<(), ProgramErrorKind>(()) && final(self).obj_stack@
                        == old(self).obj_stack@.subrange(0, n - 2).push(v),
                    Err(e) => r == Err::<(), ProgramErrorKind>(e) && final(self).obj_stack@
                        == old(self).obj_stack@.subrange(0, n - 2),
                }
            },
    {
        if self.obj_stack.len() < 2 {
            return Err(ProgramErrorKind::StackError(2));
        }
        let rhs = match self.obj_stack.pop() {
            Some(v) => v,
            None => {
                proof {
                    assert(false);
                }
                Object::nil()
            },
        };
        let lhs = match self.obj_stack.pop() {
            Some(v) => v,
            None => {
                proof {
                    assert(false);
                }
                Object::nil()
            },
        };
        proof {
            assert(old(self).obj_stack@.drop_last().drop_last() =~= old(self).obj_stack@.subrange(
                0,
                old(self).obj_stack@.len() - 2,
            ));
        }
        match self.program.handle_bin_op(*kind, lhs, rhs) {
            Ok(v) => {
                self.obj_stack.push(v);
                Ok(())
            },
            Err(e) => Err(e),
        }
    }
}


/// Appending a well-formed frame keeps all frames well formed.
proof fn lemma_frames_wf_push(fs: Seq<Frame>, f: Frame)
    requires
        frames_wf(fs),
        f.wf(),
    ensures
        frames_wf(fs.push(f)),
{
    assert forall|i: int| 0 <= i < fs.push(f).len() implies (#[trigger] fs.push(f)[i]).wf() by {
        if i < fs.len() {
            assert(fs.push(f)[i] == fs[i]);
        }
    }
}

/// Dropping the top frame keeps all frames well formed.
proof fn lemma_frames_wf_drop(fs: Seq<Frame>)
    requires
        frames_wf(fs),
        fs.len() > 0,
    ensures
        frames_wf(fs.drop_last()),
        fs.last().wf(),
{
    assert forall|i: int| 0 <= i < fs.drop_last().len() implies (
    #[trigger] fs.drop_last()[i]).wf() by {
        assert(fs.drop_last()[i] == fs[i]);
    }
}

/// Whether the program already interns the name of the entry function
/// and binds it in the function table, so that starting a machine over
/// it is owed to succeed.
pub open spec fn main_resolvable(p: Program) -> bool {
    exists|i: int|
        0 <= i < p.interned@.len() && crate::arena::dropless::region_bytes(
            p.arena.chunks@,
            (#[trigger] p.interned@[i]).0 as int,
            p.interned@[i].1 as int,
        ) == "main".spec_bytes() && p.funcs.as_map().dom().contains(
            Object {
                kind: ObjectKind::Func,
                data: ObjectData::Func(p.interned@[i].0, p.interned@[i].1),
            },
        )
}

/// The function-table key an operand refers to: name payloads keep their
/// byte range under the function kind.
pub open spec fn call_key(o: Object) -> Object {
    match o.data {
        ObjectData::Str(st, ln) => Object {
            kind: ObjectKind::Func,
            data: ObjectData::Func(st, ln),
        },
        ObjectData::Func(st, ln) => Object {
            kind: ObjectKind::Func,
            data: ObjectData::Func(st, ln),
        },
        _ => o,
    }
}

impl VM {
    /// Pops the top operand, or reports an underflow.
    fn pop_obj(&mut self) -> (r: Result<Object, ProgramErrorKind>)
        ensures
            final(self).program == old(self).program,
            final(self).counter == old(self).counter,
            final(self).main_entry == old(self).main_entry,
            final(self).call_stack == old(self).call_stack,
            final(self).temp == old(self).temp,
            final(self).consts == old(self).consts,
            final(self).heap == old(self).heap,
            final(self).output == old(self).output,
            match r {
                Ok(v) => old(self).obj_stack@.len() > 0 && v == old(self).obj_stack@.last()
                    && final(self).obj_stack@ == old(self).obj_stack@.drop_last(),
                Err(e) => old(self).obj_stack@.len() == 0 && e
                    == ProgramErrorKind::StackError(1) && final(self).obj_stack@ == old(
                    self,
                ).obj_stack@,
            },
    {
        match self.obj_stack.pop() {
            Some(v) => Ok(v),
            None => Err(ProgramErrorKind::StackError(1)),
        }
    }

    /// Replaces the locals of the enclosing frame with those of a
    /// completed block frame: the frame-replace step.
    fn propagate_locals(&mut self, from: &Frame)
        requires
            old(self).wf(),
            from.wf(),
        ensures
            final(self).wf(),
            final(self).program == old(self).program,
            final(self).counter == old(self).counter,
            final(self).main_entry == old(self).main_entry,
            final(self).obj_stack == old(self).obj_stack,
            final(self).temp == old(self).temp,
            final(self).consts == old(self).consts,
            final(self).heap == old(self).heap,
            final(self).output == old(self).output,
            old(self).call_stack@.len() == 0 ==> final(self).call_stack@ == old(
                self,
            ).call_stack@,
            old(self).call_stack@.len() > 0 ==> ({
                &&& final(self).call_stack@.len() == old(self).call_stack@.len()
                &&& final(self).call_stack@.last().locals_map() == from.locals_map()
                &&& final(self).call_stack@.last().return_address == old(
                    self,
                ).call_stack@.last().return_address
                &&& final(self).call_stack@.last().kind == old(self).call_stack@.last().kind
                &&& forall|i: int|
                    0 <= i < old(self).call_stack@.len() - 1 ==> final(self).call_stack@[i]
                        == old(self).call_stack@[i]
            }),
    {
        let parent = self.call_stack.pop();
        match parent {
            Some(mut p) => {
                proof {
                    lemma_frames_wf_drop(old(self).call_stack@);
                }
                p.adopt_locals(from);
                self.call_stack.push(p);
                proof {
                    lemma_frames_wf_push(old(self).call_stack@.drop_last(), p);
                }
            },
            None => {},
        }
    }

    /// Completes the top frame: the shared protocol of `done`,
    /// `return_if` and `return_if_const`. A call frame records its return
    /// value (the given one, or the top of the operand stack, or nil) in
    /// the memo table under the frame's key — memoization is
    /// write-on-return — and resumes at its return address. A block frame
    /// either rewinds for its next iteration or pops, propagating its
    /// locals to the enclosing frame.
    pub fn complete_frame(&mut self, value: Option<Object>) -> (r: Result<(), ProgramErrorKind>)
        requires
            old(self).wf(),
        ensures
            final(self).wf(),
            final(self).main_entry == old(self).main_entry,
            final(self).program.instructions == old(self).program.instructions,
            final(self).program.funcs == old(self).program.funcs,
            final(self).program.closers == old(self).program.closers,
            final(self).program.arena == old(self).program.arena,
            final(self).program.interned == old(self).program.interned,
            old(self).call_stack@.len() > 0 && old(self).call_stack@.last().kind
                == FrameKind::Call && r is Ok ==> ({
                let fr = old(self).call_stack@.last();
                let ret = if value is Some {
                    value->0
                } else if old(self).obj_stack@.len() > 0 {
                    old(self).obj_stack@.last()
                } else {
                    Object { kind: ObjectKind::Nil, data: ObjectData::Nil }
                };
                &&& final(self).program.memos.as_memo_map() == old(
                    self,
                ).program.memos.as_memo_map().insert((fr.memo_entry, fr.memo_args@), ret)
                &&& final(self).counter == fr.return_address
                &&& final(self).call_stack@ == old(self).call_stack@.drop_last()
            }),
            ({
                &&& old(self).call_stack@.len() > 0
                &&& old(self).call_stack@.last().kind matches FrameKind::Loop {
                    body_start,
                    remaining,
                }
                &&& old(self).call_stack@.last().kind->Loop_remaining > 1
                &&& value is None
            }) ==> ({
                let fr = old(self).call_stack@.last();
                &&& r is Ok
                &&& final(self).counter == fr.kind->Loop_body_start
                &&& final(self).call_stack@.len() == old(self).call_stack@.len()
                &&& final(self).call_stack@.last().kind == FrameKind::Loop {
                    body_start: fr.kind->Loop_body_start,
                    remaining: (fr.kind->Loop_remaining - 1) as usize,
                }
                &&& final(self).call_stack@.last().locals_map() == fr.locals_map()
                &&& final(self).obj_stack == old(self).obj_stack
            }),
            ({
                &&& old(self).call_stack@.len() >= 2
                &&& old(self).call_stack@.last().kind matches FrameKind::Loop {
                    body_start,
                    remaining,
                }
                &&& old(self).call_stack@.last().kind->Loop_remaining <= 1
                &&& value is None
            }) ==> ({
                let fr = old(self).call_stack@.last();
                &&& r is Ok
                &&& final(self).counter == fr.return_address
                &&& final(self).call_stack@.len() == old(self).call_stack@.len() - 1
                &&& final(self).call_stack@.last().locals_map() == fr.locals_map()
                &&& final(self).obj_stack == old(self).obj_stack
            }),
    {
        let fr = match self.call_stack.pop() {
            Some(f) => f,
            None => {
                return Err(ProgramErrorKind::StackError(1));
            },
        };
        proof {
            lemma_frames_wf_drop(old(self).call_stack@);
        }
        match fr.kind {
            FrameKind::Call => {
                let ret = match value {
                    Some(v) => v,
                    None => match self.obj_stack.last() {
                        Some(v) => *v,
                        None => Object::nil(),
                    },
                };
                self.counter = fr.return_address;
                let entry = fr.memo_entry;
                self.program.memos.insert(entry, fr.memo_args, ret);
                if value.is_some() {
                    self.obj_stack.push(ret);
                }
                Ok(())
            },
            FrameKind::TopLevel => {
                match value {
                    Some(v) => {
                        self.obj_stack.push(v);
                    },
                    None => {},
                }
                self.counter = fr.return_address;
                Ok(())
            },
            FrameKind::Loop { body_start, remaining } => {
                if value.is_none() && remaining > 1 {
                    let mut fr2 = fr;
                    fr2.kind = FrameKind::Loop { body_start, remaining: remaining - 1 };
                    self.call_stack.push(fr2);
                    proof {
                        lemma_frames_wf_push(old(self).call_stack@.drop_last(), fr2);
                    }
                    self.counter = body_start;
                    Ok(())
                } else {
                    match value {
                        Some(v) => {
                            self.obj_stack.push(v);
                        },
                        None => {},
                    }
                    self.propagate_locals(&fr);
                    self.counter = fr.return_address;
                    Ok(())
                }
            },
            FrameKind::Iteration { body_start, list_start, list_len, next } => {
                if value.is_none() && next < list_len {
                    if list_start > usize::MAX - next {
                        return Err(ProgramErrorKind::ListIndexError(next, list_len));
                    }
                    match self.heap.try_read(list_start + next) {
                        Some(el) => {
                            self.obj_stack.push(el);
                            let mut fr2 = fr;
                            fr2.kind = FrameKind::Iteration {
                                body_start,
                                list_start,
                                list_len,
                                next: next + 1,
                            };
                            self.call_stack.push(fr2);
                            proof {
                                lemma_frames_wf_push(old(self).call_stack@.drop_last(), fr2);
                            }
                            self.counter = body_start;
                            Ok(())
                        },
                        None => Err(ProgramErrorKind::ListIndexError(next, list_len)),
                    }
                } else {
                    match value {
                        Some(v) => {
                            self.obj_stack.push(v);
                        },
                        None => {},
                    }
                    self.propagate_locals(&fr);
                    self.counter = fr.return_address;
                    Ok(())
                }
            },
            FrameKind::Cond => {
                match value {
                    Some(v) => {
                        self.obj_stack.push(v);
                    },
                    None => {},
                }
                self.propagate_locals(&fr);
                self.counter = fr.return_address;
                Ok(())
            },
        }
    }

    /// The call protocol: resolve the function, take the top operands as
    /// the argument tuple, and either push the cached result — a memo
    /// hit skips re-execution entirely: the frame stack and counter are
    /// left alone — or push a call frame carrying the memo key and jump
    /// to the entry.
    pub fn op_call(&mut self, fobj: Object) -> (r: Result<(), ProgramErrorKind>)
        requires
            old(self).wf(),
        ensures
            final(self).wf(),
            final(self).main_entry == old(self).main_entry,
            final(self).program == old(self).program,
            (fobj.data is Str || fobj.data is Func) && old(
                self,
            ).program.funcs.as_map().dom().contains(call_key(fobj)) ==> ({
                let entry = old(self).program.funcs.as_map()[call_key(fobj)].0;
                let arity = old(self).program.funcs.as_map()[call_key(fobj)].1;
                let n = old(self).obj_stack@.len() as int;
                arity <= n ==> ({
                    let args = old(self).obj_stack@.subrange(n - arity, n);
                    if old(self).program.memos.as_memo_map().dom().contains((entry, args)) {
                        &&& r is Ok
                        &&& final(self).call_stack == old(self).call_stack
                        &&& final(self).counter == old(self).counter
                        &&& final(self).obj_stack@ == old(self).obj_stack@.subrange(
                            0,
                            n - arity,
                        ).push(old(self).program.memos.as_memo_map()[(entry, args)])
                    } else {
                        &&& r is Ok
                        &&& final(self).counter == entry
                        &&& final(self).obj_stack == old(self).obj_stack
                        &&& final(self).call_stack@.len() == old(self).call_stack@.len() + 1
                        &&& final(self).call_stack@.last().kind == FrameKind::Call
                        &&& final(self).call_stack@.last().memo_entry == entry
                        &&& final(self).call_stack@.last().memo_args@ == args
                        &&& final(self).call_stack@.last().return_address == old(self).counter
                    }
                })
            }),
            (fobj.data is Str || fobj.data is Func) && !old(
                self,
            ).program.funcs.as_map().dom().contains(call_key(fobj)) ==> r is Err,
    {
        let key = match fobj.data {
            ObjectData::Str(st, ln) => Object::func(st, ln),
            ObjectData::Func(st, ln) => Object::func(st, ln),
            _ => {
                return Err(ProgramErrorKind::TypeError(ObjectKind::Func, fobj.kind));
            },
        };
        let (entry, arity) = match self.program.get_func(&key) {
            Some(f) => f,
            None => {
                return Err(ProgramErrorKind::FunctionExists(self.name_bytes(&fobj)));
            },
        };
        let args = match self.obj_stack.last_n(arity) {
            Some(a) => a,
            None => {
                return Err(ProgramErrorKind::StackError(arity));
            },
        };
        match self.program.memos.lookup(entry, &args) {
            Some(cached) => {
                let popped = self.obj_stack.pop_n(arity);
                proof {
                    assert(popped is Some);
                }
                self.obj_stack.push(cached);
                Ok(())
            },
            None => {
                let mut fr = Frame::new(self.counter);
                fr.memo_entry = entry;
                fr.memo_args = args;
                self.call_stack.push(fr);
                proof {
                    lemma_frames_wf_push(old(self).call_stack@, fr);
                }
                self.counter = entry;
                Ok(())
            },
        }
    }
}


impl VM {
    /// The position just past the matching `done` of the block opener at
    /// `op_pc`, if the program recorded one.
    fn skip_target(&self, op_pc: usize) -> (r: Option<usize>)
        requires
            self.wf(),
        ensures
            r is Some <==> self.program.closers.contains_key(op_pc),
            r matches Some(t) ==> t == (if self.program.closers.spec_get(op_pc)
                < self.program.instructions@.len() {
                self.program.closers.spec_get(op_pc) + 1
            } else {
                self.program.instructions@.len() as int
            }),
    {
        match self.program.closers.get(&op_pc) {
            Some(c) => {
                let c = *c;
                if c < self.program.instructions.len() {
                    Some(c + 1)
                } else {
                    Some(self.program.instructions.len())
                }
            },
            None => None,
        }
    }

    /// Pushes a block frame carrying a copy of the enclosing frame's
    /// locals, resuming past the block's closer when it completes.
    fn push_block_frame(&mut self, kind: FrameKind, ret: usize) -> (r: Result<
        (),
        ProgramErrorKind,
    >)
        requires
            old(self).wf(),
        ensures
            final(self).wf(),
            final(self).main_entry == old(self).main_entry,
            final(self).program == old(self).program,
            final(self).counter == old(self).counter,
            final(self).obj_stack == old(self).obj_stack,
            final(self).heap == old(self).heap,
            old(self).call_stack@.len() > 0 ==> ({
                &&& r is Ok
                &&& final(self).call_stack@.len() == old(self).call_stack@.len() + 1
                &&& final(self).call_stack@.last().kind == kind
                &&& final(self).call_stack@.last().return_address == ret
                &&& final(self).call_stack@.last().locals_map() == old(
                    self,
                ).call_stack@.last().locals_map()
                &&& forall|i: int|
                    0 <= i < old(self).call_stack@.len() ==> final(self).call_stack@[i] == old(
                        self,
                    ).call_stack@[i]
            }),
            old(self).call_stack@.len() == 0 ==> r is Err && *final(self) == *old(self),
    {
        let blk = match self.call_stack.last() {
            Some(parent) => {
                proof {
                    assert(old(self).call_stack@.last().wf());
                }
                let mut blk = parent.duplicate();
                blk.kind = kind;
                blk.return_address = ret;
                blk.memo_entry = 0;
                blk.memo_args = Vec::new();
                blk
            },
            None => {
                return Err(ProgramErrorKind::StackError(1));
            },
        };
        self.call_stack.push(blk);
        proof {
            lemma_frames_wf_push(old(self).call_stack@, blk);
        }
        Ok(())
    }

    /// Reads a count operand: a non-negative integer that fits the
    /// machine.
    fn as_count(&self, o: Object) -> (r: Result<usize, ProgramErrorKind>) {
        match o.data {
            ObjectData::Integer(v) => {
                if v >= 0 && (v as u64) <= (usize::MAX as u64) {
                    Ok(v as usize)
                } else {
                    Err(ProgramErrorKind::IntegerToUnsigned)
                }
            },
            _ => Err(ProgramErrorKind::TypeError(ObjectKind::Integer, o.kind)),
        }
    }


}

/// The integers a range instruction pushes: `start`, `start + step`, and
/// so on, strictly below `end`.
pub open spec fn range_seq(start: int, end: int, step: int) -> Seq<Object>
    decreases (if end - start >= 0 {
        end - start
    } else {
        0
    }) when step >= 1
{
    if start >= end {
        Seq::empty()
    } else {
        seq![Object { kind: ObjectKind::Integer, data: ObjectData::Integer(start as i64) }]
            + range_seq(start + step, end, step)
    }
}

/// Stepping the upper bound once appends exactly the previous bound.
proof fn lemma_range_snoc(start: int, v: int, step: int)
    requires
        step >= 1,
        start <= v,
        (v - start) % step == 0,
    ensures
        range_seq(start, v + step, step) == range_seq(start, v, step).push(
            Object { kind: ObjectKind::Integer, data: ObjectData::Integer(v as i64) },
        ),
    decreases v - start,
{
    let vo = Object { kind: ObjectKind::Integer, data: ObjectData::Integer(v as i64) };
    if v == start {
        assert(range_seq(start, start, step) == Seq::<Object>::empty());
        assert(range_seq(start + step, start + step, step) == Seq::<Object>::empty());
        assert(range_seq(start, start + step, step) == seq![vo] + range_seq(
            start + step,
            start + step,
            step,
        ));
        assert(range_seq(start, start + step, step) =~= range_seq(start, start, step).push(vo));
    } else {
        assert(v - start >= step) by (nonlinear_arith)
            requires
                step >= 1,
                v - start > 0,
                (v - start) % step == 0,
        ;
        assert((v - (start + step)) % step == 0) by (nonlinear_arith)
            requires
                step >= 1,
                (v - start) % step == 0,
        ;
        lemma_range_snoc(start + step, v, step);
        let so = Object {
            kind: ObjectKind::Integer,
            data: ObjectData::Integer(start as i64),
        };
        assert(range_seq(start, v + step, step) == seq![so] + range_seq(
            start + step,
            v + step,
            step,
        ));
        assert(range_seq(start, v, step) == seq![so] + range_seq(start + step, v, step));
        assert(seq![so] + range_seq(start + step, v, step).push(vo) =~= (seq![so] + range_seq(
            start + step,
            v,
            step,
        )).push(vo));
    }
}

/// Bounds that differ by less than one step cut the range at the same
/// place, provided the larger one is a reachable step value.
proof fn lemma_range_same_cut(start: int, e: int, f: int, step: int)
    requires
        step >= 1,
        e <= f,
        f < e + step,
        start <= f,
        (f - start) % step == 0,
    ensures
        range_seq(start, f, step) == range_seq(start, e, step),
    decreases f - start,
{
    if start >= e {
        assert(f - start < step) by {
            assert(f < e + step && start >= e);
        }
        assert(f == start) by (nonlinear_arith)
            requires
                step >= 1,
                0 <= f - start,
                f - start < step,
                (f - start) % step == 0,
        ;
    } else {
        assert(f - start >= step) by (nonlinear_arith)
            requires
                step >= 1,
                f - start >= e - start,
                e - start > 0,
                (f - start) % step == 0,
                f >= e,
        ;
        assert((f - (start + step)) % step == 0) by (nonlinear_arith)
            requires
                step >= 1,
                (f - start) % step == 0,
        ;
        lemma_range_same_cut(start + step, e, f, step);
    }
}

/// The stack, temp-register and name-binding clauses of the step
/// relation.
pub open spec fn step_effects_stack(
    pre: VM,
    post: VM,
    op: Operation,
    r: Result<(), ProgramErrorKind>,
) -> bool {
    &&& (op matches Operation::PushLit(o) ==> r is Ok && post.obj_stack@ == pre.obj_stack@.push(o) && post.counter == pre.counter)
    &&& (op == Operation::Pop ==> ({
                if pre.obj_stack@.len() > 0 {
                    r is Ok && post.obj_stack@ == pre.obj_stack@.drop_last()
                } else {
                    r == Err::<(), ProgramErrorKind>(ProgramErrorKind::StackError(1))
                }
            }))
    &&& (op == Operation::PushTemp ==> match pre.temp {
                Some(t) => r is Ok && post.obj_stack@ == pre.obj_stack@.push(t),
                None => r == Err::<(), ProgramErrorKind>(ProgramErrorKind::TempPush),
            })
    &&& (op == Operation::StoreTemp ==> ({
                if pre.obj_stack@.len() > 0 {
                    r is Ok && post.temp == Some(pre.obj_stack@.last())
                        && post.obj_stack@ == pre.obj_stack@.drop_last()
                } else {
                    r == Err::<(), ProgramErrorKind>(ProgramErrorKind::StackError(1))
                }
            }))
    &&& ((op matches Operation::StoreName(name) && pre.obj_stack@.len() > 0 && pre.call_stack@.len() > 0) ==> ({
                let name = op->StoreName_0;
                &&& r is Ok
                &&& post.obj_stack@ == pre.obj_stack@.drop_last()
                &&& post.call_stack@.len() == pre.call_stack@.len()
                &&& post.call_stack@.last().locals_map() == pre.call_stack@.last().locals_map().insert(name, pre.obj_stack@.last())
                &&& forall|i: int|
                    0 <= i < pre.call_stack@.len() - 1 ==> post.call_stack@[i]
                        == pre.call_stack@[i]
            }))
    &&& ((op matches Operation::PushName(name) && pre.call_stack@.len() > 0) ==> ({
                let name = op->PushName_0;
                let locals = pre.call_stack@.last().locals_map();
                if locals.dom().contains(name) {
                    r is Ok && post.obj_stack@ == pre.obj_stack@.push(
                        locals[name],
                    ) && post.call_stack == pre.call_stack
                } else {
                    r is Err && post.obj_stack@ == pre.obj_stack@
                }
            }))
}

/// The list clauses of the step relation.
pub open spec fn step_effects_lists(
    pre: VM,
    post: VM,
    op: Operation,
    r: Result<(), ProgramErrorKind>,
) -> bool {
    &&& (({
                &&& op matches Operation::ListGet(iopt)
                &&& iopt matches Some(idx)
                &&& pre.obj_stack@.len() > 0
                &&& pre.obj_stack@.last().data matches ObjectData::List(s0, l0)
                &&& idx < l0
                &&& s0 + idx <= usize::MAX
                &&& crate::arena::chunk::chunk_has(pre.heap.chunks@, s0 + idx)
            }) ==> ({
                let idx = op->ListGet_0->0;
                let s0 = pre.obj_stack@.last().data->List_0;
                &&& r is Ok
                &&& post.obj_stack@ == pre.obj_stack@.push(
                    crate::arena::chunk::value_at(pre.heap.chunks@, s0 + idx),
                )
                &&& post.heap == pre.heap
            }))
    &&& (({
                &&& op matches Operation::ListSet(iopt)
                &&& iopt matches Some(idx)
                &&& pre.obj_stack@.len() >= 2
                &&& pre.obj_stack@[pre.obj_stack@.len() - 2].data
                    matches ObjectData::List(s0, l0)
                &&& idx < l0
                &&& s0 + idx <= usize::MAX
                &&& crate::arena::chunk::chunk_has(pre.heap.chunks@, s0 + idx)
            }) ==> ({
                let idx = op->ListSet_0->0;
                let s0 = pre.obj_stack@[pre.obj_stack@.len() - 2].data->List_0;
                &&& r is Ok
                &&& post.obj_stack@ == pre.obj_stack@.drop_last()
                &&& crate::arena::chunk::value_at(post.heap.chunks@, s0 + idx) == pre.obj_stack@.last()
                &&& forall|a: int|
                    crate::arena::chunk::chunk_has(pre.heap.chunks@, a) && a != s0 + idx
                        ==> crate::arena::chunk::value_at(post.heap.chunks@, a)
                        == crate::arena::chunk::value_at(pre.heap.chunks@, a)
            }))
    &&& (({
                &&& op matches Operation::CreateList(copt)
                &&& copt matches Some(n)
                &&& n >= 1
                &&& pre.obj_stack@.len() >= n
                &&& pre.heap.can_alloc(n as int)
            }) ==> ({
                let n = op->CreateList_0->0;
                let len = pre.obj_stack@.len() as int;
                &&& r is Ok
                &&& post.obj_stack@.len() == len - n + 1
                &&& post.obj_stack@.subrange(0, len - n) == pre.obj_stack@.subrange(0, len - n)
                &&& (post.obj_stack@.last().data matches ObjectData::List(a2, n2) && n2
                    == n && forall|k: int|
                    0 <= k < n ==> crate::arena::chunk::chunk_has(
                        post.heap.chunks@,
                        a2 + k,
                    ) && #[trigger] crate::arena::chunk::value_at(
                        post.heap.chunks@,
                        a2 + k,
                    ) == pre.obj_stack@[len - n + k])
            }))
    // an out-of-bounds list read reports the offending index and the
    // list's length
    &&& (({
        &&& op matches Operation::ListGet(iopt)
        &&& iopt matches Some(idx)
        &&& pre.obj_stack@.len() > 0
        &&& pre.obj_stack@.last().data matches ObjectData::List(s0, l0)
        &&& idx >= l0
    }) ==> r == Err::<(), ProgramErrorKind>(
        ProgramErrorKind::ListIndexError(
            op->ListGet_0->0,
            pre.obj_stack@.last().data->List_1,
        ),
    ))
    // a range instruction pops its step, end and start operands and
    // pushes exactly the range values, first value first
    &&& (({
        &&& op == Operation::PushRange
        &&& pre.obj_stack@.len() >= 3
        &&& pre.obj_stack@[pre.obj_stack@.len() - 1].data matches ObjectData::Integer(stp)
        &&& pre.obj_stack@[pre.obj_stack@.len() - 2].data matches ObjectData::Integer(end0)
        &&& pre.obj_stack@[pre.obj_stack@.len() - 3].data matches ObjectData::Integer(st0)
        &&& stp >= 1
        &&& end0 + stp <= i64::MAX
    }) ==> ({
        let stp = pre.obj_stack@[pre.obj_stack@.len() - 1].data->Integer_0;
        let end0 = pre.obj_stack@[pre.obj_stack@.len() - 2].data->Integer_0;
        let st0 = pre.obj_stack@[pre.obj_stack@.len() - 3].data->Integer_0;
        &&& r is Ok
        &&& post.obj_stack@ == pre.obj_stack@.subrange(0, pre.obj_stack@.len() - 3)
            + range_seq(st0 as int, end0 as int, stp as int)
    }))
}

/// The iterator and pointer clauses of the step relation.
pub open spec fn step_effects_cells(
    pre: VM,
    post: VM,
    op: Operation,
    r: Result<(), ProgramErrorKind>,
) -> bool {
    &&& (({
                &&& op == Operation::GetIter
                &&& pre.obj_stack@.len() > 0
                &&& pre.obj_stack@.last().data matches ObjectData::List(s0, l0)
            }) ==> ({
                let s0 = pre.obj_stack@.last().data->List_0;
                let l0 = pre.obj_stack@.last().data->List_1;
                r is Ok && post.obj_stack@ == pre.obj_stack@.drop_last().push(
                    Object { kind: ObjectKind::Iterator, data: ObjectData::Iterator(s0, l0, 0) },
                )
            }))
    &&& (({
                &&& op == Operation::IterNext
                &&& pre.obj_stack@.len() > 0
                &&& pre.obj_stack@.last().data matches ObjectData::Iterator(s0, l0, c0)
            }) ==> ({
                let s0 = pre.obj_stack@.last().data->Iterator_0;
                let l0 = pre.obj_stack@.last().data->Iterator_1;
                let c0 = pre.obj_stack@.last().data->Iterator_2;
                if c0 + 1 < l0 {
                    r is Ok && post.obj_stack@ == pre.obj_stack@.drop_last().push(
                        Object {
                            kind: ObjectKind::Iterator,
                            data: ObjectData::Iterator(s0, l0, (c0 + 1) as usize),
                        },
                    )
                } else {
                    r == Err::<(), ProgramErrorKind>(ProgramErrorKind::IterNext(l0))
                }
            }))
    &&& (({
                &&& op == Operation::IterPrev
                &&& pre.obj_stack@.len() > 0
                &&& pre.obj_stack@.last().data matches ObjectData::Iterator(s0, l0, c0)
            }) ==> ({
                let s0 = pre.obj_stack@.last().data->Iterator_0;
                let l0 = pre.obj_stack@.last().data->Iterator_1;
                let c0 = pre.obj_stack@.last().data->Iterator_2;
                if c0 > 0 {
                    r is Ok && post.obj_stack@ == pre.obj_stack@.drop_last().push(
                        Object {
                            kind: ObjectKind::Iterator,
                            data: ObjectData::Iterator(s0, l0, (c0 - 1) as usize),
                        },
                    )
                } else {
                    r == Err::<(), ProgramErrorKind>(ProgramErrorKind::IterPrevious)
                }
            }))
    &&& (({
                &&& op == Operation::ReadPtr
                &&& pre.obj_stack@.len() > 0
                &&& pre.obj_stack@.last().data matches ObjectData::Pointer(a0)
                &&& crate::arena::chunk::chunk_has(
                    pre.heap.chunks@,
                    pre.obj_stack@.last().data->Pointer_0 as int,
                )
            }) ==> ({
                let a0 = pre.obj_stack@.last().data->Pointer_0;
                r is Ok && post.obj_stack@ == pre.obj_stack@.drop_last().push(
                    crate::arena::chunk::value_at(pre.heap.chunks@, a0 as int),
                ) && post.heap == pre.heap
            }))
    &&& (({
                &&& op == Operation::SetPtr
                &&& pre.obj_stack@.len() >= 2
                &&& pre.obj_stack@[pre.obj_stack@.len() - 2].data
                    matches ObjectData::Pointer(a0)
                &&& crate::arena::chunk::chunk_has(
                    pre.heap.chunks@,
                    pre.obj_stack@[pre.obj_stack@.len() - 2].data->Pointer_0 as int,
                )
            }) ==> ({
                let a0 = pre.obj_stack@[pre.obj_stack@.len() - 2].data->Pointer_0;
                &&& r is Ok
                &&& post.obj_stack@ == pre.obj_stack@.subrange(
                    0,
                    pre.obj_stack@.len() - 2,
                )
                &&& crate::arena::chunk::value_at(post.heap.chunks@, a0 as int) == pre.obj_stack@.last()
                &&& forall|a: int|
                    crate::arena::chunk::chunk_has(pre.heap.chunks@, a) && a != a0
                        ==> crate::arena::chunk::value_at(post.heap.chunks@, a)
                        == crate::arena::chunk::value_at(pre.heap.chunks@, a)
            }))
}


/// The call-protocol and return-protocol clauses of the step relation:
/// memoization on call and on return, and the loop trampoline.
pub open spec fn step_effects_calls(
    pre: VM,
    post: VM,
    op: Operation,
    r: Result<(), ProgramErrorKind>,
) -> bool {
    // the call protocol (see op_call): a memo hit pops exactly the
    // argument tuple and pushes the cached return value, leaving the
    // frame stack and counter alone; a miss pushes one call frame
    // carrying the memo key and jumps to the entry
    &&& ((op matches Operation::Call(f) && (f.data is Str || f.data is Func)
        && pre.program.funcs.as_map().dom().contains(call_key(f))) ==> ({
        let f = op->Call_0;
        let entry = pre.program.funcs.as_map()[call_key(f)].0;
        let arity = pre.program.funcs.as_map()[call_key(f)].1;
        let n = pre.obj_stack@.len() as int;
        arity <= n ==> ({
            let args = pre.obj_stack@.subrange(n - arity, n);
            if pre.program.memos.as_memo_map().dom().contains((entry, args)) {
                &&& r is Ok
                &&& post.call_stack == pre.call_stack
                &&& post.counter == pre.counter
                &&& post.obj_stack@ == pre.obj_stack@.subrange(0, n - arity).push(
                    pre.program.memos.as_memo_map()[(entry, args)],
                )
                &&& post.program == pre.program
            } else {
                &&& r is Ok
                &&& post.counter == entry
                &&& post.obj_stack == pre.obj_stack
                &&& post.call_stack@.len() == pre.call_stack@.len() + 1
                &&& post.call_stack@.last().kind == FrameKind::Call
                &&& post.call_stack@.last().memo_entry == entry
                &&& post.call_stack@.last().memo_args@ == args
                &&& post.call_stack@.last().return_address == pre.counter
            }
        })
    }))
    &&& ((op matches Operation::Call(f) && (f.data is Str || f.data is Func)
        && !pre.program.funcs.as_map().dom().contains(call_key(f))) ==> r is Err)
    // write-on-return memoization: completing a call frame records the
    // top of the operand stack (or nil) under the frame's key
    &&& ((op == Operation::Done && pre.call_stack@.len() > 0 && pre.call_stack@.last().kind
        == FrameKind::Call && r is Ok) ==> ({
        let fr = pre.call_stack@.last();
        let ret = if pre.obj_stack@.len() > 0 {
            pre.obj_stack@.last()
        } else {
            Object { kind: ObjectKind::Nil, data: ObjectData::Nil }
        };
        &&& post.program.memos.as_memo_map() == pre.program.memos.as_memo_map().insert(
            (fr.memo_entry, fr.memo_args@),
            ret,
        )
        &&& post.counter == fr.return_address
        &&& post.call_stack@ == pre.call_stack@.drop_last()
    }))
    // the loop trampoline: a counted loop frame rewinds with one fewer
    // remaining iteration, keeping its locals
    &&& (({
        &&& op == Operation::Done
        &&& pre.call_stack@.len() > 0
        &&& pre.call_stack@.last().kind matches FrameKind::Loop { body_start, remaining }
        &&& pre.call_stack@.last().kind->Loop_remaining > 1
    }) ==> ({
        let fr = pre.call_stack@.last();
        &&& r is Ok
        &&& post.counter == fr.kind->Loop_body_start
        &&& post.call_stack@.len() == pre.call_stack@.len()
        &&& post.call_stack@.last().kind == FrameKind::Loop {
            body_start: fr.kind->Loop_body_start,
            remaining: (fr.kind->Loop_remaining - 1) as usize,
        }
        &&& post.call_stack@.last().locals_map() == fr.locals_map()
        &&& post.obj_stack == pre.obj_stack
    }))
    // ... and on its last iteration pops, the enclosing frame adopting
    // the body's locals (the frame-replace step)
    &&& (({
        &&& op == Operation::Done
        &&& pre.call_stack@.len() >= 2
        &&& pre.call_stack@.last().kind matches FrameKind::Loop { body_start, remaining }
        &&& pre.call_stack@.last().kind->Loop_remaining <= 1
    }) ==> ({
        let fr = pre.call_stack@.last();
        &&& r is Ok
        &&& post.counter == fr.return_address
        &&& post.call_stack@.len() == pre.call_stack@.len() - 1
        &&& post.call_stack@.last().locals_map() == fr.locals_map()
        &&& post.obj_stack == pre.obj_stack
    }))
}

/// Whether an error's instruction window really describes the program:
/// the three slots hold the instructions at, before and after the
/// counter it names (or the empty placeholder where the window leaves
/// the program).
pub open spec fn span_consistent(instrs: Seq<Operation>, sp: Span) -> bool {
    &&& sp.current_op == (if sp.program_count < instrs.len() {
        instrs[sp.program_count as int]
    } else {
        Operation::Empty
    })
    &&& sp.prev_op == (if 1 <= sp.program_count && sp.program_count - 1 < instrs.len() {
        instrs[sp.program_count - 1]
    } else {
        Operation::Empty
    })
    &&& sp.next_op == (if sp.program_count < instrs.len() && sp.program_count + 1
        < instrs.len() {
        instrs[sp.program_count + 1]
    } else {
        Operation::Empty
    })
}

/// What one instruction execution does to the machine, per instruction:
/// the step relation that `exec_op` and `Operation::call` guarantee for
/// every instruction they are given.
pub open spec fn step_effects(
    pre: VM,
    post: VM,
    op: Operation,
    r: Result<(), ProgramErrorKind>,
) -> bool {
    &&& step_effects_stack(pre, post, op, r)
    &&& step_effects_lists(pre, post, op, r)
    &&& step_effects_cells(pre, post, op, r)
    &&& step_effects_calls(pre, post, op, r)
}

impl VM {
    /// Executes one instruction (already fetched from `op_pc`) against
    /// the machine state. Every error is returned, never swallowed; the
    /// machine stays well formed, the instruction sequence and the
    /// symbol tables never change (only the memo cache may grow), and
    /// the per-instruction step relation [`step_effects`] holds.
    #[verifier::rlimit(100)]
    pub fn exec_op(&mut self, op: Operation, op_pc: usize) -> (r: Result<(), ProgramErrorKind>)
        requires
            old(self).wf(),
        ensures
            final(self).wf(),
            final(self).main_entry == old(self).main_entry,
            final(self).program.instructions == old(self).program.instructions,
            final(self).program.funcs == old(self).program.funcs,
            final(self).program.closers == old(self).program.closers,
            final(self).program.arena == old(self).program.arena,
            final(self).program.interned == old(self).program.interned,
            step_effects(*old(self), *final(self), op, r),
    {
        match op {
            Operation::BinOp(k) => self.handle_bin_op(&k),
            Operation::Call(f) => self.op_call(f),
            Operation::CallBuiltIn(b) => {
                let arg = match self.pop_obj() {
                    Ok(v) => v,
                    Err(e) => {
                        return Err(e);
                    },
                };
                match b {
                    BuiltIn::PrintLn => {
                        self.output.push(arg);
                        Ok(())
                    },
                    BuiltIn::Sqrt => {
                        match arg.data {
                            ObjectData::Integer(v) => {
                                if v < 0 {
                                    return Err(ProgramErrorKind::IntegerToUnsigned);
                                }
                                match b.call(arg) {
                                    Some(res) => {
                                        self.obj_stack.push(res);
                                        Ok(())
                                    },
                                    None => Ok(()),
                                }
                            },
                            _ => Err(
                                ProgramErrorKind::TypeError(ObjectKind::Integer, arg.kind),
                            ),
                        }
                    },
                }
            },
            Operation::PushLit(o) => {
                self.obj_stack.push(o);
                Ok(())
            },
            Operation::PushName(name) => {
                let local = match self.call_stack.last() {
                    Some(fr) => {
                        proof {
                            assert(old(self).call_stack@.last().wf());
                        }
                        fr.get_local(&name)
                    },
                    None => {
                        return Err(ProgramErrorKind::StackError(1));
                    },
                };
                match local {
                    Some(v) => {
                        self.obj_stack.push(v);
                        Ok(())
                    },
                    None => Err(ProgramErrorKind::VariableExists(self.name_bytes(&name))),
                }
            },
            Operation::PushTemp => {
                match self.temp {
                    Some(t) => {
                        self.obj_stack.push(t);
                        Ok(())
                    },
                    None => Err(ProgramErrorKind::TempPush),
                }
            },
            Operation::Pop => {
                match self.pop_obj() {
                    Ok(_) => Ok(()),
                    Err(e) => Err(e),
                }
            },
            Operation::ReturnIf(name) => self.op_return_if(name, false),
            Operation::ReturnIfConst(name) => self.op_return_if(name, true),
            Operation::StoreConst(name) => {
                let v = match self.pop_obj() {
                    Ok(v) => v,
                    Err(e) => {
                        return Err(e);
                    },
                };
                let present = match self.consts.get(&name) {
                    Some(_) => true,
                    None => false,
                };
                if present {
                    Err(ProgramErrorKind::ConstantExists(self.name_bytes(&name)))
                } else {
                    self.consts.insert(name, v);
                    Ok(())
                }
            },
            Operation::StoreName(name) => {
                let v = match self.pop_obj() {
                    Ok(v) => v,
                    Err(e) => {
                        return Err(e);
                    },
                };
                let ghost mid = *self;
                let mut fr = match self.call_stack.pop() {
                    Some(f) => f,
                    None => {
                        return Err(ProgramErrorKind::StackError(1));
                    },
                };
                proof {
                    lemma_frames_wf_drop(mid.call_stack@);
                }
                fr.add_local(name, v);
                self.call_stack.push(fr);
                proof {
                    lemma_frames_wf_push(mid.call_stack@.drop_last(), fr);
                }
                Ok(())
            },
            Operation::StoreTemp => {
                let v = match self.pop_obj() {
                    Ok(v) => v,
                    Err(e) => {
                        return Err(e);
                    },
                };
                self.temp = Some(v);
                Ok(())
            },
            Operation::Func(_, _) => Ok(()),
            Operation::Done => self.complete_frame(None),
            Operation::Exit => Ok(()),
            Operation::DoFor => {
                let cnt_obj = match self.pop_obj() {
                    Ok(v) => v,
                    Err(e) => {
                        return Err(e);
                    },
                };
                let count = match self.as_count(cnt_obj) {
                    Ok(c) => c,
                    Err(e) => {
                        return Err(e);
                    },
                };
                let target = match self.skip_target(op_pc) {
                    Some(t) => t,
                    None => {
                        return Err(Operation::arg_error());
                    },
                };
                if count == 0 {
                    self.counter = target;
                    Ok(())
                } else {
                    let body = self.counter;
                    self.push_block_frame(
                        FrameKind::Loop { body_start: body, remaining: count },
                        target,
                    )
                }
            },
            Operation::DoForIn(name) => {
                let src = match self.call_stack.last() {
                    Some(fr) => {
                        proof {
                            assert(old(self).call_stack@.last().wf());
                        }
                        fr.get_local(&name)
                    },
                    None => {
                        return Err(ProgramErrorKind::StackError(1));
                    },
                };
                let v = match src {
                    Some(v) => v,
                    None => {
                        return Err(ProgramErrorKind::VariableExists(self.name_bytes(&name)));
                    },
                };
                self.begin_iteration(v, op_pc)
            },
            Operation::Iterate => {
                let v = match self.pop_obj() {
                    Ok(v) => v,
                    Err(e) => {
                        return Err(e);
                    },
                };
                self.begin_iteration(v, op_pc)
            },
            Operation::DoIf => {
                let c = match self.pop_obj() {
                    Ok(v) => v,
                    Err(e) => {
                        return Err(e);
                    },
                };
                match c.data {
                    ObjectData::Bool(b) => {
                        let target = match self.skip_target(op_pc) {
                            Some(t) => t,
                            None => {
                                return Err(Operation::arg_error());
                            },
                        };
                        if b {
                            self.push_block_frame(FrameKind::Cond, target)
                        } else {
                            self.counter = target;
                            Ok(())
                        }
                    },
                    _ => Err(ProgramErrorKind::TypeError(ObjectKind::Bool, c.kind)),
                }
            },
            Operation::CreateList(_) => self.exec_list_op(op, op_pc),
            Operation::ListPush => self.exec_list_op(op, op_pc),
            Operation::ListGet(_) => self.exec_list_op(op, op_pc),
            Operation::ListSet(_) => self.exec_list_op(op, op_pc),
            Operation::PushRange => self.exec_list_op(op, op_pc),
            Operation::GetPtr => self.exec_cell_op(op, op_pc),
            Operation::ReadPtr => self.exec_cell_op(op, op_pc),
            Operation::SetPtr => self.exec_cell_op(op, op_pc),
            Operation::GetIter => self.exec_cell_op(op, op_pc),
            Operation::IterNext => self.exec_cell_op(op, op_pc),
            Operation::IterPrev => self.exec_cell_op(op, op_pc),
            Operation::IterCurrent => self.exec_cell_op(op, op_pc),
            Operation::Empty => Ok(()),
        }
    }

    /// Executes one of the list instructions; a half of [`VM::exec_op`]
    /// with the same contract.
    #[verifier::rlimit(100)]
    fn exec_list_op(&mut self, op: Operation, op_pc: usize) -> (r: Result<(), ProgramErrorKind>)
        requires
            old(self).wf(),
            op matches Operation::CreateList(_) || op == Operation::ListPush || (
            op matches Operation::ListGet(_)) || (op matches Operation::ListSet(_)) || op
                == Operation::PushRange,
        ensures
            final(self).wf(),
            final(self).main_entry == old(self).main_entry,
            final(self).program.instructions == old(self).program.instructions,
            final(self).program.funcs == old(self).program.funcs,
            final(self).program.closers == old(self).program.closers,
            final(self).program.arena == old(self).program.arena,
            final(self).program.interned == old(self).program.interned,
            step_effects(*old(self), *final(self), op, r),
    {
        match op {
            Operation::CreateList(cnt) => {
                let n = match cnt {
                    Some(c) => c,
                    None => self.obj_stack.len(),
                };
                let items = match self.obj_stack.pop_n(n) {
                    Some(v) => v,
                    None => {
                        return Err(ProgramErrorKind::StackError(n));
                    },
                };
                if n == 0 {
                    self.obj_stack.push(Object::list(0, 0));
                    return Ok(());
                }
                if !self.heap.has_room(n) {
                    return Err(ProgramErrorKind::OutOfMemory);
                }
                let addr = self.heap.alloc_slice(items.as_slice());
                self.obj_stack.push(Object::list(addr, n));
                proof {
                    let len = old(self).obj_stack@.len() as int;
                    assert(self.obj_stack@.subrange(0, len - n) =~= old(
                        self,
                    ).obj_stack@.subrange(0, len - n));
                    assert(self.obj_stack@.last().data == ObjectData::List(addr, n as usize));
                    assert(forall|k: int|
                        0 <= k < n ==> items@[k] == old(self).obj_stack@[len - n + k]);
                    assert forall|k: int| 0 <= k < n implies crate::arena::chunk::chunk_has(
                        self.heap.chunks@,
                        addr + k,
                    ) && #[trigger] crate::arena::chunk::value_at(self.heap.chunks@, addr + k)
                        == old(self).obj_stack@[len - n + k] by {
                        assert(crate::arena::chunk::value_at(self.heap.chunks@, addr + k)
                            == items@[k]);
                    }
                }
                Ok(())
            },
            Operation::ListPush => {
                let v = match self.pop_obj() {
                    Ok(v) => v,
                    Err(e) => {
                        return Err(e);
                    },
                };
                let lst = match self.pop_obj() {
                    Ok(v) => v,
                    Err(e) => {
                        return Err(e);
                    },
                };
                let (s0, l0) = match lst.data {
                    ObjectData::List(s, l) => (s, l),
                    _ => {
                        return Err(ProgramErrorKind::TypeError(ObjectKind::List, lst.kind));
                    },
                };
                // Copy the old run and append. The old run is abandoned to
                // the arena rather than deallocated: other list objects may
                // still view it.
                let mut items: Vec<Object> = Vec::new();
                let ghost mid = *self;
                let mut i: usize = 0;
                while i < l0
                    invariant
                        op == Operation::ListPush,
                        *self == mid,
                        mid.wf(),
                        mid.main_entry == old(self).main_entry,
                        mid.program == old(self).program,
                        i <= l0,
                        items@.len() == i,
                    decreases l0 - i,
                {
                    if s0 > usize::MAX - i {
                        return Err(ProgramErrorKind::ListIndexError(i, l0));
                    }
                    match self.heap.try_read(s0 + i) {
                        Some(el) => {
                            items.push(el);
                        },
                        None => {
                            return Err(ProgramErrorKind::ListIndexError(i, l0));
                        },
                    }
                    i = i + 1;
                }
                items.push(v);
                if l0 == usize::MAX {
                    return Err(ProgramErrorKind::OutOfMemory);
                }
                if !self.heap.has_room(l0 + 1) {
                    return Err(ProgramErrorKind::OutOfMemory);
                }
                proof {
                    assert(items@.len() >= 1);
                }
                let addr = self.heap.alloc_slice(items.as_slice());
                self.obj_stack.push(Object::list(addr, l0 + 1));
                Ok(())
            },
            Operation::ListGet(idx_opt) => {
                let idx = match idx_opt {
                    Some(i) => i,
                    None => {
                        let o = match self.pop_obj() {
                            Ok(v) => v,
                            Err(e) => {
                                return Err(e);
                            },
                        };
                        match self.as_count(o) {
                            Ok(c) => c,
                            Err(e) => {
                                return Err(e);
                            },
                        }
                    },
                };
                let lst = match self.obj_stack.last() {
                    Some(l) => *l,
                    None => {
                        return Err(ProgramErrorKind::StackError(1));
                    },
                };
                let (s0, l0) = match lst.data {
                    ObjectData::List(s, l) => (s, l),
                    _ => {
                        return Err(ProgramErrorKind::TypeError(ObjectKind::List, lst.kind));
                    },
                };
                if idx >= l0 || s0 > usize::MAX - idx {
                    return Err(ProgramErrorKind::ListIndexError(idx, l0));
                }
                match self.heap.try_read(s0 + idx) {
                    Some(el) => {
                        self.obj_stack.push(el);
                        Ok(())
                    },
                    None => Err(ProgramErrorKind::ListIndexError(idx, l0)),
                }
            },
            Operation::ListSet(idx_opt) => {
                let v = match self.pop_obj() {
                    Ok(v) => v,
                    Err(e) => {
                        return Err(e);
                    },
                };
                let idx = match idx_opt {
                    Some(i) => i,
                    None => {
                        let o = match self.pop_obj() {
                            Ok(v) => v,
                            Err(e) => {
                                return Err(e);
                            },
                        };
                        match self.as_count(o) {
                            Ok(c) => c,
                            Err(e) => {
                                return Err(e);
                            },
                        }
                    },
                };
                let lst = match self.obj_stack.last() {
                    Some(l) => *l,
                    None => {
                        return Err(ProgramErrorKind::StackError(1));
                    },
                };
                let (s0, l0) = match lst.data {
                    ObjectData::List(s, l) => (s, l),
                    _ => {
                        return Err(ProgramErrorKind::TypeError(ObjectKind::List, lst.kind));
                    },
                };
                if idx >= l0 || s0 > usize::MAX - idx {
                    return Err(ProgramErrorKind::ListIndexError(idx, l0));
                }
                if self.heap.try_write(s0 + idx, v) {
                    Ok(())
                } else {
                    Err(ProgramErrorKind::ListIndexError(idx, l0))
                }
            },
            Operation::PushRange => {
                let step_o = match self.pop_obj() {
                    Ok(v) => v,
                    Err(e) => {
                        return Err(e);
                    },
                };
                let end_o = match self.pop_obj() {
                    Ok(v) => v,
                    Err(e) => {
                        return Err(e);
                    },
                };
                let start_o = match self.pop_obj() {
                    Ok(v) => v,
                    Err(e) => {
                        return Err(e);
                    },
                };
                let step = match step_o.data {
                    ObjectData::Integer(v) => v,
                    _ => {
                        return Err(
                            ProgramErrorKind::TypeError(ObjectKind::Integer, step_o.kind),
                        );
                    },
                };
                let end = match end_o.data {
                    ObjectData::Integer(v) => v,
                    _ => {
                        return Err(ProgramErrorKind::TypeError(ObjectKind::Integer, end_o.kind));
                    },
                };
                let start = match start_o.data {
                    ObjectData::Integer(v) => v,
                    _ => {
                        return Err(
                            ProgramErrorKind::TypeError(ObjectKind::Integer, start_o.kind),
                        );
                    },
                };
                if step <= 0 {
                    return Err(ProgramErrorKind::IntegerToUnsigned);
                }
                let ghost base = old(self).obj_stack@.subrange(
                    0,
                    old(self).obj_stack@.len() - 3,
                );
                proof {
                    assert(self.obj_stack@ =~= base);
                    assert(range_seq(start as int, start as int, step as int)
                        == Seq::<Object>::empty());
                    assert(base + range_seq(start as int, start as int, step as int) =~= base);
                    assert((start as int - start as int) % (step as int) == 0)
                        by (nonlinear_arith)
                        requires
                            step >= 1,
                    ;
                }
                if end <= i64::MAX - step {
                    // every step stays in range, so the loop is exact
                    let mut v = start;
                    while v < end
                        invariant
                            op == Operation::PushRange,
                            self.wf(),
                            self.main_entry == old(self).main_entry,
                            self.program == old(self).program,
                            self.call_stack == old(self).call_stack,
                            self.temp == old(self).temp,
                            self.heap == old(self).heap,
                            self.consts == old(self).consts,
                            self.output == old(self).output,
                            step >= 1,
                            end <= i64::MAX - step,
                            start <= v,
                            v == start || v < end + step,
                            (v - start) as int % (step as int) == 0,
                            self.obj_stack@ == base + range_seq(
                                start as int,
                                v as int,
                                step as int,
                            ),
                        decreases (if end - v >= 0 {
                            end as int - v
                        } else {
                            0
                        }),
                    {
                        self.obj_stack.push(Object::integer(v));
                        proof {
                            lemma_range_snoc(start as int, v as int, step as int);
                            assert(((v + step) - start) as int % (step as int) == 0)
                                by (nonlinear_arith)
                                requires
                                    step >= 1,
                                    (v - start) as int % (step as int) == 0,
                            ;
                            assert(self.obj_stack@ =~= base + range_seq(
                                start as int,
                                (v + step) as int,
                                step as int,
                            ));
                        }
                        v = v + step;
                    }
                    proof {
                        if v > end {
                            if v == start {
                                assert(range_seq(start as int, v as int, step as int)
                                    =~= range_seq(start as int, end as int, step as int));
                            } else {
                                lemma_range_same_cut(
                                    start as int,
                                    end as int,
                                    v as int,
                                    step as int,
                                );
                            }
                        }
                    }
                    Ok(())
                } else {
                    // the end is so close to the edge of the machine range
                    // that stepping past it could overflow: push one checked
                    // step at a time and stop at the edge
                    let mut v = start;
                    while v < end
                        invariant
                            op == Operation::PushRange,
                            self.wf(),
                            step >= 1,
                            end as int + step > i64::MAX,
                            self.main_entry == old(self).main_entry,
                            self.program == old(self).program,
                            old(self).obj_stack@.len() >= 3,
                            old(self).obj_stack@[old(self).obj_stack@.len() - 1].data
                                == ObjectData::Integer(step),
                            old(self).obj_stack@[old(self).obj_stack@.len() - 2].data
                                == ObjectData::Integer(end),
                        decreases end - v,
                    {
                        self.obj_stack.push(Object::integer(v));
                        match v.checked_add(step) {
                            Some(nv) => {
                                v = nv;
                                if v >= end {
                                    break ;
                                }
                            },
                            None => {
                                break ;
                            },
                        }
                    }
                    Ok(())
                }
            },
            _ => {
                proof {
                    assert(false);
                }
                Ok(())
            },
        }
    }

    /// Executes one of the pointer or iterator instructions; a half of
    /// [`VM::exec_op`] with the same contract.
    #[verifier::rlimit(100)]
    fn exec_cell_op(&mut self, op: Operation, op_pc: usize) -> (r: Result<(), ProgramErrorKind>)
        requires
            old(self).wf(),
            op == Operation::GetPtr || op == Operation::ReadPtr || op == Operation::SetPtr
                || op == Operation::GetIter || op == Operation::IterNext || op
                == Operation::IterPrev || op == Operation::IterCurrent,
        ensures
            final(self).wf(),
            final(self).main_entry == old(self).main_entry,
            final(self).program.instructions == old(self).program.instructions,
            final(self).program.funcs == old(self).program.funcs,
            final(self).program.closers == old(self).program.closers,
            final(self).program.arena == old(self).program.arena,
            final(self).program.interned == old(self).program.interned,
            step_effects(*old(self), *final(self), op, r),
    {
        match op {
            Operation::GetPtr => {
                let o = match self.pop_obj() {
                    Ok(v) => v,
                    Err(e) => {
                        return Err(e);
                    },
                };
                if !self.heap.has_room(1) {
                    return Err(ProgramErrorKind::OutOfMemory);
                }
                let mut cell: Vec<Object> = Vec::new();
                cell.push(o);
                let addr = self.heap.alloc_slice(cell.as_slice());
                self.obj_stack.push(Object::pointer(addr));
                Ok(())
            },
            Operation::ReadPtr => {
                let p = match self.pop_obj() {
                    Ok(v) => v,
                    Err(e) => {
                        return Err(e);
                    },
                };
                match p.data {
                    ObjectData::Pointer(a) => {
                        match self.heap.try_read(a) {
                            Some(v) => {
                                self.obj_stack.push(v);
                                Ok(())
                            },
                            None => Err(ProgramErrorKind::ListIndexError(a, 0)),
                        }
                    },
                    _ => Err(ProgramErrorKind::TypeError(ObjectKind::Pointer, p.kind)),
                }
            },
            Operation::SetPtr => {
                let v = match self.pop_obj() {
                    Ok(v) => v,
                    Err(e) => {
                        return Err(e);
                    },
                };
                let p = match self.pop_obj() {
                    Ok(v) => v,
                    Err(e) => {
                        return Err(e);
                    },
                };
                proof {
                    assert(self.obj_stack@ =~= old(self).obj_stack@.subrange(
                        0,
                        old(self).obj_stack@.len() - 2,
                    ));
                }
                match p.data {
                    ObjectData::Pointer(a) => {
                        if self.heap.try_write(a, v) {
                            Ok(())
                        } else {
                            Err(ProgramErrorKind::ListIndexError(a, 0))
                        }
                    },
                    _ => Err(ProgramErrorKind::TypeError(ObjectKind::Pointer, p.kind)),
                }
            },
            Operation::GetIter => {
                let o = match self.pop_obj() {
                    Ok(v) => v,
                    Err(e) => {
                        return Err(e);
                    },
                };
                match o.data {
                    ObjectData::List(s, l) => {
                        self.obj_stack.push(Object::iterator(s, l, 0));
                        Ok(())
                    },
                    ObjectData::Iterator(s, l, c) => {
                        self.obj_stack.push(Object::iterator(s, l, c));
                        Ok(())
                    },
                    _ => Err(ProgramErrorKind::TypeError(ObjectKind::List, o.kind)),
                }
            },
            Operation::IterNext => {
                let it = match self.pop_obj() {
                    Ok(v) => v,
                    Err(e) => {
                        return Err(e);
                    },
                };
                match it.data {
                    ObjectData::Iterator(s, l, c) => {
                        if c >= l || c + 1 >= l {
                            Err(ProgramErrorKind::IterNext(l))
                        } else {
                            self.obj_stack.push(Object::iterator(s, l, c + 1));
                            Ok(())
                        }
                    },
                    _ => Err(ProgramErrorKind::TypeError(ObjectKind::Iterator, it.kind)),
                }
            },
            Operation::IterPrev => {
                let it = match self.pop_obj() {
                    Ok(v) => v,
                    Err(e) => {
                        return Err(e);
                    },
                };
                match it.data {
                    ObjectData::Iterator(s, l, c) => {
                        if c == 0 {
                            Err(ProgramErrorKind::IterPrevious)
                        } else {
                            self.obj_stack.push(Object::iterator(s, l, c - 1));
                            Ok(())
                        }
                    },
                    _ => Err(ProgramErrorKind::TypeError(ObjectKind::Iterator, it.kind)),
                }
            },
            Operation::IterCurrent => {
                let it = match self.obj_stack.last() {
                    Some(v) => *v,
                    None => {
                        return Err(ProgramErrorKind::StackError(1));
                    },
                };
                match it.data {
                    ObjectData::Iterator(s, l, c) => {
                        if c >= l || s > usize::MAX - c {
                            return Err(ProgramErrorKind::ListIndexError(c, l));
                        }
                        match self.heap.try_read(s + c) {
                            Some(v) => {
                                self.obj_stack.push(v);
                                Ok(())
                            },
                            None => Err(ProgramErrorKind::ListIndexError(c, l)),
                        }
                    },
                    _ => Err(ProgramErrorKind::TypeError(ObjectKind::Iterator, it.kind)),
                }
            },
            _ => {
                proof {
                    assert(false);
                }
                Ok(())
            },
        }
    }

    /// Opens an iteration block over the list behind `v`: pushes the
    /// first element and an iteration frame, or skips an empty list.
    fn begin_iteration(&mut self, v: Object, op_pc: usize) -> (r: Result<(), ProgramErrorKind>)
        requires
            old(self).wf(),
        ensures
            final(self).wf(),
            final(self).main_entry == old(self).main_entry,
            final(self).program == old(self).program,
    {
        let (s0, l0) = match v.data {
            ObjectData::List(s, l) => (s, l),
            ObjectData::Iterator(s, l, _) => (s, l),
            _ => {
                return Err(ProgramErrorKind::TypeError(ObjectKind::List, v.kind));
            },
        };
        let target = match self.skip_target(op_pc) {
            Some(t) => t,
            None => {
                return Err(Operation::arg_error());
            },
        };
        if l0 == 0 {
            self.counter = target;
            return Ok(());
        }
        let first = match self.heap.try_read(s0) {
            Some(el) => el,
            None => {
                return Err(ProgramErrorKind::ListIndexError(0, l0));
            },
        };
        self.obj_stack.push(first);
        let body = self.counter;
        self.push_block_frame(
            FrameKind::Iteration { body_start: body, list_start: s0, list_len: l0, next: 1 },
            target,
        )
    }

    /// Returns from the current frame when the popped guard is true: the
    /// return value is the local (or named constant) the instruction
    /// names.
    fn op_return_if(&mut self, name: Object, from_consts: bool) -> (r: Result<
        (),
        ProgramErrorKind,
    >)
        requires
            old(self).wf(),
        ensures
            final(self).wf(),
            final(self).main_entry == old(self).main_entry,
            final(self).program.instructions == old(self).program.instructions,
            final(self).program.funcs == old(self).program.funcs,
            final(self).program.closers == old(self).program.closers,
            final(self).program.arena == old(self).program.arena,
            final(self).program.interned == old(self).program.interned,
    {
        let guard = match self.pop_obj() {
            Ok(v) => v,
            Err(e) => {
                return Err(e);
            },
        };
        let taken = match guard.data {
            ObjectData::Bool(b) => b,
            _ => {
                return Err(ProgramErrorKind::TypeError(ObjectKind::Bool, guard.kind));
            },
        };
        if !taken {
            return Ok(());
        }
        let value = if from_consts {
            match self.consts.get(&name) {
                Some(v) => *v,
                None => {
                    return Err(ProgramErrorKind::ConstantExists(self.name_bytes(&name)));
                },
            }
        } else {
            match self.call_stack.last() {
                Some(fr) => {
                    proof {
                        assert(old(self).call_stack@.last().wf());
                    }
                    match fr.get_local(&name) {
                        Some(v) => v,
                        None => {
                            return Err(
                                ProgramErrorKind::VariableExists(self.name_bytes(&name)),
                            );
                        },
                    }
                },
                None => {
                    return Err(ProgramErrorKind::StackError(1));
                },
            }
        };
        self.complete_frame(Some(value))
    }

    /// One window of instruction context around `pc`, for error reports:
    /// the counter and the instruction at, before and after it (an empty
    /// placeholder where the window leaves the program).
    fn make_span(&self, pc: usize) -> (r: Span)
        ensures
            r.program_count == pc,
            r.current_op == (if pc < self.program.instructions@.len() {
                self.program.instructions@[pc as int]
            } else {
                Operation::Empty
            }),
            r.prev_op == (if 1 <= pc && pc - 1 < self.program.instructions@.len() {
                self.program.instructions@[pc - 1]
            } else {
                Operation::Empty
            }),
            r.next_op == (if pc < self.program.instructions@.len() && pc + 1
                < self.program.instructions@.len() {
                self.program.instructions@[pc + 1]
            } else {
                Operation::Empty
            }),
    {
        let len = self.program.instructions.len();
        let current_op = if pc < len {
            *self.program.get_op(pc)
        } else {
            Operation::Empty
        };
        let prev_op = if pc >= 1 && pc - 1 < len {
            *self.program.get_op(pc - 1)
        } else {
            Operation::Empty
        };
        let next_op = if pc < len && pc + 1 < len {
            *self.program.get_op(pc + 1)
        } else {
            Operation::Empty
        };
        Span { program_count: pc, current_op, prev_op, next_op }
    }

    /// Rewinds the control state to a fresh top-level frame at the entry
    /// of `main`, leaving the operand stack (the run's result surface),
    /// the heap and the caches in place.
    fn reset_control(&mut self)
        requires
            old(self).wf(),
        ensures
            final(self).wf(),
            final(self).counter == old(self).main_entry,
            final(self).main_entry == old(self).main_entry,
            final(self).call_stack@.len() == 1,
            final(self).call_stack@.last().kind == FrameKind::TopLevel,
            final(self).call_stack@.last().return_address
                == final(self).program.instructions@.len(),
            final(self).obj_stack == old(self).obj_stack,
            final(self).program == old(self).program,
            final(self).heap == old(self).heap,
    {
        self.counter = self.main_entry;
        let mut fresh: Stack<Frame> = Stack::new();
        let mut top = Frame::new(self.program.instructions.len());
        top.kind = FrameKind::TopLevel;
        fresh.push(top);
        proof {
            lemma_frames_wf_push(Seq::empty(), top);
        }
        self.call_stack = fresh;
    }

    /// The dispatch loop: fetch the instruction at the counter, advance
    /// the counter, execute, and repeat until the counter reaches the
    /// end-of-program sentinel or an `exit` instruction is next. Any
    /// error aborts the run with its instruction context; the depth
    /// guards and the step budget abort it with a guard error. On
    /// completion the control state is rewound for the next run; the
    /// operand stack keeps the program's result.
    pub fn run(&mut self) -> (r: Result<(), ProgramError>)
        requires
            old(self).wf(),
        ensures
            final(self).wf(),
            final(self).main_entry == old(self).main_entry,
            final(self).program.instructions == old(self).program.instructions,
            final(self).program.funcs == old(self).program.funcs,
            final(self).program.closers == old(self).program.closers,
            final(self).program.arena == old(self).program.arena,
            final(self).program.interned == old(self).program.interned,
            r is Ok ==> ({
                &&& final(self).counter == final(self).main_entry
                &&& final(self).call_stack@.len() == 1
                &&& final(self).call_stack@.last().kind == FrameKind::TopLevel
                &&& final(self).call_stack@.last().return_address
                    == final(self).program.instructions@.len()
            }),
            r matches Err(e) ==> span_consistent(final(self).program.instructions@, e.1),
    {
        let mut fuel: u64 = 0xFFFF_FFFF_FFFF_FFFFu64;
        loop
            invariant
                self.wf(),
                self.main_entry == old(self).main_entry,
                self.program.instructions == old(self).program.instructions,
                self.program.funcs == old(self).program.funcs,
                self.program.closers == old(self).program.closers,
                self.program.arena == old(self).program.arena,
                self.program.interned == old(self).program.interned,
            decreases fuel,
        {
            if self.counter >= self.program.instructions.len() {
                break ;
            }
            if fuel == 0 {
                let span = self.make_span(self.counter);
                return Err(
                    ProgramError(ProgramErrorKind::StackOverflow(usize::MAX), span),
                );
            }
            fuel = fuel - 1;
            if self.call_stack.len() > CALL_DEPTH_LIMIT {
                let span = self.make_span(self.counter);
                return Err(
                    ProgramError(ProgramErrorKind::StackOverflow(CALL_DEPTH_LIMIT), span),
                );
            }
            if self.obj_stack.len() > OBJ_DEPTH_LIMIT {
                let span = self.make_span(self.counter);
                return Err(
                    ProgramError(ProgramErrorKind::StackOverflow(OBJ_DEPTH_LIMIT), span),
                );
            }
            let pc = self.counter;
            let op = *self.program.get_op(pc);
            let is_exit = match op {
                Operation::Exit => true,
                _ => false,
            };
            if is_exit {
                break ;
            }
            self.counter = pc + 1;
            match self.exec_op(op, pc) {
                Ok(()) => {},
                Err(k) => {
                    let span = self.make_span(pc);
                    return Err(ProgramError(k, span));
                },
            }
        }
        self.reset_control();
        Ok(())
    }
}


impl Operation {
    /// Executes this instruction against `vm`, assuming the counter has
    /// already advanced past it (as the dispatch loop leaves it): the
    /// machine stays well formed, the instruction sequence and symbol
    /// tables never change, and the per-instruction step relation
    /// [`step_effects`] holds — including the memoization protocol of
    /// the call and return instructions.
    pub fn call(&self, vm: &mut VM) -> (r: Result<(), ProgramErrorKind>)
        requires
            old(vm).wf(),
        ensures
            final(vm).wf(),
            final(vm).main_entry == old(vm).main_entry,
            final(vm).program.instructions == old(vm).program.instructions,
            final(vm).program.funcs == old(vm).program.funcs,
            final(vm).program.closers == old(vm).program.closers,
            final(vm).program.arena == old(vm).program.arena,
            final(vm).program.interned == old(vm).program.interned,
            step_effects(*old(vm), *final(vm), *self, r),
    {
        let op_pc = if vm.counter > 0 {
            vm.counter - 1
        } else {
            0
        };
        vm.exec_op(*self, op_pc)
    }
}

} // verus!
