//! One activation record on the call-frame stack.
//!
//! A frame carries the local-variable bindings, the address to resume at
//! when the frame completes, the memoization key of the call it belongs to,
//! and a kind that tells the dispatch loop whether the frame belongs to an
//! ordinary call, a structured block, or the top level.

use vstd::prelude::*;

use crate::map::ObjMap;
use crate::object::Object;

verus! {

/// What a frame stands for: an ordinary function call, the top-level entry
/// frame, one structured block (counted loop, list iteration, conditional).
///
/// A counted loop remembers where its body starts and how many iterations
/// remain; a list iteration also remembers the backing run of the list it
/// walks and the index of the element the next iteration will push.
#[derive(Clone, Copy, PartialEq, Eq, Structural, Debug)]
pub enum FrameKind {
    Call,
    TopLevel,
    Loop { body_start: usize, remaining: usize },
    Iteration { body_start: usize, list_start: usize, list_len: usize, next: usize },
    Cond,
}

/// One activation record: local bindings, return address, memoization key
/// (function entry index plus argument tuple) and frame kind.
pub struct Frame {
    pub locals: ObjMap<Object>,
    pub return_address: usize,
    pub kind: FrameKind,
    pub memo_entry: usize,
    pub memo_args: Vec<Object>,
}

impl Frame {
    /// The local bindings are well formed.
    pub open spec fn wf(self) -> bool {
        self.locals.wf()
    }

    /// The local bindings as a mathematical map from names to values.
    pub open spec fn locals_map(self) -> Map<Object, Object> {
        self.locals.as_map()
    }

    /// A fresh call frame that resumes at `return_address`, with no locals
    /// and an empty memoization key.
    pub fn new(return_address: usize) -> (r: Frame)
        ensures
            r.wf(),
            r.locals_map() == Map::<Object, Object>::empty(),
            r.return_address == return_address,
            r.kind == FrameKind::Call,
            r.memo_entry == 0,
            r.memo_args@ == Seq::<Object>::empty(),
    {
        Frame {
            locals: ObjMap::new(),
            return_address,
            kind: FrameKind::Call,
            memo_entry: 0,
            memo_args: Vec::new(),
        }
    }

    /// Binds `name` to `obj`, replacing any previous binding of that name.
    pub fn add_local(&mut self, name: Object, obj: Object)
        requires
            old(self).wf(),
        ensures
            final(self).wf(),
            final(self).locals_map() == old(self).locals_map().insert(name, obj),
            final(self).return_address == old(self).return_address,
            final(self).kind == old(self).kind,
            final(self).memo_entry == old(self).memo_entry,
            final(self).memo_args == old(self).memo_args,
    {
        self.locals.insert(name, obj);
    }

    /// The value bound to `name`, if any.
    pub fn get_local(&self, name: &Object) -> (r: Option<Object>)
        requires
            self.wf(),
        ensures
            match r {
                Some(v) => self.locals_map().dom().contains(*name)
                    && v == self.locals_map()[*name],
                None => !self.locals_map().dom().contains(*name),
            },
    {
        match self.locals.get(name) {
            Some(v) => Some(*v),
            None => None,
        }
    }

    /// A copy of the frame; block frames copy-propagate the locals of the
    /// enclosing frame through this.
    pub fn duplicate(&self) -> (r: Frame)
        requires
            self.wf(),
        ensures
            r.wf(),
            r.locals_map() == self.locals_map(),
            r.return_address == self.return_address,
            r.kind == self.kind,
            r.memo_entry == self.memo_entry,
            r.memo_args@ == self.memo_args@,
    {
        let mut memo_args: Vec<Object> = Vec::new();
        let mut i: usize = 0;
        while i < self.memo_args.len()
            invariant
                i <= self.memo_args@.len(),
                memo_args@ == self.memo_args@.subrange(0, i as int),
            decreases self.memo_args@.len() - i,
        {
            memo_args.push(self.memo_args[i]);
            i = i + 1;
        }
        assert(memo_args@ =~= self.memo_args@);
        Frame {
            locals: self.locals.duplicate(),
            return_address: self.return_address,
            kind: self.kind,
            memo_entry: self.memo_entry,
            memo_args,
        }
    }

    /// Replaces this frame's locals with those of `from`: the frame-replace
    /// step that makes mutations inside a completed block visible to the
    /// enclosing frame.
    pub fn adopt_locals(&mut self, from: &Frame)
        requires
            old(self).wf(),
            from.wf(),
        ensures
            final(self).wf(),
            final(self).locals_map() == from.locals_map(),
            final(self).return_address == old(self).return_address,
            final(self).kind == old(self).kind,
            final(self).memo_entry == old(self).memo_entry,
            final(self).memo_args == old(self).memo_args,
    {
        self.locals = from.locals.duplicate();
    }
}

} // verus!
