//! The tagged-union value type of the virtual machine.
//!
//! An `Object` pairs a kind tag with a payload. Objects are plain value
//! types: every variable-length payload is a view into arena storage (an
//! address and a length), so copying an `Object` never duplicates or frees
//! storage.

use vstd::prelude::*;

verus! {

/// The kind tag of an [`Object`].
#[derive(Clone, Copy, PartialEq, Eq, Structural, Debug)]
pub enum ObjectKind {
    Integer,
    Float,
    String,
    Bool,
    Func,
    Pointer,
    Nil,
    List,
    Iterator,
}

/// The payload of an [`Object`].
///
/// - `Integer` carries a signed machine word.
/// - `Float` carries a fixed-point number: a signed whole part and an
///   unsigned fractional part (this VM has no IEEE floating point).
/// - `Str` and `Func` carry a byte range (start address, length) owned by
///   the program's bump arena.
/// - `List` carries the start address and length of a contiguous run of
///   objects owned by the recycling arena; it is mutated in place through
///   that address.
/// - `Pointer` carries the address of another object in the recycling
///   arena: a back-reference only, never an owner.
/// - `Iterator` carries the address and length of a list's backing run
///   plus a cursor index.
#[derive(Clone, Copy, PartialEq, Eq, Structural, Debug)]
pub enum ObjectData {
    Integer(i64),
    Float(i64, u32),
    Str(usize, usize),
    Bool(bool),
    Func(usize, usize),
    Pointer(usize),
    Nil,
    List(usize, usize),
    Iterator(usize, usize, usize),
}

/// The value type manipulated by the VM: a kind tag and a payload.
///
/// Well-formed objects keep the two in agreement; see [`Object::wf`].
#[derive(Clone, Copy, PartialEq, Eq, Structural, Debug)]
pub struct Object {
    pub kind: ObjectKind,
    pub data: ObjectData,
}

impl Object {
    /// The kind tag and the active payload variant always agree.
    pub open spec fn wf(self) -> bool {
        match self.data {
            ObjectData::Integer(_) => self.kind == ObjectKind::Integer,
            ObjectData::Float(_, _) => self.kind == ObjectKind::Float,
            ObjectData::Str(_, _) => self.kind == ObjectKind::String,
            ObjectData::Bool(_) => self.kind == ObjectKind::Bool,
            ObjectData::Func(_, _) => self.kind == ObjectKind::Func,
            ObjectData::Pointer(_) => self.kind == ObjectKind::Pointer,
            ObjectData::Nil => self.kind == ObjectKind::Nil,
            ObjectData::List(_, _) => self.kind == ObjectKind::List,
            ObjectData::Iterator(_, _, _) => self.kind == ObjectKind::Iterator,
        }
    }

    /// An integer object.
    pub fn integer(value: i64) -> (r: Object)
        ensures
            r == (Object { kind: ObjectKind::Integer, data: ObjectData::Integer(value) }),
    {
        Object { kind: ObjectKind::Integer, data: ObjectData::Integer(value) }
    }

    /// A fixed-point number object: signed whole part, unsigned fraction.
    pub fn float(whole: i64, frac: u32) -> (r: Object)
        ensures
            r == (Object { kind: ObjectKind::Float, data: ObjectData::Float(whole, frac) }),
    {
        Object { kind: ObjectKind::Float, data: ObjectData::Float(whole, frac) }
    }

    /// A string object viewing `len` bytes at `start` in the bump arena.
    pub fn string(start: usize, len: usize) -> (r: Object)
        ensures
            r == (Object { kind: ObjectKind::String, data: ObjectData::Str(start, len) }),
    {
        Object { kind: ObjectKind::String, data: ObjectData::Str(start, len) }
    }

    /// A boolean object.
    pub fn boolean(value: bool) -> (r: Object)
        ensures
            r == (Object { kind: ObjectKind::Bool, data: ObjectData::Bool(value) }),
    {
        Object { kind: ObjectKind::Bool, data: ObjectData::Bool(value) }
    }

    /// A function-name object viewing `len` bytes at `start` in the bump arena.
    pub fn func(start: usize, len: usize) -> (r: Object)
        ensures
            r == (Object { kind: ObjectKind::Func, data: ObjectData::Func(start, len) }),
    {
        Object { kind: ObjectKind::Func, data: ObjectData::Func(start, len) }
    }

    /// The nil object.
    pub fn nil() -> (r: Object)
        ensures
            r == (Object { kind: ObjectKind::Nil, data: ObjectData::Nil }),
    {
        Object { kind: ObjectKind::Nil, data: ObjectData::Nil }
    }

    /// A list object viewing `len` objects at `start` in the recycling arena.
    pub fn list(start: usize, len: usize) -> (r: Object)
        ensures
            r == (Object { kind: ObjectKind::List, data: ObjectData::List(start, len) }),
    {
        Object { kind: ObjectKind::List, data: ObjectData::List(start, len) }
    }

    /// A pointer object: a back-reference to the object at `addr` in the
    /// recycling arena.
    pub fn pointer(addr: usize) -> (r: Object)
        ensures
            r == (Object { kind: ObjectKind::Pointer, data: ObjectData::Pointer(addr) }),
    {
        Object { kind: ObjectKind::Pointer, data: ObjectData::Pointer(addr) }
    }

    /// An iterator object over the list run at `start` of length `len`,
    /// with its cursor at `cursor`.
    pub fn iterator(start: usize, len: usize, cursor: usize) -> (r: Object)
        ensures
            r == (Object {
                kind: ObjectKind::Iterator,
                data: ObjectData::Iterator(start, len, cursor),
            }),
    {
        Object { kind: ObjectKind::Iterator, data: ObjectData::Iterator(start, len, cursor) }
    }
}

} // verus!
