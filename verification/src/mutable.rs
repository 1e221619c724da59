//! A mutable view of an object: either a direct value, a list run in the
//! recycling arena, or a named-constant slot.

use vstd::prelude::*;

use crate::object::Object;

verus! {

/// A mutable object reference: a list (the start address and length of
/// its backing run), a plain object value, or the index of a constant.
#[derive(Debug, Clone, Copy)]
pub enum MutableObject {
    List(usize, usize),
    Object(Object),
    Const(usize),
}

impl MutableObject {
    /// Wraps a plain object value.
    pub fn from_object(value: Object) -> (r: MutableObject)
        ensures
            r == MutableObject::Object(value),
    {
        MutableObject::Object(value)
    }
}

} // verus!
