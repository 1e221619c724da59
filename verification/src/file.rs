//! The flat byte form of an object, used by callers that persist
//! programs: one tag byte for the kind, then the payload words.
//!
//! The file I/O around this encoding is the caller's business; the
//! library only defines the byte shape.

use vstd::prelude::*;

use crate::object::{Object, ObjectData};

verus! {

/// An object flattened to bytes: one kind tag, then the payload fields
/// as eight-byte big-endian words.
#[derive(Clone, Debug)]
pub struct ObjectSaveable(pub Vec<u8>);

/// The tag byte of an object's payload variant.
pub open spec fn spec_tag_of(data: ObjectData) -> u8 {
    match data {
        ObjectData::Integer(_) => 0u8,
        ObjectData::Float(_, _) => 1u8,
        ObjectData::Str(_, _) => 2u8,
        ObjectData::Bool(_) => 3u8,
        ObjectData::Func(_, _) => 4u8,
        ObjectData::Pointer(_) => 5u8,
        ObjectData::Nil => 6u8,
        ObjectData::List(_, _) => 7u8,
        ObjectData::Iterator(_, _, _) => 8u8,
    }
}

impl ObjectSaveable {
    /// Flattens `value`: the tag byte first, then each payload field as
    /// a 64-bit big-endian word.
    pub fn from_object(value: Object) -> (r: ObjectSaveable)
        ensures
            r.0@.len() >= 1,
            r.0@[0] == spec_tag_of(value.data),
    {
        let mut bytes: Vec<u8> = Vec::new();
        match value.data {
            ObjectData::Integer(v) => {
                bytes.push(0u8);
                push_word(&mut bytes, v as u64);
            },
            ObjectData::Float(w, p) => {
                bytes.push(1u8);
                push_word(&mut bytes, w as u64);
                push_word(&mut bytes, p as u64);
            },
            ObjectData::Str(s, l) => {
                bytes.push(2u8);
                push_word(&mut bytes, s as u64);
                push_word(&mut bytes, l as u64);
            },
            ObjectData::Bool(b) => {
                bytes.push(3u8);
                bytes.push(
                    if b {
                        1u8
                    } else {
                        0u8
                    },
                );
            },
            ObjectData::Func(s, l) => {
                bytes.push(4u8);
                push_word(&mut bytes, s as u64);
                push_word(&mut bytes, l as u64);
            },
            ObjectData::Pointer(a) => {
                bytes.push(5u8);
                push_word(&mut bytes, a as u64);
            },
            ObjectData::Nil => {
                bytes.push(6u8);
            },
            ObjectData::List(s, l) => {
                bytes.push(7u8);
                push_word(&mut bytes, s as u64);
                push_word(&mut bytes, l as u64);
            },
            ObjectData::Iterator(s, l, c) => {
                bytes.push(8u8);
                push_word(&mut bytes, s as u64);
                push_word(&mut bytes, l as u64);
                push_word(&mut bytes, c as u64);
            },
        }
        ObjectSaveable(bytes)
    }
}

/// Appends the eight big-endian bytes of `w`.
fn push_word(bytes: &mut Vec<u8>, w: u64)
    ensures
        final(bytes)@.len() == old(bytes)@.len() + 8,
        forall|i: int| 0 <= i < old(bytes)@.len() ==> final(bytes)@[i] == old(bytes)@[i],
{
    let mut shift: usize = 0;
    while shift < 8
        invariant
            shift <= 8,
            bytes@.len() == old(bytes)@.len() + shift,
            forall|i: int| 0 <= i < old(bytes)@.len() ==> bytes@[i] == old(bytes)@[i],
        decreases 8 - shift,
    {
        let byte = #[verifier::truncate] ((w >> ((7 - shift) as u64 * 8)) as u8);
        bytes.push(byte);
        shift = shift + 1;
    }
}

/// Options a caller hands to its persistence layer; the core itself
/// reads and writes no files.
pub struct FileOptions {}

} // verus!
