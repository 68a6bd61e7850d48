//! Decode-time and schema-compile-time errors.

use vstd::prelude::*;

verus! {

/// A terminal error of an encode, decode or schema-compile call.
#[derive(Debug, PartialEq)]
pub enum Error {
    /// A contextual decode error at a byte offset: bad UTF-8, a wrong element
    /// type inside a byte array, or an unsupported type in a given position.
    Custom { offset: usize, msg: String },
    /// A read ran past the end of the input buffer at this offset.
    BufferOverflow { offset: usize },
    /// An unrecognized four-bit type code on the wire at this offset.
    InvalidType { offset: usize, type_id: u8 },
    /// Recursion passed the fixed depth cap during encode or decode.
    DepthExceeded,
    /// Two field descriptors of one schema carry the same tag.
    DuplicateTag { tag: u8 },
}

impl Error {
    /// A contextual error at the given offset.
    pub fn new(offset: usize, msg: &str) -> (r: Self)
        ensures
            r matches Error::Custom { offset: o, msg: m } && o == offset && m@ == msg@,
    {
        Error::Custom { offset, msg: msg.to_owned() }
    }
}

} // verus!
