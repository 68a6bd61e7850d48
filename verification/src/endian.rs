//! Byte-order selection for multi-byte wire fields.

use vstd::prelude::*;

verus! {

/// The byte order used for every multi-byte field of one encode or decode
/// call: big-endian is the format's default.
#[derive(Clone, Copy, Debug, PartialEq, Eq, Structural)]
pub enum Endianness {
    Big,
    Little,
}

impl Endianness {
    /// True when this is the little-endian order.
    pub open spec fn spec_is_little(self) -> bool {
        self is Little
    }

    /// True when this is the little-endian order.
    #[verifier::when_used_as_spec(spec_is_little)]
    pub fn is_little(self) -> (r: bool)
        ensures
            r == self.spec_is_little(),
    {
        match self {
            Endianness::Big => false,
            Endianness::Little => true,
        }
    }
}

} // verus!
