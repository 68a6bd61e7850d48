//! The wire type codes of the format.

use vstd::prelude::*;

verus! {

/// The fourteen physical encodings a field value can have on the wire.
/// The wire carries the code in the low four bits of the field header.
#[derive(Clone, Copy, Debug, PartialEq, Eq, Structural)]
pub enum JceType {
    Int1,
    Int2,
    Int4,
    Int8,
    Float,
    Double,
    String1,
    String4,
    Mapping,
    List,
    StructBegin,
    StructEnd,
    ZeroTag,
    SimpleList,
}

/// The numeric wire code of a type.
pub open spec fn spec_type_code(t: JceType) -> u8 {
    match t {
        JceType::Int1 => 0,
        JceType::Int2 => 1,
        JceType::Int4 => 2,
        JceType::Int8 => 3,
        JceType::Float => 4,
        JceType::Double => 5,
        JceType::String1 => 6,
        JceType::String4 => 7,
        JceType::Mapping => 8,
        JceType::List => 9,
        JceType::StructBegin => 10,
        JceType::StructEnd => 11,
        JceType::ZeroTag => 12,
        JceType::SimpleList => 13,
    }
}

/// The type identified by a numeric wire code; codes above 13 name no type.
pub open spec fn spec_type_of_code(c: u8) -> Option<JceType> {
    if c == 0 {
        Some(JceType::Int1)
    } else if c == 1 {
        Some(JceType::Int2)
    } else if c == 2 {
        Some(JceType::Int4)
    } else if c == 3 {
        Some(JceType::Int8)
    } else if c == 4 {
        Some(JceType::Float)
    } else if c == 5 {
        Some(JceType::Double)
    } else if c == 6 {
        Some(JceType::String1)
    } else if c == 7 {
        Some(JceType::String4)
    } else if c == 8 {
        Some(JceType::Mapping)
    } else if c == 9 {
        Some(JceType::List)
    } else if c == 10 {
        Some(JceType::StructBegin)
    } else if c == 11 {
        Some(JceType::StructEnd)
    } else if c == 12 {
        Some(JceType::ZeroTag)
    } else if c == 13 {
        Some(JceType::SimpleList)
    } else {
        None
    }
}

impl JceType {
    /// The numeric wire code of this type.
    pub fn code(self) -> (r: u8)
        ensures
            r == spec_type_code(self),
    {
        match self {
            JceType::Int1 => 0,
            JceType::Int2 => 1,
            JceType::Int4 => 2,
            JceType::Int8 => 3,
            JceType::Float => 4,
            JceType::Double => 5,
            JceType::String1 => 6,
            JceType::String4 => 7,
            JceType::Mapping => 8,
            JceType::List => 9,
            JceType::StructBegin => 10,
            JceType::StructEnd => 11,
            JceType::ZeroTag => 12,
            JceType::SimpleList => 13,
        }
    }

    /// The type named by a wire code, or `None` for an unknown code.
    pub fn from_code(c: u8) -> (r: Option<JceType>)
        ensures
            r == spec_type_of_code(c),
    {
        if c == 0 {
            Some(JceType::Int1)
        } else if c == 1 {
            Some(JceType::Int2)
        } else if c == 2 {
            Some(JceType::Int4)
        } else if c == 3 {
            Some(JceType::Int8)
        } else if c == 4 {
            Some(JceType::Float)
        } else if c == 5 {
            Some(JceType::Double)
        } else if c == 6 {
            Some(JceType::String1)
        } else if c == 7 {
            Some(JceType::String4)
        } else if c == 8 {
            Some(JceType::Mapping)
        } else if c == 9 {
            Some(JceType::List)
        } else if c == 10 {
            Some(JceType::StructBegin)
        } else if c == 11 {
            Some(JceType::StructEnd)
        } else if c == 12 {
            Some(JceType::ZeroTag)
        } else if c == 13 {
            Some(JceType::SimpleList)
        } else {
            None
        }
    }
}

/// Round trip between a type and its wire code.
pub proof fn lemma_type_code_round_trip(t: JceType)
    ensures
        spec_type_of_code(spec_type_code(t)) == Some(t),
{
}

} // verus!
