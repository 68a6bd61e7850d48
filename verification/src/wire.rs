//! The wire grammar of the format, written out as byte-sequence functions.
//!
//! Every encoder of the crate promises to append exactly these sequences, and
//! the readers are specified against them, so the format is stated once and
//! in one place.

use vstd::prelude::*;
use crate::error::Error;
use crate::nums::{num_bytes, num_val, pow256, trunc_i32, unwrap_signed, wrap_unsigned};
use crate::types::{JceType, spec_type_code, spec_type_of_code};
use vstd::utf8::valid_utf8;

verus! {

/// The recursion cap shared by every encoder, decoder and scanner: recursing
/// past this depth is reported as an error instead of exhausting the stack.
pub const MAX_DEPTH: usize = 100;

/// The field header: one byte carrying the tag in the high four bits and the
/// type code in the low four, or, for tags of 15 and above, a first byte with
/// high bits all set followed by a byte holding the whole tag.
pub open spec fn head_bytes(tag: u8, code: u8) -> Seq<u8>
    recommends
        code < 16,
{
    if tag < 15 {
        seq![(tag * 16 + code) as u8]
    } else {
        seq![(240 + code) as u8, tag]
    }
}

/// The narrowest wire type whose signed range holds `v`: zero gets the
/// payload-free `ZeroTag`.
pub open spec fn spec_int_type(v: int) -> JceType {
    if v == 0 {
        JceType::ZeroTag
    } else if -128 <= v <= 127 {
        JceType::Int1
    } else if -32768 <= v <= 32767 {
        JceType::Int2
    } else if -0x80000000 <= v <= 0x7fffffff {
        JceType::Int4
    } else {
        JceType::Int8
    }
}

/// The payload bytes of an integer in its narrowest width.
pub open spec fn int_payload(v: int, le: bool) -> Seq<u8> {
    if v == 0 {
        Seq::empty()
    } else if -128 <= v <= 127 {
        num_bytes(wrap_unsigned(v, 256), 1, le)
    } else if -32768 <= v <= 32767 {
        num_bytes(wrap_unsigned(v, 0x10000), 2, le)
    } else if -0x80000000 <= v <= 0x7fffffff {
        num_bytes(wrap_unsigned(v, 0x100000000), 4, le)
    } else {
        num_bytes(wrap_unsigned(v, 0x10000000000000000), 8, le)
    }
}

/// A whole integer field: header plus minimal-width payload.
pub open spec fn int_enc(tag: u8, v: int, le: bool) -> Seq<u8> {
    head_bytes(tag, spec_type_code(spec_int_type(v))) + int_payload(v, le)
}

/// A whole single-precision field: header plus the four bytes of the IEEE-754
/// bit pattern.
pub open spec fn float_enc(tag: u8, bits: u32, le: bool) -> Seq<u8> {
    head_bytes(tag, 4) + num_bytes(bits as nat, 4, le)
}

/// A whole double-precision field: header plus the eight bytes of the
/// IEEE-754 bit pattern.
pub open spec fn double_enc(tag: u8, bits: u64, le: bool) -> Seq<u8> {
    head_bytes(tag, 5) + num_bytes(bits as nat, 8, le)
}

/// A whole string field: short strings get a one-byte length prefix, strings
/// longer than 255 bytes a four-byte one.
pub open spec fn string_enc(tag: u8, s: Seq<u8>, le: bool) -> Seq<u8>
    recommends
        s.len() < 0x100000000,
{
    if s.len() <= 255 {
        head_bytes(tag, 6) + seq![s.len() as u8] + s
    } else {
        head_bytes(tag, 7) + num_bytes(s.len() as nat, 4, le) + s
    }
}

/// A whole byte-array field: header, one byte declaring the element type
/// (always 0, "byte"), the element count as an integer field under tag 0,
/// then the raw bytes.
pub open spec fn bytes_enc(tag: u8, s: Seq<u8>, le: bool) -> Seq<u8> {
    head_bytes(tag, 13) + seq![0u8] + int_enc(0, s.len() as int, le) + s
}

/// The values of `pow256` a fixed-width field can need, spelled out.
pub proof fn lemma_pow256_values()
    ensures
        pow256(0) == 1,
        pow256(1) == 0x100,
        pow256(2) == 0x10000,
        pow256(4) == 0x100000000,
        pow256(8) == 0x10000000000000000,
{
    reveal_with_fuel(pow256, 9);
    assert(pow256(8) == 0x10000000000000000);
}

/// The model of a decode error: the same cases as [`crate::error::Error`],
/// without the descriptive text a contextual error carries.
pub enum ErrModel {
    Overflow(int),
    BadType(int, u8),
    Ctx(int),
    TooDeep,
}

/// Relates a decode error to its model: same case, same offset, same type
/// code; the text of a contextual error is presentation and is not pinned.
pub open spec fn matches_err(e: Error, m: ErrModel) -> bool {
    match m {
        ErrModel::Overflow(o) => match e {
            Error::BufferOverflow { offset } => offset == o,
            _ => false,
        },
        ErrModel::BadType(o, c) => match e {
            Error::InvalidType { offset, type_id } => offset == o && type_id == c,
            _ => false,
        },
        ErrModel::Ctx(o) => match e {
            Error::Custom { offset, msg } => offset == o,
            _ => false,
        },
        ErrModel::TooDeep => e is DepthExceeded,
    }
}

/// The field header parsed at `pos`: tag, type and the position after the
/// header, or `None` when it is truncated or carries an unknown type code.
pub open spec fn spec_head(data: Seq<u8>, pos: int) -> Option<(u8, JceType, int)> {
    if 0 <= pos < data.len() {
        let b = data[pos];
        let code = b % 16;
        if b / 16 == 15 {
            if pos + 1 < data.len() {
                match spec_type_of_code(code) {
                    Some(t) => Some((data[pos + 1], t, pos + 2)),
                    None => None,
                }
            } else {
                None
            }
        } else {
            match spec_type_of_code(code) {
                Some(t) => Some((b / 16, t, pos + 1)),
                None => None,
            }
        }
    } else {
        None
    }
}

/// The error a failed header parse reports: a truncated header is an
/// overflow at the missing byte, an unknown code an invalid-type error at
/// the header byte.
pub open spec fn head_err(data: Seq<u8>, pos: int) -> ErrModel {
    if pos >= data.len() {
        ErrModel::Overflow(pos)
    } else {
        let b = data[pos];
        if b / 16 == 15 && pos + 1 >= data.len() {
            ErrModel::Overflow(pos + 1)
        } else {
            ErrModel::BadType(pos, b % 16)
        }
    }
}

/// True of the five wire types an integer read accepts.
pub open spec fn is_int_type(t: JceType) -> bool {
    t is Int1 || t is Int2 || t is Int4 || t is Int8 || t is ZeroTag
}

/// The payload width in bytes of an integer wire type.
pub open spec fn int_width_of(t: JceType) -> int {
    match t {
        JceType::Int1 => 1,
        JceType::Int2 => 2,
        JceType::Int4 => 4,
        JceType::Int8 => 8,
        _ => 0,
    }
}

/// The modulus of an integer wire type: how many distinct values its payload
/// can carry.
pub open spec fn int_modulus_of(t: JceType) -> nat {
    match t {
        JceType::Int1 => 0x100,
        JceType::Int2 => 0x10000,
        JceType::Int4 => 0x100000000,
        JceType::Int8 => 0x10000000000000000,
        _ => 1,
    }
}

/// The signed value of an integer payload at `pos`.
pub open spec fn int_value_at(data: Seq<u8>, pos: int, t: JceType, le: bool) -> int {
    if t is ZeroTag {
        0
    } else {
        unwrap_signed(num_val(data.subrange(pos, pos + int_width_of(t)), le), int_modulus_of(t))
    }
}

/// An integer payload parsed at `pos`: the value and the position after it.
pub open spec fn parse_int(data: Seq<u8>, pos: int, t: JceType, le: bool) -> Result<
    (int, int),
    ErrModel,
> {
    if !is_int_type(t) {
        Err(ErrModel::Ctx(pos))
    } else if pos + int_width_of(t) <= data.len() {
        Ok((int_value_at(data, pos, t, le), pos + int_width_of(t)))
    } else {
        Err(ErrModel::Overflow(pos))
    }
}

/// A container size parsed at `pos`: a whole integer field (header included)
/// truncated to 32 bits, as the reader returns it.
pub open spec fn parse_size(data: Seq<u8>, pos: int, le: bool) -> Result<(int, int), ErrModel> {
    match spec_head(data, pos) {
        None => Err(head_err(data, pos)),
        Some((tag, t, p1)) => match parse_int(data, p1, t, le) {
            Err(m) => Err(m),
            Ok((v, p2)) => Ok((trunc_i32(v), p2)),
        },
    }
}

/// A string payload parsed at `pos` for the given string type: the UTF-8
/// bytes and the position after them.
pub open spec fn parse_string(data: Seq<u8>, pos: int, t: JceType, le: bool) -> Result<
    (Seq<u8>, int),
    ErrModel,
> {
    if t is String1 {
        if pos + 1 > data.len() {
            Err(ErrModel::Overflow(pos))
        } else {
            let l = data[pos] as int;
            let start = pos + 1;
            if start + l > data.len() {
                Err(ErrModel::Overflow(start))
            } else if !valid_utf8(data.subrange(start, start + l)) {
                Err(ErrModel::Ctx(start))
            } else {
                Ok((data.subrange(start, start + l), start + l))
            }
        }
    } else if t is String4 {
        if pos + 4 > data.len() {
            Err(ErrModel::Overflow(pos))
        } else {
            let l = num_val(data.subrange(pos, pos + 4), le) as int;
            let start = pos + 4;
            if start + l > data.len() {
                Err(ErrModel::Overflow(start))
            } else if !valid_utf8(data.subrange(start, start + l)) {
                Err(ErrModel::Ctx(start))
            } else {
                Ok((data.subrange(start, start + l), start + l))
            }
        }
    } else {
        Err(ErrModel::Ctx(pos))
    }
}

/// The position after skipping one field of type `t` whose payload starts at
/// `pos`, at nesting depth `depth`: recursing past the depth cap is the
/// depth error, not a deeper walk.
pub open spec fn skip_field_at(data: Seq<u8>, pos: int, t: JceType, le: bool, depth: nat) -> Result<
    int,
    ErrModel,
>
    decreases data.len() - pos, 3int, 0int,
{
    if depth > MAX_DEPTH {
        Err(ErrModel::TooDeep)
    } else {
        skip_body(data, pos, t, le, (depth + 1) as nat)
    }
}

/// The position after the payload of one field of type `t` at `pos`.
pub open spec fn skip_body(data: Seq<u8>, pos: int, t: JceType, le: bool, depth: nat) -> Result<
    int,
    ErrModel,
>
    decreases data.len() - pos, 2int, 0int,
{
    match t {
        JceType::Int1 => skip_fixed(data, pos, 1),
        JceType::Int2 => skip_fixed(data, pos, 2),
        JceType::Int4 => skip_fixed(data, pos, 4),
        JceType::Int8 => skip_fixed(data, pos, 8),
        JceType::Float => skip_fixed(data, pos, 4),
        JceType::Double => skip_fixed(data, pos, 8),
        JceType::String1 => {
            if pos >= data.len() {
                Err(ErrModel::Overflow(pos))
            } else {
                skip_fixed(data, pos + 1, data[pos] as int)
            }
        },
        JceType::String4 => {
            if pos + 4 > data.len() {
                Err(ErrModel::Overflow(pos))
            } else {
                skip_fixed(data, pos + 4, num_val(data.subrange(pos, pos + 4), le) as int)
            }
        },
        JceType::Mapping => match parse_size(data, pos, le) {
            Err(m) => Err(m),
            Ok((sz, p1)) => {
                let n: nat = if sz > 0 {
                    (2 * sz) as nat
                } else {
                    0
                };
                skip_fields_n(data, p1, n, le, depth)
            },
        },
        JceType::List => match parse_size(data, pos, le) {
            Err(m) => Err(m),
            Ok((sz, p1)) => {
                let n: nat = if sz > 0 {
                    sz as nat
                } else {
                    0
                };
                skip_fields_n(data, p1, n, le, depth)
            },
        },
        JceType::SimpleList => {
            if pos >= data.len() {
                Err(ErrModel::Overflow(pos))
            } else if data[pos] != 0 {
                Err(ErrModel::Ctx(pos + 1))
            } else {
                match parse_size(data, pos + 1, le) {
                    Err(m) => Err(m),
                    Ok((sz, p2)) => {
                        if sz < 0 {
                            Err(ErrModel::Overflow(p2))
                        } else {
                            skip_fixed(data, p2, sz)
                        }
                    },
                }
            }
        },
        JceType::StructBegin => skip_struct_rest(data, pos, le, depth),
        JceType::StructEnd => Ok(pos),
        JceType::ZeroTag => Ok(pos),
    }
}

/// The position after a fixed-size payload, or the overflow error at its
/// start.
pub open spec fn skip_fixed(data: Seq<u8>, pos: int, k: int) -> Result<int, ErrModel> {
    if pos + k <= data.len() {
        Ok(pos + k)
    } else {
        Err(ErrModel::Overflow(pos))
    }
}

/// The position after the fields of a nested struct at `pos`, its closing
/// end marker included.
pub open spec fn skip_struct_rest(data: Seq<u8>, pos: int, le: bool, depth: nat) -> Result<
    int,
    ErrModel,
>
    decreases data.len() - pos, 1int, 0int,
{
    match spec_head(data, pos) {
        None => Err(head_err(data, pos)),
        Some((tag, t, p1)) => {
            if t is StructEnd {
                Ok(p1)
            } else {
                match skip_field_at(data, p1, t, le, depth) {
                    Err(m) => Err(m),
                    Ok(p2) => {
                        // A field never ends before its header began; the
                        // test keeps the recursion visibly well-founded.
                        if pos < p2 <= data.len() {
                            skip_struct_rest(data, p2, le, depth)
                        } else {
                            Err(ErrModel::Overflow(pos))
                        }
                    },
                }
            }
        },
    }
}

/// The position after `n` whole fields (header and payload) starting at
/// `pos`.
pub open spec fn skip_fields_n(data: Seq<u8>, pos: int, n: nat, le: bool, depth: nat) -> Result<
    int,
    ErrModel,
>
    decreases data.len() - pos, 0int, n,
{
    if n == 0 {
        Ok(pos)
    } else {
        match spec_head(data, pos) {
            None => Err(head_err(data, pos)),
            Some((tag, t, p1)) => match skip_field_at(data, p1, t, le, depth) {
                Err(m) => Err(m),
                Ok(p2) => {
                    // As above: the test keeps the recursion well-founded.
                    if pos < p2 <= data.len() {
                        skip_fields_n(data, p2, (n - 1) as nat, le, depth)
                    } else {
                        Err(ErrModel::Overflow(pos))
                    }
                },
            },
        }
    }
}

/// The position after a whole top-level scan starting at `pos`: a sequence
/// of fields ending at the end of the buffer or at a struct end marker.
pub open spec fn validate_rest(data: Seq<u8>, pos: int, le: bool) -> Result<int, ErrModel>
    decreases data.len() - pos,
{
    if pos >= data.len() {
        Ok(pos)
    } else {
        match spec_head(data, pos) {
            None => Err(head_err(data, pos)),
            Some((tag, t, p1)) => {
                if t is StructEnd {
                    Ok(p1)
                } else {
                    match skip_field_at(data, p1, t, le, 0) {
                        Err(m) => Err(m),
                        Ok(p2) => {
                            if pos < p2 <= data.len() {
                                validate_rest(data, p2, le)
                            } else {
                                Err(ErrModel::Overflow(pos))
                            }
                        },
                    }
                }
            },
        }
    }
}

} // verus!
