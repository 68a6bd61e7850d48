//! The encoder: appends wire-format fields to an internal buffer.

use vstd::prelude::*;
use crate::endian::Endianness;
use crate::nums::{push_num, u64_of_i64};
use crate::types::JceType;
use crate::wire::{MAX_DEPTH, head_bytes, int_enc, float_enc, double_enc, string_enc, bytes_enc, lemma_pow256_values};
use crate::types::spec_type_code;

verus! {

/// Appends a byte slice to a buffer.
pub(crate) fn push_slice(buf: &mut Vec<u8>, s: &[u8])
    ensures
        final(buf)@ == old(buf)@ + s@,
{
    let ghost pre = buf@;
    let mut i: usize = 0;
    let n: usize = s.len();
    while i < n
        invariant
            i <= n,
            n == s@.len(),
            buf@ == pre + s@.subrange(0, i as int),
        decreases n - i,
    {
        buf.push(s[i]);
        proof {
            assert(buf@ =~= pre + s@.subrange(0, i + 1));
        }
        i = i + 1;
    }
    proof {
        assert(buf@ =~= pre + s@);
    }
}

/// The encoder. Writes never fail: each operation appends exactly the wire
/// bytes of one field, in the configured byte order.
pub struct JceWriter {
    buffer: Vec<u8>,
    little_endian: bool,
}

impl JceWriter {
    /// The bytes written so far.
    pub closed spec fn bytes(self) -> Seq<u8> {
        self.buffer@
    }

    /// True when multi-byte fields are written least significant byte first.
    pub closed spec fn little(self) -> bool {
        self.little_endian
    }

    /// A fresh big-endian writer with an empty buffer.
    pub fn new() -> (r: Self)
        ensures
            r.bytes() == Seq::<u8>::empty(),
            !r.little(),
    {
        JceWriter { buffer: Vec::new(), little_endian: false }
    }

    /// A fresh writer with an empty buffer and the given byte order.
    pub fn with_endianness(endian: Endianness) -> (r: Self)
        ensures
            r.bytes() == Seq::<u8>::empty(),
            r.little() == endian.is_little(),
    {
        JceWriter { buffer: Vec::new(), little_endian: endian.is_little() }
    }

    /// The byte order of this writer.
    pub fn endianness(&self) -> (r: Endianness)
        ensures
            r.is_little() == self.little(),
    {
        if self.little_endian {
            Endianness::Little
        } else {
            Endianness::Big
        }
    }

    /// Empties the buffer and resets the byte order to big-endian.
    pub fn clear(&mut self)
        ensures
            final(self).bytes() == Seq::<u8>::empty(),
            !final(self).little(),
    {
        self.buffer.clear();
        self.little_endian = false;
    }

    /// Selects the byte order for every following write.
    pub fn set_little_endian(&mut self, little_endian: bool)
        ensures
            final(self).bytes() == old(self).bytes(),
            final(self).little() == little_endian,
    {
        self.little_endian = little_endian;
    }

    /// The encoded byte stream.
    pub fn get_buffer(&self) -> (r: &[u8])
        ensures
            r@ == self.bytes(),
    {
        self.buffer.as_slice()
    }

    /// Writes the field header for `tag` with the given type.
    pub fn write_tag(&mut self, tag: u8, type_id: JceType)
        ensures
            final(self).bytes() == old(self).bytes() + head_bytes(tag, spec_type_code(type_id)),
            final(self).little() == old(self).little(),
    {
        let code = type_id.code();
        let ghost pre = self.buffer@;
        if tag < 15 {
            self.buffer.push(tag * 16 + code);
            proof {
                assert(self.buffer@ =~= pre + head_bytes(tag, spec_type_code(type_id)));
            }
        } else {
            self.buffer.push(240 + code);
            self.buffer.push(tag);
            proof {
                assert(self.buffer@ =~= pre + head_bytes(tag, spec_type_code(type_id)));
            }
        }
    }

    /// Writes an integer field in its narrowest representation: zero as the
    /// payload-free `ZeroTag`, anything else in the smallest of the four
    /// signed widths whose range holds it.
    pub fn write_int(&mut self, tag: u8, value: i64)
        ensures
            final(self).bytes() == old(self).bytes() + int_enc(tag, value as int, old(self).little()),
            final(self).little() == old(self).little(),
    {
        proof {
            lemma_pow256_values();
        }
        let ghost pre = self.buffer@;
        let ghost le = self.little_endian;
        if value == 0 {
            self.write_tag(tag, JceType::ZeroTag);
            proof {
                assert(self.buffer@ =~= pre + int_enc(tag, value as int, le));
            }
        } else if -128 <= value && value <= 127 {
            self.write_tag(tag, JceType::Int1);
            let u: u64 = if value >= 0 {
                value as u64
            } else {
                (value + 256) as u64
            };
            push_num(&mut self.buffer, u, 1, self.little_endian);
            proof {
                assert(self.buffer@ =~= pre + int_enc(tag, value as int, le));
            }
        } else if -32768 <= value && value <= 32767 {
            self.write_tag(tag, JceType::Int2);
            let u: u64 = if value >= 0 {
                value as u64
            } else {
                (value + 0x10000) as u64
            };
            push_num(&mut self.buffer, u, 2, self.little_endian);
            proof {
                assert(self.buffer@ =~= pre + int_enc(tag, value as int, le));
            }
        } else if -0x80000000 <= value && value <= 0x7fffffff {
            self.write_tag(tag, JceType::Int4);
            let u: u64 = if value >= 0 {
                value as u64
            } else {
                (value + 0x100000000) as u64
            };
            push_num(&mut self.buffer, u, 4, self.little_endian);
            proof {
                assert(self.buffer@ =~= pre + int_enc(tag, value as int, le));
            }
        } else {
            self.write_tag(tag, JceType::Int8);
            let u: u64 = u64_of_i64(value);
            push_num(&mut self.buffer, u, 8, self.little_endian);
            proof {
                assert(self.buffer@ =~= pre + int_enc(tag, value as int, le));
            }
        }
    }

    /// Writes a single-precision field from its IEEE-754 bit pattern.
    pub fn write_float(&mut self, tag: u8, bits: u32)
        ensures
            final(self).bytes() == old(self).bytes() + float_enc(tag, bits, old(self).little()),
            final(self).little() == old(self).little(),
    {
        proof {
            lemma_pow256_values();
        }
        let ghost pre = self.buffer@;
        self.write_tag(tag, JceType::Float);
        push_num(&mut self.buffer, bits as u64, 4, self.little_endian);
        proof {
            assert(self.buffer@ =~= pre + float_enc(tag, bits, self.little_endian));
        }
    }

    /// Writes a double-precision field from its IEEE-754 bit pattern.
    pub fn write_double(&mut self, tag: u8, bits: u64)
        ensures
            final(self).bytes() == old(self).bytes() + double_enc(tag, bits, old(self).little()),
            final(self).little() == old(self).little(),
    {
        proof {
            lemma_pow256_values();
        }
        let ghost pre = self.buffer@;
        self.write_tag(tag, JceType::Double);
        push_num(&mut self.buffer, bits, 8, self.little_endian);
        proof {
            assert(self.buffer@ =~= pre + double_enc(tag, bits, self.little_endian));
        }
    }

    /// Writes a string field from its UTF-8 bytes: a one-byte length prefix
    /// for up to 255 bytes, a four-byte one beyond that.
    pub fn write_string(&mut self, tag: u8, value: &[u8])
        requires
            value@.len() < 0x100000000,
        ensures
            final(self).bytes() == old(self).bytes() + string_enc(tag, value@, old(self).little()),
            final(self).little() == old(self).little(),
    {
        proof {
            lemma_pow256_values();
        }
        let ghost pre = self.buffer@;
        let ghost le = self.little_endian;
        let len: usize = value.len();
        if len <= 255 {
            self.write_tag(tag, JceType::String1);
            self.buffer.push(len as u8);
        } else {
            self.write_tag(tag, JceType::String4);
            push_num(&mut self.buffer, len as u64, 4, self.little_endian);
        }
        push_slice(&mut self.buffer, value);
        proof {
            assert(self.buffer@ =~= pre + string_enc(tag, value@, le));
        }
    }

    /// Writes a byte-array field: the element-type byte, the count as an
    /// integer field under tag 0, then the raw bytes.
    pub fn write_bytes(&mut self, tag: u8, value: &[u8])
        requires
            value@.len() <= 0x7fffffffffffffff,
        ensures
            final(self).bytes() == old(self).bytes() + bytes_enc(tag, value@, old(self).little()),
            final(self).little() == old(self).little(),
    {
        let ghost pre = self.buffer@;
        let ghost le = self.little_endian;
        self.write_tag(tag, JceType::SimpleList);
        self.buffer.push(0);
        self.write_int(0, value.len() as i64);
        push_slice(&mut self.buffer, value);
        proof {
            assert(self.buffer@ =~= pre + bytes_enc(tag, value@, le));
        }
    }
}

} // verus!
