//! The decoder's cursor: reads headers, primitive values and raw byte runs
//! from a borrowed buffer, and skips whole fields structurally.

use vstd::prelude::*;
use vstd::slice::slice_subrange;
use vstd::utf8::valid_utf8;
use crate::endian::Endianness;
use crate::error::Error;
use crate::nums::{i64_of_u64, lemma_be_val_bound, lemma_le_val_bound, num_val, read_num};
use crate::types::JceType;
use crate::utf8::is_valid_utf8;
use crate::wire::{
    MAX_DEPTH, head_err, lemma_pow256_values, matches_err, parse_int, parse_size, parse_string,
    skip_body, skip_field_at, skip_fields_n, skip_fixed, skip_struct_rest, spec_head,
};

verus! {

broadcast use vstd::slice::group_slice_axioms;

/// A reader over a borrowed byte buffer: a position, a recursion-depth
/// counter for structural skips, and the byte order of the stream.
pub struct JceReader<'a> {
    data: &'a [u8],
    pos: usize,
    depth: usize,
    little: bool,
}

impl<'a> JceReader<'a> {
    /// The whole input buffer.
    pub closed spec fn bytes(self) -> Seq<u8> {
        self.data@
    }

    /// The current read position.
    pub closed spec fn at(self) -> int {
        self.pos as int
    }

    /// True when multi-byte fields are read least significant byte first.
    pub closed spec fn little(self) -> bool {
        self.little
    }

    /// The current nesting depth of structural skips.
    pub closed spec fn depth_at(self) -> nat {
        self.depth as nat
    }

    /// The position is a machine offset that never runs past the end of
    /// the buffer.
    #[verifier::type_invariant]
    pub open spec fn inv(self) -> bool {
        0 <= self.at() <= self.bytes().len() <= usize::MAX
    }

    /// True when `self` reads the same buffer in the same byte order and at
    /// the same skip depth as `prior`: everything but the position.
    pub open spec fn same_stream(self, prior: JceReader<'a>) -> bool {
        &&& self.bytes() == prior.bytes()
        &&& self.little() == prior.little()
        &&& self.depth_at() == prior.depth_at()
    }

    /// A reader at the start of `bytes` with the given byte order.
    pub fn new(bytes: &'a [u8], endian: Endianness) -> (r: Self)
        ensures
            r.bytes() == bytes@,
            r.at() == 0,
            r.little() == endian.is_little(),
            r.depth_at() == 0,
    {
        proof {
            vstd::slice::axiom_spec_len::<u8>(bytes);
        }
        JceReader { data: bytes, pos: 0, depth: 0, little: endian.is_little() }
    }

    /// The byte order of the stream.
    pub fn endianness(&self) -> (r: Endianness)
        ensures
            r.is_little() == self.little(),
    {
        if self.little {
            Endianness::Little
        } else {
            Endianness::Big
        }
    }

    /// The current offset into the buffer.
    pub fn position(&self) -> (r: usize)
        ensures
            r == self.at(),
    {
        self.pos
    }

    /// True when the whole buffer has been consumed.
    pub fn is_end(&self) -> (r: bool)
        ensures
            r == (self.at() >= self.bytes().len()),
    {
        self.pos >= self.data.len()
    }

    /// Reads a field header: the tag and the wire type. A truncated header is
    /// an overflow error at the missing byte; an unknown type code an
    /// invalid-type error at the header byte.
    pub fn read_head(&mut self) -> (r: Result<(u8, JceType), Error>)
        ensures
            final(self).same_stream(*old(self)),
            old(self).at() <= final(self).at() <= final(self).bytes().len(),
            match spec_head(old(self).bytes(), old(self).at()) {
                Some((tag, t, p)) => r == Ok::<(u8, JceType), Error>((tag, t)) && final(self).at()
                    == p,
                None => r is Err && matches_err(r->Err_0, head_err(old(self).bytes(), old(
                    self,
                ).at())) && final(self).at() == old(self).at(),
            },
    {
        proof {
            use_type_invariant(&*self);
        }
        let n: usize = self.data.len();
        if self.pos >= n {
            return Err(Error::BufferOverflow { offset: self.pos });
        }
        let b = self.data[self.pos];
        let code = b % 16;
        if b / 16 == 15 {
            if self.pos + 1 >= n {
                return Err(Error::BufferOverflow { offset: self.pos + 1 });
            }
            let tag = self.data[self.pos + 1];
            match JceType::from_code(code) {
                None => Err(Error::InvalidType { offset: self.pos, type_id: code }),
                Some(t) => {
                    self.pos = self.pos + 2;
                    Ok((tag, t))
                },
            }
        } else {
            match JceType::from_code(code) {
                None => Err(Error::InvalidType { offset: self.pos, type_id: code }),
                Some(t) => {
                    self.pos = self.pos + 1;
                    Ok((b / 16, t))
                },
            }
        }
    }

    /// Reads a field header without moving the position.
    pub fn peek_head(&mut self) -> (r: Result<(u8, JceType), Error>)
        ensures
            final(self).same_stream(*old(self)),
            final(self).at() == old(self).at(),
            match spec_head(old(self).bytes(), old(self).at()) {
                Some((tag, t, p)) => r == Ok::<(u8, JceType), Error>((tag, t)),
                None => r is Err && matches_err(r->Err_0, head_err(old(self).bytes(), old(
                    self,
                ).at())),
            },
    {
        proof {
            use_type_invariant(&*self);
        }
        let p = self.pos;
        let r = self.read_head();
        self.pos = p;
        r
    }

    /// Reads one byte.
    pub fn read_u8(&mut self) -> (r: Result<u8, Error>)
        ensures
            final(self).same_stream(*old(self)),
            old(self).at() <= final(self).at() <= final(self).bytes().len(),
            old(self).at() < old(self).bytes().len() ==> r == Ok::<u8, Error>(old(self).bytes()[old(
                self,
            ).at()]) && final(self).at() == old(self).at() + 1,
            old(self).at() >= old(self).bytes().len() ==> r == Err::<u8, Error>(
                Error::BufferOverflow { offset: old(self).at() as usize },
            ) && final(self).at() == old(self).at(),
    {
        proof {
            use_type_invariant(&*self);
        }
        let n: usize = self.data.len();
        if self.pos >= n {
            return Err(Error::BufferOverflow { offset: self.pos });
        }
        let b = self.data[self.pos];
        self.pos = self.pos + 1;
        Ok(b)
    }

    /// Reads an integer payload of the given wire type: `ZeroTag` consumes
    /// nothing and yields zero; a non-integer type is a contextual error at
    /// the current offset.
    pub fn read_int(&mut self, type_id: JceType) -> (r: Result<i64, Error>)
        ensures
            final(self).same_stream(*old(self)),
            old(self).at() <= final(self).at() <= final(self).bytes().len(),
            match parse_int(old(self).bytes(), old(self).at(), type_id, old(self).little()) {
                Ok((v, p)) => r is Ok && r->Ok_0 as int == v && final(self).at() == p,
                Err(m) => r is Err && matches_err(r->Err_0, m) && final(self).at() == old(
                    self,
                ).at(),
            },
    {
        proof {
            use_type_invariant(&*self);
            lemma_pow256_values();
        }
        let n: usize = self.data.len();
        match type_id {
            JceType::ZeroTag => Ok(0),
            JceType::Int1 => {
                if n - self.pos < 1 {
                    return Err(Error::BufferOverflow { offset: self.pos });
                }
                let u = read_num(self.data, self.pos, 1, self.little);
                proof {
                    if self.little {
                        lemma_le_val_bound(self.data@.subrange(self.pos as int, self.pos + 1));
                    } else {
                        lemma_be_val_bound(self.data@.subrange(self.pos as int, self.pos + 1));
                    }
                }
                self.pos = self.pos + 1;
                if u < 0x80 {
                    Ok(u as i64)
                } else {
                    Ok((u as i64) - 0x100)
                }
            },
            JceType::Int2 => {
                if n - self.pos < 2 {
                    return Err(Error::BufferOverflow { offset: self.pos });
                }
                let u = read_num(self.data, self.pos, 2, self.little);
                proof {
                    if self.little {
                        lemma_le_val_bound(self.data@.subrange(self.pos as int, self.pos + 2));
                    } else {
                        lemma_be_val_bound(self.data@.subrange(self.pos as int, self.pos + 2));
                    }
                }
                self.pos = self.pos + 2;
                if u < 0x8000 {
                    Ok(u as i64)
                } else {
                    Ok((u as i64) - 0x10000)
                }
            },
            JceType::Int4 => {
                if n - self.pos < 4 {
                    return Err(Error::BufferOverflow { offset: self.pos });
                }
                let u = read_num(self.data, self.pos, 4, self.little);
                proof {
                    if self.little {
                        lemma_le_val_bound(self.data@.subrange(self.pos as int, self.pos + 4));
                    } else {
                        lemma_be_val_bound(self.data@.subrange(self.pos as int, self.pos + 4));
                    }
                }
                self.pos = self.pos + 4;
                if u < 0x80000000 {
                    Ok(u as i64)
                } else {
                    Ok((u as i64) - 0x100000000)
                }
            },
            JceType::Int8 => {
                if n - self.pos < 8 {
                    return Err(Error::BufferOverflow { offset: self.pos });
                }
                let u = read_num(self.data, self.pos, 8, self.little);
                proof {
                    if self.little {
                        lemma_le_val_bound(self.data@.subrange(self.pos as int, self.pos + 8));
                    } else {
                        lemma_be_val_bound(self.data@.subrange(self.pos as int, self.pos + 8));
                    }
                }
                self.pos = self.pos + 8;
                Ok(i64_of_u64(u))
            },
            _ => Err(Error::new(self.pos, "cannot read an integer from this wire type")),
        }
    }

    /// Reads a single-precision payload as its IEEE-754 bit pattern.
    pub fn read_float(&mut self) -> (r: Result<u32, Error>)
        ensures
            final(self).same_stream(*old(self)),
            old(self).at() <= final(self).at() <= final(self).bytes().len(),
            old(self).at() + 4 <= old(self).bytes().len() ==> r is Ok && r->Ok_0 as nat == num_val(
                old(self).bytes().subrange(old(self).at(), old(self).at() + 4),
                old(self).little(),
            ) && final(self).at() == old(self).at() + 4,
            old(self).at() + 4 > old(self).bytes().len() ==> r == Err::<u32, Error>(
                Error::BufferOverflow { offset: old(self).at() as usize },
            ) && final(self).at() == old(self).at(),
    {
        proof {
            use_type_invariant(&*self);
            lemma_pow256_values();
        }
        let n: usize = self.data.len();
        if n - self.pos < 4 {
            return Err(Error::BufferOverflow { offset: self.pos });
        }
        let u = read_num(self.data, self.pos, 4, self.little);
        proof {
            if self.little {
                lemma_le_val_bound(self.data@.subrange(self.pos as int, self.pos + 4));
            } else {
                lemma_be_val_bound(self.data@.subrange(self.pos as int, self.pos + 4));
            }
        }
        self.pos = self.pos + 4;
        Ok(u as u32)
    }

    /// Reads a double-precision payload as its IEEE-754 bit pattern.
    pub fn read_double(&mut self) -> (r: Result<u64, Error>)
        ensures
            final(self).same_stream(*old(self)),
            old(self).at() <= final(self).at() <= final(self).bytes().len(),
            old(self).at() + 8 <= old(self).bytes().len() ==> r is Ok && r->Ok_0 as nat == num_val(
                old(self).bytes().subrange(old(self).at(), old(self).at() + 8),
                old(self).little(),
            ) && final(self).at() == old(self).at() + 8,
            old(self).at() + 8 > old(self).bytes().len() ==> r == Err::<u64, Error>(
                Error::BufferOverflow { offset: old(self).at() as usize },
            ) && final(self).at() == old(self).at(),
    {
        proof {
            use_type_invariant(&*self);
        }
        let n: usize = self.data.len();
        if n - self.pos < 8 {
            return Err(Error::BufferOverflow { offset: self.pos });
        }
        let u = read_num(self.data, self.pos, 8, self.little);
        self.pos = self.pos + 8;
        Ok(u)
    }

    /// Reads a raw run of `len` bytes as a borrowed slice.
    pub fn read_bytes(&mut self, len: usize) -> (r: Result<&'a [u8], Error>)
        ensures
            final(self).same_stream(*old(self)),
            old(self).at() <= final(self).at() <= final(self).bytes().len(),
            old(self).at() + len <= old(self).bytes().len() ==> r is Ok && r->Ok_0@ == old(
                self,
            ).bytes().subrange(old(self).at(), old(self).at() + len) && final(self).at() == old(
                self,
            ).at() + len,
            old(self).at() + len > old(self).bytes().len() ==> r is Err && r->Err_0
                == (Error::BufferOverflow { offset: old(self).at() as usize }) && final(self).at()
                == old(self).at(),
    {
        proof {
            use_type_invariant(&*self);
        }
        let n: usize = self.data.len();
        if n - self.pos < len {
            return Err(Error::BufferOverflow { offset: self.pos });
        }
        let s = slice_subrange(self.data, self.pos, self.pos + len);
        self.pos = self.pos + len;
        Ok(s)
    }

    /// Reads a string payload of the given string type: the length prefix,
    /// then that many bytes, validated as UTF-8. Invalid UTF-8 is a
    /// contextual error at the start of the string bytes, as is a
    /// non-string wire type at the current offset.
    pub fn read_string(&mut self, type_id: JceType) -> (r: Result<&'a [u8], Error>)
        ensures
            final(self).same_stream(*old(self)),
            old(self).at() <= final(self).at() <= final(self).bytes().len(),
            match parse_string(old(self).bytes(), old(self).at(), type_id, old(self).little()) {
                Ok((s, p)) => r is Ok && r->Ok_0@ == s && final(self).at() == p && valid_utf8(s),
                Err(m) => r is Err && matches_err(r->Err_0, m) && final(self).at() == old(
                    self,
                ).at(),
            },
    {
        proof {
            use_type_invariant(&*self);
            lemma_pow256_values();
        }
        let n: usize = self.data.len();
        let len: usize;
        let start: usize;
        match type_id {
            JceType::String1 => {
                if n - self.pos < 1 {
                    return Err(Error::BufferOverflow { offset: self.pos });
                }
                len = self.data[self.pos] as usize;
                start = self.pos + 1;
            },
            JceType::String4 => {
                if n - self.pos < 4 {
                    return Err(Error::BufferOverflow { offset: self.pos });
                }
                let u = read_num(self.data, self.pos, 4, self.little);
                proof {
                    if self.little {
                        lemma_le_val_bound(self.data@.subrange(self.pos as int, self.pos + 4));
                    } else {
                        lemma_be_val_bound(self.data@.subrange(self.pos as int, self.pos + 4));
                    }
                }
                start = self.pos + 4;
                if u > (n - start) as u64 {
                    return Err(Error::BufferOverflow { offset: start });
                }
                len = u as usize;
            },
            _ => {
                return Err(Error::new(self.pos, "cannot read a string from this wire type"));
            },
        }
        if n - start < len {
            return Err(Error::BufferOverflow { offset: start });
        }
        let s = slice_subrange(self.data, start, start + len);
        if !is_valid_utf8(s) {
            return Err(Error::new(start, "the string bytes are not valid UTF-8"));
        }
        self.pos = start + len;
        Ok(s)
    }

    /// Reads a container size: a whole integer field under any tag,
    /// truncated to 32 bits.
    pub fn read_size(&mut self) -> (r: Result<i32, Error>)
        ensures
            final(self).same_stream(*old(self)),
            old(self).at() <= final(self).at() <= final(self).bytes().len(),
            match parse_size(old(self).bytes(), old(self).at(), old(self).little()) {
                Ok((v, p)) => r is Ok && r->Ok_0 as int == v && final(self).at() == p,
                Err(m) => r is Err && matches_err(r->Err_0, m),
            },
    {
        let (_, t) = match self.read_head() {
            Ok(h) => h,
            Err(e) => {
                return Err(e);
            },
        };
        match self.read_int(t) {
            Ok(v) => Ok(crate::nums::i32_of_i64(v)),
            Err(e) => Err(e),
        }
    }

    /// Skips `len` raw bytes.
    fn skip(&mut self, len: u64) -> (r: Result<(), Error>)
        ensures
            final(self).same_stream(*old(self)),
            old(self).at() <= final(self).at() <= final(self).bytes().len(),
            match skip_fixed(old(self).bytes(), old(self).at(), len as int) {
                Ok(p) => r is Ok && final(self).at() == p,
                Err(m) => r is Err && matches_err(r->Err_0, m) && final(self).at() == old(
                    self,
                ).at(),
            },
    {
        proof {
            use_type_invariant(&*self);
        }
        let n: usize = self.data.len();
        let rem: usize = n - self.pos;
        if len > rem as u64 {
            return Err(Error::BufferOverflow { offset: self.pos });
        }
        self.pos = self.pos + (len as usize);
        Ok(())
    }

    /// Structurally skips one field of the given type, recursing into
    /// containers and nested structs; recursing past the depth cap fails
    /// with the depth error rather than overflowing the call stack.
    pub fn skip_field(&mut self, type_id: JceType) -> (r: Result<(), Error>)
        ensures
            final(self).same_stream(*old(self)),
            old(self).at() <= final(self).at() <= final(self).bytes().len(),
            match skip_field_at(
                old(self).bytes(),
                old(self).at(),
                type_id,
                old(self).little(),
                old(self).depth_at(),
            ) {
                Ok(p) => r is Ok && final(self).at() == p,
                Err(m) => r is Err && matches_err(r->Err_0, m),
            },
        decreases self.bytes().len() - self.at(), 3int, 0int,
    {
        proof {
            use_type_invariant(&*self);
        }
        if self.depth > MAX_DEPTH {
            return Err(Error::DepthExceeded);
        }
        self.depth = self.depth + 1;
        let r = self.do_skip_field(type_id);
        self.depth = self.depth - 1;
        r
    }

    /// The skip of one field's payload, dispatched on its wire type.
    fn do_skip_field(&mut self, type_id: JceType) -> (r: Result<(), Error>)
        ensures
            final(self).same_stream(*old(self)),
            old(self).at() <= final(self).at() <= final(self).bytes().len(),
            match skip_body(
                old(self).bytes(),
                old(self).at(),
                type_id,
                old(self).little(),
                old(self).depth_at(),
            ) {
                Ok(p) => r is Ok && final(self).at() == p,
                Err(m) => r is Err && matches_err(r->Err_0, m),
            },
        decreases self.bytes().len() - self.at(), 2int, 0int,
    {
        proof {
            use_type_invariant(&*self);
        }
        match type_id {
            JceType::Int1 => self.skip(1),
            JceType::Int2 => self.skip(2),
            JceType::Int4 => self.skip(4),
            JceType::Int8 => self.skip(8),
            JceType::Float => self.skip(4),
            JceType::Double => self.skip(8),
            JceType::String1 => {
                match self.read_u8() {
                    Ok(l) => self.skip(l as u64),
                    Err(e) => Err(e),
                }
            },
            JceType::String4 => {
                let n: usize = self.data.len();
                if n - self.pos < 4 {
                    return Err(Error::BufferOverflow { offset: self.pos });
                }
                let u = read_num(self.data, self.pos, 4, self.little);
                proof {
                    lemma_pow256_values();
                    if self.little {
                        lemma_le_val_bound(self.data@.subrange(self.pos as int, self.pos + 4));
                    } else {
                        lemma_be_val_bound(self.data@.subrange(self.pos as int, self.pos + 4));
                    }
                }
                self.pos = self.pos + 4;
                self.skip(u)
            },
            JceType::Mapping => {
                let sz = match self.read_size() {
                    Ok(v) => v,
                    Err(e) => {
                        return Err(e);
                    },
                };
                let total: u64 = if sz > 0 {
                    2 * (sz as u64)
                } else {
                    0
                };
                self.skip_n_fields(total)
            },
            JceType::List => {
                let sz = match self.read_size() {
                    Ok(v) => v,
                    Err(e) => {
                        return Err(e);
                    },
                };
                let total: u64 = if sz > 0 {
                    sz as u64
                } else {
                    0
                };
                self.skip_n_fields(total)
            },
            JceType::SimpleList => {
                let elem = match self.read_u8() {
                    Ok(b) => b,
                    Err(e) => {
                        return Err(e);
                    },
                };
                if elem != 0 {
                    return Err(
                        Error::new(self.pos, "a byte array must declare byte elements"),
                    );
                }
                let sz = match self.read_size() {
                    Ok(v) => v,
                    Err(e) => {
                        return Err(e);
                    },
                };
                if sz < 0 {
                    return Err(Error::BufferOverflow { offset: self.pos });
                }
                self.skip(sz as u64)
            },
            JceType::StructBegin => self.skip_struct_fields(),
            JceType::StructEnd => Ok(()),
            JceType::ZeroTag => Ok(()),
        }
    }

    /// Skips the fields of a nested struct up to and including its end
    /// marker.
    #[verifier::loop_isolation(false)]
    fn skip_struct_fields(&mut self) -> (r: Result<(), Error>)
        ensures
            final(self).same_stream(*old(self)),
            old(self).at() <= final(self).at() <= final(self).bytes().len(),
            match skip_struct_rest(
                old(self).bytes(),
                old(self).at(),
                old(self).little(),
                old(self).depth_at(),
            ) {
                Ok(p) => r is Ok && final(self).at() == p,
                Err(m) => r is Err && matches_err(r->Err_0, m),
            },
        decreases self.bytes().len() - self.at(), 1int, 0int,
    {
        proof {
            use_type_invariant(&*self);
        }
        let ghost entry = *self;
        let mut done = false;
        while !done
            invariant
                self.same_stream(entry),
                entry.at() <= self.at() <= self.bytes().len(),
                !done ==> skip_struct_rest(entry.bytes(), entry.at(), entry.little(), entry.depth_at())
                    == skip_struct_rest(self.bytes(), self.at(), self.little(), self.depth_at()),
                done ==> skip_struct_rest(entry.bytes(), entry.at(), entry.little(), entry.depth_at())
                    == Ok::<int, crate::wire::ErrModel>(self.at()),
            decreases self.bytes().len() - self.at(),
        {
            let ghost cur = *self;
            let (_, t) = match self.read_head() {
                Ok(h) => h,
                Err(e) => {
                    return Err(e);
                },
            };
            if matches!(t, JceType::StructEnd) {
                done = true;
            } else {
                match self.skip_field(t) {
                    Ok(()) => (),
                    Err(e) => {
                        return Err(e);
                    },
                }
            }
        }
        Ok(())
    }

    /// Skips `total` whole fields, header and payload each.
    #[verifier::loop_isolation(false)]
    fn skip_n_fields(&mut self, total: u64) -> (r: Result<(), Error>)
        ensures
            final(self).same_stream(*old(self)),
            old(self).at() <= final(self).at() <= final(self).bytes().len(),
            match skip_fields_n(
                old(self).bytes(),
                old(self).at(),
                total as nat,
                old(self).little(),
                old(self).depth_at(),
            ) {
                Ok(p) => r is Ok && final(self).at() == p,
                Err(m) => r is Err && matches_err(r->Err_0, m),
            },
        decreases self.bytes().len() - self.at(), 0int, 0int,
    {
        proof {
            use_type_invariant(&*self);
        }
        let ghost entry = *self;
        let mut k: u64 = 0;
        while k < total
            invariant
                k <= total,
                self.same_stream(entry),
                entry.at() <= self.at() <= self.bytes().len(),
                k > 0 ==> entry.at() < self.at(),
                skip_fields_n(entry.bytes(), entry.at(), total as nat, entry.little(), entry.depth_at())
                    == skip_fields_n(
                    self.bytes(),
                    self.at(),
                    (total - k) as nat,
                    self.little(),
                    self.depth_at(),
                ),
            decreases total - k,
        {
            let ghost cur = *self;
            let (_, t) = match self.read_head() {
                Ok(h) => h,
                Err(e) => {
                    return Err(e);
                },
            };
            match self.skip_field(t) {
                Ok(()) => (),
                Err(e) => {
                    return Err(e);
                },
            }
            k = k + 1;
        }
        Ok(())
    }
}

} // verus!
