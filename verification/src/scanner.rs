//! The structural scanner: answers whether a byte range is a well-formed
//! sequence of fields, without materializing any value. The generic decoder
//! uses it to probe whether an opaque byte blob is a nested struct.

use vstd::prelude::*;
use crate::endian::Endianness;
use crate::error::Error;
use crate::reader::JceReader;
use crate::types::JceType;
use crate::wire::{matches_err, validate_rest};

verus! {

/// A scanner over a borrowed byte buffer. It walks the same grammar as the
/// reader's structural skip, and allocates nothing.
pub struct JceScanner<'a> {
    inner: JceReader<'a>,
}

impl<'a> JceScanner<'a> {
    /// The whole input buffer.
    pub closed spec fn bytes(self) -> Seq<u8> {
        self.inner.bytes()
    }

    /// The current scan position.
    pub closed spec fn at(self) -> int {
        self.inner.at()
    }

    /// True when multi-byte fields are read least significant byte first.
    pub closed spec fn little(self) -> bool {
        self.inner.little()
    }

    /// The scanner is at rest: the position is inside the buffer and no
    /// structural skip is in progress.
    pub closed spec fn at_rest(self) -> bool {
        self.inner.depth_at() == 0 && self.inner.at() <= self.inner.bytes().len()
    }

    /// A scanner at the start of `bytes` with the given byte order.
    pub fn new(bytes: &'a [u8], endian: Endianness) -> (r: Self)
        ensures
            r.bytes() == bytes@,
            r.at() == 0,
            r.little() == endian.is_little(),
            r.at_rest(),
    {
        JceScanner { inner: JceReader::new(bytes, endian) }
    }

    /// True when the whole buffer has been scanned.
    pub fn is_end(&self) -> (r: bool)
        ensures
            r == (self.at() >= self.bytes().len()),
    {
        self.inner.is_end()
    }

    /// Walks one run of fields from the current position, verifying
    /// structural well-formedness, and stops after a struct end marker or at
    /// the end of the buffer. A caller probing a whole buffer checks
    /// `is_end` afterwards to rule out trailing bytes.
    #[verifier::loop_isolation(false)]
    pub fn validate_struct(&mut self) -> (r: Result<(), Error>)
        requires
            old(self).at_rest(),
        ensures
            final(self).bytes() == old(self).bytes(),
            final(self).little() == old(self).little(),
            final(self).at_rest(),
            old(self).at() <= final(self).at() <= final(self).bytes().len(),
            match validate_rest(old(self).bytes(), old(self).at(), old(self).little()) {
                Ok(p) => r is Ok && final(self).at() == p,
                Err(m) => r is Err && matches_err(r->Err_0, m),
            },
    {
        let mut done = false;
        while !done
            invariant
                self.inner.same_stream(old(self).inner),
                old(self).at() <= self.at() <= self.bytes().len(),
                !done ==> validate_rest(old(self).bytes(), old(self).at(), old(self).little())
                    == validate_rest(self.bytes(), self.at(), self.little()),
                done ==> validate_rest(old(self).bytes(), old(self).at(), old(self).little())
                    == Ok::<int, crate::wire::ErrModel>(self.at()),
            decreases self.bytes().len() - self.at() + (if done {
                0int
            } else {
                1int
            }),
        {
            if self.inner.is_end() {
                done = true;
            } else {
                let (_, t) = match self.inner.read_head() {
                    Ok(h) => h,
                    Err(e) => {
                        return Err(e);
                    },
                };
                if matches!(t, JceType::StructEnd) {
                    done = true;
                } else {
                    match self.inner.skip_field(t) {
                        Ok(()) => (),
                        Err(e) => {
                            return Err(e);
                        },
                    }
                }
            }
        }
        Ok(())
    }
}

} // verus!
