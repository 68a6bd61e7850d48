//! The incremental frame decoder: given an accumulation buffer, decides
//! whether a whole length-prefixed packet has arrived.

use vstd::prelude::*;
use crate::nums::{lemma_be_val_bound, lemma_le_val_bound, num_val, pow256, read_num};
use crate::wire::lemma_pow256_values;

verus! {

/// A framing error: the packet can never become valid, however much more
/// data arrives.
#[derive(Debug, Clone, Copy, PartialEq, Eq, Structural)]
pub enum FrameError {
    /// An inclusive length smaller than the length field itself.
    InvalidLength(usize, usize),
    /// A packet larger than the configured maximum.
    FrameTooLarge(usize, usize),
}

/// The frame configuration: the width of the length field in bytes, whether
/// the length counts the field itself, its byte order, and the largest
/// packet accepted. Immutable once constructed.
#[derive(Debug, Clone, Copy)]
pub struct JceFramer {
    pub length_type: u8,
    pub inclusive_length: bool,
    pub little_endian: bool,
    pub max_frame_size: usize,
}

impl JceFramer {
    /// The length value carried by the first `length_type` bytes of the
    /// buffer.
    pub open spec fn spec_length(self, buffer: Seq<u8>) -> nat {
        num_val(buffer.subrange(0, self.length_type as int), self.little_endian)
    }

    /// The whole packet size the buffer's length field announces.
    pub open spec fn spec_packet_size(self, buffer: Seq<u8>) -> int {
        if self.inclusive_length {
            self.spec_length(buffer) as int
        } else {
            self.spec_length(buffer) + self.length_type as int
        }
    }

    /// What `check_frame` decides on a buffer: too few bytes for the length
    /// field or for the whole packet is "awaiting"; an inclusive length
    /// smaller than the field itself, or a packet over the maximum, is a
    /// fatal framing error; otherwise the packet is ready with its size.
    pub open spec fn spec_check_frame(self, buffer: Seq<u8>) -> Result<Option<int>, FrameError> {
        let hl = self.length_type as int;
        if buffer.len() < hl {
            Ok(None)
        } else {
            let ps = self.spec_packet_size(buffer);
            if self.inclusive_length && ps < hl {
                Err(FrameError::InvalidLength(ps as usize, hl as usize))
            } else if ps > self.max_frame_size {
                Err(FrameError::FrameTooLarge(ps as usize, self.max_frame_size))
            } else if buffer.len() < ps {
                Ok(None)
            } else {
                Ok(Some(ps))
            }
        }
    }

    /// A framer for packets whose length field is `length_type` bytes wide
    /// (one, two or four).
    pub fn new(
        length_type: u8,
        inclusive_length: bool,
        little_endian: bool,
        max_frame_size: usize,
    ) -> (r: Self)
        requires
            length_type == 1 || length_type == 2 || length_type == 4,
        ensures
            r.length_type == length_type,
            r.inclusive_length == inclusive_length,
            r.little_endian == little_endian,
            r.max_frame_size == max_frame_size,
    {
        JceFramer { length_type, inclusive_length, little_endian, max_frame_size }
    }

    /// Decides whether the buffer holds a complete frame: `Ok(None)` while
    /// more data is needed, `Ok(Some(n))` when the first `n` bytes form a
    /// whole packet, and an error for a frame that can never become valid.
    pub fn check_frame(&self, buffer: &[u8]) -> (r: Result<Option<usize>, FrameError>)
        requires
            self.length_type == 1 || self.length_type == 2 || self.length_type == 4,
        ensures
            match self.spec_check_frame(buffer@) {
                Ok(Some(p)) => r is Ok && r->Ok_0 is Some && r->Ok_0->0 == p,
                Ok(None) => r == Ok::<Option<usize>, FrameError>(None),
                Err(e) => r == Err::<Option<usize>, FrameError>(e),
            },
    {
        let header_len: usize = self.length_type as usize;
        let n: usize = buffer.len();
        if n < header_len {
            return Ok(None);
        }
        let length_val: u64 = read_num(buffer, 0, header_len, self.little_endian);
        proof {
            lemma_pow256_values();
            if self.little_endian {
                lemma_le_val_bound(buffer@.subrange(0, header_len as int));
            } else {
                lemma_be_val_bound(buffer@.subrange(0, header_len as int));
            }
        }
        let packet_size: u64 = if self.inclusive_length {
            length_val
        } else {
            length_val + header_len as u64
        };
        if self.inclusive_length && packet_size < header_len as u64 {
            return Err(FrameError::InvalidLength(packet_size as usize, header_len));
        }
        if packet_size > self.max_frame_size as u64 {
            return Err(FrameError::FrameTooLarge(packet_size as usize, self.max_frame_size));
        }
        if (n as u64) < packet_size {
            Ok(None)
        } else {
            Ok(Some(packet_size as usize))
        }
    }
}

} // verus!
