//! The incremental stream decoder: accumulates fed bytes, reassembles
//! length-prefixed packets with the framer, and decodes each complete
//! packet's body.

use vstd::prelude::*;
use crate::codec::{BytesMode, dec_struct_rest, decode_generic_struct};
use crate::endian::Endianness;
use crate::error::Error;
use crate::framing::{FrameError, JceFramer};
use crate::reader::JceReader;
use crate::schema::{CompiledSchema, FieldModel, dec_schema_fields, decode_struct};
use crate::value::{Value, ValueModel, value_view};
use crate::wire::matches_err;
use crate::writer::push_slice;

verus! {

/// Why the stream produced no packet: the framing layer rejected the frame
/// for good, or a complete frame's body failed to decode.
#[derive(Debug, PartialEq)]
pub enum StreamError {
    Frame(FrameError),
    Decode(Error),
}

/// One decoded packet: a record of named fields when the stream carries a
/// schema, a schema-less structured value otherwise.
#[derive(Debug, PartialEq)]
pub enum Packet {
    Record(Vec<(String, Value)>),
    Plain(Value),
}

/// A reader over a length-prefixed packet stream. Bytes are fed in as they
/// arrive; each complete packet is cut off the front of the accumulation
/// buffer and decoded, with or without a schema. Whether a packet whose
/// body fails to decode is drained or left in place is the caller's
/// explicit choice.
pub struct LengthPrefixedReader {
    buffer: Vec<u8>,
    framer: JceFramer,
    endian: Endianness,
    bytes_mode: BytesMode,
    schema: Option<CompiledSchema>,
    max_buffer_size: usize,
    drain_on_decode_error: bool,
}

impl LengthPrefixedReader {
    /// The bytes accumulated and not yet consumed.
    pub closed spec fn pending(self) -> Seq<u8> {
        self.buffer@
    }

    /// The frame configuration.
    pub closed spec fn config(self) -> JceFramer {
        self.framer
    }

    /// The most bytes the accumulation buffer may hold.
    pub closed spec fn capacity(self) -> usize {
        self.max_buffer_size
    }

    /// True when a well-framed packet that fails to decode is dropped from
    /// the buffer rather than left in place.
    pub closed spec fn drains_bad_packets(self) -> bool {
        self.drain_on_decode_error
    }

    /// True when packet bodies are decoded least significant byte first.
    pub closed spec fn byte_order_little(self) -> bool {
        self.endian.is_little()
    }

    /// The bytes-mode packet bodies are decoded under.
    pub closed spec fn mode(self) -> BytesMode {
        self.bytes_mode
    }

    /// The schema packet bodies are decoded under, if any.
    pub closed spec fn schema_model(self) -> Option<Seq<FieldModel>> {
        match self.schema {
            Some(s) => Some(s@),
            None => None,
        }
    }

    /// A reader for a stream framed as `framer` says, decoding packet
    /// bodies in the given byte order and bytes-mode, with `schema` when
    /// the packets are records of a known shape. The buffer never grows
    /// beyond `max_buffer_size`; `drain_on_decode_error` selects whether a
    /// well-framed packet that fails to decode is dropped from the buffer
    /// (so the stream can advance) or left in place.
    pub fn new(
        framer: JceFramer,
        endian: Endianness,
        bytes_mode: BytesMode,
        schema: Option<CompiledSchema>,
        max_buffer_size: usize,
        drain_on_decode_error: bool,
    ) -> (r: Self)
        ensures
            r.pending() == Seq::<u8>::empty(),
            r.config() == framer,
            r.capacity() == max_buffer_size,
            r.drains_bad_packets() == drain_on_decode_error,
            r.byte_order_little() == endian.is_little(),
            r.mode() == bytes_mode,
            r.schema_model() == (match schema {
                Some(s) => Some(s@),
                None => None::<Seq<FieldModel>>,
            }),
    {
        LengthPrefixedReader {
            buffer: Vec::new(),
            framer,
            endian,
            bytes_mode,
            schema,
            max_buffer_size,
            drain_on_decode_error,
        }
    }

    /// Appends arriving bytes to the accumulation buffer; refuses to grow
    /// past the configured maximum.
    pub fn feed(&mut self, data: &[u8]) -> (r: Result<(), Error>)
        ensures
            final(self).config() == old(self).config(),
            r is Ok <==> old(self).pending().len() + data@.len() <= old(
                self,
            ).capacity() as int,
            r is Ok ==> final(self).pending() == old(self).pending() + data@,
            r is Err ==> final(self).pending() == old(self).pending() && (r->Err_0 matches
                Error::Custom { offset, msg } && offset == old(self).pending().len()),
    {
        proof {
            vstd::slice::axiom_spec_len::<u8>(data);
        }
        let dlen: usize = data.len();
        let blen: usize = self.buffer.len();
        if dlen > self.max_buffer_size || blen > self.max_buffer_size - dlen {
            return Err(Error::new(blen, "the stream buffer would exceed its maximum size"));
        }
        push_slice(&mut self.buffer, data);
        Ok(())
    }

    /// Tries to cut one complete packet off the front of the buffer and
    /// decode its body: `Ok(None)` while more data is needed, `Ok(Some(p))`
    /// for a decoded packet (whose bytes are then drained), and an error
    /// for a hopeless frame or a body that would not decode (drained only
    /// when the reader was built to do so).
    pub fn next(&mut self) -> (r: Result<Option<Packet>, StreamError>)
        requires
            old(self).config().length_type == 1 || old(self).config().length_type == 2 || old(
                self,
            ).config().length_type == 4,
        ensures
            final(self).config() == old(self).config(),
            old(self).config().spec_check_frame(old(self).pending()) is Err ==> r is Err
                && final(self).pending() == old(self).pending(),
            old(self).config().spec_check_frame(old(self).pending()) matches Ok(None) ==> r == Ok::<
                Option<Packet>,
                StreamError,
            >(None) && final(self).pending() == old(self).pending(),
            old(self).config().spec_check_frame(old(self).pending()) matches Ok(Some(n)) ==> ({
                let body = old(self).pending().subrange(
                    old(self).config().length_type as int,
                    n,
                );
                let le = old(self).byte_order_little();
                &&& (match old(self).schema_model() {
                    Some(sv) => {
                        let walk = dec_schema_fields(
                            body,
                            0,
                            sv,
                            le,
                            0,
                            Seq::new(sv.len(), |i: int| None::<ValueModel>),
                        );
                        match walk {
                            Ok((slots, p)) => r is Ok && r->Ok_0 is Some && r->Ok_0->0 is Record
                                && ({
                                let fields = r->Ok_0->0->Record_0;
                                &&& fields@.len() == sv.len()
                                &&& forall|i: int|
                                    0 <= i < sv.len() ==> (#[trigger] fields@[i]).0@
                                        == sv[i].name && value_view(fields@[i].1) == (
                                    match slots[i] {
                                        Some(vm) => vm,
                                        None => sv[i].default,
                                    })
                            }),
                            Err(m) => r is Err && r->Err_0 is Decode && matches_err(
                                r->Err_0->Decode_0,
                                m,
                            ),
                        }
                    },
                    None => {
                        match dec_struct_rest(body, 0, le, old(self).mode(), 0, Seq::empty()) {
                            Ok((fs, p)) => r is Ok && r->Ok_0 is Some && r->Ok_0->0 is Plain
                                && value_view(r->Ok_0->0->Plain_0) == ValueModel::Struct(fs),
                            Err(m) => r is Err && r->Err_0 is Decode && matches_err(
                                r->Err_0->Decode_0,
                                m,
                            ),
                        }
                    },
                })
                &&& (r is Ok ==> final(self).pending() == old(self).pending().skip(n))
                &&& (r is Err ==> final(self).pending() == (if old(self).drains_bad_packets() {
                    old(self).pending().skip(n)
                } else {
                    old(self).pending()
                }))
            }),
    {
        let n = match self.framer.check_frame(self.buffer.as_slice()) {
            Ok(Some(n)) => n,
            Ok(None) => {
                return Ok(None);
            },
            Err(e) => {
                return Err(StreamError::Frame(e));
            },
        };
        let header_len: usize = self.framer.length_type as usize;
        let body = vstd::slice::slice_subrange(self.buffer.as_slice(), header_len, n);
        let mut rd = JceReader::new(body, self.endian);
        let outcome: Result<Packet, Error> = match &self.schema {
            Some(schema) => {
                match decode_struct(&mut rd, schema, 0) {
                    Ok(fields) => Ok(Packet::Record(fields)),
                    Err(e) => Err(e),
                }
            },
            None => {
                match decode_generic_struct(&mut rd, self.bytes_mode, 0) {
                    Ok(fields) => Ok(Packet::Plain(Value::Struct(fields))),
                    Err(e) => Err(e),
                }
            },
        };
        match outcome {
            Ok(p) => {
                let rest = self.buffer.split_off(n);
                self.buffer = rest;
                Ok(Some(p))
            },
            Err(e) => {
                if self.drain_on_decode_error {
                    let rest = self.buffer.split_off(n);
                    self.buffer = rest;
                }
                Err(StreamError::Decode(e))
            },
        }
    }
}

} // verus!
