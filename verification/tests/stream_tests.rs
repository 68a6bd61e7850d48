use jce_core::codec::BytesMode;
use jce_core::endian::Endianness;
use jce_core::framing::JceFramer;
use jce_core::stream::{LengthPrefixedReader, Packet, StreamError};
use jce_core::value::Value;
use jce_core::writer::JceWriter;

fn framed_packet(body: &[u8]) -> Vec<u8> {
    // length_field_width 4, inclusive, big-endian
    let total = (body.len() + 4) as u32;
    let mut out = total.to_be_bytes().to_vec();
    out.extend_from_slice(body);
    out
}

#[test]
fn test_stream_two_packets() {
    let framer = JceFramer::new(4, true, false, 1024);
    let mut stream = LengthPrefixedReader::new(
        framer,
        Endianness::Big,
        BytesMode::Auto,
        None,
        4096,
        false,
    );

    let mut w = JceWriter::new();
    w.write_int(0, 11);
    let p1 = framed_packet(w.get_buffer());
    let mut w = JceWriter::new();
    w.write_string(1, b"hi");
    let p2 = framed_packet(w.get_buffer());

    // Feed the first packet in two halves: the stream must wait, then yield.
    stream.feed(&p1[..3]).unwrap();
    assert_eq!(stream.next(), Ok(None));
    stream.feed(&p1[3..]).unwrap();
    stream.feed(&p2).unwrap();

    match stream.next() {
        Ok(Some(Packet::Plain(v))) => {
            assert_eq!(v, Value::Struct(vec![(0, Value::Int(11))]));
        },
        r => panic!("expected the first packet, got {:?}", r),
    }
    match stream.next() {
        Ok(Some(Packet::Plain(v))) => {
            assert_eq!(v, Value::Struct(vec![(1, Value::Text(b"hi".to_vec()))]));
        },
        r => panic!("expected the second packet, got {:?}", r),
    }
    assert_eq!(stream.next(), Ok(None));
}

#[test]
fn test_stream_frame_error() {
    let framer = JceFramer::new(4, true, false, 16);
    let mut stream = LengthPrefixedReader::new(
        framer,
        Endianness::Big,
        BytesMode::Auto,
        None,
        4096,
        false,
    );
    stream.feed(&[0x00, 0x00, 0x01, 0x00]).unwrap();
    match stream.next() {
        Err(StreamError::Frame(_)) => (),
        r => panic!("expected a framing error, got {:?}", r),
    }
}

#[test]
fn test_stream_decode_error_keeps_buffer() {
    let framer = JceFramer::new(4, true, false, 1024);
    let mut stream = LengthPrefixedReader::new(
        framer,
        Endianness::Big,
        BytesMode::Auto,
        None,
        4096,
        false,
    );
    // A complete frame whose body is a truncated field.
    stream.feed(&framed_packet(b"\x10")).unwrap();
    match stream.next() {
        Err(StreamError::Decode(_)) => (),
        r => panic!("expected a decode error, got {:?}", r),
    }
    // The reader was built to leave the bad packet in place: the same error
    // comes again.
    match stream.next() {
        Err(StreamError::Decode(_)) => (),
        r => panic!("expected the same decode error, got {:?}", r),
    }
}

#[test]
fn test_stream_decode_error_drained() {
    let framer = JceFramer::new(4, true, false, 1024);
    let mut stream = LengthPrefixedReader::new(
        framer,
        Endianness::Big,
        BytesMode::Auto,
        None,
        4096,
        true,
    );
    stream.feed(&framed_packet(b"\x10")).unwrap();
    let mut w = JceWriter::new();
    w.write_int(0, 9);
    stream.feed(&framed_packet(w.get_buffer())).unwrap();
    assert!(matches!(stream.next(), Err(StreamError::Decode(_))));
    // The bad packet was drained: the next packet decodes.
    match stream.next() {
        Ok(Some(Packet::Plain(v))) => {
            assert_eq!(v, Value::Struct(vec![(0, Value::Int(9))]));
        },
        r => panic!("expected the good packet, got {:?}", r),
    }
}

#[test]
fn test_stream_feed_limit() {
    let framer = JceFramer::new(4, true, false, 1024);
    let mut stream = LengthPrefixedReader::new(
        framer,
        Endianness::Big,
        BytesMode::Auto,
        None,
        8,
        false,
    );
    stream.feed(&[0u8; 8]).unwrap();
    assert!(stream.feed(&[0u8; 1]).is_err());
}
