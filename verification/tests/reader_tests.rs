use jce_core::endian::Endianness;
use jce_core::error::Error;
use jce_core::reader::JceReader;
use jce_core::scanner::JceScanner;
use jce_core::types::JceType;

#[test]
fn test_read_head() {
    // Tag 1, Type Int1 (0)
    let data = b"\x10";
    let mut reader = JceReader::new(data, Endianness::Big);
    let (tag, t) = reader.read_head().unwrap();
    assert_eq!(tag, 1);
    assert_eq!(t, JceType::Int1);

    // Tag 15, Type Int1 (0) -> 2-byte header
    let data = b"\xF0\x0F";
    let mut reader = JceReader::new(data, Endianness::Big);
    let (tag, t) = reader.read_head().unwrap();
    assert_eq!(tag, 15);
    assert_eq!(t, JceType::Int1);
}

#[test]
fn test_read_int() {
    // Int1: 0
    // Int2: 1 (0x00 0x01)
    // Int4: 1 (0x00 0x00 0x00 0x01)
    // Int8: 1 (0x00 0x00 0x00 0x00 0x00 0x00 0x00 0x01)
    let data = b"\x00\x00\x01\x00\x00\x00\x01\x00\x00\x00\x00\x00\x00\x00\x01";
    let mut reader = JceReader::new(data, Endianness::Big);
    assert_eq!(reader.read_int(JceType::Int1).unwrap(), 0);
    assert_eq!(reader.read_int(JceType::Int2).unwrap(), 1);
    assert_eq!(reader.read_int(JceType::Int4).unwrap(), 1);
    assert_eq!(reader.read_int(JceType::Int8).unwrap(), 1);
    assert_eq!(reader.read_int(JceType::ZeroTag).unwrap(), 0);
}

#[test]
fn test_read_string() {
    let data = b"\x05Hello\x00\x00\x00\x05World";
    let mut reader = JceReader::new(data, Endianness::Big);
    assert_eq!(reader.read_string(JceType::String1).unwrap(), b"Hello");
    assert_eq!(reader.read_string(JceType::String4).unwrap(), b"World");
}

#[test]
fn test_skip_field() {
    let data = b"\x1A\x10\x01\x0B";
    let mut reader = JceReader::new(data, Endianness::Big);
    let (tag, t) = reader.read_head().unwrap();
    assert_eq!(tag, 1);
    assert_eq!(t, JceType::StructBegin);
    reader.skip_field(t).unwrap();
    assert!(reader.is_end());
}

#[test]
fn test_little_endian() {
    // Int2: 1 in little-endian order (0x01 0x00)
    let data = b"\x01\x00";
    let mut reader = JceReader::new(data, Endianness::Little);
    assert_eq!(reader.read_int(JceType::Int2).unwrap(), 1);

    // Int4: 1 in little-endian order (0x01 0x00 0x00 0x00)
    let data = b"\x01\x00\x00\x00";
    let mut reader = JceReader::new(data, Endianness::Little);
    assert_eq!(reader.read_int(JceType::Int4).unwrap(), 1);

    // String4: "A" with length 1 in little-endian order
    let data = b"\x01\x00\x00\x00A";
    let mut reader = JceReader::new(data, Endianness::Little);
    assert_eq!(reader.read_string(JceType::String4).unwrap(), b"A");
}

#[test]
fn test_read_negative_int() {
    let data = b"\xff\xff\x7f";
    let mut reader = JceReader::new(data, Endianness::Big);
    assert_eq!(reader.read_int(JceType::Int1).unwrap(), -1);
    assert_eq!(reader.read_int(JceType::Int2).unwrap(), -129);
}

#[test]
fn test_read_past_end() {
    let data = b"\x00";
    let mut reader = JceReader::new(data, Endianness::Big);
    assert_eq!(
        reader.read_int(JceType::Int2),
        Err(Error::BufferOverflow { offset: 0 })
    );
}

#[test]
fn test_invalid_type_code() {
    // Low nibble 14 names no wire type.
    let data = b"\x0e";
    let mut reader = JceReader::new(data, Endianness::Big);
    assert_eq!(
        reader.read_head(),
        Err(Error::InvalidType { offset: 0, type_id: 14 })
    );
}

#[test]
fn test_invalid_utf8_string() {
    let data = b"\x02\xff\xfe";
    let mut reader = JceReader::new(data, Endianness::Big);
    match reader.read_string(JceType::String1) {
        Err(Error::Custom { offset: 1, .. }) => (),
        r => panic!("expected a UTF-8 error, got {:?}", r),
    }
}

#[test]
fn test_peek_head_keeps_position() {
    let data = b"\x10\x05";
    let mut reader = JceReader::new(data, Endianness::Big);
    let first = reader.peek_head().unwrap();
    let second = reader.read_head().unwrap();
    assert_eq!(first, second);
    assert_eq!(reader.position(), 1);
}

#[test]
fn test_skip_depth_exceeded() {
    // 105 nested struct-begin markers never close: recursion must stop with
    // the depth error, not a stack overflow.
    let data = vec![0x0Au8; 105];
    let mut reader = JceReader::new(&data, Endianness::Big);
    let (_, t) = reader.read_head().unwrap();
    assert_eq!(reader.skip_field(t), Err(Error::DepthExceeded));
}

#[test]
fn test_validate_struct() {
    // A well-formed struct: tag1 Int1 value, end marker.
    let data = b"\x10\x01\x0B";
    let mut scanner = JceScanner::new(data, Endianness::Big);
    assert!(scanner.validate_struct().is_ok());
    assert!(scanner.is_end());

    // Truncated payload.
    let data = b"\x10";
    let mut scanner = JceScanner::new(data, Endianness::Big);
    assert!(scanner.validate_struct().is_err());
}

#[test]
fn test_read_bytes_and_size() {
    let data = b"\x00\x03abc";
    let mut reader = JceReader::new(data, Endianness::Big);
    let n = reader.read_size().unwrap();
    assert_eq!(n, 3);
    assert_eq!(reader.read_bytes(n as usize).unwrap(), b"abc");
    assert!(reader.is_end());
}
