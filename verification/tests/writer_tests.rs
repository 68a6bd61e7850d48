use jce_core::writer::JceWriter;

#[test]
fn test_write_int_zero() {
    let mut writer = JceWriter::new();
    writer.write_int(0, 0);
    assert_eq!(writer.get_buffer(), b"\x0c"); // Tag 0, ZeroTag
}

#[test]
fn test_write_int_small() {
    let mut writer = JceWriter::new();
    writer.write_int(0, 1);
    assert_eq!(writer.get_buffer(), b"\x00\x01"); // Tag 0, Int1, Value 1
}

#[test]
fn test_write_int_16() {
    let mut writer = JceWriter::new();
    writer.write_int(0, 256);
    assert_eq!(writer.get_buffer(), b"\x01\x01\x00"); // Tag 0, Int2, Value 256 (0x0100)
}

#[test]
fn test_write_string() {
    let mut writer = JceWriter::new();
    writer.write_string(0, "a".as_bytes());
    assert_eq!(writer.get_buffer(), b"\x06\x01\x61"); // Tag 0, String1, Len 1, 'a'
}

#[test]
fn test_write_bytes() {
    let mut writer = JceWriter::new();
    writer.write_bytes(0, b"abc");
    assert_eq!(writer.get_buffer(), b"\x0d\x00\x00\x03abc");
}

#[test]
fn test_high_tag() {
    let mut writer = JceWriter::new();
    writer.write_int(15, 1);
    assert_eq!(writer.get_buffer(), b"\xf0\x0f\x01"); // Tag 15, Int1, Value 1
}

#[test]
fn writer_test_write_int_zero() {
    let mut writer = JceWriter::new();
    writer.write_int(0, 0);
    assert_eq!(writer.get_buffer(), b"\x0c");
}

#[test]
fn writer_test_write_int_small() {
    let mut writer = JceWriter::new();
    writer.write_int(0, 1);
    assert_eq!(writer.get_buffer(), b"\x00\x01");
}

#[test]
fn writer_test_write_int_16() {
    let mut writer = JceWriter::new();
    writer.write_int(0, 256);
    assert_eq!(writer.get_buffer(), b"\x01\x01\x00");
}

#[test]
fn writer_test_write_string() {
    let mut writer = JceWriter::new();
    writer.write_string(0, "a".as_bytes());
    assert_eq!(writer.get_buffer(), b"\x06\x01\x61");
}

#[test]
fn writer_test_write_bytes() {
    let mut writer = JceWriter::new();
    writer.write_bytes(0, b"abc");
    // Tag 0, SimpleList (13/0x0D) -> 0x0D
    // Element type byte -> 0x00
    // Tag 0, Int1 (0), Value 3 -> 0x00 0x03
    // Data -> 0x61 0x62 0x63
    assert_eq!(writer.get_buffer(), b"\x0d\x00\x00\x03abc");
}

#[test]
fn writer_test_high_tag() {
    let mut writer = JceWriter::new();
    writer.write_int(15, 1);
    assert_eq!(writer.get_buffer(), b"\xf0\x0f\x01");
}

#[test]
fn test_write_int_negative() {
    let mut writer = JceWriter::new();
    writer.write_int(0, -1);
    assert_eq!(writer.get_buffer(), b"\x00\xff"); // Int1, two's complement

    let mut writer = JceWriter::new();
    writer.write_int(0, -129);
    assert_eq!(writer.get_buffer(), b"\x01\xff\x7f"); // Int2
}

#[test]
fn test_write_int_wide() {
    let mut writer = JceWriter::new();
    writer.write_int(2, 0x12345678);
    assert_eq!(writer.get_buffer(), b"\x22\x12\x34\x56\x78"); // Int4

    let mut writer = JceWriter::new();
    writer.write_int(0, 0x0102030405060708);
    assert_eq!(writer.get_buffer(), b"\x03\x01\x02\x03\x04\x05\x06\x07\x08"); // Int8
}

#[test]
fn test_write_little_endian() {
    let mut writer = JceWriter::new();
    writer.set_little_endian(true);
    writer.write_int(0, 256);
    assert_eq!(writer.get_buffer(), b"\x01\x00\x01"); // Int2, least significant first
}

#[test]
fn test_write_long_string() {
    let mut writer = JceWriter::new();
    let long = vec![b'x'; 300];
    writer.write_string(1, &long);
    let out = writer.get_buffer();
    assert_eq!(out[0], 0x17); // Tag 1, String4
    assert_eq!(&out[1..5], b"\x00\x00\x01\x2c"); // length 300 big-endian
    assert_eq!(out.len(), 305);
}

#[test]
fn test_writer_clear() {
    let mut writer = JceWriter::new();
    writer.set_little_endian(true);
    writer.write_int(0, 7);
    writer.clear();
    assert_eq!(writer.get_buffer(), b"");
    writer.write_int(0, 256);
    assert_eq!(writer.get_buffer(), b"\x01\x01\x00"); // back to big-endian
}

#[test]
fn test_write_float_bits() {
    let mut writer = JceWriter::new();
    writer.write_float(0, 1.5f32.to_bits());
    assert_eq!(writer.get_buffer(), b"\x04\x3f\xc0\x00\x00");
}

#[test]
fn test_write_double_bits() {
    let mut writer = JceWriter::new();
    writer.write_double(0, 1.5f64.to_bits());
    assert_eq!(writer.get_buffer(), b"\x05\x3f\xf8\x00\x00\x00\x00\x00\x00");
}
