use jce_core::codec::{BytesMode, decode_generic_field, decode_generic_struct,
    encode_generic_field};
use jce_core::endian::Endianness;
use jce_core::error::Error;
use jce_core::reader::JceReader;
use jce_core::types::JceType;
use jce_core::value::{Value, deep_copy, value_eq};
use jce_core::writer::JceWriter;

fn round_trip(v: &Value, mode: BytesMode) -> Value {
    let mut w = JceWriter::new();
    encode_generic_field(&mut w, 3, v, 0).unwrap();
    let mut rd = JceReader::new(w.get_buffer(), Endianness::Big);
    let (tag, t) = rd.read_head().unwrap();
    assert_eq!(tag, 3);
    let out = decode_generic_field(&mut rd, t, mode, 0).unwrap();
    assert!(rd.is_end());
    out
}

#[test]
fn test_round_trip_int() {
    for v in [0i64, 1, -1, 127, -128, 200, 30000, -40000, 1 << 40, i64::MIN, i64::MAX] {
        assert_eq!(round_trip(&Value::Int(v), BytesMode::Raw), Value::Int(v));
    }
}

#[test]
fn test_round_trip_text() {
    let v = Value::Text("grüße".as_bytes().to_vec());
    assert_eq!(round_trip(&v, BytesMode::Raw), v);
    let long = Value::Text(vec![b'a'; 1000]);
    assert_eq!(round_trip(&long, BytesMode::Raw), long);
}

#[test]
fn test_round_trip_bytes() {
    let v = Value::Bytes(vec![0x00, 0xff, 0x80]);
    assert_eq!(round_trip(&v, BytesMode::Raw), v);
}

#[test]
fn test_round_trip_float_double() {
    let v = Value::Float(3.25f32.to_bits());
    assert_eq!(round_trip(&v, BytesMode::Raw), v);
    let v = Value::Double((-2.5f64).to_bits());
    assert_eq!(round_trip(&v, BytesMode::Raw), v);
}

#[test]
fn test_round_trip_containers() {
    let v = Value::List(vec![
        Value::Int(1),
        Value::Text(b"two".to_vec()),
        Value::List(vec![Value::Int(3)]),
    ]);
    assert_eq!(round_trip(&v, BytesMode::Raw), v);

    let v = Value::Mapping(vec![
        (Value::Text(b"k1".to_vec()), Value::Int(1)),
        (Value::Text(b"k2".to_vec()), Value::Bytes(vec![9])),
    ]);
    assert_eq!(round_trip(&v, BytesMode::Raw), v);

    let v = Value::Struct(vec![
        (0, Value::Int(5)),
        (1, Value::Text(b"x".to_vec())),
        (7, Value::Mapping(vec![(Value::Int(1), Value::Int(2))])),
    ]);
    assert_eq!(round_trip(&v, BytesMode::Raw), v);
}

#[test]
fn test_round_trip_little_endian() {
    let v = Value::List(vec![Value::Int(70000), Value::Text(b"le".to_vec())]);
    let mut w = JceWriter::new();
    w.set_little_endian(true);
    encode_generic_field(&mut w, 0, &v, 0).unwrap();
    let mut rd = JceReader::new(w.get_buffer(), Endianness::Little);
    let (_, t) = rd.read_head().unwrap();
    assert_eq!(decode_generic_field(&mut rd, t, BytesMode::Raw, 0).unwrap(), v);
}

#[test]
fn test_auto_mode_printable_text() {
    // A byte array of printable ASCII decodes as text under the full
    // heuristic.
    let v = Value::Bytes(b"hello world".to_vec());
    assert_eq!(
        round_trip(&v, BytesMode::Auto),
        Value::Text(b"hello world".to_vec())
    );
}

#[test]
fn test_auto_mode_nested_struct() {
    // A byte array holding exactly one well-formed struct body decodes as
    // that struct.
    let mut inner = JceWriter::new();
    inner.write_int(0, 1000);
    let v = Value::Bytes(inner.get_buffer().to_vec());
    assert_eq!(
        round_trip(&v, BytesMode::Auto),
        Value::Struct(vec![(0, Value::Int(1000))])
    );
}

#[test]
fn test_auto_mode_raw_fallback() {
    // Neither text nor a well-formed struct: the bytes come back raw.
    let v = Value::Bytes(vec![0xfe, 0xfe, 0xfe]);
    assert_eq!(round_trip(&v, BytesMode::Auto), v);
}

#[test]
fn test_text_mode() {
    let v = Value::Bytes(b"plain".to_vec());
    assert_eq!(round_trip(&v, BytesMode::Text), Value::Text(b"plain".to_vec()));
    let v = Value::Bytes(vec![0xff, 0x00]);
    assert_eq!(round_trip(&v, BytesMode::Text), v);
}

#[test]
fn test_bytes_mode_from_code() {
    assert_eq!(BytesMode::from_code(0), BytesMode::Raw);
    assert_eq!(BytesMode::from_code(1), BytesMode::Text);
    assert_eq!(BytesMode::from_code(2), BytesMode::Auto);
    assert_eq!(BytesMode::from_code(9), BytesMode::Raw);
}

#[test]
fn test_decode_depth_exceeded() {
    // 102 nested list headers, each announcing one element.
    let mut data: Vec<u8> = Vec::new();
    for _ in 0..102 {
        data.push(0x09); // tag 0, List
        data.push(0x00); // count head: tag 0, Int1
        data.push(0x01); // count 1
    }
    let mut rd = JceReader::new(&data, Endianness::Big);
    let (_, t) = rd.read_head().unwrap();
    assert_eq!(
        decode_generic_field(&mut rd, t, BytesMode::Raw, 0),
        Err(Error::DepthExceeded)
    );
}

#[test]
fn test_encode_depth_exceeded() {
    let mut v = Value::List(vec![Value::Int(1)]);
    for _ in 0..102 {
        v = Value::List(vec![v]);
    }
    let mut w = JceWriter::new();
    assert_eq!(encode_generic_field(&mut w, 0, &v, 0), Err(Error::DepthExceeded));
}

#[test]
fn test_generic_struct_decode() {
    // Tag->value pairs of a whole packet body, without markers.
    let mut w = JceWriter::new();
    w.write_int(1, 5);
    w.write_string(2, b"hey");
    let mut rd = JceReader::new(w.get_buffer(), Endianness::Big);
    let fields = decode_generic_struct(&mut rd, BytesMode::Auto, 0).unwrap();
    assert_eq!(
        fields,
        vec![(1, Value::Int(5)), (2, Value::Text(b"hey".to_vec()))]
    );
}

#[test]
fn test_zero_tag_decodes_to_zero() {
    let data = b"\x0c";
    let mut rd = JceReader::new(data, Endianness::Big);
    let (_, t) = rd.read_head().unwrap();
    assert_eq!(t, JceType::ZeroTag);
    assert_eq!(
        decode_generic_field(&mut rd, t, BytesMode::Raw, 0).unwrap(),
        Value::Int(0)
    );
}

#[test]
fn test_simple_list_bad_element_type() {
    // A byte array must declare byte elements; a nonzero element-type byte
    // is a contextual error.
    let data = b"\x0d\x01\x00\x00";
    let mut rd = JceReader::new(data, Endianness::Big);
    let (_, t) = rd.read_head().unwrap();
    match decode_generic_field(&mut rd, t, BytesMode::Raw, 0) {
        Err(Error::Custom { offset: 2, .. }) => (),
        r => panic!("expected an element-type error, got {:?}", r),
    }
}

#[test]
fn test_value_helpers() {
    let v = Value::Struct(vec![(0, Value::List(vec![Value::Int(1), Value::Absent]))]);
    let c = deep_copy(&v);
    assert!(value_eq(&v, &c));
    assert_eq!(v, c);
    assert!(!value_eq(&v, &Value::Int(0)));
}

#[test]
fn test_minimal_width_200() {
    // 200 overflows a signed byte: it takes the two-byte width, never a
    // wider one.
    let mut w = JceWriter::new();
    w.write_int(0, 200);
    assert_eq!(w.get_buffer(), b"\x01\x00\xc8");

    let mut w = JceWriter::new();
    w.write_int(0, 1);
    assert_eq!(w.get_buffer(), b"\x00\x01");
}

#[test]
fn test_round_trip_empty_values() {
    for v in [
        Value::Text(Vec::new()),
        Value::Bytes(Vec::new()),
        Value::List(Vec::new()),
        Value::Mapping(Vec::new()),
        Value::Struct(Vec::new()),
    ] {
        let c = deep_copy(&v);
        assert_eq!(round_trip(&v, BytesMode::Raw), c);
    }
}

#[test]
fn test_map_with_equal_keys_keeps_later_value() {
    // The wire can carry a map with two equal keys; the decoder keeps one
    // entry per key, at its first place, with the later value winning.
    let v = Value::Mapping(vec![
        (Value::Int(1), Value::Int(10)),
        (Value::Int(1), Value::Int(20)),
        (Value::Int(2), Value::Int(30)),
    ]);
    assert_eq!(
        round_trip(&v, BytesMode::Raw),
        Value::Mapping(vec![(Value::Int(1), Value::Int(20)), (Value::Int(2), Value::Int(30))])
    );
}

#[test]
fn test_struct_with_repeated_tag_keeps_later_value() {
    // A wire struct body can repeat a tag; the decoded record keeps one
    // field per tag, at its first place, with the later value winning.
    let mut w = JceWriter::new();
    w.write_int(0, 1);
    w.write_int(1, 7);
    w.write_int(0, 2);
    let mut rd = JceReader::new(w.get_buffer(), Endianness::Big);
    let fields = decode_generic_struct(&mut rd, BytesMode::Raw, 0).unwrap();
    assert_eq!(fields, vec![(0, Value::Int(2)), (1, Value::Int(7))]);
}

#[test]
fn test_struct_end_decodes_to_absent() {
    let data = b"\x0b";
    let mut rd = JceReader::new(data, Endianness::Big);
    let (_, t) = rd.read_head().unwrap();
    assert_eq!(t, JceType::StructEnd);
    assert_eq!(
        decode_generic_field(&mut rd, t, BytesMode::Raw, 0).unwrap(),
        Value::Absent
    );
}

#[test]
fn test_absent_cannot_be_encoded() {
    let mut w = JceWriter::new();
    match encode_generic_field(&mut w, 0, &Value::Absent, 0) {
        Err(Error::Custom { .. }) => (),
        r => panic!("expected a type-inference error, got {:?}", r),
    }
}
