use jce_core::codec::encode_generic_field;
use jce_core::endian::Endianness;
use jce_core::error::Error;
use jce_core::reader::JceReader;
use jce_core::schema::{CompiledSchema, FieldDef, FieldInput, compile_schema, decode_struct,
    dumps, dumps_generic, encode_struct, loads, loads_generic, OPT_OMIT_DEFAULT,
    OPT_EXCLUDE_UNSET, OPT_LITTLE_ENDIAN};
use jce_core::value::Value;
use jce_core::writer::JceWriter;

fn field(name: &str, tag: u8, tars_type: u8, default_val: Value) -> FieldDef {
    FieldDef {
        name: name.to_owned(),
        tag,
        tars_type,
        default_val,
        has_serializer: false,
    }
}

fn two_field_schema() -> CompiledSchema {
    compile_schema(vec![
        field("uid", 0, 0, Value::Int(0)),
        field("name", 1, 6, Value::Text(b"unknown".to_vec())),
    ])
    .unwrap()
}

#[test]
fn test_compile_schema() {
    let schema = two_field_schema();
    assert_eq!(schema.field_count(), 2);
    assert_eq!(schema.field_at(0).name, "uid");
    assert_eq!(schema.lookup(0), Some(0));
    assert_eq!(schema.lookup(1), Some(1));
}

#[test]
fn test_duplicate_tag() {
    let res = compile_schema(vec![
        field("f1", 0, 0, Value::Int(0)),
        field("f2", 0, 0, Value::Int(0)),
    ]);
    assert!(res.is_err());
    assert_eq!(res.err(), Some(Error::DuplicateTag { tag: 0 }));
}

#[test]
fn test_struct_round_trip_with_schema() {
    let schema = two_field_schema();
    let mut w = JceWriter::new();
    let values = vec![
        FieldInput { value: Some(Value::Int(42)), is_set: true },
        FieldInput { value: Some(Value::Text(b"alice".to_vec())), is_set: true },
    ];
    encode_struct(&mut w, &values, &schema, 0, 0).unwrap();
    assert_eq!(w.get_buffer(), b"\x00\x2a\x16\x05alice");

    let mut rd = JceReader::new(w.get_buffer(), Endianness::Big);
    let out = decode_struct(&mut rd, &schema, 0).unwrap();
    assert_eq!(out.len(), 2);
    assert_eq!(out[0].0, "uid");
    assert_eq!(out[0].1, Value::Int(42));
    assert_eq!(out[1].0, "name");
    assert_eq!(out[1].1, Value::Text(b"alice".to_vec()));
}

#[test]
fn test_unknown_tag_skipped() {
    let schema = two_field_schema();
    // Wire stream written by a newer schema: an extra field under tag 5
    // stands between the two known fields.
    let mut w = JceWriter::new();
    w.write_int(0, 42);
    w.write_string(5, b"future");
    w.write_string(1, b"bob");
    let mut rd = JceReader::new(w.get_buffer(), Endianness::Big);
    let out = decode_struct(&mut rd, &schema, 0).unwrap();
    assert_eq!(out[0].1, Value::Int(42));
    assert_eq!(out[1].1, Value::Text(b"bob".to_vec()));
}

#[test]
fn test_missing_field_default() {
    let schema = two_field_schema();
    // Only the uid arrives; the name must come back as its declared default.
    let mut w = JceWriter::new();
    w.write_int(0, 7);
    let mut rd = JceReader::new(w.get_buffer(), Endianness::Big);
    let out = decode_struct(&mut rd, &schema, 0).unwrap();
    assert_eq!(out[0].1, Value::Int(7));
    assert_eq!(out[1].1, Value::Text(b"unknown".to_vec()));
}

#[test]
fn test_type_mismatch_degrades_to_generic() {
    // The schema declares tag 0 as an integer, but the wire carries text:
    // the decode degrades to the generic value instead of failing.
    let schema = two_field_schema();
    let mut w = JceWriter::new();
    w.write_string(0, b"oops");
    let mut rd = JceReader::new(w.get_buffer(), Endianness::Big);
    let out = decode_struct(&mut rd, &schema, 0).unwrap();
    assert_eq!(out[0].1, Value::Text(b"oops".to_vec()));
}

#[test]
fn test_omit_default_option() {
    let schema = two_field_schema();
    let values = vec![
        FieldInput { value: Some(Value::Int(0)), is_set: true },
        FieldInput { value: Some(Value::Text(b"carol".to_vec())), is_set: true },
    ];
    let mut w = JceWriter::new();
    encode_struct(&mut w, &values, &schema, OPT_OMIT_DEFAULT, 0).unwrap();
    // uid equals its default and is omitted.
    assert_eq!(w.get_buffer(), b"\x16\x05carol");
}

#[test]
fn test_exclude_unset_option() {
    let schema = two_field_schema();
    let values = vec![
        FieldInput { value: Some(Value::Int(3)), is_set: false },
        FieldInput { value: Some(Value::Text(b"dave".to_vec())), is_set: true },
    ];
    let mut w = JceWriter::new();
    encode_struct(&mut w, &values, &schema, OPT_EXCLUDE_UNSET, 0).unwrap();
    assert_eq!(w.get_buffer(), b"\x16\x04dave");
}

#[test]
fn test_absent_field_skipped() {
    let schema = two_field_schema();
    let values = vec![
        FieldInput { value: None, is_set: true },
        FieldInput { value: Some(Value::Text(b"erin".to_vec())), is_set: true },
    ];
    let mut w = JceWriter::new();
    encode_struct(&mut w, &values, &schema, 0, 0).unwrap();
    assert_eq!(w.get_buffer(), b"\x16\x04erin");
}

#[test]
fn test_inferred_field_through_generic_codec() {
    let schema = compile_schema(vec![field("blob", 0, 255, Value::Absent)]).unwrap();
    let values = vec![
        FieldInput { value: Some(Value::List(vec![Value::Int(1), Value::Int(2)])), is_set: true },
    ];
    let mut w = JceWriter::new();
    encode_struct(&mut w, &values, &schema, 0, 0).unwrap();
    let mut check = JceWriter::new();
    encode_generic_field(&mut check, 0, &Value::List(vec![Value::Int(1), Value::Int(2)]), 0)
        .unwrap();
    assert_eq!(w.get_buffer(), check.get_buffer());
}

#[test]
fn test_dumps_and_loads() {
    let schema = two_field_schema();
    let values = vec![
        FieldInput { value: Some(Value::Int(300)), is_set: true },
        FieldInput { value: Some(Value::Text(b"zoe".to_vec())), is_set: true },
    ];
    let bytes = dumps(&values, &schema, 0).unwrap();
    assert_eq!(bytes, b"\x01\x01\x2c\x16\x03zoe");
    let out = loads(&bytes, &schema, 0).unwrap();
    assert_eq!(out[0].1, Value::Int(300));
    assert_eq!(out[1].1, Value::Text(b"zoe".to_vec()));

    // The little-endian option governs every multi-byte field of the call.
    let bytes_le = dumps(&values, &schema, OPT_LITTLE_ENDIAN).unwrap();
    assert_eq!(bytes_le, b"\x01\x2c\x01\x16\x03zoe");
    let out = loads(&bytes_le, &schema, OPT_LITTLE_ENDIAN).unwrap();
    assert_eq!(out[0].1, Value::Int(300));
}

#[test]
fn test_dumps_generic_and_loads_generic() {
    let v = Value::Struct(vec![(0, Value::Int(1)), (1, Value::Bytes(vec![0xfe]))]);
    let bytes = dumps_generic(&v, 0).unwrap();
    let back = loads_generic(&bytes, 0, 0).unwrap();
    assert_eq!(back, v);
}
