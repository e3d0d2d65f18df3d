use fastavro::{
    create_msg, decode, decode_datum, encode, from_typed, project, project_one, read_schema,
    schema_fields, schema_from_fields, to_map, to_typed, Bin, BuildError, DecodeError,
    EncodeError, FieldDecl, FieldError, FieldKind, HostValue, ProjectionError, RecordBuilder,
    Schema, SchemaError, TypedRecord, TypedValue,
};

const TWO_FIELDS: &str = r#"{"type":"record","name":"rec","fields":[{"name":"id","type":"long"},{"name":"label","type":"string"}]}"#;

const ALL_KINDS: &str = r#"{"type":"record","name":"all","fields":[
    {"name":"a","type":"int"},{"name":"b","type":"long"},
    {"name":"c","type":"double"},{"name":"d","type":"string"}]}"#;

fn text(s: &str) -> HostValue {
    HostValue::Text(s.to_string())
}

fn pairs(items: Vec<(&str, HostValue)>) -> Vec<(String, HostValue)> {
    items.into_iter().map(|(k, v)| (k.to_string(), v)).collect()
}

fn two_field_record(schema: &Schema) -> TypedRecord {
    create_msg(&pairs(vec![("id", HostValue::Integer(1)), ("label", text("a"))]), schema).unwrap()
}

fn all_kinds_record(schema: &Schema) -> TypedRecord {
    let map = pairs(vec![
        ("d", text("héllo ✓")),
        ("c", HostValue::Float((-2.5f64).to_bits())),
        ("b", HostValue::Integer(i64::MIN)),
        ("a", HostValue::Integer(-300)),
    ]);
    create_msg(&map, schema).unwrap()
}

#[test]
fn two_field_record_encodes_to_known_bytes() {
    let schema = read_schema(TWO_FIELDS).unwrap();
    let rec = two_field_record(&schema);
    let bytes = encode(&schema, &rec).unwrap();
    assert_eq!(bytes, vec![0x02, 0x02, 0x61]);
    let (back, rest) = decode_datum(&schema, &bytes).unwrap();
    assert_eq!(back, rec);
    assert!(rest.is_empty());
    assert_eq!(
        to_map(&back),
        vec![("id".to_string(), HostValue::Integer(1)), ("label".to_string(), text("a"))]
    );
}

#[test]
fn encoding_without_a_declared_field_fails() {
    let schema = read_schema(TWO_FIELDS).unwrap();
    let rec = create_msg(&pairs(vec![("id", HostValue::Integer(1))]), &schema).unwrap();
    assert_eq!(encode(&schema, &rec), Err(EncodeError::MissingField));
}

#[test]
fn projection_with_a_missing_name_fails_whole() {
    let schema = read_schema(TWO_FIELDS).unwrap();
    let rec = two_field_record(&schema);
    let names = vec!["id".to_string(), "missing".to_string()];
    assert_eq!(project(&rec, &names), Err(ProjectionError::FieldNotFound));
}

#[test]
fn round_trip_all_kinds() {
    let schema = read_schema(ALL_KINDS).unwrap();
    let rec = all_kinds_record(&schema);
    let bytes = encode(&schema, &rec).unwrap();
    assert_eq!(decode(&schema, &bytes, false), Ok(rec.clone()));
    assert_eq!(decode(&schema, &bytes, true), Ok(rec));
}

#[test]
fn all_kinds_exact_bytes() {
    let schema = read_schema(ALL_KINDS).unwrap();
    let rec = all_kinds_record(&schema);
    let bytes = encode(&schema, &rec).unwrap();
    let mut expected = vec![0xd7, 0x04];
    expected.extend_from_slice(&[0xff, 0xff, 0xff, 0xff, 0xff, 0xff, 0xff, 0xff, 0xff, 0x01]);
    expected.extend_from_slice(&[0, 0, 0, 0, 0, 0, 0x04, 0xc0]);
    expected.push(0x14);
    expected.extend_from_slice("héllo ✓".as_bytes());
    assert_eq!(bytes, expected);
}

#[test]
fn same_text_parsed_twice_behaves_alike() {
    let first = read_schema(ALL_KINDS).unwrap();
    let second = read_schema(ALL_KINDS).unwrap();
    let a = all_kinds_record(&first);
    let b = all_kinds_record(&second);
    assert_eq!(a, b);
    let bytes = encode(&first, &a).unwrap();
    assert_eq!(bytes, encode(&second, &b).unwrap());
    assert_eq!(decode(&first, &bytes, true), decode(&second, &bytes, true));
}

#[test]
fn unknown_name_is_rejected() {
    let schema = read_schema(TWO_FIELDS).unwrap();
    let map = pairs(vec![("id", HostValue::Integer(1)), ("other", HostValue::Integer(2))]);
    assert_eq!(create_msg(&map, &schema), Err(BuildError::FieldNotFound));
    let map = pairs(vec![("label", HostValue::Integer(3)), ("other", HostValue::Integer(2))]);
    assert_eq!(create_msg(&map, &schema), Err(BuildError::FieldNotFound));
}

#[test]
fn wrong_type_is_rejected() {
    let schema = read_schema(ALL_KINDS).unwrap();
    for (name, value) in [
        ("a", HostValue::Integer(i32::MAX as i64 + 1)),
        ("b", text("1")),
        ("c", HostValue::Integer(1)),
        ("d", HostValue::Other),
    ] {
        let map = pairs(vec![(name, value)]);
        assert_eq!(create_msg(&map, &schema), Err(BuildError::WrongType));
    }
}

#[test]
fn builder_leaves_state_unchanged_on_refusal() {
    let schema = read_schema(TWO_FIELDS).unwrap();
    let mut b = RecordBuilder::start(&schema);
    assert_eq!(b.set("id", &HostValue::Integer(5)), Ok(()));
    assert_eq!(b.set("nope", &HostValue::Integer(6)), Err(BuildError::FieldNotFound));
    assert_eq!(b.set("id", &text("x")), Err(BuildError::WrongType));
    let rec = b.finish();
    assert_eq!(project_one(&rec, "id"), Ok(TypedValue::Int64(5)));
    assert_eq!(rec.len(), 1);
}

#[test]
fn last_write_wins() {
    let schema = read_schema(TWO_FIELDS).unwrap();
    let map = pairs(vec![("id", HostValue::Integer(1)), ("id", HostValue::Integer(7))]);
    let rec = create_msg(&map, &schema).unwrap();
    assert_eq!(project_one(&rec, "id"), Ok(TypedValue::Int64(7)));
}

#[test]
fn one_trailing_line_feed_is_tolerated() {
    let schema = read_schema(TWO_FIELDS).unwrap();
    let rec = two_field_record(&schema);
    let mut bytes = encode(&schema, &rec).unwrap();
    bytes.push(b'\n');
    assert_eq!(decode(&schema, &bytes, true), Ok(rec));
    assert_eq!(decode(&schema, &bytes, false), Err(DecodeError::TrailingData));
}

#[test]
fn other_trailing_bytes_are_refused() {
    let schema = read_schema(TWO_FIELDS).unwrap();
    let rec = two_field_record(&schema);
    let bytes = encode(&schema, &rec).unwrap();
    let mut one = bytes.clone();
    one.push(0x00);
    assert_eq!(decode(&schema, &one, true), Err(DecodeError::TrailingData));
    let mut two = bytes.clone();
    two.extend_from_slice(b"\n\n");
    assert_eq!(decode(&schema, &two, true), Err(DecodeError::TrailingData));
    let (_, rest) = decode_datum(&schema, &two).unwrap();
    assert_eq!(rest, b"\n\n".to_vec());
}

#[test]
fn projection_of_one_present_name() {
    let schema = read_schema(TWO_FIELDS).unwrap();
    let rec = two_field_record(&schema);
    let out = project(&rec, &vec!["label".to_string()]).unwrap();
    assert_eq!(to_map(&out), vec![("label".to_string(), text("a"))]);
    assert_eq!(project_one(&rec, "label"), Ok(TypedValue::Utf8String("a".to_string())));
}

#[test]
fn projection_of_one_absent_name() {
    let schema = read_schema(TWO_FIELDS).unwrap();
    let rec = two_field_record(&schema);
    assert_eq!(project(&rec, &vec!["x".to_string()]), Err(ProjectionError::FieldNotFound));
    assert_eq!(project_one(&rec, "x"), Err(ProjectionError::FieldNotFound));
}

#[test]
fn projection_keeps_record_order() {
    let schema = read_schema(ALL_KINDS).unwrap();
    let rec = all_kinds_record(&schema);
    let out = project(&rec, &vec!["d".to_string(), "a".to_string()]).unwrap();
    assert_eq!(
        to_map(&out),
        vec![("a".to_string(), HostValue::Integer(-300)), ("d".to_string(), text("héllo ✓"))]
    );
    let none = project(&rec, &vec![]).unwrap();
    assert_eq!(none.len(), 0);
}

#[test]
fn bad_schema_texts() {
    assert_eq!(read_schema("not json").err(), Some(SchemaError::BadSchema));
    assert_eq!(read_schema(r#""long""#).err(), Some(SchemaError::BadSchema));
    let dup = r#"{"type":"record","name":"r","fields":[{"name":"x","type":"int"},{"name":"x","type":"long"}]}"#;
    assert_eq!(read_schema(dup).err(), Some(SchemaError::BadSchema));
}

#[test]
fn schema_fields_and_kinds() {
    let text = r#"{"type":"record","name":"r","fields":[{"name":"n","type":"int"},{"name":"f","type":"boolean"}]}"#;
    let schema = read_schema(text).unwrap();
    let fields = schema_fields(&schema);
    assert_eq!(fields.len(), 2);
    assert_eq!(fields[0].name, "n");
    assert_eq!(fields[0].kind, FieldKind::Int32);
    assert_eq!(fields[1].name, "f");
    assert_eq!(fields[1].kind, FieldKind::Unsupported);
    assert_eq!(schema.field_type("f"), Some(FieldKind::Unsupported));
    assert_eq!(schema.field_type("zz"), None);
    let map = pairs(vec![("f", HostValue::Integer(1))]);
    assert_eq!(create_msg(&map, &schema), Err(BuildError::WrongType));
    assert_eq!(decode(&schema, &[0x02, 0x01], true), Err(DecodeError::Malformed));
}

#[test]
fn schema_from_declarations() {
    let decl = |n: &str, kind| FieldDecl { name: n.to_string(), kind };
    let ok = schema_from_fields(vec![decl("a", FieldKind::Int64), decl("b", FieldKind::Double)]);
    assert_eq!(ok.unwrap().len(), 2);
    let dup = schema_from_fields(vec![decl("a", FieldKind::Int64), decl("a", FieldKind::Double)]);
    assert_eq!(dup.err(), Some(SchemaError::BadSchema));
}

#[test]
fn encode_refuses_mistyped_value() {
    let schema = read_schema(TWO_FIELDS).unwrap();
    let rec = TypedRecord::from_entries(vec![
        ("id".to_string(), TypedValue::Int32(1)),
        ("label".to_string(), TypedValue::Utf8String("a".to_string())),
    ]);
    assert_eq!(encode(&schema, &rec), Err(EncodeError::WrongType));
}

#[test]
fn zigzag_and_varint_values() {
    let schema = read_schema(r#"{"type":"record","name":"r","fields":[{"name":"v","type":"long"}]}"#).unwrap();
    let cases: Vec<(i64, Vec<u8>)> = vec![
        (0, vec![0x00]),
        (-1, vec![0x01]),
        (1, vec![0x02]),
        (-64, vec![0x7f]),
        (64, vec![0x80, 0x01]),
        (150, vec![0xac, 0x02]),
        (i64::MAX, vec![0xfe, 0xff, 0xff, 0xff, 0xff, 0xff, 0xff, 0xff, 0xff, 0x01]),
    ];
    for (n, expected) in cases {
        let rec = create_msg(&pairs(vec![("v", HostValue::Integer(n))]), &schema).unwrap();
        let bytes = encode(&schema, &rec).unwrap();
        assert_eq!(bytes, expected);
        assert_eq!(project_one(&decode(&schema, &bytes, false).unwrap(), "v"), Ok(TypedValue::Int64(n)));
    }
}

#[test]
fn double_is_little_endian() {
    let schema = read_schema(r#"{"type":"record","name":"r","fields":[{"name":"x","type":"double"}]}"#).unwrap();
    let rec = create_msg(&pairs(vec![("x", HostValue::Float(1.0f64.to_bits()))]), &schema).unwrap();
    let bytes = encode(&schema, &rec).unwrap();
    assert_eq!(bytes, vec![0, 0, 0, 0, 0, 0, 0xf0, 0x3f]);
    assert_eq!(decode(&schema, &bytes[..7], false), Err(DecodeError::Truncated));
}

#[test]
fn corrupt_input_is_reported() {
    let long = read_schema(r#"{"type":"record","name":"r","fields":[{"name":"v","type":"long"}]}"#).unwrap();
    assert_eq!(decode(&long, &[], false), Err(DecodeError::Truncated));
    assert_eq!(decode(&long, &[0x80, 0x80], false), Err(DecodeError::Truncated));
    assert_eq!(decode(&long, &[0xff; 11], false), Err(DecodeError::Malformed));
    let mut over = vec![0xff; 9];
    over.push(0x02);
    assert_eq!(decode(&long, &over, false), Err(DecodeError::Malformed));
    let int = read_schema(r#"{"type":"record","name":"r","fields":[{"name":"v","type":"int"}]}"#).unwrap();
    assert_eq!(decode(&int, &[0x80, 0x80, 0x80, 0x80, 0x10], false), Err(DecodeError::Malformed));
    assert_eq!(
        project_one(&decode(&int, &[0xfe, 0xff, 0xff, 0xff, 0x0f], false).unwrap(), "v"),
        Ok(TypedValue::Int32(i32::MAX))
    );
    let text = read_schema(r#"{"type":"record","name":"r","fields":[{"name":"s","type":"string"}]}"#).unwrap();
    assert_eq!(decode(&text, &[0x01], false), Err(DecodeError::Malformed));
    assert_eq!(decode(&text, &[0x06, b'a'], false), Err(DecodeError::Truncated));
    assert_eq!(decode(&text, &[0x02, 0xff], false), Err(DecodeError::Malformed));
}

#[test]
fn dispatcher_conversions() {
    assert_eq!(to_typed(FieldKind::Int32, &HostValue::Integer(-5)), Ok(TypedValue::Int32(-5)));
    assert_eq!(to_typed(FieldKind::Int32, &HostValue::Integer(1 << 40)), Err(FieldError::WrongType));
    assert_eq!(to_typed(FieldKind::Int64, &HostValue::Integer(1 << 40)), Ok(TypedValue::Int64(1 << 40)));
    assert_eq!(to_typed(FieldKind::Double, &HostValue::Float(7)), Ok(TypedValue::Double(7)));
    assert_eq!(to_typed(FieldKind::Unsupported, &text("a")), Err(FieldError::WrongType));
    assert_eq!(from_typed(&TypedValue::Int32(-5)), HostValue::Integer(-5));
    assert_eq!(from_typed(&TypedValue::Double(9)), HostValue::Float(9));
    assert_eq!(from_typed(&TypedValue::Utf8String("z".to_string())), text("z"));
}

#[test]
fn bin_bytes_and_lossy_text() {
    let b = Bin::new(vec![b'h', 0xff, b'i']);
    assert_eq!(b.as_slice(), &[b'h', 0xff, b'i']);
    assert_eq!(b.to_string_lossy(), "h\u{fffd}i");
    let t = Bin::from_text("ok");
    assert_eq!(t.to_string_lossy(), "ok");
    assert_eq!(t.as_slice(), b"ok");
}
