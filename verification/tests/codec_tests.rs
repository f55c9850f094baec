use zbus::{
    slice_data, slice_signature, ArrayValue, EncodingFormat, SharedData, Structure, Variant,
    VariantError,
};

fn round_trip(v: Variant, format: EncodingFormat) {
    let sig = v.value_signature();
    let bytes = v.encode(format);
    let total = bytes.len();
    let data = SharedData::new(bytes);
    let sliced = slice_data(&data, &sig, format).unwrap();
    assert_eq!(sliced.len(), total, "slice length for {sig}");
    let out = Variant::from_data(&data, &sig, format).unwrap();
    assert_eq!(out, v, "round trip for {sig}");
}

fn round_trip_both(v: Variant) {
    let sig = v.value_signature();
    let bytes = v.encode(EncodingFormat::DBus);
    let data = SharedData::new(bytes);
    let out = Variant::from_data(&data, &sig, EncodingFormat::DBus).unwrap();
    assert_eq!(out, v);
    let bytes = out.encode(EncodingFormat::GVariant);
    let data = SharedData::new(bytes);
    let out2 = Variant::from_data(&data, &sig, EncodingFormat::GVariant).unwrap();
    assert_eq!(out2, v);
}

#[test]
fn round_trip_basic_boundaries() {
    for v in [
        Variant::Byte(0),
        Variant::Byte(u8::MAX),
        Variant::Boolean(false),
        Variant::Boolean(true),
        Variant::Int16(i16::MIN),
        Variant::Int16(-1),
        Variant::Int16(i16::MAX),
        Variant::Uint16(0),
        Variant::Uint16(u16::MAX),
        Variant::Int32(i32::MIN),
        Variant::Int32(i32::MAX),
        Variant::Uint32(u32::MAX),
        Variant::Int64(i64::MIN),
        Variant::Int64(i64::MAX),
        Variant::Uint64(u64::MAX),
        Variant::Double(0f64.to_bits()),
        Variant::Double(f64::NAN.to_bits()),
        Variant::Double((-1.5f64).to_bits()),
        Variant::UnixFd(3),
        Variant::Str(String::new()),
        Variant::Str("hello world".into()),
        Variant::ObjectPath("/".into()),
        Variant::ObjectPath("/foo/bar".into()),
        Variant::Signature("a{sv}".into()),
    ] {
        round_trip_both(v);
    }
}

#[test]
fn round_trip_nested_structure() {
    let inner = Structure::new()
        .add_field(Variant::Str("x".into()))
        .add_field(Variant::Int32(5));
    let outer = Structure::new()
        .add_field(Variant::Int32(1))
        .add_field(inner.to_variant());
    let v = outer.to_variant();
    assert_eq!(v.value_signature(), "(i(si))");
    round_trip(v, EncodingFormat::DBus);
}

#[test]
fn round_trip_array_of_arrays() {
    let row = |a: i32, b: i32| {
        Variant::Array(ArrayValue {
            elem_signature: "i".into(),
            elements: vec![Variant::Int32(a), Variant::Int32(b)],
        })
    };
    let v = Variant::Array(ArrayValue {
        elem_signature: "ai".into(),
        elements: vec![row(1, 2), row(3, 4)],
    });
    assert_eq!(v.value_signature(), "aai");
    round_trip(v, EncodingFormat::DBus);
}

#[test]
fn round_trip_empty_array() {
    let v = Variant::Array(ArrayValue { elem_signature: "t".into(), elements: vec![] });
    round_trip(v, EncodingFormat::DBus);
}

#[test]
fn round_trip_dict() {
    let entry = |k: &str, val: Variant| {
        Variant::DictEntry(
            Box::new(Variant::Str(k.into())),
            Box::new(Variant::Variant(Box::new(val))),
        )
    };
    let v = Variant::Array(ArrayValue {
        elem_signature: "{sv}".into(),
        elements: vec![entry("a", Variant::Uint32(7)), entry("b", Variant::Str("c".into()))],
    });
    assert_eq!(v.value_signature(), "a{sv}");
    round_trip(v, EncodingFormat::DBus);
}

#[test]
fn round_trip_variant_of_variant() {
    let v = Variant::Variant(Box::new(Variant::Variant(Box::new(Variant::Int16(-2)))));
    assert_eq!(v.value_signature(), "v");
    round_trip(v, EncodingFormat::DBus);
    round_trip(
        Variant::Variant(Box::new(Variant::Variant(Box::new(Variant::Int16(-2))))),
        EncodingFormat::GVariant,
    );
}

#[test]
fn dbus_wire_bytes_are_exact() {
    assert_eq!(Variant::Uint16(0x1234).encode(EncodingFormat::DBus), vec![0x34, 0x12]);
    assert_eq!(
        Variant::Boolean(true).encode(EncodingFormat::DBus),
        vec![1, 0, 0, 0]
    );
    assert_eq!(
        Variant::Str("hi".into()).encode(EncodingFormat::DBus),
        vec![2, 0, 0, 0, b'h', b'i', 0]
    );
    assert_eq!(
        Variant::Signature("i".into()).encode(EncodingFormat::DBus),
        vec![1, b'i', 0]
    );
}

#[test]
fn gvariant_booleans_are_one_byte_and_strings_lose_the_nul() {
    assert_eq!(Variant::Boolean(true).encode(EncodingFormat::GVariant), vec![1]);
    assert_eq!(Variant::Boolean(false).encode(EncodingFormat::GVariant), vec![0]);
    assert_eq!(
        Variant::Str("hi".into()).encode(EncodingFormat::GVariant),
        vec![2, 0, 0, 0, b'h', b'i']
    );
}

#[test]
fn structure_is_eight_aligned() {
    let v = Structure::new()
        .add_field(Variant::Byte(9))
        .add_field(Variant::Uint64(0x0102030405060708))
        .to_variant();
    let bytes = v.encode(EncodingFormat::DBus);
    // One byte, seven bytes of padding, then the eight-byte field.
    assert_eq!(bytes.len(), 16);
    assert_eq!(bytes[0], 9);
    assert_eq!(&bytes[1..8], &[0u8; 7]);
    assert_eq!(bytes[8], 0x08);
    assert_eq!(Structure::alignment(), 8);
    assert_eq!(Structure::signature_char(), '(');
    assert_eq!(Structure::signature_str(), "(");
}

#[test]
fn alignment_padding_is_consumed_on_decode() {
    // A byte then a uint32 inside a struct: the uint32 starts at offset 4.
    let v = Structure::new()
        .add_field(Variant::Byte(1))
        .add_field(Variant::Uint32(0xAABBCCDD))
        .to_variant();
    let bytes = v.encode(EncodingFormat::DBus);
    assert_eq!(bytes.len(), 8);
    assert_eq!(&bytes[1..4], &[0u8; 3]);
    round_trip(v, EncodingFormat::DBus);
}

#[test]
fn decode_errors_carry_the_owed_kind() {
    // Truncated payload.
    let data = SharedData::new(vec![1, 0]);
    assert_eq!(
        Variant::from_data(&data, "u", EncodingFormat::DBus).unwrap_err(),
        VariantError::InsufficientData
    );
    // Foreign signature character.
    let data = SharedData::new(vec![0, 0, 0, 0]);
    assert_eq!(
        Variant::from_data(&data, "z", EncodingFormat::DBus).unwrap_err(),
        VariantError::IncorrectType
    );
    // A string payload that is not UTF-8.
    let data = SharedData::new(vec![2, 0, 0, 0, 0xff, 0xfe, 0]);
    assert_eq!(
        Variant::from_data(&data, "s", EncodingFormat::DBus).unwrap_err(),
        VariantError::InvalidUtf8
    );
    // The empty struct signature is rejected as insufficient.
    let data = SharedData::new(vec![0; 8]);
    assert_eq!(
        Variant::from_data(&data, "()", EncodingFormat::DBus).unwrap_err(),
        VariantError::InsufficientData
    );
}

#[test]
fn excess_data_on_zero_children() {
    let data = SharedData::new(vec![0; 8]);
    assert_eq!(
        zbus::variants_from_struct_data(&data, "()", EncodingFormat::DBus).unwrap_err(),
        VariantError::ExcessData
    );
    let data = SharedData::new(vec![7, 0, 0, 0]);
    let fields = zbus::variants_from_struct_data(&data, "(i)", EncodingFormat::DBus).unwrap();
    assert_eq!(fields, vec![Variant::Int32(7)]);
}

#[test]
fn scanner_takes_one_complete_type() {
    assert_eq!(slice_signature("i").unwrap(), "i");
    assert_eq!(slice_signature("ixx").unwrap(), "i");
    assert_eq!(slice_signature("ai").unwrap(), "ai");
    assert_eq!(slice_signature("aai(x)").unwrap(), "aai");
    assert_eq!(slice_signature("a{sv}x").unwrap(), "a{sv}");
    assert_eq!(slice_signature("(i(si))junk").unwrap(), "(i(si))");
    assert_eq!(slice_signature("v...").unwrap(), "v");
}

#[test]
fn scanner_rejects_what_is_not_a_type() {
    assert_eq!(slice_signature("").unwrap_err(), VariantError::InsufficientData);
    assert_eq!(slice_signature("a").unwrap_err(), VariantError::InsufficientData);
    assert_eq!(slice_signature("z").unwrap_err(), VariantError::IncorrectType);
    assert_eq!(slice_signature("(ii").unwrap_err(), VariantError::IncorrectType);
    assert_eq!(slice_signature("{sv").unwrap_err(), VariantError::IncorrectType);
}

#[test]
fn structure_signature_helpers() {
    assert_eq!(Structure::slice_signature("(ii)x").unwrap(), "(ii)");
    assert_eq!(
        Structure::slice_signature("ii").unwrap_err(),
        VariantError::IncorrectType
    );
    assert!(Structure::ensure_correct_signature("(i(si))").is_ok());
    assert!(Structure::ensure_correct_signature("()").is_ok());
    assert_eq!(
        Structure::ensure_correct_signature("(iz)").unwrap_err(),
        VariantError::IncorrectType
    );
    assert_eq!(
        Structure::ensure_correct_signature("ii").unwrap_err(),
        VariantError::IncorrectType
    );
}

#[test]
fn structure_variant_wrappers() {
    let st = Structure::new().add_field(Variant::Byte(1));
    let v = st.to_variant();
    assert!(Structure::is(&v));
    assert!(!Structure::is(&Variant::Byte(0)));
    let back = Structure::from_variant(&v).unwrap();
    assert_eq!(back.fields().len(), 1);
    let taken = Structure::take_from_variant(v).unwrap();
    assert_eq!(taken.take_fields(), vec![Variant::Byte(1)]);
    assert_eq!(
        Structure::take_from_variant(Variant::Byte(0)).unwrap_err(),
        VariantError::IncorrectType
    );
    assert_eq!(
        Structure::from_variant(&Variant::Byte(0)).unwrap_err(),
        VariantError::IncorrectType
    );
}

#[test]
fn structure_decode_and_slice() {
    let v = Structure::new()
        .add_field(Variant::Uint32(5))
        .add_field(Variant::Str("ok".into()))
        .to_variant();
    let bytes = v.encode(EncodingFormat::DBus);
    let total = bytes.len();
    let data = SharedData::new(bytes);
    let sliced = Structure::slice_data(&data, "(us)", EncodingFormat::DBus).unwrap();
    assert_eq!(sliced.len(), total);
    let st = Structure::decode(&data, "(us)", EncodingFormat::DBus).unwrap();
    assert_eq!(st.fields(), &[Variant::Uint32(5), Variant::Str("ok".into())]);
}

#[test]
fn shared_data_windows_keep_absolute_positions() {
    let data = SharedData::new(vec![10, 11, 12, 13, 14, 15]);
    assert_eq!(data.len(), 6);
    assert_eq!(data.position(), 0);
    let t = data.tail(2);
    assert_eq!(t.position(), 2);
    assert_eq!(t.len(), 4);
    assert_eq!(t.get(0), 12);
    let h = t.head(2);
    assert_eq!(h.position(), 2);
    assert_eq!(h.len(), 2);
    assert_eq!(h.get(1), 13);
    assert_eq!(h.range_vec(0, 2), vec![12, 13]);
}

#[test]
fn decode_ignores_trailing_junk() {
    let mut bytes = Variant::Uint32(9).encode(EncodingFormat::DBus);
    let clean_len = bytes.len();
    bytes.extend_from_slice(&[0xde, 0xad]);
    let data = SharedData::new(bytes);
    let sliced = slice_data(&data, "u", EncodingFormat::DBus).unwrap();
    assert_eq!(sliced.len(), clean_len);
    assert_eq!(
        Variant::from_data(&data, "u", EncodingFormat::DBus).unwrap(),
        Variant::Uint32(9)
    );
}

#[test]
fn signature_of_values_is_dynamic() {
    assert_eq!(Variant::Byte(0).signature(), "y");
    assert_eq!(Variant::UnixFd(1).signature(), "h");
    assert_eq!(
        Variant::DictEntry(Box::new(Variant::Str("k".into())), Box::new(Variant::Byte(0)))
            .signature(),
        "{sy}"
    );
    let st = Structure::new();
    assert_eq!(st.signature(), "()");
}
