use zarr3::data_type::float::decode_hex;
use zarr3::data_type::float::encode_hex;
use zarr3::data_type::float::nan32;
use zarr3::data_type::float::nan64;
use zarr3::data_type::float::SpecialF32;
use zarr3::data_type::ComplexSize;
use zarr3::data_type::DataType;
use zarr3::data_type::ExtensibleDataType;
use zarr3::data_type::FloatSize;
use zarr3::data_type::IntSize;
use zarr3::data_type::NBytes;
use zarr3::json::JsonNumber;
use zarr3::json::JsonValue;

fn whole(v: i64) -> JsonValue {
    JsonValue::Number(JsonNumber {
        as_i64: Some(v),
        as_u64: if v >= 0 { Some(v as u64) } else { None },
        f64_bits: (v as f64).to_bits(),
        f32_bits: (v as f32).to_bits(),
    })
}

fn float(v: f64) -> JsonValue {
    JsonValue::Number(JsonNumber {
        as_i64: None,
        as_u64: None,
        f64_bits: v.to_bits(),
        f32_bits: (v as f32).to_bits(),
    })
}

fn text(s: &str) -> JsonValue {
    JsonValue::String(s.to_string())
}

#[test]
fn check_nan32() {
    let nan = f32::from_bits(nan32());
    assert!(nan.is_nan());
    let reference_u32 = u32::from_str_radix("7fc00000", 16).unwrap();
    assert_eq!(nan.to_bits(), reference_u32);
}

#[test]
fn check_nan64_isnan() {
    let nan = f64::from_bits(nan64());
    assert!(nan.is_nan());
    assert_eq!(nan64(), 0x7ff8_0000_0000_0000);
}

#[test]
fn special_floats() {
    assert_eq!(SpecialF32::from_bits(f32::INFINITY.to_bits()), SpecialF32::Infinity);
    assert_eq!(SpecialF32::from_bits(f32::NEG_INFINITY.to_bits()), SpecialF32::NegInfinity);
    assert_eq!(SpecialF32::from_bits(nan32()), SpecialF32::NaN);
    assert_eq!(SpecialF32::from_bits(1.0f32.to_bits()), SpecialF32::Value(1.0f32.to_bits()));
    assert_eq!(SpecialF32::Infinity.to_bits(), f32::INFINITY.to_bits());
    assert_eq!(SpecialF32::NegInfinity.to_bits(), f32::NEG_INFINITY.to_bits());
    assert_eq!(SpecialF32::NaN.to_bits(), 0x7fc0_0000);
    assert_eq!(SpecialF32::from_str("Infinity"), Some(SpecialF32::Infinity));
    assert_eq!(SpecialF32::from_str("-Infinity"), Some(SpecialF32::NegInfinity));
    assert_eq!(SpecialF32::from_str("NaN"), Some(SpecialF32::NaN));
    let other = SpecialF32::from_str("0x7fc00001").unwrap();
    assert_eq!(other.to_bits(), 0x7fc0_0001);
    assert_eq!(SpecialF32::from_bits(0x7fc0_0001).to_bits(), 0x7fc0_0001);
    assert_eq!(SpecialF32::from_str("nan"), None);
    assert_eq!(SpecialF32::from_str("0x7fc0000"), None);
}

#[test]
fn hex_text() {
    let chars: Vec<char> = "7fC00001".chars().collect();
    assert_eq!(decode_hex(&chars, 4), Some(vec![0x7f, 0xc0, 0x00, 0x01]));
    assert_eq!(decode_hex(&chars, 3), None);
    let bad: Vec<char> = "7fg00001".chars().collect();
    assert_eq!(decode_hex(&bad, 4), None);
    assert_eq!(encode_hex(&[0x7f, 0xc0, 0x00, 0x01]), "0x7fc00001");
}

#[test]
fn names_of_data_types() {
    let all = vec![
        (DataType::Bool, "bool", 1),
        (DataType::Int(IntSize::b8), "int8", 1),
        (DataType::Int(IntSize::b16), "int16", 2),
        (DataType::Int(IntSize::b32), "int32", 4),
        (DataType::Int(IntSize::b64), "int64", 8),
        (DataType::UInt(IntSize::b8), "uint8", 1),
        (DataType::UInt(IntSize::b16), "uint16", 2),
        (DataType::UInt(IntSize::b32), "uint32", 4),
        (DataType::UInt(IntSize::b64), "uint64", 8),
        (DataType::Float(FloatSize::b32), "float32", 4),
        (DataType::Float(FloatSize::b64), "float64", 8),
        (DataType::Complex(ComplexSize::b64), "complex64", 8),
        (DataType::Complex(ComplexSize::b128), "complex128", 16),
        (DataType::Raw(8), "r8", 1),
        (DataType::Raw(24), "r24", 3),
    ];
    for (dt, name, nbytes) in all {
        assert_eq!(dt.name(), name);
        assert_eq!(DataType::from_str(name), Ok(dt));
        assert_eq!(dt.nbytes(), nbytes);
        assert_eq!(dt.nbits(), nbytes * 8);
    }
    for bad in ["", "int", "int7", "float16", "complex32", "r", "r7", "r0x", "uint080", "Bool"] {
        assert!(DataType::from_str(bad).is_err(), "{}", bad);
    }
}

#[test]
fn sizes_from_bits() {
    assert_eq!(IntSize::try_from_bits(16), Some(IntSize::b16));
    assert_eq!(IntSize::try_from_bits(24), None);
    assert_eq!(FloatSize::try_from_bits(64), Some(FloatSize::b64));
    assert_eq!(FloatSize::try_from_bits(16), None);
    assert_eq!(ComplexSize::try_from_bits(128), Some(ComplexSize::b128));
    assert_eq!(ComplexSize::try_from_bits(32), None);
    assert!(DataType::Float(FloatSize::b32).has_endianness());
    assert!(!DataType::Raw(64).has_endianness());
    assert!(!DataType::Int(IntSize::b8).has_endianness());
}

#[test]
fn fill_values_as_bytes() {
    let i32t = DataType::Int(IntSize::b32);
    assert_eq!(i32t.fill_value_bytes(&whole(-2)), Some(vec![0xfe, 0xff, 0xff, 0xff]));
    assert_eq!(i32t.fill_value_bytes(&whole(258)), Some(vec![2, 1, 0, 0]));
    assert_eq!(i32t.fill_value_bytes(&whole(1 << 31)), None);
    assert_eq!(i32t.fill_value_bytes(&float(1.5)), None);
    assert_eq!(i32t.fill_value_bytes(&text("1")), None);
    let u8t = DataType::UInt(IntSize::b8);
    assert_eq!(u8t.fill_value_bytes(&whole(255)), Some(vec![255]));
    assert_eq!(u8t.fill_value_bytes(&whole(256)), None);
    assert_eq!(u8t.fill_value_bytes(&whole(-1)), None);
    assert_eq!(DataType::Bool.fill_value_bytes(&JsonValue::Bool(true)), Some(vec![1]));
    assert_eq!(DataType::Bool.fill_value_bytes(&whole(1)), None);
    let f32t = DataType::Float(FloatSize::b32);
    assert_eq!(f32t.fill_value_bytes(&float(1.0)), Some(1.0f32.to_le_bytes().to_vec()));
    assert_eq!(f32t.fill_value_bytes(&text("NaN")), Some(0x7fc0_0000u32.to_le_bytes().to_vec()));
    assert_eq!(
        f32t.fill_value_bytes(&text("-Infinity")),
        Some(f32::NEG_INFINITY.to_le_bytes().to_vec())
    );
    assert_eq!(
        f32t.fill_value_bytes(&text("0x7fc00001")),
        Some(0x7fc0_0001u32.to_le_bytes().to_vec())
    );
    assert_eq!(f32t.fill_value_bytes(&text("nope")), None);
    let f64t = DataType::Float(FloatSize::b64);
    assert_eq!(f64t.fill_value_bytes(&float(-2.5)), Some((-2.5f64).to_le_bytes().to_vec()));
    assert_eq!(
        f64t.fill_value_bytes(&text("NaN")),
        Some(0x7ff8_0000_0000_0000u64.to_le_bytes().to_vec())
    );
    let c64 = DataType::Complex(ComplexSize::b64);
    let mut want = 1.0f32.to_le_bytes().to_vec();
    want.extend_from_slice(&f32::INFINITY.to_le_bytes());
    assert_eq!(
        c64.fill_value_bytes(&JsonValue::Array(vec![float(1.0), text("Infinity")])),
        Some(want)
    );
    assert_eq!(c64.fill_value_bytes(&JsonValue::Array(vec![float(1.0)])), None);
    let raw = DataType::Raw(16);
    assert_eq!(raw.fill_value_bytes(&JsonValue::Array(vec![whole(1), whole(255)])), Some(vec![1, 255]));
    assert_eq!(raw.fill_value_bytes(&JsonValue::Array(vec![whole(1)])), None);
    assert_eq!(raw.fill_value_bytes(&JsonValue::Array(vec![whole(1), whole(256)])), None);
}

#[test]
fn default_fill_values_are_valid() {
    for dt in [
        DataType::Bool,
        DataType::Int(IntSize::b16),
        DataType::UInt(IntSize::b64),
        DataType::Float(FloatSize::b32),
        DataType::Float(FloatSize::b64),
        DataType::Complex(ComplexSize::b128),
        DataType::Raw(24),
    ] {
        let v = dt.default_fill_value();
        assert!(dt.validate_json_value(&v).is_ok());
        let b = dt.fill_value_bytes(&v).unwrap();
        assert_eq!(b.len(), dt.nbytes());
        assert!(b.iter().all(|x| *x == 0));
    }
    assert!(DataType::Bool.validate_json_value(&JsonValue::Null).is_err());
}

fn known_names() -> Vec<(&'static str, DataType)> {
    vec![
        ("bool", DataType::Bool),
        ("int8", DataType::Int(IntSize::b8)),
        ("int16", DataType::Int(IntSize::b16)),
        ("int32", DataType::Int(IntSize::b32)),
        ("int64", DataType::Int(IntSize::b64)),
        ("uint8", DataType::UInt(IntSize::b8)),
        ("uint16", DataType::UInt(IntSize::b16)),
        ("uint32", DataType::UInt(IntSize::b32)),
        ("uint64", DataType::UInt(IntSize::b64)),
        ("float32", DataType::Float(FloatSize::b32)),
        ("float64", DataType::Float(FloatSize::b64)),
        ("complex64", DataType::Complex(ComplexSize::b64)),
        ("complex128", DataType::Complex(ComplexSize::b128)),
        ("r8", DataType::Raw(8)),
        ("r16", DataType::Raw(16)),
        ("r128", DataType::Raw(128)),
    ]
}

#[test]
fn mod_roundtrip_dtypes() {
    for (s, expected) in known_names() {
        let dt = match ExtensibleDataType::from_json(text(s)) {
            Some(ExtensibleDataType::Known(d)) => d,
            other => panic!("Couldn't parse '{}': {:?}", s, other),
        };
        assert_eq!(dt, expected, "Got {:?}, expected {:?}", dt, expected);
        let s2 = dt.name();
        assert_eq!(s, &s2, "Got {:?}, expected {:?}", s2, s);
    }
}

#[test]
fn data_type_roundtrip_dtypes() {
    for (s, expected) in known_names() {
        let dt = DataType::from_str(s).unwrap_or_else(|_| panic!("Couldn't parse '{}'", s));
        assert_eq!(dt, expected, "Got {:?}, expected {:?}", dt, expected);
        let s2 = dt.name();
        assert_eq!(s, &s2, "Got {:?}, expected {:?}", s2, s);
    }
}

#[test]
fn mod_parse_unknown() {
    let v = JsonValue::Object(vec![("name".to_string(), text("newtype"))]);
    match ExtensibleDataType::from_json(v) {
        Some(ExtensibleDataType::Unknown(d)) => {
            assert_eq!(d.name, "newtype");
            assert!(d.configuration.is_none());
        }
        _ => panic!("got wrong dtype"),
    };
}

#[test]
fn data_type_parse_unknown() {
    let v = JsonValue::Object(vec![
        ("configuration".to_string(), whole(7)),
        ("name".to_string(), text("newtype")),
        ("more".to_string(), JsonValue::Null),
    ]);
    match ExtensibleDataType::from_json(v) {
        Some(ExtensibleDataType::Unknown(d)) => {
            assert_eq!(d.name, "newtype");
            assert!(matches!(d.configuration, Some(JsonValue::Number(n)) if n.as_i64 == Some(7)));
            let back = ExtensibleDataType::Unknown(d).try_into_known();
            assert!(back.is_err());
        }
        _ => panic!("got wrong dtype"),
    };
    assert!(ExtensibleDataType::from_json(text("float16")).is_none());
    assert!(ExtensibleDataType::from_json(JsonValue::Null).is_none());
    assert!(ExtensibleDataType::from_json(JsonValue::Object(vec![])).is_none());
    assert!(
        ExtensibleDataType::from_json(JsonValue::Object(vec![("name".to_string(), whole(1))])).is_none()
    );
    let known = ExtensibleDataType::from_json(text("int8")).unwrap().try_into_known();
    assert_eq!(known.ok(), Some(DataType::Int(IntSize::b8)));
}

fn default_bytes(dt: DataType) -> Vec<u8> {
    dt.fill_value_bytes(&dt.default_fill_value()).unwrap()
}

#[test]
fn mod_reflected_defaults() {
    assert_eq!(default_bytes(DataType::Bool), vec![bool::default() as u8]);
    assert_eq!(default_bytes(DataType::UInt(IntSize::b8)), u8::default().to_le_bytes());
    assert_eq!(default_bytes(DataType::UInt(IntSize::b16)), u16::default().to_le_bytes());
    assert_eq!(default_bytes(DataType::UInt(IntSize::b32)), u32::default().to_le_bytes());
    assert_eq!(default_bytes(DataType::UInt(IntSize::b64)), u64::default().to_le_bytes());
    assert_eq!(default_bytes(DataType::Int(IntSize::b8)), i8::default().to_le_bytes());
    assert_eq!(default_bytes(DataType::Int(IntSize::b16)), i16::default().to_le_bytes());
    assert_eq!(default_bytes(DataType::Int(IntSize::b32)), i32::default().to_le_bytes());
    assert_eq!(default_bytes(DataType::Int(IntSize::b64)), i64::default().to_le_bytes());
    assert_eq!(default_bytes(DataType::Float(FloatSize::b32)), f32::default().to_le_bytes());
    assert_eq!(default_bytes(DataType::Float(FloatSize::b64)), f64::default().to_le_bytes());
    let mut c64 = f32::default().to_le_bytes().to_vec();
    c64.extend_from_slice(&f32::default().to_le_bytes());
    assert_eq!(default_bytes(DataType::Complex(ComplexSize::b64)), c64);
    assert_eq!(default_bytes(DataType::Complex(ComplexSize::b128)), vec![0u8; 16]);
    assert_eq!(default_bytes(DataType::Raw(8)), <[u8; 1]>::default());
    assert_eq!(default_bytes(DataType::Raw(128)), <[u8; 16]>::default());
}

#[test]
fn data_type_reflected_defaults() {
    for (dt, zero) in [
        (DataType::Bool, vec![0u8; 1]),
        (DataType::UInt(IntSize::b16), vec![0u8; 2]),
        (DataType::Int(IntSize::b64), vec![0u8; 8]),
        (DataType::Float(FloatSize::b64), 0.0f64.to_le_bytes().to_vec()),
        (DataType::Complex(ComplexSize::b128), vec![0u8; 16]),
        (DataType::Raw(24), vec![0u8; 3]),
    ] {
        assert_eq!(default_bytes(dt), zero);
    }
}

#[test]
fn into_from_f32() {
    for (f, sf) in vec![
        (1.0f32, SpecialF32::Value(1.0f32.to_bits())),
        (f32::INFINITY, SpecialF32::Infinity),
        (f32::NEG_INFINITY, SpecialF32::NegInfinity),
    ] {
        let f2 = f32::from_bits(sf.to_bits());
        assert_eq!(f, f2);
        let sf2 = SpecialF32::from_bits(f.to_bits());
        assert_eq!(sf, sf2);
    }
    let sf = SpecialF32::from_bits(f32::NAN.to_bits());
    let f2 = f32::from_bits(sf.to_bits());
    assert_eq!(f32::NAN.to_bits(), f2.to_bits())
}

#[test]
fn ser_f32() {
    for (s, f) in vec![
        (Some("Infinity"), f32::INFINITY),
        (Some("-Infinity"), f32::NEG_INFINITY),
        (None, 1.0f32),
        (Some("NaN"), f32::from_bits(nan32())),
        (Some("0x7fc00001"), f32::from_bits(0b0111_1111__1100_0000__0000_0000__0000_0001)),
    ] {
        let sf = SpecialF32::from_bits(f.to_bits());
        let s2 = sf.to_text();
        assert_eq!(s2.as_deref(), s);
        if let Some(t) = s2 {
            assert_eq!(SpecialF32::from_str(&t).unwrap().to_bits(), f.to_bits());
        }
    }
}
