use hessian_rs::adapter::{
    from_bool, from_byte_slice, from_char, from_i16, from_i8, from_map, from_seq, from_str,
    from_struct, from_u32, from_u64, from_unit,
};
use hessian_rs::de::{from_bytes, insert_entry, Deserializer};
use hessian_rs::error::ErrorKind;
use hessian_rs::ser::{to_bytes, Serializer};
use hessian_rs::refs::resolve;
use hessian_rs::value::{key_eq, Dict, List, Value};

fn round_trip(v: Value) -> Value {
    let bytes = to_bytes(&v).unwrap();
    let mut de = Deserializer::new(bytes);
    de.read_value().unwrap()
}

#[test]
fn int_forms_at_each_boundary() {
    let cases: Vec<(i32, usize)> = vec![
        (0, 1),
        (-16, 1),
        (47, 1),
        (-17, 2),
        (48, 2),
        (-2048, 2),
        (2047, 2),
        (-2049, 3),
        (2048, 3),
        (-262144, 3),
        (262143, 3),
        (-262145, 5),
        (262144, 5),
        (i32::MIN, 5),
        (i32::MAX, 5),
    ];
    for (v, width) in cases {
        let bytes = to_bytes(&Value::Int(v)).unwrap();
        assert_eq!(bytes.len(), width, "width of {}", v);
        assert_eq!(from_bytes(bytes).unwrap(), Value::Int(v));
    }
    assert_eq!(to_bytes(&Value::Int(0)).unwrap(), vec![0x90]);
    assert_eq!(to_bytes(&Value::Int(-2048)).unwrap(), vec![0xc0, 0x00]);
    assert_eq!(to_bytes(&Value::Int(262143)).unwrap(), vec![0xd7, 0xff, 0xff]);
    assert_eq!(to_bytes(&Value::Int(-1_000_000)).unwrap(), vec![0x49, 0xff, 0xf0, 0xbd, 0xc0]);
}

#[test]
fn long_forms_at_each_boundary() {
    let cases: Vec<(i64, usize)> = vec![
        (0, 1),
        (-8, 1),
        (15, 1),
        (-9, 2),
        (16, 2),
        (2047, 2),
        (2048, 3),
        (-262144, 3),
        (262144, 5),
        (i32::MIN as i64, 5),
        (i32::MAX as i64 + 1, 9),
        (i64::MIN, 9),
        (i64::MAX, 9),
    ];
    for (v, width) in cases {
        let bytes = to_bytes(&Value::Long(v)).unwrap();
        assert_eq!(bytes.len(), width, "width of {}", v);
        assert_eq!(from_bytes(bytes).unwrap(), Value::Long(v));
    }
    assert_eq!(to_bytes(&Value::Long(0)).unwrap(), vec![0xe0]);
}

#[test]
fn dates_pick_the_minute_form_for_whole_minutes() {
    assert_eq!(
        to_bytes(&Value::Date(894621060000)).unwrap(),
        vec![0x4b, 0x00, 0xe3, 0x83, 0x8f]
    );
    assert_eq!(to_bytes(&Value::Date(894621091000)).unwrap().len(), 9);
    for ms in [0i64, 60000, -60000, 894621091000, 128849018880000, -128849018940000] {
        assert_eq!(round_trip(Value::Date(ms)), Value::Date(ms));
    }
}

#[test]
fn compact_and_full_dates_agree() {
    let compact = from_bytes(vec![0x4b, 0x00, 0x00, 0x00, 0x02]).unwrap();
    let full = from_bytes(vec![0x4a, 0, 0, 0, 0, 0, 0x01, 0xd4, 0xc0]).unwrap();
    assert_eq!(compact, Value::Date(120000));
    assert_eq!(compact, full);
}

#[test]
fn doubles_in_every_form() {
    assert_eq!(to_bytes(&Value::Double(0)).unwrap(), vec![0x5b]);
    assert_eq!(to_bytes(&Value::Double(1.0f64.to_bits())).unwrap(), vec![0x5c]);
    assert_eq!(from_bytes(vec![0x5d, 0x02]).unwrap(), Value::Double(2.0f64.to_bits()));
    assert_eq!(from_bytes(vec![0x5d, 0xff]).unwrap(), Value::Double((-1.0f64).to_bits()));
    assert_eq!(from_bytes(vec![0x5e, 0xfe, 0xd4]).unwrap(), Value::Double((-300.0f64).to_bits()));
    assert_eq!(from_bytes(vec![0x5e, 0x7f, 0xff]).unwrap(), Value::Double(32767.0f64.to_bits()));
    assert_eq!(
        from_bytes(vec![0x5f, 0x3f, 0xc0, 0x00, 0x00]).unwrap(),
        Value::Double(1.5f64.to_bits())
    );
    let tiny = f32::from_bits(0x0001_16c2);
    assert_eq!(
        from_bytes(vec![0x5f, 0x00, 0x01, 0x16, 0xc2]).unwrap(),
        Value::Double((tiny as f64).to_bits())
    );
    let x = 0.1f64.to_bits();
    assert_eq!(round_trip(Value::Double(x)), Value::Double(x));
}

#[test]
fn doubles_pick_the_most_compact_form() {
    let cases: Vec<(f64, Vec<u8>)> = vec![
        (0.0, vec![0x5b]),
        (1.0, vec![0x5c]),
        (2.0, vec![0x5d, 0x02]),
        (-1.0, vec![0x5d, 0xff]),
        (127.0, vec![0x5d, 0x7f]),
        (-128.0, vec![0x5d, 0x80]),
        (128.0, vec![0x5e, 0x00, 0x80]),
        (-300.0, vec![0x5e, 0xfe, 0xd4]),
        (32767.0, vec![0x5e, 0x7f, 0xff]),
        (-32768.0, vec![0x5e, 0x80, 0x00]),
        (32768.0, vec![0x5f, 0x47, 0x00, 0x00, 0x00]),
        (1.5, vec![0x5f, 0x3f, 0xc0, 0x00, 0x00]),
        (2.5, vec![0x5f, 0x40, 0x20, 0x00, 0x00]),
    ];
    for (d, bytes) in cases {
        assert_eq!(to_bytes(&Value::Double(d.to_bits())).unwrap(), bytes, "form of {}", d);
        assert_eq!(from_bytes(bytes).unwrap(), Value::Double(d.to_bits()));
    }
    for d in [0.1f64, -0.0, 1e300, f64::INFINITY, f64::MIN_POSITIVE, 123456789.125] {
        let bytes = to_bytes(&Value::Double(d.to_bits())).unwrap();
        assert_eq!(bytes.len(), 9, "form of {}", d);
        assert_eq!(from_bytes(bytes).unwrap(), Value::Double(d.to_bits()));
    }
    let nan = f64::NAN.to_bits();
    assert_eq!(round_trip(Value::Double(nan)), Value::Double(nan));
}

fn text_of(n: usize) -> String {
    "a".repeat(n)
}

#[test]
fn text_at_the_chunk_boundary() {
    let exact = to_bytes(&Value::String(text_of(0x8000))).unwrap();
    assert_eq!(&exact[..3], &[0x53, 0x80, 0x00]);
    assert_eq!(exact.len(), 3 + 0x8000);
    let over = to_bytes(&Value::String(text_of(0x8001))).unwrap();
    assert_eq!(&over[..3], &[0x52, 0x80, 0x00]);
    assert_eq!(&over[3 + 0x8000..], &[0x01, b'a']);
    assert_eq!(round_trip(Value::String(text_of(0x8001))), Value::String(text_of(0x8001)));
}

#[test]
fn binary_at_the_chunk_boundary() {
    let exact = to_bytes(&Value::Bytes(vec![7; 0x8000])).unwrap();
    assert_eq!(&exact[..3], &[0x42, 0x80, 0x00]);
    let over = to_bytes(&Value::Bytes(vec![7; 0x8001])).unwrap();
    assert_eq!(&over[..3], &[0x41, 0x80, 0x00]);
    assert_eq!(&over[3 + 0x8000..], &[0x21, 7]);
    assert_eq!(to_bytes(&Value::Bytes(vec![])).unwrap(), vec![0x20]);
    assert_eq!(round_trip(Value::Bytes(vec![0x41; 65535])), Value::Bytes(vec![0x41; 65535]));
}

#[test]
fn multi_byte_text_round_trips() {
    let s = "中文 Chinese".to_string();
    let bytes = to_bytes(&Value::String(s.clone())).unwrap();
    assert_eq!(bytes[0], 10);
    assert_eq!(round_trip(Value::String(s.clone())), Value::String(s));
    let long = "é".repeat(1500);
    assert_eq!(round_trip(Value::String(long.clone())), Value::String(long));
    assert_eq!(round_trip(Value::String(String::new())), Value::String(String::new()));
}

#[test]
fn composite_values_round_trip() {
    let list = Value::List(List::Typed(
        "[int".to_string(),
        vec![Value::Int(1), Value::Null, Value::Bool(true), Value::Long(-5)],
    ));
    assert_eq!(round_trip(list), Value::List(List::Typed(
        "[int".to_string(),
        vec![Value::Int(1), Value::Null, Value::Bool(true), Value::Long(-5)],
    )));
    let items: Vec<Value> = (0..10).map(Value::Int).collect();
    let expected: Vec<Value> = (0..10).map(Value::Int).collect();
    assert_eq!(round_trip(Value::List(List::Untyped(items))), Value::List(List::Untyped(expected)));
    let map = Value::Dict(Dict {
        name: Some("com.example.Car".to_string()),
        entries: vec![
            (Value::String("color".to_string()), Value::String("red".to_string())),
            (Value::Int(1), Value::Ref(0)),
        ],
    });
    let back = round_trip(map);
    assert_eq!(back, Value::Dict(Dict {
        name: Some("com.example.Car".to_string()),
        entries: vec![
            (Value::String("color".to_string()), Value::String("red".to_string())),
            (Value::Int(1), Value::Ref(0)),
        ],
    }));
}

#[test]
fn self_reference_is_written_as_a_ref() {
    let cyclic = Value::List(List::Untyped(vec![Value::Ref(0)]));
    let bytes = to_bytes(&cyclic).unwrap();
    assert_eq!(bytes, vec![0x79, 0x51, 0x90]);
    assert_eq!(from_bytes(bytes).unwrap(), Value::List(List::Untyped(vec![Value::Ref(0)])));
}

#[test]
fn dangling_reference_is_an_error() {
    let e = to_bytes(&Value::Ref(0)).unwrap_err();
    assert_eq!(e.kind, ErrorKind::DanglingReference);
    let e = from_bytes(vec![0x51, 0x90]).unwrap_err();
    assert_eq!(e.kind, ErrorKind::DanglingReference);
    let e = from_bytes(vec![0x79, 0x51, 0x91]).unwrap_err();
    assert_eq!(e.kind, ErrorKind::DanglingReference);
    let mut w = Serializer::new();
    let e = w.write_value(&Value::List(List::Untyped(vec![Value::Ref(1)]))).unwrap_err();
    assert_eq!(e.kind, ErrorKind::DanglingReference);
}

#[test]
fn malformed_and_truncated_input() {
    assert_eq!(from_bytes(vec![]).unwrap_err().kind, ErrorKind::TruncatedInput);
    assert_eq!(from_bytes(vec![0x49, 0x00]).unwrap_err().kind, ErrorKind::TruncatedInput);
    assert_eq!(from_bytes(vec![0x52, 0x00, 0x01, b'a']).unwrap_err().kind, ErrorKind::TruncatedInput);
    assert_eq!(from_bytes(vec![0x52, 0x00, 0x01, b'a', 0x49]).unwrap_err().kind, ErrorKind::MalformedTag);
    assert_eq!(from_bytes(vec![0x43]).unwrap_err().kind, ErrorKind::MalformedTag);
    assert_eq!(from_bytes(vec![0x02, 0xff, 0xfe]).unwrap_err().kind, ErrorKind::MalformedTag);
    assert_eq!(from_bytes(vec![0x57, 0x90]).unwrap_err().kind, ErrorKind::TruncatedInput);
}

#[test]
fn reader_stops_after_one_value() {
    let mut de = Deserializer::new(vec![0x91, 0x4e, 0x57, 0x90, 0x91, 0x5a]);
    assert_eq!(de.read_value().unwrap(), Value::Int(1));
    assert_eq!(de.read_value().unwrap(), Value::Null);
    assert_eq!(de.read_value().unwrap(), Value::List(List::Untyped(vec![Value::Int(0), Value::Int(1)])));
}

#[test]
fn repeated_map_key_keeps_the_last_value() {
    let bytes = vec![0x48, 0x91, 0x03, b'o', b'n', b'e', 0x91, 0x03, b'u', b'n', b'o', 0x92, 0x4e, 0x5a];
    assert_eq!(from_bytes(bytes).unwrap(), Value::Dict(Dict {
        name: None,
        entries: vec![
            (Value::Int(1), Value::String("uno".to_string())),
            (Value::Int(2), Value::Null),
        ],
    }));
    let mut entries = vec![(Value::Bool(true), Value::Int(1))];
    insert_entry(&mut entries, Value::Bool(true), Value::Int(2));
    insert_entry(&mut entries, Value::Bool(false), Value::Int(3));
    assert_eq!(entries, vec![(Value::Bool(true), Value::Int(2)), (Value::Bool(false), Value::Int(3))]);
    assert!(key_eq(&Value::Double(0), &Value::Double(0)));
    assert!(!key_eq(&Value::Double(0), &Value::Double((-0.0f64).to_bits())));
}

#[test]
fn type_names_can_be_referenced() {
    let bytes = vec![
        0x58, 0x92,
        0x71, 0x01, b'T', 0x91,
        0x71, 0x90, 0x92,
    ];
    assert_eq!(from_bytes(bytes).unwrap(), Value::List(List::Untyped(vec![
        Value::List(List::Typed("T".to_string(), vec![Value::Int(1)])),
        Value::List(List::Typed("T".to_string(), vec![Value::Int(2)])),
    ])));
}

#[test]
fn adapter_rules() {
    assert_eq!(from_unit(), Value::Null);
    assert_eq!(from_bool(true), Value::Bool(true));
    assert_eq!(from_i8(-3), Value::Int(-3));
    assert_eq!(from_i16(-300), Value::Int(-300));
    assert_eq!(from_u32(i32::MAX as u32), Value::Int(i32::MAX));
    assert_eq!(from_u32(i32::MAX as u32 + 1), Value::Long(i32::MAX as i64 + 1));
    assert_eq!(from_u64(u64::MAX), Value::Long(-1));
    assert_eq!(from_char('中'), Value::String("中".to_string()));
    assert_eq!(from_str("foo"), Value::String("foo".to_string()));
    assert_eq!(from_byte_slice(&[1, 2]), Value::Bytes(vec![1, 2]));
    assert_eq!(
        from_seq(Some("Pair".to_string()), vec![Value::Int(1)]),
        Value::List(List::Typed("Pair".to_string(), vec![Value::Int(1)]))
    );
    assert_eq!(from_seq(None, vec![]), Value::List(List::Untyped(vec![])));
    assert_eq!(
        from_map(vec![Value::Int(1), Value::Int(1), Value::Int(2)], vec![Value::Null, Value::Bool(true)]),
        Value::Dict(Dict { name: None, entries: vec![(Value::Int(1), Value::Bool(true))] })
    );
    assert_eq!(
        from_struct("Point".to_string(), vec!["x".to_string(), "y".to_string()], vec![Value::Int(1), Value::Int(2)]),
        Value::Dict(Dict {
            name: Some("Point".to_string()),
            entries: vec![
                (Value::String("x".to_string()), Value::Int(1)),
                (Value::String("y".to_string()), Value::Int(2)),
            ],
        })
    );
}

#[test]
fn references_resolve_to_registered_values() {
    let root = from_bytes(vec![0x79, 0x51, 0x90]).unwrap();
    assert!(std::ptr::eq(resolve(&root, 0).unwrap(), &root));
    assert!(resolve(&root, 1).is_none());
    let nested = from_bytes(vec![
        0x7a,
        0x79, 0x91,
        0x48, 0x90, 0x51, 0x91, 0x5a,
    ])
    .unwrap();
    assert_eq!(resolve(&nested, 1), Some(&Value::List(List::Untyped(vec![Value::Int(1)]))));
    assert_eq!(
        resolve(&nested, 2),
        Some(&Value::Dict(Dict { name: None, entries: vec![(Value::Int(0), Value::Ref(1))] }))
    );
    assert!(resolve(&nested, 3).is_none());
    assert!(resolve(&Value::Int(5), 0).is_none());
}

#[test]
fn equal_composite_keys_merge() {
    let empty = || Value::List(List::Untyped(vec![]));
    assert_eq!(
        from_map(vec![empty(), empty()], vec![Value::Int(1), Value::Int(2)]),
        Value::Dict(Dict { name: None, entries: vec![(empty(), Value::Int(2))] })
    );
    let bytes = vec![0x48, 0x78, 0x91, 0x78, 0x92, 0x5a];
    assert_eq!(
        from_bytes(bytes).unwrap(),
        Value::Dict(Dict { name: None, entries: vec![(empty(), Value::Int(2))] })
    );
    let typed = |n: &str| Value::List(List::Typed(n.to_string(), vec![Value::Int(1)]));
    assert!(key_eq(&typed("a"), &typed("a")));
    assert!(!key_eq(&typed("a"), &typed("b")));
    let m = |v: i32| Value::Dict(Dict { name: None, entries: vec![(Value::Int(0), Value::Int(v))] });
    assert!(key_eq(&m(1), &m(1)));
    assert!(!key_eq(&m(1), &m(2)));
    assert!(!key_eq(&empty(), &m(1)));
    assert!(key_eq(
        &Value::List(List::Untyped(vec![Value::Double(0)])),
        &Value::List(List::Untyped(vec![Value::Double(0)]))
    ));
    assert!(!key_eq(
        &Value::List(List::Untyped(vec![Value::Double(0)])),
        &Value::List(List::Untyped(vec![Value::Double((-0.0f64).to_bits())]))
    ));
}

#[test]
fn nested_dangling_reference_is_an_error() {
    let e = from_bytes(vec![0x79, 0x51, 0x91]).unwrap_err();
    assert_eq!(e.kind, ErrorKind::DanglingReference);
    let e = from_bytes(vec![0x48, 0x90, 0x51, 0x92, 0x5a]).unwrap_err();
    assert_eq!(e.kind, ErrorKind::DanglingReference);
}
