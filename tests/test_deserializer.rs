use hessian_rs::de::Deserializer;
use hessian_rs::error::Error;
use hessian_rs::value::Value;

fn load_value_from_bytes(bytes: Vec<u8>) -> Result<Value, Error> {
    let mut de = Deserializer::new(bytes);
    de.read_value()
}

fn long_binary_bytes() -> Vec<u8> {
    let mut b = vec![0x41, 0x80, 0x00];
    b.extend(vec![0x41u8; 0x8000]);
    b.extend(vec![0x42, 0x7f, 0xff]);
    b.extend(vec![0x41u8; 0x7fff]);
    b
}

#[test]
fn test_decode_long_binary() {
    let value = load_value_from_bytes(long_binary_bytes()).unwrap();
    match value {
        Value::Bytes(bytes) => assert_eq!(bytes, vec![0x41; 65535]),
        _ => panic!("expect bytes"),
    }
}

#[test]
fn test_decode_date() {
    assert_eq!(
        load_value_from_bytes(vec![0x4b, 0x00, 0xe3, 0x83, 0x8f]).unwrap(),
        Value::Date(894621060000)
    );
    assert_eq!(
        load_value_from_bytes(vec![0x4a, 0x00, 0x00, 0x00, 0xd0, 0x4b, 0x92, 0x84, 0xb8]).unwrap(),
        Value::Date(894621091000)
    );
    assert_eq!(
        load_value_from_bytes(vec![0x4a, 0x00, 0x00, 0x75, 0x30, 0x00, 0x00, 0x00, 0x00]).unwrap(),
        Value::Date(128849018880000)
    );
    assert_eq!(
        load_value_from_bytes(vec![0x4a, 0xff, 0xff, 0x8a, 0xcf, 0xff, 0xff, 0x15, 0xa0]).unwrap(),
        Value::Date(-128849018940000)
    );
}

#[test]
fn test_decode_string() {
    assert_eq!(
        load_value_from_bytes(vec![0x00]).unwrap(),
        Value::String("".to_string())
    );
    assert_eq!(
        load_value_from_bytes(vec![0x03, b'f', b'o', b'o']).unwrap(),
        Value::String("foo".to_string())
    );
    let mut chinese = vec![0x0a];
    chinese.extend("中文 Chinese".as_bytes());
    assert_eq!(
        load_value_from_bytes(chinese).unwrap(),
        Value::String("中文 Chinese".to_string())
    );
}
