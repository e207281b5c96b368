use bytes::{BufMut, BytesMut};
use simple_redis::{
    BulkString, RespArray, RespDecode, RespDouble, RespEncode, RespError, RespFrame, RespMap,
    RespNull, RespSet, SimpleError, SimpleString,
};

fn simple(s: &str) -> RespFrame {
    RespFrame::SimpleString(SimpleString::new(s.to_string()))
}

fn error(s: &str) -> RespFrame {
    RespFrame::Error(SimpleError::new(s.to_string()))
}

fn bulk(s: &[u8]) -> RespFrame {
    RespFrame::BulkString(BulkString::new(s.to_vec()))
}

fn double(s: &str) -> RespFrame {
    RespFrame::Double(RespDouble::new(s.as_bytes().to_vec()))
}

fn double_of(frame: RespFrame) -> f64 {
    match frame {
        RespFrame::Double(d) => std::str::from_utf8(&d.0).unwrap().parse::<f64>().unwrap(),
        other => panic!("not a double: {:?}", other),
    }
}

fn six_items() -> Vec<RespFrame> {
    vec![
        simple("OK"),
        error("ERR"),
        RespFrame::Integer(123),
        bulk(b"hello"),
        RespFrame::BulkString(BulkString::new_null()),
        RespFrame::Array(RespArray::new_null()),
    ]
}

fn three_items() -> Vec<RespFrame> {
    vec![simple("OK"), error("ERR"), RespFrame::Integer(123)]
}

fn key_value_map() -> RespMap {
    let mut map = RespMap::new();
    map.insert("key1".to_string(), RespFrame::Integer(123));
    map.insert("key2".to_string(), bulk(b"hello"));
    map
}

#[test]
fn simple_string_test_simple_string_encode() {
    assert_eq!(simple("OK").encode(), b"+OK\r\n");
}

#[test]
fn encode_test_simple_string_encode() {
    assert_eq!(simple("OK").encode(), b"+OK\r\n");
}

#[test]
fn simple_error_test_simple_error_encode() {
    assert_eq!(error("ERR").encode(), b"-ERR\r\n");
}

#[test]
fn encode_test_simple_error_encode() {
    assert_eq!(error("ERR").encode(), b"-ERR\r\n");
}

#[test]
fn integer_test_integer_encode() {
    assert_eq!(RespFrame::Integer(123).encode(), b":+123\r\n");
    assert_eq!(RespFrame::Integer(-123).encode(), b":-123\r\n");
}

#[test]
fn encode_test_integer_encode() {
    assert_eq!(RespFrame::Integer(123).encode(), b":+123\r\n");
    assert_eq!(RespFrame::Integer(-123).encode(), b":-123\r\n");
}

#[test]
fn bulk_string_test_bulk_string_encode() {
    assert_eq!(bulk(b"hello").encode(), b"$5\r\nhello\r\n");
}

#[test]
fn encode_test_bulk_string_encode() {
    assert_eq!(bulk(b"hello").encode(), b"$5\r\nhello\r\n");
}

#[test]
fn bulk_string_test_null_bulk_string_encode() {
    assert_eq!(RespFrame::BulkString(BulkString::new_null()).encode(), b"$-1\r\n");
}

#[test]
fn encode_test_null_bulk_string_encode() {
    assert_eq!(RespFrame::BulkString(BulkString::new_null()).encode(), b"$-1\r\n");
}

#[test]
fn array_test_array_encode() {
    let frame = RespFrame::Array(RespArray::new(six_items()));
    assert_eq!(frame.encode(), b"*6\r\n+OK\r\n-ERR\r\n:+123\r\n$5\r\nhello\r\n$-1\r\n*-1\r\n");
}

#[test]
fn encode_test_array_encode() {
    let frame = RespFrame::Array(RespArray::new(six_items()));
    assert_eq!(frame.encode(), b"*6\r\n+OK\r\n-ERR\r\n:+123\r\n$5\r\nhello\r\n$-1\r\n*-1\r\n");
}

#[test]
fn array_test_null_array_encode() {
    assert_eq!(RespFrame::Array(RespArray::new_null()).encode(), b"*-1\r\n");
}

#[test]
fn encode_test_null_array_encode() {
    assert_eq!(RespFrame::Array(RespArray::new_null()).encode(), b"*-1\r\n");
}

#[test]
fn null_test_null_encode() {
    assert_eq!(RespFrame::Null(RespNull).encode(), b"_\r\n");
}

#[test]
fn encode_test_null_encode() {
    assert_eq!(RespFrame::Null(RespNull).encode(), b"_\r\n");
}

#[test]
fn bool_test_bool_encode() {
    assert_eq!(RespFrame::Boolean(true).encode(), b"#t\r\n");
    assert_eq!(RespFrame::Boolean(false).encode(), b"#f\r\n");
}

#[test]
fn encode_test_bool_encode() {
    assert_eq!(RespFrame::Boolean(true).encode(), b"#t\r\n");
    assert_eq!(RespFrame::Boolean(false).encode(), b"#f\r\n");
}

fn fifteen_key_map() -> RespMap {
    let mut map = RespMap::new();
    map.insert("key01".to_string(), simple("value1"));
    map.insert("key02".to_string(), error("value2"));
    map.insert("key03".to_string(), RespFrame::Integer(123));
    map.insert("key04".to_string(), bulk(b"value4"));
    map.insert("key05".to_string(), RespFrame::BulkString(BulkString::new_null()));
    map.insert("key06".to_string(), RespFrame::Array(RespArray::new_null()));
    map.insert("key07".to_string(), RespFrame::Boolean(true));
    map.insert("key08".to_string(), RespFrame::Boolean(false));
    map.insert("key09".to_string(), double("+123.456"));
    map.insert("key10".to_string(), double("-123.456"));
    map.insert("key11".to_string(), double("+1.23456789e9"));
    map.insert("key12".to_string(), double("-1.23456789e-9"));
    map.insert("key13".to_string(), RespFrame::Array(RespArray::new(vec![])));
    map.insert("key14".to_string(), RespFrame::RespMap(RespMap::new()));
    map.insert("key15".to_string(), RespFrame::RespSet(RespSet::new(vec![])));
    map
}

const FIFTEEN_KEY_WIRE: &[u8] = b"%15\r\n\
    +key01\r\n+value1\r\n\
    +key02\r\n-value2\r\n\
    +key03\r\n:+123\r\n\
    +key04\r\n$6\r\nvalue4\r\n\
    +key05\r\n$-1\r\n\
    +key06\r\n*-1\r\n\
    +key07\r\n#t\r\n\
    +key08\r\n#f\r\n\
    +key09\r\n,+123.456\r\n\
    +key10\r\n,-123.456\r\n\
    +key11\r\n,+1.23456789e9\r\n\
    +key12\r\n,-1.23456789e-9\r\n\
    +key13\r\n*0\r\n\
    +key14\r\n%0\r\n\
    +key15\r\n~0\r\n";

#[test]
fn map_test_map_encode() {
    assert_eq!(RespFrame::RespMap(fifteen_key_map()).encode(), FIFTEEN_KEY_WIRE);
}

#[test]
fn encode_test_map_encode() {
    assert_eq!(RespFrame::RespMap(fifteen_key_map()).encode(), FIFTEEN_KEY_WIRE);
}

#[test]
fn set_test_set_encode() {
    let frame = RespFrame::RespSet(RespSet::new(six_items()));
    assert_eq!(frame.encode(), b"~6\r\n+OK\r\n-ERR\r\n:+123\r\n$5\r\nhello\r\n$-1\r\n*-1\r\n");
}

#[test]
fn encode_test_set_encode() {
    let frame = RespFrame::RespSet(RespSet::new(six_items()));
    assert_eq!(frame.encode(), b"~6\r\n+OK\r\n-ERR\r\n:+123\r\n$5\r\nhello\r\n$-1\r\n*-1\r\n");
}

fn check_simple_string_decode() {
    let mut buf = BytesMut::from("+OK\r\n");
    assert_eq!(RespFrame::decode(&mut buf).unwrap(), simple("OK"));

    buf.extend_from_slice("+hello\r".as_bytes());
    assert_eq!(RespFrame::decode(&mut buf).unwrap_err(), RespError::NotComplete);

    buf.put_u8(b'\n');
    assert_eq!(RespFrame::decode(&mut buf).unwrap(), simple("hello"));
}

#[test]
fn simple_string_test_simple_string_decode() {
    check_simple_string_decode();
}

#[test]
fn decode_test_simple_string_decode() {
    check_simple_string_decode();
}

#[test]
fn simple_error_test_simple_error_decode() {
    let mut buf = BytesMut::from("-ERR\r\n");
    assert_eq!(RespFrame::decode(&mut buf).unwrap(), error("ERR"));
}

#[test]
fn decode_test_simple_error_decode() {
    let mut buf = BytesMut::from("-ERR\r\n");
    assert_eq!(RespFrame::decode(&mut buf).unwrap(), error("ERR"));
}

fn check_integer_decode() {
    let mut buf = BytesMut::from(":123\r\n");
    assert_eq!(RespFrame::decode(&mut buf).unwrap(), RespFrame::Integer(123));

    buf.extend_from_slice(":-100\r\n".as_bytes());
    assert_eq!(RespFrame::decode(&mut buf).unwrap(), RespFrame::Integer(-100));
}

#[test]
fn integer_test_integer_decode() {
    check_integer_decode();
}

#[test]
fn decode_test_integer_decode() {
    check_integer_decode();
}

fn check_bulk_string_decode() {
    let mut buf = BytesMut::from("$5\r\nhello\r\n");
    assert_eq!(RespFrame::decode(&mut buf).unwrap(), bulk(b"hello"));

    buf.extend_from_slice("$5\r\nhello\r".as_bytes());
    assert_eq!(RespFrame::decode(&mut buf).unwrap_err(), RespError::NotComplete);

    buf.put_u8(b'\n');
    assert_eq!(RespFrame::decode(&mut buf).unwrap(), bulk(b"hello"));
}

#[test]
fn bulk_string_test_bulk_string_decode() {
    check_bulk_string_decode();
}

#[test]
fn decode_test_bulk_string_decode() {
    check_bulk_string_decode();
}

#[test]
fn bulk_string_test_null_bulk_string_decode() {
    let mut buf = BytesMut::from("$-1\r\n");
    assert_eq!(
        RespFrame::decode(&mut buf).unwrap(),
        RespFrame::BulkString(BulkString::new_null())
    );
}

#[test]
fn decode_test_null_bulk_string_decode() {
    let mut buf = BytesMut::from("$-1\r\n");
    assert_eq!(
        RespFrame::decode(&mut buf).unwrap(),
        RespFrame::BulkString(BulkString::new_null())
    );
}

#[test]
fn array_test_null_array_decode() {
    let mut buf = BytesMut::from("*-1\r\n");
    assert_eq!(RespFrame::decode(&mut buf).unwrap(), RespFrame::Array(RespArray::new_null()));
}

#[test]
fn decode_test_null_array_decode() {
    let mut buf = BytesMut::from("*-1\r\n");
    assert_eq!(RespFrame::decode(&mut buf).unwrap(), RespFrame::Array(RespArray::new_null()));
}

#[test]
fn null_test_null_decode() {
    let mut buf = BytesMut::from("_\r\n");
    assert_eq!(RespFrame::decode(&mut buf).unwrap(), RespFrame::Null(RespNull));
}

#[test]
fn decode_test_null_decode() {
    let mut buf = BytesMut::from("_\r\n");
    assert_eq!(RespFrame::decode(&mut buf).unwrap(), RespFrame::Null(RespNull));
}

fn check_boolean_decode() {
    let mut buf = BytesMut::from("#t\r\n");
    assert_eq!(RespFrame::decode(&mut buf).unwrap(), RespFrame::Boolean(true));

    buf = BytesMut::from("#f\r\n");
    assert_eq!(RespFrame::decode(&mut buf).unwrap(), RespFrame::Boolean(false));
}

#[test]
fn bool_test_boolean_decode() {
    check_boolean_decode();
}

#[test]
fn decode_test_boolean_decode() {
    check_boolean_decode();
}

fn check_float_decode() {
    let mut buf = BytesMut::from(",5.14\r\n");
    assert_eq!(double_of(RespFrame::decode(&mut buf).unwrap()), 5.14);

    let mut buf = BytesMut::from(",-5.14\r\n");
    assert_eq!(double_of(RespFrame::decode(&mut buf).unwrap()), -5.14);

    let mut buf = BytesMut::from(",-5.14e9\r\n");
    assert_eq!(double_of(RespFrame::decode(&mut buf).unwrap()), -5.14e9);

    let mut buf = BytesMut::from(",5.14e-9\r\n");
    assert_eq!(double_of(RespFrame::decode(&mut buf).unwrap()), 5.14e-9);
}

#[test]
fn double_test_float_decode() {
    check_float_decode();
}

#[test]
fn decode_test_float_decode() {
    check_float_decode();
}

fn check_map_decode() {
    let mut buf = BytesMut::from("%2\r\n+key1\r\n:123\r\n+key2\r\n$5\r\nhello\r\n");
    assert_eq!(RespFrame::decode(&mut buf).unwrap(), RespFrame::RespMap(key_value_map()));

    buf.extend_from_slice("%2\r\n+key1\r\n:123\r\n+key2\r\n".as_bytes());
    assert_eq!(RespFrame::decode(&mut buf).unwrap_err(), RespError::NotComplete);

    buf.extend_from_slice("$5\r\nhello\r\n".as_bytes());
    assert_eq!(RespFrame::decode(&mut buf).unwrap(), RespFrame::RespMap(key_value_map()));
}

#[test]
fn map_test_map_decode() {
    check_map_decode();
}

#[test]
fn decode_test_map_decode() {
    check_map_decode();
}

fn check_set_decode() {
    let mut buf = BytesMut::from("~3\r\n+OK\r\n-ERR\r\n:123\r\n");
    assert_eq!(RespFrame::decode(&mut buf).unwrap(), RespFrame::RespSet(RespSet::new(three_items())));

    buf.extend_from_slice("~3\r\n+OK\r\n-ERR\r\n".as_bytes());
    assert_eq!(RespFrame::decode(&mut buf).unwrap_err(), RespError::NotComplete);

    buf.extend_from_slice(":123\r\n".as_bytes());
    assert_eq!(RespFrame::decode(&mut buf).unwrap(), RespFrame::RespSet(RespSet::new(three_items())));
}

#[test]
fn set_test_set_decode() {
    check_set_decode();
}

#[test]
fn decode_test_set_decode() {
    check_set_decode();
}

fn check_array_decode() {
    let mut buf = BytesMut::from("*3\r\n+OK\r\n-ERR\r\n:123\r\n");
    assert_eq!(RespFrame::decode(&mut buf).unwrap(), RespFrame::Array(RespArray::new(three_items())));

    buf.extend_from_slice("*3\r\n+OK\r\n-ERR\r\n".as_bytes());
    assert_eq!(RespFrame::decode(&mut buf).unwrap_err(), RespError::NotComplete);

    buf.extend_from_slice(":123\r\n".as_bytes());
    assert_eq!(RespFrame::decode(&mut buf).unwrap(), RespFrame::Array(RespArray::new(three_items())));
}

#[test]
fn array_test_array_decode() {
    check_array_decode();
}

#[test]
fn decode_test_array_decode() {
    check_array_decode();
}
