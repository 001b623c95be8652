use bytes::{BufMut, BytesMut};
use simple_redis::{
    RespArray, RespBulkError, RespBulkString, RespDecode, RespDecodeError, RespDouble, RespEncode,
    RespFrame, RespInteger, RespMap, RespNull, RespSet, RespSimpleError, RespSimpleString,
};

fn bulk(s: &[u8]) -> RespFrame {
    RespFrame::BulkString(RespBulkString::new(s))
}

fn double(x: f64) -> RespFrame {
    RespFrame::Double(RespDouble::from_text(format!("{:+e}", x).as_bytes()).unwrap())
}

fn buffer(b: &[u8]) -> BytesMut {
    let mut buf = BytesMut::new();
    buf.extend_from_slice(b);
    buf
}

#[test]
fn array_test_array_encode() {
    let frame_vec = vec![RespFrame::BulkString(RespBulkString::null()), bulk(b"hello")];
    let resp_array = RespArray::new(frame_vec);
    assert_eq!(resp_array.encode(), b"*2\r\n$-1\r\n$5\r\nhello\r\n");
}

#[test]
fn array_test_null_array_encode() {
    let resp_null_array = RespFrame::Array(RespArray::null());
    assert_eq!(resp_null_array.encode(), b"*-1\r\n");
}

#[test]
fn test_array_decode() {
    let mut buf = buffer(b"*2\r\n$5\r\nhello\r\n$5\r\nworld\r\n");
    let frame = RespArray::decode(&mut buf).unwrap();
    assert_eq!(frame, RespArray::new(vec![bulk(b"hello"), bulk(b"world")]));

    buf.clear();
    buf.extend_from_slice(b"*2\r\n$5\r\nhello\r\n+OK\r\n");
    let frame = RespArray::decode(&mut buf).unwrap();
    assert_eq!(
        frame,
        RespArray::new(vec![
            bulk(b"hello"),
            RespFrame::SimpleString(RespSimpleString::new("OK"))
        ])
    );
}

#[test]
fn test_null_array_decode() {
    let mut buf = buffer(b"*-1\r\n");
    let frame = RespArray::decode(&mut buf).unwrap();
    assert_eq!(frame, RespArray::null());
}

#[test]
fn bool_test_bool_true_encode() {
    assert_eq!(RespFrame::Boolean(true).encode(), b"#t\r\n");
    assert_eq!(RespFrame::Boolean(false).encode(), b"#f\r\n");
}

#[test]
fn test_boolean_decode() {
    let mut buf = buffer(b"#t\r\n");
    let frame = bool::decode(&mut buf).unwrap();
    assert!(frame);

    buf.clear();
    buf.extend_from_slice(b"#f\r\n");
    let frame = bool::decode(&mut buf).unwrap();
    assert!(!frame);
}

#[test]
fn bulk_error_test_bulk_error_encode() {
    let resp_bulk_error = RespFrame::BulkError(RespBulkError::new(b"Error"));
    assert_eq!(resp_bulk_error.encode(), b"!5\r\nError\r\n");
}

#[test]
fn test_bulk_error_decode() {
    let mut buf = buffer(b"!11\r\nerror error\r\n");
    let frame = RespBulkError::decode(&mut buf).unwrap();
    assert_eq!(frame, RespBulkError::new(b"error error"));

    buf.clear();
    buf.extend_from_slice(b"!11\r\nerror error\r\n\r\n");
    let frame = RespBulkError::decode(&mut buf).unwrap();
    assert_eq!(frame, RespBulkError::new(b"error error"));

    buf.clear();
    buf.extend_from_slice(b"!11\r\nerror errorx\r\n");
    let result = RespFrame::decode(&mut buf).unwrap_err();
    assert_eq!(
        result,
        RespDecodeError::InvalidFrame(
            "RespBulkError didn't end with \r\n or length not match".to_string()
        )
    );
}

#[test]
fn bulk_string_test_bulk_string_encode() {
    assert_eq!(bulk(b"hello").encode(), b"$5\r\nhello\r\n");
}

#[test]
fn bulk_string_test_null_bulk_string_encode() {
    let resp_null_bulk_string = RespFrame::BulkString(RespBulkString::null());
    assert_eq!(resp_null_bulk_string.encode(), b"$-1\r\n");
}

#[test]
fn test_bulk_string_decode() {
    let mut buf = buffer(b"$13\r\nstring string\r\n");
    let frame = RespBulkString::decode(&mut buf).unwrap();
    assert_eq!(frame, RespBulkString::new(b"string string"));

    buf.clear();
    buf.extend_from_slice(b"$13\r\nstring string\r\n\r\n");
    let frame = RespBulkString::decode(&mut buf).unwrap();
    assert_eq!(frame, RespBulkString::new(b"string string"));

    buf.clear();
    buf.extend_from_slice(b"$13\r\nstring stringx\r\n");
    let result = RespBulkString::decode(&mut buf).unwrap_err();
    assert_eq!(
        result,
        RespDecodeError::InvalidFrame(
            "RespBulkString didn't end with \r\n or length not match".to_string()
        )
    );
}

#[test]
fn test_null_bulk_string_decode() {
    let mut buf = buffer(b"$-1\r\n");
    let frame = RespBulkString::decode(&mut buf).unwrap();
    assert_eq!(frame, RespBulkString::null());
}

#[test]
fn encode_test_simple_string_encode() {
    let frame = RespFrame::SimpleString(RespSimpleString::new("OK"));
    assert_eq!(frame.encode(), b"+OK\r\n");
}

#[test]
fn encode_test_error_encode() {
    let frame = RespFrame::Error(RespSimpleError::new("Error"));
    assert_eq!(frame.encode(), b"-Error\r\n");
}

#[test]
fn encode_test_bulk_error_encode() {
    let frame = RespFrame::BulkError(RespBulkError::new(b"Error"));
    assert_eq!(frame.encode(), b"!5\r\nError\r\n");
}

#[test]
fn encode_test_integer_encode() {
    let frame = RespFrame::Integer(RespInteger::new(1));
    assert_eq!(frame.encode(), b":1\r\n");
}

#[test]
fn test_negnegtive_integer_encode() {
    let frame = RespFrame::Integer(RespInteger::new(-1));
    assert_eq!(frame.encode(), b":-1\r\n");
}

#[test]
fn encode_test_bulk_string_encode() {
    assert_eq!(bulk(b"hello").encode(), b"$5\r\nhello\r\n");
}

#[test]
fn encode_test_null_bulk_string_encode() {
    let frame = RespFrame::BulkString(RespBulkString::null());
    assert_eq!(frame.encode(), b"$-1\r\n");
}

#[test]
fn encode_test_array_encode() {
    let frame_vec = vec![RespFrame::BulkString(RespBulkString::null()), bulk(b"hello")];
    let resp_array = RespArray::new(frame_vec);
    assert_eq!(resp_array.encode(), b"*2\r\n$-1\r\n$5\r\nhello\r\n");
}

#[test]
fn encode_test_null_array_encode() {
    let frame = RespFrame::Array(RespArray::null());
    assert_eq!(frame.encode(), b"*-1\r\n");
}

#[test]
fn encode_test_null_encode() {
    let frame = RespFrame::Null(RespNull);
    assert_eq!(frame.encode(), b"_\r\n");
}

#[test]
fn encode_test_bool_true_encode() {
    assert_eq!(RespFrame::Boolean(true).encode(), b"#t\r\n");
}

#[test]
fn test_bool_false_encode() {
    assert_eq!(RespFrame::Boolean(false).encode(), b"#f\r\n");
}

#[test]
fn encode_test_double_encode() {
    assert_eq!(double(1.0).encode(), b",+1e0\r\n");
}

#[test]
fn test_double_negative_encode() {
    assert_eq!(double(-1.0).encode(), b",-1e0\r\n");
}

#[test]
fn f64_test_double_encode() {
    assert_eq!(double(123.4567).encode(), b",+1.234567e2\r\n");
    assert_eq!(double(-1.0).encode(), b",-1e0\r\n");
    assert_eq!(double(1.23456e+8).encode(), b",+1.23456e8\r\n");
    assert_eq!(double(-1.23456e-8).encode(), b",-1.23456e-8\r\n");
}

#[test]
fn test_double_decode() {
    let mut buf = buffer(b",123.456\r\n");
    let frame = RespDouble::decode(&mut buf).unwrap();
    let value: f64 = std::str::from_utf8(&frame.0).unwrap().parse().unwrap();
    assert_eq!(value, 123.456);

    buf.clear();
    buf.extend_from_slice(b",-1.23456e-9\r\n");
    let frame = RespDouble::decode(&mut buf).unwrap();
    let value: f64 = std::str::from_utf8(&frame.0).unwrap().parse().unwrap();
    assert_eq!(value, -1.23456e-9);
}

#[test]
fn integer_test_integer_encode() {
    assert_eq!(RespFrame::Integer(RespInteger::new(1)).encode(), b":1\r\n");
    assert_eq!(RespFrame::Integer(RespInteger::new(-1)).encode(), b":-1\r\n");
}

#[test]
fn test_integer_decode() {
    let mut buf = buffer(b":+123\r\n");
    let frame = RespInteger::decode(&mut buf).unwrap();
    assert_eq!(frame, RespInteger::new(123));

    buf.clear();
    buf.extend_from_slice(b":-123\r\n");
    let frame = RespInteger::decode(&mut buf).unwrap();
    assert_eq!(frame, RespInteger::new(-123));
}

#[test]
fn test_map_encode() {
    let mut map = RespMap::new();
    map.insert(RespSimpleString::new("hello"), bulk(b"world"));
    map.insert(RespSimpleString::new("foo"), double(-1.23456e-8));
    let frame = RespFrame::Mapping(map);
    assert_eq!(
        frame.encode(),
        b"%2\r\n+foo\r\n,-1.23456e-8\r\n+hello\r\n$5\r\nworld\r\n".to_vec()
    );
}

#[test]
fn test_map_decode() {
    let mut buf = buffer(b"%2\r\n+hello\r\n$5\r\nworld\r\n+foo\r\n$3\r\nbar\r\n");
    let frame = RespMap::decode(&mut buf).unwrap();
    let mut resp_map = RespMap::new();
    resp_map.insert(RespSimpleString::new("hello"), bulk(b"world"));
    resp_map.insert(RespSimpleString::new("foo"), bulk(b"bar"));
    assert_eq!(frame, resp_map);
}

#[test]
fn null_test_null_encode() {
    assert_eq!(RespFrame::Null(RespNull).encode(), b"_\r\n");
}

#[test]
fn test_null_decode() {
    let mut buf = buffer(b"_\r\n");
    let frame = RespNull::decode(&mut buf).unwrap();
    assert_eq!(frame, RespNull);
}

#[test]
fn test_set_encode() {
    let frame_vec = vec![
        RespFrame::SimpleString(RespSimpleString::new("hello")),
        double(-1.23456e-8),
    ];
    let frame = RespFrame::Members(RespSet::new(frame_vec));
    assert_eq!(frame.encode(), b"~2\r\n+hello\r\n,-1.23456e-8\r\n".to_vec());
}

#[test]
fn test_set_decode() {
    let mut buf = buffer(b"~2\r\n+hello\r\n$3\r\nfoo\r\n");
    let frame = RespSet::decode(&mut buf).unwrap();
    let resp_set = RespSet::new(vec![
        RespFrame::SimpleString(RespSimpleString::new("hello")),
        bulk(b"foo"),
    ]);
    assert_eq!(frame, resp_set);
}

#[test]
fn simple_error_test_error_encode() {
    let frame = RespFrame::Error(RespSimpleError::new("Error"));
    assert_eq!(frame.encode(), b"-Error\r\n");
}

#[test]
fn test_simple_error_decode() {
    let mut buf = buffer(b"-Error\r\n");
    let frame = RespSimpleError::decode(&mut buf).unwrap();
    assert_eq!(frame, RespSimpleError::new("Error"));
}

#[test]
fn simple_string_test_simple_string_encode() {
    let frame = RespFrame::SimpleString(RespSimpleString::new("OK"));
    assert_eq!(frame.encode(), b"+OK\r\n");
}

#[test]
fn test_simple_string_decode() {
    let mut buf = buffer(b"+OK\r\n");
    let frame = RespSimpleString::decode(&mut buf).unwrap();
    assert_eq!(frame, RespSimpleString::new("OK"));

    let mut buf = buffer(b"+OK\r");
    let ret = RespSimpleString::decode(&mut buf).unwrap_err();
    assert_eq!(ret, RespDecodeError::NotComplete);

    buf.put_u8(b'\n');
    let frame = RespSimpleString::decode(&mut buf).unwrap();
    assert_eq!(frame, RespSimpleString::new("OK"));
}
