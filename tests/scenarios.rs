use bytes::BytesMut;
use simple_redis::{
    find_nth_crlf, serve_one, serve_pending, Backend, RespArray, RespBulkError, RespBulkString, RespDecode, RespDecodeError,
    RespDouble, RespEncode, RespFrame, RespInteger, RespMap, RespNull, RespSet, RespSimpleError,
    RespSimpleString, Step,
};

fn buffer(b: &[u8]) -> BytesMut {
    let mut buf = BytesMut::new();
    buf.extend_from_slice(b);
    buf
}

fn bulk(s: &[u8]) -> RespFrame {
    RespFrame::BulkString(RespBulkString::new(s))
}

fn reply(backend: &mut Backend, request: &[u8]) -> Vec<u8> {
    let mut buf = buffer(request);
    match serve_one(&mut buf, backend) {
        Step::Reply(bytes) => {
            assert!(buf.is_empty());
            bytes
        }
        Step::NeedMore => panic!("request not complete"),
        Step::Fail(bytes) => panic!("request refused: {:?}", String::from_utf8_lossy(&bytes)),
    }
}

#[test]
fn scenario_set_get() {
    let mut backend = Backend::new();
    let r = reply(&mut backend, b"*3\r\n$3\r\nSET\r\n$5\r\nhello\r\n$5\r\nworld\r\n");
    assert_eq!(r, b"+OK\r\n");
    let r = reply(&mut backend, b"*2\r\n$3\r\nGET\r\n$5\r\nhello\r\n");
    assert_eq!(r, b"$5\r\nworld\r\n");
}

#[test]
fn scenario_get_missing() {
    let mut backend = Backend::new();
    let r = reply(&mut backend, b"*2\r\n$3\r\nGET\r\n$6\r\nabsent\r\n");
    assert_eq!(r, b"_\r\n");
}

#[test]
fn scenario_hset_then_hgetall() {
    let mut backend = Backend::new();
    let r = reply(&mut backend, b"*4\r\n$4\r\nHSET\r\n$3\r\nmap\r\n$1\r\na\r\n$1\r\n1\r\n");
    assert_eq!(r, b"+OK\r\n");
    let r = reply(&mut backend, b"*4\r\n$4\r\nHSET\r\n$3\r\nmap\r\n$1\r\nb\r\n$1\r\n2\r\n");
    assert_eq!(r, b"+OK\r\n");
    let r = reply(&mut backend, b"*2\r\n$7\r\nHGETALL\r\n$3\r\nmap\r\n");
    let a_first = b"*4\r\n$1\r\na\r\n$1\r\n1\r\n$1\r\nb\r\n$1\r\n2\r\n".to_vec();
    let b_first = b"*4\r\n$1\r\nb\r\n$1\r\n2\r\n$1\r\na\r\n$1\r\n1\r\n".to_vec();
    assert!(r == a_first || r == b_first, "{:?}", String::from_utf8_lossy(&r));
}

#[test]
fn scenario_hmget_with_a_miss() {
    let mut backend = Backend::new();
    backend.hset("map", "a", bulk(b"1"));
    let r = reply(&mut backend, b"*4\r\n$5\r\nHMGET\r\n$3\r\nmap\r\n$1\r\na\r\n$1\r\nz\r\n");
    assert_eq!(r, b"*2\r\n$1\r\n1\r\n_\r\n");
}

#[test]
fn scenario_echo() {
    let mut backend = Backend::new();
    let r = reply(&mut backend, b"*2\r\n$4\r\nECHO\r\n$5\r\nhello\r\n");
    assert_eq!(r, b"$5\r\nhello\r\n");
}

#[test]
fn scenario_unknown_command() {
    let mut backend = Backend::new();
    let r = reply(&mut backend, b"*1\r\n$4\r\nNOPE\r\n");
    assert_eq!(r, b"-Unknown command\r\n");
}

#[test]
fn invalid_command_is_a_simple_error_reply() {
    let mut backend = Backend::new();
    let r = reply(&mut backend, b"*1\r\n$3\r\nGET\r\n");
    assert_eq!(r[0], b'-');
}

#[test]
fn incomplete_request_needs_more_and_keeps_buffer() {
    let mut backend = Backend::new();
    let whole = b"*2\r\n$3\r\nGET\r\n$5\r\nhello\r\n";
    let mut buf = buffer(&whole[..10]);
    assert!(matches!(serve_one(&mut buf, &mut backend), Step::NeedMore));
    assert_eq!(&buf[..], &whole[..10]);
    buf.extend_from_slice(&whole[10..]);
    assert!(matches!(serve_one(&mut buf, &mut backend), Step::Reply(_)));
}

#[test]
fn garbage_request_fails() {
    let mut backend = Backend::new();
    let mut buf = buffer(b"?abc\r\n");
    assert!(matches!(serve_one(&mut buf, &mut backend), Step::Fail(_)));
}

#[test]
fn pipelined_requests_answer_in_order() {
    let mut backend = Backend::new();
    let mut buf = buffer(
        b"*3\r\n$3\r\nSET\r\n$1\r\nk\r\n$1\r\nv\r\n*2\r\n$3\r\nGET\r\n$1\r\nk\r\n*2\r\n$4\r\nECHO\r\n$2\r\nhi\r\n",
    );
    let mut replies = Vec::new();
    while let Step::Reply(bytes) = serve_one(&mut buf, &mut backend) {
        replies.push(bytes);
    }
    assert_eq!(
        replies,
        vec![b"+OK\r\n".to_vec(), b"$1\r\nv\r\n".to_vec(), b"$2\r\nhi\r\n".to_vec()]
    );
}

fn sample_frames() -> Vec<RespFrame> {
    let mut map = RespMap::new();
    map.insert(RespSimpleString::new("b"), RespFrame::Integer(RespInteger::new(i64::MIN)));
    map.insert(RespSimpleString::new("a"), RespFrame::Null(RespNull));
    vec![
        RespFrame::SimpleString(RespSimpleString::new("OK")),
        RespFrame::Error(RespSimpleError::new("ERR bad")),
        RespFrame::Integer(RespInteger::new(i64::MAX)),
        RespFrame::Integer(RespInteger::new(-42)),
        bulk(b""),
        bulk(b"bin\r\nary"),
        RespFrame::BulkString(RespBulkString::null()),
        RespFrame::Array(RespArray::null()),
        RespFrame::Array(RespArray::new(vec![])),
        RespFrame::Null(RespNull),
        RespFrame::Boolean(false),
        RespFrame::Double(RespDouble::from_text(b"-1.5e-3").unwrap()),
        RespFrame::Double(RespDouble::from_text(b"inf").unwrap()),
        RespFrame::Mapping(map),
        RespFrame::Members(RespSet::new(vec![bulk(b"x"), RespFrame::Boolean(true)])),
        RespFrame::Array(RespArray::new(vec![
            RespFrame::Array(RespArray::new(vec![bulk(b"deep")])),
            RespFrame::BulkError(RespBulkError::new(b"oops")),
        ])),
    ]
}


#[test]
fn round_trip_on_samples() {
    for f in sample_frames() {
        let encoded = f.copy_frame().encode();
        let mut buf = buffer(&encoded);
        buf.extend_from_slice(b"+next\r\n");
        let decoded = RespFrame::decode(&mut buf).unwrap();
        assert_eq!(decoded, f);
        assert_eq!(&buf[..], b"+next\r\n");
    }
}

#[test]
fn incremental_decode_on_samples() {
    for f in sample_frames() {
        let encoded = f.copy_frame().encode();
        for k in 0..encoded.len() {
            let mut buf = buffer(&encoded[..k]);
            assert_eq!(RespFrame::decode(&mut buf), Err(RespDecodeError::NotComplete));
            assert_eq!(&buf[..], &encoded[..k]);
            buf.extend_from_slice(&encoded[k..]);
            assert_eq!(RespFrame::decode(&mut buf).unwrap(), f);
            assert!(buf.is_empty());
        }
    }
}

#[test]
fn empty_bulk_string_is_not_null() {
    assert_eq!(bulk(b"").encode(), b"$0\r\n\r\n");
    let mut buf = buffer(b"$0\r\n\r\n");
    assert_eq!(RespFrame::decode(&mut buf).unwrap(), bulk(b""));
    let mut buf = buffer(b"$-1\r\n");
    assert_eq!(
        RespFrame::decode(&mut buf).unwrap(),
        RespFrame::BulkString(RespBulkString::null())
    );
}

#[test]
fn short_buffer_is_not_complete() {
    let mut buf = buffer(b"+O");
    assert_eq!(RespFrame::decode(&mut buf), Err(RespDecodeError::NotComplete));
    assert_eq!(&buf[..], b"+O");
}

#[test]
fn decode_error_kinds() {
    let mut buf = buffer(b"?what\r\n");
    assert!(matches!(RespFrame::decode(&mut buf), Err(RespDecodeError::InvalidFrameType(_))));
    let mut buf = buffer(b":12a\r\n");
    assert_eq!(RespFrame::decode(&mut buf), Err(RespDecodeError::ParseError));
    let mut buf = buffer(b"$x\r\nab\r\n");
    assert_eq!(RespFrame::decode(&mut buf), Err(RespDecodeError::ParseError));
    let mut buf = buffer(b"#x\r\n");
    assert!(matches!(RespFrame::decode(&mut buf), Err(RespDecodeError::InvalidFrame(_))));
    let mut buf = buffer(b"$-2\r\n");
    assert!(matches!(RespFrame::decode(&mut buf), Err(RespDecodeError::InvalidFrame(_))));
    let mut buf = buffer(b"%1\r\n$1\r\nk\r\n:1\r\n");
    assert!(matches!(RespFrame::decode(&mut buf), Err(RespDecodeError::InvalidFrameType(_))));
    let mut buf = buffer(b",1.2.3\r\n");
    assert_eq!(RespFrame::decode(&mut buf), Err(RespDecodeError::ParseError));
    let mut buf = buffer(b":99999999999999999999\r\n");
    assert_eq!(RespFrame::decode(&mut buf), Err(RespDecodeError::ParseError));
    let mut buf = buffer(b"+OK\r\n");
    assert!(matches!(RespArray::decode(&mut buf), Err(RespDecodeError::InvalidFrameType(_))));
    assert_eq!(&buf[..], b"+OK\r\n");
}

#[test]
fn nesting_deeper_than_the_cap_is_refused() {
    let mut ok = Vec::new();
    for _ in 0..128 {
        ok.extend_from_slice(b"*1\r\n");
    }
    ok.extend_from_slice(b":1\r\n");
    let mut buf = buffer(&ok);
    assert!(RespFrame::decode(&mut buf).is_ok());

    let mut deep = b"*1\r\n".to_vec();
    deep.extend_from_slice(&ok);
    let mut buf = buffer(&deep);
    assert!(matches!(RespFrame::decode(&mut buf), Err(RespDecodeError::InvalidFrame(_))));
}

#[test]
fn map_keys_come_out_sorted_and_later_wins() {
    let mut buf = buffer(b"%3\r\n+b\r\n:1\r\n+a\r\n:2\r\n+b\r\n:3\r\n");
    let frame = RespFrame::decode(&mut buf).unwrap();
    assert_eq!(frame.encode(), b"%2\r\n+a\r\n:2\r\n+b\r\n:3\r\n");
}

#[test]
fn integer_text_edges() {
    assert_eq!(
        RespFrame::Integer(RespInteger::new(i64::MIN)).encode(),
        b":-9223372036854775808\r\n"
    );
    let mut buf = buffer(b":-9223372036854775808\r\n");
    assert_eq!(RespInteger::decode(&mut buf).unwrap(), RespInteger::new(i64::MIN));
    let mut buf = buffer(b":9223372036854775808\r\n");
    assert_eq!(RespInteger::decode(&mut buf), Err(RespDecodeError::ParseError));
}

#[test]
fn find_nth_crlf_positions() {
    assert_eq!(find_nth_crlf(b"ab\r\ncd\r\n", 1), Some(2));
    assert_eq!(find_nth_crlf(b"ab\r\ncd\r\n", 2), Some(6));
    assert_eq!(find_nth_crlf(b"ab\r\ncd\r\n", 3), None);
    assert_eq!(find_nth_crlf(b"", 1), None);
}

#[test]
fn double_text_is_checked() {
    assert!(RespDouble::from_text(b"+1.5e2").is_some());
    assert!(RespDouble::from_text(b"nan").is_some());
    assert!(RespDouble::from_text(b"1e").is_none());
    assert!(RespDouble::from_text(b".5").is_none());
    assert!(RespDouble::from_text(b"1\r\n").is_none());
}

#[test]
fn conversions_into_frames() {
    let f: RespFrame = RespInteger::from(5).into();
    assert_eq!(f.encode(), b":5\r\n");
    let f: RespFrame = true.into();
    assert_eq!(f, RespFrame::Boolean(true));
    let f: RespFrame = RespSimpleString::new("OK").into();
    assert_eq!(f.encode(), b"+OK\r\n");
    let f: RespFrame = RespBulkString::new(b"x").into();
    assert_eq!(f, bulk(b"x"));
}

fn bulk_request(parts: &[&[u8]]) -> Vec<u8> {
    let frame = RespFrame::Array(RespArray::new(parts.iter().map(|p| bulk(p)).collect()));
    frame.encode()
}

#[test]
fn interleaved_connections_keep_their_writes() {
    let mut backend = Backend::new();
    let connections = 100;
    let rounds = 1000;
    let mut buffers: Vec<BytesMut> = (0..connections).map(|_| BytesMut::new()).collect();
    for _ in 0..rounds {
        for (c, buf) in buffers.iter_mut().enumerate() {
            let key = format!("counter{}", c);
            buf.extend_from_slice(&bulk_request(&[b"GET", key.as_bytes()]));
            let current = match serve_one(buf, &mut backend) {
                Step::Reply(bytes) => {
                    let mut b = buffer(&bytes);
                    match RespFrame::decode(&mut b).unwrap() {
                        RespFrame::BulkString(RespBulkString(Some(v))) => {
                            String::from_utf8(v).unwrap().parse::<u64>().unwrap()
                        }
                        RespFrame::Null(_) => 0,
                        other => panic!("unexpected reply {:?}", other),
                    }
                }
                _ => panic!("GET was not answered"),
            };
            let next = (current + 1).to_string();
            buf.extend_from_slice(&bulk_request(&[b"SET", key.as_bytes(), next.as_bytes()]));
            assert!(matches!(serve_one(buf, &mut backend), Step::Reply(_)));
        }
    }
    for c in 0..connections {
        let key = format!("counter{}", c);
        assert_eq!(backend.get(&key), Some(bulk(rounds.to_string().as_bytes())));
    }
}

#[test]
fn serve_pending_answers_all_complete_requests_in_order() {
    let mut backend = Backend::new();
    let mut buf = buffer(
        b"*3\r\n$3\r\nSET\r\n$1\r\nk\r\n$1\r\nv\r\n*2\r\n$3\r\nGET\r\n$1\r\nk\r\n*2\r\n$4\r\nEC",
    );
    let (out, close) = serve_pending(&mut buf, &mut backend);
    assert_eq!(out, b"+OK\r\n$1\r\nv\r\n".to_vec());
    assert!(!close);
    assert_eq!(&buf[..], b"*2\r\n$4\r\nEC");
    buf.extend_from_slice(b"HO\r\n$2\r\nhi\r\n?bad\r\n");
    let (out, close) = serve_pending(&mut buf, &mut backend);
    assert!(close);
    assert!(out.starts_with(b"$2\r\nhi\r\n-"));
}

#[test]
fn missing_crlf_messages() {
    let mut buf = buffer(b"$13\r\nstring stringx\r\n");
    assert_eq!(
        RespBulkString::decode(&mut buf),
        Err(RespDecodeError::InvalidFrame(
            "RespBulkString didn't end with \r\n or length not match".to_string()
        ))
    );
    assert_eq!(&buf[..], b"$13\r\nstring stringx\r\n");
}
