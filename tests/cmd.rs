use bytes::BytesMut;
use simple_redis::{
    extract_args, validate_command, Backend, Command, CommandEcho, CommandError, CommandExecutor,
    CommandGet, CommandHGet, CommandHGetAll, CommandHMGet, CommandHSet, CommandSet, RespArray,
    RespBulkString, RespDecode, RespFrame, RespNull, RespSimpleString,
};

fn bulk(s: &[u8]) -> RespFrame {
    RespFrame::BulkString(RespBulkString::new(s))
}

fn decode_array(b: &[u8]) -> RespArray {
    let mut buf = BytesMut::new();
    buf.extend_from_slice(b);
    RespArray::decode(&mut buf).unwrap()
}

#[test]
fn test_echo_command_from_resp_array() {
    let frame = decode_array(b"*2\r\n$4\r\necho\r\n$5\r\nhello\r\n");
    let command = CommandEcho::try_from(frame).unwrap();
    assert_eq!(command.value, b"hello");
}

#[test]
fn test_hget_command_from_resp_array() {
    let resp_array = RespArray::new(vec![bulk(b"hget"), bulk(b"map"), bulk(b"hello")]);
    let hget_command = CommandHGet::try_from(resp_array).unwrap();
    assert_eq!(hget_command.key, "map");
    assert_eq!(hget_command.field, "hello");
}

#[test]
fn test_hset_command_from_resp_array() {
    let resp_array = RespArray::new(vec![
        bulk(b"hset"),
        bulk(b"map"),
        bulk(b"hello"),
        bulk(b"world"),
    ]);
    let hset_command = CommandHSet::try_from(resp_array).unwrap();
    assert_eq!(hset_command.key, "map");
    assert_eq!(hset_command.field, "hello");
    assert_eq!(hset_command.value, bulk(b"world"));
}

#[test]
fn test_hgetall_command_from_resp_array() {
    let resp_array = RespArray::new(vec![bulk(b"hgetall"), bulk(b"map")]);
    let hgetall_command = CommandHGetAll::try_from(resp_array).unwrap();
    assert_eq!(hgetall_command.key, "map");
}

#[test]
fn test_hmget_command_from_resp_array() {
    let mut backend = Backend::new();
    backend.hset("map", "hello", bulk(b"world"));
    backend.hset("map", "hello2", bulk(b"world2"));

    let resp_array = RespArray::new(vec![
        bulk(b"hmget"),
        bulk(b"map"),
        bulk(b"hello"),
        bulk(b"hello2"),
    ]);
    let hmget_command = CommandHMGet::try_from(resp_array).unwrap();
    assert_eq!(hmget_command.key, "map");
    assert_eq!(hmget_command.fields, vec!["hello", "hello2"]);
}

#[test]
fn test_hgetall_execute() {
    let mut backend = Backend::new();
    backend.hset("map", "hello", bulk(b"world"));

    let resp_array = RespArray::new(vec![bulk(b"hgetall"), bulk(b"map")]);
    let hgetall_command = CommandHGetAll::try_from(resp_array).unwrap();
    let resp_frame = hgetall_command.execute(&mut backend);
    assert_eq!(
        resp_frame,
        RespFrame::Array(RespArray::new(vec![bulk(b"hello"), bulk(b"world")]))
    );
}

#[test]
fn test_hmget_execute() {
    let mut backend = Backend::new();
    backend.hset("map", "hello", bulk(b"world"));
    backend.hset("map", "hello2", bulk(b"world2"));

    let resp_array = RespArray::new(vec![
        bulk(b"hmget"),
        bulk(b"map"),
        bulk(b"hello"),
        bulk(b"hello2"),
        bulk(b"hello3"),
    ]);
    let hmget_command = CommandHMGet::try_from(resp_array).unwrap();
    let resp_frame = hmget_command.execute(&mut backend);
    assert_eq!(
        resp_frame,
        RespFrame::Array(RespArray::new(vec![
            bulk(b"world"),
            bulk(b"world2"),
            RespFrame::Null(RespNull),
        ]))
    );
}

#[test]
fn test_get_command_from_resp_array() {
    let frame = decode_array(b"*2\r\n$3\r\nget\r\n$5\r\nhello\r\n");
    let command = CommandGet::try_from(frame).unwrap();
    assert_eq!(command.key, "hello");
}

#[test]
fn test_set_command_from_resp_array() {
    let frame = decode_array(b"*3\r\n$3\r\nset\r\n$5\r\nhello\r\n$5\r\nworld\r\n");
    let command = CommandSet::try_from(frame).unwrap();
    assert_eq!(command.key, "hello");
    assert_eq!(command.value, bulk(b"world"));
}

#[test]
fn test_set_get_command() {
    let mut backend = Backend::new();
    let set_command = CommandSet {
        key: "hello".to_string(),
        value: bulk(b"world"),
    };
    let result = set_command.execute(&mut backend);
    assert_eq!(result, RespFrame::SimpleString(RespSimpleString::new("OK")));

    let get_command = CommandGet {
        key: "hello".to_string(),
    };
    let result = get_command.execute(&mut backend);
    assert_eq!(result, bulk(b"world"));
}

#[test]
fn test_validate_command() {
    let resp_array = RespArray::new(vec![bulk(b"get"), bulk(b"key")]);
    let result = validate_command(&resp_array, &["get"], 1);
    assert!(result.is_ok());
}

#[test]
fn test_extract_args() {
    let resp_array = RespArray::new(vec![bulk(b"get"), bulk(b"key")]);
    let args = extract_args(resp_array, 1).unwrap();
    assert_eq!(args.len(), 1);
}

#[test]
fn test_command_try_from() {
    let resp_array = RespArray::new(vec![bulk(b"get"), bulk(b"key")]);
    let command = Command::try_from(resp_array).unwrap();
    assert_eq!(command, Command::Get(CommandGet::new("key".to_string())));
}

#[test]
fn validate_command_rejects_wrong_name_and_arity() {
    let resp_array = RespArray::new(vec![bulk(b"set"), bulk(b"key")]);
    assert!(matches!(
        validate_command(&resp_array, &["get"], 1),
        Err(CommandError::InvalidCommand(_))
    ));
    let resp_array = RespArray::new(vec![bulk(b"get")]);
    assert!(matches!(
        validate_command(&resp_array, &["get"], 1),
        Err(CommandError::InvalidCommandArguments(_))
    ));
}

#[test]
fn command_errors_for_each_kind() {
    let not_array = RespArray::null();
    assert!(matches!(Command::try_from(not_array), Err(CommandError::InvalidCommand(_))));
    let empty = RespArray::new(vec![]);
    assert!(matches!(Command::try_from(empty), Err(CommandError::InvalidCommand(_))));
    let name_not_bulk = RespArray::new(vec![RespFrame::SimpleString(RespSimpleString::new("get"))]);
    assert!(matches!(
        Command::try_from(name_not_bulk),
        Err(CommandError::InvalidCommand(_))
    ));
    let arity = RespArray::new(vec![bulk(b"get"), bulk(b"a"), bulk(b"b")]);
    assert!(matches!(
        Command::try_from(arity),
        Err(CommandError::InvalidCommandArguments(_))
    ));
    let arg_type = RespArray::new(vec![bulk(b"get"), RespFrame::Null(RespNull)]);
    assert!(matches!(
        Command::try_from(arg_type),
        Err(CommandError::InvalidCommandArguments(_))
    ));
    let bad_utf8 = RespArray::new(vec![bulk(b"get"), bulk(&[0xff, 0xfe])]);
    assert!(matches!(Command::try_from(bad_utf8), Err(CommandError::FromUtf8Error)));
    let hmget_no_field = RespArray::new(vec![bulk(b"hmget"), bulk(b"map")]);
    assert!(matches!(
        Command::try_from(hmget_no_field),
        Err(CommandError::InvalidCommandArguments(_))
    ));
    let hset_value = RespArray::new(vec![
        bulk(b"hset"),
        bulk(b"map"),
        bulk(b"f"),
        RespFrame::Null(RespNull),
    ]);
    assert!(matches!(
        Command::try_from(hset_value),
        Err(CommandError::InvalidCommandArguments(_))
    ));
}

#[test]
fn command_name_case_is_ignored() {
    for name in [&b"GET"[..], &b"get"[..], &b"Get"[..]] {
        let arr = RespArray::new(vec![bulk(name), bulk(b"key")]);
        assert_eq!(
            Command::try_from(arr).unwrap(),
            Command::Get(CommandGet::new("key".to_string()))
        );
    }
}

#[test]
fn hset_then_hget_and_missing_field() {
    let mut backend = Backend::new();
    let set = Command::try_from(RespArray::new(vec![
        bulk(b"hset"),
        bulk(b"h"),
        bulk(b"f"),
        bulk(b"v"),
    ]))
    .unwrap();
    assert_eq!(set.execute(&mut backend), RespFrame::SimpleString(RespSimpleString::new("OK")));
    let get = Command::try_from(RespArray::new(vec![bulk(b"hget"), bulk(b"h"), bulk(b"f")])).unwrap();
    assert_eq!(get.execute(&mut backend), bulk(b"v"));
    let other = Command::try_from(RespArray::new(vec![bulk(b"hget"), bulk(b"h"), bulk(b"g")])).unwrap();
    assert_eq!(other.execute(&mut backend), RespFrame::Null(RespNull));
}

#[test]
fn set_overwrites_and_get_returns_any_frame() {
    let mut backend = Backend::new();
    backend.set("k", bulk(b"one"));
    let nested = RespFrame::Array(RespArray::new(vec![bulk(b"x"), RespFrame::Boolean(true)]));
    let set = CommandSet {
        key: "k".to_string(),
        value: nested.copy_frame(),
    };
    set.execute(&mut backend);
    assert_eq!(backend.get("k"), Some(nested));
}

#[test]
fn hmget_without_hash_is_one_null() {
    let mut backend = Backend::new();
    let cmd = CommandHMGet {
        key: "none".to_string(),
        fields: vec!["a".to_string(), "b".to_string()],
    };
    assert_eq!(cmd.execute(&mut backend), RespFrame::Null(RespNull));
}

#[test]
fn hgetall_sorted_orders_fields() {
    let mut backend = Backend::new();
    for f in ["m", "c", "x", "a", "k"] {
        backend.hset("h", f, bulk(f.as_bytes()));
    }
    let cmd = CommandHGetAll {
        key: "h".to_string(),
        sort: true,
    };
    let expected: Vec<RespFrame> = ["a", "c", "k", "m", "x"]
        .iter()
        .flat_map(|f| vec![bulk(f.as_bytes()), bulk(f.as_bytes())])
        .collect();
    assert_eq!(cmd.execute(&mut backend), RespFrame::Array(RespArray::new(expected)));
}

#[test]
fn hgetall_missing_key_is_null() {
    let mut backend = Backend::new();
    let cmd = CommandHGetAll {
        key: "none".to_string(),
        sort: false,
    };
    assert_eq!(cmd.execute(&mut backend), RespFrame::Null(RespNull));
}

#[test]
fn argument_types_are_checked_before_text() {
    let int = || RespFrame::Integer(simple_redis::RespInteger::new(1));
    let hmget = RespArray::new(vec![bulk(b"hmget"), bulk(&[0xff]), int()]);
    assert!(matches!(
        CommandHMGet::try_from(hmget),
        Err(CommandError::InvalidCommandArguments(_))
    ));
    let hset = RespArray::new(vec![bulk(b"hset"), bulk(&[0xff]), bulk(b"f"), int()]);
    assert!(matches!(
        CommandHSet::try_from(hset),
        Err(CommandError::InvalidCommandArguments(_))
    ));
    let hget = RespArray::new(vec![bulk(b"hget"), bulk(&[0xff]), int()]);
    assert!(matches!(
        CommandHGet::try_from(hget),
        Err(CommandError::InvalidCommandArguments(_))
    ));
    let hmget_utf8 = RespArray::new(vec![bulk(b"hmget"), bulk(b"k"), bulk(&[0xff])]);
    assert!(matches!(
        CommandHMGet::try_from(hmget_utf8),
        Err(CommandError::FromUtf8Error)
    ));
}

#[test]
fn hmget_checks_its_name_before_its_arity() {
    let wrong_name = RespArray::new(vec![bulk(b"get"), bulk(b"k")]);
    assert!(matches!(
        CommandHMGet::try_from(wrong_name),
        Err(CommandError::InvalidCommand(_))
    ));
    let no_field = RespArray::new(vec![bulk(b"HMGET"), bulk(b"k")]);
    assert!(matches!(
        CommandHMGet::try_from(no_field),
        Err(CommandError::InvalidCommandArguments(_))
    ));
}
