use bytes::BytesMut;
use simple_redis::{
    handle_request,
    Backend, BulkString, Command, CommandError, Echo, Get, HGet, HGetAll, HMGet, HSet, RespArray,
    RespError, RespFrame, RespNull, SAdd, SetValue, SimpleString, SisMember,
};

fn bulk(s: &[u8]) -> RespFrame {
    RespFrame::BulkString(BulkString::new(s.to_vec()))
}

fn ok() -> RespFrame {
    RespFrame::SimpleString(SimpleString::new(b"OK".to_vec()))
}

fn array(items: Vec<RespFrame>) -> RespArray {
    RespArray::new(items)
}

#[test]
fn test_echo_from_resp_array() {
    let mut buf = BytesMut::new();
    buf.extend_from_slice(b"*2\r\n$4\r\necho\r\n$5\r\nhello\r\n");

    let frame = RespArray::decode(&mut buf).unwrap();

    let result = Echo::try_from(frame).unwrap();
    assert_eq!(result.message, "hello");
}

#[test]
fn test_echo_commands() {
    let mut backend = Backend::new();
    let cmd = Command::Echo(Echo { message: "hello".to_string() });
    let result = cmd.execute(&mut backend);
    assert_eq!(result, bulk(b"hello"));
}

#[test]
fn test_command() {
    let mut buf = BytesMut::new();
    buf.extend_from_slice(b"*2\r\n$3\r\nget\r\n$5\r\nhello\r\n");

    let frame = RespArray::decode(&mut buf).unwrap();

    let cmd = Command::try_from(frame).unwrap();

    let mut backend = Backend::new();

    let ret = cmd.execute(&mut backend);
    assert_eq!(ret, RespFrame::Null(RespNull));
}

#[test]
fn test_sadd_from_resp_array() {
    let mut buf = BytesMut::new();
    buf.extend_from_slice(b"*3\r\n$4\r\nsadd\r\n$3\r\nkey\r\n$6\r\nmember\r\n");

    let frame = RespArray::decode(&mut buf).unwrap();

    let result = SAdd::try_from(frame).unwrap();
    assert_eq!(result.key, "key");
    assert_eq!(result.member, "member");
}

#[test]
fn test_sismember_from_resp_array() {
    let mut buf = BytesMut::new();
    buf.extend_from_slice(b"*3\r\n$9\r\nsismember\r\n$3\r\nkey\r\n$6\r\nmember\r\n");

    let frame = RespArray::decode(&mut buf).unwrap();

    let result = SisMember::try_from(frame).unwrap();
    assert_eq!(result.key, "key");
    assert_eq!(result.member, "member");
}

#[test]
fn test_sadd_sismember_commands() {
    let mut backend = Backend::new();
    let cmd = Command::SAdd(SAdd { key: "key".to_string(), member: "member".to_string() });
    let result = cmd.execute(&mut backend);
    assert_eq!(result, RespFrame::Integer(1));

    let cmd = Command::SisMember(SisMember { key: "key".to_string(), member: "member".to_string() });
    let result = cmd.execute(&mut backend);
    assert_eq!(result, RespFrame::Integer(1));

    let cmd = Command::SisMember(SisMember { key: "key".to_string(), member: "member1".to_string() });
    let result = cmd.execute(&mut backend);
    assert_eq!(result, RespFrame::Integer(0));
}

#[test]
fn echo_decode_and_execute() {
    let mut buf = BytesMut::new();
    buf.extend_from_slice(b"*2\r\n$4\r\necho\r\n$5\r\nhello\r\n");
    let frame = RespFrame::decode(&mut buf).unwrap();
    let cmd = Command::try_from_frame(frame).unwrap();
    match &cmd {
        Command::Echo(e) => assert_eq!(e.message, "hello"),
        _ => panic!("expected echo"),
    }
    let mut backend = Backend::new();
    assert_eq!(cmd.execute(&mut backend), bulk(b"hello"));
}

#[test]
fn set_then_get() {
    let mut backend = Backend::new();
    let cmd = Command::try_from(array(vec![bulk(b"SET"), bulk(b"k"), RespFrame::Integer(5)])).unwrap();
    assert_eq!(cmd.execute(&mut backend), ok());
    let cmd = Command::try_from(array(vec![bulk(b"get"), bulk(b"k")])).unwrap();
    assert_eq!(cmd.execute(&mut backend), RespFrame::Integer(5));
    let cmd = Command::Get(Get { key: "other".to_string() });
    assert_eq!(cmd.execute(&mut backend), RespFrame::Null(RespNull));
}

#[test]
fn hash_commands() {
    let mut backend = Backend::new();
    for (f, v) in [("b", 2), ("a", 1), ("c", 3), ("b", 20)] {
        let cmd = Command::HSet(HSet { key: "h".to_string(), field: f.to_string(), value: RespFrame::Integer(v) });
        assert_eq!(cmd.execute(&mut backend), ok());
    }
    let cmd = Command::HGet(HGet { key: "h".to_string(), field: "b".to_string() });
    assert_eq!(cmd.execute(&mut backend), RespFrame::Integer(20));
    let cmd = Command::HGet(HGet { key: "h".to_string(), field: "z".to_string() });
    assert_eq!(cmd.execute(&mut backend), RespFrame::Null(RespNull));

    let cmd = Command::HGetAll(HGetAll { key: "h".to_string(), sort: false });
    assert_eq!(
        cmd.execute(&mut backend),
        RespFrame::Array(array(vec![
            bulk(b"b"), RespFrame::Integer(20),
            bulk(b"a"), RespFrame::Integer(1),
            bulk(b"c"), RespFrame::Integer(3),
        ]))
    );
    let cmd = Command::HGetAll(HGetAll { key: "h".to_string(), sort: true });
    assert_eq!(
        cmd.execute(&mut backend),
        RespFrame::Array(array(vec![
            bulk(b"a"), RespFrame::Integer(1),
            bulk(b"b"), RespFrame::Integer(20),
            bulk(b"c"), RespFrame::Integer(3),
        ]))
    );
    let cmd = Command::HGetAll(HGetAll { key: "none".to_string(), sort: true });
    assert_eq!(cmd.execute(&mut backend), RespFrame::Array(array(vec![])));

    let cmd = Command::HMGet(HMGet { key: "h".to_string(), fields: vec!["c".to_string(), "x".to_string(), "a".to_string()] });
    assert_eq!(
        cmd.execute(&mut backend),
        RespFrame::Array(array(vec![RespFrame::Integer(3), RespFrame::Null(RespNull), RespFrame::Integer(1)]))
    );
}

#[test]
fn hmget_and_hgetall_from_arrays() {
    let cmd = HMGet::try_from(array(vec![bulk(b"hmget"), bulk(b"h"), bulk(b"f1"), bulk(b"f2")])).unwrap();
    assert_eq!(cmd.key, "h");
    assert_eq!(cmd.fields, vec!["f1".to_string(), "f2".to_string()]);
    let err = HMGet::try_from(array(vec![bulk(b"hmget"), bulk(b"h")]));
    assert!(matches!(err, Err(CommandError::InvalidArgument(_))));
    let cmd = HGetAll::try_from(array(vec![bulk(b"HGETALL"), bulk(b"h")])).unwrap();
    assert_eq!(cmd.key, "h");
    assert!(!cmd.sort);
    let cmd = SetValue::try_from(array(vec![bulk(b"set"), bulk(b"k"), bulk(b"v")])).unwrap();
    assert_eq!(cmd.key, "k");
    assert_eq!(cmd.value, bulk(b"v"));
}

#[test]
fn unknown_command_is_unrecognized() {
    let cmd = Command::try_from(array(vec![bulk(b"FOO"), bulk(b"x")])).unwrap();
    assert!(matches!(cmd, Command::Unrecognized(_)));
    let mut backend = Backend::new();
    assert_eq!(cmd.execute(&mut backend), ok());
}

#[test]
fn command_errors() {
    let r = Command::try_from(array(vec![bulk(b"get")]));
    assert!(matches!(r, Err(CommandError::InvalidArgument(_))));
    let r = Command::try_from(array(vec![RespFrame::Integer(1)]));
    assert!(matches!(r, Err(CommandError::InvalidCommand(_))));
    let r = Command::try_from(array(vec![RespFrame::BulkString(BulkString::null())]));
    assert!(matches!(r, Err(CommandError::InvalidCommand(_))));
    let r = Command::try_from(array(vec![RespFrame::BulkString(BulkString::null()), bulk(b"x")]));
    assert!(matches!(r, Err(CommandError::InvalidCommand(_))));
    let r = Command::try_from(array(vec![]));
    assert!(matches!(r, Err(CommandError::InvalidCommand(_))));
    let r = Command::try_from_frame(RespFrame::Integer(3));
    assert!(matches!(r, Err(CommandError::InvalidCommand(_))));
    let r = Echo::try_from(array(vec![bulk(b"get"), bulk(b"x")]));
    assert!(matches!(r, Err(CommandError::InvalidCommand(_))));
    let r = Command::try_from(array(vec![bulk(b"get"), RespFrame::Integer(1)]));
    assert!(matches!(r, Err(CommandError::InvalidArgument(_))));
    let r = Command::try_from(array(vec![bulk(b"get"), RespFrame::BulkString(BulkString::null())]));
    assert!(matches!(r, Err(CommandError::InvalidArgument(_))));
    let r = SAdd::try_from(array(vec![bulk(b"sadd"), RespFrame::BulkString(BulkString::null()), bulk(b"m")]));
    assert!(matches!(r, Err(CommandError::InvalidArgument(_))));
    let r = Echo::try_from(array(vec![bulk(b"echo"), RespFrame::BulkString(BulkString::null())]));
    assert!(matches!(r, Err(CommandError::InvalidArgument(_))));
    let r = Command::try_from(array(vec![bulk(b"get"), bulk(&[0xff, 0xfe])]));
    assert_eq!(r.err(), Some(CommandError::Utf8Error));
}

#[test]
fn sadd_reports_one_even_when_present() {
    let mut backend = Backend::new();
    for _ in 0..2 {
        let cmd = Command::SAdd(SAdd { key: "s".to_string(), member: "m".to_string() });
        assert_eq!(cmd.execute(&mut backend), RespFrame::Integer(1));
    }
    assert!(backend.sismember(&"s".to_string(), &"m".to_string()));
    assert!(!backend.sismember(&"t".to_string(), &"m".to_string()));
}

#[test]
fn handle_request_pipeline() {
    let mut backend = Backend::new();
    let mut buf = BytesMut::new();
    buf.extend_from_slice(b"*3\r\n$3\r\nset\r\n$1\r\nk\r\n$1\r\nv\r\n*2\r\n$3\r\nget\r\n$1\r\nk\r\n*2\r\n$4\r\necho");
    assert_eq!(handle_request(&mut buf, &mut backend), Ok(b"+OK\r\n".to_vec()));
    assert_eq!(handle_request(&mut buf, &mut backend), Ok(b"$1\r\nv\r\n".to_vec()));
    assert_eq!(handle_request(&mut buf, &mut backend), Err(RespError::NotComplete));
    assert_eq!(&buf[..], b"*2\r\n$4\r\necho");
    buf.extend_from_slice(b"\r\n$2\r\nhi\r\n");
    assert_eq!(handle_request(&mut buf, &mut backend), Ok(b"$2\r\nhi\r\n".to_vec()));
    assert!(buf.is_empty());
}

#[test]
fn handle_request_error_replies() {
    let mut backend = Backend::new();
    let mut buf = BytesMut::new();
    buf.extend_from_slice(b":5\r\n*1\r\n$3\r\nget\r\n*1\r\n$3\r\nfoo\r\n$-9\r\n");
    assert_eq!(handle_request(&mut buf, &mut backend), Ok(b"-ERR invalid command\r\n".to_vec()));
    assert_eq!(handle_request(&mut buf, &mut backend), Ok(b"-ERR invalid argument\r\n".to_vec()));
    assert_eq!(handle_request(&mut buf, &mut backend), Ok(b"+OK\r\n".to_vec()));
    assert_eq!(handle_request(&mut buf, &mut backend), Err(RespError::InvalidFrame));
    assert_eq!(&buf[..], b"$-9\r\n");
}

#[test]
fn sorted_hgetall_ignores_write_order() {
    let mut b1 = Backend::new();
    let mut b2 = Backend::new();
    for (f, v) in [("x", 1), ("m", 2), ("a", 3)] {
        Command::HSet(HSet { key: "h".to_string(), field: f.to_string(), value: RespFrame::Integer(v) }).execute(&mut b1);
    }
    for (f, v) in [("a", 3), ("x", 1), ("m", 2)] {
        Command::HSet(HSet { key: "h".to_string(), field: f.to_string(), value: RespFrame::Integer(v) }).execute(&mut b2);
    }
    let r1 = Command::HGetAll(HGetAll { key: "h".to_string(), sort: true }).execute(&mut b1);
    let r2 = Command::HGetAll(HGetAll { key: "h".to_string(), sort: true }).execute(&mut b2);
    assert_eq!(r1, r2);
    assert_eq!(
        r1,
        RespFrame::Array(array(vec![
            bulk(b"a"), RespFrame::Integer(3),
            bulk(b"m"), RespFrame::Integer(2),
            bulk(b"x"), RespFrame::Integer(1),
        ]))
    );
}
