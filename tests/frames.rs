use bytes::BytesMut;
use simple_redis::{
    parse_frame, parse_frame_length, BulkString, RespArray, RespDouble, RespError, RespFrame,
    RespMap, RespNull, SimpleError, SimpleString,
};

fn bulk(s: &[u8]) -> RespFrame {
    RespFrame::BulkString(BulkString::new(s.to_vec()))
}

#[test]
fn test_array_encode() {
    let frame = RespFrame::Array(RespArray::new(vec![bulk(b"set"), bulk(b"hello"), bulk(b"world")]));
    assert_eq!(frame.encode(), b"*3\r\n$3\r\nset\r\n$5\r\nhello\r\n$5\r\nworld\r\n");
}

#[test]
fn test_array_decode() {
    let mut buf = BytesMut::new();
    buf.extend_from_slice(b"*2\r\n$3\r\nset\r\n$5\r\nhello\r\n");

    let frame = RespArray::decode(&mut buf).unwrap();
    assert_eq!(frame, RespArray::new(vec![bulk(b"set"), bulk(b"hello")]));

    buf.extend_from_slice(b"*2\r\n$3\r\nset\r\n");
    let ret = RespArray::decode(&mut buf);
    assert_eq!(ret.unwrap_err(), RespError::NotComplete);

    buf.extend_from_slice(b"$5\r\nhello\r\n");
    let frame = RespArray::decode(&mut buf).unwrap();
    assert_eq!(frame, RespArray::new(vec![bulk(b"set"), bulk(b"hello")]));
}

#[test]
fn test_null_array_encode() {
    let frame = RespFrame::Array(RespArray::null());
    assert_eq!(frame.encode(), b"*-1\r\n");
}

#[test]
fn test_null_array_decode() {
    let mut buf = BytesMut::new();
    buf.extend_from_slice(b"*-1\r\n");

    let frame = RespArray::decode(&mut buf).unwrap();
    assert_eq!(frame, RespArray::null());
}

#[test]
fn test_bulk_string_encode() {
    let frame = RespFrame::BulkString(BulkString::new(b"Hello, world!".to_vec()));
    assert_eq!(frame.encode(), b"$13\r\nHello, world!\r\n");
}

#[test]
fn test_null_bulk_string_encode() {
    let frame = RespFrame::BulkString(BulkString::null());
    assert_eq!(frame.encode(), b"$-1\r\n");
}

#[test]
fn test_bulk_string_decode() {
    let mut buf = BytesMut::new();
    buf.extend_from_slice(b"$5\r\nhello\r\n");

    let frame = BulkString::decode(&mut buf).unwrap();
    assert_eq!(frame, BulkString::new(b"hello".to_vec()));

    buf.extend_from_slice(b"$5\r\nhello");
    let ret = BulkString::decode(&mut buf);
    assert_eq!(ret.unwrap_err(), RespError::NotComplete);

    buf.extend_from_slice(b"\r\n");
    let frame = BulkString::decode(&mut buf).unwrap();
    assert_eq!(frame, BulkString::new(b"hello".to_vec()));
}

#[test]
fn test_null_bulk_string_decode() {
    let mut buf = BytesMut::new();
    buf.extend_from_slice(b"$-1\r\n");

    let frame = BulkString::decode(&mut buf).unwrap();
    assert_eq!(frame, BulkString::null());
}

fn round_trip(f: RespFrame) {
    let copy = f.copy();
    let bytes = f.encode();
    let mut buf = BytesMut::new();
    buf.extend_from_slice(&bytes);
    buf.extend_from_slice(b"+next\r\n");
    let decoded = RespFrame::decode(&mut buf).unwrap();
    assert_eq!(decoded, copy);
    assert_eq!(&buf[..], b"+next\r\n");
}

#[test]
fn round_trip_every_kind() {
    round_trip(RespFrame::SimpleString(SimpleString::new(b"OK".to_vec())));
    round_trip(RespFrame::Error(SimpleError(b"ERR bad".to_vec())));
    round_trip(RespFrame::Integer(0));
    round_trip(RespFrame::Integer(-42));
    round_trip(RespFrame::Integer(i64::MAX));
    round_trip(RespFrame::Integer(i64::MIN));
    round_trip(bulk(b""));
    round_trip(bulk(b"a\r\nb"));
    round_trip(RespFrame::BulkString(BulkString::null()));
    round_trip(RespFrame::Array(RespArray::new(vec![])));
    round_trip(RespFrame::Array(RespArray::null()));
    round_trip(RespFrame::Null(RespNull));
    round_trip(RespFrame::Boolean(true));
    round_trip(RespFrame::Boolean(false));
    round_trip(RespFrame::Double(RespDouble(b"3.14".to_vec())));
    round_trip(RespFrame::Double(RespDouble(b"-1.5e10".to_vec())));
    round_trip(RespFrame::Dict(RespMap(vec![
        (b"a".to_vec(), RespFrame::Integer(1)),
        (b"b".to_vec(), bulk(b"x")),
    ])));
    round_trip(RespFrame::Array(RespArray::new(vec![
        RespFrame::Array(RespArray::new(vec![RespFrame::Integer(1), bulk(b"two")])),
        RespFrame::Array(RespArray::null()),
    ])));
}

#[test]
fn encode_exact_values() {
    assert_eq!(RespFrame::Integer(-7).encode(), b":-7\r\n");
    assert_eq!(RespFrame::Null(RespNull).encode(), b"_\r\n");
    assert_eq!(RespFrame::Boolean(true).encode(), b"#t\r\n");
    assert_eq!(bulk(b"").encode(), b"$0\r\n\r\n");
    assert_eq!(
        RespFrame::Dict(RespMap(vec![(b"k".to_vec(), RespFrame::Integer(1))])).encode(),
        b"%2\r\n+k\r\n:1\r\n"
    );
}

#[test]
fn truncated_input_is_not_complete_and_untouched() {
    let whole: &[u8] = b"*2\r\n*2\r\n:1\r\n$3\r\nabc\r\n%2\r\n+k\r\n#t\r\n";
    for cut in 0..whole.len() {
        let mut buf = BytesMut::new();
        buf.extend_from_slice(&whole[..cut]);
        assert_eq!(parse_frame_length(&whole[..cut]), Err(RespError::NotComplete));
        assert_eq!(RespFrame::decode(&mut buf).unwrap_err(), RespError::NotComplete);
        assert_eq!(&buf[..], &whole[..cut]);
    }
    assert_eq!(parse_frame_length(whole), Ok(whole.len()));
}

#[test]
fn scan_length_matches_decode() {
    let input: &[u8] = b"*2\r\n$3\r\nget\r\n$5\r\nhello\r\n:5\r\n";
    let n = parse_frame_length(input).unwrap();
    let (_, used) = parse_frame(input).unwrap();
    assert_eq!(n, used);
    assert_eq!(n, input.len() - 4);
}

#[test]
fn nested_array_length() {
    let inner1: &[u8] = b"*1\r\n:1\r\n";
    let inner2: &[u8] = b"*2\r\n+a\r\n$1\r\nb\r\n";
    let mut whole = b"*2\r\n".to_vec();
    whole.extend_from_slice(inner1);
    whole.extend_from_slice(inner2);
    assert_eq!(parse_frame_length(inner1), Ok(inner1.len()));
    assert_eq!(parse_frame_length(inner2), Ok(inner2.len()));
    assert_eq!(parse_frame_length(&whole), Ok(4 + inner1.len() + inner2.len()));
}

#[test]
fn negative_lengths_are_invalid() {
    assert_eq!(parse_frame_length(b"$-2\r\n"), Err(RespError::InvalidFrame));
    assert_eq!(parse_frame_length(b"*-5\r\n"), Err(RespError::InvalidFrame));
    let mut buf = BytesMut::new();
    buf.extend_from_slice(b"$-2\r\nab\r\n");
    assert_eq!(RespFrame::decode(&mut buf).unwrap_err(), RespError::InvalidFrame);
    assert_eq!(&buf[..], b"$-2\r\nab\r\n");
    assert_eq!(parse_frame_length(b"$-1\r\n"), Ok(5));
}

#[test]
fn malformed_frames_are_invalid() {
    assert_eq!(parse_frame_length(b"?x\r\n"), Err(RespError::InvalidFrame));
    assert_eq!(parse_frame_length(b":12a\r\n"), Err(RespError::InvalidFrame));
    assert_eq!(parse_frame_length(b"#x\r\n"), Err(RespError::InvalidFrame));
    assert_eq!(parse_frame_length(b"%3\r\n"), Err(RespError::InvalidFrame));
    assert_eq!(parse_frame_length(b"%0\r\n"), Err(RespError::InvalidFrame));
    assert_eq!(parse_frame_length(b",1.2.3\r\n"), Err(RespError::InvalidFrame));
    assert_eq!(parse_frame_length(b"$3\r\nabcd\r\n"), Err(RespError::InvalidFrame));
    assert_eq!(parse_frame_length(b":9223372036854775808\r\n"), Err(RespError::InvalidFrame));
    assert_eq!(parse_frame_length(b""), Err(RespError::NotComplete));
}

#[test]
fn map_keys_sorted_last_write_wins() {
    let (frame, used) = parse_frame(b"%6\r\n+b\r\n:1\r\n+a\r\n:2\r\n+b\r\n:3\r\n").unwrap();
    assert_eq!(used, 28);
    assert_eq!(
        frame,
        RespFrame::Dict(RespMap(vec![
            (b"a".to_vec(), RespFrame::Integer(2)),
            (b"b".to_vec(), RespFrame::Integer(3)),
        ]))
    );
}

#[test]
fn double_literals() {
    assert!(parse_frame(b",inf\r\n").is_ok());
    assert!(parse_frame(b",-nan\r\n").is_ok());
    assert!(parse_frame(b",.5\r\n").is_ok());
    assert!(parse_frame(b",Infinity\r\n").is_ok());
    assert!(parse_frame(b",-INF\r\n").is_ok());
    assert!(parse_frame(b",NaN\r\n").is_ok());
    assert!(parse_frame(b",infin\r\n").is_err());
    assert!(parse_frame(b",1e\r\n").is_err());
    assert!(parse_frame(b",\r\n").is_err());
}

#[test]
fn bulk_string_get_data() {
    assert_eq!(BulkString::new(b"hi".to_vec()).get_data(), Ok(b"hi".to_vec()));
    assert_eq!(BulkString::null().get_data(), Err(RespError::InvalidFrame));
}

#[test]
fn per_type_expect_length() {
    assert_eq!(BulkString::expect_length(b"$5\r\nhello\r\n"), Ok(11));
    assert_eq!(BulkString::expect_length(b"$5\r\nhel"), Err(RespError::NotComplete));
    assert_eq!(BulkString::expect_length(b"*1\r\n:1\r\n"), Err(RespError::InvalidFrame));
    assert_eq!(RespArray::expect_length(b"*1\r\n:1\r\n"), Ok(8));
    assert_eq!(RespArray::expect_length(b"*-1\r\n"), Ok(5));
    assert_eq!(RespArray::expect_length(b"$-1\r\n"), Err(RespError::InvalidFrame));
    let mut buf = BytesMut::new();
    buf.extend_from_slice(b":1\r\n");
    assert_eq!(BulkString::decode(&mut buf).unwrap_err(), RespError::InvalidFrame);
    assert_eq!(&buf[..], b":1\r\n");
}

#[test]
fn cut_non_canonical_frames_not_complete() {
    let inputs: [&[u8]; 3] = [
        b":+007\r\n",
        b"%4\r\n+b\r\n:1\r\n+a\r\n:-0\r\n",
        b"*2\r\n$3\r\nabc\r\n%2\r\n+k\r\n,1.5E+3\r\n",
    ];
    for whole in inputs {
        let n = parse_frame_length(whole).unwrap();
        assert_eq!(n, whole.len());
        for cut in 0..n {
            assert_eq!(parse_frame_length(&whole[..cut]), Err(RespError::NotComplete));
            let mut buf = BytesMut::new();
            buf.extend_from_slice(&whole[..cut]);
            assert_eq!(RespFrame::decode(&mut buf).unwrap_err(), RespError::NotComplete);
            assert_eq!(&buf[..], &whole[..cut]);
        }
    }
}

#[test]
fn map_insert_keeps_keys_sorted() {
    let mut m = RespMap::new();
    m.insert(b"b".to_vec(), RespFrame::Integer(1));
    m.insert(b"a".to_vec(), RespFrame::Integer(2));
    m.insert(b"c".to_vec(), RespFrame::Integer(3));
    m.insert(b"a".to_vec(), RespFrame::Integer(4));
    assert_eq!(
        m,
        RespMap(vec![
            (b"a".to_vec(), RespFrame::Integer(4)),
            (b"b".to_vec(), RespFrame::Integer(1)),
            (b"c".to_vec(), RespFrame::Integer(3)),
        ])
    );
}
