use bytes::Bytes;
use resp_kv::parser::parse_slice;
use resp_kv::resp_frame::RespFrame;
use resp_kv::serializer::serialize_frame;

fn wire(frame: RespFrame) -> Vec<u8> {
    let mut buf = Vec::new();
    serialize_frame(&mut buf, frame);
    buf
}

#[test]
fn test_serialize_complex_array() {
    let frame = RespFrame::Array(vec![
        RespFrame::SimpleString("OK".to_string()),
        RespFrame::BulkString(Bytes::from("foobar")),
    ]);

    let mut buf = Vec::new();

    serialize_frame(&mut buf, frame);

    let expected = b"*2\r\n+OK\r\n$6\r\nfoobar\r\n";
    assert_eq!(buf, expected);
}

#[test]
fn test_serialize_null() {
    let frame = RespFrame::Null;
    let mut buf = Vec::new();
    serialize_frame(&mut buf, frame);

    assert_eq!(buf, b"$-1\r\n");
}

#[test]
fn serialize_each_kind() {
    assert_eq!(wire(RespFrame::SimpleString("PONG".to_string())), b"+PONG\r\n");
    assert_eq!(wire(RespFrame::Error("ERR no".to_string())), b"-ERR no\r\n");
    assert_eq!(wire(RespFrame::Integer(0)), b":0\r\n");
    assert_eq!(wire(RespFrame::Integer(11)), b":11\r\n");
    assert_eq!(wire(RespFrame::Integer(-2)), b":-2\r\n");
    assert_eq!(
        wire(RespFrame::Integer(i64::MAX)),
        b":9223372036854775807\r\n"
    );
    assert_eq!(
        wire(RespFrame::Integer(i64::MIN)),
        b":-9223372036854775808\r\n"
    );
    assert_eq!(wire(RespFrame::BulkString(Bytes::new())), b"$0\r\n\r\n");
    assert_eq!(
        wire(RespFrame::BulkString(Bytes::from("hello world"))),
        b"$11\r\nhello world\r\n"
    );
    assert_eq!(wire(RespFrame::Array(vec![])), b"*0\r\n");
}

#[test]
fn serialize_text_as_utf8() {
    assert_eq!(
        wire(RespFrame::SimpleString("é✓".to_string())),
        b"+\xc3\xa9\xe2\x9c\x93\r\n"
    );
}

#[test]
fn serialize_appends_to_what_is_there() {
    let mut buf = b"+OK\r\n".to_vec();
    serialize_frame(&mut buf, RespFrame::Integer(1));
    assert_eq!(buf, b"+OK\r\n:1\r\n");
}

#[test]
fn serialize_nested_array_with_twelve_items() {
    let items: Vec<RespFrame> = (0..12).map(RespFrame::Integer).collect();
    let bytes = wire(RespFrame::Array(vec![RespFrame::Array(items), RespFrame::Null]));
    assert_eq!(
        bytes,
        b"*2\r\n*12\r\n:0\r\n:1\r\n:2\r\n:3\r\n:4\r\n:5\r\n:6\r\n:7\r\n:8\r\n:9\r\n:10\r\n:11\r\n$-1\r\n"
    );
}

#[test]
fn round_trip_of_each_kind() {
    let frames = vec![
        RespFrame::SimpleString("OK".to_string()),
        RespFrame::SimpleString("with \r inside ✓".to_string()),
        RespFrame::Error("ERR unknown command 'X'".to_string()),
        RespFrame::Integer(-9000),
        RespFrame::BulkString(Bytes::from(vec![0u8, 13, 10, 255, 36])),
        RespFrame::BulkString(Bytes::new()),
        RespFrame::Null,
        RespFrame::Array(vec![]),
        RespFrame::Array(vec![
            RespFrame::Array(vec![RespFrame::Null, RespFrame::Integer(i64::MIN)]),
            RespFrame::BulkString(Bytes::from("x")),
        ]),
    ];
    for frame in frames {
        let mut bytes = wire(frame.clone());
        let length = bytes.len();
        bytes.extend_from_slice(b"+next\r\n");
        assert_eq!(parse_slice(&bytes), Ok((frame, length)));
    }
}

#[test]
fn clone_is_deep_and_equal() {
    let frame = RespFrame::Array(vec![
        RespFrame::BulkString(Bytes::from("k")),
        RespFrame::Array(vec![RespFrame::SimpleString("s".to_string())]),
    ]);
    let copy = frame.clone();
    assert_eq!(copy, frame);
    assert_eq!(wire(copy), wire(frame));
}
