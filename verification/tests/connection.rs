use resp_kv::connection::{connection_step, Step};
use resp_kv::parser::{ByteReader, ParseError};
use resp_kv::store::Store;

fn answer(db: &mut Store, request: &[u8]) -> Vec<u8> {
    let mut reader = ByteReader::new(request);
    let mut out = Vec::new();
    assert_eq!(
        connection_step(&mut reader, false, db, 0, &mut out),
        Step::Reply
    );
    assert_eq!(reader.unread(), 0);
    out
}

#[test]
fn wire_ping() {
    let mut db = Store::new();
    assert_eq!(answer(&mut db, b"*1\r\n$4\r\nPING\r\n"), b"+PONG\r\n");
}

#[test]
fn wire_set_then_get() {
    let mut db = Store::new();
    assert_eq!(
        answer(&mut db, b"*3\r\n$3\r\nSET\r\n$3\r\nkey\r\n$5\r\nhello\r\n"),
        b"+OK\r\n"
    );
    assert_eq!(
        answer(&mut db, b"*2\r\n$3\r\nGET\r\n$3\r\nkey\r\n"),
        b"$5\r\nhello\r\n"
    );
}

#[test]
fn wire_get_of_absent_key() {
    let mut db = Store::new();
    assert_eq!(
        answer(&mut db, b"*2\r\n$3\r\nGET\r\n$4\r\nnone\r\n"),
        b"$-1\r\n"
    );
}

#[test]
fn wire_expire_of_absent_key() {
    let mut db = Store::new();
    assert_eq!(
        answer(&mut db, b"*3\r\n$6\r\nEXPIRE\r\n$3\r\nfoo\r\n$2\r\n10\r\n"),
        b":0\r\n"
    );
}

#[test]
fn wire_mset_and_mget() {
    let mut db = Store::new();
    assert_eq!(
        answer(&mut db, b"*4\r\n$4\r\nMSET\r\n$1\r\na\r\n$1\r\n1\r\n$1\r\nb\r\n"),
        b"-ERR wrong number of arguments for 'mset' command\r\n"
    );
    assert_eq!(
        answer(
            &mut db,
            b"*5\r\n$4\r\nMSET\r\n$1\r\na\r\n$1\r\n1\r\n$1\r\nb\r\n$1\r\n2\r\n"
        ),
        b"+OK\r\n"
    );
    assert_eq!(
        answer(&mut db, b"*4\r\n$4\r\nMGET\r\n$1\r\na\r\n$1\r\nb\r\n$1\r\nc\r\n"),
        b"*3\r\n$1\r\n1\r\n$1\r\n2\r\n$-1\r\n"
    );
}

#[test]
fn wire_append() {
    let mut db = Store::new();
    answer(&mut db, b"*3\r\n$3\r\nSET\r\n$1\r\nk\r\n$5\r\nhello\r\n");
    assert_eq!(
        answer(&mut db, b"*3\r\n$6\r\nAPPEND\r\n$1\r\nk\r\n$6\r\n world\r\n"),
        b":11\r\n"
    );
    assert_eq!(
        answer(&mut db, b"*2\r\n$3\r\nGET\r\n$1\r\nk\r\n"),
        b"$11\r\nhello world\r\n"
    );
}

#[test]
fn replies_come_in_request_order() {
    let mut db = Store::new();
    let mut reader = ByteReader::new(b"*1\r\n$4\r\nPING\r\n*2\r\n$4\r\nECHO\r\n$2\r\nhi\r\n*1\r\n$4\r\nPI");
    let mut out = Vec::new();
    assert_eq!(
        connection_step(&mut reader, false, &mut db, 0, &mut out),
        Step::Reply
    );
    assert_eq!(out, b"+PONG\r\n");
    assert_eq!(
        connection_step(&mut reader, false, &mut db, 0, &mut out),
        Step::Reply
    );
    assert_eq!(out, b"+PONG\r\n$2\r\nhi\r\n");
    assert_eq!(
        connection_step(&mut reader, false, &mut db, 0, &mut out),
        Step::Read
    );
    assert_eq!(out, b"+PONG\r\n$2\r\nhi\r\n");
    reader.feed(b"NG\r\n");
    assert_eq!(
        connection_step(&mut reader, false, &mut db, 0, &mut out),
        Step::Reply
    );
    assert_eq!(out, b"+PONG\r\n$2\r\nhi\r\n+PONG\r\n");
    assert_eq!(
        connection_step(&mut reader, false, &mut db, 0, &mut out),
        Step::Read
    );
}

#[test]
fn end_of_stream_between_frames_closes() {
    let mut db = Store::new();
    let mut reader = ByteReader::new(b"");
    let mut out = Vec::new();
    assert_eq!(
        connection_step(&mut reader, true, &mut db, 0, &mut out),
        Step::Close
    );
    assert!(out.is_empty());
}

#[test]
fn end_of_stream_within_a_frame_fails() {
    let mut db = Store::new();
    let mut reader = ByteReader::new(b"*1\r\n$4\r\nPI");
    let mut out = Vec::new();
    assert_eq!(
        connection_step(&mut reader, true, &mut db, 0, &mut out),
        Step::Fail(ParseError::Incomplete)
    );
    assert!(out.is_empty());
}

#[test]
fn last_request_before_end_of_stream_is_answered() {
    let mut db = Store::new();
    let mut reader = ByteReader::new(b"*1\r\n$4\r\nPING\r\n");
    let mut out = Vec::new();
    assert_eq!(
        connection_step(&mut reader, true, &mut db, 0, &mut out),
        Step::Reply
    );
    assert_eq!(
        connection_step(&mut reader, true, &mut db, 0, &mut out),
        Step::Close
    );
    assert_eq!(out, b"+PONG\r\n");
}

#[test]
fn bad_framing_fails_and_answers_nothing() {
    let mut db = Store::new();
    let mut reader = ByteReader::new(b"PING\r\n");
    let mut out = Vec::new();
    assert_eq!(
        connection_step(&mut reader, false, &mut db, 0, &mut out),
        Step::Fail(ParseError::UnknownPrefix)
    );
    assert!(out.is_empty());
}

#[test]
fn command_errors_keep_the_connection_open() {
    let mut db = Store::new();
    let mut reader = ByteReader::new(b"+PING\r\n*1\r\n$4\r\nPING\r\n");
    let mut out = Vec::new();
    assert_eq!(
        connection_step(&mut reader, false, &mut db, 0, &mut out),
        Step::Reply
    );
    assert_eq!(out, b"-ERR command must be an array\r\n");
    assert_eq!(
        connection_step(&mut reader, false, &mut db, 0, &mut out),
        Step::Reply
    );
    assert_eq!(out, b"-ERR command must be an array\r\n+PONG\r\n");
}
