use bytes::Bytes;
use resp_kv::parser::{parse_frame, parse_slice, ByteReader, ParseError};
use resp_kv::resp_frame::RespFrame;

#[test]
fn test_parse_simple_string() {
    let input_bytes = b"+OK\r\n";

    let mut reader = ByteReader::new(&input_bytes[..]);
    let result = parse_frame(&mut reader);

    assert!(result.is_ok());

    let frame = result.unwrap();
    assert_eq!(frame, RespFrame::SimpleString("OK".to_string()));
}

#[test]
fn test_parse_error() {
    let input_bytes = b"-ERR unknown command\r\n";
    let mut reader = ByteReader::new(&input_bytes[..]);

    let result = parse_frame(&mut reader);

    assert!(result.is_ok());
    let frame = result.unwrap();
    assert_eq!(frame, RespFrame::Error("ERR unknown command".to_string()));
}

#[test]
fn test_parse_integer() {
    let input_bytes = b":1024\r\n";
    let mut reader = ByteReader::new(&input_bytes[..]);

    let result = parse_frame(&mut reader);

    assert!(result.is_ok());
    let frame = result.unwrap();
    assert_eq!(frame, RespFrame::Integer(1024));
}

#[test]
fn test_parse_negative_integer() {
    let input_bytes = b":-55\r\n";
    let mut reader = ByteReader::new(&input_bytes[..]);

    let result = parse_frame(&mut reader);

    assert!(result.is_ok());
    let frame = result.unwrap();
    assert_eq!(frame, RespFrame::Integer(-55));
}

#[test]
fn test_parse_bulk_string() {
    let input_bytes = b"$6\r\nfoobar\r\n";
    let mut reader = ByteReader::new(&input_bytes[..]);

    let result = parse_frame(&mut reader);

    assert!(result.is_ok());
    let frame = result.unwrap();

    let expected = RespFrame::BulkString(Bytes::from("foobar"));
    assert_eq!(frame, expected);
}

#[test]
fn test_parse_array() {
    let input_bytes = b"*3\r\n$3\r\nSET\r\n$3\r\nkey\r\n$5\r\nvalue\r\n";
    let mut reader = ByteReader::new(&input_bytes[..]);

    let result = parse_frame(&mut reader);

    assert!(result.is_ok());
    let frame = result.unwrap();

    let expected = RespFrame::Array(vec![
        RespFrame::BulkString(Bytes::from("SET")),
        RespFrame::BulkString(Bytes::from("key")),
        RespFrame::BulkString(Bytes::from("value")),
    ]);

    assert_eq!(frame, expected);
}

#[test]
fn test_parse_empty_array() {
    let input_bytes = b"*0\r\n";
    let mut reader = ByteReader::new(&input_bytes[..]);

    let result = parse_frame(&mut reader);

    assert!(result.is_ok());
    let frame = result.unwrap();

    let expected = RespFrame::Array(vec![]);
    assert_eq!(frame, expected);
}

#[test]
fn test_parse_null_array() {
    let input_bytes = b"*-1\r\n";
    let mut reader = ByteReader::new(&input_bytes[..]);

    let result = parse_frame(&mut reader);

    assert!(result.is_ok());
    let frame = result.unwrap();
    assert_eq!(frame, RespFrame::Null);
}

#[test]
fn parse_null_bulk() {
    assert_eq!(parse_slice(b"$-1\r\n"), Ok((RespFrame::Null, 5)));
}

#[test]
fn parse_empty_bulk_and_empty_text() {
    assert_eq!(
        parse_slice(b"$0\r\n\r\n"),
        Ok((RespFrame::BulkString(Bytes::new()), 6))
    );
    assert_eq!(
        parse_slice(b"+\r\n"),
        Ok((RespFrame::SimpleString(String::new()), 3))
    );
}

#[test]
fn parse_binary_bulk_with_crlf_inside() {
    let frame = parse_slice(b"$4\r\n\r\n\x00\xff\r\n");
    assert_eq!(
        frame,
        Ok((RespFrame::BulkString(Bytes::from(vec![13u8, 10, 0, 255])), 10))
    );
}

#[test]
fn parse_nested_arrays() {
    let input = b"*2\r\n*2\r\n:1\r\n*0\r\n-oops\r\n";
    let expected = RespFrame::Array(vec![
        RespFrame::Array(vec![RespFrame::Integer(1), RespFrame::Array(vec![])]),
        RespFrame::Error("oops".to_string()),
    ]);
    assert_eq!(parse_slice(input), Ok((expected, input.len())));
}

#[test]
fn parse_signed_and_padded_integers() {
    assert_eq!(parse_slice(b":+7\r\n"), Ok((RespFrame::Integer(7), 5)));
    assert_eq!(parse_slice(b":007\r\n"), Ok((RespFrame::Integer(7), 6)));
    assert_eq!(parse_slice(b":-0\r\n"), Ok((RespFrame::Integer(0), 5)));
    assert_eq!(
        parse_slice(b":9223372036854775807\r\n"),
        Ok((RespFrame::Integer(i64::MAX), 22))
    );
    assert_eq!(
        parse_slice(b":-9223372036854775808\r\n"),
        Ok((RespFrame::Integer(i64::MIN), 23))
    );
}

#[test]
fn parse_integer_out_of_range_is_refused() {
    assert_eq!(
        parse_slice(b":9223372036854775808\r\n"),
        Err(ParseError::InvalidNumber)
    );
    assert_eq!(
        parse_slice(b":-9223372036854775809\r\n"),
        Err(ParseError::InvalidNumber)
    );
}

#[test]
fn parse_refuses_what_is_no_number() {
    assert_eq!(parse_slice(b":\r\n"), Err(ParseError::InvalidNumber));
    assert_eq!(parse_slice(b":-\r\n"), Err(ParseError::InvalidNumber));
    assert_eq!(parse_slice(b":12a\r\n"), Err(ParseError::InvalidNumber));
    assert_eq!(parse_slice(b"$abc\r\n"), Err(ParseError::InvalidNumber));
    assert_eq!(parse_slice(b"*x\r\n"), Err(ParseError::InvalidNumber));
    assert_eq!(parse_slice(b"$-2\r\n"), Err(ParseError::InvalidNumber));
    assert_eq!(parse_slice(b"*-7\r\n"), Err(ParseError::InvalidNumber));
}

#[test]
fn parse_unknown_prefix() {
    assert_eq!(parse_slice(b"?what\r\n"), Err(ParseError::UnknownPrefix));
    assert_eq!(parse_slice(b"PING\r\n"), Err(ParseError::UnknownPrefix));
}

#[test]
fn parse_line_without_cr() {
    assert_eq!(parse_slice(b"+OK\n"), Err(ParseError::UnterminatedLine));
    assert_eq!(parse_slice(b"+\n"), Err(ParseError::UnterminatedLine));
    assert_eq!(parse_slice(b":12\n"), Err(ParseError::UnterminatedLine));
}

#[test]
fn parse_text_that_is_not_utf8() {
    assert_eq!(parse_slice(b"+\xff\xfe\r\n"), Err(ParseError::InvalidText));
    assert_eq!(parse_slice(b"-\xc3\r\n"), Err(ParseError::InvalidText));
}

#[test]
fn parse_text_beyond_ascii() {
    let input = "+héllo ✓\r\n".as_bytes();
    assert_eq!(
        parse_slice(input),
        Ok((RespFrame::SimpleString("héllo ✓".to_string()), input.len()))
    );
}

#[test]
fn parse_bulk_without_terminator() {
    assert_eq!(
        parse_slice(b"$3\r\nabcXY"),
        Err(ParseError::MissingTerminator)
    );
    assert_eq!(
        parse_slice(b"$3\r\nabc\rX"),
        Err(ParseError::MissingTerminator)
    );
}

#[test]
fn parse_incomplete_input() {
    assert_eq!(parse_slice(b""), Err(ParseError::Incomplete));
    assert_eq!(parse_slice(b"+OK"), Err(ParseError::Incomplete));
    assert_eq!(parse_slice(b"+OK\r"), Err(ParseError::Incomplete));
    assert_eq!(parse_slice(b"$5\r\nab"), Err(ParseError::Incomplete));
    assert_eq!(parse_slice(b"$5\r\nabcde\r"), Err(ParseError::Incomplete));
    assert_eq!(parse_slice(b"*2\r\n:1\r\n"), Err(ParseError::Incomplete));
    assert_eq!(
        parse_slice(b"*9223372036854775807\r\n"),
        Err(ParseError::Incomplete)
    );
}

#[test]
fn parse_error_inside_array_comes_out() {
    assert_eq!(
        parse_slice(b"*2\r\n:1\r\n?\r\n"),
        Err(ParseError::UnknownPrefix)
    );
}

#[test]
fn parse_takes_one_frame_and_no_more() {
    let mut reader = ByteReader::new(b"+one\r\n:2\r\n$5\r\nthree\r\n+par");
    assert_eq!(reader.unread(), 25);
    assert_eq!(
        parse_frame(&mut reader),
        Ok(RespFrame::SimpleString("one".to_string()))
    );
    assert_eq!(reader.unread(), 19);
    assert_eq!(parse_frame(&mut reader), Ok(RespFrame::Integer(2)));
    assert_eq!(reader.unread(), 15);
    assert_eq!(
        parse_frame(&mut reader),
        Ok(RespFrame::BulkString(Bytes::from("three")))
    );
    assert_eq!(reader.unread(), 4);
    assert_eq!(parse_frame(&mut reader), Err(ParseError::Incomplete));
    assert_eq!(reader.unread(), 4);
    reader.feed(b"tial\r\n");
    assert_eq!(
        parse_frame(&mut reader),
        Ok(RespFrame::SimpleString("partial".to_string()))
    );
    assert_eq!(reader.unread(), 0);
    assert_eq!(parse_frame(&mut reader), Err(ParseError::Incomplete));
}

#[test]
fn parse_same_frame_whatever_follows() {
    let alone = parse_slice(b"*1\r\n$4\r\nPING\r\n");
    let followed = parse_slice(b"*1\r\n$4\r\nPING\r\n*1\r\n$4\r\nPI");
    assert_eq!(alone, followed);
    assert_eq!(alone.unwrap().1, 14);
}

#[test]
fn reader_leaves_bad_bytes_unread() {
    let mut reader = ByteReader::new(b"!bad\r\n");
    assert_eq!(parse_frame(&mut reader), Err(ParseError::UnknownPrefix));
    assert_eq!(reader.unread(), 6);
}

#[test]
fn failure_stays_whatever_arrives_later() {
    let mut reader = ByteReader::new(b"$3\r\nabcXY");
    assert_eq!(parse_frame(&mut reader), Err(ParseError::MissingTerminator));
    reader.feed(b"\r\n+OK\r\n");
    assert_eq!(parse_frame(&mut reader), Err(ParseError::MissingTerminator));
    let mut nested = ByteReader::new(b"*2\r\n:1\r\n:x\r\n");
    assert_eq!(parse_frame(&mut nested), Err(ParseError::InvalidNumber));
    nested.feed(b":2\r\n");
    assert_eq!(parse_frame(&mut nested), Err(ParseError::InvalidNumber));
}
