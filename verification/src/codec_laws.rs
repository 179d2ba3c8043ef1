//! What holds between the parser and the serializer.

use crate::decimal::{
    int_digits, lemma_int_digits_bytes, lemma_parse_int_digits, nat_digits, parse_i64,
};
use crate::parser::{
    is_prefix, lemma_items_bounds, lemma_line_end_bounds, lemma_parse_bounds, line_end, parse, parse_items,
    read_line, ParseError,
};
use crate::resp_frame::FrameView;
use crate::serializer::{crlf, encode, encode_each};
use vstd::prelude::*;
use vstd::utf8::{
    char_is_scalar, char_u32_cast, encode_scalar, encode_utf8, encode_utf8_decode_utf8,
    encode_utf8_valid_utf8,
};

verus! {

/// Whether a frame can go over the wire and come back: its texts hold no
/// line feed, and its lengths fit the 64-bit length line.
pub open spec fn encodable(frame: FrameView) -> bool
    decreases frame,
{
    match frame {
        FrameView::SimpleString(text) => no_line_feed(text),
        FrameView::Error(text) => no_line_feed(text),
        FrameView::Integer(_) => true,
        FrameView::BulkString(payload) => payload.len() <= i64::MAX,
        FrameView::Array(items) => items.len() <= i64::MAX && forall|i: int|
            0 <= i < items.len() ==> encodable(#[trigger] items[i]),
        FrameView::Null => true,
    }
}

/// Whether `text` holds no line feed.
pub open spec fn no_line_feed(text: Seq<char>) -> bool {
    forall|i: int| 0 <= i < text.len() ==> #[trigger] text[i] != '\n'
}

/// Whether `bytes` hold no LF.
pub open spec fn no_lf(bytes: Seq<u8>) -> bool {
    forall|i: int| 0 <= i < bytes.len() ==> #[trigger] bytes[i] != 10
}

proof fn lemma_scalar_bytes(c: u32)
    by (bit_vector)
    ensures
        c <= 0x7F ==> (((c & 0x7F) as u8 == 10u8) <==> c == 10u32),
        (0xC0u8 | ((c >> 6) & 0x1F) as u8) != 10u8,
        (0xE0u8 | ((c >> 12) & 0x0F) as u8) != 10u8,
        (0xF0u8 | ((c >> 18) & 0x7) as u8) != 10u8,
        (0x80u8 | (c & 0x3F) as u8) != 10u8,
        (0x80u8 | ((c >> 6) & 0x3F) as u8) != 10u8,
        (0x80u8 | ((c >> 12) & 0x3F) as u8) != 10u8,
{
}

/// Text without a line feed encodes to bytes without LF.
pub proof fn lemma_encoded_text_no_lf(text: Seq<char>)
    requires
        no_line_feed(text),
    ensures
        no_lf(encode_utf8(text)),
    decreases text.len(),
{
    if text.len() > 0 {
        let c = text[0] as u32;
        lemma_scalar_bytes(c);
        char_is_scalar(text[0]);
        assert(c != 10) by {
            if c == 10 {
                char_u32_cast(text[0], 10u32);
                char_u32_cast('\n', 10u32);
            }
        }
        let head = encode_scalar(c);
        let rest = text.drop_first();
        assert(no_line_feed(rest)) by {
            assert forall|i: int| 0 <= i < rest.len() implies #[trigger] rest[i] != '\n' by {
                assert(rest[i] == text[i + 1]);
            }
        }
        lemma_encoded_text_no_lf(rest);
        assert(no_lf(head));
        assert forall|i: int| 0 <= i < encode_utf8(text).len() implies #[trigger] encode_utf8(
            text,
        )[i] != 10 by {
            if i < head.len() {
                assert(encode_utf8(text)[i] == head[i]);
            } else {
                assert(encode_utf8(text)[i] == encode_utf8(rest)[i - head.len()]);
            }
        }
    }
}

/// A line written as prefix, content, CR, LF reads back as that content.
pub proof fn lemma_read_written_line(prefix: u8, content: Seq<u8>, tail: Seq<u8>)
    requires
        no_lf(content),
    ensures
        read_line(seq![prefix] + content + crlf() + tail) == Ok::<(Seq<u8>, int), ParseError>(
            (content, (content.len() + 3) as int),
        ),
{
    let input = seq![prefix] + content + crlf() + tail;
    let lf: int = (content.len() + 2) as int;
    lemma_line_end_bounds(input, 1);
    assert(input[lf] == 10);
    assert(input[lf - 1] == 13);
    assert forall|i: int| 1 <= i < lf implies input[i] != 10 by {
        if i < lf - 1 {
            assert(input[i] == content[i - 1]);
        }
    }
    assert(line_end(input, 1) == Some(lf));
    assert(input.subrange(1, lf - 1) =~= content);
}

/// The bytes of two runs of frames, one after the other, are the bytes of
/// the first run and then those of the second.
pub proof fn lemma_encode_each_concat(a: Seq<FrameView>, b: Seq<FrameView>)
    ensures
        encode_each(a + b) == encode_each(a) + encode_each(b),
    decreases b.len(),
{
    if b.len() == 0 {
        assert(a + b =~= a);
        assert(encode_each(a) + encode_each(b) =~= encode_each(a));
    } else {
        lemma_encode_each_concat(a, b.drop_last());
        assert((a + b).drop_last() =~= a + b.drop_last());
        assert((a + b).last() == b.last());
        assert(encode_each(a + b) =~= encode_each(a) + encode_each(b));
    }
}

/// Round trip: the bytes of a frame, whatever follows them, parse to that
/// frame and to no byte more.
pub proof fn law_round_trip(frame: FrameView, rest: Seq<u8>)
    requires
        encodable(frame),
    ensures
        parse(encode(frame) + rest) == Ok::<(FrameView, int), ParseError>(
            (frame, encode(frame).len() as int),
        ),
    decreases frame, 0nat,
{
    let input = encode(frame) + rest;
    match frame {
        FrameView::SimpleString(text) => {
            let content = encode_utf8(text);
            lemma_encoded_text_no_lf(text);
            lemma_read_written_line(43, content, rest);
            assert(input =~= seq![43u8] + content + crlf() + rest);
            encode_utf8_valid_utf8(text);
            encode_utf8_decode_utf8(text);
            assert(input[0] == 43);
        },
        FrameView::Error(text) => {
            let content = encode_utf8(text);
            lemma_encoded_text_no_lf(text);
            lemma_read_written_line(45, content, rest);
            assert(input =~= seq![45u8] + content + crlf() + rest);
            encode_utf8_valid_utf8(text);
            encode_utf8_decode_utf8(text);
            assert(input[0] == 45);
        },
        FrameView::Integer(i) => {
            let content = int_digits(i as int);
            lemma_int_digits_bytes(i as int);
            lemma_read_written_line(58, content, rest);
            assert(input =~= seq![58u8] + content + crlf() + rest);
            lemma_parse_int_digits(i as int);
            assert(input[0] == 58);
        },
        FrameView::BulkString(payload) => {
            let content = nat_digits(payload.len());
            let tail = payload + crlf() + rest;
            lemma_int_digits_bytes(payload.len() as int);
            assert(int_digits(payload.len() as int) == content);
            lemma_read_written_line(36, content, tail);
            assert(input =~= seq![36u8] + content + crlf() + tail);
            lemma_parse_int_digits(payload.len() as int);
            assert(input[0] == 36);
            let next: int = (content.len() + 3) as int;
            let n = payload.len() as int;
            assert(input.len() >= next + n + 2);
            assert(input[next + n] == 13);
            assert(input[next + n + 1] == 10);
            assert(input.subrange(next, next + n) =~= payload);
            assert(encode(frame).len() == next + n + 2);
        },
        FrameView::Array(items) => {
            let content = nat_digits(items.len());
            let tail = encode_each(items) + rest;
            lemma_int_digits_bytes(items.len() as int);
            assert(int_digits(items.len() as int) == content);
            lemma_read_written_line(42, content, tail);
            assert(input =~= seq![42u8] + content + crlf() + tail);
            lemma_parse_int_digits(items.len() as int);
            assert(input[0] == 42);
            let next: int = (content.len() + 3) as int;
            assert(input.skip(next) =~= tail);
            lemma_round_trip_items(items, rest, items.len());
            assert(items.take(items.len() as int) =~= items);
            assert(encode(frame).len() == next + encode_each(items).len());
        },
        FrameView::Null => {
            let content = seq![45u8, 49u8];
            assert(int_digits(-1) =~= content);
            lemma_int_digits_bytes(-1);
            lemma_read_written_line(36, content, rest);
            assert(input =~= seq![36u8] + content + crlf() + rest);
            lemma_parse_int_digits(-1);
            assert(input[0] == 36);
        },
    }
}

/// Round trip for a run: the bytes of `items`, whatever follows them, parse
/// as `k` frames to the first `k` of them.
pub proof fn lemma_round_trip_items(items: Seq<FrameView>, rest: Seq<u8>, k: nat)
    requires
        forall|i: int| 0 <= i < items.len() ==> encodable(#[trigger] items[i]),
        k <= items.len(),
    ensures
        parse_items(encode_each(items) + rest, k) == Ok::<(Seq<FrameView>, int), ParseError>(
            (items.take(k as int), encode_each(items.take(k as int)).len() as int),
        ),
    decreases items, k,
{
    let input = encode_each(items) + rest;
    if k == 0 {
        assert(items.take(0) =~= Seq::<FrameView>::empty());
    } else {
        lemma_round_trip_items(items, rest, (k - 1) as nat);
        let done = items.take(k - 1);
        let used = encode_each(done).len() as int;
        let frame = items[k - 1];
        let after = items.skip(k as int);
        let tail = encode_each(after) + rest;
        assert(items =~= done.push(frame) + after);
        lemma_encode_each_concat(done.push(frame), after);
        assert(done.push(frame).drop_last() =~= done);
        assert(encode_each(done.push(frame)) == encode_each(done) + encode(frame));
        assert(input =~= encode_each(done) + (encode(frame) + tail));
        assert(input.skip(used) =~= encode(frame) + tail);
        law_round_trip(frame, tail);
        assert(items.take(k as int) =~= done.push(frame));
    }
}

/// The parser reads both forms of the absent value, `$-1` and `*-1`, as
/// `Null`; the serializer writes the first.
pub proof fn law_null_forms(rest: Seq<u8>)
    ensures
        encode(FrameView::Null) == seq![36u8, 45u8, 49u8, 13u8, 10u8],
        parse(seq![36u8, 45u8, 49u8, 13u8, 10u8] + rest) == Ok::<(FrameView, int), ParseError>(
            (FrameView::Null, 5),
        ),
        parse(seq![42u8, 45u8, 49u8, 13u8, 10u8] + rest) == Ok::<(FrameView, int), ParseError>(
            (FrameView::Null, 5),
        ),
{
    let content = seq![45u8, 49u8];
    assert(int_digits(-1) =~= content);
    lemma_int_digits_bytes(-1);
    lemma_parse_int_digits(-1);
    lemma_read_written_line(36, content, rest);
    lemma_read_written_line(42, content, rest);
    assert(seq![36u8, 45u8, 49u8, 13u8, 10u8] + rest =~= seq![36u8] + content + crlf() + rest);
    assert(seq![42u8, 45u8, 49u8, 13u8, 10u8] + rest =~= seq![42u8] + content + crlf() + rest);
}

/// Whether `a` and `b` hold the same first `n` bytes.
pub open spec fn same_start(a: Seq<u8>, b: Seq<u8>, n: int) -> bool {
    &&& 0 <= n <= a.len()
    &&& n <= b.len()
    &&& forall|i: int| 0 <= i < n ==> a[i] == b[i]
}

/// Framing: a frame is read from its own bytes alone. Bytes that start as
/// the bytes of a frame read from `input` give the same frame over the same
/// number of bytes, whatever comes after.
pub proof fn law_framing(input: Seq<u8>, other: Seq<u8>)
    requires
        parse(input) matches Ok((_, used)) && same_start(input, other, used),
    ensures
        parse(other) == parse(input),
    decreases input.len(), 0nat,
{
    lemma_parse_bounds(input);
    lemma_line_end_bounds(input, 1);
    lemma_line_end_bounds(other, 1);
    let used = parse(input)->Ok_0.1;
    assert(other[0] == input[0]);
    let (line, next) = read_line(input)->Ok_0;
    let lf = next - 1;
    match parse_i64(line) {
        Some(n) => {
            if n >= 0 && input[0] == 42 {
                lemma_items_bounds(input.skip(next), n as nat);
            }
        },
        None => {},
    }
    assert(next <= used);
    assert(other[lf] == input[lf]);
    assert(line_end(other, 1) == Some(lf)) by {
        match line_end(other, 1) {
            Some(x) => {
                assert(other[x] == input[x]);
            },
            None => {},
        }
    }
    assert(other[lf - 1] == input[lf - 1]);
    assert(other.subrange(1, lf - 1) =~= line);
    if input[0] == 36 || input[0] == 42 {
        let n = parse_i64(line)->Some_0;
        if n >= 0 {
            if input[0] == 36 {
                assert(other[next + n] == input[next + n]);
                assert(other[next + n + 1] == input[next + n + 1]);
                assert(other.subrange(next, next + n) =~= input.subrange(next, next + n));
            } else {
                let used2 = used - next;
                assert forall|i: int| 0 <= i < used2 implies input.skip(next)[i] == other.skip(
                    next,
                )[i] by {
                    assert(input[next + i] == other[next + i]);
                }
                lemma_framing_items(input.skip(next), other.skip(next), n as nat);
            }
        }
    }
}

/// Framing for a run of `n` frames.
pub proof fn lemma_framing_items(input: Seq<u8>, other: Seq<u8>, n: nat)
    requires
        parse_items(input, n) matches Ok((_, used)) && same_start(input, other, used),
    ensures
        parse_items(other, n) == parse_items(input, n),
    decreases input.len(), n + 1,
{
    if n > 0 {
        let used = parse_items(input, n)->Ok_0.1;
        let (items, done) = parse_items(input, (n - 1) as nat)->Ok_0;
        lemma_items_bounds(input, (n - 1) as nat);
        lemma_parse_bounds(input.skip(done));
        let more = parse(input.skip(done))->Ok_0.1;
        assert(used == done + more);
        lemma_framing_items(input, other, (n - 1) as nat);
        assert forall|i: int| 0 <= i < more implies input.skip(done)[i] == other.skip(done)[i] by {
            assert(input[done + i] == other[done + i]);
        }
        law_framing(input.skip(done), other.skip(done));
    }
}

/// Framing, as a reader sees it: after a frame is read, what follows its
/// bytes plays no part in it.
pub proof fn law_frame_ignores_rest(input: Seq<u8>, rest: Seq<u8>)
    requires
        parse(input) is Ok,
    ensures
        ({
            let (frame, used) = parse(input)->Ok_0;
            &&& 1 <= used <= input.len()
            &&& parse(input.take(used) + rest) == parse(input)
        }),
{
    lemma_parse_bounds(input);
    let used = parse(input)->Ok_0.1;
    law_framing(input, input.take(used) + rest);
}

/// A failure other than `Incomplete` is final: no bytes that arrive later
/// make a frame of bytes that are none.
pub proof fn law_failure_is_final(input: Seq<u8>, more: Seq<u8>)
    requires
        parse(input) matches Err(e) && e != ParseError::Incomplete,
    ensures
        parse(input + more) == parse(input),
    decreases input.len(), 0nat,
{
    let other = input + more;
    lemma_line_end_bounds(input, 1);
    lemma_line_end_bounds(other, 1);
    assert(other[0] == input[0]);
    if is_prefix(input[0]) {
        let lf = line_end(input, 1)->Some_0;
        assert(other[lf] == input[lf]);
        assert(line_end(other, 1) == Some(lf)) by {
            match line_end(other, 1) {
                Some(x) => {
                    assert(other[x] == input[x]);
                },
                None => {},
            }
        }
        assert(other[lf - 1] == input[lf - 1]);
        match read_line(input) {
            Ok((line, next)) => {
                assert(other.subrange(1, lf - 1) =~= line);
                if input[0] == 36 || input[0] == 42 {
                    match parse_i64(line) {
                        Some(n) => {
                            if n >= 0 {
                                if input[0] == 36 {
                                    assert(other[next + n] == input[next + n]);
                                    assert(other[next + n + 1] == input[next + n + 1]);
                                } else {
                                    assert(other.skip(next) =~= input.skip(next) + more);
                                    lemma_items_failure_is_final(input.skip(next), more, n as nat);
                                }
                            }
                        },
                        None => {},
                    }
                }
            },
            Err(_) => {},
        }
    }
}

/// A failure of a run of frames other than `Incomplete` is final.
pub proof fn lemma_items_failure_is_final(input: Seq<u8>, more: Seq<u8>, n: nat)
    requires
        parse_items(input, n) matches Err(e) && e != ParseError::Incomplete,
    ensures
        parse_items(input + more, n) == parse_items(input, n),
    decreases input.len(), n + 1,
{
    let other = input + more;
    if n > 0 {
        match parse_items(input, (n - 1) as nat) {
            Ok((items, used)) => {
                lemma_items_bounds(input, (n - 1) as nat);
                lemma_framing_items(input, other, (n - 1) as nat);
                assert(other.skip(used) =~= input.skip(used) + more);
                law_failure_is_final(input.skip(used), more);
            },
            Err(_) => {
                lemma_items_failure_is_final(input, more, (n - 1) as nat);
            },
        }
    }
}

} // verus!
