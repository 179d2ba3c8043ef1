//! The parser: from bytes on the wire to one frame, and how many bytes
//! that frame took.

use crate::buffer::from_vec;
use crate::decimal::{parse_decimal, parse_i64};
use crate::resp_frame::{lemma_array_view, views, FrameView, RespFrame};
use crate::serializer::{ARRAY, BULK, CR, ERROR, INTEGER, LF, SIMPLE};
use crate::text::text_from_utf8;
use vstd::prelude::*;
use vstd::slice::{slice_subrange, slice_to_vec};
use vstd::utf8::{decode_utf8, valid_utf8};

verus! {

/// Why no frame was read.
#[derive(Debug, Clone, Copy, PartialEq, Eq, Structural)]
pub enum ParseError {
    /// The bytes end before the frame does; with more bytes there may be one.
    Incomplete,
    /// The first byte opens no kind of frame.
    UnknownPrefix,
    /// A line ends in LF without CR before it.
    UnterminatedLine,
    /// The text of a simple string or an error is not valid UTF-8.
    InvalidText,
    /// An integer or a length is no decimal number of 64 bits, or a length
    /// is negative and not -1.
    InvalidNumber,
    /// The payload of a bulk string is not followed by CR and LF.
    MissingTerminator,
}

/// The index of the first LF of `input` at or after `from`.
pub open spec fn line_end(input: Seq<u8>, from: int) -> Option<int>
    decreases input.len() - from,
{
    if from < 0 || from >= input.len() {
        None
    } else if input[from] == 10 {
        Some(from)
    } else {
        line_end(input, from + 1)
    }
}

/// The line that follows the prefix byte: the bytes between the prefix and
/// CR LF, and the index of the byte after the LF.
pub open spec fn read_line(input: Seq<u8>) -> Result<(Seq<u8>, int), ParseError> {
    match line_end(input, 1) {
        None => Err(ParseError::Incomplete),
        Some(lf) => if lf >= 2 && input[lf - 1] == 13 {
            Ok((input.subrange(1, lf - 1), lf + 1))
        } else {
            Err(ParseError::UnterminatedLine)
        },
    }
}

/// Whether `prefix` opens a frame.
pub open spec fn is_prefix(prefix: u8) -> bool {
    prefix == 43 || prefix == 45 || prefix == 58 || prefix == 36 || prefix == 42
}

/// A bulk string of `length` bytes whose payload starts at `start`.
pub open spec fn parse_payload(input: Seq<u8>, start: int, length: int) -> Result<
    (FrameView, int),
    ParseError,
> {
    if input.len() < start + length + 2 {
        Err(ParseError::Incomplete)
    } else if input[start + length] == 13 && input[start + length + 1] == 10 {
        Ok((FrameView::BulkString(input.subrange(start, start + length)), start + length + 2))
    } else {
        Err(ParseError::MissingTerminator)
    }
}

/// The frame at the start of `input` and the number of bytes it takes, or
/// why there is none.
pub open spec fn parse(input: Seq<u8>) -> Result<(FrameView, int), ParseError>
    decreases input.len(), 0nat,
    via parse_decreases
{
    if input.len() == 0 {
        Err(ParseError::Incomplete)
    } else if !is_prefix(input[0]) {
        Err(ParseError::UnknownPrefix)
    } else {
        match read_line(input) {
            Err(e) => Err(e),
            Ok((line, next)) => {
                if input[0] == 43 || input[0] == 45 {
                    if !valid_utf8(line) {
                        Err(ParseError::InvalidText)
                    } else if input[0] == 43 {
                        Ok((FrameView::SimpleString(decode_utf8(line)), next))
                    } else {
                        Ok((FrameView::Error(decode_utf8(line)), next))
                    }
                } else {
                    match parse_i64(line) {
                        None => Err(ParseError::InvalidNumber),
                        Some(n) => {
                            if input[0] == 58 {
                                Ok((FrameView::Integer(n), next))
                            } else if n == -1 {
                                Ok((FrameView::Null, next))
                            } else if n < 0 {
                                Err(ParseError::InvalidNumber)
                            } else if input[0] == 36 {
                                parse_payload(input, next, n as int)
                            } else {
                                match parse_items(input.skip(next), n as nat) {
                                    Err(e) => Err(e),
                                    Ok((items, used)) => Ok((FrameView::Array(items), next + used)),
                                }
                            }
                        },
                    }
                }
            },
        }
    }
}

/// The first `n` frames of `input`, one after the other, and the number of
/// bytes they take together. The test on `used` holds of every run (see
/// [`lemma_items_bounds`]); it is there for the recursion to be well founded.
pub open spec fn parse_items(input: Seq<u8>, n: nat) -> Result<(Seq<FrameView>, int), ParseError>
    decreases input.len(), n + 1,
    via parse_items_decreases
{
    if n == 0 {
        Ok((Seq::empty(), 0))
    } else {
        match parse_items(input, (n - 1) as nat) {
            Err(e) => Err(e),
            Ok((items, used)) => {
                if 0 <= used <= input.len() {
                    match parse(input.skip(used)) {
                        Err(e) => Err(e),
                        Ok((frame, more)) => Ok((items.push(frame), used + more)),
                    }
                } else {
                    Err(ParseError::Incomplete)
                }
            },
        }
    }
}

/// A line's LF lies within the input, at or after the place the search began.
pub proof fn lemma_line_end_bounds(input: Seq<u8>, from: int)
    ensures
        match line_end(input, from) {
            Some(lf) => 0 <= from <= lf < input.len() && input[lf] == 10 && forall|i: int|
                from <= i < lf ==> input[i] != 10,
            None => forall|i: int| 0 <= from <= i < input.len() ==> input[i] != 10,
        },
    decreases input.len() - from,
{
    if from < 0 || from >= input.len() {
    } else if input[from] == 10 {
    } else {
        lemma_line_end_bounds(input, from + 1);
    }
}

/// A frame takes at least one byte and no more than there are.
pub proof fn lemma_parse_bounds(input: Seq<u8>)
    ensures
        parse(input) matches Ok((_, used)) ==> 1 <= used <= input.len(),
    decreases input.len(), 0nat,
{
    if input.len() > 0 && is_prefix(input[0]) {
        lemma_line_end_bounds(input, 1);
        match read_line(input) {
            Ok((line, next)) => {
                match parse_i64(line) {
                    Some(n) => {
                        if n >= 0 && input[0] == 42 {
                            lemma_items_bounds(input.skip(next), n as nat);
                        }
                    },
                    None => {},
                }
            },
            Err(_) => {},
        }
    }
}

/// A run of `n` frames holds `n` frames and takes no more bytes than there
/// are.
pub proof fn lemma_items_bounds(input: Seq<u8>, n: nat)
    ensures
        parse_items(input, n) matches Ok((items, used)) ==> 0 <= used <= input.len() && items.len()
            == n,
    decreases input.len(), n + 1,
{
    if n > 0 {
        lemma_items_bounds(input, (n - 1) as nat);
        match parse_items(input, (n - 1) as nat) {
            Ok((items, used)) => {
                if 0 <= used <= input.len() {
                    lemma_parse_bounds(input.skip(used));
                }
            },
            Err(_) => {},
        }
    }
}

/// Once a frame of a run fails, the run fails in the same way however many
/// frames are asked for.
pub proof fn lemma_items_error(input: Seq<u8>, k: nat, n: nat)
    requires
        k <= n,
        parse_items(input, k) is Err,
    ensures
        parse_items(input, n) == parse_items(input, k),
    decreases n,
{
    if k < n {
        lemma_items_error(input, k, (n - 1) as nat);
    }
}

/// Whether the parser's result `r` is what `expected` says: the same error,
/// or a frame with the expected meaning over the same number of bytes.
pub open spec fn agrees(
    r: Result<(RespFrame, usize), ParseError>,
    expected: Result<(FrameView, int), ParseError>,
) -> bool {
    match (r, expected) {
        (Ok((frame, used)), Ok((meaning, n))) => frame@ == meaning && used == n,
        (Err(e), Err(f)) => e == f,
        _ => false,
    }
}

/// Finds the line after the prefix byte: where its content ends and where
/// the next byte after its LF is.
fn scan_line(input: &[u8]) -> (r: Result<(usize, usize), ParseError>)
    requires
        input.len() >= 1,
    ensures
        match (r, read_line(input@)) {
            (Ok((end, next)), Ok((line, n))) => 1 <= end && end + 2 == next && next <= input.len()
                && n == next && line == input@.subrange(1, end as int),
            (Err(e), Err(f)) => e == f,
            _ => false,
        },
{
    let mut i: usize = 1;
    while i < input.len()
        invariant
            1 <= i <= input.len(),
            forall|j: int| 1 <= j < i ==> input@[j] != 10,
        decreases input.len() - i,
    {
        if input[i] == LF {
            proof {
                lemma_line_end_bounds(input@, 1);
            }
            if i >= 2 && input[i - 1] == CR {
                return Ok((i - 1, i + 1));
            } else {
                return Err(ParseError::UnterminatedLine);
            }
        }
        i += 1;
    }
    proof {
        lemma_line_end_bounds(input@, 1);
    }
    Err(ParseError::Incomplete)
}

/// Reads the frame at the start of `input`.
pub fn parse_slice(input: &[u8]) -> (r: Result<(RespFrame, usize), ParseError>)
    ensures
        agrees(r, parse(input@)),
        r matches Ok((_, used)) ==> 1 <= used <= input.len(),
    decreases input@.len(), 1nat,
{
    if input.len() == 0 {
        return Err(ParseError::Incomplete);
    }
    let prefix = input[0];
    if prefix == SIMPLE {
        parse_simple_string(input)
    } else if prefix == ERROR {
        parse_error(input)
    } else if prefix == INTEGER {
        parse_integer(input)
    } else if prefix == BULK {
        parse_bulk_string(input)
    } else if prefix == ARRAY {
        parse_array(input)
    } else {
        Err(ParseError::UnknownPrefix)
    }
}

/// Reads the line after the prefix byte as text.
fn read_line_as_string(input: &[u8]) -> (r: Result<(String, usize), ParseError>)
    requires
        input.len() >= 1,
    ensures
        match (r, read_line(input@)) {
            (Ok((text, next)), Ok((line, n))) => valid_utf8(line) && text@ == decode_utf8(line)
                && next == n && 3 <= next <= input.len(),
            (Err(e), Ok((line, _))) => !valid_utf8(line) && e == ParseError::InvalidText,
            (Err(e), Err(f)) => e == f,
            _ => false,
        },
{
    let (end, next) = match scan_line(input) {
        Ok(found) => found,
        Err(e) => {
            return Err(e);
        },
    };
    match text_from_utf8(slice_to_vec(slice_subrange(input, 1, end))) {
        Some(text) => Ok((text, next)),
        None => Err(ParseError::InvalidText),
    }
}

/// Reads the line after the prefix byte as a decimal number.
fn read_line_as_number(input: &[u8]) -> (r: Result<(i64, usize), ParseError>)
    requires
        input.len() >= 1,
    ensures
        match (r, read_line(input@)) {
            (Ok((n, next)), Ok((line, m))) => parse_i64(line) == Some(n) && next == m && 3 <= next
                <= input.len(),
            (Err(e), Ok((line, _))) => parse_i64(line) is None && e == ParseError::InvalidNumber,
            (Err(e), Err(f)) => e == f,
            _ => false,
        },
{
    let (end, next) = match scan_line(input) {
        Ok(found) => found,
        Err(e) => {
            return Err(e);
        },
    };
    match parse_decimal(slice_subrange(input, 1, end)) {
        Some(n) => Ok((n, next)),
        None => Err(ParseError::InvalidNumber),
    }
}

/// Reads a simple string: a line of text.
fn parse_simple_string(input: &[u8]) -> (r: Result<(RespFrame, usize), ParseError>)
    requires
        input.len() >= 1,
        input@[0] == 43,
    ensures
        agrees(r, parse(input@)),
        r matches Ok((_, used)) ==> 1 <= used <= input.len(),
{
    match read_line_as_string(input) {
        Ok((text, next)) => Ok((RespFrame::SimpleString(text), next)),
        Err(e) => Err(e),
    }
}

/// Reads an error: a line of text.
fn parse_error(input: &[u8]) -> (r: Result<(RespFrame, usize), ParseError>)
    requires
        input.len() >= 1,
        input@[0] == 45,
    ensures
        agrees(r, parse(input@)),
        r matches Ok((_, used)) ==> 1 <= used <= input.len(),
{
    match read_line_as_string(input) {
        Ok((text, next)) => Ok((RespFrame::Error(text), next)),
        Err(e) => Err(e),
    }
}

/// Reads an integer: a line that holds a decimal number.
fn parse_integer(input: &[u8]) -> (r: Result<(RespFrame, usize), ParseError>)
    requires
        input.len() >= 1,
        input@[0] == 58,
    ensures
        agrees(r, parse(input@)),
        r matches Ok((_, used)) ==> 1 <= used <= input.len(),
{
    match read_line_as_number(input) {
        Ok((n, next)) => Ok((RespFrame::Integer(n), next)),
        Err(e) => Err(e),
    }
}

/// Reads a bulk string: a line that holds the length, then that many
/// bytes, then CR and LF. The length -1 stands for the absent value.
fn parse_bulk_string(input: &[u8]) -> (r: Result<(RespFrame, usize), ParseError>)
    requires
        input.len() >= 1,
        input@[0] == 36,
    ensures
        agrees(r, parse(input@)),
        r matches Ok((_, used)) ==> 1 <= used <= input.len(),
{
    let (length, next) = match read_line_as_number(input) {
        Ok(found) => found,
        Err(e) => {
            return Err(e);
        },
    };
    if length == -1 {
        return Ok((RespFrame::Null, next));
    }
    if length < 0 {
        return Err(ParseError::InvalidNumber);
    }
    let available = (input.len() - next) as u64;
    if available < 2 || available - 2 < length as u64 {
        return Err(ParseError::Incomplete);
    }
    let end = next + length as usize;
    if input[end] != CR || input[end + 1] != LF {
        return Err(ParseError::MissingTerminator);
    }
    let payload = slice_to_vec(slice_subrange(input, next, end));
    Ok((RespFrame::BulkString(from_vec(payload)), end + 2))
}

/// Reads an array: a line that holds the number of items, then the items.
/// The number -1 stands for the absent value.
fn parse_array(input: &[u8]) -> (r: Result<(RespFrame, usize), ParseError>)
    requires
        input.len() >= 1,
        input@[0] == 42,
    ensures
        agrees(r, parse(input@)),
        r matches Ok((_, used)) ==> 1 <= used <= input.len(),
    decreases input@.len(), 0nat,
{
    let (length, next) = match read_line_as_number(input) {
        Ok(found) => found,
        Err(e) => {
            return Err(e);
        },
    };
    if length == -1 {
        return Ok((RespFrame::Null, next));
    }
    if length < 0 {
        return Err(ParseError::InvalidNumber);
    }
    let rest = slice_subrange(input, next, input.len());
    assert(rest@ == input@.skip(next as int));
    match parse_items_from(rest, length as u64) {
        Ok((items, used)) => {
            proof {
                lemma_array_view(items);
            }
            Ok((RespFrame::Array(items), next + used))
        },
        Err(e) => Err(e),
    }
}

/// Reads `n` frames from the start of `input`, one after the other.
fn parse_items_from(input: &[u8], n: u64) -> (r: Result<(Vec<RespFrame>, usize), ParseError>)
    ensures
        match (r, parse_items(input@, n as nat)) {
            (Ok((items, used)), Ok((meanings, m))) => views(items@) == meanings && used == m
                && used <= input.len(),
            (Err(e), Err(f)) => e == f,
            _ => false,
        },
    decreases input@.len(), n + 2,
{
    let mut items: Vec<RespFrame> = Vec::new();
    let mut used: usize = 0;
    let mut i: u64 = 0;
    assert(views(items@) =~= Seq::<FrameView>::empty());
    while i < n
        invariant
            i <= n,
            used <= input.len(),
            parse_items(input@, i as nat) == Ok::<(Seq<FrameView>, int), ParseError>(
                (views(items@), used as int),
            ),
        decreases n - i,
    {
        let rest = slice_subrange(input, used, input.len());
        assert(rest@ == input@.skip(used as int));
        let ghost before = items@;
        match parse_slice(rest) {
            Err(e) => {
                proof {
                    assert(parse_items(input@, (i + 1) as nat) is Err);
                    lemma_items_error(input@, (i + 1) as nat, n as nat);
                }
                return Err(e);
            },
            Ok((frame, more)) => {
                items.push(frame);
                used += more;
                assert(views(items@) =~= views(before).push(frame@));
            },
        }
        i += 1;
    }
    Ok((items, used))
}

/// A buffer of bytes that have arrived and not yet been read as frames.
pub struct ByteReader {
    buf: Vec<u8>,
    pos: usize,
}

impl View for ByteReader {
    type V = Seq<u8>;

    /// The bytes not yet read.
    closed spec fn view(&self) -> Seq<u8> {
        self.buf@.skip(self.pos as int)
    }
}

impl ByteReader {
    /// Whether the reader is well formed: what it has read lies within what
    /// it holds.
    pub closed spec fn wf(&self) -> bool {
        self.pos <= self.buf.len()
    }

    /// A reader over a copy of `data`.
    pub fn new(data: &[u8]) -> (reader: ByteReader)
        ensures
            reader.wf(),
            reader@ == data@,
    {
        let reader = ByteReader { buf: slice_to_vec(data), pos: 0 };
        assert(reader@ =~= data@);
        reader
    }

    /// Adds `data` after the bytes not yet read.
    pub fn feed(&mut self, data: &[u8])
        requires
            old(self).wf(),
        ensures
            final(self).wf(),
            final(self)@ == old(self)@ + data@,
    {
        if self.pos > 0 {
            let unread = slice_to_vec(slice_subrange(self.buf.as_slice(), self.pos, self.buf.len()));
            self.buf = unread;
            self.pos = 0;
        }
        assert(self@ =~= old(self)@);
        self.buf.extend_from_slice(data);
        assert(self@ =~= old(self)@ + data@);
    }

    /// How many bytes are not yet read.
    pub fn unread(&self) -> (n: usize)
        requires
            self.wf(),
        ensures
            n == self@.len(),
    {
        self.buf.len() - self.pos
    }
}

/// Reads one frame from `stream` and moves past it. Where there is no
/// frame, nothing is read.
pub fn parse_frame(stream: &mut ByteReader) -> (r: Result<RespFrame, ParseError>)
    requires
        old(stream).wf(),
    ensures
        final(stream).wf(),
        match parse(old(stream)@) {
            Ok((meaning, used)) => {
                &&& r matches Ok(frame)
                &&& frame@ == meaning
                &&& final(stream)@ == old(stream)@.skip(used)
            },
            Err(e) => r == Err::<RespFrame, ParseError>(e) && final(stream)@ == old(stream)@,
        },
{
    let unread = slice_subrange(stream.buf.as_slice(), stream.pos, stream.buf.len());
    assert(unread@ == stream@);
    match parse_slice(unread) {
        Ok((frame, used)) => {
            stream.pos = stream.pos + used;
            assert(stream@ =~= old(stream)@.skip(used as int));
            Ok(frame)
        },
        Err(e) => Err(e),
    }
}

#[via_fn]
proof fn parse_decreases(input: Seq<u8>) {
    lemma_line_end_bounds(input, 1);
}

#[via_fn]
proof fn parse_items_decreases(input: Seq<u8>, n: nat) {
}

} // verus!
