//! The serializer: from a frame to its bytes on the wire.

use crate::buffer::as_slice;
use crate::decimal::{int_digits, nat_digits, push_int, push_nat};
use crate::resp_frame::{lemma_array_view, views, FrameView, RespFrame};
use vstd::prelude::*;
use vstd::utf8::encode_utf8;

verus! {

/// The byte `+`, which opens a simple string.
pub const SIMPLE: u8 = 43;

/// The byte `-`, which opens an error.
pub const ERROR: u8 = 45;

/// The byte `:`, which opens an integer.
pub const INTEGER: u8 = 58;

/// The byte `$`, which opens a bulk string.
pub const BULK: u8 = 36;

/// The byte `*`, which opens an array.
pub const ARRAY: u8 = 42;

/// The byte CR.
pub const CR: u8 = 13;

/// The byte LF.
pub const LF: u8 = 10;

/// The line terminator: CR, then LF.
pub open spec fn crlf() -> Seq<u8> {
    seq![13u8, 10u8]
}

/// The wire form of the absent value: `$-1`, then the line terminator.
pub open spec fn null_bytes() -> Seq<u8> {
    seq![36u8, 45u8, 49u8, 13u8, 10u8]
}

/// The bytes of a frame on the wire.
pub open spec fn encode(frame: FrameView) -> Seq<u8>
    decreases frame,
{
    match frame {
        FrameView::SimpleString(text) => seq![43u8] + encode_utf8(text) + crlf(),
        FrameView::Error(text) => seq![45u8] + encode_utf8(text) + crlf(),
        FrameView::Integer(i) => seq![58u8] + int_digits(i as int) + crlf(),
        FrameView::BulkString(payload) => seq![36u8] + nat_digits(payload.len()) + crlf() + payload
            + crlf(),
        FrameView::Array(items) => seq![42u8] + nat_digits(items.len()) + crlf() + encode_each(
            items,
        ),
        FrameView::Null => null_bytes(),
    }
}

/// The bytes of a run of frames on the wire, one after the other.
pub open spec fn encode_each(items: Seq<FrameView>) -> Seq<u8>
    decreases items,
{
    if items.len() == 0 {
        Seq::empty()
    } else {
        encode_each(items.drop_last()) + encode(items.last())
    }
}

fn write_crlf(out: &mut Vec<u8>)
    ensures
        final(out)@ == old(out)@ + crlf(),
{
    out.push(CR);
    out.push(LF);
    assert(out@ =~= old(out)@ + crlf());
}

fn write_bytes(out: &mut Vec<u8>, bytes: &[u8])
    ensures
        final(out)@ == old(out)@ + bytes@,
{
    out.extend_from_slice(bytes);
    assert(out@ =~= old(out)@ + bytes@);
}

fn write_frame(out: &mut Vec<u8>, frame: &RespFrame)
    ensures
        final(out)@ == old(out)@ + encode(frame@),
    decreases frame, 1nat,
{
    match frame {
        RespFrame::SimpleString(text) => {
            out.push(SIMPLE);
            write_bytes(out, text.as_str().as_bytes());
            write_crlf(out);
            assert(out@ =~= old(out)@ + encode(frame@));
        },
        RespFrame::Error(text) => {
            out.push(ERROR);
            write_bytes(out, text.as_str().as_bytes());
            write_crlf(out);
            assert(out@ =~= old(out)@ + encode(frame@));
        },
        RespFrame::Integer(i) => {
            out.push(INTEGER);
            push_int(out, *i);
            write_crlf(out);
            assert(out@ =~= old(out)@ + encode(frame@));
        },
        RespFrame::BulkString(payload) => {
            let bytes = as_slice(payload);
            out.push(BULK);
            push_nat(out, bytes.len() as u64);
            write_crlf(out);
            write_bytes(out, bytes);
            write_crlf(out);
            assert(out@ =~= old(out)@ + encode(frame@));
        },
        RespFrame::Array(items) => {
            proof {
                lemma_array_view(*items);
            }
            out.push(ARRAY);
            push_nat(out, items.len() as u64);
            write_crlf(out);
            write_frames(out, items);
            assert(out@ =~= old(out)@ + encode(frame@));
        },
        RespFrame::Null => {
            out.push(BULK);
            push_int(out, -1);
            write_crlf(out);
            assert(int_digits(-1) =~= seq![45u8, 49u8]);
            assert(out@ =~= old(out)@ + encode(frame@));
        },
    }
}

fn write_frames(out: &mut Vec<u8>, items: &Vec<RespFrame>)
    ensures
        final(out)@ == old(out)@ + encode_each(views(items@)),
    decreases items, 0nat,
{
    let ghost all = views(items@);
    let mut i: usize = 0;
    assert(all.take(0) =~= Seq::<FrameView>::empty());
    assert(out@ =~= old(out)@ + encode_each(all.take(0)));
    while i < items.len()
        invariant
            i <= items.len(),
            all == views(items@),
            out@ == old(out)@ + encode_each(all.take(i as int)),
        decreases items.len() - i,
    {
        proof {
            vstd::std_specs::vec::axiom_vec_index_decreases(*items, i as int);
            assert(all.take(i + 1).drop_last() =~= all.take(i as int));
            assert(all.take(i + 1).last() == items[i as int]@);
        }
        let ghost before = out@;
        write_frame(out, &items[i]);
        assert(out@ =~= old(out)@ + encode_each(all.take(i + 1)));
        i += 1;
    }
    assert(all.take(items.len() as int) =~= all);
}

/// Appends the wire form of `frame` to `stream`.
pub fn serialize_frame(stream: &mut Vec<u8>, frame: RespFrame)
    ensures
        final(stream)@ == old(stream)@ + encode(frame@),
{
    write_frame(stream, &frame);
}

} // verus!
