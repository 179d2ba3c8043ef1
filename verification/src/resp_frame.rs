//! The frame: one unit of the wire protocol.

use crate::buffer::contents;
use bytes::Bytes;
use vstd::prelude::*;

verus! {

/// A frame of the wire protocol.
#[derive(Debug, PartialEq, Eq)]
pub enum RespFrame {
    SimpleString(String),
    Error(String),
    Integer(i64),
    BulkString(Bytes),
    Array(Vec<RespFrame>),
    Null,
}

/// What a frame means: text as characters, payloads as bytes, arrays as
/// sequences of meanings.
pub enum FrameView {
    SimpleString(Seq<char>),
    Error(Seq<char>),
    Integer(i64),
    BulkString(Seq<u8>),
    Array(Seq<FrameView>),
    Null,
}

impl View for RespFrame {
    type V = FrameView;

    open spec fn view(&self) -> FrameView {
        frame_view(*self)
    }
}

/// The meaning of a frame.
pub open spec fn frame_view(frame: RespFrame) -> FrameView
    decreases frame,
{
    match frame {
        RespFrame::SimpleString(s) => FrameView::SimpleString(s@),
        RespFrame::Error(s) => FrameView::Error(s@),
        RespFrame::Integer(i) => FrameView::Integer(i),
        RespFrame::BulkString(b) => FrameView::BulkString(contents(b)),
        RespFrame::Array(items) => FrameView::Array(
            Seq::new(
                items.len() as nat,
                |i: int|
                    if 0 <= i < items.len() {
                        frame_view(items[i])
                    } else {
                        FrameView::Null
                    },
            ),
        ),
        RespFrame::Null => FrameView::Null,
    }
}

/// The meanings of a run of frames, in order.
pub open spec fn views(items: Seq<RespFrame>) -> Seq<FrameView> {
    Seq::new(items.len(), |i: int| items[i]@)
}

/// An array frame means the array of its items' meanings.
pub proof fn lemma_array_view(items: Vec<RespFrame>)
    ensures
        RespFrame::Array(items)@ == FrameView::Array(views(items@)),
{
    match RespFrame::Array(items)@ {
        FrameView::Array(direct) => {
            assert(direct =~= views(items@));
        },
        _ => {},
    }
}

impl RespFrame {
    /// A deep copy: a frame with the same meaning.
    pub fn duplicate(&self) -> (copy: RespFrame)
        ensures
            copy@ == self@,
        decreases self, 1nat,
    {
        match self {
            RespFrame::SimpleString(s) => RespFrame::SimpleString(s.clone()),
            RespFrame::Error(s) => RespFrame::Error(s.clone()),
            RespFrame::Integer(i) => RespFrame::Integer(*i),
            RespFrame::BulkString(b) => RespFrame::BulkString(b.clone()),
            RespFrame::Array(items) => {
                let copies = duplicate_all(items);
                proof {
                    lemma_array_view(*items);
                    lemma_array_view(copies);
                }
                RespFrame::Array(copies)
            },
            RespFrame::Null => RespFrame::Null,
        }
    }
}

/// Deep copies of a run of frames, in order.
pub fn duplicate_all(items: &Vec<RespFrame>) -> (copies: Vec<RespFrame>)
    ensures
        views(copies@) == views(items@),
    decreases items, 0nat,
{
    let mut copies: Vec<RespFrame> = Vec::new();
    let mut i: usize = 0;
    while i < items.len()
        invariant
            i <= items.len(),
            copies.len() == i,
            forall|j: int| 0 <= j < i ==> copies[j]@ == items[j]@,
        decreases items.len() - i,
    {
        proof {
            vstd::std_specs::vec::axiom_vec_index_decreases(*items, i as int);
        }
        let item = items[i].duplicate();
        copies.push(item);
        i += 1;
    }
    assert(views(copies@) =~= views(items@));
    copies
}

impl Clone for RespFrame {
    fn clone(&self) -> (copy: RespFrame)
        ensures
            copy@ == self@,
    {
        self.duplicate()
    }
}

} // verus!
