//! One connection: what to do with the bytes that have arrived.
//!
//! The caller owns the socket. It feeds the bytes it reads to a
//! [`ByteReader`], asks [`connection_step`] what to do, and does it: write
//! the reply and ask again, read more, or close.

use crate::commands::{handle_command, handled};
use crate::parser::{parse, parse_frame, ByteReader, ParseError};
use crate::resp_frame::FrameView;
use crate::serializer::{encode, serialize_frame};
use crate::store::{Store, StoreMap};
use vstd::prelude::*;

verus! {

/// What the connection does next.
#[derive(Debug, Clone, Copy, PartialEq, Eq, Structural)]
pub enum Step {
    /// A request was answered: write the reply, then ask again.
    Reply,
    /// The bytes so far end within a frame: read more, then ask again.
    Read,
    /// The peer closed the stream between two frames: close.
    Close,
    /// The bytes are no frame, or the stream ended within one: close.
    Fail(ParseError),
}

/// What the connection does next, given the bytes not yet read and whether
/// the stream has ended.
pub open spec fn next_step(unread: Seq<u8>, at_end: bool) -> Step {
    match parse(unread) {
        Ok(_) => Step::Reply,
        Err(ParseError::Incomplete) => if !at_end {
            Step::Read
        } else if unread.len() == 0 {
            Step::Close
        } else {
            Step::Fail(ParseError::Incomplete)
        },
        Err(e) => Step::Fail(e),
    }
}

/// Whether one request was answered: the first frame of `unread` was
/// handled at `now`, taking the store from `before` to `after`, and the
/// bytes of the reply are `written`.
pub open spec fn answered(
    unread: Seq<u8>,
    before: StoreMap,
    now: u64,
    after: StoreMap,
    written: Seq<u8>,
) -> bool {
    exists|reply: FrameView|
        handled(parse(unread)->Ok_0.0, before, now, reply, after) && written == #[trigger] encode(
            reply,
        )
}

/// Takes one step of a connection. Where the unread bytes start with a
/// frame, the request is answered: the frame is read, the store changed,
/// and the reply's bytes appended to `out`. Otherwise nothing changes, and
/// the step says whether to read more or to close.
pub fn connection_step(
    reader: &mut ByteReader,
    at_end: bool,
    db: &mut Store,
    now: u64,
    out: &mut Vec<u8>,
) -> (step: Step)
    requires
        old(reader).wf(),
        old(db).wf(),
    ensures
        final(reader).wf(),
        final(db).wf(),
        step == next_step(old(reader)@, at_end),
        step == Step::Reply ==> {
            &&& final(reader)@ == old(reader)@.skip(parse(old(reader)@)->Ok_0.1)
            &&& final(out)@.len() >= old(out)@.len()
            &&& final(out)@.take(old(out)@.len() as int) == old(out)@
            &&& answered(
                old(reader)@,
                old(db)@,
                now,
                final(db)@,
                final(out)@.skip(old(out)@.len() as int),
            )
        },
        step != Step::Reply ==> {
            &&& final(reader)@ == old(reader)@
            &&& final(db)@ == old(db)@
            &&& final(out)@ == old(out)@
        },
{
    let empty = reader.unread() == 0;
    match parse_frame(reader) {
        Ok(frame) => {
            let reply = handle_command(frame, db, now);
            let ghost meaning = reply@;
            serialize_frame(out, reply);
            assert(out@.take(old(out)@.len() as int) =~= old(out)@);
            assert(out@.skip(old(out)@.len() as int) =~= encode(meaning));
            Step::Reply
        },
        Err(ParseError::Incomplete) => {
            if !at_end {
                Step::Read
            } else if empty {
                Step::Close
            } else {
                Step::Fail(ParseError::Incomplete)
            }
        },
        Err(e) => Step::Fail(e),
    }
}

} // verus!
