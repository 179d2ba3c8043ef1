//! The clock by which values expire: nanoseconds since the clock was made.

use crate::commands::{handle_command, handled};
use crate::resp_frame::RespFrame;
use crate::store::Store;
use std::time::{Duration, Instant};
use vstd::prelude::*;

verus! {

/// `std::time::Instant`: a reading of the machine's monotonic clock.
#[verifier::external_type_specification]
#[verifier::external_body]
pub struct ExInstant(std::time::Instant);

/// `Instant::now`: the present reading. Nothing is known of it beforehand.
pub assume_specification[ Instant::now ]() -> Instant;

/// `Instant::elapsed`: the time since a reading was taken. Nothing is known
/// of it beforehand.
pub assume_specification[ Instant::elapsed ](instant: &Instant) -> Duration;

/// `Duration::as_nanos`: a span of time in nanoseconds.
pub assume_specification[ Duration::as_nanos ](duration: &Duration) -> u128;

/// A monotonic clock that starts at zero when it is made.
pub struct Clock {
    origin: Instant,
}

impl Clock {
    /// A clock that starts now.
    pub fn new() -> Clock {
        Clock { origin: Instant::now() }
    }

    /// The nanoseconds since the clock was made; the largest `u64` once
    /// they no longer fit.
    pub fn now(&self) -> u64 {
        reading(self.origin.elapsed().as_nanos())
    }
}

/// Answers one request at the time that `clock` shows.
pub fn handle_command_now(frame: RespFrame, db: &mut Store, clock: &Clock) -> (reply: RespFrame)
    requires
        old(db).wf(),
    ensures
        final(db).wf(),
        exists|now: u64| handled(frame@, old(db)@, now, reply@, final(db)@),
{
    let now = clock.now();
    handle_command(frame, db, now)
}

/// A span of nanoseconds as a reading of the clock: itself where it fits
/// 64 bits, else the largest reading.
pub open spec fn reading_of(elapsed: u128) -> u64 {
    if elapsed > u64::MAX {
        u64::MAX
    } else {
        elapsed as u64
    }
}

/// The reading that the clock shows once `elapsed` nanoseconds have passed
/// since it was made.
pub fn reading(elapsed: u128) -> (now: u64)
    ensures
        now == reading_of(elapsed),
{
    if elapsed > u64::MAX as u128 {
        u64::MAX
    } else {
        elapsed as u64
    }
}

} // verus!
