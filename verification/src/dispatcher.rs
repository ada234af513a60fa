//! The sending side of the pipeline: a monotonically increasing sequence
//! counter that wraps each captured frame as a task message, and the
//! in-flight accounting that bounds how far the sender may run ahead of
//! the receiver.
//!
//! The surrounding program owns the capture loop and the transport; it
//! asks `can_send` before each send and suspends until headroom frees,
//! so `sent - consumed` never exceeds the high-water mark.

use vstd::prelude::*;

use crate::codec::from_mat;
use crate::codec::spec_encode_parts;
use crate::frame::Frame;
use crate::frame::PipelineError;

verus! {

/// How many unconsumed tasks the sender tolerates before suspending.
pub const DEFAULT_HIGH_WATER: u64 = 8;

/// The shared account of work in flight: tasks sent by the dispatcher
/// less results consumed by the presenter.
pub struct InFlightCounter {
    pub sent: u64,
    pub consumed: u64,
    pub high_water: u64,
}

impl InFlightCounter {
    /// Consumption never runs ahead of sending, and sending never runs
    /// more than the high-water mark ahead of consumption.
    pub open spec fn wf(self) -> bool {
        self.consumed <= self.sent <= self.consumed + self.high_water
    }

    /// Tasks sent and not yet consumed.
    pub open spec fn in_flight(self) -> int {
        self.sent - self.consumed
    }

    pub fn new(high_water: u64) -> (c: InFlightCounter)
        ensures
            c.wf(),
            c.sent == 0,
            c.consumed == 0,
            c.high_water == high_water,
    {
        InFlightCounter { sent: 0, consumed: 0, high_water }
    }

    /// Whether the sender has headroom.  Sending is allowed exactly while
    /// the backlog is strictly below the high-water mark, so it can never
    /// grow past it; once consumption brings the backlog back below the
    /// mark, this returns true again and sending resumes.
    pub fn can_send(&self) -> (b: bool)
        requires
            self.wf(),
        ensures
            b <==> self.in_flight() < self.high_water,
    {
        self.sent - self.consumed < self.high_water
    }

    /// Accounts one task handed to the transport.
    pub fn record_sent(&mut self)
        requires
            old(self).wf(),
            old(self).in_flight() < old(self).high_water,
            old(self).sent < u64::MAX,
        ensures
            final(self).wf(),
            final(self).sent == old(self).sent + 1,
            final(self).consumed == old(self).consumed,
            final(self).high_water == old(self).high_water,
    {
        self.sent = self.sent + 1;
    }

    /// Accounts one result handed to the presenter.
    pub fn record_consumed(&mut self)
        requires
            old(self).wf(),
            old(self).consumed < old(self).sent,
        ensures
            final(self).wf(),
            final(self).consumed == old(self).consumed + 1,
            final(self).sent == old(self).sent,
            final(self).high_water == old(self).high_water,
    {
        self.consumed = self.consumed + 1;
    }
}

/// Backpressure: in every reachable counter state the backlog is bounded
/// by the high-water mark.  `record_sent` and `record_consumed` preserve
/// well-formedness, so the bound holds along any run.
pub proof fn lemma_backpressure_bound(c: InFlightCounter)
    requires
        c.wf(),
    ensures
        c.sent - c.consumed <= c.high_water,
{
}

/// The sending role: numbers captured frames from 0 and serializes each
/// as a task message.
pub struct Dispatcher {
    pub next_seq: u64,
}

impl Dispatcher {
    pub fn new() -> (d: Dispatcher)
        ensures
            d.next_seq == 0,
    {
        Dispatcher { next_seq: 0 }
    }

    /// Wraps one captured frame as the task carrying the next sequence
    /// number and serializes it.  The sequence counter advances whether
    /// or not serialization succeeds: a frame the wire cannot carry is
    /// dropped and its number becomes a tolerated gap.
    pub fn dispatch_frame(&mut self, frame: &Frame, send_time: i32) -> (r: Result<
        Vec<u8>,
        PipelineError,
    >)
        requires
            old(self).next_seq < u64::MAX,
            frame.wf(),
        ensures
            final(self).next_seq == old(self).next_seq + 1,
            r is Ok <==> (1 <= frame.width <= i32::MAX && 1 <= frame.height <= i32::MAX),
            r is Err ==> r == Result::<Vec<u8>, PipelineError>::Err(PipelineError::BadDimensions),
            r matches Ok(bytes) ==> bytes@ == spec_encode_parts(
                frame.height as i32,
                frame.width as i32,
                frame.channels as i32,
                old(self).next_seq,
                send_time,
                frame.data@,
            ),
    {
        let seq = self.next_seq;
        self.next_seq = self.next_seq + 1;
        match from_mat(frame, seq, send_time) {
            Ok(m) => Ok(m.encode()),
            Err(e) => Err(e),
        }
    }
}

} // verus!
