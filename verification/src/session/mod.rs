//! LTP session state machines.
//!
//! Contains the types shared by the export (sender) and import (receiver)
//! session state machines.

pub mod export;
pub mod export_laws;
pub mod export_outcomes;
pub mod extents;
pub mod import;
pub mod import_laws;
pub mod import_outcomes;

pub use extents::ExtentMap;
pub use import::{ImportAction, ImportConfig, ImportSession, ImportState, SegmentColor};

use crate::buffer;
use crate::segment::{self, Segment};
use bytes::Bytes;
use vstd::prelude::*;

verus! {

/// Uniquely identifies an LTP session as the combination of the sender's
/// engine ID and a per-engine session number.
#[derive(Debug, Clone, Copy, PartialEq, Eq, Hash, Structural)]
pub struct SessionId {
    /// The LTP engine ID of the session sender.
    pub engine_id: u64,
    /// The session number, unique within the scope of the sender engine.
    pub session_number: u64,
}

/// Reason code carried in Cancel Segments (CS and CR).
#[derive(Debug, Clone, Copy, PartialEq, Eq, Structural)]
pub enum CancelReason {
    /// Cancelled by client service user request (code 0).
    ByUser,
    /// Client service is unreachable: wrong client service ID (code 1).
    ClientSvcUnreachable,
    /// Retransmission limit exceeded (code 2).
    RetransmitLimitExceeded,
    /// Miscolored segment received: red in green session or vice versa (code 3).
    MiscoloredSegment,
    /// Cancelled by the LTP engine itself: resource limits, inactivity (code 4).
    ByEngine,
}

/// Direction of a cancel or cancel-ack segment, indicating which side
/// initiated the cancellation.
#[derive(Debug, Clone, Copy, PartialEq, Eq, Structural)]
pub enum CancelDirection {
    /// Cancel originated from the sender (CS / CAS).
    FromSender,
    /// Cancel originated from the receiver (CR / CAR).
    FromReceiver,
}

impl CancelReason {
    /// The reason code on the wire.
    pub open spec fn wire_code(self) -> u8 {
        match self {
            CancelReason::ByUser => 0,
            CancelReason::ClientSvcUnreachable => 1,
            CancelReason::RetransmitLimitExceeded => 2,
            CancelReason::MiscoloredSegment => 3,
            CancelReason::ByEngine => 4,
        }
    }

    /// The reason that a code on the wire stands for, if any.
    pub open spec fn of_wire_code(code: u8) -> Option<CancelReason> {
        if code == 0 {
            Some(CancelReason::ByUser)
        } else if code == 1 {
            Some(CancelReason::ClientSvcUnreachable)
        } else if code == 2 {
            Some(CancelReason::RetransmitLimitExceeded)
        } else if code == 3 {
            Some(CancelReason::MiscoloredSegment)
        } else if code == 4 {
            Some(CancelReason::ByEngine)
        } else {
            None
        }
    }

    /// Returns the reason code on the wire.
    pub fn code(&self) -> (code: u8)
        ensures
            code == self.wire_code(),
            Self::of_wire_code(code) == Some(*self),
    {
        match self {
            CancelReason::ByUser => 0,
            CancelReason::ClientSvcUnreachable => 1,
            CancelReason::RetransmitLimitExceeded => 2,
            CancelReason::MiscoloredSegment => 3,
            CancelReason::ByEngine => 4,
        }
    }
}

/// Returns the segment in wire format.
pub(crate) fn encoded(segment: &Segment) -> (r: Bytes)
    requires
        segment@.wire().len() <= isize::MAX,
    ensures
        buffer::bytes_content(r) == segment@.wire(),
{
    let wire_size: usize = segment::encoded_size(segment);
    let mut buf = buffer::buffer_with_capacity(wire_size);
    segment::encode(segment, &mut buf);
    assert(Seq::<u8>::empty() + segment@.wire() == segment@.wire());
    buffer::buffer_freeze(buf)
}

} // verus!
