//! LTP segment wire format encoding and decoding.
//!
//! Covers data segments, report segments, cancel segments, and their acks.

use crate::buffer;
use crate::sdnv::{self, SdnvError};
use crate::text;
use crate::session::{CancelDirection, CancelReason, SessionId};
use bytes::{Bytes, BytesMut};
use vstd::array::array_as_slice;
use vstd::prelude::*;

verus! {

/// Segment types. The 4-bit type code occupies the lower nibble of the first
/// header byte.
#[derive(Debug, Clone, Copy, PartialEq, Eq, Hash, Structural)]
pub enum SegmentType {
    /// Red data segment, no checkpoint (code 0).
    RedData,
    /// Red data segment that is also a checkpoint (code 1).
    RedCheckpoint,
    /// Red data segment marking the End-of-Red-Part, a checkpoint (code 2).
    RedEorp,
    /// Red data segment marking the End-of-Block, a checkpoint (code 3).
    RedEob,
    /// Green data segment (code 4).
    GreenData,
    /// Green data segment marking the End-of-Block (code 7).
    GreenEob,
    /// Report segment: receiver acknowledgement (code 8).
    Report,
    /// Report acknowledgement segment (code 9).
    ReportAck,
    /// Cancel segment from sender (code 12).
    CancelFromSender,
    /// Cancel acknowledgement to sender (code 13).
    CancelAckToSender,
    /// Cancel segment from receiver (code 14).
    CancelFromReceiver,
    /// Cancel acknowledgement to receiver (code 15).
    CancelAckToReceiver,
}

impl SegmentType {
    /// The type code on the wire.
    pub open spec fn wire_code(self) -> u8 {
        match self {
            SegmentType::RedData => 0,
            SegmentType::RedCheckpoint => 1,
            SegmentType::RedEorp => 2,
            SegmentType::RedEob => 3,
            SegmentType::GreenData => 4,
            SegmentType::GreenEob => 7,
            SegmentType::Report => 8,
            SegmentType::ReportAck => 9,
            SegmentType::CancelFromSender => 12,
            SegmentType::CancelAckToSender => 13,
            SegmentType::CancelFromReceiver => 14,
            SegmentType::CancelAckToReceiver => 15,
        }
    }

    /// The segment type that a code on the wire stands for, if any.
    pub open spec fn of_wire_code(code: u8) -> Option<SegmentType> {
        if code == 0 {
            Some(SegmentType::RedData)
        } else if code == 1 {
            Some(SegmentType::RedCheckpoint)
        } else if code == 2 {
            Some(SegmentType::RedEorp)
        } else if code == 3 {
            Some(SegmentType::RedEob)
        } else if code == 4 {
            Some(SegmentType::GreenData)
        } else if code == 7 {
            Some(SegmentType::GreenEob)
        } else if code == 8 {
            Some(SegmentType::Report)
        } else if code == 9 {
            Some(SegmentType::ReportAck)
        } else if code == 12 {
            Some(SegmentType::CancelFromSender)
        } else if code == 13 {
            Some(SegmentType::CancelAckToSender)
        } else if code == 14 {
            Some(SegmentType::CancelFromReceiver)
        } else if code == 15 {
            Some(SegmentType::CancelAckToReceiver)
        } else {
            None
        }
    }

    /// The types that carry a checkpoint (codes 1, 2 and 3).
    pub open spec fn checkpoint(self) -> bool {
        1 <= self.wire_code() <= 3
    }

    /// The data segment types (codes 0 to 4 and 7).
    pub open spec fn carries_data(self) -> bool {
        self.wire_code() <= 7
    }

    /// The red (reliable) data segment types (codes 0 to 3).
    pub open spec fn red(self) -> bool {
        self.wire_code() <= 3
    }

    /// The green (best-effort) data segment types (codes 4 and 7).
    pub open spec fn green(self) -> bool {
        self.wire_code() == 4 || self.wire_code() == 7
    }

    /// Returns the type code on the wire.
    pub fn code(&self) -> (code: u8)
        ensures
            code == self.wire_code(),
            Self::of_wire_code(code) == Some(*self),
    {
        match self {
            SegmentType::RedData => 0,
            SegmentType::RedCheckpoint => 1,
            SegmentType::RedEorp => 2,
            SegmentType::RedEob => 3,
            SegmentType::GreenData => 4,
            SegmentType::GreenEob => 7,
            SegmentType::Report => 8,
            SegmentType::ReportAck => 9,
            SegmentType::CancelFromSender => 12,
            SegmentType::CancelAckToSender => 13,
            SegmentType::CancelFromReceiver => 14,
            SegmentType::CancelAckToReceiver => 15,
        }
    }

    /// Returns `true` if this segment type carries a checkpoint
    /// (types 1, 2, or 3).
    pub fn is_checkpoint(&self) -> (r: bool)
        ensures
            r == self.checkpoint(),
    {
        matches!(self, SegmentType::RedCheckpoint | SegmentType::RedEorp | SegmentType::RedEob)
    }

    /// Returns `true` if this is a data segment type (types 0-4, 7).
    pub fn is_data(&self) -> (r: bool)
        ensures
            r == self.carries_data(),
    {
        matches!(
            self,
            SegmentType::RedData
                | SegmentType::RedCheckpoint
                | SegmentType::RedEorp
                | SegmentType::RedEob
                | SegmentType::GreenData
                | SegmentType::GreenEob
        )
    }

    /// Returns `true` if this is a red (reliable) data segment type (types 0-3).
    pub fn is_red(&self) -> (r: bool)
        ensures
            r == self.red(),
    {
        matches!(
            self,
            SegmentType::RedData
                | SegmentType::RedCheckpoint
                | SegmentType::RedEorp
                | SegmentType::RedEob
        )
    }

    /// Returns `true` if this is a green (best-effort) data segment type (types 4, 7).
    pub fn is_green(&self) -> (r: bool)
        ensures
            r == self.green(),
    {
        matches!(self, SegmentType::GreenData | SegmentType::GreenEob)
    }
}

/// Errors that can occur when decoding an LTP segment.
#[derive(Debug, Clone, Copy, PartialEq, Eq, Structural)]
pub enum SegmentError {
    /// The segment type code is not a recognized LTP segment type.
    UnknownType(u8),
    /// The segment byte sequence is truncated (insufficient bytes for the body).
    Truncated,
    /// The cancel reason code is not a recognized value.
    InvalidReason(u8),
    /// An SDNV decode error occurred while parsing a segment field.
    Sdnv(SdnvError),
}

impl From<SdnvError> for SegmentError {
    fn from(e: SdnvError) -> (r: Self) {
        SegmentError::Sdnv(e)
    }
}

impl vstd::std_specs::convert::FromSpecImpl<SdnvError> for SegmentError {
    open spec fn obeys_from_spec() -> bool {
        true
    }

    open spec fn from_spec(e: SdnvError) -> Self {
        SegmentError::Sdnv(e)
    }
}

impl TryFrom<u8> for SegmentType {
    type Error = SegmentError;

    fn try_from(value: u8) -> (r: Result<Self, SegmentError>) {
        match value {
            0 => Ok(SegmentType::RedData),
            1 => Ok(SegmentType::RedCheckpoint),
            2 => Ok(SegmentType::RedEorp),
            3 => Ok(SegmentType::RedEob),
            4 => Ok(SegmentType::GreenData),
            7 => Ok(SegmentType::GreenEob),
            8 => Ok(SegmentType::Report),
            9 => Ok(SegmentType::ReportAck),
            12 => Ok(SegmentType::CancelFromSender),
            13 => Ok(SegmentType::CancelAckToSender),
            14 => Ok(SegmentType::CancelFromReceiver),
            15 => Ok(SegmentType::CancelAckToReceiver),
            _ => Err(SegmentError::UnknownType(value)),
        }
    }
}

impl vstd::std_specs::convert::TryFromSpecImpl<u8> for SegmentType {
    open spec fn obeys_try_from_spec() -> bool {
        true
    }

    open spec fn try_from_spec(value: u8) -> Result<Self, SegmentError> {
        match SegmentType::of_wire_code(value) {
            Some(t) => Ok(t),
            None => Err(SegmentError::UnknownType(value)),
        }
    }
}

/// Checkpoint information carried by checkpoint data segments (types 1, 2, 3).
#[derive(Debug, Clone, Copy, PartialEq, Eq, Structural)]
pub struct CheckpointInfo {
    /// The checkpoint serial number, strictly increasing within a session.
    pub serial: u64,
    /// The report serial number this checkpoint is responding to (0 for initial).
    pub responding_report_serial: u64,
}

/// A single reception claim within a Report Segment.
///
/// Offsets are stored as absolute byte positions within the block (not
/// relative to the report lower bound). The wire encoding converts to/from
/// relative offsets during encode/decode.
#[derive(Debug, Clone, Copy, PartialEq, Eq, Structural)]
pub struct ReceptionClaim {
    /// Absolute byte offset of the start of this claimed range.
    pub offset: u64,
    /// Length in bytes of this claimed range.
    pub length: u64,
}

/// An LTP segment with all decoded fields.
#[derive(Debug, PartialEq, Eq)]
pub enum Segment {
    /// A data segment (red or green) carrying block payload bytes.
    Data {
        /// Session identifier (sender engine ID + session number).
        session_id: SessionId,
        /// The specific data segment type code.
        segment_type: SegmentType,
        /// Client service identifier (1 = Bundle Protocol).
        client_service_id: u64,
        /// Byte offset of this segment's data within the block.
        offset: u64,
        /// The segment payload data.
        data: Bytes,
        /// Checkpoint info, present only for checkpoint segment types (1, 2, 3).
        checkpoint: Option<CheckpointInfo>,
    },
    /// A report segment acknowledging received byte ranges.
    Report {
        /// Session identifier.
        session_id: SessionId,
        /// Unique serial number for this report.
        report_serial: u64,
        /// The checkpoint serial number this report responds to.
        checkpoint_serial: u64,
        /// Upper bound (exclusive) of the report scope.
        upper_bound: u64,
        /// Lower bound (inclusive) of the report scope.
        lower_bound: u64,
        /// List of received byte range claims (absolute offsets).
        claims: Vec<ReceptionClaim>,
    },
    /// A report acknowledgement segment.
    ReportAck {
        /// Session identifier.
        session_id: SessionId,
        /// The report serial number being acknowledged.
        report_serial: u64,
    },
    /// A cancel segment (from sender or receiver).
    Cancel {
        /// Session identifier.
        session_id: SessionId,
        /// The reason for cancellation.
        reason: CancelReason,
        /// Which side initiated the cancellation.
        direction: CancelDirection,
    },
    /// A cancel acknowledgement segment.
    CancelAck {
        /// Session identifier.
        session_id: SessionId,
        /// Which side's cancel is being acknowledged.
        direction: CancelDirection,
    },
}

/// What a segment says: its fields, with the payload and the claims as sequences.
#[verifier::ext_equal]
pub enum SegmentView {
    Data {
        session_id: SessionId,
        segment_type: SegmentType,
        client_service_id: u64,
        offset: u64,
        data: Seq<u8>,
        checkpoint: Option<CheckpointInfo>,
    },
    Report {
        session_id: SessionId,
        report_serial: u64,
        checkpoint_serial: u64,
        upper_bound: u64,
        lower_bound: u64,
        claims: Seq<ReceptionClaim>,
    },
    ReportAck { session_id: SessionId, report_serial: u64 },
    Cancel { session_id: SessionId, reason: CancelReason, direction: CancelDirection },
    CancelAck { session_id: SessionId, direction: CancelDirection },
}

impl View for Segment {
    type V = SegmentView;

    open spec fn view(&self) -> SegmentView {
        match *self {
            Segment::Data {
                session_id,
                segment_type,
                client_service_id,
                offset,
                data,
                checkpoint,
            } => SegmentView::Data {
                session_id,
                segment_type,
                client_service_id,
                offset,
                data: buffer::bytes_content(data),
                checkpoint,
            },
            Segment::Report {
                session_id,
                report_serial,
                checkpoint_serial,
                upper_bound,
                lower_bound,
                claims,
            } => SegmentView::Report {
                session_id,
                report_serial,
                checkpoint_serial,
                upper_bound,
                lower_bound,
                claims: claims@,
            },
            Segment::ReportAck { session_id, report_serial } => SegmentView::ReportAck {
                session_id,
                report_serial,
            },
            Segment::Cancel { session_id, reason, direction } => SegmentView::Cancel {
                session_id,
                reason,
                direction,
            },
            Segment::CancelAck { session_id, direction } => SegmentView::CancelAck {
                session_id,
                direction,
            },
        }
    }
}

impl Clone for Segment {
    fn clone(&self) -> (r: Self)
        ensures
            r@ == self@,
    {
        match self {
            Segment::Data {
                session_id,
                segment_type,
                client_service_id,
                offset,
                data,
                checkpoint,
            } => Segment::Data {
                session_id: *session_id,
                segment_type: *segment_type,
                client_service_id: *client_service_id,
                offset: *offset,
                data: data.clone(),
                checkpoint: *checkpoint,
            },
            Segment::Report {
                session_id,
                report_serial,
                checkpoint_serial,
                upper_bound,
                lower_bound,
                claims,
            } => {
                let copy = claims.clone();
                assert(copy@ == claims@);
                Segment::Report {
                    session_id: *session_id,
                    report_serial: *report_serial,
                    checkpoint_serial: *checkpoint_serial,
                    upper_bound: *upper_bound,
                    lower_bound: *lower_bound,
                    claims: copy,
                }
            },
            Segment::ReportAck { session_id, report_serial } => Segment::ReportAck {
                session_id: *session_id,
                report_serial: *report_serial,
            },
            Segment::Cancel { session_id, reason, direction } => Segment::Cancel {
                session_id: *session_id,
                reason: *reason,
                direction: *direction,
            },
            Segment::CancelAck { session_id, direction } => Segment::CancelAck {
                session_id: *session_id,
                direction: *direction,
            },
        }
    }
}

// ---------------------------------------------------------------------------
// Encoding
// ---------------------------------------------------------------------------
/// A row of numbers on the wire: the SDNV of each, one after the other.
pub open spec fn numbers(vs: Seq<u64>) -> Seq<u8>
    decreases vs.len(),
{
    if vs.len() == 0 {
        Seq::empty()
    } else {
        numbers(vs.drop_last()) + sdnv::sdnv(vs.last() as nat)
    }
}

/// The offset of a claim on the wire: counted from the report's lower bound,
/// and 0 where the claim starts below it.
pub open spec fn relative_offset(offset: u64, lower_bound: u64) -> u64 {
    if offset >= lower_bound {
        (offset - lower_bound) as u64
    } else {
        0
    }
}

/// The claims of a report on the wire: the relative offset and the length of each.
pub open spec fn claims_bytes(claims: Seq<ReceptionClaim>, lower_bound: u64) -> Seq<u8>
    decreases claims.len(),
{
    if claims.len() == 0 {
        Seq::empty()
    } else {
        numbers(seq![relative_offset(claims[0].offset, lower_bound), claims[0].length])
            + claims_bytes(claims.drop_first(), lower_bound)
    }
}

impl SegmentView {
    /// The session that the segment belongs to.
    pub open spec fn session_id(self) -> SessionId {
        match self {
            SegmentView::Data { session_id, .. } => session_id,
            SegmentView::Report { session_id, .. } => session_id,
            SegmentView::ReportAck { session_id, .. } => session_id,
            SegmentView::Cancel { session_id, .. } => session_id,
            SegmentView::CancelAck { session_id, .. } => session_id,
        }
    }

    /// The type that stands in the header.
    pub open spec fn header_type(self) -> SegmentType {
        match self {
            SegmentView::Data { segment_type, .. } => segment_type,
            SegmentView::Report { .. } => SegmentType::Report,
            SegmentView::ReportAck { .. } => SegmentType::ReportAck,
            SegmentView::Cancel { direction: CancelDirection::FromSender, .. } =>
                SegmentType::CancelFromSender,
            SegmentView::Cancel { direction: CancelDirection::FromReceiver, .. } =>
                SegmentType::CancelFromReceiver,
            SegmentView::CancelAck { direction: CancelDirection::FromSender, .. } =>
                SegmentType::CancelAckToSender,
            SegmentView::CancelAck { direction: CancelDirection::FromReceiver, .. } =>
                SegmentType::CancelAckToReceiver,
        }
    }

    /// The header on the wire: version 0 and type code in one byte, the session,
    /// and a byte that says that no extensions follow.
    pub open spec fn header(self) -> Seq<u8> {
        seq![self.header_type().wire_code()] + numbers(
            seq![self.session_id().engine_id, self.session_id().session_number],
        ) + seq![0u8]
    }

    /// The numbers that the body starts with.
    pub open spec fn fields(self) -> Seq<u64> {
        match self {
            SegmentView::Data {
                segment_type,
                client_service_id,
                offset,
                data,
                checkpoint: Some(info),
                ..
            } if segment_type.checkpoint() => seq![
                client_service_id,
                offset,
                data.len() as u64,
                info.serial,
                info.responding_report_serial,
            ],
            SegmentView::Data { client_service_id, offset, data, .. } => seq![
                client_service_id,
                offset,
                data.len() as u64,
            ],
            SegmentView::Report {
                report_serial,
                checkpoint_serial,
                upper_bound,
                lower_bound,
                claims,
                ..
            } => seq![
                report_serial,
                checkpoint_serial,
                upper_bound,
                lower_bound,
                claims.len() as u64,
            ],
            SegmentView::ReportAck { report_serial, .. } => seq![report_serial],
            _ => seq![],
        }
    }

    /// What follows the numbers of the body.
    pub open spec fn trailing(self) -> Seq<u8> {
        match self {
            SegmentView::Data { data, .. } => data,
            SegmentView::Report { lower_bound, claims, .. } => claims_bytes(claims, lower_bound),
            SegmentView::ReportAck { .. } => seq![],
            SegmentView::Cancel { reason, .. } => seq![reason.wire_code()],
            SegmentView::CancelAck { .. } => seq![],
        }
    }

    /// The segment on the wire.
    pub open spec fn wire(self) -> Seq<u8> {
        self.header() + numbers(self.fields()) + self.trailing()
    }
}

/// Rows of up to five numbers, each row in terms of the one before it.
proof fn lemma_numbers_rows(a: u64, b: u64, c: u64, d: u64, e: u64)
    ensures
        numbers(seq![]) == Seq::<u8>::empty(),
        numbers(seq![a]) == sdnv::sdnv(a as nat),
        numbers(seq![a, b]) == numbers(seq![a]) + sdnv::sdnv(b as nat),
        numbers(seq![a, b, c]) == numbers(seq![a, b]) + sdnv::sdnv(c as nat),
        numbers(seq![a, b, c, d]) == numbers(seq![a, b, c]) + sdnv::sdnv(d as nat),
        numbers(seq![a, b, c, d, e]) == numbers(seq![a, b, c, d]) + sdnv::sdnv(e as nat),
{
    assert(seq![a].drop_last() == Seq::<u64>::empty());
    assert(numbers(Seq::<u64>::empty()) == Seq::<u8>::empty());
    assert(numbers(seq![a]) == Seq::<u8>::empty() + sdnv::sdnv(a as nat));
    assert(Seq::<u8>::empty() + sdnv::sdnv(a as nat) == sdnv::sdnv(a as nat));
    assert(seq![a, b].drop_last() == seq![a]);
    assert(seq![a, b, c].drop_last() == seq![a, b]);
    assert(seq![a, b, c, d].drop_last() == seq![a, b, c]);
    assert(seq![a, b, c, d, e].drop_last() == seq![a, b, c, d]);
}

/// Returns the segment type code for a given segment.
fn segment_type_code(segment: &Segment) -> (code: u8)
    ensures
        code == segment@.header_type().wire_code(),
        code < 16,
{
    match segment {
        Segment::Data { segment_type, .. } => segment_type.code(),
        Segment::Report { .. } => SegmentType::Report.code(),
        Segment::ReportAck { .. } => SegmentType::ReportAck.code(),
        Segment::Cancel { direction, .. } => match direction {
            CancelDirection::FromSender => SegmentType::CancelFromSender.code(),
            CancelDirection::FromReceiver => SegmentType::CancelFromReceiver.code(),
        },
        Segment::CancelAck { direction, .. } => match direction {
            CancelDirection::FromSender => SegmentType::CancelAckToSender.code(),
            CancelDirection::FromReceiver => SegmentType::CancelAckToReceiver.code(),
        },
    }
}

/// Returns the session ID for a given segment.
fn segment_session_id(segment: &Segment) -> (r: &SessionId)
    ensures
        *r == segment@.session_id(),
{
    match segment {
        Segment::Data { session_id, .. } => session_id,
        Segment::Report { session_id, .. } => session_id,
        Segment::ReportAck { session_id, .. } => session_id,
        Segment::Cancel { session_id, .. } => session_id,
        Segment::CancelAck { session_id, .. } => session_id,
    }
}

/// Computes the encoded wire size of a segment without actually encoding it.
///
/// This is useful for pre-allocating buffers before encoding.
pub fn encoded_size(segment: &Segment) -> (size: usize)
    requires
        segment@.wire().len() <= usize::MAX,
    ensures
        size == segment@.wire().len(),
{
    let session_id = segment_session_id(segment);
    let ghost view = segment@;
    proof {
        lemma_numbers_rows(session_id.engine_id, session_id.session_number, 0, 0, 0);
    }
    // Header: 1 byte (version|type) + engine_id SDNV + session_number SDNV + 1 byte (extension counts)
    let header_size: usize = 1 + sdnv::encoded_len(session_id.engine_id) + sdnv::encoded_len(
        session_id.session_number,
    ) + 1;
    assert(header_size == view.header().len());
    let body_size: usize = match segment {
        Segment::Data { client_service_id, offset, data, checkpoint, segment_type, .. } => {
            let data_len: u64 = buffer::bytes_len(data) as u64;
            proof {
                lemma_numbers_rows(*client_service_id, *offset, data_len, 0, 0);
            }
            let mut size: usize = sdnv::encoded_len(*client_service_id) + sdnv::encoded_len(*offset)
                + sdnv::encoded_len(data_len);
            if segment_type.is_checkpoint() {
                if let Some(ckpt) = checkpoint {
                    proof {
                        lemma_numbers_rows(
                            *client_service_id,
                            *offset,
                            data_len,
                            ckpt.serial,
                            ckpt.responding_report_serial,
                        );
                    }
                    size = size + sdnv::encoded_len(ckpt.serial);
                    size = size + sdnv::encoded_len(ckpt.responding_report_serial);
                }
            }
            assert(size == numbers(view.fields()).len());
            size + buffer::bytes_len(data)
        },
        Segment::Report {
            report_serial,
            checkpoint_serial,
            upper_bound,
            lower_bound,
            claims,
            ..
        } => {
            let claim_count: u64 = claims.len() as u64;
            proof {
                lemma_numbers_rows(
                    *report_serial,
                    *checkpoint_serial,
                    *upper_bound,
                    *lower_bound,
                    claim_count,
                );
            }
            let mut size: usize = sdnv::encoded_len(*report_serial) + sdnv::encoded_len(
                *checkpoint_serial,
            ) + sdnv::encoded_len(*upper_bound) + sdnv::encoded_len(*lower_bound)
                + sdnv::encoded_len(claim_count);
            let ghost body = numbers(view.fields()).len() + view.trailing().len();
            let mut i: usize = 0;
            assert(claims@.skip(0) == claims@);
            while i < claims.len()
                invariant
                    i <= claims.len(),
                    body <= usize::MAX,
                    size + claims_bytes(claims@.skip(i as int), *lower_bound).len() == body,
                decreases claims.len() - i,
            {
                let claim: &ReceptionClaim = &claims[i];
                let relative_offset: u64 = claim.offset.saturating_sub(*lower_bound);
                proof {
                    lemma_numbers_rows(relative_offset, claim.length, 0, 0, 0);
                    assert(claims@.skip(i as int).drop_first() == claims@.skip(i + 1));
                }
                size = size + sdnv::encoded_len(relative_offset);
                size = size + sdnv::encoded_len(claim.length);
                i = i + 1;
            }
            size
        },
        Segment::ReportAck { report_serial, .. } => {
            proof {
                lemma_numbers_rows(*report_serial, 0, 0, 0, 0);
            }
            sdnv::encoded_len(*report_serial)
        },
        Segment::Cancel { .. } => {
            proof {
                lemma_numbers_rows(0, 0, 0, 0, 0);
            }
            // Single reason code byte
            1
        },
        Segment::CancelAck { .. } => {
            proof {
                lemma_numbers_rows(0, 0, 0, 0, 0);
            }
            // Empty body
            0
        },
    };
    header_size + body_size
}

proof fn lemma_numbers_prefix(vs: Seq<u64>, n: int)
    requires
        0 <= n < vs.len(),
    ensures
        numbers(vs.take(n + 1)) == numbers(vs.take(n)) + sdnv::sdnv(vs[n] as nat),
        numbers(vs.take(n + 1)).len() <= numbers(vs).len(),
    decreases vs.len() - n,
{
    assert(vs.take(n + 1).drop_last() == vs.take(n));
    if n + 1 < vs.len() {
        lemma_numbers_prefix(vs, n + 1);
    } else {
        assert(vs.take(n + 1) == vs);
    }
}

/// Encodes a row of numbers, each as an SDNV.
fn encode_numbers(values: &[u64], buf: &mut BytesMut)
    requires
        buffer::buffer_content(*old(buf)).len() + numbers(values@).len() <= isize::MAX,
    ensures
        buffer::buffer_content(*final(buf)) == buffer::buffer_content(*old(buf)) + numbers(values@),
{
    let ghost start = buffer::buffer_content(*buf);
    let mut i: usize = 0;
    assert(start + numbers(values@.take(0)) == start);
    while i < values.len()
        invariant
            i <= values@.len(),
            start.len() + numbers(values@).len() <= isize::MAX,
            buffer::buffer_content(*buf) == start + numbers(values@.take(i as int)),
        decreases values@.len() - i,
    {
        proof {
            lemma_numbers_prefix(values@, i as int);
        }
        sdnv::encode(values[i], buf);
        assert(buffer::buffer_content(*buf) == start + numbers(values@.take(i + 1)));
        i = i + 1;
    }
    assert(values@.take(i as int) == values@);
}

/// Encodes an LTP segment into the provided buffer in wire format.
///
/// - Header: version nibble (0) | type code nibble, engine ID (SDNV),
///   session number (SDNV), extension counts byte (0x00).
/// - Body: variant-specific fields.
///
/// Report segment claim offsets are encoded relative to `lower_bound` on the wire.
pub fn encode(segment: &Segment, buf: &mut BytesMut)
    requires
        buffer::buffer_content(*old(buf)).len() + segment@.wire().len() <= isize::MAX,
    ensures
        buffer::buffer_content(*final(buf)) == buffer::buffer_content(*old(buf)) + segment@.wire(),
{
    let session_id = segment_session_id(segment);
    let type_code: u8 = segment_type_code(segment);
    let ghost view = segment@;
    let ghost start = buffer::buffer_content(*buf);
    assert(type_code & 0x0F == type_code) by (bit_vector)
        requires
            type_code < 16,
    ;
    // Header byte: version (0) in upper nibble, type code in lower nibble
    buffer::buffer_put_u8(buf, type_code & 0x0F);
    // Engine ID and session number as SDNVs
    let id: [u64; 2] = [session_id.engine_id, session_id.session_number];
    assert(id@ == seq![session_id.engine_id, session_id.session_number]);
    encode_numbers(array_as_slice(&id), buf);
    // Extension counts byte: 0x00 (no extensions emitted)
    buffer::buffer_put_u8(buf, 0x00);
    assert(buffer::buffer_content(*buf) == start + view.header());
    // Body
    match segment {
        Segment::Data { client_service_id, offset, data, checkpoint, segment_type, .. } => {
            let data_len: u64 = buffer::bytes_len(data) as u64;
            match checkpoint {
                Some(ckpt) if segment_type.is_checkpoint() => {
                    let fields: [u64; 5] = [
                        *client_service_id,
                        *offset,
                        data_len,
                        ckpt.serial,
                        ckpt.responding_report_serial,
                    ];
                    assert(fields@ == view.fields());
                    encode_numbers(array_as_slice(&fields), buf);
                },
                _ => {
                    let fields: [u64; 3] = [*client_service_id, *offset, data_len];
                    assert(fields@ == view.fields());
                    encode_numbers(array_as_slice(&fields), buf);
                },
            }
            buffer::buffer_put_slice(buf, buffer::bytes_as_slice(data));
        },
        Segment::Report {
            report_serial,
            checkpoint_serial,
            upper_bound,
            lower_bound,
            claims,
            ..
        } => {
            let fields: [u64; 5] = [
                *report_serial,
                *checkpoint_serial,
                *upper_bound,
                *lower_bound,
                claims.len() as u64,
            ];
            assert(fields@ == view.fields());
            encode_numbers(array_as_slice(&fields), buf);
            let mut i: usize = 0;
            assert(claims@.skip(0) == claims@);
            while i < claims.len()
                invariant
                    i <= claims.len(),
                    start.len() + view.wire().len() <= isize::MAX,
                    buffer::buffer_content(*buf) + claims_bytes(
                        claims@.skip(i as int),
                        *lower_bound,
                    ) == start + view.wire(),
                decreases claims.len() - i,
            {
                let claim: &ReceptionClaim = &claims[i];
                // Claim offsets are encoded relative to lower_bound
                let relative_offset: u64 = claim.offset.saturating_sub(*lower_bound);
                let pair: [u64; 2] = [relative_offset, claim.length];
                let ghost before = buffer::buffer_content(*buf);
                proof {
                    assert(pair@ == seq![relative_offset, claim.length]);
                    assert(claims@.skip(i as int).drop_first() == claims@.skip(i + 1));
                    assert(before + claims_bytes(claims@.skip(i as int), *lower_bound) == (before
                        + numbers(pair@)) + claims_bytes(claims@.skip(i + 1), *lower_bound));
                }
                encode_numbers(array_as_slice(&pair), buf);
                i = i + 1;
            }
        },
        Segment::ReportAck { report_serial, .. } => {
            let fields: [u64; 1] = [*report_serial];
            assert(fields@ == view.fields());
            encode_numbers(array_as_slice(&fields), buf);
        },
        Segment::Cancel { reason, .. } => {
            assert(numbers(view.fields()) == Seq::<u8>::empty());
            buffer::buffer_put_u8(buf, reason.code());
        },
        Segment::CancelAck { .. } => {
            // Empty body: nothing to encode beyond the header
            assert(numbers(view.fields()) == Seq::<u8>::empty());
        },
    }
}

// ---------------------------------------------------------------------------
// Decoding
// ---------------------------------------------------------------------------
/// Reads one number from the front of `s`.
pub open spec fn read_number(s: Seq<u8>) -> (Result<u64, SegmentError>, Seq<u8>) {
    match sdnv::read_sdnv(s) {
        (Ok(v), rest) => (Ok(v), rest),
        (Err(e), rest) => (Err(SegmentError::Sdnv(e)), rest),
    }
}

/// Reads a row of `n` numbers from the front of `s`.
pub open spec fn read_numbers(s: Seq<u8>, n: nat) -> (Result<Seq<u64>, SegmentError>, Seq<u8>)
    decreases n,
{
    if n == 0 {
        (Ok(Seq::empty()), s)
    } else {
        match read_numbers(s, (n - 1) as nat) {
            (Ok(vs), rest) => match read_number(rest) {
                (Ok(v), rest) => (Ok(vs.push(v)), rest),
                (Err(e), rest) => (Err(e), rest),
            },
            (Err(e), rest) => (Err(e), rest),
        }
    }
}

/// Reads past `n` extensions, each a tag, a length and that many bytes.
pub open spec fn read_extensions(s: Seq<u8>, n: nat) -> (Result<(), SegmentError>, Seq<u8>)
    decreases n,
{
    if n == 0 {
        (Ok(()), s)
    } else {
        match read_numbers(s, 2) {
            (Ok(vs), rest) => if rest.len() < vs[1] {
                (Err(SegmentError::Truncated), rest)
            } else {
                read_extensions(rest.skip(vs[1] as int), (n - 1) as nat)
            },
            (Err(e), rest) => (Err(e), rest),
        }
    }
}

/// Reads the body of a data segment.
pub open spec fn read_data(
    s: Seq<u8>,
    session_id: SessionId,
    segment_type: SegmentType,
) -> (Result<SegmentView, SegmentError>, Seq<u8>) {
    let n: nat = if segment_type.checkpoint() {
        5
    } else {
        3
    };
    match read_numbers(s, n) {
        (Ok(vs), rest) => if rest.len() < vs[2] {
            (Err(SegmentError::Truncated), rest)
        } else {
            (
                Ok(
                    SegmentView::Data {
                        session_id,
                        segment_type,
                        client_service_id: vs[0],
                        offset: vs[1],
                        data: rest.take(vs[2] as int),
                        checkpoint: if segment_type.checkpoint() {
                            Some(
                                CheckpointInfo { serial: vs[3], responding_report_serial: vs[4] },
                            )
                        } else {
                            None
                        },
                    },
                ),
                rest.skip(vs[2] as int),
            )
        },
        (Err(e), rest) => (Err(e), rest),
    }
}

/// Reads `n` claims. Their offsets on the wire count from `lower_bound`; an
/// absolute offset over `u64::MAX` is an overflow.
pub open spec fn read_claims(s: Seq<u8>, lower_bound: u64, n: nat) -> (
    Result<Seq<ReceptionClaim>, SegmentError>,
    Seq<u8>,
)
    decreases n,
{
    if n == 0 {
        (Ok(Seq::empty()), s)
    } else {
        match read_numbers(s, 2) {
            (Ok(vs), rest) => if lower_bound + vs[0] > u64::MAX {
                (Err(SegmentError::Sdnv(SdnvError::Overflow)), rest)
            } else {
                let claim = ReceptionClaim {
                    offset: (lower_bound + vs[0]) as u64,
                    length: vs[1],
                };
                match read_claims(rest, lower_bound, (n - 1) as nat) {
                    (Ok(claims), rest) => (Ok(seq![claim] + claims), rest),
                    (Err(e), rest) => (Err(e), rest),
                }
            },
            (Err(e), rest) => (Err(e), rest),
        }
    }
}

/// Reads the body of a report segment.
pub open spec fn read_report(s: Seq<u8>, session_id: SessionId) -> (
    Result<SegmentView, SegmentError>,
    Seq<u8>,
) {
    match read_numbers(s, 5) {
        (Ok(vs), rest) => match read_claims(rest, vs[3], vs[4] as nat) {
            (Ok(claims), rest) => (
                Ok(
                    SegmentView::Report {
                        session_id,
                        report_serial: vs[0],
                        checkpoint_serial: vs[1],
                        upper_bound: vs[2],
                        lower_bound: vs[3],
                        claims,
                    },
                ),
                rest,
            ),
            (Err(e), rest) => (Err(e), rest),
        },
        (Err(e), rest) => (Err(e), rest),
    }
}

/// Reads the body of a report acknowledgement.
pub open spec fn read_report_ack(s: Seq<u8>, session_id: SessionId) -> (
    Result<SegmentView, SegmentError>,
    Seq<u8>,
) {
    match read_number(s) {
        (Ok(v), rest) => (Ok(SegmentView::ReportAck { session_id, report_serial: v }), rest),
        (Err(e), rest) => (Err(e), rest),
    }
}

/// Reads the body of a cancel segment: its reason code.
pub open spec fn read_cancel(s: Seq<u8>, session_id: SessionId, direction: CancelDirection) -> (
    Result<SegmentView, SegmentError>,
    Seq<u8>,
) {
    if s.len() == 0 {
        (Err(SegmentError::Truncated), s)
    } else {
        match CancelReason::of_wire_code(s[0]) {
            Some(reason) => (
                Ok(SegmentView::Cancel { session_id, reason, direction }),
                s.skip(1),
            ),
            None => (Err(SegmentError::InvalidReason(s[0])), s.skip(1)),
        }
    }
}

/// Reads the body that belongs to a segment type.
pub open spec fn read_body(s: Seq<u8>, session_id: SessionId, segment_type: SegmentType) -> (
    Result<SegmentView, SegmentError>,
    Seq<u8>,
) {
    match segment_type {
        SegmentType::Report => read_report(s, session_id),
        SegmentType::ReportAck => read_report_ack(s, session_id),
        SegmentType::CancelFromSender => read_cancel(s, session_id, CancelDirection::FromSender),
        SegmentType::CancelAckToSender => (
            Ok(SegmentView::CancelAck { session_id, direction: CancelDirection::FromSender }),
            s,
        ),
        SegmentType::CancelFromReceiver => read_cancel(
            s,
            session_id,
            CancelDirection::FromReceiver,
        ),
        SegmentType::CancelAckToReceiver => (
            Ok(SegmentView::CancelAck { session_id, direction: CancelDirection::FromReceiver }),
            s,
        ),
        _ => read_data(s, session_id, segment_type),
    }
}

/// Reads what follows the session in a segment: the byte with the extension
/// counts, the header extensions, the body, and the trailer extensions.
pub open spec fn read_after_session(
    s: Seq<u8>,
    session_id: SessionId,
    segment_type: SegmentType,
) -> (Result<SegmentView, SegmentError>, Seq<u8>) {
    if s.len() == 0 {
        (Err(SegmentError::Truncated), s)
    } else {
        match read_extensions(s.skip(1), s[0] as nat / 16) {
            (Ok(_), rest) => match read_body(rest, session_id, segment_type) {
                (Ok(segment), rest) => match read_extensions(rest, s[0] as nat % 16) {
                    (Ok(_), rest) => (Ok(segment), rest),
                    (Err(e), rest) => (Err(e), rest),
                },
                (Err(e), rest) => (Err(e), rest),
            },
            (Err(e), rest) => (Err(e), rest),
        }
    }
}

/// What decoding a segment from the front of `s` gives, and the bytes left
/// behind. The first byte is the type code, as the version in its upper half
/// must be 0.
pub open spec fn read_segment(s: Seq<u8>) -> (Result<SegmentView, SegmentError>, Seq<u8>) {
    if s.len() == 0 {
        (Err(SegmentError::Truncated), s)
    } else {
        match SegmentType::of_wire_code(s[0]) {
            Some(segment_type) => match read_numbers(s.skip(1), 2) {
                (Ok(vs), rest) => read_after_session(
                    rest,
                    SessionId { engine_id: vs[0], session_number: vs[1] },
                    segment_type,
                ),
                (Err(e), rest) => (Err(e), rest),
            },
            None => (Err(SegmentError::UnknownType(s[0])), s.skip(1)),
        }
    }
}

/// The outcome of a decode, with the segment by its view.
pub open spec fn outcome(r: Result<Segment, SegmentError>) -> Result<SegmentView, SegmentError> {
    match r {
        Ok(segment) => Ok(segment@),
        Err(e) => Err(e),
    }
}

/// Decodes one number.
fn decode_number(buf: &mut &[u8]) -> (r: Result<u64, SegmentError>)
    ensures
        r == read_number(old(buf)@).0,
        final(buf)@ == read_number(old(buf)@).1,
{
    match sdnv::decode(buf) {
        Ok(v) => Ok(v),
        Err(e) => Err(SegmentError::from(e)),
    }
}

/// Parses and skips a single extension (tag SDNV, length SDNV, value bytes).
fn skip_extension(buf: &mut &[u8]) -> (r: Result<(), SegmentError>)
    ensures
        r == read_extensions(old(buf)@, 1).0,
        final(buf)@ == read_extensions(old(buf)@, 1).1,
{
    proof {
        reveal_with_fuel(read_numbers, 3);
        reveal_with_fuel(read_extensions, 2);
    }
    // tag SDNV
    let _tag: u64 = decode_number(buf)?;
    // length SDNV
    let length: u64 = decode_number(buf)?;
    // value bytes
    if (buffer::reader_remaining(*buf) as u64) < length {
        return Err(SegmentError::Truncated);
    }
    buffer::reader_advance(buf, length as usize);
    Ok(())
}

/// Parses and skips the given number of extensions.
fn skip_extensions(buf: &mut &[u8], count: u8) -> (r: Result<(), SegmentError>)
    ensures
        r == read_extensions(old(buf)@, count as nat).0,
        final(buf)@ == read_extensions(old(buf)@, count as nat).1,
{
    let ghost s = buf@;
    let mut i: u8 = 0;
    while i < count
        invariant
            i <= count,
            s == old(buf)@,
            read_extensions(s, count as nat) == read_extensions(buf@, (count - i) as nat),
        decreases count - i,
    {
        proof {
            reveal_with_fuel(read_extensions, 2);
        }
        skip_extension(buf)?;
        i = i + 1;
    }
    Ok(())
}

/// Decodes a data segment body (types 0-4, 7).
fn decode_data_segment(
    buf: &mut &[u8],
    session_id: SessionId,
    segment_type: SegmentType,
) -> (r: Result<Segment, SegmentError>)
    ensures
        outcome(r) == read_data(old(buf)@, session_id, segment_type).0,
        final(buf)@ == read_data(old(buf)@, session_id, segment_type).1,
{
    proof {
        reveal_with_fuel(read_numbers, 6);
    }
    let client_service_id: u64 = decode_number(buf)?;
    let offset: u64 = decode_number(buf)?;
    let data_length: u64 = decode_number(buf)?;
    // Checkpoint fields for types 1, 2, 3
    let checkpoint = if segment_type.is_checkpoint() {
        let serial: u64 = decode_number(buf)?;
        let responding_report_serial: u64 = decode_number(buf)?;
        Some(CheckpointInfo { serial, responding_report_serial })
    } else {
        None
    };
    // Raw data bytes
    if (buffer::reader_remaining(*buf) as u64) < data_length {
        return Err(SegmentError::Truncated);
    }
    let data = buffer::reader_copy_to_bytes(buf, data_length as usize);
    Ok(Segment::Data { session_id, segment_type, client_service_id, offset, data, checkpoint })
}

/// Decodes a report segment body (type 8).
fn decode_report_segment(buf: &mut &[u8], session_id: SessionId) -> (r: Result<
    Segment,
    SegmentError,
>)
    ensures
        outcome(r) == read_report(old(buf)@, session_id).0,
        final(buf)@ == read_report(old(buf)@, session_id).1,
{
    proof {
        reveal_with_fuel(read_numbers, 6);
    }
    let report_serial: u64 = decode_number(buf)?;
    let checkpoint_serial: u64 = decode_number(buf)?;
    let upper_bound: u64 = decode_number(buf)?;
    let lower_bound: u64 = decode_number(buf)?;
    let claim_count: u64 = decode_number(buf)?;
    let ghost whole = read_claims(buf@, lower_bound, claim_count as nat);
    let ghost spec_result = read_report(old(buf)@, session_id);
    assert(spec_result == match whole {
        (Ok(claims), rest) => (
            Ok::<SegmentView, SegmentError>(
                SegmentView::Report {
                    session_id,
                    report_serial,
                    checkpoint_serial,
                    upper_bound,
                    lower_bound,
                    claims,
                },
            ),
            rest,
        ),
        (Err(e), rest) => (Err(e), rest),
    });
    let mut claims: Vec<ReceptionClaim> = Vec::new();
    let mut i: u64 = 0;
    while i < claim_count
        invariant
            i <= claim_count,
            whole == match read_claims(buf@, lower_bound, (claim_count - i) as nat) {
                (Ok(more), rest) => (Ok::<Seq<ReceptionClaim>, SegmentError>(claims@ + more), rest),
                (Err(e), rest) => (Err(e), rest),
            },
            spec_result == read_report(old(buf)@, session_id),
            whole.0 is Err ==> spec_result == (
                Err::<SegmentView, SegmentError>(whole.0->Err_0),
                whole.1,
            ),
        decreases claim_count - i,
    {
        proof {
            reveal_with_fuel(read_numbers, 3);
        }
        // Wire offsets are relative to lower_bound; reconstruct absolute ones
        let relative_offset: u64 = decode_number(buf)?;
        let length: u64 = decode_number(buf)?;
        let offset: u64 = match lower_bound.checked_add(relative_offset) {
            Some(offset) => offset,
            None => return Err(SegmentError::Sdnv(SdnvError::Overflow)),
        };
        let claim = ReceptionClaim { offset, length };
        proof {
            let more = read_claims(buf@, lower_bound, (claim_count - i - 1) as nat);
            if more.0 is Ok {
                assert(claims@ + (seq![claim] + more.0->Ok_0) == claims@.push(claim)
                    + more.0->Ok_0);
            }
        }
        claims.push(claim);
        i = i + 1;
    }
    assert(claims@ + Seq::<ReceptionClaim>::empty() == claims@);
    Ok(
        Segment::Report {
            session_id,
            report_serial,
            checkpoint_serial,
            upper_bound,
            lower_bound,
            claims,
        },
    )
}

/// Decodes a report-ack body (type 9).
fn decode_report_ack(buf: &mut &[u8], session_id: SessionId) -> (r: Result<Segment, SegmentError>)
    ensures
        outcome(r) == read_report_ack(old(buf)@, session_id).0,
        final(buf)@ == read_report_ack(old(buf)@, session_id).1,
{
    let report_serial: u64 = decode_number(buf)?;
    Ok(Segment::ReportAck { session_id, report_serial })
}

/// Decodes a cancel body (types 12, 14): single reason code byte.
fn decode_cancel(buf: &mut &[u8], session_id: SessionId, direction: CancelDirection) -> (r: Result<
    Segment,
    SegmentError,
>)
    ensures
        outcome(r) == read_cancel(old(buf)@, session_id, direction).0,
        final(buf)@ == read_cancel(old(buf)@, session_id, direction).1,
{
    if buffer::reader_remaining(*buf) < 1 {
        return Err(SegmentError::Truncated);
    }
    let reason_byte: u8 = buffer::reader_get_u8(buf);
    let reason = match reason_byte {
        0 => CancelReason::ByUser,
        1 => CancelReason::ClientSvcUnreachable,
        2 => CancelReason::RetransmitLimitExceeded,
        3 => CancelReason::MiscoloredSegment,
        4 => CancelReason::ByEngine,
        _ => return Err(SegmentError::InvalidReason(reason_byte)),
    };
    Ok(Segment::Cancel { session_id, reason, direction })
}

/// Decodes an LTP segment from the provided buffer.
///
/// - Header: version nibble (must be 0) | type code nibble, engine ID (SDNV),
///   session number (SDNV), extension counts byte.
/// - Header extensions are parsed and skipped.
/// - Body: variant-specific fields.
/// - Trailer extensions are parsed and skipped.
///
/// Report segment claim offsets on the wire are relative to `lower_bound`.
/// The decoder reconstructs absolute offsets: `absolute_offset = lower_bound + wire_offset`.
pub fn decode(buf: &mut &[u8]) -> (r: Result<Segment, SegmentError>)
    ensures
        outcome(r) == read_segment(old(buf)@).0,
        final(buf)@ == read_segment(old(buf)@).1,
{
    proof {
        reveal_with_fuel(read_numbers, 3);
    }
    // --- Header ---
    if buffer::reader_remaining(*buf) < 1 {
        return Err(SegmentError::Truncated);
    }
    let first_byte: u8 = buffer::reader_get_u8(buf);
    let version: u8 = (first_byte >> 4) & 0x0F;
    assert((first_byte >> 4) & 0x0F == 0 <==> first_byte < 16) by (bit_vector);
    if version != 0 {
        return Err(SegmentError::UnknownType(first_byte));
    }
    let type_code: u8 = first_byte & 0x0F;
    assert(first_byte & 0x0F == first_byte) by (bit_vector)
        requires
            first_byte < 16,
    ;
    let segment_type = SegmentType::try_from(type_code)?;
    // Engine ID and session number
    let engine_id: u64 = decode_number(buf)?;
    let session_number: u64 = decode_number(buf)?;
    let session_id = SessionId { engine_id, session_number };
    let ghost rest = buf@;
    assert(read_segment(old(buf)@) == read_after_session(rest, session_id, segment_type));
    // Extension counts byte
    if buffer::reader_remaining(*buf) < 1 {
        return Err(SegmentError::Truncated);
    }
    let ext_byte: u8 = buffer::reader_get_u8(buf);
    let header_ext_count: u8 = (ext_byte >> 4) & 0x0F;
    let trailer_ext_count: u8 = ext_byte & 0x0F;
    assert((ext_byte >> 4) & 0x0F == ext_byte / 16 && ext_byte & 0x0F == ext_byte % 16)
        by (bit_vector);
    // Parse and skip header extensions
    skip_extensions(buf, header_ext_count)?;
    // --- Body (variant-specific) ---
    let segment = match segment_type {
        SegmentType::RedData
        | SegmentType::RedCheckpoint
        | SegmentType::RedEorp
        | SegmentType::RedEob
        | SegmentType::GreenData
        | SegmentType::GreenEob => decode_data_segment(buf, session_id, segment_type)?,
        SegmentType::Report => decode_report_segment(buf, session_id)?,
        SegmentType::ReportAck => decode_report_ack(buf, session_id)?,
        SegmentType::CancelFromSender => decode_cancel(
            buf,
            session_id,
            CancelDirection::FromSender,
        )?,
        SegmentType::CancelAckToSender => Segment::CancelAck {
            session_id,
            direction: CancelDirection::FromSender,
        },
        SegmentType::CancelFromReceiver => decode_cancel(
            buf,
            session_id,
            CancelDirection::FromReceiver,
        )?,
        SegmentType::CancelAckToReceiver => Segment::CancelAck {
            session_id,
            direction: CancelDirection::FromReceiver,
        },
    };
    // Parse and skip trailer extensions
    skip_extensions(buf, trailer_ext_count)?;
    Ok(segment)
}

impl SegmentError {
    /// The message that describes the error.
    pub open spec fn message(self) -> Seq<char> {
        match self {
            SegmentError::UnknownType(code) => "unknown segment type code: "@ + text::decimal(
                code as nat,
            ),
            SegmentError::Truncated => "segment truncated: insufficient bytes for segment body"@,
            SegmentError::InvalidReason(code) => "invalid cancel reason code: "@ + text::decimal(
                code as nat,
            ),
            SegmentError::Sdnv(e) => "SDNV decode error: "@ + e.message(),
        }
    }

    /// Returns the message that describes the error.
    pub fn to_string(&self) -> (r: String)
        ensures
            r@ == self.message(),
    {
        match self {
            SegmentError::UnknownType(code) => text::join(
                "unknown segment type code: ",
                text::decimal_string(*code as u64).as_str(),
            ),
            SegmentError::Truncated => String::from_str(
                "segment truncated: insufficient bytes for segment body",
            ),
            SegmentError::InvalidReason(code) => text::join(
                "invalid cancel reason code: ",
                text::decimal_string(*code as u64).as_str(),
            ),
            SegmentError::Sdnv(e) => text::join("SDNV decode error: ", e.to_string().as_str()),
        }
    }
}

// ---------------------------------------------------------------------------
// Laws
// ---------------------------------------------------------------------------
/// Type codes and segment types stand for each other one to one.
pub proof fn type_codes_are_one_to_one(t: SegmentType, code: u8)
    ensures
        SegmentType::of_wire_code(t.wire_code()) == Some(t),
        SegmentType::of_wire_code(code) matches Some(u) ==> u.wire_code() == code,
        t.wire_code() < 16,
{
}

/// Every data type is red or green and not both; the checkpoints are red.
pub proof fn data_types_have_one_color(t: SegmentType)
    ensures
        t.carries_data() <==> t.red() || t.green(),
        !(t.red() && t.green()),
        t.checkpoint() ==> t.red(),
{
}

impl SegmentView {
    /// The segments that the wire format can carry: a data segment has a data
    /// type and checkpoint information exactly for the checkpoint types, and the
    /// claims of a report start at or above its lower bound. The counts fit the
    /// fields that carry them.
    pub open spec fn valid(self) -> bool {
        match self {
            SegmentView::Data { segment_type, data, checkpoint, .. } => {
                &&& segment_type.carries_data()
                &&& checkpoint.is_some() <==> segment_type.checkpoint()
                &&& data.len() <= u64::MAX
            },
            SegmentView::Report { lower_bound, claims, .. } => {
                &&& forall|i: int| 0 <= i < claims.len() ==> #[trigger] claims[i].offset >= lower_bound
                &&& claims.len() <= u64::MAX
            },
            _ => true,
        }
    }
}

proof fn lemma_numbers_round_trip(vs: Seq<u64>, tail: Seq<u8>)
    ensures
        read_numbers(numbers(vs) + tail, vs.len()) == (Ok::<Seq<u64>, SegmentError>(vs), tail),
    decreases vs.len(),
{
    if vs.len() == 0 {
        assert(numbers(vs) + tail == tail);
        assert(vs == Seq::<u64>::empty());
    } else {
        let head = vs.drop_last();
        let last = sdnv::sdnv(vs.last() as nat);
        assert(numbers(vs) + tail == numbers(head) + (last + tail));
        lemma_numbers_round_trip(head, last + tail);
        sdnv::sdnv_round_trip(vs.last(), tail);
        assert(head.push(vs.last()) == vs);
    }
}

proof fn lemma_claims_round_trip(claims: Seq<ReceptionClaim>, lower_bound: u64, tail: Seq<u8>)
    requires
        forall|i: int| 0 <= i < claims.len() ==> #[trigger] claims[i].offset >= lower_bound,
    ensures
        read_claims(claims_bytes(claims, lower_bound) + tail, lower_bound, claims.len()) == (
            Ok::<Seq<ReceptionClaim>, SegmentError>(claims),
            tail,
        ),
    decreases claims.len(),
{
    if claims.len() == 0 {
        assert(claims_bytes(claims, lower_bound) + tail == tail);
        assert(claims == Seq::<ReceptionClaim>::empty());
    } else {
        let rest = claims.drop_first();
        let pair = seq![relative_offset(claims[0].offset, lower_bound), claims[0].length];
        let after = claims_bytes(rest, lower_bound) + tail;
        assert(claims_bytes(claims, lower_bound) + tail == numbers(pair) + after);
        lemma_numbers_round_trip(pair, after);
        assert forall|i: int| 0 <= i < rest.len() implies #[trigger] rest[i].offset
            >= lower_bound by {
            assert(rest[i] == claims[i + 1]);
        }
        lemma_claims_round_trip(rest, lower_bound, tail);
        assert(seq![claims[0]] + rest == claims);
    }
}

/// Decoding an encoded segment gives the segment back, whatever follows it, and
/// leaves exactly what follows. In particular a report's claims, which are
/// written relative to its lower bound, come back with their absolute offsets.
pub proof fn segment_round_trip(segment: SegmentView, tail: Seq<u8>)
    requires
        segment.valid(),
    ensures
        read_segment(segment.wire() + tail) == (Ok::<SegmentView, SegmentError>(segment), tail),
{
    let s = segment.wire() + tail;
    let id = segment.session_id();
    let ids = seq![id.engine_id, id.session_number];
    let t = segment.header_type();
    let body = numbers(segment.fields()) + segment.trailing() + tail;
    let after_body = segment.trailing() + tail;
    let after_ids = seq![0u8] + body;
    assert(s[0] == t.wire_code());
    assert(s.skip(1) == numbers(ids) + after_ids);
    lemma_numbers_round_trip(ids, after_ids);
    assert(after_ids.skip(1) == body);
    assert(body == numbers(segment.fields()) + after_body);
    lemma_numbers_round_trip(segment.fields(), after_body);
    match segment {
        SegmentView::Data { data, .. } => {
            assert(after_body.take(data.len() as int) == data);
            assert(after_body.skip(data.len() as int) == tail);
        },
        SegmentView::Report { lower_bound, claims, .. } => {
            lemma_claims_round_trip(claims, lower_bound, tail);
        },
        SegmentView::ReportAck { report_serial, .. } => {
            lemma_numbers_rows(report_serial, 0, 0, 0, 0);
            sdnv::sdnv_round_trip(report_serial, tail);
            assert(body == sdnv::sdnv(report_serial as nat) + tail);
        },
        SegmentView::Cancel { reason, .. } => {
            assert(body.skip(1) == tail);
        },
        SegmentView::CancelAck { .. } => {
            assert(body == tail);
        },
    }
    assert(read_body(body, id, t) == (Ok::<SegmentView, SegmentError>(segment), tail));
}

proof fn lemma_numbers_len(vs: Seq<u64>)
    ensures
        vs.len() <= numbers(vs).len() <= 10 * vs.len(),
    decreases vs.len(),
{
    if vs.len() > 0 {
        lemma_numbers_len(vs.drop_last());
        sdnv::sdnv_shape(vs.last());
    }
}

proof fn lemma_claims_len(claims: Seq<ReceptionClaim>, lower_bound: u64)
    ensures
        claims_bytes(claims, lower_bound).len() <= 20 * claims.len(),
    decreases claims.len(),
{
    if claims.len() > 0 {
        lemma_numbers_len(
            seq![relative_offset(claims[0].offset, lower_bound), claims[0].length],
        );
        lemma_claims_len(claims.drop_first(), lower_bound);
    }
}

/// A segment takes at most 72 bytes besides its payload and its claims, and a
/// claim takes at most 20 bytes.
pub proof fn segment_size_is_bounded(segment: SegmentView)
    ensures
        segment.wire().len() <= 72 + match segment {
            SegmentView::Data { data, .. } => data.len(),
            SegmentView::Report { claims, .. } => 20 * claims.len(),
            _ => 0nat,
        },
{
    let id = segment.session_id();
    lemma_numbers_len(seq![id.engine_id, id.session_number]);
    lemma_numbers_len(segment.fields());
    if let SegmentView::Report { lower_bound, claims, .. } = segment {
        lemma_claims_len(claims, lower_bound);
    }
}

/// Two valid segments with the same encoding are the same segment.
pub proof fn segment_encoding_is_injective(a: SegmentView, b: SegmentView)
    requires
        a.valid(),
        b.valid(),
        a.wire() == b.wire(),
    ensures
        a == b,
{
    segment_round_trip(a, Seq::empty());
    segment_round_trip(b, Seq::empty());
}

/// A decode never reads outside its input: what is left behind is a suffix of
/// what was given.
pub proof fn decode_leaves_a_suffix(s: Seq<u8>)
    ensures
        read_segment(s).1.len() <= s.len(),
        read_segment(s).1 == s.skip(s.len() - read_segment(s).1.len()),
{
    if s.len() > 0 && SegmentType::of_wire_code(s[0]) is Some {
        let t = SegmentType::of_wire_code(s[0])->0;
        lemma_numbers_suffix(s.skip(1), 2);
        let (ids, r) = read_numbers(s.skip(1), 2);
        assert(r == r.skip(0));
        if ids is Ok && r.len() > 0 {
            let vs = ids->Ok_0;
            let id = SessionId { engine_id: vs[0], session_number: vs[1] };
            lemma_extensions_suffix(r.skip(1), r[0] as nat / 16);
            let (skipped, r1) = read_extensions(r.skip(1), r[0] as nat / 16);
            if skipped is Ok {
                lemma_body_suffix(r1, id, t);
                let (body, r2) = read_body(r1, id, t);
                if body is Ok {
                    lemma_extensions_suffix(r2, r[0] as nat % 16);
                    lemma_suffix(r1, r2, read_extensions(r2, r[0] as nat % 16).1);
                }
                lemma_suffix(r.skip(1), r1, read_after_session(r, id, t).1);
            }
            lemma_suffix(r, r.skip(1), read_after_session(r, id, t).1);
        }
        lemma_suffix(s.skip(1), r, read_segment(s).1);
        lemma_suffix(s, s.skip(1), read_segment(s).1);
    }
}

spec fn suffix(s: Seq<u8>, t: Seq<u8>) -> bool {
    t.len() <= s.len() && t == s.skip(s.len() - t.len())
}

proof fn lemma_suffix(a: Seq<u8>, b: Seq<u8>, c: Seq<u8>)
    requires
        suffix(a, b),
        suffix(b, c),
    ensures
        suffix(a, c),
{
    assert(c == a.skip(a.len() - c.len()));
}

proof fn lemma_number_suffix(s: Seq<u8>)
    ensures
        suffix(s, read_number(s).1),
{
    sdnv::read_leaves_a_suffix(s);
}

proof fn lemma_numbers_suffix(s: Seq<u8>, n: nat)
    ensures
        suffix(s, read_numbers(s, n).1),
    decreases n,
{
    if n == 0 {
        assert(s == s.skip(0));
    } else {
        lemma_numbers_suffix(s, (n - 1) as nat);
        let r = read_numbers(s, (n - 1) as nat).1;
        lemma_number_suffix(r);
        lemma_suffix(s, r, read_number(r).1);
    }
}

proof fn lemma_extensions_suffix(s: Seq<u8>, n: nat)
    ensures
        suffix(s, read_extensions(s, n).1),
    decreases n,
{
    if n == 0 {
        assert(s == s.skip(0));
    } else {
        lemma_numbers_suffix(s, 2);
        let (vs, r) = read_numbers(s, 2);
        if vs is Ok && r.len() >= vs->Ok_0[1] {
            let r1 = r.skip(vs->Ok_0[1] as int);
            lemma_extensions_suffix(r1, (n - 1) as nat);
            lemma_suffix(r, r1, read_extensions(r1, (n - 1) as nat).1);
            lemma_suffix(s, r, read_extensions(s, n).1);
        }
    }
}

proof fn lemma_claims_suffix(s: Seq<u8>, lower_bound: u64, n: nat)
    ensures
        suffix(s, read_claims(s, lower_bound, n).1),
    decreases n,
{
    if n == 0 {
        assert(s == s.skip(0));
    } else {
        lemma_numbers_suffix(s, 2);
        let (vs, r) = read_numbers(s, 2);
        if vs is Ok && lower_bound + vs->Ok_0[0] <= u64::MAX {
            lemma_claims_suffix(r, lower_bound, (n - 1) as nat);
            lemma_suffix(s, r, read_claims(r, lower_bound, (n - 1) as nat).1);
        }
    }
}

proof fn lemma_body_suffix(s: Seq<u8>, session_id: SessionId, segment_type: SegmentType)
    ensures
        suffix(s, read_body(s, session_id, segment_type).1),
{
    assert(s == s.skip(0));
    lemma_number_suffix(s);
    lemma_numbers_suffix(s, 3);
    lemma_numbers_suffix(s, 5);
    let (vs, r) = read_numbers(s, 5);
    if vs is Ok {
        lemma_claims_suffix(r, vs->Ok_0[3], vs->Ok_0[4] as nat);
        lemma_suffix(s, r, read_claims(r, vs->Ok_0[3], vs->Ok_0[4] as nat).1);
        if r.len() >= vs->Ok_0[2] {
            lemma_suffix(s, r, r.skip(vs->Ok_0[2] as int));
        }
    }
    let (us, q) = read_numbers(s, 3);
    if us is Ok && q.len() >= us->Ok_0[2] {
        lemma_suffix(s, q, q.skip(us->Ok_0[2] as int));
    }
}

} // verus!
