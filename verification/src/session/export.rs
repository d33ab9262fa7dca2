//! Export (sender) session state machine.
//!
//! The sender side of an LTP session: it segments a block into data segments,
//! handles report acknowledgements, and manages retransmission.

use crate::buffer;
use crate::segment::{self, CheckpointInfo, ReceptionClaim, Segment, SegmentType, SegmentView};
use crate::session::extents::{self, ExtentMap};
use crate::session::{CancelDirection, CancelReason, SessionId};
use bytes::Bytes;
use std::collections::HashSet;
use std::time::Duration;
use vstd::prelude::*;

verus! {

/// Configuration for an export session.
#[derive(Debug)]
pub struct ExportConfig {
    /// Maximum data payload size per segment (bytes). Must be > 0.
    pub max_segment_size: usize,
    /// Maximum number of retransmission attempts before cancelling.
    pub max_retransmissions: u32,
    /// Duration to wait for a report before retransmitting.
    pub retransmit_timeout: Duration,
    /// If non-zero, mark every Nth red-data segment as an intermediate
    /// checkpoint (type 1). The final segment is always EORP/EOB regardless.
    pub checkpoint_every_n: u32,
    /// Optional limit on total checkpoints the session may send.
    pub max_checkpoints: Option<u64>,
    /// If true, transmit as green (best-effort) data with no acknowledgement.
    /// Green sessions use SegmentType::GreenData / GreenEob and complete
    /// immediately after all segments are transmitted.
    pub green: bool,
}

impl Clone for ExportConfig {
    fn clone(&self) -> (r: Self)
        ensures
            r == *self,
    {
        ExportConfig {
            max_segment_size: self.max_segment_size,
            max_retransmissions: self.max_retransmissions,
            retransmit_timeout: self.retransmit_timeout,
            checkpoint_every_n: self.checkpoint_every_n,
            max_checkpoints: self.max_checkpoints,
            green: self.green,
        }
    }
}

/// Actions returned by the export session state machine for the caller to execute.
#[derive(Debug, PartialEq, Eq)]
pub enum ExportAction {
    /// Send this encoded segment over the network.
    SendSegment(Bytes),
    /// Start a retransmission timer for the given checkpoint serial number.
    StartTimer {
        /// The checkpoint serial number this timer is associated with.
        checkpoint_serial: u64,
        /// How long to wait before considering the checkpoint unacknowledged.
        duration: Duration,
    },
    /// Suspend a running timer, recording its remaining duration.
    SuspendTimer {
        /// The checkpoint serial number whose timer should be suspended.
        checkpoint_serial: u64,
    },
    /// Resume a previously suspended timer.
    ResumeTimer {
        /// The checkpoint serial number whose timer should be resumed.
        checkpoint_serial: u64,
        /// The remaining duration to schedule for the resumed timer.
        remaining: Duration,
    },
}

/// An action, with the bytes that it carries as a sequence.
#[verifier::ext_equal]
pub enum ExportActionView {
    SendSegment(Seq<u8>),
    StartTimer { checkpoint_serial: u64, duration: Duration },
    SuspendTimer { checkpoint_serial: u64 },
    ResumeTimer { checkpoint_serial: u64, remaining: Duration },
}

impl View for ExportAction {
    type V = ExportActionView;

    open spec fn view(&self) -> ExportActionView {
        match *self {
            ExportAction::SendSegment(b) => ExportActionView::SendSegment(
                buffer::bytes_content(b),
            ),
            ExportAction::StartTimer { checkpoint_serial, duration } =>
                ExportActionView::StartTimer { checkpoint_serial, duration },
            ExportAction::SuspendTimer { checkpoint_serial } => ExportActionView::SuspendTimer {
                checkpoint_serial,
            },
            ExportAction::ResumeTimer { checkpoint_serial, remaining } =>
                ExportActionView::ResumeTimer { checkpoint_serial, remaining },
        }
    }
}

impl Clone for ExportAction {
    fn clone(&self) -> (r: Self)
        ensures
            r@ == self@,
    {
        match self {
            ExportAction::SendSegment(b) => ExportAction::SendSegment(b.clone()),
            ExportAction::StartTimer { checkpoint_serial, duration } => ExportAction::StartTimer {
                checkpoint_serial: *checkpoint_serial,
                duration: *duration,
            },
            ExportAction::SuspendTimer { checkpoint_serial } => ExportAction::SuspendTimer {
                checkpoint_serial: *checkpoint_serial,
            },
            ExportAction::ResumeTimer { checkpoint_serial, remaining } =>
                ExportAction::ResumeTimer {
                checkpoint_serial: *checkpoint_serial,
                remaining: *remaining,
            },
        }
    }
}

/// A list of actions, each by its view.
pub open spec fn action_views(actions: Seq<ExportAction>) -> Seq<ExportActionView> {
    actions.map_values(|a: ExportAction| a@)
}

/// The state of an export session.
#[derive(Debug, Clone, Copy, PartialEq, Eq, Structural)]
pub enum ExportState {
    /// Initial transmission of data segments is in progress or complete,
    /// awaiting report from receiver.
    Sending,
    /// Waiting for a report segment from the receiver.
    AwaitingReport,
    /// Retransmitting unclaimed data after a partial report.
    Retransmitting,
    /// All data has been acknowledged; session is complete.
    Complete,
    /// Session has been cancelled.
    Cancelled,
}

// ---------------------------------------------------------------------------
// Model
// ---------------------------------------------------------------------------
/// An export session as a value.
#[verifier::ext_equal]
pub struct ExportModel {
    pub id: SessionId,
    pub client_service_id: u64,
    pub block: Seq<u8>,
    pub config: ExportConfig,
    pub state: ExportState,
    /// The checkpoint serial number to assign next.
    pub next_serial: nat,
    /// The number of retransmission attempts since the last report.
    pub retries: nat,
    /// The byte ranges that the receiver has confirmed.
    pub acknowledged: Seq<(u64, u64)>,
    /// The checkpoint serial numbers whose timers run.
    pub timers: Set<u64>,
    pub suspended: bool,
}

/// What a step of the session leads to: the session after it, and the actions.
pub type ExportStep = (ExportModel, Seq<ExportActionView>);

/// A data segment to send: the bytes of the block from `from` to `to`.
#[verifier::ext_equal]
pub struct Piece {
    pub from: nat,
    pub to: nat,
    pub segment_type: SegmentType,
    pub checkpoint: Option<CheckpointInfo>,
}

/// The number of bytes that a segment carries at most: at least one.
pub open spec fn piece_size(config: ExportConfig) -> nat {
    if config.max_segment_size == 0 {
        1
    } else {
        config.max_segment_size as nat
    }
}

/// Whether as many checkpoints as allowed have been sent, when `serial` is next.
pub open spec fn checkpoints_exhausted(config: ExportConfig, serial: nat) -> bool {
    config.max_checkpoints matches Some(max) && serial > max
}

/// A checkpoint that answers the report with the given serial number, 0 for none.
pub open spec fn checkpoint(serial: nat, responding_report_serial: u64) -> Option<CheckpointInfo> {
    Some(CheckpointInfo { serial: serial as u64, responding_report_serial })
}

/// The type and the checkpoint of segment `index` in the first transmission.
/// Red data ends with a checkpoint at the end of the block, and where asked for
/// and still allowed every Nth segment is a checkpoint too. Green data has none.
pub open spec fn first_marking(config: ExportConfig, index: nat, serial: nat, last: bool) -> (
    SegmentType,
    Option<CheckpointInfo>,
) {
    if config.green {
        if last {
            (SegmentType::GreenEob, None)
        } else {
            (SegmentType::GreenData, None)
        }
    } else if last {
        (SegmentType::RedEob, checkpoint(serial, 0))
    } else if config.checkpoint_every_n > 0 && (index + 1) % config.checkpoint_every_n as nat == 0
        && !checkpoints_exhausted(config, serial) {
        (SegmentType::RedCheckpoint, checkpoint(serial, 0))
    } else {
        (SegmentType::RedData, None)
    }
}

/// The segments of the first transmission of a block of `len` bytes from offset
/// `from` on, where segment `index` and checkpoint `serial` are next.
pub open spec fn first_pieces(
    len: nat,
    config: ExportConfig,
    from: nat,
    index: nat,
    serial: nat,
) -> Seq<Piece>
    decreases len - from,
{
    let size = piece_size(config);
    let last = len - from <= size;
    let (segment_type, checkpoint) = first_marking(config, index, serial, last);
    if last {
        seq![Piece { from, to: len, segment_type, checkpoint }]
    } else {
        let next_serial = if checkpoint is Some {
            serial + 1
        } else {
            serial
        };
        seq![Piece { from, to: from + size, segment_type, checkpoint }] + first_pieces(
            len,
            config,
            from + size,
            index + 1,
            next_serial,
        )
    }
}

/// The number of checkpoints among the segments.
pub open spec fn checkpoint_count(pieces: Seq<Piece>) -> nat
    decreases pieces.len(),
{
    if pieces.len() == 0 {
        0
    } else {
        checkpoint_count(pieces.drop_last()) + if pieces.last().checkpoint is Some {
            1nat
        } else {
            0nat
        }
    }
}

/// The range from `from` to `to`, cut into ranges of at most `size` bytes.
pub open spec fn cut(from: nat, to: nat, size: nat) -> Seq<(nat, nat)>
    decreases to - from,
{
    if size == 0 || to - from <= size {
        seq![(from, to)]
    } else {
        seq![(from, from + size)] + cut(from + size, to, size)
    }
}

/// Ranges, each cut into ranges of at most `size` bytes.
pub open spec fn cut_all(ranges: Seq<(u64, u64)>, size: nat) -> Seq<(nat, nat)>
    decreases ranges.len(),
{
    if ranges.len() == 0 {
        seq![]
    } else {
        cut_all(ranges.drop_last(), size) + cut(
            ranges.last().0 as nat,
            ranges.last().1 as nat,
            size,
        )
    }
}

/// The segments that send the ranges again. The last one is a checkpoint.
pub open spec fn repeat_pieces(
    ranges: Seq<(u64, u64)>,
    size: nat,
    serial: nat,
    responding_report_serial: u64,
) -> Seq<Piece> {
    let cuts = cut_all(ranges, size);
    Seq::new(
        cuts.len(),
        |i: int|
            if i == cuts.len() - 1 {
                Piece {
                    from: cuts[i].0,
                    to: cuts[i].1,
                    segment_type: SegmentType::RedCheckpoint,
                    checkpoint: checkpoint(serial, responding_report_serial),
                }
            } else {
                Piece {
                    from: cuts[i].0,
                    to: cuts[i].1,
                    segment_type: SegmentType::RedData,
                    checkpoint: None,
                }
            },
    )
}

/// The data segment that carries a piece of the session's block.
pub open spec fn data_segment(m: ExportModel, piece: Piece) -> SegmentView {
    SegmentView::Data {
        session_id: m.id,
        segment_type: piece.segment_type,
        client_service_id: m.client_service_id,
        offset: piece.from as u64,
        data: m.block.subrange(piece.from as int, piece.to as int),
        checkpoint: piece.checkpoint,
    }
}

/// Sending a piece: its segment goes out, and a checkpoint starts its timer.
pub open spec fn piece_actions(m: ExportModel, piece: Piece) -> Seq<ExportActionView> {
    let send = ExportActionView::SendSegment(data_segment(m, piece).wire());
    match piece.checkpoint {
        Some(info) => seq![
            send,
            ExportActionView::StartTimer {
                checkpoint_serial: info.serial,
                duration: m.config.retransmit_timeout,
            },
        ],
        None => seq![send],
    }
}

/// Sending pieces one after the other.
pub open spec fn sent(m: ExportModel, pieces: Seq<Piece>) -> Seq<ExportActionView>
    decreases pieces.len(),
{
    if pieces.len() == 0 {
        seq![]
    } else {
        sent(m, pieces.drop_last()) + piece_actions(m, pieces.last())
    }
}

/// A session that has just transmitted its block.
pub open spec fn opened(
    id: SessionId,
    block: Seq<u8>,
    client_service_id: u64,
    config: ExportConfig,
) -> ExportModel {
    let next_serial = 1 + checkpoint_count(first_pieces(block.len(), config, 0, 0, 1));
    ExportModel {
        id,
        client_service_id,
        block,
        config,
        state: if config.green {
            ExportState::Complete
        } else {
            ExportState::AwaitingReport
        },
        next_serial,
        retries: 0,
        acknowledged: seq![],
        timers: Set::new(|s: u64| 1 <= s < next_serial),
        suspended: false,
    }
}

/// Opening a session sends the whole block.
pub open spec fn opening(
    id: SessionId,
    block: Seq<u8>,
    client_service_id: u64,
    config: ExportConfig,
) -> ExportStep {
    let m = opened(id, block, client_service_id, config);
    (m, sent(m, first_pieces(block.len(), config, 0, 0, 1)))
}

/// Whether the session has come to its end.
pub open spec fn finished(m: ExportModel) -> bool {
    m.state == ExportState::Complete || m.state == ExportState::Cancelled
}

/// The acknowledged ranges with claims added.
pub open spec fn with_claims(xs: Seq<(u64, u64)>, claims: Seq<ReceptionClaim>) -> Seq<(u64, u64)>
    decreases claims.len(),
{
    if claims.len() == 0 {
        xs
    } else {
        let c = claims.last();
        extents::inserted(
            with_claims(xs, claims.drop_last()),
            c.offset,
            (c.offset + c.length) as u64,
        )
    }
}

/// Sending the given ranges again, with a checkpoint at the end.
pub open spec fn repeated(
    m: ExportModel,
    ranges: Seq<(u64, u64)>,
    responding_report_serial: u64,
) -> ExportStep {
    let pieces = repeat_pieces(
        ranges,
        piece_size(m.config),
        m.next_serial,
        responding_report_serial,
    );
    (
        ExportModel {
            state: ExportState::AwaitingReport,
            next_serial: m.next_serial + 1,
            timers: m.timers.insert(m.next_serial as u64),
            ..m
        },
        sent(m, pieces),
    )
}

/// The sender gives up: it cancels the session and stops the timers.
pub open spec fn given_up(m: ExportModel) -> ExportStep {
    let segment = SegmentView::Cancel {
        session_id: m.id,
        reason: CancelReason::RetransmitLimitExceeded,
        direction: CancelDirection::FromSender,
    };
    (
        ExportModel { state: ExportState::Cancelled, timers: Set::empty(), ..m },
        seq![ExportActionView::SendSegment(segment.wire())],
    )
}

/// What a report tells an unfinished session, apart from the acknowledgement.
pub open spec fn informed(
    m: ExportModel,
    report_serial: u64,
    upper_bound: u64,
    lower_bound: u64,
    claims: Seq<ReceptionClaim>,
) -> ExportStep {
    let next = ExportModel { retries: 0, acknowledged: with_claims(m.acknowledged, claims), ..m };
    let unclaimed = extents::uncovered(next.acknowledged, lower_bound, upper_bound);
    if extents::uncovered(next.acknowledged, 0, next.block.len() as u64).len() == 0 {
        (ExportModel { state: ExportState::Complete, timers: Set::empty(), ..next }, seq![])
    } else if unclaimed.len() == 0 {
        (ExportModel { state: ExportState::AwaitingReport, ..next }, seq![])
    } else if checkpoints_exhausted(next.config, next.next_serial) {
        given_up(next)
    } else {
        repeated(next, unclaimed, report_serial)
    }
}

/// What a report leads to: it is always acknowledged.
pub open spec fn reported(
    m: ExportModel,
    report_serial: u64,
    upper_bound: u64,
    lower_bound: u64,
    claims: Seq<ReceptionClaim>,
) -> ExportStep {
    let ack = SegmentView::ReportAck { session_id: m.id, report_serial };
    let answer = seq![ExportActionView::SendSegment(ack.wire())];
    if finished(m) {
        (m, answer)
    } else {
        let (next, actions) = informed(m, report_serial, upper_bound, lower_bound, claims);
        (next, answer + actions)
    }
}

/// What the expiry of a checkpoint's timer leads to.
pub open spec fn timed_out(m: ExportModel, checkpoint_serial: u64) -> ExportStep {
    let next = ExportModel {
        timers: m.timers.remove(checkpoint_serial),
        retries: m.retries + 1,
        ..m
    };
    let unclaimed = extents::uncovered(next.acknowledged, 0, next.block.len() as u64);
    if finished(m) {
        (m, seq![])
    } else if next.retries > next.config.max_retransmissions || checkpoints_exhausted(
        next.config,
        next.next_serial,
    ) {
        given_up(next)
    } else if unclaimed.len() == 0 {
        (ExportModel { state: ExportState::Complete, ..next }, seq![])
    } else {
        repeated(next, unclaimed, 0)
    }
}

/// The timers to resume: those of the given ones that still run.
pub open spec fn resumed(timers: Set<u64>, suspended: Seq<(u64, Duration)>) -> Seq<
    ExportActionView,
>
    decreases suspended.len(),
{
    if suspended.len() == 0 {
        seq![]
    } else {
        let (checkpoint_serial, remaining) = suspended.last();
        let head = resumed(timers, suspended.drop_last());
        if timers.contains(checkpoint_serial) {
            head.push(ExportActionView::ResumeTimer { checkpoint_serial, remaining })
        } else {
            head
        }
    }
}

/// What a cancel from the receiver leads to: it is acknowledged, and the session
/// is cancelled.
pub open spec fn withdrawn(m: ExportModel) -> ExportStep {
    let ack = SegmentView::CancelAck {
        session_id: m.id,
        direction: CancelDirection::FromReceiver,
    };
    (
        ExportModel { state: ExportState::Cancelled, timers: Set::empty(), ..m },
        seq![ExportActionView::SendSegment(ack.wire())],
    )
}

/// Whether suspending the timers leads to this: an unfinished session whose
/// timers are not suspended suspends each of them, and any other does nothing.
pub open spec fn suspending(m: ExportModel, step: ExportStep) -> bool {
    if m.suspended || finished(m) {
        step == (m, Seq::<ExportActionView>::empty())
    } else {
        step.0 == (ExportModel { suspended: true, ..m }) && suspends_each(step.1, m.timers)
    }
}

/// What resuming the timers leads to: an unfinished session whose timers are
/// suspended resumes those of the given ones that still run, and any other does
/// nothing.
pub open spec fn resuming(m: ExportModel, suspended: Seq<(u64, Duration)>) -> ExportStep {
    if !m.suspended || finished(m) {
        (m, seq![])
    } else {
        (ExportModel { suspended: false, ..m }, resumed(m.timers, suspended))
    }
}

/// Whether the actions suspend each of the timers, once, in some order.
pub open spec fn suspends_each(actions: Seq<ExportActionView>, timers: Set<u64>) -> bool {
    &&& actions.no_duplicates()
    &&& actions.to_set() == timers.map(
        |checkpoint_serial: u64| ExportActionView::SuspendTimer { checkpoint_serial },
    )
}

/// Whether the machine can hold what a step leads to: every segment to send
/// fits in memory, and the counters do not run out.
pub open spec fn representable(step: ExportStep) -> bool {
    &&& step.0.next_serial <= u64::MAX
    &&& step.0.retries <= u32::MAX
    &&& forall|i: int|
        0 <= i < step.1.len() ==> ((#[trigger] step.1[i]) matches ExportActionView::SendSegment(w)
            ==> w.len() <= isize::MAX)
}

/// Whether ranges lie inside the block.
pub open spec fn inside(ranges: Seq<(u64, u64)>, block: Seq<u8>) -> bool {
    forall|i: int| 0 <= i < ranges.len() ==> (#[trigger] ranges[i]).1 <= block.len()
}

/// Whether a report can be taken in: the claimed ranges end within the range of
/// offsets, and what has to be sent again lies inside the block.
pub open spec fn admissible(
    m: ExportModel,
    upper_bound: u64,
    lower_bound: u64,
    claims: Seq<ReceptionClaim>,
) -> bool {
    let acknowledged = with_claims(m.acknowledged, claims);
    finished(m) || {
        &&& forall|i: int|
            0 <= i < claims.len() ==> (#[trigger] claims[i]).offset + claims[i].length <= u64::MAX
        &&& extents::uncovered(acknowledged, 0, m.block.len() as u64).len() == 0
            || checkpoints_exhausted(m.config, m.next_serial) || inside(
            extents::uncovered(acknowledged, lower_bound, upper_bound),
            m.block,
        )
    }
}

// ---------------------------------------------------------------------------
// Session
// ---------------------------------------------------------------------------
/// Export (sender) session state machine.
///
/// This is a pure state machine with no I/O. The caller drives it by calling
/// methods and executing the returned actions.
#[derive(Debug)]
pub struct ExportSession {
    /// The session identifier.
    id: SessionId,
    /// The client service ID (always 1 for Bundle Protocol).
    client_service_id: u64,
    /// The block data being transmitted.
    block: Bytes,
    /// Configuration for this session.
    config: ExportConfig,
    /// Current state of the session.
    state: ExportState,
    /// Next checkpoint serial number to assign.
    next_checkpoint_serial: u64,
    /// Number of retransmission attempts so far.
    retry_count: u32,
    /// Acknowledged byte extents. Tracks the cumulative set of bytes the
    /// receiver has confirmed using a sorted, merging extent map.
    pub acknowledged: ExtentMap,
    /// Checkpoint serial numbers that currently have active (running) timers.
    /// A serial is added when a `StartTimer` action is emitted and removed
    /// when the timer expires (`on_timer_expired`). A suspended timer stays.
    active_timers: HashSet<u64>,
    /// Whether timers are currently suspended (prevents double-suspend).
    timers_suspended: bool,
}

impl View for ExportSession {
    type V = ExportModel;

    closed spec fn view(&self) -> ExportModel {
        ExportModel {
            id: self.id,
            client_service_id: self.client_service_id,
            block: buffer::bytes_content(self.block),
            config: self.config,
            state: self.state,
            next_serial: self.next_checkpoint_serial as nat,
            retries: self.retry_count as nat,
            acknowledged: self.acknowledged@,
            timers: self.active_timers@,
            suspended: self.timers_suspended,
        }
    }
}

/// What holds of a session in every state: the acknowledged ranges are
/// canonical, and serial numbers start at 1.
pub open spec fn consistent(m: ExportModel) -> bool {
    &&& extents::canonical(m.acknowledged)
    &&& m.next_serial >= 1
}

/// Every segment of a list of pieces can be held when the actions can.
proof fn lemma_sent_fits(m: ExportModel, pieces: Seq<Piece>)
    requires
        forall|i: int|
            0 <= i < sent(m, pieces).len() ==> ((#[trigger] sent(m, pieces)[i]) matches
                ExportActionView::SendSegment(w) ==> w.len() <= isize::MAX),
    ensures
        forall|k: int|
            0 <= k < pieces.len() ==> data_segment(m, #[trigger] pieces[k]).wire().len()
                <= isize::MAX,
    decreases pieces.len(),
{
    if pieces.len() > 0 {
        let init = pieces.drop_last();
        let head = sent(m, init);
        let all = sent(m, pieces);
        assert forall|i: int| 0 <= i < head.len() implies ((#[trigger] head[i]) matches
            ExportActionView::SendSegment(w) ==> w.len() <= isize::MAX) by {
            assert(all[i] == head[i]);
        }
        lemma_sent_fits(m, init);
        assert(all[head.len() as int] == piece_actions(m, pieces.last())[0]);
        assert forall|k: int| 0 <= k < pieces.len() implies data_segment(
            m,
            #[trigger] pieces[k],
        ).wire().len() <= isize::MAX by {
            if k < init.len() {
                assert(init[k] == pieces[k]);
            }
        }
    }
}

/// Encodes a piece of the block as a data segment and adds the actions that send
/// it: the segment itself, and the timer of a checkpoint.
fn send_piece(
    session: Ghost<ExportModel>,
    id: SessionId,
    client_service_id: u64,
    block: &Bytes,
    timeout: Duration,
    range: (usize, usize),
    marking: (SegmentType, Option<CheckpointInfo>),
    actions: &mut Vec<ExportAction>,
)
    requires
        session@.id == id,
        session@.client_service_id == client_service_id,
        session@.block == buffer::bytes_content(*block),
        session@.config.retransmit_timeout == timeout,
        range.0 <= range.1 <= session@.block.len(),
        data_segment(
            session@,
            (Piece {
                from: range.0 as nat,
                to: range.1 as nat,
                segment_type: marking.0,
                checkpoint: marking.1,
            }),
        ).wire().len() <= isize::MAX,
    ensures
        action_views(final(actions)@) == action_views(old(actions)@) + piece_actions(
            session@,
            (Piece {
                from: range.0 as nat,
                to: range.1 as nat,
                segment_type: marking.0,
                checkpoint: marking.1,
            }),
        ),
{
    let ghost before = action_views(actions@);
    let ghost piece = Piece {
        from: range.0 as nat,
        to: range.1 as nat,
        segment_type: marking.0,
        checkpoint: marking.1,
    };
    let seg = Segment::Data {
        session_id: id,
        segment_type: marking.0,
        client_service_id,
        offset: range.0 as u64,
        data: buffer::bytes_slice(block, range.0, range.1),
        checkpoint: marking.1,
    };
    assert(seg@ == data_segment(session@, piece));
    actions.push(ExportAction::SendSegment(super::encoded(&seg)));
    // If this segment has a checkpoint, start a timer for it
    if let Some(ckpt) = marking.1 {
        actions.push(
            ExportAction::StartTimer { checkpoint_serial: ckpt.serial, duration: timeout },
        );
    }
    assert(action_views(actions@) =~= before + piece_actions(session@, piece));
}

impl ExportSession {
    /// The session is consistent.
    pub open spec fn wf(&self) -> bool {
        consistent(self@)
    }

    /// Creates a new export session, segments the block, and returns the
    /// initial set of actions (SendSegment for each data segment, plus a
    /// StartTimer for the final checkpoint).
    ///
    /// The block is split into segments of at most `config.max_segment_size`
    /// bytes. All segments except the last are type `RedData` (0), unless
    /// intermediate checkpoints are enabled (`checkpoint_every_n > 0`), in
    /// which case every Nth segment is type `RedCheckpoint` (1). The final
    /// segment is always `RedEob` (3) with a checkpoint serial number.
    ///
    /// When `config.green` is true, segments use `GreenData` (4) and the
    /// final segment uses `GreenEob` (7). No checkpoint info is attached
    /// and no timers are started. The session transitions directly to
    /// `Complete` after all segments are emitted.
    pub fn new(id: SessionId, block: Bytes, client_service_id: u64, config: ExportConfig) -> (r: (
        Self,
        Vec<ExportAction>,
    ))
        requires
            representable(
                opening(id, buffer::bytes_content(block), client_service_id, config),
            ),
        ensures
            r.0.wf(),
            (r.0@, action_views(r.1@)) == opening(
                id,
                buffer::bytes_content(block),
                client_service_id,
                config,
            ),
    {
        broadcast use vstd::std_specs::hash::group_hash_axioms;

        let ghost bytes = buffer::bytes_content(block);
        let ghost m = opened(id, bytes, client_service_id, config);
        let ghost whole = first_pieces(bytes.len(), config, 0, 0, 1);
        // Start checkpoint serial at 1 (will be incremented as needed)
        let mut next_checkpoint_serial: u64 = 1;
        let block_len: usize = buffer::bytes_len(&block);
        // Ensure at least 1 byte per segment
        let max_seg: usize = if config.max_segment_size == 0 {
            1
        } else {
            config.max_segment_size
        };
        let mut actions: Vec<ExportAction> = Vec::new();
        let mut active_timers: HashSet<u64> = HashSet::new();
        let mut offset: usize = 0;
        let mut segment_index: usize = 0;
        let mut is_last: bool = false;
        let ghost mut done = Seq::<Piece>::empty();
        proof {
            lemma_sent_fits(m, whole);
            assert(done + whole == whole);
            assert(action_views(actions@) == Seq::<ExportActionView>::empty());
            assert(active_timers@ =~= Set::new(|s: u64| 1 <= s < 1u64));
        }
        while !is_last
            invariant
                obeys_timer_keys(),
                bytes == buffer::bytes_content(block),
                block_len == bytes.len(),
                max_seg == piece_size(config),
                m == opened(id, bytes, client_service_id, config),
                whole == first_pieces(bytes.len(), config, 0, 0, 1),
                segment_index <= offset <= block_len,
                block_len <= isize::MAX,
                1 <= next_checkpoint_serial <= segment_index + 2,
                !is_last ==> next_checkpoint_serial <= segment_index + 1,
                !is_last ==> done + first_pieces(
                    bytes.len(),
                    config,
                    offset as nat,
                    segment_index as nat,
                    next_checkpoint_serial as nat,
                ) == whole,
                is_last ==> done == whole,
                checkpoint_count(done) == next_checkpoint_serial - 1,
                action_views(actions@) == sent(m, done),
                active_timers@ =~= Set::new(|s: u64| 1 <= s < next_checkpoint_serial),
                forall|k: int|
                    0 <= k < whole.len() ==> data_segment(m, #[trigger] whole[k]).wire().len()
                        <= isize::MAX,
            decreases
                    block_len - offset + if is_last {
                        0int
                    } else {
                        1int
                    },
        {
            is_last = block_len - offset <= max_seg;
            let end: usize = if is_last {
                block_len
            } else {
                offset + max_seg
            };
            let ghost serial = next_checkpoint_serial as nat;
            // Determine segment type and checkpoint info
            let exhausted: bool = match config.max_checkpoints {
                Some(max) => next_checkpoint_serial - 1 >= max,
                None => false,
            };
            let is_nth: bool = config.checkpoint_every_n > 0 && (segment_index + 1)
                % (config.checkpoint_every_n as usize) == 0;
            let marking = if config.green {
                // Green data: no checkpoints, no timers
                if is_last {
                    (SegmentType::GreenEob, None)
                } else {
                    (SegmentType::GreenData, None)
                }
            } else if is_last || (is_nth && !exhausted) {
                // Final segment is always EOB (type 3) with checkpoint; every Nth one
                // is an intermediate checkpoint (type 1) within the limit
                let info = CheckpointInfo {
                    serial: next_checkpoint_serial,
                    responding_report_serial: 0,
                };
                let _ = active_timers.insert(next_checkpoint_serial);
                next_checkpoint_serial = next_checkpoint_serial + 1;
                if is_last {
                    (SegmentType::RedEob, Some(info))
                } else {
                    (SegmentType::RedCheckpoint, Some(info))
                }
            } else {
                // Plain red data (type 0)
                (SegmentType::RedData, None)
            };
            let ghost piece = Piece {
                from: offset as nat,
                to: end as nat,
                segment_type: marking.0,
                checkpoint: marking.1,
            };
            proof {
                assert(marking == first_marking(config, segment_index as nat, serial, is_last));
                assert(whole[done.len() as int] == piece);
            }
            send_piece(
                Ghost(m),
                id,
                client_service_id,
                &block,
                config.retransmit_timeout,
                (offset, end),
                marking,
                &mut actions,
            );
            proof {
                let next = done.push(piece);
                assert(next.drop_last() == done);
                if is_last {
                    assert(next == whole);
                } else {
                    assert(next + first_pieces(
                        bytes.len(),
                        config,
                        end as nat,
                        segment_index as nat + 1,
                        next_checkpoint_serial as nat,
                    ) == whole);
                }
                done = next;
            }
            if !is_last {
                segment_index = segment_index + 1;
            }
            offset = end;
        }
        // Green sessions complete immediately; red sessions await reports
        let state = if config.green {
            ExportState::Complete
        } else {
            ExportState::AwaitingReport
        };
        let session = ExportSession {
            id,
            client_service_id,
            block,
            config,
            state,
            next_checkpoint_serial,
            retry_count: 0,
            acknowledged: ExtentMap::new(),
            active_timers,
            timers_suspended: false,
        };
        assert(session@ =~= m);
        (session, actions)
    }

    /// Returns the current state of the export session.
    pub fn state(&self) -> (r: ExportState)
        ensures
            r == self@.state,
    {
        self.state
    }

    /// Returns the session identifier.
    pub fn id(&self) -> (r: &SessionId)
        ensures
            *r == self@.id,
    {
        &self.id
    }

    /// Returns the next checkpoint serial number that will be assigned.
    pub fn next_checkpoint_serial(&self) -> (r: u64)
        ensures
            r == self@.next_serial,
    {
        self.next_checkpoint_serial
    }

    /// Returns a reference to the block data.
    pub fn block(&self) -> (r: &Bytes)
        ensures
            buffer::bytes_content(*r) == self@.block,
    {
        &self.block
    }

    /// Returns the current retry count.
    pub fn retry_count(&self) -> (r: u32)
        ensures
            r == self@.retries,
    {
        self.retry_count
    }

    /// Returns the acknowledged byte ranges as (offset, length) pairs.
    pub fn acknowledged_ranges(&self) -> (r: Vec<(u64, u64)>)
        requires
            self.wf(),
        ensures
            r@ == extents::by_length(self@.acknowledged),
    {
        self.acknowledged.claims()
    }

    /// Sends the given byte ranges again, in segments of at most the configured
    /// size. The last segment is a new checkpoint, whose timer is started.
    fn retransmit(
        &mut self,
        unclaimed: &Vec<(u64, u64)>,
        responding_report_serial: u64,
        actions: &mut Vec<ExportAction>,
    )
        requires
            old(self).wf(),
            unclaimed@.len() > 0,
            extents::canonical(unclaimed@),
            inside(unclaimed@, old(self)@.block),
            representable(repeated(old(self)@, unclaimed@, responding_report_serial)),
        ensures
            final(self).wf(),
            final(self)@ == repeated(old(self)@, unclaimed@, responding_report_serial).0,
            action_views(final(actions)@) == action_views(old(actions)@) + repeated(
                old(self)@,
                unclaimed@,
                responding_report_serial,
            ).1,
    {
        broadcast use vstd::std_specs::hash::group_hash_axioms;

        let ghost m = self@;
        let ghost before = action_views(actions@);
        let ghost size = piece_size(m.config);
        let ghost cuts = cut_all(unclaimed@, size);
        let ghost pieces = repeat_pieces(
            unclaimed@,
            size,
            m.next_serial,
            responding_report_serial,
        );
        proof {
            lemma_sent_fits(m, pieces);
            assert(before + sent(m, pieces.take(0)) == before);
        }
        let block_len: usize = buffer::bytes_len(&self.block);
        let serial: u64 = self.next_checkpoint_serial;
        let max_seg: usize = if self.config.max_segment_size == 0 {
            1
        } else {
            self.config.max_segment_size
        };
        let num_unclaimed: usize = unclaimed.len();
        let ghost mut count: int = 0;
        let mut range_idx: usize = 0;
        proof {
            assert(unclaimed@.take(0).len() == 0);
        }
        while range_idx < num_unclaimed
            invariant
                *self == *old(self),
                m == self@,
                block_len == m.block.len(),
                block_len <= isize::MAX,
                serial == m.next_serial,
                max_seg == size,
                size == piece_size(m.config),
                cuts == cut_all(unclaimed@, size),
                pieces == repeat_pieces(
                    unclaimed@,
                    size,
                    m.next_serial,
                    responding_report_serial,
                ),
                num_unclaimed == unclaimed@.len(),
                range_idx <= num_unclaimed,
                extents::canonical(unclaimed@),
                inside(unclaimed@, m.block),
                count == cut_all(unclaimed@.take(range_idx as int), size).len(),
                0 <= count <= cuts.len(),
                action_views(actions@) == before + sent(m, pieces.take(count)),
                forall|k: int|
                    0 <= k < pieces.len() ==> data_segment(m, #[trigger] pieces[k]).wire().len()
                        <= isize::MAX,
            decreases num_unclaimed - range_idx,
        {
            let is_last_range: bool = range_idx == num_unclaimed - 1;
            let (start, end) = unclaimed[range_idx];
            let mut offset: u64 = start;
            let ghost first = count;
            let ghost range_cuts = cut(start as nat, end as nat, size);
            proof {
                lemma_cuts_of_range(unclaimed@, size, range_idx as int);
                assert(end <= m.block.len());
            }
            while offset < end
                invariant
                    *self == *old(self),
                    m == self@,
                    block_len == m.block.len(),
                    block_len <= isize::MAX,
                    serial == m.next_serial,
                    max_seg == size,
                    size == piece_size(m.config),
                    start <= offset <= end <= block_len,
                    is_last_range == (range_idx == unclaimed@.len() - 1),
                    range_cuts == cut(start as nat, end as nat, size),
                    range_cuts.len() > 0,
                    first + range_cuts.len() <= cuts.len(),
                    cuts.subrange(first, first + range_cuts.len()) == range_cuts,
                    is_last_range <==> first + range_cuts.len() == cuts.len(),
                    first <= count <= first + range_cuts.len(),
                    offset < end ==> range_cuts.skip(count - first) == cut(
                        offset as nat,
                        end as nat,
                        size,
                    ),
                    offset == end ==> count == first + range_cuts.len(),
                    pieces == repeat_pieces(
                        unclaimed@,
                        size,
                        m.next_serial,
                        responding_report_serial,
                    ),
                    cuts == cut_all(unclaimed@, size),
                    0 <= first,
                    action_views(actions@) == before + sent(m, pieces.take(count)),
                    forall|k: int|
                        0 <= k < pieces.len() ==> data_segment(m, #[trigger] pieces[k]).wire().len()
                            <= isize::MAX,
                decreases end - offset,
            {
                let remaining: usize = (end - offset) as usize;
                let seg_len: usize = if remaining <= max_seg {
                    remaining
                } else {
                    max_seg
                };
                let is_last: bool = is_last_range && seg_len == remaining;
                let ghost left = cut(offset as nat, end as nat, size);
                proof {
                    assert(left.len() > 0);
                    assert(range_cuts[count - first] == range_cuts.skip(count - first)[0]);
                    assert(cuts[count] == cuts.subrange(
                        first,
                        first + range_cuts.len(),
                    )[count - first]);
                    assert(cuts[count] == (offset as nat, (offset + seg_len) as nat));
                    if seg_len < remaining {
                        assert(left.skip(1) == cut(
                            (offset + seg_len) as nat,
                            end as nat,
                            size,
                        ));
                        assert(range_cuts.skip(count - first).skip(1) == range_cuts.skip(
                            count + 1 - first,
                        ));
                        assert(left.skip(1).len() > 0);
                    } else {
                        assert(left.len() == 1);
                    }
                }
                // The final segment of the final unclaimed range gets a new checkpoint
                let marking = if is_last {
                    (
                        SegmentType::RedCheckpoint,
                        Some(CheckpointInfo { serial, responding_report_serial }),
                    )
                } else {
                    (SegmentType::RedData, None)
                };
                let from: usize = offset as usize;
                let ghost piece = Piece {
                    from: from as nat,
                    to: (from + seg_len) as nat,
                    segment_type: marking.0,
                    checkpoint: marking.1,
                };
                assert(pieces[count] == piece);
                send_piece(
                    Ghost(m),
                    self.id,
                    self.client_service_id,
                    &self.block,
                    self.config.retransmit_timeout,
                    (from, from + seg_len),
                    marking,
                    actions,
                );
                proof {
                    let more = pieces.take(count + 1);
                    assert(more.drop_last() == pieces.take(count));
                    assert(sent(m, more) == sent(m, pieces.take(count)) + piece_actions(m, piece));
                    assert(action_views(actions@) == before + sent(m, more));
                    count = count + 1;
                }
                offset = offset + seg_len as u64;
            }
            range_idx = range_idx + 1;
        }
        proof {
            assert(unclaimed@.take(range_idx as int) == unclaimed@);
            assert(pieces.take(count) == pieces);
        }
        self.next_checkpoint_serial = serial + 1;
        let _ = self.active_timers.insert(serial);
        // After retransmission, transition to AwaitingReport
        self.state = ExportState::AwaitingReport;
        assert(self@ =~= repeated(m, unclaimed@, responding_report_serial).0);
    }

    /// Cancels the session because a retransmission or checkpoint limit was exceeded.
    fn give_up(&mut self, actions: &mut Vec<ExportAction>)
        requires
            old(self).wf(),
        ensures
            final(self).wf(),
            final(self)@ == given_up(old(self)@).0,
            action_views(final(actions)@) == action_views(old(actions)@) + given_up(old(self)@).1,
    {
        let ghost before = action_views(actions@);
        let cancel = Segment::Cancel {
            session_id: self.id,
            reason: CancelReason::RetransmitLimitExceeded,
            direction: CancelDirection::FromSender,
        };
        proof {
            segment::segment_size_is_bounded(cancel@);
        }
        actions.push(ExportAction::SendSegment(super::encoded(&cancel)));
        self.state = ExportState::Cancelled;
        self.active_timers.clear();
        assert(self@ =~= given_up(old(self)@).0);
        assert(action_views(actions@) == before + given_up(old(self)@).1);
    }

    /// Whether the session has sent as many checkpoints as it may.
    fn at_checkpoint_limit(&self) -> (r: bool)
        requires
            self.wf(),
        ensures
            r == checkpoints_exhausted(self@.config, self@.next_serial),
    {
        match self.config.max_checkpoints {
            Some(max) => self.next_checkpoint_serial - 1 >= max,
            None => false,
        }
    }

    /// Handles a received Report Segment.
    ///
    /// Always emits a Report-Ack segment. Records the claimed byte ranges,
    /// then checks if the entire block is acknowledged. If so, transitions
    /// to Complete. Otherwise, retransmits data segments covering the
    /// unclaimed byte ranges within [lower_bound, upper_bound).
    ///
    /// The final retransmitted segment in each retransmission batch is marked
    /// as a new checkpoint with a new serial number, and a timer is started.
    ///
    /// Receiving a report resets the retry_count (progress was made).
    pub fn on_report(
        &mut self,
        report_serial: u64,
        _checkpoint_serial: u64,
        upper_bound: u64,
        lower_bound: u64,
        claims: &[ReceptionClaim],
    ) -> (r: Vec<ExportAction>)
        requires
            old(self).wf(),
            admissible(old(self)@, upper_bound, lower_bound, claims@),
            !finished(old(self)@) ==> representable(
                reported(old(self)@, report_serial, upper_bound, lower_bound, claims@),
            ),
        ensures
            final(self).wf(),
            (final(self)@, action_views(r@)) == reported(
                old(self)@,
                report_serial,
                upper_bound,
                lower_bound,
                claims@,
            ),
    {
        let ghost m = self@;
        let ghost whole = reported(m, report_serial, upper_bound, lower_bound, claims@);
        // Always send a Report-Ack regardless of session state
        let ras = Segment::ReportAck { session_id: self.id, report_serial };
        proof {
            segment::segment_size_is_bounded(ras@);
        }
        let mut actions: Vec<ExportAction> = Vec::new();
        actions.push(ExportAction::SendSegment(super::encoded(&ras)));
        let ghost answer = action_views(actions@);
        assert(answer == seq![ExportActionView::SendSegment(ras@.wire())]);
        assert(answer + Seq::<ExportActionView>::empty() == answer);
        // If session is already complete or cancelled, just send the RAS
        if self.state == ExportState::Complete || self.state == ExportState::Cancelled {
            return actions;
        }
        // Reset retry count: receiving a report means progress was made
        self.retry_count = 0;
        // Record claimed ranges (merge into our acknowledged set)
        let mut i: usize = 0;
        assert(claims@.take(0).len() == 0);
        while i < claims.len()
            invariant
                i <= claims@.len(),
                self.wf(),
                self@ == (ExportModel {
                    retries: 0,
                    acknowledged: with_claims(m.acknowledged, claims@.take(i as int)),
                    ..m
                }),
                forall|k: int|
                    0 <= k < claims@.len() ==> (#[trigger] claims@[k]).offset + claims@[k].length
                        <= u64::MAX,
            decreases claims@.len() - i,
        {
            let claim = claims[i];
            proof {
                assert(claims@.take(i + 1).drop_last() == claims@.take(i as int));
            }
            self.acknowledged.insert(claim.offset, claim.offset + claim.length);
            i = i + 1;
        }
        assert(claims@.take(i as int) == claims@);
        let ghost next = self@;
        // Check if the entire block is now acknowledged
        let block_len: u64 = buffer::bytes_len(&self.block) as u64;
        if self.acknowledged.is_complete(0, block_len) {
            self.state = ExportState::Complete;
            self.active_timers.clear();
            assert(self@ =~= whole.0);
            return actions;
        }
        // Compute unclaimed byte ranges within [lower_bound, upper_bound)
        let unclaimed = self.acknowledged.gaps(lower_bound, upper_bound);
        if unclaimed.is_empty() {
            // All bytes within this report window are acknowledged,
            // but the full block isn't done yet: stay in AwaitingReport
            self.state = ExportState::AwaitingReport;
            return actions;
        }
        // Check max checkpoints limit before creating a new checkpoint
        if self.at_checkpoint_limit() {
            // Exceeded checkpoint limit: cancel session
            self.give_up(&mut actions);
            return actions;
        }
        // Retransmit unclaimed ranges
        proof {
            let step = repeated(next, unclaimed@, report_serial);
            assert(whole.1 == answer + step.1);
            assert forall|k: int| 0 <= k < step.1.len() implies ((#[trigger] step.1[k]) matches
                ExportActionView::SendSegment(w) ==> w.len() <= isize::MAX) by {
                assert(whole.1[answer.len() + k] == step.1[k]);
            }
        }
        self.retransmit(&unclaimed, report_serial, &mut actions);
        actions
    }

    /// Handles a retransmission timer expiry for a given checkpoint serial.
    ///
    /// Increments the retry counter. If the limit is exceeded, emits a Cancel
    /// segment with reason RetransmitLimitExceeded and transitions to Cancelled.
    /// Otherwise, retransmits all unclaimed data for the full block scope and
    /// starts a new timer.
    pub fn on_timer_expired(&mut self, checkpoint_serial: u64) -> (r: Vec<ExportAction>)
        requires
            old(self).wf(),
            !finished(old(self)@) ==> representable(timed_out(old(self)@, checkpoint_serial)),
        ensures
            final(self).wf(),
            (final(self)@, action_views(r@)) == timed_out(old(self)@, checkpoint_serial),
    {
        broadcast use vstd::std_specs::hash::group_hash_axioms;

        let ghost m = self@;
        let ghost whole = timed_out(m, checkpoint_serial);
        let mut actions: Vec<ExportAction> = Vec::new();
        let ghost none = Seq::<ExportActionView>::empty();
        proof {
            assert(action_views(actions@) == none);
            assert(none + whole.1 == whole.1);
        }
        // If session is already complete or cancelled, ignore the timer
        if self.state == ExportState::Complete || self.state == ExportState::Cancelled {
            return actions;
        }
        // The expired timer is no longer active
        let _ = self.active_timers.remove(&checkpoint_serial);
        // Increment retry count
        self.retry_count = self.retry_count + 1;
        assert(self@ =~= ExportModel {
            timers: m.timers.remove(checkpoint_serial),
            retries: m.retries + 1,
            ..m
        });
        // Check if we've exceeded the retransmission limit, or the checkpoint limit
        // before creating a new checkpoint
        if self.retry_count > self.config.max_retransmissions || self.at_checkpoint_limit() {
            self.give_up(&mut actions);
            return actions;
        }
        // Retransmit unclaimed data for the full block scope
        let block_len: u64 = buffer::bytes_len(&self.block) as u64;
        let unclaimed = self.acknowledged.gaps(0, block_len);
        if unclaimed.is_empty() {
            // Everything is acknowledged: this shouldn't happen but handle gracefully
            self.state = ExportState::Complete;
            return actions;
        }
        proof {
            extents::gaps_are_the_complement(self@.acknowledged, 0, block_len);
            assert(inside(unclaimed@, self@.block));
        }
        self.retransmit(&unclaimed, 0, &mut actions);
        actions
    }

    /// Handles a Cancel-from-Receiver segment.
    ///
    /// Emits a Cancel-Ack-to-Receiver segment and transitions to Cancelled.
    pub fn on_cancel_from_receiver(&mut self, _reason: CancelReason) -> (r: Vec<ExportAction>)
        requires
            old(self).wf(),
        ensures
            final(self).wf(),
            (final(self)@, action_views(r@)) == withdrawn(old(self)@),
    {
        // Send Cancel-Ack to Receiver
        let cancel_ack = Segment::CancelAck {
            session_id: self.id,
            direction: CancelDirection::FromReceiver,
        };
        proof {
            segment::segment_size_is_bounded(cancel_ack@);
        }
        let actions: Vec<ExportAction> = vec![
            ExportAction::SendSegment(super::encoded(&cancel_ack)),
        ];
        self.state = ExportState::Cancelled;
        self.active_timers.clear();
        assert(action_views(actions@) == seq![
            ExportActionView::SendSegment(cancel_ack@.wire()),
        ]);
        assert(self@ =~= ExportModel {
            state: ExportState::Cancelled,
            timers: Set::empty(),
            ..old(self)@
        });
        actions
    }

    /// Suspend all active timers. Returns actions describing which timers
    /// to suspend. The caller is responsible for recording remaining durations.
    ///
    /// If timers are already suspended or the session is complete/cancelled,
    /// returns an empty vec.
    pub fn suspend_timers(&mut self) -> (r: Vec<ExportAction>)
        requires
            old(self).wf(),
        ensures
            final(self).wf(),
            suspending(old(self)@, (final(self)@, action_views(r@))),
    {
        broadcast use vstd::std_specs::hash::group_hash_axioms;

        let mut actions: Vec<ExportAction> = Vec::new();
        // Don't double-suspend, and don't suspend if session is done
        if self.timers_suspended || self.state == ExportState::Complete || self.state
            == ExportState::Cancelled {
            assert(action_views(actions@) == Seq::<ExportActionView>::empty());
            return actions;
        }
        let ghost timers = self.active_timers@;
        let serials = self.active_timers.iter();
        let ghost listed = vstd::std_specs::hash::into_iter_hash_keys(serials);
        proof {
            let keys = vstd::std_specs::iter::IteratorSpec::remaining(&serials);
            assert(listed == keys.unref());
            assert(keys.unref().to_set() == timers);
            assert forall|i: int, j: int|
                0 <= i < listed.len() && 0 <= j < listed.len() && i != j implies listed[i]
                != listed[j] by {
                assert(keys[i] != keys[j]);
            }
        }
        for checkpoint_serial in it: serials
            invariant
                it.seq().unref() == listed,
                actions@.len() == it.index(),
                forall|k: int|
                    0 <= k < it.index() ==> #[trigger] actions@[k] == (ExportAction::SuspendTimer {
                        checkpoint_serial: listed[k],
                    }),
        {
            actions.push(ExportAction::SuspendTimer { checkpoint_serial: *checkpoint_serial });
        }
        proof {
            lemma_suspends_each(action_views(actions@), listed, timers);
        }
        self.timers_suspended = true;
        actions
    }

    /// Resume previously suspended timers. Called with the remaining durations
    /// that were recorded during suspension.
    ///
    /// Returns `ResumeTimer` actions for each checkpoint serial that still
    /// exists in this session's active timer set. Checkpoint serials that are
    /// no longer valid (e.g., session was cancelled between suspend and resume)
    /// are silently skipped.
    pub fn resume_timers(&mut self, suspended: &[(u64, Duration)]) -> (r: Vec<ExportAction>)
        requires
            old(self).wf(),
        ensures
            final(self).wf(),
            (final(self)@, action_views(r@)) == resuming(old(self)@, suspended@),
    {
        broadcast use vstd::std_specs::hash::group_hash_axioms;

        let mut actions: Vec<ExportAction> = Vec::new();
        // Nothing to resume if not currently suspended or session is done
        if !self.timers_suspended || self.state == ExportState::Complete || self.state
            == ExportState::Cancelled {
            assert(action_views(actions@) == Seq::<ExportActionView>::empty());
            return actions;
        }
        let mut i: usize = 0;
        assert(action_views(actions@) == resumed(self@.timers, suspended@.take(0)));
        while i < suspended.len()
            invariant
                obeys_timer_keys(),
                *self == *old(self),
                i <= suspended@.len(),
                action_views(actions@) == resumed(self@.timers, suspended@.take(i as int)),
            decreases suspended@.len() - i,
        {
            let (checkpoint_serial, remaining) = suspended[i];
            let ghost before = action_views(actions@);
            assert(suspended@.take(i + 1).drop_last() == suspended@.take(i as int));
            if self.active_timers.contains(&checkpoint_serial) {
                actions.push(ExportAction::ResumeTimer { checkpoint_serial, remaining });
                assert(action_views(actions@) == before.push(
                    ExportActionView::ResumeTimer { checkpoint_serial, remaining },
                ));
            }
            i = i + 1;
        }
        assert(suspended@.take(i as int) == suspended@);
        self.timers_suspended = false;
        actions
    }

    /// Returns whether timers are currently suspended.
    pub fn timers_suspended(&self) -> (r: bool)
        ensures
            r == self@.suspended,
    {
        self.timers_suspended
    }

    /// Returns the set of checkpoint serials with active timers.
    pub fn active_timer_serials(&self) -> (r: &HashSet<u64>)
        ensures
            r@ == self@.timers,
    {
        &self.active_timers
    }
}

proof fn lemma_suspends_each(
    actions: Seq<ExportActionView>,
    serials: Seq<u64>,
    timers: Set<u64>,
)
    requires
        serials.no_duplicates(),
        serials.to_set() == timers,
        actions.len() == serials.len(),
        forall|k: int|
            0 <= k < serials.len() ==> #[trigger] actions[k] == (ExportActionView::SuspendTimer {
                checkpoint_serial: serials[k],
            }),
    ensures
        suspends_each(actions, timers),
{
    let f = |checkpoint_serial: u64| ExportActionView::SuspendTimer { checkpoint_serial };
    assert(actions.to_set() =~= timers.map(f)) by {
        assert forall|a: ExportActionView| actions.to_set().contains(a) implies timers.map(
            f,
        ).contains(a) by {
            let k = choose|k: int| 0 <= k < actions.len() && actions[k] == a;
            assert(serials.to_set().contains(serials[k]));
            assert(f(serials[k]) == a);
        }
        assert forall|a: ExportActionView| timers.map(f).contains(a) implies actions.to_set()
            .contains(a) by {
            let s = choose|s: u64| timers.contains(s) && a == f(s);
            assert(serials.to_set().contains(s));
            let k = choose|k: int| 0 <= k < serials.len() && serials[k] == s;
            assert(actions[k] == a);
        }
    }
}

proof fn lemma_cut_is_not_empty(from: nat, to: nat, size: nat)
    ensures
        cut(from, to, size).len() > 0,
{
}

/// The cuts of one range stand together among the cuts of all ranges.
proof fn lemma_cuts_of_range(ranges: Seq<(u64, u64)>, size: nat, i: int)
    requires
        0 <= i < ranges.len(),
    ensures
        ({
            let cuts = cut_all(ranges, size);
            let first = cut_all(ranges.take(i), size).len();
            let own = cut(ranges[i].0 as nat, ranges[i].1 as nat, size);
            &&& own.len() > 0
            &&& first + own.len() <= cuts.len()
            &&& cuts.subrange(first as int, (first + own.len()) as int) == own
            &&& i == ranges.len() - 1 <==> first + own.len() == cuts.len()
            &&& cut_all(ranges.take(i + 1), size).len() == first + own.len()
        }),
    decreases ranges.len(),
{
    let cuts = cut_all(ranges, size);
    let first = cut_all(ranges.take(i), size).len();
    let own = cut(ranges[i].0 as nat, ranges[i].1 as nat, size);
    let init = ranges.drop_last();
    lemma_cut_is_not_empty(ranges[i].0 as nat, ranges[i].1 as nat, size);
    assert(ranges.take(i + 1).drop_last() == ranges.take(i));
    if i == ranges.len() - 1 {
        assert(ranges.take(i) == init);
        assert(cuts.subrange(first as int, (first + own.len()) as int) == own);
    } else {
        lemma_cuts_of_range(init, size, i);
        assert(init.take(i) == ranges.take(i));
        lemma_cut_is_not_empty(ranges.last().0 as nat, ranges.last().1 as nat, size);
        let head = cut_all(init, size);
        assert(cuts.subrange(first as int, (first + own.len()) as int) == head.subrange(
            first as int,
            (first + own.len()) as int,
        ));
    }
}

/// The serial numbers of the timers can be kept in a hash set.
spec fn obeys_timer_keys() -> bool {
    &&& vstd::std_specs::hash::obeys_key_model::<u64>()
    &&& vstd::std_specs::hash::builds_valid_hashers::<std::hash::RandomState>()
}

} // verus!
