//! Import (receiver) session state machine.
//!
//! The receiver side of an LTP session: it tracks incoming data segments,
//! generates report segments, and delivers complete blocks.

use crate::buffer;
use crate::clock;
use crate::segment::{self, CheckpointInfo, ReceptionClaim, Segment, SegmentType, SegmentView};
use crate::session::extents::{self, ExtentMap};
use crate::session::{CancelDirection, CancelReason, SessionId};
use bytes::Bytes;
use std::time::Duration;
use vstd::prelude::*;

verus! {

/// The color of a session, determined by the first data segment received.
#[derive(Debug, Clone, Copy, PartialEq, Eq, Structural)]
pub enum SegmentColor {
    /// Session established by red-data segments (types 0-3).
    Red,
    /// Session established by green-data segments (types 4, 7).
    Green,
}

/// Configuration for an import session.
#[derive(Debug)]
pub struct ImportConfig {
    /// Maximum total reports before cancelling the session (None = unlimited).
    pub max_reports: Option<u64>,
    /// How long to wait before retransmitting a report.
    pub retransmit_timeout: Duration,
    /// Maximum claims per Report Segment (default 20).
    pub max_claims_per_report: usize,
    /// Expected client service ID for validation (1 = Bundle Protocol).
    pub expected_client_service_id: u64,
    /// Maximum red data bytes allowed per session (None = unlimited, Some(n) = limit).
    /// If a data segment's offset + length exceeds this limit, the session is
    /// cancelled with Cancel-from-Receiver reason ByEngine.
    pub max_red_data_bytes: Option<u64>,
    /// Deferred report delay in milliseconds (0 = disabled, send RS immediately).
    ///
    /// When non-zero, report generation is delayed after receiving a checkpoint
    /// to allow in-flight out-of-order segments to arrive, reducing unnecessary
    /// retransmissions.
    pub defer_report_ms: u64,
}

impl Default for ImportConfig {
    fn default() -> (r: Self)
        ensures
            r.max_reports is None,
            r.retransmit_timeout == clock::duration_of_secs(60),
            r.max_claims_per_report == 20,
            r.expected_client_service_id == 1,
            r.max_red_data_bytes is None,
            r.defer_report_ms == 0,
    {
        ImportConfig {
            max_reports: None,
            retransmit_timeout: Duration::from_secs(60),
            max_claims_per_report: 20,
            expected_client_service_id: 1,
            max_red_data_bytes: None,
            defer_report_ms: 0,
        }
    }
}

impl Clone for ImportConfig {
    fn clone(&self) -> (r: Self)
        ensures
            r == *self,
    {
        ImportConfig {
            max_reports: self.max_reports,
            retransmit_timeout: self.retransmit_timeout,
            max_claims_per_report: self.max_claims_per_report,
            expected_client_service_id: self.expected_client_service_id,
            max_red_data_bytes: self.max_red_data_bytes,
            defer_report_ms: self.defer_report_ms,
        }
    }
}

/// The state of an import session.
#[derive(Debug, Clone, Copy, PartialEq, Eq, Structural)]
pub enum ImportState {
    /// Receiving data segments and generating reports.
    Receiving,
    /// All data received and block delivered.
    Complete,
    /// Session has been cancelled.
    Cancelled,
}

/// Actions returned by the import session state machine for the caller to execute.
#[derive(Debug, PartialEq, Eq)]
pub enum ImportAction {
    /// Send this encoded segment over the network.
    SendSegment(Bytes),
    /// Start a retransmit timer for a report segment.
    StartTimer {
        /// The report serial number this timer is associated with.
        report_serial: u64,
        /// How long to wait before retransmitting the report.
        duration: Duration,
    },
    /// Cancel a report retransmit timer.
    CancelTimer {
        /// The report serial number whose timer should be cancelled.
        report_serial: u64,
    },
    /// Deliver the complete reassembled block to the upper layer.
    DeliverBlock(Bytes),
    /// Defer report generation for the given checkpoint.
    ///
    /// The caller should start a timer for `defer_ms` milliseconds. When the
    /// timer fires (or all gaps are filled), call `generate_deferred_report()`
    /// on the import session to produce the actual report actions.
    DeferReport {
        /// The checkpoint serial number to respond to.
        checkpoint_serial: u64,
        /// The upper bound of the checkpoint scope.
        upper_bound: u64,
        /// How long to defer in milliseconds.
        defer_ms: u64,
    },
}

/// An action, with the bytes that it carries as a sequence.
#[verifier::ext_equal]
pub enum ImportActionView {
    SendSegment(Seq<u8>),
    StartTimer { report_serial: u64, duration: Duration },
    CancelTimer { report_serial: u64 },
    DeliverBlock(Seq<u8>),
    DeferReport { checkpoint_serial: u64, upper_bound: u64, defer_ms: u64 },
}

impl View for ImportAction {
    type V = ImportActionView;

    open spec fn view(&self) -> ImportActionView {
        match *self {
            ImportAction::SendSegment(b) => ImportActionView::SendSegment(
                buffer::bytes_content(b),
            ),
            ImportAction::StartTimer { report_serial, duration } => ImportActionView::StartTimer {
                report_serial,
                duration,
            },
            ImportAction::CancelTimer { report_serial } => ImportActionView::CancelTimer {
                report_serial,
            },
            ImportAction::DeliverBlock(b) => ImportActionView::DeliverBlock(
                buffer::bytes_content(b),
            ),
            ImportAction::DeferReport { checkpoint_serial, upper_bound, defer_ms } =>
                ImportActionView::DeferReport { checkpoint_serial, upper_bound, defer_ms },
        }
    }
}

impl Clone for ImportAction {
    fn clone(&self) -> (r: Self)
        ensures
            r@ == self@,
    {
        match self {
            ImportAction::SendSegment(b) => ImportAction::SendSegment(b.clone()),
            ImportAction::StartTimer { report_serial, duration } => ImportAction::StartTimer {
                report_serial: *report_serial,
                duration: *duration,
            },
            ImportAction::CancelTimer { report_serial } => ImportAction::CancelTimer {
                report_serial: *report_serial,
            },
            ImportAction::DeliverBlock(b) => ImportAction::DeliverBlock(b.clone()),
            ImportAction::DeferReport { checkpoint_serial, upper_bound, defer_ms } =>
                ImportAction::DeferReport {
                checkpoint_serial: *checkpoint_serial,
                upper_bound: *upper_bound,
                defer_ms: *defer_ms,
            },
        }
    }
}

/// A list of actions, each by its view.
pub open spec fn action_views(actions: Seq<ImportAction>) -> Seq<ImportActionView> {
    actions.map_values(|a: ImportAction| a@)
}

// ---------------------------------------------------------------------------
// Model
// ---------------------------------------------------------------------------
/// An import session as a value.
#[verifier::ext_equal]
pub struct ImportModel {
    pub id: SessionId,
    pub config: ImportConfig,
    pub state: ImportState,
    /// The received byte ranges.
    pub extents: Seq<(u64, u64)>,
    pub color: Option<SegmentColor>,
    /// The end of the red part or of the block, once it is known.
    pub end: Option<u64>,
    /// The number of reports sent. Report serial numbers count up from 1.
    pub reports: nat,
    /// The received bytes at their offsets, with zeros in the gaps.
    pub block: Seq<u8>,
}

/// What a step of the session leads to: the session after it, and the actions.
pub type ImportStep = (ImportModel, Seq<ImportActionView>);

/// A session that has received nothing.
pub open spec fn fresh(id: SessionId, config: ImportConfig) -> ImportModel {
    ImportModel {
        id,
        config,
        state: ImportState::Receiving,
        extents: seq![],
        color: None,
        end: None,
        reports: 0,
        block: seq![],
    }
}

/// Cancelling a session sends a Cancel-from-Receiver with the reason.
pub open spec fn cancelled(m: ImportModel, reason: CancelReason) -> ImportStep {
    let segment = SegmentView::Cancel {
        session_id: m.id,
        reason,
        direction: CancelDirection::FromReceiver,
    };
    (
        ImportModel { state: ImportState::Cancelled, ..m },
        seq![ImportActionView::SendSegment(segment.wire())],
    )
}

/// The parts of the extents that lie in the window from `lower` to `upper`, as
/// reception claims.
pub open spec fn claims_within(xs: Seq<(u64, u64)>, lower: u64, upper: u64) -> Seq<ReceptionClaim>
    decreases xs.len(),
{
    if xs.len() == 0 {
        seq![]
    } else {
        let head = claims_within(xs.drop_last(), lower, upper);
        let (start, end) = xs.last();
        if end <= lower || start >= upper {
            head
        } else {
            let from = extents::greater(start, lower);
            let to = extents::lesser(end, upper);
            head.push(ReceptionClaim { offset: from, length: (to - from) as u64 })
        }
    }
}

/// The scope of one report segment, and what it claims.
#[verifier::ext_equal]
pub struct ReportWindow {
    pub lower: u64,
    pub upper: u64,
    pub claims: Seq<ReceptionClaim>,
}

/// Report windows of at most `max` claims each. A window reaches from its first
/// claim to the first claim of the next window, and the last one to `upper`.
pub open spec fn report_windows(claims: Seq<ReceptionClaim>, max: nat, upper: u64) -> Seq<
    ReportWindow,
>
    decreases claims.len(),
{
    if max == 0 || claims.len() <= max {
        seq![ReportWindow { lower: claims[0].offset, upper, claims }]
    } else {
        seq![
            ReportWindow {
                lower: claims[0].offset,
                upper: claims[max as int].offset,
                claims: claims.take(max as int),
            },
        ] + report_windows(claims.skip(max as int), max, upper)
    }
}

/// The reports that answer for the scope from 0 to `upper`: a single one where
/// the claims fit in it, and windows of the claims where they do not.
pub open spec fn report_plan(m: ImportModel, upper: u64) -> Seq<ReportWindow> {
    let claims = claims_within(m.extents, 0, upper);
    if claims.len() <= m.config.max_claims_per_report {
        seq![ReportWindow { lower: 0, upper, claims }]
    } else {
        report_windows(claims, m.config.max_claims_per_report as nat, upper)
    }
}

/// The report segment that the session sends next for a window.
pub open spec fn report_segment(
    m: ImportModel,
    checkpoint_serial: u64,
    window: ReportWindow,
) -> SegmentView {
    SegmentView::Report {
        session_id: m.id,
        report_serial: (m.reports + 1) as u64,
        checkpoint_serial,
        upper_bound: window.upper,
        lower_bound: window.lower,
        claims: window.claims,
    }
}

/// Whether the session has sent as many reports as it may.
pub open spec fn reports_exhausted(m: ImportModel) -> bool {
    m.config.max_reports matches Some(max) && m.reports >= max
}

/// Sends a report for each window and starts its timer, until the report limit
/// is reached: then the session is cancelled.
pub open spec fn send_reports(
    m: ImportModel,
    checkpoint_serial: u64,
    plan: Seq<ReportWindow>,
) -> ImportStep
    decreases plan.len(),
{
    if plan.len() == 0 {
        (m, seq![])
    } else if reports_exhausted(m) {
        cancelled(m, CancelReason::ByEngine)
    } else {
        let sent = seq![
            ImportActionView::SendSegment(report_segment(m, checkpoint_serial, plan[0]).wire()),
            ImportActionView::StartTimer {
                report_serial: (m.reports + 1) as u64,
                duration: m.config.retransmit_timeout,
            },
        ];
        let next = ImportModel { reports: m.reports + 1, ..m };
        let (last, actions) = send_reports(next, checkpoint_serial, plan.drop_first());
        (last, sent + actions)
    }
}

/// Reports on the scope from 0 to `upper`.
pub open spec fn reported(m: ImportModel, checkpoint_serial: u64, upper: u64) -> ImportStep {
    send_reports(m, checkpoint_serial, report_plan(m, upper))
}

/// The color that a segment type belongs to.
pub open spec fn color_of(segment_type: SegmentType) -> SegmentColor {
    if segment_type.red() {
        SegmentColor::Red
    } else {
        SegmentColor::Green
    }
}

/// Why a receiving session refuses a data segment, if it does: the first segment
/// is for another client service, the segment is of the other color, or red data
/// reaches beyond the limit.
pub open spec fn refusal(
    m: ImportModel,
    segment_type: SegmentType,
    client_service_id: u64,
    end: int,
) -> Option<CancelReason> {
    if m.color is None && client_service_id != m.config.expected_client_service_id {
        Some(CancelReason::ClientSvcUnreachable)
    } else if m.color is Some && m.color != Some(color_of(segment_type)) {
        Some(CancelReason::MiscoloredSegment)
    } else if segment_type.red() && m.config.max_red_data_bytes is Some && end
        > m.config.max_red_data_bytes->0 {
        Some(CancelReason::ByEngine)
    } else {
        None
    }
}

/// The block with `data` written at `offset`; zeros fill a gap before it.
pub open spec fn overwritten(block: Seq<u8>, offset: u64, data: Seq<u8>) -> Seq<u8> {
    let end = offset + data.len();
    Seq::new(
        if end > block.len() {
            end as nat
        } else {
            block.len()
        },
        |i: int|
            if offset <= i < end {
                data[i - offset]
            } else if i < block.len() {
                block[i]
            } else {
                0u8
            },
    )
}

/// The session with an accepted data segment recorded.
pub open spec fn recorded(
    m: ImportModel,
    segment_type: SegmentType,
    offset: u64,
    data: Seq<u8>,
) -> ImportModel {
    let end = (offset + data.len()) as u64;
    let marks_end = segment_type == SegmentType::RedEorp || segment_type == SegmentType::RedEob
        || segment_type == SegmentType::GreenEob;
    ImportModel {
        color: Some(color_of(segment_type)),
        block: overwritten(m.block, offset, data),
        extents: extents::inserted(m.extents, offset, end),
        end: if marks_end {
            Some(end)
        } else {
            m.end
        },
        ..m
    }
}

/// Whether everything from 0 to `upper` has been received.
pub open spec fn complete_to(m: ImportModel, upper: u64) -> bool {
    extents::uncovered(m.extents, 0, upper).len() == 0
}

/// Whether the whole block, up to its known end, has been received.
pub open spec fn block_complete(m: ImportModel) -> bool {
    m.end matches Some(end) && complete_to(m, end)
}

/// Whether a checkpoint on the scope from 0 to `upper` is answered later.
pub open spec fn deferred(m: ImportModel, upper: u64) -> bool {
    m.config.defer_report_ms > 0 && !complete_to(m, upper)
}

/// Answers a recorded segment that does not belong to the green types. A
/// checkpoint is reported on at once or deferred; a segment that completes the
/// block without being a checkpoint is answered by an unsolicited report.
pub open spec fn answered(
    m: ImportModel,
    segment_type: SegmentType,
    upper: u64,
    checkpoint: Option<CheckpointInfo>,
) -> ImportStep {
    if segment_type.checkpoint() {
        match checkpoint {
            Some(info) => if deferred(m, upper) {
                (
                    m,
                    seq![
                        ImportActionView::DeferReport {
                            checkpoint_serial: info.serial,
                            upper_bound: upper,
                            defer_ms: m.config.defer_report_ms,
                        },
                    ],
                )
            } else {
                reported(m, info.serial, upper)
            },
            None => (m, seq![]),
        }
    } else if block_complete(m) {
        reported(m, 0, m.end->0)
    } else {
        (m, seq![])
    }
}

/// The session completes and delivers the block up to its end.
pub open spec fn delivered(step: ImportStep) -> ImportStep {
    let (m, actions) = step;
    (
        ImportModel { state: ImportState::Complete, ..m },
        actions.push(ImportActionView::DeliverBlock(m.block.take(m.end->0 as int))),
    )
}

/// What receiving a data segment leads to.
pub open spec fn received(
    m: ImportModel,
    segment_type: SegmentType,
    client_service_id: u64,
    offset: u64,
    data: Seq<u8>,
    checkpoint: Option<CheckpointInfo>,
) -> ImportStep {
    let end = offset + data.len();
    if m.state != ImportState::Receiving {
        (m, seq![])
    } else {
        match refusal(m, segment_type, client_service_id, end) {
            Some(CancelReason::ByEngine) => cancelled(
                ImportModel { color: Some(color_of(segment_type)), ..m },
                CancelReason::ByEngine,
            ),
            Some(reason) => cancelled(m, reason),
            None => {
                let next = recorded(m, segment_type, offset, data);
                if segment_type.green() {
                    if segment_type == SegmentType::GreenEob {
                        delivered((next, seq![]))
                    } else {
                        (next, seq![])
                    }
                } else {
                    let step = answered(next, segment_type, end as u64, checkpoint);
                    if block_complete(next) {
                        delivered(step)
                    } else {
                        step
                    }
                }
            },
        }
    }
}

/// Whether the machine can hold what a step leads to: the block and every
/// segment to send fit in memory, and the report counter does not run out.
pub open spec fn representable(step: ImportStep) -> bool {
    &&& step.0.block.len() <= isize::MAX
    &&& step.0.reports < u64::MAX
    &&& sendable(step.1)
}

/// Whether every segment to send fits in memory.
pub open spec fn sendable(actions: Seq<ImportActionView>) -> bool {
    forall|i: int|
        0 <= i < actions.len() ==> ((#[trigger] actions[i]) matches ImportActionView::SendSegment(w)
            ==> w.len() <= isize::MAX)
}

/// Reports on the scope from 0 to `upper` can be made out: where there is
/// something to claim, a report may hold a claim.
pub open spec fn reportable(m: ImportModel, upper: u64) -> bool {
    m.config.max_claims_per_report > 0 || claims_within(m.extents, 0, upper).len() == 0
        || reports_exhausted(m)
}

/// The reports that an accepted data segment calls for can be made out.
pub open spec fn answerable(
    m: ImportModel,
    segment_type: SegmentType,
    upper: u64,
    checkpoint: Option<CheckpointInfo>,
) -> bool {
    if segment_type.checkpoint() {
        checkpoint is Some && !deferred(m, upper) ==> reportable(m, upper)
    } else {
        !segment_type.green() && block_complete(m) ==> reportable(m, m.end->0)
    }
}

/// A data segment can be handled: while the session receives, the machine can
/// hold what it leads to, and the reports that it calls for can be made out.
pub open spec fn receivable(
    m: ImportModel,
    segment_type: SegmentType,
    client_service_id: u64,
    offset: u64,
    data: Seq<u8>,
    checkpoint: Option<CheckpointInfo>,
) -> bool {
    m.state == ImportState::Receiving ==> {
        &&& representable(received(m, segment_type, client_service_id, offset, data, checkpoint))
        &&& refusal(m, segment_type, client_service_id, offset + data.len()) is None ==> answerable(
            recorded(m, segment_type, offset, data),
            segment_type,
            (offset + data.len()) as u64,
            checkpoint,
        )
    }
}

/// What the acknowledgement of a report leads to: its timer is cancelled.
pub open spec fn acknowledged(m: ImportModel, report_serial: u64) -> ImportStep {
    (m, seq![ImportActionView::CancelTimer { report_serial }])
}

/// What a cancel from the sender leads to: it is acknowledged, and the session
/// is cancelled.
pub open spec fn withdrawn(m: ImportModel) -> ImportStep {
    let ack = SegmentView::CancelAck {
        session_id: m.id,
        direction: CancelDirection::FromSender,
    };
    (
        ImportModel { state: ImportState::Cancelled, ..m },
        seq![ImportActionView::SendSegment(ack.wire())],
    )
}

/// What making up for a deferred report leads to: a session that still receives
/// reports on the scope from 0 to `upper`.
pub open spec fn caught_up(m: ImportModel, checkpoint_serial: u64, upper: u64) -> ImportStep {
    if m.state == ImportState::Receiving {
        reported(m, checkpoint_serial, upper)
    } else {
        (m, seq![])
    }
}

// ---------------------------------------------------------------------------
// Session
// ---------------------------------------------------------------------------
/// Import (receiver) session state machine.
///
/// This is a pure state machine with no I/O. The caller drives it by calling
/// methods and executing the returned actions.
#[derive(Debug)]
pub struct ImportSession {
    /// The session identifier.
    id: SessionId,
    /// Configuration for this session.
    config: ImportConfig,
    /// Current state of the session.
    state: ImportState,
    /// Tracks received byte ranges with adjacent-extent merging.
    extents: ExtentMap,
    /// Session color, set on first data segment received.
    color: Option<SegmentColor>,
    /// Upper bound set when EORP or EOB is received (offset + data.len()).
    eorp_upper_bound: Option<u64>,
    /// Next report serial number to assign (starts at 1).
    next_report_serial: u64,
    /// Total number of reports generated in this session.
    reports_generated: u64,
    /// Accumulates received data (written at offset positions).
    block_data: Vec<u8>,
}

impl View for ImportSession {
    type V = ImportModel;

    closed spec fn view(&self) -> ImportModel {
        ImportModel {
            id: self.id,
            config: self.config,
            state: self.state,
            extents: self.extents@,
            color: self.color,
            end: self.eorp_upper_bound,
            reports: self.reports_generated as nat,
            block: self.block_data@,
        }
    }
}

/// What holds of a session in every state: the extents are canonical and lie
/// inside the block, and the block holds zeros in the gaps.
pub open spec fn consistent(m: ImportModel) -> bool {
    &&& extents::canonical(m.extents)
    &&& forall|i: int| 0 <= i < m.extents.len() ==> (#[trigger] m.extents[i]).1 <= m.block.len()
    &&& forall|p: int|
        0 <= p < m.block.len() && !extents::covered(m.extents, p) ==> #[trigger] m.block[p] == 0
}

/// Reporting changes nothing of a session but the report counter and, at the
/// report limit, the state.
pub proof fn reporting_changes_only_the_counter(
    m: ImportModel,
    checkpoint_serial: u64,
    plan: Seq<ReportWindow>,
)
    ensures
        ({
            let (last, actions) = send_reports(m, checkpoint_serial, plan);
            &&& last.id == m.id
            &&& last.config == m.config
            &&& last.extents == m.extents
            &&& last.color == m.color
            &&& last.end == m.end
            &&& last.block == m.block
            &&& m.reports <= last.reports <= m.reports + plan.len()
            &&& plan.len() > 0 && !reports_exhausted(m) ==> last.reports >= m.reports + 1
        }),
    decreases plan.len(),
{
    if plan.len() > 0 && !reports_exhausted(m) {
        reporting_changes_only_the_counter(
            ImportModel { reports: m.reports + 1, ..m },
            checkpoint_serial,
            plan.drop_first(),
        );
    }
}

/// Recording a segment keeps the session consistent.
pub proof fn recording_keeps_consistency(
    m: ImportModel,
    segment_type: SegmentType,
    offset: u64,
    data: Seq<u8>,
)
    requires
        consistent(m),
        offset + data.len() <= u64::MAX,
    ensures
        consistent(recorded(m, segment_type, offset, data)),
{
    let next = recorded(m, segment_type, offset, data);
    let end = (offset + data.len()) as u64;
    extents::insert_adds_the_range(m.extents, offset, end);
    assert forall|i: int| 0 <= i < next.extents.len() implies (#[trigger] next.extents[i]).1
        <= next.block.len() by {
        let p = next.extents[i].1 - 1;
        assert(extents::covered(next.extents, p));
        if !(offset <= p < end) {
            assert(extents::covered(m.extents, p));
            let k = choose|k: int|
                0 <= k < m.extents.len() && (#[trigger] m.extents[k]).0 <= p < m.extents[k].1;
            assert(m.extents[k].1 <= m.block.len());
        }
    }
    assert forall|p: int|
        0 <= p < next.block.len() && !extents::covered(
            next.extents,
            p,
        ) implies #[trigger] next.block[p] == 0 by {
        assert(!extents::covered(m.extents, p));
        assert(!(offset <= p < end));
    }
}

/// A received position lies inside the block.
pub proof fn covered_positions_lie_in_the_block(m: ImportModel, p: int)
    requires
        consistent(m),
        extents::covered(m.extents, p),
    ensures
        0 <= p < m.block.len(),
{
    let k = choose|k: int|
        0 <= k < m.extents.len() && (#[trigger] m.extents[k]).0 <= p < m.extents[k].1;
    assert(m.extents[k].1 <= m.block.len());
}

/// A scope that has been received lies inside the block.
proof fn lemma_complete_scope_in_block(m: ImportModel, upper: u64)
    requires
        consistent(m),
        complete_to(m, upper),
    ensures
        upper <= m.block.len(),
{
    extents::complete_means_no_gaps(m.extents, 0, upper);
    if upper > 0 {
        covered_positions_lie_in_the_block(m, upper - 1);
    }
}

/// Writes `data` into the block at `offset`, growing the block to fit.
fn overwrite(block: &mut Vec<u8>, offset: u64, data: &[u8])
    requires
        offset + data@.len() <= isize::MAX,
    ensures
        final(block)@ == overwritten(old(block)@, offset, data@),
{
    let ghost before = block@;
    let start: usize = offset as usize;
    let end: usize = start + data.len();
    if end > block.len() {
        block.resize(end, 0);
    }
    let ghost grown = block@;
    let mut i: usize = 0;
    while i < data.len()
        invariant
            i <= data@.len(),
            start == offset,
            end == start + data@.len(),
            end <= block@.len(),
            block@.len() == grown.len(),
            forall|k: int|
                0 <= k < grown.len() ==> block@[k] == if start <= k < start + i {
                    data@[k - start]
                } else {
                    grown[k]
                },
        decreases data@.len() - i,
    {
        block[start + i] = data[i];
        i = i + 1;
    }
    assert(block@ == overwritten(before, offset, data@));
}

impl ImportSession {
    /// The session is consistent, and its two report counters agree.
    pub closed spec fn wf(&self) -> bool {
        &&& consistent(self@)
        &&& self.next_report_serial == self.reports_generated + 1
    }

    /// Every valid session is consistent.
    pub proof fn wf_is_consistent(&self)
        requires
            self.wf(),
        ensures
            consistent(self@),
    {
    }

    /// Creates a new import session in the Receiving state.
    pub fn new(id: SessionId, config: ImportConfig) -> (r: Self)
        ensures
            r.wf(),
            r@ == fresh(id, config),
    {
        let r = ImportSession {
            id,
            config,
            state: ImportState::Receiving,
            extents: ExtentMap::new(),
            color: None,
            eorp_upper_bound: None,
            next_report_serial: 1,
            reports_generated: 0,
            block_data: Vec::new(),
        };
        assert(r@ == fresh(id, config));
        r
    }

    /// Returns the current state of the import session.
    pub fn state(&self) -> (r: ImportState)
        ensures
            r == self@.state,
    {
        self.state
    }

    /// Returns the session identifier.
    pub fn id(&self) -> (r: &SessionId)
        ensures
            *r == self@.id,
    {
        &self.id
    }

    /// Returns the session color (if established).
    pub fn color(&self) -> (r: Option<SegmentColor>)
        ensures
            r == self@.color,
    {
        self.color
    }

    /// Returns the total number of reports generated.
    pub fn reports_generated(&self) -> (r: u64)
        ensures
            r == self@.reports,
    {
        self.reports_generated
    }

    /// Returns a reference to the extent map.
    pub fn extents(&self) -> (r: &ExtentMap)
        ensures
            r@ == self@.extents,
            self.wf() ==> r.wf(),
    {
        &self.extents
    }

    /// Cancels the session with the given reason, emitting a Cancel-from-Receiver.
    fn cancel_with_reason(&mut self, reason: CancelReason) -> (r: Vec<ImportAction>)
        requires
            old(self).wf(),
        ensures
            final(self).wf(),
            (final(self)@, action_views(r@)) == cancelled(old(self)@, reason),
    {
        let cancel = Segment::Cancel {
            session_id: self.id,
            reason,
            direction: CancelDirection::FromReceiver,
        };
        proof {
            segment::segment_size_is_bounded(cancel@);
        }
        let wire = super::encoded(&cancel);
        self.state = ImportState::Cancelled;
        let actions: Vec<ImportAction> = vec![ImportAction::SendSegment(wire)];
        assert(action_views(actions@) == cancelled(old(self)@, reason).1);
        actions
    }

    /// Returns reception claims within the window [lower, upper) from the extent map.
    fn claims_in_window(&self, lower: u64, upper: u64) -> (r: Vec<ReceptionClaim>)
        requires
            self.wf(),
            lower <= upper,
        ensures
            r@ == claims_within(self@.extents, lower, upper),
    {
        let claims = self.extents.claims();
        let ghost xs = self.extents@;
        let mut result: Vec<ReceptionClaim> = Vec::new();
        let mut i: usize = 0;
        while i < claims.len()
            invariant
                lower <= upper,
                extents::canonical(xs),
                claims@ == xs.map_values(|x: (u64, u64)| (x.0, (x.1 - x.0) as u64)),
                i <= claims@.len(),
                result@ == claims_within(xs.take(i as int), lower, upper),
            decreases claims@.len() - i,
        {
            let (offset, length) = claims[i];
            proof {
                assert(claims@[i as int] == (xs[i as int].0, (xs[i as int].1 - xs[i as int].0)
                    as u64));
                assert(xs.take(i + 1).drop_last() == xs.take(i as int));
            }
            let end: u64 = offset + length;
            // Clip to window
            if !(end <= lower || offset >= upper) {
                let clipped_start: u64 = if offset >= lower {
                    offset
                } else {
                    lower
                };
                let clipped_end: u64 = if end <= upper {
                    end
                } else {
                    upper
                };
                result.push(
                    ReceptionClaim { offset: clipped_start, length: clipped_end - clipped_start },
                );
            }
            i = i + 1;
        }
        assert(xs.take(i as int) == xs);
        result
    }

    /// Builds a single Report Segment, encodes it, and returns the actions
    /// (SendSegment + StartTimer).
    fn build_report_segment(
        &mut self,
        checkpoint_serial: u64,
        lower_bound: u64,
        upper_bound: u64,
        claims: &[ReceptionClaim],
    ) -> (r: Vec<ImportAction>)
        requires
            old(self).wf(),
            old(self)@.reports + 1 < u64::MAX,
            report_segment(
                old(self)@,
                checkpoint_serial,
                ReportWindow { lower: lower_bound, upper: upper_bound, claims: claims@ },
            ).wire().len() <= isize::MAX,
        ensures
            final(self).wf(),
            final(self)@ == (ImportModel { reports: old(self)@.reports + 1, ..old(self)@ }),
            action_views(r@) == seq![
                ImportActionView::SendSegment(
                    report_segment(
                        old(self)@,
                        checkpoint_serial,
                        ReportWindow { lower: lower_bound, upper: upper_bound, claims: claims@ },
                    ).wire(),
                ),
                ImportActionView::StartTimer {
                    report_serial: (old(self)@.reports + 1) as u64,
                    duration: old(self)@.config.retransmit_timeout,
                },
            ],
    {
        let report_serial: u64 = self.next_report_serial;
        self.next_report_serial = self.next_report_serial + 1;
        self.reports_generated = self.reports_generated + 1;
        let rs = Segment::Report {
            session_id: self.id,
            report_serial,
            checkpoint_serial,
            upper_bound,
            lower_bound,
            claims: vstd::slice::slice_to_vec(claims),
        };
        assert(rs@ == report_segment(
            old(self)@,
            checkpoint_serial,
            ReportWindow { lower: lower_bound, upper: upper_bound, claims: claims@ },
        ));
        let wire = super::encoded(&rs);
        let actions: Vec<ImportAction> = vec![
            ImportAction::SendSegment(wire),
            ImportAction::StartTimer { report_serial, duration: self.config.retransmit_timeout },
        ];
        assert(action_views(actions@) =~= seq![
            ImportActionView::SendSegment(rs@.wire()),
            ImportActionView::StartTimer {
                report_serial,
                duration: old(self)@.config.retransmit_timeout,
            },
        ]);
        actions
    }

    /// Generates report segments for a checkpoint, capping at max_claims_per_report
    /// claims per RS and splitting into multiple RS with non-overlapping windows
    /// when needed.
    fn generate_reports(&mut self, checkpoint_serial: u64, checkpoint_upper_bound: u64) -> (r: Vec<
        ImportAction,
    >)
        requires
            old(self).wf(),
            representable(reported(old(self)@, checkpoint_serial, checkpoint_upper_bound)),
            reportable(old(self)@, checkpoint_upper_bound),
        ensures
            final(self).wf(),
            (final(self)@, action_views(r@)) == reported(
                old(self)@,
                checkpoint_serial,
                checkpoint_upper_bound,
            ),
    {
        let ghost whole = reported(self@, checkpoint_serial, checkpoint_upper_bound);
        let ghost plan = report_plan(self@, checkpoint_upper_bound);
        // Check max reports limit
        if let Some(max) = self.config.max_reports {
            if self.reports_generated >= max {
                // Exceeded report limit: cancel session
                return self.cancel_with_reason(CancelReason::ByEngine);
            }
        }
        // Get all claims within [0, checkpoint_upper_bound)
        let all_claims = self.claims_in_window(0, checkpoint_upper_bound);
        let max_claims: usize = self.config.max_claims_per_report;
        proof {
            reporting_changes_only_the_counter(
                ImportModel { reports: self@.reports + 1, ..self@ },
                checkpoint_serial,
                plan.drop_first(),
            );
            assert(whole.1[0] == ImportActionView::SendSegment(
                report_segment(self@, checkpoint_serial, plan[0]).wire(),
            ));
        }
        if all_claims.len() <= max_claims {
            // All claims fit in a single RS
            let actions = self.build_report_segment(
                checkpoint_serial,
                0,
                checkpoint_upper_bound,
                all_claims.as_slice(),
            );
            proof {
                assert(plan.drop_first() == Seq::<ReportWindow>::empty());
                assert(action_views(actions@) + Seq::<ImportActionView>::empty() == action_views(
                    actions@,
                ));
            }
            return actions;
        }
        // Split into multiple RS with non-overlapping windows.
        // Each RS covers a window containing at most max_claims claims.
        let mut actions: Vec<ImportAction> = Vec::new();
        let mut start: usize = 0;
        proof {
            assert(all_claims@.skip(0) == all_claims@);
            assert(action_views(actions@) + whole.1 == whole.1);
        }
        while start < all_claims.len()
            invariant
                self.wf(),
                max_claims > 0,
                start <= all_claims@.len(),
                self@.config.max_claims_per_report == max_claims,
                representable(whole),
                ({
                    let rest = if start < all_claims@.len() {
                        report_windows(
                            all_claims@.skip(start as int),
                            max_claims as nat,
                            checkpoint_upper_bound,
                        )
                    } else {
                        Seq::empty()
                    };
                    let (last, more) = send_reports(self@, checkpoint_serial, rest);
                    whole == (last, action_views(actions@) + more)
                }),
                whole == reported(old(self)@, checkpoint_serial, checkpoint_upper_bound),
            decreases all_claims@.len() - start,
        {
            let ghost here = self@;
            let ghost so_far = action_views(actions@);
            let ghost claims_left = all_claims@.skip(start as int);
            let ghost rest = report_windows(
                claims_left,
                max_claims as nat,
                checkpoint_upper_bound,
            );
            // Window lower bound: start of first claim in chunk
            let lower: u64 = all_claims[start].offset;
            // Window upper bound: the start of the next chunk's first claim, to
            // ensure non-overlapping windows, or checkpoint_upper_bound for the
            // last chunk
            let last: bool = all_claims.len() - start <= max_claims;
            let end: usize = if last {
                all_claims.len()
            } else {
                start + max_claims
            };
            let upper: u64 = if last {
                checkpoint_upper_bound
            } else {
                all_claims[end].offset
            };
            // Check max reports limit before each RS
            if let Some(max) = self.config.max_reports {
                if self.reports_generated >= max {
                    let mut cancel = self.cancel_with_reason(CancelReason::ByEngine);
                    let ghost cancel_views = action_views(cancel@);
                    actions.append(&mut cancel);
                    assert(action_views(actions@) == so_far + cancel_views);
                    return actions;
                }
            }
            let chunk = vstd::slice::slice_subrange(all_claims.as_slice(), start, end);
            let ghost window = ReportWindow { lower, upper, claims: chunk@ };
            proof {
                reporting_changes_only_the_counter(
                    ImportModel { reports: here.reports + 1, ..here },
                    checkpoint_serial,
                    rest.drop_first(),
                );
                assert(chunk@ == if last {
                    claims_left
                } else {
                    claims_left.take(max_claims as int)
                });
                assert(rest[0] == window);
                assert(whole.1[so_far.len() as int] == ImportActionView::SendSegment(
                    report_segment(here, checkpoint_serial, window).wire(),
                ));
            }
            let mut rs = self.build_report_segment(checkpoint_serial, lower, upper, chunk);
            let ghost rs_views = action_views(rs@);
            actions.append(&mut rs);
            proof {
                assert(action_views(actions@) == so_far + rs_views);
                if last {
                    assert(rest.drop_first() == Seq::<ReportWindow>::empty());
                } else {
                    assert(claims_left.skip(max_claims as int) == all_claims@.skip(end as int));
                    assert(rest.drop_first() == report_windows(
                        all_claims@.skip(end as int),
                        max_claims as nat,
                        checkpoint_upper_bound,
                    ));
                }
                let more = send_reports(self@, checkpoint_serial, rest.drop_first()).1;
                assert(so_far + (rs_views + more) == action_views(actions@) + more);
            }
            start = end;
        }
        assert(action_views(actions@) + Seq::<ImportActionView>::empty() == action_views(actions@));
        actions
    }

    /// Handles a received data segment.
    ///
    /// Records the data in the block buffer, inserts the extent, checks for
    /// miscolored segments, generates reports on checkpoints, and delivers
    /// the block when complete.
    pub fn on_data_segment(
        &mut self,
        segment_type: SegmentType,
        client_service_id: u64,
        offset: u64,
        data: &[u8],
        checkpoint: Option<CheckpointInfo>,
    ) -> (r: Vec<ImportAction>)
        requires
            old(self).wf(),
            receivable(old(self)@, segment_type, client_service_id, offset, data@, checkpoint),
        ensures
            final(self).wf(),
            (final(self)@, action_views(r@)) == received(
                old(self)@,
                segment_type,
                client_service_id,
                offset,
                data@,
                checkpoint,
            ),
    {
        let ghost before = self@;
        let mut actions: Vec<ImportAction> = Vec::new();
        assert(action_views(actions@) == Seq::<ImportActionView>::empty());
        // If session is already complete or cancelled, ignore
        if self.state != ImportState::Receiving {
            return actions;
        }
        // Determine color of this segment
        let seg_color = if segment_type.is_red() {
            SegmentColor::Red
        } else {
            SegmentColor::Green
        };
        // Check for miscolored segments and validate client service ID on first segment
        match self.color {
            None => {
                // First segment: validate client service ID before establishing session
                if client_service_id != self.config.expected_client_service_id {
                    return self.cancel_with_reason(CancelReason::ClientSvcUnreachable);
                }
                // First segment establishes the session color
                self.color = Some(seg_color);
            },
            Some(established) => {
                if established != seg_color {
                    // Miscolored segment: cancel session
                    return self.cancel_with_reason(CancelReason::MiscoloredSegment);
                }
            },
        }
        assert(self@ == ImportModel { color: Some(color_of(segment_type)), ..before });
        let length: u64 = data.len() as u64;
        // Enforce max red data size limit (only for red segments)
        if segment_type.is_red() {
            if let Some(limit) = self.config.max_red_data_bytes {
                if length > limit || offset > limit - length {
                    return self.cancel_with_reason(CancelReason::ByEngine);
                }
            }
        }
        let ghost next = recorded(before, segment_type, offset, data@);
        let ghost whole = received(
            before,
            segment_type,
            client_service_id,
            offset,
            data@,
            checkpoint,
        );
        proof {
            lemma_answered_frame(next, segment_type, (offset + data@.len()) as u64, checkpoint);
            assert(whole.0.block == next.block);
            assert(offset + data@.len() <= isize::MAX);
            recording_keeps_consistency(before, segment_type, offset, data@);
        }
        let end: u64 = offset + length;
        // Record data in block_data buffer at the correct offset
        overwrite(&mut self.block_data, offset, data);
        // Insert the range into extents
        self.extents.insert(offset, end);
        if segment_type == SegmentType::RedEorp || segment_type == SegmentType::RedEob
            || segment_type == SegmentType::GreenEob {
            self.eorp_upper_bound = Some(end);
        }
        assert(self@ == next);
        // Handle green vs red segment logic
        if segment_type.is_green() {
            // Green data: no reports, no checkpoints
            if segment_type == SegmentType::GreenEob {
                // Green-EOB: deliver whatever data received up to this point (best-effort),
                // even with gaps
                let block = buffer::bytes_from_slice(
                    vstd::slice::slice_subrange(self.block_data.as_slice(), 0, end as usize),
                );
                actions.push(ImportAction::DeliverBlock(block));
                self.state = ImportState::Complete;
                assert(action_views(actions@) == whole.1);
            }
            // GreenData (type 4): just record data, no delivery yet, no reports
        } else {
            proof {
                let step = answered(next, segment_type, end, checkpoint);
                assert forall|i: int| 0 <= i < step.1.len() implies ((#[trigger] step.1[i]) matches
                    ImportActionView::SendSegment(w) ==> w.len() <= isize::MAX) by {
                    assert(whole.1[i] == step.1[i]);
                }
                assert(representable(step));
            }
            // If segment has a checkpoint (types 1, 2, 3): generate report(s)
            if segment_type.is_checkpoint() {
                if let Some(ckpt) = checkpoint {
                    if self.config.defer_report_ms > 0 && !self.extents.is_complete(0, end) {
                        // Gaps exist and deferral is configured: defer the report.
                        actions.push(
                            ImportAction::DeferReport {
                                checkpoint_serial: ckpt.serial,
                                upper_bound: end,
                                defer_ms: self.config.defer_report_ms,
                            },
                        );
                    } else {
                        // No deferral or already complete: generate report immediately.
                        actions = self.generate_reports(ckpt.serial, end);
                    }
                }
            }
            // Check if block is complete (red requires full coverage)
            if let Some(eorp) = self.eorp_upper_bound {
                if self.extents.is_complete(0, eorp) {
                    // If the completing segment is NOT a checkpoint, generate an
                    // unsolicited Report Segment with checkpoint_serial = 0.
                    // This tells the sender "I have everything" without waiting
                    // for a checkpoint.
                    if !segment_type.is_checkpoint() {
                        actions = self.generate_reports(0, eorp);
                    }
                    // Deliver the block
                    proof {
                        lemma_complete_scope_in_block(next, eorp);
                    }
                    let block = buffer::bytes_from_slice(
                        vstd::slice::slice_subrange(self.block_data.as_slice(), 0, eorp as usize),
                    );
                    actions.push(ImportAction::DeliverBlock(block));
                    self.state = ImportState::Complete;
                }
            }
            assert(action_views(actions@) == whole.1);
        }
        actions
    }

    /// Handles a received Report-Ack segment.
    ///
    /// Cancels the retransmit timer for the acknowledged report.
    pub fn on_report_ack(&mut self, report_serial: u64) -> (r: Vec<ImportAction>)
        ensures
            *final(self) == *old(self),
            (final(self)@, action_views(r@)) == acknowledged(old(self)@, report_serial),
    {
        let actions: Vec<ImportAction> = vec![ImportAction::CancelTimer { report_serial }];
        assert(action_views(actions@) == seq![ImportActionView::CancelTimer { report_serial }]);
        actions
    }

    /// Handles a Cancel-from-Sender segment.
    ///
    /// Sends a Cancel-Ack-to-Sender and transitions to Cancelled.
    pub fn on_cancel_from_sender(&mut self, _reason: CancelReason) -> (r: Vec<ImportAction>)
        requires
            old(self).wf(),
        ensures
            final(self).wf(),
            (final(self)@, action_views(r@)) == withdrawn(old(self)@),
    {
        let cancel_ack = Segment::CancelAck {
            session_id: self.id,
            direction: CancelDirection::FromSender,
        };
        proof {
            segment::segment_size_is_bounded(cancel_ack@);
        }
        let wire = super::encoded(&cancel_ack);
        self.state = ImportState::Cancelled;
        assert(self@.block == old(self)@.block);
        let actions: Vec<ImportAction> = vec![ImportAction::SendSegment(wire)];
        assert(action_views(actions@) == seq![
            ImportActionView::SendSegment(cancel_ack@.wire()),
        ]);
        actions
    }

    /// Generates the deferred report for a checkpoint.
    ///
    /// Called by the CLA layer when:
    /// - The deferral timer expires, OR
    /// - All gaps within the checkpoint scope are filled during the deferral period
    ///
    /// Returns the report actions (SendSegment + StartTimer) for the caller to execute.
    pub fn generate_deferred_report(&mut self, checkpoint_serial: u64, upper_bound: u64) -> (r: Vec<
        ImportAction,
    >)
        requires
            old(self).wf(),
            old(self)@.state == ImportState::Receiving ==> representable(
                reported(old(self)@, checkpoint_serial, upper_bound),
            ) && reportable(old(self)@, upper_bound),
        ensures
            final(self).wf(),
            (final(self)@, action_views(r@)) == caught_up(
                old(self)@,
                checkpoint_serial,
                upper_bound,
            ),
    {
        if self.state != ImportState::Receiving {
            let actions: Vec<ImportAction> = Vec::new();
            assert(action_views(actions@) == Seq::<ImportActionView>::empty());
            return actions;
        }
        self.generate_reports(checkpoint_serial, upper_bound)
    }

    /// Returns `true` if the range `[0, upper_bound)` is fully covered by received extents.
    ///
    /// Used by the CLA layer to determine if a deferred report should be sent
    /// immediately because all gaps have been filled.
    pub fn is_scope_complete(&self, upper_bound: u64) -> (r: bool)
        requires
            self.wf(),
        ensures
            r == complete_to(self@, upper_bound),
            r <==> (forall|p: int| 0 <= p < upper_bound ==> extents::covered(self@.extents, p)),
    {
        self.extents.is_complete(0, upper_bound)
    }

    /// Returns `true` if any gaps remain in the range `[0, upper_bound)`.
    ///
    /// Used by the CLA layer to determine whether to reset the deferral timer
    /// (gaps remain) or send the report immediately (no gaps).
    pub fn has_gaps_in_scope(&self, upper_bound: u64) -> (r: bool)
        requires
            self.wf(),
        ensures
            r == !complete_to(self@, upper_bound),
            r <==> (exists|p: int| 0 <= p < upper_bound && !extents::covered(self@.extents, p)),
    {
        !self.extents.is_complete(0, upper_bound)
    }
}

proof fn lemma_answered_frame(
    m: ImportModel,
    segment_type: SegmentType,
    upper: u64,
    checkpoint: Option<CheckpointInfo>,
)
    ensures
        ({
            let (last, actions) = answered(m, segment_type, upper, checkpoint);
            &&& last.id == m.id
            &&& last.config == m.config
            &&& last.extents == m.extents
            &&& last.color == m.color
            &&& last.end == m.end
            &&& last.block == m.block
            &&& m.reports <= last.reports
        }),
{
    if checkpoint is Some {
        reporting_changes_only_the_counter(m, checkpoint->0.serial, report_plan(m, upper));
    }
    if m.end is Some {
        reporting_changes_only_the_counter(m, 0, report_plan(m, m.end->0));
    }
}

} // verus!
