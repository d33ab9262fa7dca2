//! What holds of import sessions as a whole.

use crate::segment::{self, CheckpointInfo, ReceptionClaim, SegmentType, SegmentView};
use crate::session::extents;
use crate::session::import::{
    self, ImportActionView, ImportConfig, ImportModel, ImportState, ImportStep, ReportWindow,
    SegmentColor,
};
use crate::session::{CancelDirection, CancelReason, SessionId};
use vstd::prelude::*;

verus! {

// ---------------------------------------------------------------------------
// Refusals
// ---------------------------------------------------------------------------
/// A session that is complete or cancelled ignores data segments.
pub proof fn finished_session_ignores_data(
    m: ImportModel,
    segment_type: SegmentType,
    client_service_id: u64,
    offset: u64,
    data: Seq<u8>,
    checkpoint: Option<CheckpointInfo>,
)
    requires
        m.state != ImportState::Receiving,
    ensures
        import::received(m, segment_type, client_service_id, offset, data, checkpoint) == (
            m,
            Seq::<ImportActionView>::empty(),
        ),
{
}

/// A first segment for another client service cancels the session with that
/// reason, whatever its type.
pub proof fn wrong_client_service_is_refused(
    m: ImportModel,
    segment_type: SegmentType,
    client_service_id: u64,
    offset: u64,
    data: Seq<u8>,
    checkpoint: Option<CheckpointInfo>,
)
    requires
        m.state == ImportState::Receiving,
        m.color is None,
        client_service_id != m.config.expected_client_service_id,
    ensures
        import::received(m, segment_type, client_service_id, offset, data, checkpoint)
            == import::cancelled(m, CancelReason::ClientSvcUnreachable),
{
}

/// A segment of the other color cancels the session with that reason.
pub proof fn miscolored_segment_is_refused(
    m: ImportModel,
    segment_type: SegmentType,
    client_service_id: u64,
    offset: u64,
    data: Seq<u8>,
    checkpoint: Option<CheckpointInfo>,
)
    requires
        m.state == ImportState::Receiving,
        m.color is Some,
        m.color->0 != import::color_of(segment_type),
    ensures
        import::received(m, segment_type, client_service_id, offset, data, checkpoint)
            == import::cancelled(m, CancelReason::MiscoloredSegment),
{
}

/// Red data that reaches beyond the limit cancels the session with that reason.
pub proof fn red_data_beyond_the_limit_is_refused(
    m: ImportModel,
    segment_type: SegmentType,
    client_service_id: u64,
    offset: u64,
    data: Seq<u8>,
    checkpoint: Option<CheckpointInfo>,
)
    requires
        m.state == ImportState::Receiving,
        m.color is None ==> client_service_id == m.config.expected_client_service_id,
        m.color is Some ==> m.color->0 == SegmentColor::Red,
        segment_type.red(),
        m.config.max_red_data_bytes is Some,
        offset + data.len() > m.config.max_red_data_bytes->0,
    ensures
        import::received(m, segment_type, client_service_id, offset, data, checkpoint)
            == import::cancelled(
            ImportModel { color: Some(SegmentColor::Red), ..m },
            CancelReason::ByEngine,
        ),
{
}

/// Whether every segment that the actions send is a report of the session.
pub open spec fn sends_only_reports(id: SessionId, actions: Seq<ImportActionView>) -> bool {
    forall|i: int|
        0 <= i < actions.len() ==> ((#[trigger] actions[i]) matches ImportActionView::SendSegment(w)
            ==> is_report(id, w))
}

/// Whether these bytes are a report of the session.
pub open spec fn is_report(id: SessionId, w: Seq<u8>) -> bool {
    exists|r: SegmentView| r is Report && r.session_id() == id && w == #[trigger] r.wire()
}

/// A session whose reports are not limited is never cancelled for them, and its
/// reports are all that reporting sends.
proof fn lemma_unlimited_reports(
    m: ImportModel,
    checkpoint_serial: u64,
    plan: Seq<ReportWindow>,
)
    requires
        m.config.max_reports is None,
    ensures
        import::send_reports(m, checkpoint_serial, plan).0 == (ImportModel {
            reports: m.reports + plan.len(),
            ..m
        }),
        import::send_reports(m, checkpoint_serial, plan).1.len() == 2 * plan.len(),
        forall|i: int|
            0 <= i < import::send_reports(m, checkpoint_serial, plan).1.len()
                ==> !((#[trigger] import::send_reports(m, checkpoint_serial, plan).1[i]) is DeliverBlock),
        sends_only_reports(m.id, import::send_reports(m, checkpoint_serial, plan).1),
    decreases plan.len(),
{
    if plan.len() > 0 {
        let next = ImportModel { reports: m.reports + 1, ..m };
        lemma_unlimited_reports(next, checkpoint_serial, plan.drop_first());
        let more = import::send_reports(next, checkpoint_serial, plan.drop_first()).1;
        let all = import::send_reports(m, checkpoint_serial, plan).1;
        let r = import::report_segment(m, checkpoint_serial, plan[0]);
        assert(r is Report && r.session_id() == m.id);
        assert(is_report(m.id, r.wire()));
        assert forall|i: int| 0 <= i < all.len() implies !((#[trigger] all[i]) is DeliverBlock) by {
            if i >= 2 {
                assert(all[i] == more[i - 2]);
            }
        }
        assert forall|i: int| 0 <= i < all.len() implies ((#[trigger] all[i]) matches
            ImportActionView::SendSegment(w) ==> is_report(m.id, w)) by {
            if i >= 2 {
                assert(all[i] == more[i - 2]);
            }
        }
        assert(import::send_reports(m, checkpoint_serial, plan).0 == (ImportModel {
            reports: m.reports + plan.len(),
            ..m
        }));
    }
}

/// A session without limits accepts every data segment that is for its client
/// service and of its color: it is not cancelled, and sends nothing but reports.
pub proof fn acceptable_segment_is_not_refused(
    m: ImportModel,
    segment_type: SegmentType,
    client_service_id: u64,
    offset: u64,
    data: Seq<u8>,
    checkpoint: Option<CheckpointInfo>,
)
    requires
        m.state == ImportState::Receiving,
        m.config.max_reports is None,
        m.config.max_red_data_bytes is Some ==> offset + data.len()
            <= m.config.max_red_data_bytes->0,
        m.color is None ==> client_service_id == m.config.expected_client_service_id,
        m.color is Some ==> m.color->0 == import::color_of(segment_type),
    ensures
        import::received(
            m,
            segment_type,
            client_service_id,
            offset,
            data,
            checkpoint,
        ).0.state != ImportState::Cancelled,
        sends_only_reports(
            m.id,
            import::received(m, segment_type, client_service_id, offset, data, checkpoint).1,
        ),
{
    let upper = (offset + data.len()) as u64;
    let next = import::recorded(m, segment_type, offset, data);
    if checkpoint is Some {
        lemma_unlimited_reports(next, checkpoint->0.serial, import::report_plan(next, upper));
    }
    if next.end is Some {
        lemma_unlimited_reports(next, 0, import::report_plan(next, next.end->0));
    }
    let step = import::answered(next, segment_type, upper, checkpoint);
    let all = import::received(m, segment_type, client_service_id, offset, data, checkpoint).1;
    if !segment_type.green() {
        assert forall|i: int| 0 <= i < all.len() implies ((#[trigger] all[i]) matches
            ImportActionView::SendSegment(w) ==> is_report(m.id, w)) by {
            if i < step.1.len() {
                assert(all[i] == step.1[i]);
            }
        }
    }
}

/// Green data is never reported on: an accepted green segment is answered by
/// nothing, or, at the end of the block, by the delivery alone.
pub proof fn green_data_is_never_reported(
    m: ImportModel,
    segment_type: SegmentType,
    client_service_id: u64,
    offset: u64,
    data: Seq<u8>,
    checkpoint: Option<CheckpointInfo>,
)
    requires
        m.state == ImportState::Receiving,
        segment_type.green(),
        import::refusal(m, segment_type, client_service_id, offset + data.len()) is None,
    ensures
        ({
            let (last, actions) = import::received(
                m,
                segment_type,
                client_service_id,
                offset,
                data,
                checkpoint,
            );
            &&& last.reports == m.reports
            &&& segment_type == SegmentType::GreenData ==> actions.len() == 0 && last.state
                == ImportState::Receiving
            &&& segment_type == SegmentType::GreenEob ==> actions =~= seq![
                ImportActionView::DeliverBlock(last.block.take((offset + data.len()) as u64 as int)),
            ] && last.state == ImportState::Complete
        }),
{
}

// ---------------------------------------------------------------------------
// Reports
// ---------------------------------------------------------------------------
/// Whether position `p` is claimed.
pub open spec fn claimed(claims: Seq<ReceptionClaim>, p: int) -> bool {
    exists|i: int|
        0 <= i < claims.len() && (#[trigger] claims[i]).offset <= p < claims[i].offset
            + claims[i].length
}

/// The claims in a window stand in ascending order, inside the window, and claim
/// exactly the received positions of the window.
pub proof fn claims_are_what_was_received(xs: Seq<(u64, u64)>, lower: u64, upper: u64)
    requires
        extents::canonical(xs),
        lower <= upper,
    ensures
        ({
            let claims = import::claims_within(xs, lower, upper);
            &&& claims.len() <= xs.len()
            &&& forall|i: int|
                0 <= i < claims.len() ==> lower <= (#[trigger] claims[i]).offset
                    && claims[i].offset + claims[i].length <= upper
            &&& forall|i: int, j: int|
                0 <= i < j < claims.len() ==> (#[trigger] claims[i]).offset + claims[i].length < (
                #[trigger] claims[j]).offset
            &&& forall|p: int| #[trigger]
                claimed(claims, p) <==> lower <= p < upper && extents::covered(xs, p)
        }),
    decreases xs.len(),
{
    let claims = import::claims_within(xs, lower, upper);
    if xs.len() == 0 {
    } else {
        let init = xs.drop_last();
        let head = import::claims_within(init, lower, upper);
        let (start, end) = xs.last();
        claims_are_what_was_received(init, lower, upper);
        assert forall|p: int| extents::covered(xs, p) <==> extents::covered(init, p) || start <= p
            < end by {
            if extents::covered(xs, p) && !(start <= p < end) {
                let k = choose|k: int| 0 <= k < xs.len() && (#[trigger] xs[k]).0 <= p < xs[k].1;
                assert(init[k] == xs[k]);
            }
            if extents::covered(init, p) {
                let k = choose|k: int|
                    0 <= k < init.len() && (#[trigger] init[k]).0 <= p < init[k].1;
                assert(init[k] == xs[k]);
            }
            if start <= p < end {
                assert(xs[xs.len() - 1].0 <= p);
            }
        }
        assert forall|i: int| 0 <= i < head.len() implies (#[trigger] head[i]).offset
            + head[i].length < start by {
            if head[i].length == 0 {
                lemma_claims_lie_before(init, lower, upper, start);
            } else {
                let p = head[i].offset + head[i].length - 1;
                assert(claimed(head, p));
                assert(extents::covered(init, p));
                lemma_claims_lie_before(init, lower, upper, start);
            }
        }
        if !(end <= lower || start >= upper) {
            let from = extents::greater(start, lower);
            let to = extents::lesser(end, upper);
            let c = ReceptionClaim { offset: from, length: (to - from) as u64 };
            assert(claims == head.push(c));
            assert forall|p: int| #[trigger]
                claimed(claims, p) <==> lower <= p < upper && extents::covered(xs, p) by {
                assert(claimed(head, p) <==> lower <= p < upper && extents::covered(init, p));
                if claimed(claims, p) {
                    let k = choose|k: int|
                        0 <= k < claims.len() && (#[trigger] claims[k]).offset <= p
                            < claims[k].offset + claims[k].length;
                    if k < head.len() {
                        assert(head[k] == claims[k]);
                    }
                }
                if claimed(head, p) {
                    let k = choose|k: int|
                        0 <= k < head.len() && (#[trigger] head[k]).offset <= p < head[k].offset
                            + head[k].length;
                    assert(claims[k] == head[k]);
                }
                if from <= p < to {
                    assert(claims[claims.len() - 1].offset <= p);
                }
            }
        } else {
            assert forall|p: int| #[trigger]
                claimed(claims, p) <==> lower <= p < upper && extents::covered(xs, p) by {
                assert(claimed(head, p) <==> lower <= p < upper && extents::covered(init, p));
            }
        }
    }
}

/// The claims of extents that all end before `start` end before it too.
proof fn lemma_claims_lie_before(xs: Seq<(u64, u64)>, lower: u64, upper: u64, start: u64)
    requires
        lower <= upper,
        forall|k: int| 0 <= k < xs.len() ==> (#[trigger] xs[k]).0 < xs[k].1 < start,
    ensures
        forall|i: int|
            0 <= i < import::claims_within(xs, lower, upper).len() ==> (
            #[trigger] import::claims_within(xs, lower, upper)[i]).offset + import::claims_within(
                xs,
                lower,
                upper,
            )[i].length < start,
    decreases xs.len(),
{
    if xs.len() > 0 {
        let init = xs.drop_last();
        assert forall|k: int| 0 <= k < init.len() implies (#[trigger] init[k]).0 < init[k].1
            < start by {
            assert(init[k] == xs[k]);
        }
        assert(xs[xs.len() - 1].1 < start);
        lemma_claims_lie_before(init, lower, upper, start);
        let head = import::claims_within(init, lower, upper);
        let claims = import::claims_within(xs, lower, upper);
        assert forall|i: int| 0 <= i < claims.len() implies (#[trigger] claims[i]).offset
            + claims[i].length < start by {
            if i < head.len() {
                assert(claims[i] == head[i]);
            } else {
                assert(claims == head.push(claims[i]));
            }
        }
    }
}

/// The claims of all windows, one after the other.
pub open spec fn all_claims(plan: Seq<ReportWindow>) -> Seq<ReceptionClaim>
    decreases plan.len(),
{
    if plan.len() == 0 {
        seq![]
    } else {
        plan[0].claims + all_claims(plan.drop_first())
    }
}

proof fn lemma_windows(claims: Seq<ReceptionClaim>, max: nat, upper: u64)
    requires
        max > 0,
        claims.len() > 0,
        forall|i: int|
            0 <= i < claims.len() ==> (#[trigger] claims[i]).offset + claims[i].length <= upper,
        forall|i: int, j: int|
            0 <= i < j < claims.len() ==> (#[trigger] claims[i]).offset + claims[i].length < (
            #[trigger] claims[j]).offset,
    ensures
        ({
            let plan = import::report_windows(claims, max, upper);
            &&& plan.len() > 0
            &&& plan.len() <= claims.len()
            &&& plan[0].lower == claims[0].offset
            &&& all_claims(plan) == claims
            &&& forall|k: int| 0 <= k < plan.len() ==> #[trigger] well_windowed(plan[k], max)
            &&& forall|j: int, k: int|
                0 <= j < k < plan.len() ==> (#[trigger] plan[j]).upper <= (#[trigger] plan[k]).lower
            &&& plan.last().upper == upper
        }),
    decreases claims.len(),
{
    let plan = import::report_windows(claims, max, upper);
    if claims.len() <= max {
        reveal_with_fuel(all_claims, 2);
        assert(plan.drop_first() == Seq::<ReportWindow>::empty());
        assert(claims + Seq::<ReceptionClaim>::empty() == claims);
        assert(well_windowed(plan[0], max));
    } else {
        let rest = claims.skip(max as int);
        assert forall|i: int| 0 <= i < rest.len() implies (#[trigger] rest[i]).offset
            + rest[i].length <= upper by {
            assert(rest[i] == claims[i + max]);
        }
        assert forall|i: int, j: int| 0 <= i < j < rest.len() implies (#[trigger] rest[i]).offset
            + rest[i].length < (#[trigger] rest[j]).offset by {
            assert(rest[i] == claims[i + max] && rest[j] == claims[j + max]);
        }
        lemma_windows(rest, max, upper);
        let more = import::report_windows(rest, max, upper);
        assert(plan.drop_first() == more);
        assert(claims.take(max as int) + rest == claims);
        let first = claims.take(max as int);
        assert forall|i: int| 0 <= i < first.len() implies claims[0].offset <= (
        #[trigger] first[i]).offset && first[i].offset + first[i].length
            <= claims[max as int].offset by {
            assert(first[i] == claims[i]);
            if i > 0 {
                assert(claims[0].offset + claims[0].length < claims[i].offset);
            }
        }
        assert(well_windowed(plan[0], max));
        assert forall|k: int| 0 <= k < plan.len() implies #[trigger] well_windowed(plan[k], max) by {
            if k > 0 {
                assert(plan[k] == more[k - 1]);
            }
        }
        assert(plan[0].upper == rest[0].offset);
        assert forall|j: int, k: int| 0 <= j < k < plan.len() implies (#[trigger] plan[j]).upper
            <= (#[trigger] plan[k]).lower by {
            assert(plan[k] == more[k - 1]);
            if j > 0 {
                assert(plan[j] == more[j - 1]);
            } else {
                lemma_lowers_ascend(rest, max, upper, k - 1);
            }
        }
        assert(plan.last() == more.last());
    }
}

/// No window starts below the first claim.
proof fn lemma_lowers_ascend(claims: Seq<ReceptionClaim>, max: nat, upper: u64, k: int)
    requires
        max > 0,
        claims.len() > 0,
        forall|i: int, j: int|
            0 <= i < j < claims.len() ==> (#[trigger] claims[i]).offset + claims[i].length < (
            #[trigger] claims[j]).offset,
        0 <= k < import::report_windows(claims, max, upper).len(),
    ensures
        import::report_windows(claims, max, upper)[k].lower >= claims[0].offset,
    decreases claims.len(),
{
    if claims.len() > max && k > 0 {
        let rest = claims.skip(max as int);
        assert forall|i: int, j: int| 0 <= i < j < rest.len() implies (#[trigger] rest[i]).offset
            + rest[i].length < (#[trigger] rest[j]).offset by {
            assert(rest[i] == claims[i + max] && rest[j] == claims[j + max]);
        }
        lemma_lowers_ascend(rest, max, upper, k - 1);
        assert(rest[0] == claims[max as int]);
        assert(claims[0].offset + claims[0].length < claims[max as int].offset);
        assert(import::report_windows(claims, max, upper)[k] == import::report_windows(
            rest,
            max,
            upper,
        )[k - 1]);
    }
}

/// A window holds at most `max` claims, all of them inside it.
pub open spec fn well_windowed(window: ReportWindow, max: nat) -> bool {
    &&& window.claims.len() <= max
    &&& forall|i: int|
        0 <= i < window.claims.len() ==> window.lower <= (#[trigger] window.claims[i]).offset
            && window.claims[i].offset + window.claims[i].length <= window.upper
}

/// The reports on a scope hold no more claims than a report may, have windows
/// that do not overlap and claims that lie inside them, and together claim
/// exactly what was received in the scope.
pub proof fn reports_claim_what_was_received(m: ImportModel, upper: u64)
    requires
        import::consistent(m),
        m.config.max_claims_per_report > 0,
    ensures
        ({
            let plan = import::report_plan(m, upper);
            &&& plan.len() > 0
            &&& forall|k: int|
                0 <= k < plan.len() ==> #[trigger] well_windowed(
                    plan[k],
                    m.config.max_claims_per_report as nat,
                )
            &&& forall|j: int, k: int|
                0 <= j < k < plan.len() ==> (#[trigger] plan[j]).upper <= (#[trigger] plan[k]).lower
            &&& plan.last().upper == upper
            &&& forall|p: int| #[trigger]
                claimed(all_claims(plan), p) <==> 0 <= p < upper && extents::covered(m.extents, p)
        }),
{
    let claims = import::claims_within(m.extents, 0, upper);
    let plan = import::report_plan(m, upper);
    let max = m.config.max_claims_per_report as nat;
    claims_are_what_was_received(m.extents, 0, upper);
    if claims.len() <= max {
        reveal_with_fuel(all_claims, 2);
        assert(plan.drop_first() == Seq::<ReportWindow>::empty());
        assert(claims + Seq::<ReceptionClaim>::empty() == claims);
        assert(well_windowed(plan[0], max));
    } else {
        lemma_windows(claims, max, upper);
    }
    assert(all_claims(plan) == claims);
}

/// A report survives the wire: what the sender decodes is what was reported.
pub proof fn reports_survive_the_wire(
    m: ImportModel,
    checkpoint_serial: u64,
    upper: u64,
    k: int,
    tail: Seq<u8>,
)
    requires
        import::consistent(m),
        m.config.max_claims_per_report > 0,
        0 <= k < import::report_plan(m, upper).len(),
    ensures
        ({
            let r = import::report_segment(m, checkpoint_serial, import::report_plan(m, upper)[k]);
            segment::read_segment(r.wire() + tail) == (
                Ok::<SegmentView, segment::SegmentError>(r),
                tail,
            )
        }),
{
    reports_claim_what_was_received(m, upper);
    let window = import::report_plan(m, upper)[k];
    assert(well_windowed(window, m.config.max_claims_per_report as nat));
    let r = import::report_segment(m, checkpoint_serial, window);
    assert(r.valid());
    segment::segment_round_trip(r, tail);
}

/// Without a limit on reports every window of the scope is reported on, in
/// order, with consecutive serial numbers and a timer for each.
pub proof fn every_window_is_reported(
    m: ImportModel,
    checkpoint_serial: u64,
    plan: Seq<ReportWindow>,
    k: int,
)
    requires
        m.config.max_reports is None,
        0 <= k < plan.len(),
    ensures
        ({
            let (last, actions) = import::send_reports(m, checkpoint_serial, plan);
            let at = ImportModel { reports: m.reports + k as nat, ..m };
            &&& last == (ImportModel { reports: m.reports + plan.len(), ..m })
            &&& actions.len() == 2 * plan.len()
            &&& actions[2 * k] == ImportActionView::SendSegment(
                import::report_segment(at, checkpoint_serial, plan[k]).wire(),
            )
            &&& actions[2 * k + 1] == (ImportActionView::StartTimer {
                report_serial: (m.reports + k + 1) as u64,
                duration: m.config.retransmit_timeout,
            })
        }),
    decreases plan.len(),
{
    lemma_unlimited_reports(m, checkpoint_serial, plan);
    if k > 0 {
        let next = ImportModel { reports: m.reports + 1, ..m };
        every_window_is_reported(next, checkpoint_serial, plan.drop_first(), k - 1);
        let all = import::send_reports(m, checkpoint_serial, plan).1;
        let more = import::send_reports(next, checkpoint_serial, plan.drop_first()).1;
        assert(all[2 * k] == more[2 * (k - 1)]);
        assert(all[2 * k + 1] == more[2 * (k - 1) + 1]);
        assert(plan.drop_first()[k - 1] == plan[k]);
    } else {
        assert(ImportModel { reports: m.reports + 0nat, ..m } == m);
    }
}

/// A session never sends more reports than its limit: when one more is called
/// for, reporting sends a cancel in its place and leaves the session cancelled.
/// This is what reporting itself does; where the segment that called for the
/// report has also completed the block, the block is delivered after it and the
/// session ends complete.
pub proof fn report_limit_is_kept(
    m: ImportModel,
    checkpoint_serial: u64,
    plan: Seq<ReportWindow>,
)
    requires
        m.config.max_reports is Some,
        m.reports <= m.config.max_reports->0,
    ensures
        ({
            let max = m.config.max_reports->0;
            let last = import::send_reports(m, checkpoint_serial, plan).0;
            &&& last.reports <= max
            &&& m.reports + plan.len() <= max ==> last == (ImportModel {
                reports: m.reports + plan.len(),
                ..m
            })
            &&& m.reports + plan.len() > max ==> last == (ImportModel {
                reports: max as nat,
                state: ImportState::Cancelled,
                ..m
            })
        }),
    decreases plan.len(),
{
    if plan.len() > 0 && !import::reports_exhausted(m) {
        report_limit_is_kept(
            ImportModel { reports: m.reports + 1, ..m },
            checkpoint_serial,
            plan.drop_first(),
        );
    }
}

proof fn lemma_reports_ignore_deferral(
    m: ImportModel,
    defer_report_ms: u64,
    checkpoint_serial: u64,
    plan: Seq<ReportWindow>,
)
    ensures
        import::send_reports(
            ImportModel { config: ImportConfig { defer_report_ms, ..m.config }, ..m },
            checkpoint_serial,
            plan,
        ).1 == import::send_reports(m, checkpoint_serial, plan).1,
    decreases plan.len(),
{
    if plan.len() > 0 && !import::reports_exhausted(m) {
        lemma_reports_ignore_deferral(
            ImportModel { reports: m.reports + 1, ..m },
            defer_report_ms,
            checkpoint_serial,
            plan.drop_first(),
        );
    }
}

/// Deferring only postpones a report: the session does nothing but say so, and
/// the report that is generated later, while nothing else has arrived, is the
/// one that a session without deferral would have sent at once.
pub proof fn deferral_only_postpones_the_report(
    m: ImportModel,
    segment_type: SegmentType,
    upper: u64,
    info: CheckpointInfo,
)
    requires
        segment_type.checkpoint(),
        import::deferred(m, upper),
    ensures
        ({
            let prompt = ImportModel {
                config: ImportConfig { defer_report_ms: 0, ..m.config },
                ..m
            };
            &&& import::answered(m, segment_type, upper, Some(info)) == (
                m,
                seq![
                    ImportActionView::DeferReport {
                        checkpoint_serial: info.serial,
                        upper_bound: upper,
                        defer_ms: m.config.defer_report_ms,
                    },
                ],
            )
            &&& import::answered(prompt, segment_type, upper, Some(info)).1 == import::reported(
                m,
                info.serial,
                upper,
            ).1
        }),
{
    lemma_reports_ignore_deferral(m, 0, info.serial, import::report_plan(m, upper));
}

/// Red data that completes the block without being a checkpoint is answered by a
/// report that nobody asked for, with checkpoint serial number 0, and then the
/// block is delivered. Past the report limit a cancel takes the place of reports
/// that may not be sent; the block is delivered all the same.
pub proof fn completing_data_is_reported_unasked(
    m: ImportModel,
    segment_type: SegmentType,
    client_service_id: u64,
    offset: u64,
    data: Seq<u8>,
    checkpoint: Option<CheckpointInfo>,
)
    requires
        m.state == ImportState::Receiving,
        segment_type == SegmentType::RedData,
        import::refusal(m, segment_type, client_service_id, offset + data.len()) is None,
        import::block_complete(import::recorded(m, segment_type, offset, data)),
    ensures
        ({
            let next = import::recorded(m, segment_type, offset, data);
            let (last, actions) = import::received(
                m,
                segment_type,
                client_service_id,
                offset,
                data,
                checkpoint,
            );
            &&& last.state == ImportState::Complete
            &&& actions == import::reported(next, 0, next.end->0).1.push(
                ImportActionView::DeliverBlock(last.block.take(next.end->0 as int)),
            )
        }),
{
    let next = import::recorded(m, segment_type, offset, data);
    import::reporting_changes_only_the_counter(next, 0, import::report_plan(next, next.end->0));
}

/// Whether a recorded segment calls for a report at once: a checkpoint that is
/// not deferred does, and so does other red data that completes the block.
pub open spec fn calls_for_report(
    m: ImportModel,
    segment_type: SegmentType,
    upper: u64,
    checkpoint: Option<CheckpointInfo>,
) -> bool {
    if segment_type.checkpoint() {
        checkpoint is Some && !import::deferred(m, upper)
    } else {
        import::block_complete(m)
    }
}

/// A segment that calls for a report when the session has none left, and does
/// not complete the block, cancels the session: the cancel from the receiver is
/// all that is sent, and nothing is delivered.
pub proof fn report_past_the_limit_cancels(
    m: ImportModel,
    segment_type: SegmentType,
    client_service_id: u64,
    offset: u64,
    data: Seq<u8>,
    checkpoint: Option<CheckpointInfo>,
)
    requires
        m.state == ImportState::Receiving,
        !segment_type.green(),
        import::reports_exhausted(m),
        import::refusal(m, segment_type, client_service_id, offset + data.len()) is None,
        !import::block_complete(import::recorded(m, segment_type, offset, data)),
        calls_for_report(
            import::recorded(m, segment_type, offset, data),
            segment_type,
            (offset + data.len()) as u64,
            checkpoint,
        ),
    ensures
        import::received(m, segment_type, client_service_id, offset, data, checkpoint)
            == import::cancelled(
            import::recorded(m, segment_type, offset, data),
            CancelReason::ByEngine,
        ),
{
    let upper = (offset + data.len()) as u64;
    let next = import::recorded(m, segment_type, offset, data);
    lemma_windows_fit(
        import::claims_within(next.extents, 0, upper),
        next.config.max_claims_per_report as nat,
        upper,
    );
    assert(import::report_plan(next, upper).len() > 0);
}

/// A red segment that completes the block of a session with no report left, and
/// calls for one, is answered by a cancel from the receiver. The block is
/// delivered right after it, and the session ends complete, not cancelled.
pub proof fn completion_at_the_report_limit(
    m: ImportModel,
    segment_type: SegmentType,
    client_service_id: u64,
    offset: u64,
    data: Seq<u8>,
    checkpoint: Option<CheckpointInfo>,
)
    requires
        m.state == ImportState::Receiving,
        !segment_type.green(),
        import::reports_exhausted(m),
        import::refusal(m, segment_type, client_service_id, offset + data.len()) is None,
        import::block_complete(import::recorded(m, segment_type, offset, data)),
        calls_for_report(
            import::recorded(m, segment_type, offset, data),
            segment_type,
            (offset + data.len()) as u64,
            checkpoint,
        ),
    ensures
        ({
            let next = import::recorded(m, segment_type, offset, data);
            let cancel = SegmentView::Cancel {
                session_id: m.id,
                reason: CancelReason::ByEngine,
                direction: CancelDirection::FromReceiver,
            };
            import::received(m, segment_type, client_service_id, offset, data, checkpoint) == (
                ImportModel { state: ImportState::Complete, ..next },
                seq![
                    ImportActionView::SendSegment(cancel.wire()),
                    ImportActionView::DeliverBlock(next.block.take(next.end->0 as int)),
                ],
            )
        }),
{
    let upper = (offset + data.len()) as u64;
    let next = import::recorded(m, segment_type, offset, data);
    let scope = if segment_type.checkpoint() {
        upper
    } else {
        next.end->0
    };
    lemma_windows_fit(
        import::claims_within(next.extents, 0, scope),
        next.config.max_claims_per_report as nat,
        scope,
    );
    assert(import::report_plan(next, scope).len() > 0);
    let step = import::answered(next, segment_type, upper, checkpoint);
    assert(step == import::cancelled(next, CancelReason::ByEngine));
    assert(import::received(m, segment_type, client_service_id, offset, data, checkpoint)
        == import::delivered(step));
}

/// Reports of this many claims at most fit in memory.
pub open spec fn reports_fit(claims: nat) -> bool {
    72 + 20 * claims <= isize::MAX
}

/// The most claims that one report holds, where there are `claims` to make: a
/// session splits its reports at its limit.
pub open spec fn most_claims(config: ImportConfig, claims: nat) -> nat {
    if 0 < config.max_claims_per_report < claims {
        config.max_claims_per_report as nat
    } else {
        claims
    }
}

proof fn lemma_windows_fit(claims: Seq<ReceptionClaim>, max: nat, upper: u64)
    ensures
        ({
            let plan = import::report_windows(claims, max, upper);
            &&& 0 < plan.len() <= claims.len() + 1
            &&& forall|k: int|
                0 <= k < plan.len() ==> (#[trigger] plan[k]).claims.len() <= claims.len() && (max > 0
                    ==> plan[k].claims.len() <= max)
        }),
    decreases claims.len(),
{
    if max > 0 && claims.len() > max {
        let rest = claims.skip(max as int);
        lemma_windows_fit(rest, max, upper);
        let plan = import::report_windows(claims, max, upper);
        let more = import::report_windows(rest, max, upper);
        assert forall|k: int| 0 <= k < plan.len() implies (#[trigger] plan[k]).claims.len()
            <= claims.len() && plan[k].claims.len() <= max by {
            if k > 0 {
                assert(plan[k] == more[k - 1]);
            }
        }
    }
}

proof fn lemma_claims_are_few(xs: Seq<(u64, u64)>, lower: u64, upper: u64)
    ensures
        import::claims_within(xs, lower, upper).len() <= xs.len(),
    decreases xs.len(),
{
    if xs.len() > 0 {
        lemma_claims_are_few(xs.drop_last(), lower, upper);
    }
}

proof fn lemma_reports_representable(
    m: ImportModel,
    checkpoint_serial: u64,
    plan: Seq<ReportWindow>,
    claims: nat,
)
    requires
        m.block.len() <= isize::MAX,
        m.reports + plan.len() < u64::MAX,
        reports_fit(claims),
        forall|k: int| 0 <= k < plan.len() ==> (#[trigger] plan[k]).claims.len() <= claims,
    ensures
        import::representable(import::send_reports(m, checkpoint_serial, plan)),
    decreases plan.len(),
{
    let step = import::send_reports(m, checkpoint_serial, plan);
    let cancel = SegmentView::Cancel {
        session_id: m.id,
        reason: CancelReason::ByEngine,
        direction: CancelDirection::FromReceiver,
    };
    segment::segment_size_is_bounded(cancel);
    if plan.len() > 0 && !import::reports_exhausted(m) {
        let next = ImportModel { reports: m.reports + 1, ..m };
        let rest = plan.drop_first();
        assert forall|k: int| 0 <= k < rest.len() implies (#[trigger] rest[k]).claims.len()
            <= claims by {
            assert(rest[k] == plan[k + 1]);
        }
        lemma_reports_representable(next, checkpoint_serial, rest, claims);
        segment::segment_size_is_bounded(import::report_segment(m, checkpoint_serial, plan[0]));
        let more = import::send_reports(next, checkpoint_serial, rest).1;
        assert(plan[0].claims.len() <= claims);
        assert forall|i: int| 0 <= i < step.1.len() implies ((#[trigger] step.1[i]) matches
            ImportActionView::SendSegment(w) ==> w.len() <= isize::MAX) by {
            if i >= 2 {
                assert(step.1[i] == more[i - 2]);
            }
        }
    }
}

/// Reporting on a scope leads to nothing that the machine cannot hold, as long
/// as the longest report that all extents can call for fits in memory and the
/// counter does not run out.
pub proof fn reporting_is_representable(m: ImportModel, checkpoint_serial: u64, upper: u64)
    requires
        m.block.len() <= isize::MAX,
        reports_fit(most_claims(m.config, m.extents.len())),
        m.reports + m.extents.len() + 1 < u64::MAX,
    ensures
        import::representable(import::reported(m, checkpoint_serial, upper)),
{
    let claims = import::claims_within(m.extents, 0, upper);
    lemma_claims_are_few(m.extents, 0, upper);
    lemma_windows_fit(claims, m.config.max_claims_per_report as nat, upper);
    lemma_reports_representable(
        m,
        checkpoint_serial,
        import::report_plan(m, upper),
        most_claims(m.config, m.extents.len()),
    );
}

/// Receiving a data segment leads to nothing that the machine cannot hold, as
/// long as the segment ends within what memory can address, the longest report
/// that all extents can call for fits in memory, and the report counter does not
/// run out.
pub proof fn receiving_is_representable(
    m: ImportModel,
    segment_type: SegmentType,
    client_service_id: u64,
    offset: u64,
    data: Seq<u8>,
    checkpoint: Option<CheckpointInfo>,
)
    requires
        import::consistent(m),
        m.block.len() <= isize::MAX,
        offset + data.len() <= isize::MAX,
        reports_fit(most_claims(m.config, m.extents.len() + 1)),
        m.reports + m.extents.len() + 2 < u64::MAX,
    ensures
        import::representable(
            import::received(m, segment_type, client_service_id, offset, data, checkpoint),
        ),
{
    let upper = (offset + data.len()) as u64;
    let next = import::recorded(m, segment_type, offset, data);
    extents::insert_adds_the_range(m.extents, offset, upper);
    if checkpoint is Some {
        reporting_is_representable(next, checkpoint->0.serial, upper);
    }
    if next.end is Some {
        reporting_is_representable(next, 0, next.end->0);
    }
    assert forall|reason: CancelReason| (#[trigger] (SegmentView::Cancel {
        session_id: m.id,
        reason,
        direction: CancelDirection::FromReceiver,
    }).wire()).len() <= isize::MAX by {
        segment::segment_size_is_bounded(
            SegmentView::Cancel {
                session_id: m.id,
                reason,
                direction: CancelDirection::FromReceiver,
            },
        );
    }
    let step = import::answered(next, segment_type, upper, checkpoint);
    let whole = import::received(m, segment_type, client_service_id, offset, data, checkpoint);
    if m.state == ImportState::Receiving && import::refusal(
        m,
        segment_type,
        client_service_id,
        offset + data.len(),
    ) is None && !segment_type.green() {
        assert forall|i: int| 0 <= i < whole.1.len() implies ((#[trigger] whole.1[i]) matches
            ImportActionView::SendSegment(w) ==> w.len() <= isize::MAX) by {
            if i < step.1.len() {
                assert(whole.1[i] == step.1[i]);
            }
        }
    }
}

// ---------------------------------------------------------------------------
// Coverage
// ---------------------------------------------------------------------------
/// Whether the second session has received at least what the first has: every
/// covered position stays covered, and a scope that was complete is complete,
/// with all that lies within it.
pub open spec fn keeps_coverage(before: ImportModel, after: ImportModel) -> bool {
    &&& forall|p: int|
        extents::covered(before.extents, p) ==> #[trigger] extents::covered(after.extents, p)
    &&& forall|u: u64, v: u64|
        #![trigger import::complete_to(before, u), import::complete_to(after, v)]
        import::complete_to(before, u) && v <= u ==> import::complete_to(after, v)
}

proof fn lemma_covering_keeps_coverage(before: ImportModel, after: ImportModel)
    requires
        extents::canonical(before.extents),
        extents::canonical(after.extents),
        forall|p: int|
            extents::covered(before.extents, p) ==> #[trigger] extents::covered(after.extents, p),
    ensures
        keeps_coverage(before, after),
{
    assert forall|u: u64, v: u64|
        #![trigger import::complete_to(before, u), import::complete_to(after, v)]
        import::complete_to(before, u) && v <= u implies import::complete_to(after, v) by {
        extents::complete_means_no_gaps(before.extents, 0, u);
        extents::complete_means_no_gaps(after.extents, 0, v);
    }
}

/// The empty scope is always complete.
pub proof fn empty_scope_is_complete(m: ImportModel)
    requires
        extents::canonical(m.extents),
    ensures
        import::complete_to(m, 0),
{
    extents::complete_means_no_gaps(m.extents, 0, 0);
}

/// Receiving a data segment loses nothing that was received before.
pub proof fn receiving_keeps_coverage(
    m: ImportModel,
    segment_type: SegmentType,
    client_service_id: u64,
    offset: u64,
    data: Seq<u8>,
    checkpoint: Option<CheckpointInfo>,
)
    requires
        extents::canonical(m.extents),
    ensures
        ({
            let after = import::received(
                m,
                segment_type,
                client_service_id,
                offset,
                data,
                checkpoint,
            ).0;
            &&& extents::canonical(after.extents)
            &&& keeps_coverage(m, after)
        }),
{
    let upper = (offset + data.len()) as u64;
    let next = import::recorded(m, segment_type, offset, data);
    extents::insert_adds_the_range(m.extents, offset, upper);
    if checkpoint is Some {
        import::reporting_changes_only_the_counter(
            next,
            checkpoint->0.serial,
            import::report_plan(next, upper),
        );
    }
    if next.end is Some {
        import::reporting_changes_only_the_counter(next, 0, import::report_plan(next, next.end->0));
    }
    let after = import::received(m, segment_type, client_service_id, offset, data, checkpoint).0;
    assert(after.extents == m.extents || after.extents == next.extents);
    lemma_covering_keeps_coverage(m, after);
}

/// Reporting, and making up for a deferred report, leave what was received as
/// it is.
pub proof fn reporting_keeps_coverage(m: ImportModel, checkpoint_serial: u64, upper: u64)
    requires
        extents::canonical(m.extents),
    ensures
        import::reported(m, checkpoint_serial, upper).0.extents == m.extents,
        keeps_coverage(m, import::reported(m, checkpoint_serial, upper).0),
        import::caught_up(m, checkpoint_serial, upper).0.extents == m.extents,
        keeps_coverage(m, import::caught_up(m, checkpoint_serial, upper).0),
{
    import::reporting_changes_only_the_counter(
        m,
        checkpoint_serial,
        import::report_plan(m, upper),
    );
    lemma_covering_keeps_coverage(m, import::reported(m, checkpoint_serial, upper).0);
    lemma_covering_keeps_coverage(m, import::caught_up(m, checkpoint_serial, upper).0);
}

/// A cancelled session keeps what it has received, whichever side cancels it.
pub proof fn cancelling_keeps_coverage(m: ImportModel, reason: CancelReason)
    requires
        extents::canonical(m.extents),
    ensures
        import::cancelled(m, reason).0.extents == m.extents,
        keeps_coverage(m, import::cancelled(m, reason).0),
        import::withdrawn(m).0.extents == m.extents,
        keeps_coverage(m, import::withdrawn(m).0),
{
    lemma_covering_keeps_coverage(m, import::cancelled(m, reason).0);
    lemma_covering_keeps_coverage(m, import::withdrawn(m).0);
}

/// What a session may be told, one call for each.
#[verifier::ext_equal]
pub enum ImportEvent {
    /// A data segment has arrived.
    Data(Arrival),
    /// A report has been acknowledged.
    ReportAck { report_serial: u64 },
    /// The sender has cancelled.
    CancelFromSender,
    /// A deferred report is due.
    DeferredReport { checkpoint_serial: u64, upper_bound: u64 },
}

/// What an event leads to.
pub open spec fn happened(m: ImportModel, event: ImportEvent) -> ImportStep {
    match event {
        ImportEvent::Data(a) => arrived(m, a),
        ImportEvent::ReportAck { report_serial } => import::acknowledged(m, report_serial),
        ImportEvent::CancelFromSender => import::withdrawn(m),
        ImportEvent::DeferredReport { checkpoint_serial, upper_bound } => import::caught_up(
            m,
            checkpoint_serial,
            upper_bound,
        ),
    }
}

/// The session after events that happen one after the other.
pub open spec fn after_all(m: ImportModel, events: Seq<ImportEvent>) -> ImportModel
    decreases events.len(),
{
    if events.len() == 0 {
        m
    } else {
        happened(after_all(m, events.drop_last()), events.last()).0
    }
}

/// What a session has received stays received, whatever happens to it: once a
/// scope is complete, it and every smaller scope stay complete.
pub proof fn coverage_never_shrinks(m: ImportModel, events: Seq<ImportEvent>)
    requires
        extents::canonical(m.extents),
    ensures
        extents::canonical(after_all(m, events).extents),
        keeps_coverage(m, after_all(m, events)),
        import::complete_to(after_all(m, events), 0),
    decreases events.len(),
{
    let after = after_all(m, events);
    if events.len() > 0 {
        let before = after_all(m, events.drop_last());
        coverage_never_shrinks(m, events.drop_last());
        match events.last() {
            ImportEvent::Data(a) => {
                receiving_keeps_coverage(
                    before,
                    a.segment_type,
                    a.client_service_id,
                    a.offset,
                    a.data,
                    a.checkpoint,
                );
            },
            ImportEvent::ReportAck { report_serial } => {},
            ImportEvent::CancelFromSender => {},
            ImportEvent::DeferredReport { checkpoint_serial, upper_bound } => {
                reporting_keeps_coverage(before, checkpoint_serial, upper_bound);
            },
        }
        assert forall|p: int| extents::covered(m.extents, p) implies #[trigger] extents::covered(
            after.extents,
            p,
        ) by {
            assert(extents::covered(before.extents, p));
        }
    }
    lemma_covering_keeps_coverage(m, after);
    empty_scope_is_complete(after);
}

// ---------------------------------------------------------------------------
// Delivery
// ---------------------------------------------------------------------------
/// A data segment as it arrives.
#[verifier::ext_equal]
pub struct Arrival {
    pub segment_type: SegmentType,
    pub client_service_id: u64,
    pub offset: u64,
    pub data: Seq<u8>,
    pub checkpoint: Option<CheckpointInfo>,
}

impl Arrival {
    /// Whether the segment carries the byte at position `p`.
    pub open spec fn carries(self, p: int) -> bool {
        self.offset <= p < self.offset + self.data.len()
    }

    /// Whether the segment marks the end of the red part or of the block.
    pub open spec fn marks_end(self) -> bool {
        self.segment_type == SegmentType::RedEorp || self.segment_type == SegmentType::RedEob
    }

    /// Whether this is a red segment of `block` for the client service: it
    /// carries bytes of the block at their place, and marks the end only where
    /// the block ends.
    pub open spec fn is_part_of(self, block: Seq<u8>, client_service_id: u64) -> bool {
        &&& self.segment_type.red()
        &&& self.client_service_id == client_service_id
        &&& self.offset + self.data.len() <= block.len()
        &&& self.data == block.subrange(self.offset as int, self.offset + self.data.len())
        &&& self.marks_end() ==> self.offset + self.data.len() == block.len()
    }
}

/// What the arrival of a segment leads to.
pub open spec fn arrived(m: ImportModel, a: Arrival) -> ImportStep {
    import::received(m, a.segment_type, a.client_service_id, a.offset, a.data, a.checkpoint)
}

/// What segments that arrive one after the other lead to, with all the actions.
pub open spec fn all_arrived(m: ImportModel, arrivals: Seq<Arrival>) -> ImportStep
    decreases arrivals.len(),
{
    if arrivals.len() == 0 {
        (m, seq![])
    } else {
        let (before, actions) = all_arrived(m, arrivals.drop_last());
        let (after, more) = arrived(before, arrivals.last());
        (after, actions + more)
    }
}

/// Whether one of the segments carries the byte at position `p`.
pub open spec fn carried(arrivals: Seq<Arrival>, p: int) -> bool {
    exists|i: int| 0 <= i < arrivals.len() && (#[trigger] arrivals[i]).carries(p)
}

/// Whether one of the segments marks the end.
pub open spec fn end_marked(arrivals: Seq<Arrival>) -> bool {
    exists|i: int| 0 <= i < arrivals.len() && (#[trigger] arrivals[i]).marks_end()
}

/// Whether the actions deliver the block exactly once, and nothing else.
pub open spec fn delivers_once(actions: Seq<ImportActionView>, block: Seq<u8>) -> bool {
    exists|i: int|
        0 <= i < actions.len() && #[trigger] actions[i] == ImportActionView::DeliverBlock(block)
            && delivers_only_at(actions, i)
}

/// Whether the actions deliver nothing but at place `i`.
pub open spec fn delivers_only_at(actions: Seq<ImportActionView>, i: int) -> bool {
    forall|j: int|
        0 <= j < actions.len() && (#[trigger] actions[j]) is DeliverBlock ==> j == i
}

/// The state of a session while the segments of a block arrive.
spec fn on_the_way(
    m: ImportModel,
    actions: Seq<ImportActionView>,
    config: ImportConfig,
    block: Seq<u8>,
    arrivals: Seq<Arrival>,
) -> bool {
    &&& m.config == config
    &&& match m.state {
        ImportState::Receiving => {
            &&& m.color is Some ==> m.color->0 == SegmentColor::Red
            &&& import::consistent(m)
            &&& forall|p: int| #[trigger]
                extents::covered(m.extents, p) <==> carried(arrivals, p)
            &&& forall|p: int| #[trigger]
                extents::covered(m.extents, p) ==> m.block[p] == block[p]
            &&& m.end == if end_marked(arrivals) {
                Some(block.len() as u64)
            } else {
                None
            }
            &&& !import::block_complete(m)
            &&& delivers_only_at(actions, -1)
        },
        ImportState::Complete => delivers_once(actions, block),
        ImportState::Cancelled => false,
    }
}

proof fn lemma_carried_push(arrivals: Seq<Arrival>)
    requires
        arrivals.len() > 0,
    ensures
        forall|p: int| #[trigger]
            carried(arrivals, p) <==> carried(arrivals.drop_last(), p) || arrivals.last().carries(p),
        end_marked(arrivals) <==> end_marked(arrivals.drop_last()) || arrivals.last().marks_end(),
{
    let init = arrivals.drop_last();
    let n = arrivals.len() - 1;
    assert forall|p: int| #[trigger]
        carried(arrivals, p) <==> carried(init, p) || arrivals.last().carries(p) by {
        if carried(arrivals, p) && !arrivals.last().carries(p) {
            let i = choose|i: int| 0 <= i < arrivals.len() && (#[trigger] arrivals[i]).carries(p);
            assert(init[i] == arrivals[i]);
        }
        if carried(init, p) {
            let i = choose|i: int| 0 <= i < init.len() && (#[trigger] init[i]).carries(p);
            assert(init[i] == arrivals[i]);
        }
        if arrivals.last().carries(p) {
            assert(arrivals[n].carries(p));
        }
    }
    if end_marked(arrivals) && !arrivals.last().marks_end() {
        let i = choose|i: int| 0 <= i < arrivals.len() && (#[trigger] arrivals[i]).marks_end();
        assert(init[i] == arrivals[i]);
    }
    if end_marked(init) {
        let i = choose|i: int| 0 <= i < init.len() && (#[trigger] init[i]).marks_end();
        assert(init[i] == arrivals[i]);
    }
    if arrivals.last().marks_end() {
        assert(arrivals[n].marks_end());
    }
}

/// Answering a segment without limits changes no more than the report counter
/// and delivers nothing.
proof fn lemma_answer_delivers_nothing(
    m: ImportModel,
    segment_type: SegmentType,
    upper: u64,
    checkpoint: Option<CheckpointInfo>,
)
    requires
        m.config.max_reports is None,
    ensures
        ({
            let (last, actions) = import::answered(m, segment_type, upper, checkpoint);
            &&& last == (ImportModel { reports: last.reports, ..m })
            &&& delivers_only_at(actions, -1)
        }),
{
    if checkpoint is Some {
        lemma_unlimited_reports(m, checkpoint->0.serial, import::report_plan(m, upper));
    }
    if m.end is Some {
        lemma_unlimited_reports(m, 0, import::report_plan(m, m.end->0));
    }
}

proof fn lemma_step_on_the_way(
    m: ImportModel,
    actions: Seq<ImportActionView>,
    config: ImportConfig,
    block: Seq<u8>,
    arrivals: Seq<Arrival>,
)
    requires
        arrivals.len() > 0,
        block.len() <= u64::MAX,
        config.max_reports is None,
        config.max_red_data_bytes is Some ==> block.len() <= config.max_red_data_bytes->0,
        arrivals.last().is_part_of(block, config.expected_client_service_id),
        on_the_way(m, actions, config, block, arrivals.drop_last()),
    ensures
        on_the_way(
            arrived(m, arrivals.last()).0,
            actions + arrived(m, arrivals.last()).1,
            config,
            block,
            arrivals,
        ),
{
    let a = arrivals.last();
    let (after, more) = arrived(m, a);
    let all = actions + more;
    if m.state == ImportState::Complete {
        assert(all == actions);
    } else {
        lemma_carried_push(arrivals);
        let end = (a.offset + a.data.len()) as u64;
        let next = import::recorded(m, a.segment_type, a.offset, a.data);
        assert(import::refusal(m, a.segment_type, a.client_service_id, end as int) is None);
        let step = import::answered(next, a.segment_type, end, a.checkpoint);
        lemma_answer_delivers_nothing(next, a.segment_type, end, a.checkpoint);
        extents::insert_adds_the_range(m.extents, a.offset, end);
        import::recording_keeps_consistency(m, a.segment_type, a.offset, a.data);
        assert forall|p: int| #[trigger] extents::covered(next.extents, p) implies next.block[p]
            == block[p] by {
            import::covered_positions_lie_in_the_block(next, p);
            if a.offset <= p < end {
                assert(a.data[p - a.offset] == block[p]);
            } else {
                assert(extents::covered(m.extents, p));
                import::covered_positions_lie_in_the_block(m, p);
            }
        }
        if import::block_complete(next) {
            assert(next.end == Some(block.len() as u64));
            extents::complete_means_no_gaps(next.extents, 0, block.len() as u64);
            if block.len() > 0 {
                import::covered_positions_lie_in_the_block(next, block.len() - 1);
            }
            assert(next.block.take(block.len() as int) == block) by {
                assert forall|p: int| 0 <= p < block.len() implies next.block[p] == block[p] by {
                    assert(extents::covered(next.extents, p));
                }
            }
            let at = actions.len() + step.1.len();
            assert(more == step.1.push(ImportActionView::DeliverBlock(block)));
            assert(all[at as int] == ImportActionView::DeliverBlock(block));
            assert forall|j: int| 0 <= j < all.len() && (#[trigger] all[j]) is DeliverBlock implies j
                == at by {
                if j < actions.len() {
                    assert(all[j] == actions[j]);
                } else if j < at {
                    assert(all[j] == step.1[j - actions.len()]);
                }
            }
            assert(delivers_only_at(all, at as int));
        } else {
            assert(more == step.1);
            assert forall|j: int| 0 <= j < all.len() && (#[trigger] all[j]) is DeliverBlock implies j
                == -1 by {
                if j < actions.len() {
                    assert(all[j] == actions[j]);
                } else {
                    assert(all[j] == step.1[j - actions.len()]);
                }
            }
        }
    }
}

proof fn lemma_all_on_the_way(
    id: SessionId,
    config: ImportConfig,
    block: Seq<u8>,
    arrivals: Seq<Arrival>,
)
    requires
        block.len() <= u64::MAX,
        config.max_reports is None,
        config.max_red_data_bytes is Some ==> block.len() <= config.max_red_data_bytes->0,
        forall|i: int|
            0 <= i < arrivals.len() ==> (#[trigger] arrivals[i]).is_part_of(
                block,
                config.expected_client_service_id,
            ),
    ensures
        ({
            let (m, actions) = all_arrived(import::fresh(id, config), arrivals);
            on_the_way(m, actions, config, block, arrivals)
        }),
    decreases arrivals.len(),
{
    let m0 = import::fresh(id, config);
    if arrivals.len() == 0 {
    } else {
        let init = arrivals.drop_last();
        assert forall|i: int| 0 <= i < init.len() implies (#[trigger] init[i]).is_part_of(
            block,
            config.expected_client_service_id,
        ) by {
            assert(init[i] == arrivals[i]);
        }
        lemma_all_on_the_way(id, config, block, init);
        let (m, actions) = all_arrived(m0, init);
        assert(arrivals[arrivals.len() - 1].is_part_of(block, config.expected_client_service_id));
        lemma_step_on_the_way(m, actions, config, block, arrivals);
    }
}

/// A session without limits that is given red segments of a block delivers the
/// block: in whatever order, however cut, and however often the segments arrive,
/// once every byte and an end mark have come the session is complete and has
/// delivered exactly that block, exactly once.
pub proof fn complete_block_is_delivered(
    id: SessionId,
    config: ImportConfig,
    block: Seq<u8>,
    arrivals: Seq<Arrival>,
)
    requires
        block.len() <= u64::MAX,
        config.max_reports is None,
        config.max_red_data_bytes is Some ==> block.len() <= config.max_red_data_bytes->0,
        forall|i: int|
            0 <= i < arrivals.len() ==> (#[trigger] arrivals[i]).is_part_of(
                block,
                config.expected_client_service_id,
            ),
        forall|p: int| 0 <= p < block.len() ==> #[trigger] carried(arrivals, p),
        end_marked(arrivals),
    ensures
        all_arrived(import::fresh(id, config), arrivals).0.state == ImportState::Complete,
        delivers_once(all_arrived(import::fresh(id, config), arrivals).1, block),
{
    lemma_all_on_the_way(id, config, block, arrivals);
    let (m, actions) = all_arrived(import::fresh(id, config), arrivals);
    if m.state == ImportState::Receiving {
        assert forall|p: int| 0 <= p < block.len() implies extents::covered(m.extents, p) by {
            assert(carried(arrivals, p));
        }
        extents::complete_means_no_gaps(m.extents, 0, block.len() as u64);
    }
}

/// While bytes of the block or the end mark are missing, such a session goes on
/// receiving and delivers nothing.
pub proof fn incomplete_block_is_not_delivered(
    id: SessionId,
    config: ImportConfig,
    block: Seq<u8>,
    arrivals: Seq<Arrival>,
)
    requires
        block.len() <= u64::MAX,
        config.max_reports is None,
        config.max_red_data_bytes is Some ==> block.len() <= config.max_red_data_bytes->0,
        forall|i: int|
            0 <= i < arrivals.len() ==> (#[trigger] arrivals[i]).is_part_of(
                block,
                config.expected_client_service_id,
            ),
        !end_marked(arrivals) || exists|p: int| 0 <= p < block.len() && !#[trigger] carried(
            arrivals,
            p,
        ),
    ensures
        all_arrived(import::fresh(id, config), arrivals).0.state == ImportState::Receiving,
        delivers_only_at(all_arrived(import::fresh(id, config), arrivals).1, -1),
    decreases arrivals.len(),
{
    lemma_all_on_the_way(id, config, block, arrivals);
    if arrivals.len() > 0 {
        let init = arrivals.drop_last();
        assert forall|i: int| 0 <= i < init.len() implies (#[trigger] init[i]).is_part_of(
            block,
            config.expected_client_service_id,
        ) by {
            assert(init[i] == arrivals[i]);
        }
        lemma_carried_push(arrivals);
        incomplete_block_is_not_delivered(id, config, block, init);
        lemma_all_on_the_way(id, config, block, init);
        let (m, actions) = all_arrived(import::fresh(id, config), init);
        let a = arrivals.last();
        assert(arrivals[arrivals.len() - 1].is_part_of(block, config.expected_client_service_id));
        let end = (a.offset + a.data.len()) as u64;
        let next = import::recorded(m, a.segment_type, a.offset, a.data);
        extents::insert_adds_the_range(m.extents, a.offset, end);
        lemma_answer_delivers_nothing(next, a.segment_type, end, a.checkpoint);
        if import::block_complete(next) {
            extents::complete_means_no_gaps(next.extents, 0, block.len() as u64);
            assert forall|p: int| 0 <= p < block.len() implies carried(arrivals, p) by {
                assert(extents::covered(next.extents, p));
            }
        }
    }
}

/// Whether the pieces, in this order, are a block cut into consecutive nonempty
/// red segments for the client service, of which the last one marks the end of
/// the block and is a checkpoint.
pub open spec fn is_cut(block: Seq<u8>, pieces: Seq<Arrival>, client_service_id: u64) -> bool {
    &&& pieces.len() > 0
    &&& pieces[0].offset == 0
    &&& forall|i: int|
        0 <= i < pieces.len() ==> {
            &&& (#[trigger] pieces[i]).is_part_of(block, client_service_id)
            &&& pieces[i].data.len() > 0
        }
    &&& forall|i: int, j: int|
        0 <= i && j == i + 1 && j < pieces.len() ==> {
            &&& (#[trigger] pieces[i]).segment_type == SegmentType::RedData
            &&& pieces[i].offset + pieces[i].data.len() == (#[trigger] pieces[j]).offset
        }
    &&& pieces.last().segment_type == SegmentType::RedEob
    &&& pieces.last().checkpoint is Some
}

/// Whether the list holds each of the first `n` indices once, in some order.
pub open spec fn each_once(order: Seq<int>, n: nat) -> bool {
    &&& order.no_duplicates()
    &&& forall|i: int| #[trigger] order.contains(i) <==> 0 <= i < n
}

/// The pieces in the order in which they arrive.
pub open spec fn in_order(pieces: Seq<Arrival>, order: Seq<int>) -> Seq<Arrival> {
    Seq::new(order.len(), |k: int| pieces[order[k]])
}

/// What the arrival of segment `k` leads to, after those before it.
pub open spec fn arrival_step(m: ImportModel, arrivals: Seq<Arrival>, k: int) -> ImportStep {
    arrived(all_arrived(m, arrivals.take(k)).0, arrivals[k])
}

/// Whether segment `k` can be handled when its turn comes.
pub open spec fn arrival_receivable(m: ImportModel, arrivals: Seq<Arrival>, k: int) -> bool {
    let a = arrivals[k];
    import::receivable(
        all_arrived(m, arrivals.take(k)).0,
        a.segment_type,
        a.client_service_id,
        a.offset,
        a.data,
        a.checkpoint,
    )
}

/// Segments that arrive one after the other are handled one after the other.
pub proof fn arrivals_are_handled_in_turn(m: ImportModel, arrivals: Seq<Arrival>, k: int)
    requires
        0 <= k < arrivals.len(),
    ensures
        all_arrived(m, arrivals.take(0)) == (m, Seq::<ImportActionView>::empty()),
        all_arrived(m, arrivals.take(k + 1)) == (
            arrival_step(m, arrivals, k).0,
            all_arrived(m, arrivals.take(k)).1 + arrival_step(m, arrivals, k).1,
        ),
        all_arrived(m, arrivals.take(arrivals.len() as int)) == all_arrived(m, arrivals),
{
    assert(arrivals.take(k + 1).drop_last() == arrivals.take(k));
    assert(arrivals.take(k + 1).last() == arrivals[k]);
    assert(arrivals.take(arrivals.len() as int) == arrivals);
}

proof fn lemma_pieces_in_line(
    block: Seq<u8>,
    pieces: Seq<Arrival>,
    client_service_id: u64,
    i: int,
    j: int,
)
    requires
        is_cut(block, pieces, client_service_id),
        0 <= i < j < pieces.len(),
    ensures
        pieces[i].offset + pieces[i].data.len() <= pieces[j].offset,
    decreases j - i,
{
    assert(pieces[i + 1].offset == pieces[i].offset + pieces[i].data.len());
    if i + 1 < j {
        lemma_pieces_in_line(block, pieces, client_service_id, i + 1, j);
    }
}

proof fn lemma_piece_types(
    block: Seq<u8>,
    pieces: Seq<Arrival>,
    client_service_id: u64,
    i: int,
)
    requires
        is_cut(block, pieces, client_service_id),
        0 <= i < pieces.len(),
    ensures
        pieces[i].segment_type == if i == pieces.len() - 1 {
            SegmentType::RedEob
        } else {
            SegmentType::RedData
        },
{
    if i < pieces.len() - 1 {
        assert(pieces[i + 1].offset == pieces[i].offset + pieces[i].data.len());
    }
}

proof fn lemma_pieces_carry(
    block: Seq<u8>,
    pieces: Seq<Arrival>,
    client_service_id: u64,
    k: int,
    p: int,
)
    requires
        is_cut(block, pieces, client_service_id),
        0 <= k < pieces.len(),
        0 <= p < pieces[k].offset + pieces[k].data.len(),
    ensures
        carried(pieces, p),
    decreases k,
{
    if pieces[k].offset <= p {
        assert(pieces[k].carries(p));
    } else {
        assert(pieces[k - 1].offset + pieces[k - 1].data.len() == pieces[k].offset);
        lemma_pieces_carry(block, pieces, client_service_id, k - 1, p);
    }
}

/// While a piece is missing, those that have come are parts of the block and
/// leave a byte of it out.
proof fn lemma_prefix_is_incomplete(
    block: Seq<u8>,
    pieces: Seq<Arrival>,
    client_service_id: u64,
    order: Seq<int>,
    k: int,
)
    requires
        is_cut(block, pieces, client_service_id),
        each_once(order, pieces.len()),
        0 <= k < order.len(),
    ensures
        forall|i: int|
            0 <= i < k ==> (#[trigger] in_order(pieces, order).take(k)[i]).is_part_of(
                block,
                client_service_id,
            ),
        exists|p: int|
            0 <= p < block.len() && !#[trigger] carried(in_order(pieces, order).take(k), p),
{
    let init = in_order(pieces, order).take(k);
    assert forall|i: int| 0 <= i < k implies (#[trigger] init[i]).is_part_of(
        block,
        client_service_id,
    ) by {
        assert(order.contains(order[i]));
        assert(init[i] == pieces[order[i]]);
    }
    assert(order.contains(order[k]));
    let missing = pieces[order[k]];
    let p = missing.offset as int;
    assert(missing.is_part_of(block, client_service_id) && missing.data.len() > 0);
    if carried(init, p) {
        let i = choose|i: int| 0 <= i < init.len() && (#[trigger] init[i]).carries(p);
        assert(init[i] == pieces[order[i]]);
        assert(order.contains(order[i]));
        assert(order[i] != order[k]);
        if order[i] < order[k] {
            lemma_pieces_in_line(block, pieces, client_service_id, order[i], order[k]);
        } else {
            lemma_pieces_in_line(block, pieces, client_service_id, order[k], order[i]);
        }
    }
    assert(!carried(init, p));
}

/// The pieces in any order are parts of the block, and all of it.
proof fn lemma_pieces_are_complete(
    block: Seq<u8>,
    pieces: Seq<Arrival>,
    client_service_id: u64,
    order: Seq<int>,
)
    requires
        is_cut(block, pieces, client_service_id),
        each_once(order, pieces.len()),
    ensures
        ({
            let arrivals = in_order(pieces, order);
            &&& forall|i: int|
                0 <= i < arrivals.len() ==> (#[trigger] arrivals[i]).is_part_of(
                    block,
                    client_service_id,
                )
            &&& forall|p: int| 0 <= p < block.len() ==> #[trigger] carried(arrivals, p)
            &&& end_marked(arrivals)
        }),
{
    let arrivals = in_order(pieces, order);
    let n = pieces.len() - 1;
    assert forall|i: int| 0 <= i < arrivals.len() implies (#[trigger] arrivals[i]).is_part_of(
        block,
        client_service_id,
    ) by {
        assert(order.contains(order[i]));
        assert(arrivals[i] == pieces[order[i]]);
    }
    assert(pieces[n].is_part_of(block, client_service_id));
    assert forall|p: int| 0 <= p < block.len() implies #[trigger] carried(arrivals, p) by {
        lemma_pieces_carry(block, pieces, client_service_id, n, p);
        let i = choose|i: int| 0 <= i < pieces.len() && (#[trigger] pieces[i]).carries(p);
        assert(order.contains(i));
        let k = choose|k: int| 0 <= k < order.len() && order[k] == i;
        assert(arrivals[k].carries(p));
    }
    assert(order.contains(n));
    let k = choose|k: int| 0 <= k < order.len() && order[k] == n;
    assert(arrivals[k].marks_end());
}

/// Ranges that do not touch take a position each and another between them.
proof fn lemma_extents_are_few(xs: Seq<(u64, u64)>, len: nat)
    requires
        extents::canonical(xs),
        forall|i: int| 0 <= i < xs.len() ==> (#[trigger] xs[i]).1 <= len,
    ensures
        2 * xs.len() <= len + 1,
    decreases xs.len(),
{
    if xs.len() > 1 {
        let init = xs.drop_last();
        let z = xs.len() - 1;
        assert forall|i: int| 0 <= i < init.len() implies (#[trigger] init[i]).1 <= xs[z].0 - 1 by {
            assert(init[i] == xs[i]);
        }
        assert(xs[z - 1].1 < xs[z].0);
        lemma_extents_are_few(init, (xs[z].0 - 1) as nat);
    } else if xs.len() == 1 {
        assert(xs[0].0 < xs[0].1);
    }
}

/// While pieces of a block arrive, of which one at most is a checkpoint, the
/// session holds no more bytes than the block, no more extents than pieces have
/// come, and has sent no more reports than there can be extents, and one more.
proof fn lemma_run_stays_small(
    id: SessionId,
    config: ImportConfig,
    block: Seq<u8>,
    arrivals: Seq<Arrival>,
)
    requires
        block.len() <= u64::MAX,
        config.max_reports is None,
        config.max_red_data_bytes is Some ==> block.len() <= config.max_red_data_bytes->0,
        forall|i: int|
            0 <= i < arrivals.len() ==> {
                &&& (#[trigger] arrivals[i]).is_part_of(block, config.expected_client_service_id)
                &&& arrivals[i].segment_type == SegmentType::RedData
                    || arrivals[i].segment_type == SegmentType::RedEob
            },
        forall|i: int, j: int|
            0 <= i < arrivals.len() && 0 <= j < arrivals.len() && (#[trigger] arrivals[i]).marks_end()
                && (#[trigger] arrivals[j]).marks_end() ==> i == j,
        exists|p: int| 0 <= p < block.len() && !#[trigger] carried(arrivals, p),
    ensures
        ({
            let m = all_arrived(import::fresh(id, config), arrivals).0;
            &&& m.block.len() <= block.len()
            &&& m.extents.len() <= arrivals.len()
            &&& 2 * m.reports <= if end_marked(arrivals) {
                block.len() + 3
            } else {
                0
            }
        }),
    decreases arrivals.len(),
{
    if arrivals.len() > 0 {
        let init = arrivals.drop_last();
        let a = arrivals.last();
        let m0 = import::fresh(id, config);
        let m = all_arrived(m0, init).0;
        assert forall|i: int| 0 <= i < init.len() implies {
            &&& (#[trigger] init[i]).is_part_of(block, config.expected_client_service_id)
            &&& init[i].segment_type == SegmentType::RedData || init[i].segment_type
                == SegmentType::RedEob
        } by {
            assert(init[i] == arrivals[i]);
        }
        assert forall|i: int, j: int|
            0 <= i < init.len() && 0 <= j < init.len() && (#[trigger] init[i]).marks_end() && (
            #[trigger] init[j]).marks_end() implies i == j by {
            assert(init[i] == arrivals[i]);
            assert(init[j] == arrivals[j]);
        }
        lemma_carried_push(arrivals);
        let p = choose|p: int| 0 <= p < block.len() && !#[trigger] carried(arrivals, p);
        assert(!carried(init, p));
        lemma_run_stays_small(id, config, block, init);
        incomplete_block_is_not_delivered(id, config, block, init);
        incomplete_block_is_not_delivered(id, config, block, arrivals);
        lemma_all_on_the_way(id, config, block, init);
        assert(arrivals[arrivals.len() - 1].is_part_of(block, config.expected_client_service_id));
        let end = (a.offset + a.data.len()) as u64;
        let next = import::recorded(m, a.segment_type, a.offset, a.data);
        assert(import::refusal(m, a.segment_type, a.client_service_id, end as int) is None);
        extents::insert_adds_the_range(m.extents, a.offset, end);
        assert(!import::block_complete(next));
        lemma_answer_delivers_nothing(next, a.segment_type, end, a.checkpoint);
        let after = arrived(m, a).0;
        assert(after == import::answered(next, a.segment_type, end, a.checkpoint).0);
        if a.marks_end() {
            assert(!end_marked(init)) by {
                if end_marked(init) {
                    let i = choose|i: int|
                        0 <= i < init.len() && (#[trigger] init[i]).marks_end();
                    assert(init[i] == arrivals[i]);
                    assert(arrivals[arrivals.len() - 1].marks_end());
                }
            }
            if a.checkpoint is Some {
                let claims = import::claims_within(next.extents, 0, end);
                lemma_claims_are_few(next.extents, 0, end);
                lemma_windows_fit(claims, config.max_claims_per_report as nat, end);
                import::recording_keeps_consistency(m, a.segment_type, a.offset, a.data);
                lemma_extents_are_few(next.extents, block.len());
                lemma_unlimited_reports(
                    next,
                    a.checkpoint->0.serial,
                    import::report_plan(next, end),
                );
            }
        }
    }
}

proof fn lemma_piece_receivable(
    id: SessionId,
    config: ImportConfig,
    block: Seq<u8>,
    pieces: Seq<Arrival>,
    order: Seq<int>,
    k: int,
)
    requires
        block.len() <= isize::MAX,
        config.max_reports is None,
        config.max_red_data_bytes is Some ==> block.len() <= config.max_red_data_bytes->0,
        config.max_claims_per_report > 0,
        is_cut(block, pieces, config.expected_client_service_id),
        each_once(order, pieces.len()),
        0 <= k < order.len(),
    ensures
        ({
            let m = import::fresh(id, config);
            let arrivals = in_order(pieces, order);
            let sendable = import::sendable(arrival_step(m, arrivals, k).1);
            &&& arrival_receivable(m, arrivals, k) <==> sendable
            &&& reports_fit(most_claims(config, order.len())) ==> sendable
        }),
{
    let arrivals = in_order(pieces, order);
    let init = arrivals.take(k);
    let a = arrivals[k];
    let m = all_arrived(import::fresh(id, config), init).0;
    let csid = config.expected_client_service_id;
    lemma_prefix_is_incomplete(block, pieces, csid, order, k);
    incomplete_block_is_not_delivered(id, config, block, init);
    lemma_all_on_the_way(id, config, block, init);
    assert forall|i: int| 0 <= i < init.len() implies {
        &&& (#[trigger] init[i]).is_part_of(block, csid)
        &&& init[i].segment_type == SegmentType::RedData || init[i].segment_type
            == SegmentType::RedEob
    } by {
        assert(order.contains(order[i]));
        lemma_piece_types(block, pieces, csid, order[i]);
        assert(init[i] == pieces[order[i]]);
    }
    assert forall|i: int, j: int|
        0 <= i < init.len() && 0 <= j < init.len() && (#[trigger] init[i]).marks_end() && (
        #[trigger] init[j]).marks_end() implies i == j by {
        assert(order.contains(order[i]) && order.contains(order[j]));
        lemma_piece_types(block, pieces, csid, order[i]);
        lemma_piece_types(block, pieces, csid, order[j]);
        assert(init[i] == pieces[order[i]]);
        assert(init[j] == pieces[order[j]]);
    }
    lemma_run_stays_small(id, config, block, init);
    assert(order.contains(order[k]));
    assert(a.is_part_of(block, csid));
    lemma_extents_are_few(m.extents, block.len());
    if reports_fit(most_claims(config, order.len())) {
        receiving_is_representable(
            m,
            a.segment_type,
            a.client_service_id,
            a.offset,
            a.data,
            a.checkpoint,
        );
    }
    let end = (a.offset + a.data.len()) as u64;
    let next = import::recorded(m, a.segment_type, a.offset, a.data);
    import::recording_keeps_consistency(m, a.segment_type, a.offset, a.data);
    lemma_extents_are_few(next.extents, block.len());
    lemma_answer_is_short(next, a.segment_type, end, a.checkpoint);
    assert(import::refusal(m, a.segment_type, a.client_service_id, end as int) is None);
}

/// Answering a segment sends no more reports than there are extents, and one
/// more.
proof fn lemma_answer_is_short(
    m: ImportModel,
    segment_type: SegmentType,
    upper: u64,
    checkpoint: Option<CheckpointInfo>,
)
    ensures
        ({
            let last = import::answered(m, segment_type, upper, checkpoint).0;
            &&& last.block == m.block
            &&& last.reports <= m.reports + m.extents.len() + 1
        }),
{
    let max = m.config.max_claims_per_report as nat;
    if checkpoint is Some {
        lemma_claims_are_few(m.extents, 0, upper);
        lemma_windows_fit(import::claims_within(m.extents, 0, upper), max, upper);
        import::reporting_changes_only_the_counter(
            m,
            checkpoint->0.serial,
            import::report_plan(m, upper),
        );
    }
    if m.end is Some {
        lemma_claims_are_few(m.extents, 0, m.end->0);
        lemma_windows_fit(import::claims_within(m.extents, 0, m.end->0), max, m.end->0);
        import::reporting_changes_only_the_counter(m, 0, import::report_plan(m, m.end->0));
    }
}

/// A nonempty block is delivered by its last piece. Where a block is cut into
/// consecutive nonempty pieces, and each is given once, in whatever order, to a
/// new session without limits that can make out a report, the session goes on
/// receiving and delivers nothing until the last one comes; and with that one it
/// delivers exactly the block, exactly once, and is complete.
///
/// This holds of any number of pieces. A piece can be handled when its turn
/// comes if and only if the segments that answer it fit in memory. They all do
/// where the longest report that the session may send fits: a session that
/// splits its reports into ones that fit handles any number of pieces.
pub proof fn last_piece_delivers_the_block(
    id: SessionId,
    config: ImportConfig,
    block: Seq<u8>,
    pieces: Seq<Arrival>,
    order: Seq<int>,
)
    requires
        block.len() <= isize::MAX,
        config.max_reports is None,
        config.max_red_data_bytes is Some ==> block.len() <= config.max_red_data_bytes->0,
        config.max_claims_per_report > 0,
        is_cut(block, pieces, config.expected_client_service_id),
        each_once(order, pieces.len()),
    ensures
        ({
            let m = import::fresh(id, config);
            let arrivals = in_order(pieces, order);
            &&& arrivals.len() > 0
            &&& forall|k: int|
                0 <= k < arrivals.len() ==> (#[trigger] arrival_receivable(m, arrivals, k)
                    <==> import::sendable(arrival_step(m, arrivals, k).1))
            &&& reports_fit(most_claims(config, arrivals.len())) ==> forall|k: int|
                0 <= k < arrivals.len() ==> #[trigger] arrival_receivable(m, arrivals, k)
            &&& forall|k: int|
                0 <= k < arrivals.len() - 1 ==> {
                    let (after, actions) = #[trigger] arrival_step(m, arrivals, k);
                    &&& after.state == ImportState::Receiving
                    &&& delivers_only_at(actions, -1)
                }
            &&& ({
                let (after, actions) = arrival_step(m, arrivals, arrivals.len() - 1);
                &&& after.state == ImportState::Complete
                &&& delivers_once(actions, block)
            })
            &&& delivers_once(all_arrived(m, arrivals).1, block)
        }),
{
    let m = import::fresh(id, config);
    let arrivals = in_order(pieces, order);
    let n = arrivals.len() as int;
    assert(order.contains(0));
    assert forall|k: int| 0 <= k < n implies (#[trigger] arrival_receivable(m, arrivals, k)
        <==> import::sendable(arrival_step(m, arrivals, k).1)) && (reports_fit(
        most_claims(config, order.len()),
    ) ==> arrival_receivable(m, arrivals, k)) by {
        lemma_piece_receivable(id, config, block, pieces, order, k);
    }
    assert forall|k: int| 0 <= k < n - 1 implies {
        let (after, actions) = #[trigger] arrival_step(m, arrivals, k);
        &&& after.state == ImportState::Receiving
        &&& delivers_only_at(actions, -1)
    } by {
        let (after, actions) = arrival_step(m, arrivals, k);
        lemma_prefix_is_incomplete(
            block,
            pieces,
            config.expected_client_service_id,
            order,
            k + 1,
        );
        incomplete_block_is_not_delivered(id, config, block, arrivals.take(k + 1));
        arrivals_are_handled_in_turn(m, arrivals, k);
        let before = all_arrived(m, arrivals.take(k)).1;
        let all = before + actions;
        assert forall|j: int| 0 <= j < actions.len() && (
        #[trigger] actions[j]) is DeliverBlock implies j == -1 by {
            assert(all[before.len() + j] == actions[j]);
        }
    }
    lemma_pieces_are_complete(block, pieces, config.expected_client_service_id, order);
    complete_block_is_delivered(id, config, block, arrivals);
    lemma_prefix_is_incomplete(block, pieces, config.expected_client_service_id, order, n - 1);
    incomplete_block_is_not_delivered(id, config, block, arrivals.take(n - 1));
    arrivals_are_handled_in_turn(m, arrivals, n - 1);
    let before = all_arrived(m, arrivals.take(n - 1)).1;
    let actions = arrival_step(m, arrivals, n - 1).1;
    let all = before + actions;
    assert(all == all_arrived(m, arrivals).1);
    let at = choose|i: int|
        0 <= i < all.len() && #[trigger] all[i] == ImportActionView::DeliverBlock(block)
            && delivers_only_at(all, i);
    if at < before.len() {
        assert(before[at] == all[at]);
        assert(before[at] is DeliverBlock);
    }
    let place = at - before.len();
    assert(actions[place] == all[at]);
    assert forall|j: int| 0 <= j < actions.len() && (
    #[trigger] actions[j]) is DeliverBlock implies j == place by {
        assert(all[before.len() + j] == actions[j]);
    }
    assert(delivers_only_at(actions, place));
}

/// A segment that arrives again changes neither the received data nor the
/// received ranges.
pub proof fn duplicate_changes_nothing_received(
    m: ImportModel,
    segment_type: SegmentType,
    offset: u64,
    data: Seq<u8>,
)
    requires
        import::consistent(m),
        offset + data.len() <= u64::MAX,
    ensures
        ({
            let once = import::recorded(m, segment_type, offset, data);
            import::recorded(once, segment_type, offset, data) == once
        }),
{
    let end = (offset + data.len()) as u64;
    let once = import::recorded(m, segment_type, offset, data);
    extents::insert_adds_the_range(m.extents, offset, end);
    extents::insert_of_covered_range_changes_nothing(once.extents, offset, end);
    assert(import::overwritten(once.block, offset, data) == once.block);
}

// ---------------------------------------------------------------------------
// Green data
// ---------------------------------------------------------------------------
impl Arrival {
    /// The end of the segment's data.
    pub open spec fn end(self) -> nat {
        self.offset as nat + self.data.len()
    }

    /// The byte that the segment carries at position `p`.
    pub open spec fn byte_at(self, p: int) -> u8 {
        self.data[p - self.offset]
    }
}

/// The byte that the last of the segments to carry position `p` carries there.
pub open spec fn byte_received(arrivals: Seq<Arrival>, p: int) -> Option<u8>
    decreases arrivals.len(),
{
    if arrivals.len() == 0 {
        None
    } else if arrivals.last().carries(p) {
        Some(arrivals.last().byte_at(p))
    } else {
        byte_received(arrivals.drop_last(), p)
    }
}

/// The first `len` positions of a block: each holds the byte last received
/// there, and 0 where none was.
pub open spec fn laid_out(arrivals: Seq<Arrival>, len: nat) -> Seq<u8> {
    Seq::new(
        len,
        |p: int|
            match byte_received(arrivals, p) {
                Some(byte) => byte,
                None => 0u8,
            },
    )
}

/// The furthest end of the segments.
pub open spec fn reach(arrivals: Seq<Arrival>) -> nat
    decreases arrivals.len(),
{
    if arrivals.len() == 0 {
        0
    } else {
        let before = reach(arrivals.drop_last());
        if arrivals.last().end() > before {
            arrivals.last().end()
        } else {
            before
        }
    }
}

/// A byte is received at a position exactly where a segment carries it, and it
/// is the one of a segment after which no other carries that position.
pub proof fn byte_received_is_the_last_one(arrivals: Seq<Arrival>, p: int)
    ensures
        byte_received(arrivals, p) is Some <==> carried(arrivals, p),
        byte_received(arrivals, p) is Some ==> exists|i: int|
            {
                &&& 0 <= i < arrivals.len()
                &&& (#[trigger] arrivals[i]).carries(p)
                &&& byte_received(arrivals, p) == Some(arrivals[i].byte_at(p))
                &&& forall|j: int| i < j < arrivals.len() ==> !(#[trigger] arrivals[j]).carries(p)
            },
    decreases arrivals.len(),
{
    if arrivals.len() > 0 {
        let init = arrivals.drop_last();
        let z = arrivals.len() - 1;
        lemma_carried_push(arrivals);
        byte_received_is_the_last_one(init, p);
        if arrivals.last().carries(p) {
            assert(arrivals[z].carries(p));
        } else if byte_received(init, p) is Some {
            let i = choose|i: int|
                {
                    &&& 0 <= i < init.len()
                    &&& (#[trigger] init[i]).carries(p)
                    &&& byte_received(init, p) == Some(init[i].byte_at(p))
                    &&& forall|j: int| i < j < init.len() ==> !(#[trigger] init[j]).carries(p)
                };
            assert(init[i] == arrivals[i]);
            assert forall|j: int| i < j < arrivals.len() implies !(#[trigger] arrivals[j]).carries(
                p,
            ) by {
                if j < z {
                    assert(init[j] == arrivals[j]);
                }
            }
        }
    }
}

/// Whether the segments are green data, without an end mark, that a new session
/// takes in: every segment ends within the range of offsets, and the first one
/// is for the expected client service.
pub open spec fn is_green_data(arrivals: Seq<Arrival>, config: ImportConfig) -> bool {
    &&& arrivals.len() > 0 ==> arrivals[0].client_service_id == config.expected_client_service_id
    &&& forall|i: int|
        0 <= i < arrivals.len() ==> {
            &&& (#[trigger] arrivals[i]).segment_type == SegmentType::GreenData
            &&& arrivals[i].end() <= u64::MAX
        }
}

/// Green data without an end mark is taken in and nothing else: a new session
/// goes on receiving, does nothing, and holds at each position up to the furthest
/// end the byte last received there, and 0 where none was.
pub proof fn green_data_is_laid_out(id: SessionId, config: ImportConfig, arrivals: Seq<Arrival>)
    requires
        is_green_data(arrivals, config),
    ensures
        ({
            let (m, actions) = all_arrived(import::fresh(id, config), arrivals);
            &&& m.state == ImportState::Receiving
            &&& actions == Seq::<ImportActionView>::empty()
            &&& m.config == config
            &&& m.color == if arrivals.len() == 0 {
                None
            } else {
                Some(SegmentColor::Green)
            }
            &&& m.end is None
            &&& m.reports == 0
            &&& m.block == laid_out(arrivals, reach(arrivals))
            &&& import::consistent(m)
            &&& forall|p: int| #[trigger]
                extents::covered(m.extents, p) <==> carried(arrivals, p)
        }),
    decreases arrivals.len(),
{
    if arrivals.len() > 0 {
        let init = arrivals.drop_last();
        let z = arrivals.len() - 1;
        let a = arrivals.last();
        assert forall|i: int| 0 <= i < init.len() implies {
            &&& (#[trigger] init[i]).segment_type == SegmentType::GreenData
            &&& init[i].end() <= u64::MAX
        } by {
            assert(init[i] == arrivals[i]);
        }
        if init.len() > 0 {
            assert(init[0] == arrivals[0]);
        }
        green_data_is_laid_out(id, config, init);
        assert(arrivals[z].segment_type == SegmentType::GreenData);
        let m = all_arrived(import::fresh(id, config), init).0;
        lemma_carried_push(arrivals);
        lemma_green_block(m.block, init, a);
        assert(init.push(a) == arrivals);
        extents::insert_adds_the_range(m.extents, a.offset, a.end() as u64);
        import::recording_keeps_consistency(m, a.segment_type, a.offset, a.data);
    }
}

/// Writing a segment into the block lays it out over what came before it.
proof fn lemma_green_block(block: Seq<u8>, init: Seq<Arrival>, a: Arrival)
    requires
        block == laid_out(init, reach(init)),
    ensures
        import::overwritten(block, a.offset, a.data) == laid_out(
            init.push(a),
            reach(init.push(a)),
        ),
{
    let arrivals = init.push(a);
    assert(arrivals.drop_last() == init);
    let next = import::overwritten(block, a.offset, a.data);
    assert forall|p: int| 0 <= p < next.len() implies next[p] == laid_out(
        arrivals,
        reach(arrivals),
    )[p] by {
        if !a.carries(p) && p >= block.len() {
            lemma_nothing_beyond_reach(init, p);
        }
    }
}

proof fn lemma_nothing_beyond_reach(arrivals: Seq<Arrival>, p: int)
    requires
        p >= reach(arrivals),
    ensures
        byte_received(arrivals, p) is None,
    decreases arrivals.len(),
{
    if arrivals.len() > 0 {
        lemma_nothing_beyond_reach(arrivals.drop_last(), p);
    }
}

proof fn lemma_reach_is_bounded(arrivals: Seq<Arrival>, bound: nat)
    requires
        forall|i: int| 0 <= i < arrivals.len() ==> (#[trigger] arrivals[i]).end() <= bound,
    ensures
        reach(arrivals) <= bound,
    decreases arrivals.len(),
{
    if arrivals.len() > 0 {
        let init = arrivals.drop_last();
        assert forall|i: int| 0 <= i < init.len() implies (#[trigger] init[i]).end() <= bound by {
            assert(init[i] == arrivals[i]);
        }
        lemma_reach_is_bounded(init, bound);
        assert(arrivals[arrivals.len() - 1].end() <= bound);
    }
}

/// Whether the segments up to number `e` are green data, and that one is the
/// first end mark. What comes after it may be anything.
pub open spec fn is_green_block(arrivals: Seq<Arrival>, e: int, config: ImportConfig) -> bool {
    &&& 0 <= e < arrivals.len()
    &&& is_green_data(arrivals.take(e), config)
    &&& arrivals[0].client_service_id == config.expected_client_service_id
    &&& arrivals[e].segment_type == SegmentType::GreenEob
    &&& arrivals[e].end() <= u64::MAX
}

/// The end mark delivers green data, with gaps or without: all that a new session
/// does is to deliver, once, the block up to the end mark. At each position the
/// block holds the byte last received there, and 0 where none was.
pub proof fn end_mark_delivers_green_data(
    id: SessionId,
    config: ImportConfig,
    arrivals: Seq<Arrival>,
    e: int,
)
    requires
        is_green_block(arrivals, e, config),
    ensures
        ({
            let m = import::fresh(id, config);
            let (last, actions) = all_arrived(m, arrivals);
            let block = laid_out(arrivals.take(e + 1), arrivals[e].end());
            &&& last.state == ImportState::Complete
            &&& actions == seq![ImportActionView::DeliverBlock(block)]
            &&& arrival_step(m, arrivals, e).1 == seq![ImportActionView::DeliverBlock(block)]
        }),
    decreases arrivals.len(),
{
    let m = import::fresh(id, config);
    let init = arrivals.drop_last();
    if e == arrivals.len() - 1 {
        let a = arrivals[e];
        assert(init == arrivals.take(e));
        assert(arrivals.take(e + 1) == arrivals);
        assert(init.push(a) == arrivals);
        if e > 0 {
            assert(init[0] == arrivals[0]);
        }
        green_data_is_laid_out(id, config, init);
        let before = all_arrived(m, init).0;
        lemma_green_block(before.block, init, a);
        let next = import::recorded(before, a.segment_type, a.offset, a.data);
        assert(next.block.take(a.end() as int) == laid_out(arrivals, a.end()));
        assert(arrived(before, a) == import::delivered((next, seq![])));
    } else {
        assert(init.take(e) == arrivals.take(e));
        assert(init.take(e + 1) == arrivals.take(e + 1));
        assert(init[0] == arrivals[0] && init[e] == arrivals[e]);
        end_mark_delivers_green_data(id, config, init, e);
    }
}

/// Green segments that end within what memory can address can all be handled
/// when their turn comes.
pub proof fn green_data_is_receivable(
    id: SessionId,
    config: ImportConfig,
    arrivals: Seq<Arrival>,
    e: int,
    k: int,
)
    requires
        is_green_block(arrivals, e, config),
        forall|i: int| 0 <= i <= e ==> (#[trigger] arrivals[i]).end() <= isize::MAX,
        0 <= k < arrivals.len(),
    ensures
        arrival_receivable(import::fresh(id, config), arrivals, k),
{
    let init = arrivals.take(k);
    if k <= e {
        let green = arrivals.take(e);
        assert forall|i: int| 0 <= i < init.len() implies {
            &&& (#[trigger] init[i]).segment_type == SegmentType::GreenData
            &&& init[i].end() <= isize::MAX
        } by {
            assert(init[i] == arrivals[i] && green[i] == arrivals[i]);
        }
        if k < e {
            assert(green[k] == arrivals[k]);
        }
        green_data_is_laid_out(id, config, init);
        lemma_reach_is_bounded(init, isize::MAX as nat);
        assert(arrivals[k].end() <= isize::MAX);
    } else {
        assert(init.take(e) == arrivals.take(e));
        assert(init[0] == arrivals[0] && init[e] == arrivals[e]);
        end_mark_delivers_green_data(id, config, init, e);
    }
}

} // verus!
