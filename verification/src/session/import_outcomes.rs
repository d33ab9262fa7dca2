//! What the calls of an import session do, told by the bytes and positions that
//! have arrived.

use crate::buffer;
use crate::segment::{self, CheckpointInfo, ReceptionClaim, SegmentType, SegmentView};
use crate::session::extents;
use crate::session::import::{
    self, ImportAction, ImportActionView, ImportConfig, ImportModel, ImportState, ReportWindow, SegmentColor,
};
use crate::session::import_laws;
use crate::session::{CancelDirection, CancelReason, SessionId};
use vstd::prelude::*;

verus! {

// ---------------------------------------------------------------------------
// Reports
// ---------------------------------------------------------------------------
/// Whether the claims list what the ranges hold of the scope from 0 to `upper`:
/// they stand in ascending order and do not touch, none is empty, all lie in the
/// scope, and a position of the scope is claimed exactly where a range holds it.
pub open spec fn lists_the_received(
    claims: Seq<ReceptionClaim>,
    xs: Seq<(u64, u64)>,
    upper: u64,
) -> bool {
    &&& forall|i: int|
        0 <= i < claims.len() ==> 0 < (#[trigger] claims[i]).length && claims[i].offset
            + claims[i].length <= upper
    &&& forall|i: int, j: int|
        0 <= i < j < claims.len() ==> (#[trigger] claims[i]).offset + claims[i].length < (
        #[trigger] claims[j]).offset
    &&& forall|p: int| #[trigger]
        import_laws::claimed(claims, p) <==> 0 <= p < upper && extents::covered(xs, p)
}

spec fn ranges_of(claims: Seq<ReceptionClaim>) -> Seq<(u64, u64)> {
    claims.map_values(|c: ReceptionClaim| (c.offset, (c.offset + c.length) as u64))
}

proof fn lemma_ranges_of(claims: Seq<ReceptionClaim>, xs: Seq<(u64, u64)>, upper: u64)
    requires
        lists_the_received(claims, xs, upper),
    ensures
        extents::canonical(ranges_of(claims)),
        forall|p: int| #[trigger]
            extents::covered(ranges_of(claims), p) <==> 0 <= p < upper && extents::covered(xs, p),
{
    let rs = ranges_of(claims);
    assert forall|p: int| #[trigger]
        extents::covered(rs, p) <==> 0 <= p < upper && extents::covered(xs, p) by {
        assert(import_laws::claimed(claims, p) <==> 0 <= p < upper && extents::covered(xs, p));
        if extents::covered(rs, p) {
            let i = choose|i: int| 0 <= i < rs.len() && (#[trigger] rs[i]).0 <= p < rs[i].1;
            assert(claims[i].offset <= p < claims[i].offset + claims[i].length);
        }
        if import_laws::claimed(claims, p) {
            let i = choose|i: int|
                0 <= i < claims.len() && (#[trigger] claims[i]).offset <= p < claims[i].offset
                    + claims[i].length;
            assert(rs[i].0 <= p < rs[i].1);
        }
    }
    assert forall|i: int, j: int| 0 <= i < j < rs.len() implies (#[trigger] rs[i]).1 < (
    #[trigger] rs[j]).0 by {
        assert(claims[i].offset + claims[i].length < claims[j].offset);
    }
    assert forall|i: int| 0 <= i < rs.len() implies (#[trigger] rs[i]).0 < rs[i].1 by {
        assert(0 < claims[i].length);
    }
}

proof fn lemma_claims_are_not_empty(xs: Seq<(u64, u64)>, upper: u64)
    requires
        extents::canonical(xs),
    ensures
        forall|i: int|
            0 <= i < import::claims_within(xs, 0, upper).len() ==> 0 < (
            #[trigger] import::claims_within(xs, 0, upper)[i]).length,
    decreases xs.len(),
{
    if xs.len() > 0 {
        let init = xs.drop_last();
        assert(extents::canonical(init)) by {
            assert forall|i: int| 0 <= i < init.len() implies (#[trigger] init[i]).0
                < init[i].1 by {
                assert(init[i] == xs[i]);
            }
            assert forall|i: int, j: int| 0 <= i < j < init.len() implies (#[trigger] init[i]).1 < (
            #[trigger] init[j]).0 by {
                assert(init[i] == xs[i] && init[j] == xs[j]);
            }
        }
        lemma_claims_are_not_empty(init, upper);
        assert(xs[xs.len() - 1].0 < xs[xs.len() - 1].1);
        let head = import::claims_within(init, 0, upper);
        let claims = import::claims_within(xs, 0, upper);
        assert forall|i: int| 0 <= i < claims.len() implies 0 < (
        #[trigger] claims[i]).length by {
            if i < head.len() {
                assert(claims[i] == head[i]);
            } else {
                assert(claims == head.push(claims[i]));
            }
        }
    }
}

/// There is one list of what was received of a scope, and the session makes it.
proof fn lemma_list_is_unique(claims: Seq<ReceptionClaim>, xs: Seq<(u64, u64)>, upper: u64)
    requires
        extents::canonical(xs),
        lists_the_received(claims, xs, upper),
    ensures
        claims == import::claims_within(xs, 0, upper),
{
    let made = import::claims_within(xs, 0, upper);
    import_laws::claims_are_what_was_received(xs, 0, upper);
    lemma_claims_are_not_empty(xs, upper);
    assert(lists_the_received(made, xs, upper));
    lemma_ranges_of(claims, xs, upper);
    lemma_ranges_of(made, xs, upper);
    let a = ranges_of(claims);
    let b = ranges_of(made);
    assert forall|p: int| #[trigger] extents::covered(a, p) <==> extents::covered(b, p) by {}
    extents::canonical_list_is_unique(a, b);
    assert(claims.len() == a.len() && made.len() == b.len());
    assert forall|i: int| 0 <= i < claims.len() implies claims[i] == made[i] by {
        assert(a[i] == b[i]);
        assert(claims[i].offset + claims[i].length <= upper);
        assert(made[i].offset + made[i].length <= upper);
    }
    assert(claims == made);
}

/// A scope has a list of what was received of it.
pub proof fn received_can_be_listed(m: ImportModel, upper: u64) -> (claims: Seq<ReceptionClaim>)
    requires
        import::consistent(m),
    ensures
        lists_the_received(claims, m.extents, upper),
{
    import_laws::claims_are_what_was_received(m.extents, 0, upper);
    lemma_claims_are_not_empty(m.extents, upper);
    import::claims_within(m.extents, 0, upper)
}

/// How many reports it takes to make so many claims, with so many in each.
pub open spec fn reports_needed(claims: nat, max: nat) -> nat {
    if claims <= max {
        1
    } else {
        (claims + max - 1) as nat / max
    }
}

/// How many of the needed reports may still be sent.
pub open spec fn reports_allowed(m: ImportModel, needed: nat) -> nat {
    match m.config.max_reports {
        Some(limit) => if m.reports >= limit {
            0
        } else if m.reports + needed > limit {
            (limit - m.reports) as nat
        } else {
            needed
        },
        None => needed,
    }
}

/// Report number `k` on the scope from 0 to `upper`. Where one report takes all
/// the claims, it is on the whole scope, from 0 on. Where it takes more, each has
/// its share of the claims in their order, and reaches from its first claim to
/// the first claim of the next one, the last of them to `upper`.
pub open spec fn kth_report(
    m: ImportModel,
    checkpoint_serial: u64,
    upper: u64,
    claims: Seq<ReceptionClaim>,
    k: int,
) -> SegmentView {
    let max = m.config.max_claims_per_report as int;
    let n = claims.len() as int;
    if n <= max {
        SegmentView::Report {
            session_id: m.id,
            report_serial: (m.reports + k + 1) as u64,
            checkpoint_serial,
            upper_bound: upper,
            lower_bound: 0,
            claims,
        }
    } else {
        let last = (k + 1) * max >= n;
        SegmentView::Report {
            session_id: m.id,
            report_serial: (m.reports + k + 1) as u64,
            checkpoint_serial,
            upper_bound: if last {
                upper
            } else {
                claims[(k + 1) * max].offset
            },
            lower_bound: claims[k * max].offset,
            claims: claims.subrange(
                k * max,
                if last {
                    n
                } else {
                    (k + 1) * max
                },
            ),
        }
    }
}

proof fn lemma_division_step(n: int, max: int)
    by (nonlinear_arith)
    requires
        0 < max < n,
    ensures
        (n + max - 1) / max == 1 + (n - max + max - 1) / max,
        n - max <= max ==> (n - max + max - 1) / max == 1,
{
}

/// The windows of split reports, one by one.
proof fn lemma_kth_window(claims: Seq<ReceptionClaim>, max: nat, upper: u64, k: int)
    requires
        max > 0,
        claims.len() > 0,
    ensures
        ({
            let plan = import::report_windows(claims, max, upper);
            let n = claims.len() as int;
            let last = (k + 1) * max >= n;
            &&& plan.len() == if n <= max {
                1
            } else {
                (n + max - 1) / max as int
            }
            &&& 0 <= k < plan.len() ==> {
                &&& 0 <= k * max < n
                &&& plan[k] == (ReportWindow {
                    lower: claims[k * max].offset,
                    upper: if last {
                        upper
                    } else {
                        claims[(k + 1) * max].offset
                    },
                    claims: claims.subrange(
                        k * max,
                        if last {
                            n
                        } else {
                            (k + 1) * max
                        },
                    ),
                })
            }
        }),
    decreases claims.len(),
{
    let plan = import::report_windows(claims, max, upper);
    let n = claims.len() as int;
    if n <= max {
        assert(0 * max == 0 && 1 * max == max) by (nonlinear_arith);
        assert(claims.subrange(0, n) == claims);
    } else {
        let rest = claims.skip(max as int);
        let more = import::report_windows(rest, max, upper);
        lemma_kth_window(rest, max, upper, k - 1);
        lemma_division_step(n, max as int);
        assert(0 * max == 0 && 1 * max == max) by (nonlinear_arith);
        if k == 0 {
            assert(claims.take(max as int) == claims.subrange(0, max as int));
        } else if 0 < k < plan.len() {
            assert(plan[k] == more[k - 1]);
            assert((k - 1) * max + max == k * max) by (nonlinear_arith);
            assert(k * max + max == (k + 1) * max) by (nonlinear_arith);
            assert((k - 1 + 1) * max == k * max);
            let from = (k - 1) * max;
            let last = (k + 1) * max >= n;
            let to = if last {
                n - max
            } else {
                k * max
            };
            assert(rest.subrange(from, to) == claims.subrange(from + max, to + max));
        }
    }
}

/// Reports go out one by one, each with its timer, until the limit is reached.
proof fn lemma_reports_one_by_one(
    m: ImportModel,
    checkpoint_serial: u64,
    plan: Seq<ReportWindow>,
)
    ensures
        ({
            let (last, actions) = import::send_reports(m, checkpoint_serial, plan);
            let sent = reports_allowed(m, plan.len());
            &&& sent <= plan.len()
            &&& actions.len() == 2 * sent + if sent < plan.len() {
                1int
            } else {
                0int
            }
            &&& forall|i: int|
                0 <= i < 2 * sent ==> #[trigger] actions[i] == if i % 2 == 0 {
                    ImportActionView::SendSegment(
                        (SegmentView::Report {
                            session_id: m.id,
                            report_serial: (m.reports + i / 2 + 1) as u64,
                            checkpoint_serial,
                            upper_bound: plan[i / 2].upper,
                            lower_bound: plan[i / 2].lower,
                            claims: plan[i / 2].claims,
                        }).wire(),
                    )
                } else {
                    ImportActionView::StartTimer {
                        report_serial: (m.reports + i / 2 + 1) as u64,
                        duration: m.config.retransmit_timeout,
                    }
                }
            &&& sent < plan.len() ==> actions.last() == ImportActionView::SendSegment(
                (SegmentView::Cancel {
                    session_id: m.id,
                    reason: CancelReason::ByEngine,
                    direction: CancelDirection::FromReceiver,
                }).wire(),
            )
            &&& last == (ImportModel {
                reports: m.reports + sent,
                state: if sent < plan.len() {
                    ImportState::Cancelled
                } else {
                    m.state
                },
                ..m
            })
        }),
    decreases plan.len(),
{
    let (last, actions) = import::send_reports(m, checkpoint_serial, plan);
    let sent = reports_allowed(m, plan.len());
    if plan.len() > 0 && !import::reports_exhausted(m) {
        let next = ImportModel { reports: m.reports + 1, ..m };
        let rest = plan.drop_first();
        lemma_reports_one_by_one(next, checkpoint_serial, rest);
        let more = import::send_reports(next, checkpoint_serial, rest).1;
        assert(reports_allowed(next, rest.len()) == sent - 1);
        assert forall|i: int| 0 <= i < 2 * sent implies #[trigger] actions[i] == if i % 2 == 0 {
            ImportActionView::SendSegment(
                (SegmentView::Report {
                    session_id: m.id,
                    report_serial: (m.reports + i / 2 + 1) as u64,
                    checkpoint_serial,
                    upper_bound: plan[i / 2].upper,
                    lower_bound: plan[i / 2].lower,
                    claims: plan[i / 2].claims,
                }).wire(),
            )
        } else {
            ImportActionView::StartTimer {
                report_serial: (m.reports + i / 2 + 1) as u64,
                duration: m.config.retransmit_timeout,
            }
        } by {
            if i >= 2 {
                assert(actions[i] == more[i - 2]);
                assert((i - 2) / 2 == i / 2 - 1);
                assert(rest[i / 2 - 1] == plan[i / 2]);
            }
        }
        if sent < plan.len() {
            assert(actions.last() == more.last());
        }
        assert(last == (ImportModel {
            reports: m.reports + sent,
            state: if sent < plan.len() {
                ImportState::Cancelled
            } else {
                m.state
            },
            ..m
        }));
    } else {
        assert(sent == 0);
        assert(m.reports + sent == m.reports);
    }
}

/// What reporting on a scope sends. The claims are a list of what was received
/// of it. They go out in as many reports as it takes, with consecutive serial
/// numbers from the next one on, each followed by the start of its timer; where
/// the limit does not allow them all, those that it allows are followed by a
/// cancel, and the session is cancelled. Nothing else of the session changes.
pub proof fn scope_is_reported(
    m: ImportModel,
    checkpoint_serial: u64,
    upper: u64,
    claims: Seq<ReceptionClaim>,
)
    requires
        import::consistent(m),
        lists_the_received(claims, m.extents, upper),
        m.config.max_claims_per_report > 0 || claims.len() == 0,
    ensures
        ({
            let (after, actions) = import::reported(m, checkpoint_serial, upper);
            let needed = reports_needed(claims.len(), m.config.max_claims_per_report as nat);
            let sent = reports_allowed(m, needed);
            &&& actions.len() == 2 * sent + if sent < needed {
                1int
            } else {
                0int
            }
            &&& forall|i: int|
                0 <= i < 2 * sent ==> #[trigger] actions[i] == if i % 2 == 0 {
                    ImportActionView::SendSegment(
                        kth_report(m, checkpoint_serial, upper, claims, i / 2).wire(),
                    )
                } else {
                    ImportActionView::StartTimer {
                        report_serial: (m.reports + i / 2 + 1) as u64,
                        duration: m.config.retransmit_timeout,
                    }
                }
            &&& sent < needed ==> actions.last() == ImportActionView::SendSegment(
                (SegmentView::Cancel {
                    session_id: m.id,
                    reason: CancelReason::ByEngine,
                    direction: CancelDirection::FromReceiver,
                }).wire(),
            )
            &&& after == (ImportModel {
                reports: m.reports + sent,
                state: if sent < needed {
                    ImportState::Cancelled
                } else {
                    m.state
                },
                ..m
            })
        }),
{
    let max = m.config.max_claims_per_report as nat;
    let plan = import::report_plan(m, upper);
    let actions = import::reported(m, checkpoint_serial, upper).1;
    lemma_list_is_unique(claims, m.extents, upper);
    lemma_reports_one_by_one(m, checkpoint_serial, plan);
    if claims.len() > max {
        lemma_kth_window(claims, max, upper, 0);
    }
    assert(plan.len() == reports_needed(claims.len(), max));
    let sent = reports_allowed(m, plan.len());
    assert forall|i: int| 0 <= i < 2 * sent implies #[trigger] actions[i] == if i % 2 == 0 {
        ImportActionView::SendSegment(
            kth_report(m, checkpoint_serial, upper, claims, i / 2).wire(),
        )
    } else {
        ImportActionView::StartTimer {
            report_serial: (m.reports + i / 2 + 1) as u64,
            duration: m.config.retransmit_timeout,
        }
    } by {
        if claims.len() > max {
            lemma_kth_window(claims, max, upper, i / 2);
        }
    }
}

/// A single report shows what is missing. Where one report takes all the claims
/// and one may be sent, what the sender decodes is a report on the whole scope,
/// from 0 to `upper`: every position of the scope that was not received is in
/// the scope of the report and not claimed there, and every other is claimed.
pub proof fn single_report_shows_the_gaps(
    m: ImportModel,
    checkpoint_serial: u64,
    upper: u64,
    claims: Seq<ReceptionClaim>,
    tail: Seq<u8>,
)
    requires
        import::consistent(m),
        lists_the_received(claims, m.extents, upper),
        claims.len() <= m.config.max_claims_per_report,
        m.config.max_reports is Some ==> m.reports < m.config.max_reports->0,
    ensures
        ({
            let actions = import::reported(m, checkpoint_serial, upper).1;
            &&& actions.len() == 2
            &&& actions[0] matches ImportActionView::SendSegment(wire) && {
                let (read, rest) = segment::read_segment(wire + tail);
                &&& rest == tail
                &&& read matches Ok(
                    SegmentView::Report {
                        session_id,
                        report_serial,
                        checkpoint_serial: answered,
                        upper_bound,
                        lower_bound,
                        claims: made,
                    },
                ) && {
                    &&& session_id == m.id
                    &&& report_serial == (m.reports + 1) as u64
                    &&& answered == checkpoint_serial
                    &&& upper_bound == upper
                    &&& lower_bound == 0
                    &&& forall|p: int|
                        0 <= p < upper ==> (#[trigger] import_laws::claimed(made, p)
                            <==> extents::covered(m.extents, p))
                }
            }
        }),
{
    scope_is_reported(m, checkpoint_serial, upper, claims);
    let actions = import::reported(m, checkpoint_serial, upper).1;
    let report = kth_report(m, checkpoint_serial, upper, claims, 0);
    assert(actions[0] == ImportActionView::SendSegment(report.wire()));
    assert(report.valid());
    segment::segment_round_trip(report, tail);
}

// ---------------------------------------------------------------------------
// Data segments
// ---------------------------------------------------------------------------
/// Whether a type is one of the four red ones.
pub open spec fn is_red_type(t: SegmentType) -> bool {
    t == SegmentType::RedData || t == SegmentType::RedCheckpoint || t == SegmentType::RedEorp || t
        == SegmentType::RedEob
}

/// Whether a type is one of the three that carry a checkpoint.
pub open spec fn is_checkpoint_type(t: SegmentType) -> bool {
    t == SegmentType::RedCheckpoint || t == SegmentType::RedEorp || t == SegmentType::RedEob
}

/// Whether a type is one of the two green ones.
pub open spec fn is_green_type(t: SegmentType) -> bool {
    t == SegmentType::GreenData || t == SegmentType::GreenEob
}

/// Whether a type marks the end of the red part or of the block.
pub open spec fn is_end_type(t: SegmentType) -> bool {
    t == SegmentType::RedEorp || t == SegmentType::RedEob || t == SegmentType::GreenEob
}

/// Whether a receiving session takes a data segment that ends at `end`: the first
/// one has to be for its client service, the others of the color of the first,
/// and red data has to end within the limit.
pub open spec fn acceptable(
    m: ImportModel,
    segment_type: SegmentType,
    client_service_id: u64,
    end: int,
) -> bool {
    &&& m.color is None ==> client_service_id == m.config.expected_client_service_id
    &&& m.color matches Some(color) ==> (color == SegmentColor::Red <==> is_red_type(segment_type))
    &&& is_red_type(segment_type) && m.config.max_red_data_bytes is Some ==> end
        <= m.config.max_red_data_bytes->0
}

/// Whether position `p` has been received once a segment with the bytes from
/// `offset` to `end` is in.
pub open spec fn received_with(m: ImportModel, offset: u64, end: int, p: int) -> bool {
    extents::covered(m.extents, p) || offset <= p < end
}

/// Whether a segment with the bytes from `offset` to `end` leaves a position of
/// the scope from 0 to `upper` missing.
pub open spec fn leaves_a_gap(m: ImportModel, offset: u64, end: int, upper: int) -> bool {
    exists|p: int| 0 <= p < upper && !#[trigger] received_with(m, offset, end, p)
}

/// Where the block ends, as far as is known once a segment is in.
pub open spec fn end_with(m: ImportModel, segment_type: SegmentType, end: int) -> Option<u64> {
    if is_end_type(segment_type) {
        Some(end as u64)
    } else {
        m.end
    }
}

/// Whether a segment leaves nothing of the block missing, up to its known end.
pub open spec fn completes(
    m: ImportModel,
    segment_type: SegmentType,
    offset: u64,
    end: int,
) -> bool {
    end_with(m, segment_type, end) matches Some(e) && !leaves_a_gap(m, offset, end, e as int)
}

/// The byte at position `p` once a segment is in: the one that it carries there,
/// else the one that was there, else 0.
pub open spec fn byte_with(m: ImportModel, offset: u64, data: Seq<u8>, p: int) -> u8 {
    if offset <= p < offset + data.len() {
        data[p - offset]
    } else if p < m.block.len() {
        m.block[p]
    } else {
        0
    }
}

proof fn lemma_refusals(
    m: ImportModel,
    segment_type: SegmentType,
    client_service_id: u64,
    end: int,
)
    ensures
        import::refusal(m, segment_type, client_service_id, end) is None <==> acceptable(
            m,
            segment_type,
            client_service_id,
            end,
        ),
{
}

proof fn lemma_gaps(
    m: ImportModel,
    segment_type: SegmentType,
    offset: u64,
    data: Seq<u8>,
    upper: u64,
)
    requires
        import::consistent(m),
        offset + data.len() <= u64::MAX,
    ensures
        import::complete_to(import::recorded(m, segment_type, offset, data), upper)
            <==> !leaves_a_gap(m, offset, offset + data.len(), upper as int),
{
    let end = (offset + data.len()) as u64;
    let next = import::recorded(m, segment_type, offset, data);
    extents::insert_adds_the_range(m.extents, offset, end);
    extents::complete_means_no_gaps(next.extents, 0, upper);
    if import::complete_to(next, upper) {
        assert forall|p: int| 0 <= p < upper implies #[trigger] received_with(
            m,
            offset,
            end as int,
            p,
        ) by {
            assert(extents::covered(next.extents, p));
        }
    }
    if !leaves_a_gap(m, offset, end as int, upper as int) {
        assert forall|p: int| 0 <= p < upper implies extents::covered(next.extents, p) by {
            assert(received_with(m, offset, end as int, p));
        }
    }
}

/// Data that a session does not take cancels it: a first segment for another
/// client service, a segment of the other color, and red data beyond the limit,
/// each with its reason. A cancel from the receiver is all that is sent, and
/// nothing of the data is kept.
pub proof fn unacceptable_data_cancels(
    m: ImportModel,
    segment_type: SegmentType,
    client_service_id: u64,
    offset: u64,
    data: Seq<u8>,
    checkpoint: Option<CheckpointInfo>,
)
    requires
        m.state == ImportState::Receiving,
        !acceptable(m, segment_type, client_service_id, offset + data.len()),
    ensures
        ({
            let (after, actions) = import::received(
                m,
                segment_type,
                client_service_id,
                offset,
                data,
                checkpoint,
            );
            let reason = if m.color is None && client_service_id
                != m.config.expected_client_service_id {
                CancelReason::ClientSvcUnreachable
            } else if m.color matches Some(color) && (color == SegmentColor::Red)
                != is_red_type(segment_type) {
                CancelReason::MiscoloredSegment
            } else {
                CancelReason::ByEngine
            };
            &&& actions == seq![
                ImportActionView::SendSegment(
                    (SegmentView::Cancel {
                        session_id: m.id,
                        reason,
                        direction: CancelDirection::FromReceiver,
                    }).wire(),
                ),
            ]
            &&& after == (ImportModel {
                state: ImportState::Cancelled,
                color: if reason == CancelReason::ByEngine {
                    Some(SegmentColor::Red)
                } else {
                    m.color
                },
                ..m
            })
        }),
{
    lemma_refusals(m, segment_type, client_service_id, offset + data.len());
}

/// Data that a session takes is kept where it belongs. Afterwards exactly the
/// positions are received that were before or that the segment carries; each
/// position of the block holds the byte that the segment carries there, else the
/// one that was there, else 0; the block reaches as far as anything received;
/// and an end mark tells where it ends.
pub proof fn acceptable_data_is_kept(
    m: ImportModel,
    segment_type: SegmentType,
    client_service_id: u64,
    offset: u64,
    data: Seq<u8>,
    checkpoint: Option<CheckpointInfo>,
)
    requires
        import::consistent(m),
        m.state == ImportState::Receiving,
        offset + data.len() <= u64::MAX,
        acceptable(m, segment_type, client_service_id, offset + data.len()),
    ensures
        ({
            let end = offset + data.len();
            let after = import::received(
                m,
                segment_type,
                client_service_id,
                offset,
                data,
                checkpoint,
            ).0;
            &&& after.id == m.id
            &&& after.config == m.config
            &&& after.color == Some(
                if is_red_type(segment_type) {
                    SegmentColor::Red
                } else {
                    SegmentColor::Green
                },
            )
            &&& after.end == end_with(m, segment_type, end)
            &&& extents::canonical(after.extents)
            &&& forall|p: int| #[trigger]
                extents::covered(after.extents, p) <==> received_with(m, offset, end, p)
            &&& after.block.len() == if end > m.block.len() {
                end
            } else {
                m.block.len() as int
            }
            &&& forall|p: int|
                0 <= p < after.block.len() ==> #[trigger] after.block[p] == byte_with(
                    m,
                    offset,
                    data,
                    p,
                )
        }),
{
    let end = (offset + data.len()) as u64;
    let next = import::recorded(m, segment_type, offset, data);
    lemma_refusals(m, segment_type, client_service_id, offset + data.len());
    extents::insert_adds_the_range(m.extents, offset, end);
    if checkpoint is Some {
        import::reporting_changes_only_the_counter(
            next,
            checkpoint->0.serial,
            import::report_plan(next, end),
        );
    }
    if next.end is Some {
        import::reporting_changes_only_the_counter(next, 0, import::report_plan(next, next.end->0));
    }
    let after = import::received(
        m,
        segment_type,
        client_service_id,
        offset,
        data,
        checkpoint,
    ).0;
    assert(after.extents == next.extents && after.block == next.block);
}

/// How a receiving session answers data that it takes. Green data is answered by
/// nothing, and its end mark by the delivery. Other data is answered by
/// - the deferral of the report, for a checkpoint, where reports are deferred
///   and a position of the scope up to the checkpoint is missing;
/// - reports on the scope up to the checkpoint, for any other checkpoint;
/// - reports on the block, with the checkpoint serial 0, for data that is not a
///   checkpoint and completes the block;
/// and then, where nothing of the block is missing, by the delivery of the block
/// up to its end.
pub proof fn acceptable_data_is_answered(
    m: ImportModel,
    segment_type: SegmentType,
    client_service_id: u64,
    offset: u64,
    data: Seq<u8>,
    checkpoint: Option<CheckpointInfo>,
)
    requires
        import::consistent(m),
        m.state == ImportState::Receiving,
        offset + data.len() <= u64::MAX,
        acceptable(m, segment_type, client_service_id, offset + data.len()),
    ensures
        ({
            let upper = (offset + data.len()) as u64;
            let next = import::recorded(m, segment_type, offset, data);
            let done = completes(m, segment_type, offset, upper as int);
            let whole = Seq::new(
                end_with(m, segment_type, upper as int)->0 as nat,
                |p: int| byte_with(m, offset, data, p),
            );
            let answer = if is_green_type(segment_type) {
                (next, Seq::<ImportActionView>::empty())
            } else if is_checkpoint_type(segment_type) {
                match checkpoint {
                    Some(info) => if m.config.defer_report_ms > 0 && leaves_a_gap(
                        m,
                        offset,
                        upper as int,
                        upper as int,
                    ) {
                        (
                            next,
                            seq![
                                ImportActionView::DeferReport {
                                    checkpoint_serial: info.serial,
                                    upper_bound: upper,
                                    defer_ms: m.config.defer_report_ms,
                                },
                            ],
                        )
                    } else {
                        import::reported(next, info.serial, upper)
                    },
                    None => (next, Seq::<ImportActionView>::empty()),
                }
            } else if done {
                import::reported(next, 0, end_with(m, segment_type, upper as int)->0)
            } else {
                (next, Seq::<ImportActionView>::empty())
            };
            let step = import::received(
                m,
                segment_type,
                client_service_id,
                offset,
                data,
                checkpoint,
            );
            &&& next.id == m.id && next.config == m.config && next.state == m.state && next.reports
                == m.reports
            &&& if segment_type == SegmentType::GreenEob || !is_green_type(segment_type) && done {
                &&& step.0 == (ImportModel { state: ImportState::Complete, ..answer.0 })
                &&& step.1 == answer.1.push(ImportActionView::DeliverBlock(whole))
            } else {
                step == answer
            }
        }),
{
    let upper = (offset + data.len()) as u64;
    let next = import::recorded(m, segment_type, offset, data);
    lemma_refusals(m, segment_type, client_service_id, offset + data.len());
    lemma_gaps(m, segment_type, offset, data, upper);
    import::recording_keeps_consistency(m, segment_type, offset, data);
    if next.end is Some {
        let e = next.end->0;
        lemma_gaps(m, segment_type, offset, data, e);
        if import::complete_to(next, e) && e > 0 {
            extents::complete_means_no_gaps(next.extents, 0, e);
            import::covered_positions_lie_in_the_block(next, e - 1);
        }
        import::reporting_changes_only_the_counter(next, 0, import::report_plan(next, e));
        if segment_type == SegmentType::GreenEob || completes(
            m,
            segment_type,
            offset,
            upper as int,
        ) {
            assert(next.block.take(e as int) == Seq::new(
                e as nat,
                |p: int| byte_with(m, offset, data, p),
            ));
        }
    }
    if checkpoint is Some {
        import::reporting_changes_only_the_counter(
            next,
            checkpoint->0.serial,
            import::report_plan(next, upper),
        );
    }
}

/// A checkpoint is put off exactly where something is missing. With a delay for
/// deferral, a checkpoint that the session takes is answered by the deferral,
/// and but for a delivery by nothing else, where some position of its scope has
/// not been received; where all have been, it is reported on at once.
pub proof fn gaps_defer_the_report(
    m: ImportModel,
    segment_type: SegmentType,
    client_service_id: u64,
    offset: u64,
    data: Seq<u8>,
    info: CheckpointInfo,
)
    requires
        import::consistent(m),
        m.state == ImportState::Receiving,
        offset + data.len() <= u64::MAX,
        acceptable(m, segment_type, client_service_id, offset + data.len()),
        segment_type == SegmentType::RedCheckpoint || segment_type == SegmentType::RedEorp
            || segment_type == SegmentType::RedEob,
    ensures
        ({
            let upper = offset + data.len();
            let actions = import::received(
                m,
                segment_type,
                client_service_id,
                offset,
                data,
                Some(info),
            ).1;
            let put_off = ImportActionView::DeferReport {
                checkpoint_serial: info.serial,
                upper_bound: upper as u64,
                defer_ms: m.config.defer_report_ms,
            };
            let gap = exists|p: int|
                0 <= p < upper && !#[trigger] extents::covered(m.extents, p) && !(offset <= p
                    < upper);
            &&& actions.len() > 0
            &&& actions[0] is DeferReport <==> m.config.defer_report_ms > 0 && gap
            &&& actions[0] is DeferReport ==> actions[0] == put_off
            &&& actions[0] is DeferReport ==> actions == seq![put_off] || actions.len() == 2
                && actions[1] is DeliverBlock
            &&& is_end_type(segment_type) || m.end is None ==> (actions[0] is DeferReport
                ==> actions == seq![put_off])
        }),
{
    let upper = offset + data.len();
    let next = import::recorded(m, segment_type, offset, data);
    acceptable_data_is_answered(m, segment_type, client_service_id, offset, data, Some(info));
    let gap = exists|p: int|
        0 <= p < upper && !#[trigger] extents::covered(m.extents, p) && !(offset <= p < upper);
    if gap {
        let p = choose|p: int|
            0 <= p < upper && !#[trigger] extents::covered(m.extents, p) && !(offset <= p < upper);
        assert(!received_with(m, offset, upper, p));
    }
    if leaves_a_gap(m, offset, upper, upper) {
        let p = choose|p: int| 0 <= p < upper && !#[trigger] received_with(m, offset, upper, p);
        assert(!extents::covered(m.extents, p));
    }
    import::recording_keeps_consistency(m, segment_type, offset, data);
    let plan = import::report_plan(next, upper as u64);
    lemma_reports_one_by_one(next, info.serial, plan);
    lemma_plan_is_not_empty(next, upper as u64);
    let reports = import::reported(next, info.serial, upper as u64).1;
    assert(reports.len() > 0 && !(reports[0] is DeferReport)) by {
        if reports_allowed(next, plan.len()) > 0 {
            assert(reports[0] is SendSegment);
        } else {
            assert(reports[0] == reports.last());
        }
    }
}

proof fn lemma_plan_is_not_empty(m: ImportModel, upper: u64)
    ensures
        import::report_plan(m, upper).len() > 0,
{
    let claims = import::claims_within(m.extents, 0, upper);
    if claims.len() > m.config.max_claims_per_report {
        lemma_windows_are_not_empty(claims, m.config.max_claims_per_report as nat, upper);
    }
}

proof fn lemma_windows_are_not_empty(claims: Seq<ReceptionClaim>, max: nat, upper: u64)
    ensures
        import::report_windows(claims, max, upper).len() > 0,
{
}

/// Red data is delivered exactly when it is whole. The answer to data that is not
/// green delivers a block if and only if nothing up to the known end is missing
/// then; it does so once, at its end; and what it delivers has that length and
/// at each position the byte that was received there.
pub proof fn whole_block_is_delivered(
    m: ImportModel,
    segment_type: SegmentType,
    client_service_id: u64,
    offset: u64,
    data: Seq<u8>,
    checkpoint: Option<CheckpointInfo>,
)
    requires
        import::consistent(m),
        m.state == ImportState::Receiving,
        offset + data.len() <= u64::MAX,
        acceptable(m, segment_type, client_service_id, offset + data.len()),
        !is_green_type(segment_type),
    ensures
        ({
            let upper = offset + data.len();
            let (after, actions) = import::received(
                m,
                segment_type,
                client_service_id,
                offset,
                data,
                checkpoint,
            );
            let done = end_with(m, segment_type, upper) matches Some(e) && (forall|p: int|
                0 <= p < e ==> #[trigger] extents::covered(m.extents, p) || offset <= p < upper);
            &&& after.state == ImportState::Complete <==> done
            &&& forall|i: int|
                0 <= i < actions.len() && (#[trigger] actions[i]) is DeliverBlock ==> done && i
                    == actions.len() - 1
            &&& done ==> actions.len() > 0 && (actions.last() matches ImportActionView::DeliverBlock(
                block,
            ) && {
                &&& block.len() == end_with(m, segment_type, upper)->0
                &&& forall|p: int|
                    0 <= p < block.len() ==> #[trigger] block[p] == if offset <= p < upper {
                        data[p - offset]
                    } else {
                        m.block[p]
                    }
            })
        }),
{
    let upper = offset + data.len();
    let next = import::recorded(m, segment_type, offset, data);
    acceptable_data_is_answered(m, segment_type, client_service_id, offset, data, checkpoint);
    if end_with(m, segment_type, upper) is Some {
        let e = end_with(m, segment_type, upper)->0;
        if leaves_a_gap(m, offset, upper, e as int) {
            let p = choose|p: int| 0 <= p < e && !#[trigger] received_with(m, offset, upper, p);
            assert(!extents::covered(m.extents, p));
        } else {
            assert forall|p: int| 0 <= p < e implies #[trigger] extents::covered(m.extents, p)
                || offset <= p < upper by {
                assert(received_with(m, offset, upper, p));
            }
            assert forall|p: int|
                0 <= p < e && !(offset <= p < upper) && #[trigger] extents::covered(
                    m.extents,
                    p,
                ) implies p < m.block.len() by {
                import::covered_positions_lie_in_the_block(m, p);
            }
        }
        lemma_reports_deliver_nothing(next, 0, e);
    }
    if checkpoint is Some {
        lemma_reports_deliver_nothing(next, checkpoint->0.serial, upper as u64);
    }
    let actions = import::received(
        m,
        segment_type,
        client_service_id,
        offset,
        data,
        checkpoint,
    ).1;
    if completes(m, segment_type, offset, upper) {
        let block = actions.last()->DeliverBlock_0;
        assert forall|p: int| 0 <= p < block.len() implies #[trigger] block[p] == if offset <= p
            < upper {
            data[p - offset]
        } else {
            m.block[p]
        } by {
            assert(extents::covered(m.extents, p) || offset <= p < upper);
        }
    }
}

proof fn lemma_reports_deliver_nothing(m: ImportModel, checkpoint_serial: u64, upper: u64)
    ensures
        ({
            let (after, actions) = import::reported(m, checkpoint_serial, upper);
            &&& after.state == m.state || after.state == ImportState::Cancelled
            &&& forall|i: int|
                0 <= i < actions.len() ==> !((#[trigger] actions[i]) is DeliverBlock)
        }),
{
    let plan = import::report_plan(m, upper);
    lemma_reports_one_by_one(m, checkpoint_serial, plan);
    let actions = import::reported(m, checkpoint_serial, upper).1;
    let sent = reports_allowed(m, plan.len());
    assert forall|i: int| 0 <= i < actions.len() implies !((
    #[trigger] actions[i]) is DeliverBlock) by {
        if i >= 2 * sent {
            assert(actions[i] == actions.last());
        }
    }
}

// ---------------------------------------------------------------------------
// The other calls
// ---------------------------------------------------------------------------
/// A new session has received nothing, has sent nothing, and waits for data.
pub proof fn new_session_is_empty(id: SessionId, config: ImportConfig)
    ensures
        ({
            let m = import::fresh(id, config);
            &&& m.id == id
            &&& m.config == config
            &&& m.state == ImportState::Receiving
            &&& m.color is None
            &&& m.end is None
            &&& m.reports == 0
            &&& m.block.len() == 0
            &&& m.extents.len() == 0
            &&& forall|p: int| !extents::covered(m.extents, p)
            &&& import::consistent(m)
        }),
{
}

/// An acknowledged report has its timer cancelled, and that is all. A cancel from
/// the sender is acknowledged as one, and ends the session in whatever state it
/// is; what was received stays.
pub proof fn acks_and_cancels_are_answered(m: ImportModel, report_serial: u64)
    ensures
        import::acknowledged(m, report_serial) == (
            m,
            seq![ImportActionView::CancelTimer { report_serial }],
        ),
        import::withdrawn(m) == (
            ImportModel { state: ImportState::Cancelled, ..m },
            seq![
                ImportActionView::SendSegment(
                    (SegmentView::CancelAck {
                        session_id: m.id,
                        direction: CancelDirection::FromSender,
                    }).wire(),
                ),
            ],
        ),
{
}

/// A report that was put off is made up for by a session that still receives,
/// with what has been received by then, and by no other.
pub proof fn deferred_report_is_made_up_for(
    m: ImportModel,
    checkpoint_serial: u64,
    upper: u64,
)
    ensures
        m.state == ImportState::Receiving ==> import::caught_up(m, checkpoint_serial, upper)
            == import::reported(m, checkpoint_serial, upper),
        m.state != ImportState::Receiving ==> import::caught_up(m, checkpoint_serial, upper) == (
            m,
            Seq::<ImportActionView>::empty(),
        ),
{
}

/// A scope is complete when every position of it has been received.
pub proof fn complete_scope_has_every_position(m: ImportModel, upper: u64)
    requires
        import::consistent(m),
    ensures
        import::complete_to(m, upper) <==> (forall|p: int|
            0 <= p < upper ==> #[trigger] extents::covered(m.extents, p)),
        forall|p: int| #[trigger]
            extents::covered(m.extents, p) <==> exists|i: int|
                0 <= i < m.extents.len() && (#[trigger] m.extents[i]).0 <= p < m.extents[i].1,
{
    extents::complete_means_no_gaps(m.extents, 0, upper);
}

/// Actions are seen as they are, each with its bytes and numbers, in their order.
pub proof fn actions_are_seen_as_they_are(actions: Seq<ImportAction>, i: int)
    requires
        0 <= i < actions.len(),
    ensures
        import::action_views(actions).len() == actions.len(),
        import::action_views(actions)[i] == match actions[i] {
            ImportAction::SendSegment(b) => ImportActionView::SendSegment(
                buffer::bytes_content(b),
            ),
            ImportAction::StartTimer { report_serial, duration } => ImportActionView::StartTimer {
                report_serial,
                duration,
            },
            ImportAction::CancelTimer { report_serial } => ImportActionView::CancelTimer {
                report_serial,
            },
            ImportAction::DeliverBlock(b) => ImportActionView::DeliverBlock(
                buffer::bytes_content(b),
            ),
            ImportAction::DeferReport { checkpoint_serial, upper_bound, defer_ms } =>
                ImportActionView::DeferReport { checkpoint_serial, upper_bound, defer_ms },
        },
{
}

/// A session that has sent as many reports as it may sends no other: reporting on
/// whatever scope is a cancel from the receiver, and ends the session.
pub proof fn no_report_beyond_the_limit(m: ImportModel, checkpoint_serial: u64, upper: u64)
    requires
        m.config.max_reports is Some,
        m.reports >= m.config.max_reports->0,
    ensures
        import::reported(m, checkpoint_serial, upper) == (
            ImportModel { state: ImportState::Cancelled, ..m },
            seq![
                ImportActionView::SendSegment(
                    (SegmentView::Cancel {
                        session_id: m.id,
                        reason: CancelReason::ByEngine,
                        direction: CancelDirection::FromReceiver,
                    }).wire(),
                ),
            ],
        ),
{
    lemma_plan_is_not_empty(m, upper);
}

} // verus!
