//! What holds of export sessions as a whole.

use crate::segment::{self, ReceptionClaim, SegmentType, SegmentView};
use crate::session::export::{
    self, ExportActionView, ExportConfig, ExportModel, ExportState, Piece,
};
use crate::session::extents;
use crate::session::import::{self, ImportConfig, ImportState};
use crate::session::import_laws::{self, Arrival};
use crate::session::{CancelDirection, CancelReason, SessionId};
use std::time::Duration;
use vstd::prelude::*;

verus! {

// ---------------------------------------------------------------------------
// First transmission
// ---------------------------------------------------------------------------
/// Whether the pieces cut the bytes from `from` to `to` into consecutive pieces
/// of at most `size` bytes.
pub open spec fn consecutive(pieces: Seq<Piece>, from: nat, to: nat, size: nat) -> bool {
    &&& pieces.len() > 0
    &&& pieces[0].from == from
    &&& pieces.last().to == to
    &&& forall|i: int|
        0 <= i < pieces.len() ==> (#[trigger] pieces[i]).from <= pieces[i].to <= pieces[i].from
            + size
    &&& forall|i: int, j: int|
        0 <= i && j == i + 1 && j < pieces.len() ==> (#[trigger] pieces[i]).to == (
        #[trigger] pieces[j]).from
}

/// What the pieces carry, one after the other.
pub open spec fn payload(block: Seq<u8>, pieces: Seq<Piece>) -> Seq<u8>
    decreases pieces.len(),
{
    if pieces.len() == 0 {
        seq![]
    } else {
        payload(block, pieces.drop_last()) + block.subrange(
            pieces.last().from as int,
            pieces.last().to as int,
        )
    }
}

proof fn lemma_payload(block: Seq<u8>, pieces: Seq<Piece>, from: nat, to: nat, size: nat)
    requires
        consecutive(pieces, from, to, size),
        to <= block.len(),
    ensures
        from <= to,
        payload(block, pieces) == block.subrange(from as int, to as int),
    decreases pieces.len(),
{
    let init = pieces.drop_last();
    let last = pieces.last();
    if init.len() == 0 {
        assert(payload(block, init) == Seq::<u8>::empty());
    } else {
        assert forall|i: int| 0 <= i < init.len() implies (#[trigger] init[i]).from <= init[i].to
            <= init[i].from + size by {
            assert(init[i] == pieces[i]);
        }
        assert forall|i: int, j: int| 0 <= i && j == i + 1 && j < init.len() implies (
        #[trigger] init[i]).to == (#[trigger] init[j]).from by {
            assert(init[i] == pieces[i] && init[j] == pieces[j]);
        }
        assert(init.last() == pieces[pieces.len() - 2]);
        assert(init.last().to == last.from);
        assert(pieces[pieces.len() - 1].from <= last.to);
        lemma_payload(block, init, from, last.from, size);
    }
}

proof fn lemma_first_pieces(
    len: nat,
    config: ExportConfig,
    from: nat,
    index: nat,
    serial: nat,
)
    requires
        from <= len,
    ensures
        ({
            let pieces = export::first_pieces(len, config, from, index, serial);
            let size = export::piece_size(config);
            &&& consecutive(pieces, from, len, size)
            &&& forall|i: int|
                0 <= i < pieces.len() ==> (#[trigger] pieces[i]).from == from + i * size
            &&& forall|i: int|
                0 <= i < pieces.len() - 1 ==> (#[trigger] pieces[i]).to == pieces[i].from + size
                    && pieces[i].to < len
        }),
    decreases len - from,
{
    let pieces = export::first_pieces(len, config, from, index, serial);
    let size = export::piece_size(config);
    let last = len - from <= size;
    let (segment_type, checkpoint) = export::first_marking(config, index, serial, last);
    if !last {
        let next_serial = if checkpoint is Some {
            serial + 1
        } else {
            serial
        };
        lemma_first_pieces(len, config, from + size, index + 1, next_serial);
        let rest = export::first_pieces(len, config, from + size, index + 1, next_serial);
        assert forall|i: int| 0 <= i < pieces.len() implies (#[trigger] pieces[i]).from == from + i
            * size by {
            if i > 0 {
                assert(pieces[i] == rest[i - 1]);
                assert((i - 1) * size + size == i * size) by (nonlinear_arith);
            } else {
                assert(0 * size == 0) by (nonlinear_arith);
            }
        }
        assert forall|i: int| 0 <= i < pieces.len() implies (#[trigger] pieces[i]).from
            <= pieces[i].to <= pieces[i].from + size by {
            if i > 0 {
                assert(pieces[i] == rest[i - 1]);
            }
        }
        assert forall|i: int, j: int| 0 <= i && j == i + 1 && j < pieces.len() implies (
        #[trigger] pieces[i]).to == (#[trigger] pieces[j]).from by {
            assert(pieces[j] == rest[j - 1]);
            if i > 0 {
                assert(pieces[i] == rest[i - 1]);
            }
        }
        assert forall|i: int| 0 <= i < pieces.len() - 1 implies (#[trigger] pieces[i]).to
            == pieces[i].from + size && pieces[i].to < len by {
            if i > 0 {
                assert(pieces[i] == rest[i - 1]);
            }
        }
        assert(pieces.last() == rest.last());
    } else {
        assert(0 * size == 0) by (nonlinear_arith);
    }
}

/// The first transmission carries the whole block, in order, in consecutive
/// segments: segment `i` starts at `i` times the segment size, every segment but
/// the last has that size, and the last one is not larger. An empty block takes
/// one segment.
pub proof fn first_transmission_carries_the_block(block: Seq<u8>, config: ExportConfig)
    ensures
        ({
            let pieces = export::first_pieces(block.len(), config, 0, 0, 1);
            let size = export::piece_size(config);
            &&& consecutive(pieces, 0, block.len(), size)
            &&& forall|i: int| 0 <= i < pieces.len() ==> (#[trigger] pieces[i]).from == i * size
            &&& forall|i: int|
                0 <= i < pieces.len() - 1 ==> (#[trigger] pieces[i]).to == pieces[i].from + size
            &&& payload(block, pieces) == block
        }),
{
    let pieces = export::first_pieces(block.len(), config, 0, 0, 1);
    let size = export::piece_size(config);
    lemma_first_pieces(block.len(), config, 0, 0, 1);
    lemma_payload(block, pieces, 0, block.len(), size);
    assert(block.subrange(0, block.len() as int) == block);
}

/// Whether the pieces are marked as red data: the last one ends the block with a
/// checkpoint, the others are plain data or checkpoints, and the checkpoints
/// count up from `serial` and answer no report.
pub open spec fn marked_red(pieces: Seq<Piece>, serial: nat) -> bool {
    forall|i: int|
        0 <= i < pieces.len() ==> {
            let p = #[trigger] pieces[i];
            let expected = export::checkpoint(
                serial + export::checkpoint_count(pieces.take(i)),
                0,
            );
            if i == pieces.len() - 1 {
                p.segment_type == SegmentType::RedEob && p.checkpoint == expected
            } else {
                ||| p.segment_type == SegmentType::RedData && p.checkpoint is None
                ||| p.segment_type == SegmentType::RedCheckpoint && p.checkpoint == expected
            }
        }
}

proof fn lemma_checkpoint_count_prepend(p: Piece, pieces: Seq<Piece>)
    ensures
        export::checkpoint_count(seq![p] + pieces) == export::checkpoint_count(pieces)
            + if p.checkpoint is Some {
            1nat
        } else {
            0nat
        },
    decreases pieces.len(),
{
    let all = seq![p] + pieces;
    if pieces.len() == 0 {
        assert(all.drop_last() == Seq::<Piece>::empty());
        assert(export::checkpoint_count(Seq::<Piece>::empty()) == 0);
        assert(all.last() == p);
    } else {
        assert(all.drop_last() == seq![p] + pieces.drop_last());
        lemma_checkpoint_count_prepend(p, pieces.drop_last());
    }
}

proof fn lemma_first_pieces_red(
    len: nat,
    config: ExportConfig,
    from: nat,
    index: nat,
    serial: nat,
)
    requires
        from <= len,
        !config.green,
    ensures
        marked_red(export::first_pieces(len, config, from, index, serial), serial),
    decreases len - from,
{
    let pieces = export::first_pieces(len, config, from, index, serial);
    let size = export::piece_size(config);
    let last = len - from <= size;
    let (segment_type, checkpoint) = export::first_marking(config, index, serial, last);
    assert(pieces.take(0) == Seq::<Piece>::empty());
    if !last {
        let next_serial = if checkpoint is Some {
            serial + 1
        } else {
            serial
        };
        lemma_first_pieces_red(len, config, from + size, index + 1, next_serial);
        let rest = export::first_pieces(len, config, from + size, index + 1, next_serial);
        assert forall|i: int| 0 < i < pieces.len() implies export::checkpoint_count(
            #[trigger] pieces.take(i),
        ) + serial == export::checkpoint_count(rest.take(i - 1)) + next_serial by {
            assert(pieces.take(i) == seq![pieces[0]] + rest.take(i - 1));
            lemma_checkpoint_count_prepend(pieces[0], rest.take(i - 1));
        }
        assert forall|i: int| 0 <= i < pieces.len() implies {
            let p = #[trigger] pieces[i];
            let expected = export::checkpoint(
                serial + export::checkpoint_count(pieces.take(i)),
                0,
            );
            if i == pieces.len() - 1 {
                p.segment_type == SegmentType::RedEob && p.checkpoint == expected
            } else {
                ||| p.segment_type == SegmentType::RedData && p.checkpoint is None
                ||| p.segment_type == SegmentType::RedCheckpoint && p.checkpoint == expected
            }
        } by {
            if i > 0 {
                assert(pieces[i] == rest[i - 1]);
                assert(export::checkpoint_count(pieces.take(i)) + serial
                    == export::checkpoint_count(rest.take(i - 1)) + next_serial);
            }
        }
    }
}

/// Red data is marked as such: only the last segment ends the block, it is a
/// checkpoint, and the checkpoints have the serial numbers 1, 2, 3 and so on.
/// The session then awaits a report, with a timer for each checkpoint.
pub proof fn red_transmission_ends_with_a_checkpoint(
    id: SessionId,
    block: Seq<u8>,
    client_service_id: u64,
    config: ExportConfig,
)
    requires
        !config.green,
    ensures
        ({
            let pieces = export::first_pieces(block.len(), config, 0, 0, 1);
            let m = export::opened(id, block, client_service_id, config);
            &&& marked_red(pieces, 1)
            &&& m.state == ExportState::AwaitingReport
            &&& m.next_serial == 1 + export::checkpoint_count(pieces)
            &&& forall|s: u64| m.timers.contains(s) <==> 1 <= s < m.next_serial
        }),
{
    lemma_first_pieces_red(block.len(), config, 0, 0, 1);
}

proof fn lemma_first_pieces_green(
    len: nat,
    config: ExportConfig,
    from: nat,
    index: nat,
    serial: nat,
)
    requires
        from <= len,
        config.green,
    ensures
        ({
            let pieces = export::first_pieces(len, config, from, index, serial);
            &&& export::checkpoint_count(pieces) == 0
            &&& forall|i: int|
                0 <= i < pieces.len() ==> (#[trigger] pieces[i]).checkpoint is None
                    && pieces[i].segment_type == if i == pieces.len() - 1 {
                    SegmentType::GreenEob
                } else {
                    SegmentType::GreenData
                }
        }),
    decreases len - from,
{
    let pieces = export::first_pieces(len, config, from, index, serial);
    let size = export::piece_size(config);
    if len - from <= size {
        assert(pieces.drop_last() == Seq::<Piece>::empty());
        assert(export::checkpoint_count(Seq::<Piece>::empty()) == 0);
    } else {
        lemma_first_pieces_green(len, config, from + size, index + 1, serial);
        let rest = export::first_pieces(len, config, from + size, index + 1, serial);
        lemma_checkpoint_count_prepend(pieces[0], rest);
        assert forall|i: int| 0 <= i < pieces.len() implies (#[trigger] pieces[i]).checkpoint is None
            && pieces[i].segment_type == if i == pieces.len() - 1 {
            SegmentType::GreenEob
        } else {
            SegmentType::GreenData
        } by {
            if i > 0 {
                assert(pieces[i] == rest[i - 1]);
            }
        }
    }
}

/// Green data has no checkpoints and no timers: the segments are plain green
/// data, the last one ends the block, and the session is complete at once.
pub proof fn green_transmission_has_no_checkpoints(
    id: SessionId,
    block: Seq<u8>,
    client_service_id: u64,
    config: ExportConfig,
)
    requires
        config.green,
    ensures
        ({
            let pieces = export::first_pieces(block.len(), config, 0, 0, 1);
            let m = export::opened(id, block, client_service_id, config);
            &&& forall|i: int|
                0 <= i < pieces.len() ==> (#[trigger] pieces[i]).checkpoint is None
                    && pieces[i].segment_type == if i == pieces.len() - 1 {
                    SegmentType::GreenEob
                } else {
                    SegmentType::GreenData
                }
            &&& m.state == ExportState::Complete
            &&& m.next_serial == 1
            &&& m.timers =~= Set::empty()
        }),
{
    lemma_first_pieces_green(block.len(), config, 0, 0, 1);
}

// ---------------------------------------------------------------------------
// Retransmission
// ---------------------------------------------------------------------------
/// Whether one of the pieces carries the byte at position `p`.
pub open spec fn repeats(pieces: Seq<Piece>, p: int) -> bool {
    exists|i: int| 0 <= i < pieces.len() && (#[trigger] pieces[i]).from <= p < pieces[i].to
}

spec fn in_cuts(cuts: Seq<(nat, nat)>, p: int) -> bool {
    exists|i: int| 0 <= i < cuts.len() && (#[trigger] cuts[i]).0 <= p < cuts[i].1
}

proof fn lemma_in_cuts_append(a: Seq<(nat, nat)>, b: Seq<(nat, nat)>)
    ensures
        forall|p: int| #[trigger] in_cuts(a + b, p) <==> in_cuts(a, p) || in_cuts(b, p),
{
    assert forall|p: int| #[trigger] in_cuts(a + b, p) <==> in_cuts(a, p) || in_cuts(b, p) by {
        let all = a + b;
        if in_cuts(all, p) {
            let i = choose|i: int| 0 <= i < all.len() && (#[trigger] all[i]).0 <= p < all[i].1;
            if i < a.len() {
                assert(all[i] == a[i]);
            } else {
                assert(all[i] == b[i - a.len()]);
            }
        }
        if in_cuts(a, p) {
            let i = choose|i: int| 0 <= i < a.len() && (#[trigger] a[i]).0 <= p < a[i].1;
            assert(all[i] == a[i]);
        }
        if in_cuts(b, p) {
            let i = choose|i: int| 0 <= i < b.len() && (#[trigger] b[i]).0 <= p < b[i].1;
            assert(all[i + a.len()] == b[i]);
        }
    }
}

proof fn lemma_cut(from: nat, to: nat, size: nat)
    requires
        from <= to,
        size > 0,
    ensures
        ({
            let cuts = export::cut(from, to, size);
            &&& cuts.len() > 0
            &&& forall|p: int| #[trigger] in_cuts(cuts, p) <==> from <= p < to
            &&& forall|i: int|
                0 <= i < cuts.len() ==> from <= (#[trigger] cuts[i]).0 <= cuts[i].1 <= to
                    && cuts[i].1 - cuts[i].0 <= size
            &&& from < to ==> forall|i: int| 0 <= i < cuts.len() ==> (#[trigger] cuts[i]).0 < cuts[i].1
        }),
    decreases to - from,
{
    let cuts = export::cut(from, to, size);
    if to - from <= size {
        assert forall|p: int| #[trigger] in_cuts(cuts, p) <==> from <= p < to by {
            if from <= p < to {
                assert(cuts[0].0 <= p < cuts[0].1);
            }
        }
    } else {
        lemma_cut(from + size, to, size);
        let first = seq![(from, from + size)];
        let rest = export::cut(from + size, to, size);
        lemma_in_cuts_append(first, rest);
        assert forall|p: int| #[trigger] in_cuts(cuts, p) <==> from <= p < to by {
            assert(in_cuts(first, p) <==> from <= p < from + size) by {
                if from <= p < from + size {
                    assert(first[0].0 <= p < first[0].1);
                }
            }
            assert(in_cuts(rest, p) <==> from + size <= p < to);
        }
        assert forall|i: int| 0 <= i < cuts.len() implies from <= (#[trigger] cuts[i]).0
            < cuts[i].1 <= to && cuts[i].1 - cuts[i].0 <= size by {
            if i > 0 {
                assert(cuts[i] == rest[i - 1]);
            }
        }
    }
}

proof fn lemma_cut_all(ranges: Seq<(u64, u64)>, size: nat)
    requires
        extents::canonical(ranges),
        size > 0,
    ensures
        ({
            let cuts = export::cut_all(ranges, size);
            &&& cuts.len() >= ranges.len()
            &&& forall|p: int| #[trigger] in_cuts(cuts, p) <==> extents::covered(ranges, p)
            &&& forall|i: int|
                0 <= i < cuts.len() ==> (#[trigger] cuts[i]).0 < cuts[i].1 && cuts[i].1 - cuts[i].0
                    <= size
        }),
    decreases ranges.len(),
{
    let cuts = export::cut_all(ranges, size);
    if ranges.len() > 0 {
        let init = ranges.drop_last();
        let (from, to) = ranges.last();
        let head = export::cut_all(init, size);
        let own = export::cut(from as nat, to as nat, size);
        assert(ranges[ranges.len() - 1].0 < ranges[ranges.len() - 1].1);
        lemma_cut_all(init, size);
        lemma_cut(from as nat, to as nat, size);
        lemma_in_cuts_append(head, own);
        assert forall|p: int| #[trigger] in_cuts(cuts, p) <==> extents::covered(ranges, p) by {
            assert(in_cuts(head, p) <==> extents::covered(init, p));
            if extents::covered(ranges, p) && !(from <= p < to) {
                let k = choose|k: int|
                    0 <= k < ranges.len() && (#[trigger] ranges[k]).0 <= p < ranges[k].1;
                assert(init[k] == ranges[k]);
            }
            if extents::covered(init, p) {
                let k = choose|k: int|
                    0 <= k < init.len() && (#[trigger] init[k]).0 <= p < init[k].1;
                assert(init[k] == ranges[k]);
            }
            if from <= p < to {
                assert(ranges[ranges.len() - 1].0 <= p);
            }
        }
        assert forall|i: int| 0 <= i < cuts.len() implies (#[trigger] cuts[i]).0 < cuts[i].1
            && cuts[i].1 - cuts[i].0 <= size by {
            if i < head.len() {
                assert(cuts[i] == head[i]);
            } else {
                assert(cuts[i] == own[i - head.len()]);
            }
        }
    }
}

/// A retransmission sends exactly the bytes of the given ranges again, in
/// segments that are not empty and not larger than allowed. All of them are
/// plain red data but the last: it is a checkpoint with the next serial number,
/// and answers the report.
pub proof fn retransmission_sends_exactly_the_ranges(
    ranges: Seq<(u64, u64)>,
    size: nat,
    serial: nat,
    responding_report_serial: u64,
)
    requires
        extents::canonical(ranges),
        ranges.len() > 0,
        size > 0,
    ensures
        ({
            let pieces = export::repeat_pieces(ranges, size, serial, responding_report_serial);
            &&& pieces.len() > 0
            &&& forall|p: int| #[trigger] repeats(pieces, p) <==> extents::covered(ranges, p)
            &&& forall|i: int|
                0 <= i < pieces.len() ==> (#[trigger] pieces[i]).from < pieces[i].to
                    <= pieces[i].from + size
            &&& forall|i: int|
                0 <= i < pieces.len() - 1 ==> (#[trigger] pieces[i]).segment_type
                    == SegmentType::RedData && pieces[i].checkpoint is None
            &&& pieces.last().segment_type == SegmentType::RedCheckpoint
            &&& pieces.last().checkpoint == export::checkpoint(serial, responding_report_serial)
        }),
{
    let pieces = export::repeat_pieces(ranges, size, serial, responding_report_serial);
    let cuts = export::cut_all(ranges, size);
    lemma_cut_all(ranges, size);
    assert forall|p: int| #[trigger] repeats(pieces, p) <==> extents::covered(ranges, p) by {
        assert(in_cuts(cuts, p) <==> extents::covered(ranges, p));
        if repeats(pieces, p) {
            let i = choose|i: int|
                0 <= i < pieces.len() && (#[trigger] pieces[i]).from <= p < pieces[i].to;
            assert(cuts[i].0 <= p < cuts[i].1);
        }
        if in_cuts(cuts, p) {
            let i = choose|i: int| 0 <= i < cuts.len() && (#[trigger] cuts[i]).0 <= p < cuts[i].1;
            assert(pieces[i].from <= p < pieces[i].to);
        }
    }
    assert forall|i: int| 0 <= i < pieces.len() implies (#[trigger] pieces[i]).from < pieces[i].to
        <= pieces[i].from + size by {
        assert(cuts[i].0 < cuts[i].1);
    }
}

// ---------------------------------------------------------------------------
// Reports and timers
// ---------------------------------------------------------------------------
/// Taking in claims keeps the acknowledged ranges canonical and acknowledges
/// exactly the claimed bytes besides those that already were.
pub proof fn claims_are_acknowledged(xs: Seq<(u64, u64)>, claims: Seq<ReceptionClaim>)
    requires
        extents::canonical(xs),
        forall|i: int|
            0 <= i < claims.len() ==> (#[trigger] claims[i]).offset + claims[i].length <= u64::MAX,
    ensures
        extents::canonical(export::with_claims(xs, claims)),
        forall|p: int| #[trigger]
            extents::covered(export::with_claims(xs, claims), p) <==> extents::covered(xs, p)
                || import_laws::claimed(claims, p),
    decreases claims.len(),
{
    if claims.len() > 0 {
        let init = claims.drop_last();
        let c = claims.last();
        assert forall|i: int| 0 <= i < init.len() implies (#[trigger] init[i]).offset
            + init[i].length <= u64::MAX by {
            assert(init[i] == claims[i]);
        }
        assert(claims[claims.len() - 1].offset + c.length <= u64::MAX);
        claims_are_acknowledged(xs, init);
        let head = export::with_claims(xs, init);
        extents::insert_adds_the_range(head, c.offset, (c.offset + c.length) as u64);
        assert forall|p: int| #[trigger]
            extents::covered(export::with_claims(xs, claims), p) <==> extents::covered(xs, p)
                || import_laws::claimed(claims, p) by {
            assert(extents::covered(head, p) <==> extents::covered(xs, p) || import_laws::claimed(
                init,
                p,
            ));
            if import_laws::claimed(claims, p) && !(c.offset <= p < c.offset + c.length) {
                let i = choose|i: int|
                    0 <= i < claims.len() && (#[trigger] claims[i]).offset <= p < claims[i].offset
                        + claims[i].length;
                assert(init[i] == claims[i]);
            }
            if import_laws::claimed(init, p) {
                let i = choose|i: int|
                    0 <= i < init.len() && (#[trigger] init[i]).offset <= p < init[i].offset
                        + init[i].length;
                assert(init[i] == claims[i]);
            }
            if c.offset <= p < c.offset + c.length {
                assert(claims[claims.len() - 1].offset <= p);
            }
        }
    }
}

/// Whether every byte of the block is acknowledged, or would be with the claims.
pub open spec fn all_acknowledged(m: ExportModel, claims: Seq<ReceptionClaim>) -> bool {
    forall|p: int|
        0 <= p < m.block.len() ==> #[trigger] extents::covered(m.acknowledged, p)
            || import_laws::claimed(claims, p)
}

/// Every report is acknowledged first, in whatever state the session is.
pub proof fn report_is_always_acknowledged(
    m: ExportModel,
    report_serial: u64,
    upper_bound: u64,
    lower_bound: u64,
    claims: Seq<ReceptionClaim>,
)
    ensures
        ({
            let actions = export::reported(
                m,
                report_serial,
                upper_bound,
                lower_bound,
                claims,
            ).1;
            &&& actions.len() > 0
            &&& actions[0] == ExportActionView::SendSegment(
                (SegmentView::ReportAck { session_id: m.id, report_serial }).wire(),
            )
        }),
{
}

/// A report completes an unfinished session exactly when it leaves no byte of
/// the block unacknowledged; the timers are then stopped, and nothing but the
/// acknowledgement is sent.
pub proof fn session_completes_when_all_is_acknowledged(
    m: ExportModel,
    report_serial: u64,
    upper_bound: u64,
    lower_bound: u64,
    claims: Seq<ReceptionClaim>,
)
    requires
        export::consistent(m),
        !export::finished(m),
        m.block.len() <= u64::MAX,
        forall|i: int|
            0 <= i < claims.len() ==> (#[trigger] claims[i]).offset + claims[i].length <= u64::MAX,
    ensures
        ({
            let (next, actions) = export::reported(
                m,
                report_serial,
                upper_bound,
                lower_bound,
                claims,
            );
            &&& next.state == ExportState::Complete <==> all_acknowledged(m, claims)
            &&& next.state == ExportState::Complete ==> next.timers == Set::<u64>::empty()
                && actions.len() == 1
            &&& next.retries == 0
        }),
{
    claims_are_acknowledged(m.acknowledged, claims);
    let acknowledged = export::with_claims(m.acknowledged, claims);
    extents::complete_means_no_gaps(acknowledged, 0, m.block.len() as u64);
    if all_acknowledged(m, claims) {
        assert forall|p: int| 0 <= p < m.block.len() implies extents::covered(acknowledged, p) by {
            assert(extents::covered(m.acknowledged, p) || import_laws::claimed(claims, p));
        }
    }
    if extents::uncovered(acknowledged, 0, m.block.len() as u64).len() == 0 {
        assert forall|p: int| 0 <= p < m.block.len() implies #[trigger] extents::covered(
            m.acknowledged,
            p,
        ) || import_laws::claimed(claims, p) by {
            assert(extents::covered(acknowledged, p));
        }
    }
}

/// A report that leaves bytes of its scope unacknowledged is answered, within
/// the checkpoint limit, by sending exactly those bytes again.
pub proof fn report_repeats_exactly_what_is_missing(
    m: ExportModel,
    report_serial: u64,
    upper_bound: u64,
    lower_bound: u64,
    claims: Seq<ReceptionClaim>,
)
    requires
        export::consistent(m),
        !export::finished(m),
        m.block.len() <= u64::MAX,
        !export::checkpoints_exhausted(m.config, m.next_serial),
        !all_acknowledged(m, claims),
        forall|i: int|
            0 <= i < claims.len() ==> (#[trigger] claims[i]).offset + claims[i].length <= u64::MAX,
        exists|p: int|
            lower_bound <= p < upper_bound && !#[trigger] extents::covered(m.acknowledged, p)
                && !import_laws::claimed(claims, p),
    ensures
        ({
            let acknowledged = export::with_claims(m.acknowledged, claims);
            let missing = extents::uncovered(acknowledged, lower_bound, upper_bound);
            let pieces = export::repeat_pieces(
                missing,
                export::piece_size(m.config),
                m.next_serial,
                report_serial,
            );
            let informed = ExportModel { retries: 0, acknowledged, ..m };
            &&& export::informed(m, report_serial, upper_bound, lower_bound, claims)
                == export::repeated(informed, missing, report_serial)
            &&& pieces.len() > 0
            &&& pieces.last().checkpoint == export::checkpoint(m.next_serial, report_serial)
            &&& forall|p: int| #[trigger]
                repeats(pieces, p) <==> lower_bound <= p < upper_bound && !extents::covered(
                    m.acknowledged,
                    p,
                ) && !import_laws::claimed(claims, p)
        }),
{
    claims_are_acknowledged(m.acknowledged, claims);
    let acknowledged = export::with_claims(m.acknowledged, claims);
    let missing = extents::uncovered(acknowledged, lower_bound, upper_bound);
    let size = export::piece_size(m.config);
    let pieces = export::repeat_pieces(missing, size, m.next_serial, report_serial);
    session_completes_when_all_is_acknowledged(
        m,
        report_serial,
        upper_bound,
        lower_bound,
        claims,
    );
    extents::complete_means_no_gaps(acknowledged, 0, m.block.len() as u64);
    extents::complete_means_no_gaps(acknowledged, lower_bound, upper_bound);
    extents::gaps_are_the_complement(acknowledged, lower_bound, upper_bound);
    let q = choose|p: int|
        lower_bound <= p < upper_bound && !#[trigger] extents::covered(m.acknowledged, p)
            && !import_laws::claimed(claims, p);
    assert(!extents::covered(acknowledged, q));
    retransmission_sends_exactly_the_ranges(missing, size, m.next_serial, report_serial);
    assert forall|p: int| #[trigger] repeats(pieces, p) <==> lower_bound <= p < upper_bound
        && !extents::covered(m.acknowledged, p) && !import_laws::claimed(claims, p) by {
        assert(repeats(pieces, p) <==> extents::covered(missing, p));
        assert(extents::covered(missing, p) <==> lower_bound <= p < upper_bound
            && !extents::covered(acknowledged, p));
        assert(extents::covered(acknowledged, p) <==> extents::covered(m.acknowledged, p)
            || import_laws::claimed(claims, p));
    }
}

/// A timer that expires within the limits has every unacknowledged byte of the
/// block sent again.
pub proof fn timeout_repeats_everything_missing(m: ExportModel, checkpoint_serial: u64)
    requires
        export::consistent(m),
        !export::finished(m),
        m.block.len() <= u64::MAX,
        m.retries < m.config.max_retransmissions,
        !export::checkpoints_exhausted(m.config, m.next_serial),
        !all_acknowledged(m, seq![]),
    ensures
        ({
            let missing = extents::uncovered(m.acknowledged, 0, m.block.len() as u64);
            let pieces = export::repeat_pieces(
                missing,
                export::piece_size(m.config),
                m.next_serial,
                0,
            );
            let next = ExportModel {
                timers: m.timers.remove(checkpoint_serial),
                retries: m.retries + 1,
                ..m
            };
            &&& export::timed_out(m, checkpoint_serial) == export::repeated(next, missing, 0)
            &&& pieces.len() > 0
            &&& forall|p: int| #[trigger]
                repeats(pieces, p) <==> 0 <= p < m.block.len() && !extents::covered(
                    m.acknowledged,
                    p,
                )
        }),
{
    let missing = extents::uncovered(m.acknowledged, 0, m.block.len() as u64);
    let size = export::piece_size(m.config);
    let pieces = export::repeat_pieces(missing, size, m.next_serial, 0);
    extents::complete_means_no_gaps(m.acknowledged, 0, m.block.len() as u64);
    extents::gaps_are_the_complement(m.acknowledged, 0, m.block.len() as u64);
    retransmission_sends_exactly_the_ranges(missing, size, m.next_serial, 0);
    assert forall|p: int| #[trigger] repeats(pieces, p) <==> 0 <= p < m.block.len()
        && !extents::covered(m.acknowledged, p) by {
        assert(repeats(pieces, p) <==> extents::covered(missing, p));
    }
}

/// The sender gives up when a timer expires once more than retransmissions are
/// allowed, or when a retransmission would need one checkpoint too many.
pub proof fn sender_gives_up_at_its_limits(m: ExportModel, checkpoint_serial: u64)
    requires
        !export::finished(m),
        m.retries >= m.config.max_retransmissions || export::checkpoints_exhausted(
            m.config,
            m.next_serial,
        ),
    ensures
        ({
            let (next, actions) = export::timed_out(m, checkpoint_serial);
            &&& next.state == ExportState::Cancelled
            &&& next.timers == Set::<u64>::empty()
            &&& next.next_serial == m.next_serial
            &&& actions == export::given_up(m).1
        }),
{
}

/// A session that has come to its end ignores timers, and answers a report with
/// nothing but the acknowledgement.
pub proof fn finished_session_only_acknowledges(
    m: ExportModel,
    checkpoint_serial: u64,
    report_serial: u64,
    upper_bound: u64,
    lower_bound: u64,
    claims: Seq<ReceptionClaim>,
)
    requires
        export::finished(m),
    ensures
        export::timed_out(m, checkpoint_serial) == (m, Seq::<ExportActionView>::empty()),
        export::reported(m, report_serial, upper_bound, lower_bound, claims).0 == m,
        export::reported(m, report_serial, upper_bound, lower_bound, claims).1.len() == 1,
{
}

/// Checkpoint serial numbers strictly increase within a session: a step assigns
/// at most one, it is the next one, and its timer runs from then on.
pub proof fn checkpoint_serials_increase(
    m: ExportModel,
    checkpoint_serial: u64,
    report_serial: u64,
    upper_bound: u64,
    lower_bound: u64,
    claims: Seq<ReceptionClaim>,
)
    ensures
        ({
            let reported = export::reported(m, report_serial, upper_bound, lower_bound, claims).0;
            let timed_out = export::timed_out(m, checkpoint_serial).0;
            &&& m.next_serial <= reported.next_serial <= m.next_serial + 1
            &&& m.next_serial <= timed_out.next_serial <= m.next_serial + 1
            &&& reported.next_serial > m.next_serial ==> reported.timers.contains(
                m.next_serial as u64,
            )
            &&& timed_out.next_serial > m.next_serial ==> timed_out.timers.contains(
                m.next_serial as u64,
            )
        }),
{
}

/// Whether every timer that runs is that of a checkpoint that was sent.
pub open spec fn timers_are_assigned(m: ExportModel) -> bool {
    forall|s: u64| #[trigger] m.timers.contains(s) ==> 1 <= s < m.next_serial
}

/// The timers of a new session are those of checkpoints that were sent, and
/// reports and expired timers keep it so.
pub proof fn timers_belong_to_checkpoints(
    m: ExportModel,
    checkpoint_serial: u64,
    report_serial: u64,
    upper_bound: u64,
    lower_bound: u64,
    claims: Seq<ReceptionClaim>,
)
    requires
        export::consistent(m),
        m.next_serial <= u64::MAX,
        timers_are_assigned(m),
    ensures
        timers_are_assigned(export::opened(m.id, m.block, m.client_service_id, m.config)),
        timers_are_assigned(
            export::reported(m, report_serial, upper_bound, lower_bound, claims).0,
        ),
        timers_are_assigned(export::timed_out(m, checkpoint_serial).0),
{
}

/// Sending pieces gives, for each of them in order, its segment and, for a
/// checkpoint, the start of its timer, and nothing else.
pub proof fn sent_actions_follow_the_pieces(m: ExportModel, pieces: Seq<Piece>)
    ensures
        export::sent(m, pieces).len() == pieces.len() + export::checkpoint_count(pieces),
        forall|i: int|
            0 <= i < pieces.len() ==> {
                let at = i + export::checkpoint_count(#[trigger] pieces.take(i)) as int;
                &&& at < export::sent(m, pieces).len()
                &&& export::sent(m, pieces)[at] == ExportActionView::SendSegment(
                    export::data_segment(m, pieces[i]).wire(),
                )
                &&& pieces[i].checkpoint matches Some(info) ==> at + 1 < export::sent(
                    m,
                    pieces,
                ).len() && export::sent(m, pieces)[at + 1] == (ExportActionView::StartTimer {
                    checkpoint_serial: info.serial,
                    duration: m.config.retransmit_timeout,
                })
            },
    decreases pieces.len(),
{
    if pieces.len() > 0 {
        let init = pieces.drop_last();
        sent_actions_follow_the_pieces(m, init);
        let head = export::sent(m, init);
        let all = export::sent(m, pieces);
        assert forall|i: int| 0 <= i < pieces.len() implies {
            let at = i + export::checkpoint_count(#[trigger] pieces.take(i)) as int;
            &&& at < all.len()
            &&& all[at] == ExportActionView::SendSegment(
                export::data_segment(m, pieces[i]).wire(),
            )
            &&& pieces[i].checkpoint matches Some(info) ==> at + 1 < all.len() && all[at + 1] == (
            ExportActionView::StartTimer {
                checkpoint_serial: info.serial,
                duration: m.config.retransmit_timeout,
            })
        } by {
            let at = i + export::checkpoint_count(pieces.take(i)) as int;
            if i < init.len() {
                assert(init.take(i) == pieces.take(i));
                assert(init[i] == pieces[i]);
                assert(all[at] == head[at]);
            } else {
                assert(pieces.take(i) == init);
                assert(all[at] == export::piece_actions(m, pieces.last())[0]);
                if pieces[i].checkpoint is Some {
                    assert(all[at + 1] == export::piece_actions(m, pieces.last())[1]);
                }
            }
        }
    }
}

/// Resuming gives back every suspended timer that still runs, in order and with
/// its remaining time.
pub proof fn resume_gives_back_running_timers(timers: Set<u64>, suspended: Seq<(u64, Duration)>)
    requires
        forall|i: int| 0 <= i < suspended.len() ==> timers.contains((#[trigger] suspended[i]).0),
    ensures
        export::resumed(timers, suspended) == suspended.map_values(
            |x: (u64, Duration)|
                ExportActionView::ResumeTimer { checkpoint_serial: x.0, remaining: x.1 },
        ),
    decreases suspended.len(),
{
    let f = |x: (u64, Duration)|
        ExportActionView::ResumeTimer { checkpoint_serial: x.0, remaining: x.1 };
    if suspended.len() > 0 {
        let init = suspended.drop_last();
        assert forall|i: int| 0 <= i < init.len() implies timers.contains(
            (#[trigger] init[i]).0,
        ) by {
            assert(init[i] == suspended[i]);
        }
        assert(timers.contains(suspended[suspended.len() - 1].0));
        resume_gives_back_running_timers(timers, init);
        assert(export::resumed(timers, suspended) =~= suspended.map_values(f));
    } else {
        assert(export::resumed(timers, suspended) =~= suspended.map_values(f));
    }
}

/// Timers that no longer run are not resumed.
pub proof fn resume_skips_stopped_timers(timers: Set<u64>, suspended: Seq<(u64, Duration)>)
    ensures
        forall|i: int|
            0 <= i < export::resumed(timers, suspended).len() ==> ((#[trigger] export::resumed(
                timers,
                suspended,
            )[i]) matches ExportActionView::ResumeTimer { checkpoint_serial, .. }
                && timers.contains(checkpoint_serial)),
        export::resumed(timers, suspended).len() <= suspended.len(),
    decreases suspended.len(),
{
    if suspended.len() > 0 {
        resume_skips_stopped_timers(timers, suspended.drop_last());
    }
}

// ---------------------------------------------------------------------------
// Limits of the machine
// ---------------------------------------------------------------------------
/// A data segment of the session's block fits in memory.
pub open spec fn segments_fit(m: ExportModel) -> bool {
    72 + m.block.len() <= isize::MAX || 72 + export::piece_size(m.config) <= isize::MAX
}

/// Pieces that lie inside the block and are not larger than allowed.
pub open spec fn sound(m: ExportModel, pieces: Seq<Piece>) -> bool {
    forall|i: int|
        0 <= i < pieces.len() ==> (#[trigger] pieces[i]).from <= pieces[i].to <= m.block.len()
            && pieces[i].to <= pieces[i].from + export::piece_size(m.config)
}

proof fn lemma_sent_representable(m: ExportModel, pieces: Seq<Piece>)
    requires
        segments_fit(m),
        sound(m, pieces),
    ensures
        forall|i: int|
            0 <= i < export::sent(m, pieces).len() ==> ((#[trigger] export::sent(m, pieces)[i])
                matches ExportActionView::SendSegment(w) ==> w.len() <= isize::MAX),
    decreases pieces.len(),
{
    if pieces.len() > 0 {
        let init = pieces.drop_last();
        let last = pieces.last();
        assert(pieces[pieces.len() - 1].from <= last.to);
        assert forall|i: int| 0 <= i < init.len() implies (#[trigger] init[i]).from <= init[i].to
            <= m.block.len() && init[i].to <= init[i].from + export::piece_size(m.config) by {
            assert(init[i] == pieces[i]);
        }
        lemma_sent_representable(m, init);
        segment::segment_size_is_bounded(export::data_segment(m, last));
        let head = export::sent(m, init);
        let all = export::sent(m, pieces);
        assert forall|i: int| 0 <= i < all.len() implies ((#[trigger] all[i]) matches
            ExportActionView::SendSegment(w) ==> w.len() <= isize::MAX) by {
            if i < head.len() {
                assert(all[i] == head[i]);
            } else {
                assert(all[i] == export::piece_actions(m, last)[i - head.len()]);
            }
        }
    }
}

proof fn lemma_few_checkpoints(pieces: Seq<Piece>)
    ensures
        export::checkpoint_count(pieces) <= pieces.len(),
    decreases pieces.len(),
{
    if pieces.len() > 0 {
        lemma_few_checkpoints(pieces.drop_last());
    }
}

proof fn lemma_few_first_pieces(
    len: nat,
    config: ExportConfig,
    from: nat,
    index: nat,
    serial: nat,
)
    requires
        from <= len,
    ensures
        export::first_pieces(len, config, from, index, serial).len() <= len - from + 1,
    decreases len - from,
{
    let size = export::piece_size(config);
    if len - from > size {
        let marking = export::first_marking(config, index, serial, false);
        let next_serial = if marking.1 is Some {
            serial + 1
        } else {
            serial
        };
        lemma_few_first_pieces(len, config, from + size, index + 1, next_serial);
    }
}

/// Opening a session leads to nothing that the machine cannot hold, as long as
/// its segments fit in memory.
pub proof fn opening_is_representable(
    id: SessionId,
    block: Seq<u8>,
    client_service_id: u64,
    config: ExportConfig,
)
    requires
        block.len() <= isize::MAX,
        segments_fit(export::opened(id, block, client_service_id, config)),
    ensures
        export::representable(export::opening(id, block, client_service_id, config)),
{
    let m = export::opened(id, block, client_service_id, config);
    let pieces = export::first_pieces(block.len(), config, 0, 0, 1);
    lemma_first_pieces(block.len(), config, 0, 0, 1);
    lemma_few_first_pieces(block.len(), config, 0, 0, 1);
    lemma_few_checkpoints(pieces);
    assert forall|i: int| 0 <= i < pieces.len() implies (#[trigger] pieces[i]).from <= pieces[i].to
        <= m.block.len() && pieces[i].to <= pieces[i].from + export::piece_size(m.config) by {
        if i < pieces.len() - 1 {
            assert(pieces[i].to < block.len());
        } else {
            assert(pieces[i] == pieces.last());
        }
    }
    lemma_sent_representable(m, pieces);
}

proof fn lemma_repeated_representable(
    m: ExportModel,
    ranges: Seq<(u64, u64)>,
    responding_report_serial: u64,
)
    requires
        segments_fit(m),
        extents::canonical(ranges),
        ranges.len() > 0,
        export::inside(ranges, m.block),
        m.next_serial < u64::MAX,
        m.retries <= u32::MAX,
    ensures
        export::representable(export::repeated(m, ranges, responding_report_serial)),
{
    let size = export::piece_size(m.config);
    let pieces = export::repeat_pieces(ranges, size, m.next_serial, responding_report_serial);
    retransmission_sends_exactly_the_ranges(ranges, size, m.next_serial, responding_report_serial);
    assert forall|i: int| 0 <= i < pieces.len() implies (#[trigger] pieces[i]).from <= pieces[i].to
        <= m.block.len() && pieces[i].to <= pieces[i].from + size by {
        let p = pieces[i].to - 1;
        assert(repeats(pieces, p));
        assert(extents::covered(ranges, p));
        let k = choose|k: int|
            0 <= k < ranges.len() && (#[trigger] ranges[k]).0 <= p < ranges[k].1;
        assert(ranges[k].1 <= m.block.len());
    }
    lemma_sent_representable(m, pieces);
}

/// A report leads to nothing that the machine cannot hold, as long as it can be
/// taken in, the segments fit in memory, and the serial numbers do not run out.
pub proof fn reporting_is_representable(
    m: ExportModel,
    report_serial: u64,
    upper_bound: u64,
    lower_bound: u64,
    claims: Seq<ReceptionClaim>,
)
    requires
        export::consistent(m),
        segments_fit(m),
        m.next_serial < u64::MAX,
        m.retries <= u32::MAX,
        export::admissible(m, upper_bound, lower_bound, claims),
    ensures
        export::representable(
            export::reported(m, report_serial, upper_bound, lower_bound, claims),
        ),
{
    let ack = SegmentView::ReportAck { session_id: m.id, report_serial };
    let whole = export::reported(m, report_serial, upper_bound, lower_bound, claims);
    segment::segment_size_is_bounded(ack);
    if !export::finished(m) {
        claims_are_acknowledged(m.acknowledged, claims);
        let acknowledged = export::with_claims(m.acknowledged, claims);
        let next = ExportModel { retries: 0, acknowledged, ..m };
        let unclaimed = extents::uncovered(acknowledged, lower_bound, upper_bound);
        extents::gaps_are_the_complement(acknowledged, lower_bound, upper_bound);
        lemma_given_up_representable(next);
        if unclaimed.len() > 0 && export::inside(unclaimed, m.block) {
            lemma_repeated_representable(next, unclaimed, report_serial);
        }
        let step = export::informed(m, report_serial, upper_bound, lower_bound, claims);
        assert forall|i: int| 0 <= i < whole.1.len() implies ((#[trigger] whole.1[i]) matches
            ExportActionView::SendSegment(w) ==> w.len() <= isize::MAX) by {
            if i > 0 {
                assert(whole.1[i] == step.1[i - 1]);
            }
        }
    }
}

proof fn lemma_given_up_representable(m: ExportModel)
    requires
        m.next_serial <= u64::MAX,
        m.retries <= u32::MAX,
    ensures
        export::representable(export::given_up(m)),
{
    segment::segment_size_is_bounded(
        SegmentView::Cancel {
            session_id: m.id,
            reason: CancelReason::RetransmitLimitExceeded,
            direction: CancelDirection::FromSender,
        },
    );
}

/// A timer that expires leads to nothing that the machine cannot hold, as long
/// as the segments fit in memory and the counters do not run out.
pub proof fn timeout_is_representable(m: ExportModel, checkpoint_serial: u64)
    requires
        export::consistent(m),
        segments_fit(m),
        m.block.len() <= u64::MAX,
        m.next_serial < u64::MAX,
        m.retries < u32::MAX,
    ensures
        export::representable(export::timed_out(m, checkpoint_serial)),
{
    let next = ExportModel {
        timers: m.timers.remove(checkpoint_serial),
        retries: m.retries + 1,
        ..m
    };
    let unclaimed = extents::uncovered(m.acknowledged, 0, m.block.len() as u64);
    extents::gaps_are_the_complement(m.acknowledged, 0, m.block.len() as u64);
    lemma_given_up_representable(next);
    if unclaimed.len() > 0 {
        assert(export::inside(unclaimed, m.block));
        lemma_repeated_representable(next, unclaimed, 0);
    }
}

// ---------------------------------------------------------------------------
// From sender to receiver
// ---------------------------------------------------------------------------
/// The arrival of a piece at the receiver.
pub open spec fn arrival_of(m: ExportModel, piece: Piece) -> Arrival {
    Arrival {
        segment_type: piece.segment_type,
        client_service_id: m.client_service_id,
        offset: piece.from as u64,
        data: m.block.subrange(piece.from as int, piece.to as int),
        checkpoint: piece.checkpoint,
    }
}

/// The segments of the first transmission survive the wire: what the receiver
/// decodes is what the sender sent.
pub proof fn transmission_survives_the_wire(
    id: SessionId,
    block: Seq<u8>,
    client_service_id: u64,
    config: ExportConfig,
    i: int,
    tail: Seq<u8>,
)
    requires
        block.len() <= u64::MAX,
        0 <= i < export::first_pieces(block.len(), config, 0, 0, 1).len(),
    ensures
        ({
            let m = export::opened(id, block, client_service_id, config);
            let s = export::data_segment(
                m,
                export::first_pieces(block.len(), config, 0, 0, 1)[i],
            );
            segment::read_segment(s.wire() + tail) == (
                Ok::<SegmentView, segment::SegmentError>(s),
                tail,
            )
        }),
{
    let pieces = export::first_pieces(block.len(), config, 0, 0, 1);
    let m = export::opened(id, block, client_service_id, config);
    let s = export::data_segment(m, pieces[i]);
    lemma_first_pieces(block.len(), config, 0, 0, 1);
    if config.green {
        lemma_first_pieces_green(block.len(), config, 0, 0, 1);
    } else {
        lemma_first_pieces_red(block.len(), config, 0, 0, 1);
    }
    assert(pieces[i].to <= block.len()) by {
        if i < pieces.len() - 1 {
            assert(pieces[i].to < block.len());
        } else {
            assert(pieces[i] == pieces.last());
        }
    }
    assert(s.valid());
    segment::segment_round_trip(s, tail);
}

/// What a red sender transmits, a receiver without limits delivers: if every
/// segment of the first transmission arrives, in whatever order and however
/// often, the receiver is complete and has delivered the sender's block, once.
pub proof fn transmitted_block_is_delivered(
    id: SessionId,
    block: Seq<u8>,
    client_service_id: u64,
    config: ExportConfig,
    receiver: ImportConfig,
    order: Seq<int>,
)
    requires
        block.len() <= u64::MAX,
        !config.green,
        receiver.expected_client_service_id == client_service_id,
        receiver.max_reports is None,
        receiver.max_red_data_bytes is Some ==> block.len() <= receiver.max_red_data_bytes->0,
        forall|k: int|
            0 <= k < order.len() ==> 0 <= #[trigger] order[k] < export::first_pieces(
                block.len(),
                config,
                0,
                0,
                1,
            ).len(),
        forall|i: int|
            0 <= i < export::first_pieces(block.len(), config, 0, 0, 1).len()
                ==> #[trigger] order.contains(i),
    ensures
        ({
            let m = export::opened(id, block, client_service_id, config);
            let pieces = export::first_pieces(block.len(), config, 0, 0, 1);
            let arrivals = order.map_values(|i: int| arrival_of(m, pieces[i]));
            let (last, actions) = import_laws::all_arrived(import::fresh(id, receiver), arrivals);
            &&& last.state == ImportState::Complete
            &&& import_laws::delivers_once(actions, block)
        }),
{
    let m = export::opened(id, block, client_service_id, config);
    let pieces = export::first_pieces(block.len(), config, 0, 0, 1);
    let size = export::piece_size(config);
    let arrivals = order.map_values(|i: int| arrival_of(m, pieces[i]));
    lemma_first_pieces(block.len(), config, 0, 0, 1);
    assert forall|k: int| 0 <= k < arrivals.len() implies (#[trigger] arrivals[k]).is_part_of(
        block,
        client_service_id,
    ) by {
        assert(0 <= order[k] < pieces.len());
        lemma_first_piece_is_part(id, block, client_service_id, config, order[k]);
    }
    let z = pieces.len() - 1;
    assert(order.contains(z));
    let kz = choose|k: int| 0 <= k < order.len() && order[k] == z;
    lemma_first_piece_is_part(id, block, client_service_id, config, z);
    assert(arrivals[kz].marks_end());
    assert forall|p: int| 0 <= p < block.len() implies #[trigger] import_laws::carried(
        arrivals,
        p,
    ) by {
        let i = lemma_piece_at(pieces, 0, block.len(), size, p);
        assert(order.contains(i));
        let k = choose|k: int| 0 <= k < order.len() && order[k] == i;
        lemma_first_piece_is_part(id, block, client_service_id, config, i);
        assert(arrivals[k].carries(p));
    }
    import_laws::complete_block_is_delivered(id, receiver, block, arrivals);
}

/// What a green sender transmits is delivered when its last segment, the end
/// mark, first arrives, as number `e` of those that do. The block that a new
/// receiver delivers, once, has the length of the sender's block and holds its
/// bytes wherever a segment has arrived by then, and 0 elsewhere. If all other
/// segments have, in whatever order and however often, it is the sender's block.
pub proof fn transmitted_green_block_is_delivered(
    id: SessionId,
    block: Seq<u8>,
    client_service_id: u64,
    config: ExportConfig,
    receiver: ImportConfig,
    order: Seq<int>,
    e: int,
)
    requires
        block.len() <= u64::MAX,
        config.green,
        receiver.expected_client_service_id == client_service_id,
        forall|k: int|
            0 <= k < order.len() ==> 0 <= #[trigger] order[k] < export::first_pieces(
                block.len(),
                config,
                0,
                0,
                1,
            ).len(),
        0 <= e < order.len(),
        order[e] == export::first_pieces(block.len(), config, 0, 0, 1).len() - 1,
        forall|k: int| 0 <= k < e ==> #[trigger] order[k] != order[e],
    ensures
        ({
            let m = export::opened(id, block, client_service_id, config);
            let pieces = export::first_pieces(block.len(), config, 0, 0, 1);
            let arrivals = order.map_values(|i: int| arrival_of(m, pieces[i]));
            let (last, actions) = import_laws::all_arrived(import::fresh(id, receiver), arrivals);
            let delivered = Seq::new(
                block.len(),
                |p: int|
                    if import_laws::carried(arrivals.take(e + 1), p) {
                        block[p]
                    } else {
                        0u8
                    },
            );
            &&& last.state == ImportState::Complete
            &&& actions == seq![import::ImportActionView::DeliverBlock(delivered)]
            &&& (forall|i: int| 0 <= i < pieces.len() ==> #[trigger] order.take(e + 1).contains(i))
                ==> delivered == block
        }),
{
    let m = export::opened(id, block, client_service_id, config);
    let pieces = export::first_pieces(block.len(), config, 0, 0, 1);
    let size = export::piece_size(config);
    let arrivals = order.map_values(|i: int| arrival_of(m, pieces[i]));
    let come = arrivals.take(e + 1);
    lemma_first_pieces(block.len(), config, 0, 0, 1);
    assert forall|k: int| 0 <= k < arrivals.len() implies {
        let i = order[k];
        &&& #[trigger] arrivals[k] == arrival_of(m, pieces[i])
        &&& pieces[i].to <= block.len()
        &&& arrivals[k].segment_type == if i == pieces.len() - 1 {
            SegmentType::GreenEob
        } else {
            SegmentType::GreenData
        }
        &&& arrivals[k].offset == pieces[i].from
        &&& arrivals[k].end() == pieces[i].to
    } by {
        assert(0 <= order[k] < pieces.len());
        lemma_green_piece(id, block, client_service_id, config, order[k]);
    }
    let green = arrivals.take(e);
    assert forall|i: int| 0 <= i < green.len() implies {
        &&& (#[trigger] green[i]).segment_type == SegmentType::GreenData
        &&& green[i].end() <= u64::MAX
    } by {
        assert(green[i] == arrivals[i]);
        assert(order[i] != order[e]);
    }
    assert(arrivals[e].end() == block.len());
    import_laws::end_mark_delivers_green_data(id, receiver, arrivals, e);
    let delivered = Seq::new(
        block.len(),
        |p: int|
            if import_laws::carried(come, p) {
                block[p]
            } else {
                0u8
            },
    );
    assert(delivered == import_laws::laid_out(come, block.len())) by {
        assert forall|p: int| 0 <= p < block.len() implies delivered[p] == import_laws::laid_out(
            come,
            block.len(),
        )[p] by {
            import_laws::byte_received_is_the_last_one(come, p);
            if import_laws::carried(come, p) {
                let i = choose|i: int|
                    0 <= i < come.len() && (#[trigger] come[i]).carries(p)
                        && import_laws::byte_received(come, p) == Some(come[i].byte_at(p));
                assert(come[i] == arrivals[i]);
            }
        }
    }
    if forall|i: int| 0 <= i < pieces.len() ==> #[trigger] order.take(e + 1).contains(i) {
        assert forall|p: int| 0 <= p < block.len() implies #[trigger] import_laws::carried(
            come,
            p,
        ) by {
            let i = lemma_piece_at(pieces, 0, block.len(), size, p);
            let so_far = order.take(e + 1);
            assert(so_far.contains(i));
            let k = choose|k: int| 0 <= k < so_far.len() && so_far[k] == i;
            assert(order[k] == i);
            assert(come[k] == arrivals[k]);
            assert(come[k].carries(p));
        }
        assert(delivered == block);
    }
}

/// A segment of a green first transmission arrives with the bytes of its piece,
/// and only the last one marks the end.
proof fn lemma_green_piece(
    id: SessionId,
    block: Seq<u8>,
    client_service_id: u64,
    config: ExportConfig,
    i: int,
)
    requires
        block.len() <= u64::MAX,
        config.green,
        0 <= i < export::first_pieces(block.len(), config, 0, 0, 1).len(),
    ensures
        ({
            let pieces = export::first_pieces(block.len(), config, 0, 0, 1);
            let a = arrival_of(export::opened(id, block, client_service_id, config), pieces[i]);
            &&& pieces[i].to <= block.len()
            &&& i == pieces.len() - 1 ==> pieces[i].to == block.len()
            &&& a.segment_type == if i == pieces.len() - 1 {
                SegmentType::GreenEob
            } else {
                SegmentType::GreenData
            }
            &&& a.client_service_id == client_service_id
            &&& a.offset == pieces[i].from
            &&& a.end() == pieces[i].to
            &&& a.data == block.subrange(pieces[i].from as int, pieces[i].to as int)
        }),
{
    let pieces = export::first_pieces(block.len(), config, 0, 0, 1);
    lemma_first_pieces(block.len(), config, 0, 0, 1);
    lemma_first_pieces_green(block.len(), config, 0, 0, 1);
    if i < pieces.len() - 1 {
        assert(pieces[i].to < block.len());
    } else {
        assert(pieces[i] == pieces.last());
    }
}

/// A segment of a red first transmission arrives as a part of the block.
proof fn lemma_first_piece_is_part(
    id: SessionId,
    block: Seq<u8>,
    client_service_id: u64,
    config: ExportConfig,
    i: int,
)
    requires
        block.len() <= u64::MAX,
        !config.green,
        0 <= i < export::first_pieces(block.len(), config, 0, 0, 1).len(),
    ensures
        ({
            let m = export::opened(id, block, client_service_id, config);
            let pieces = export::first_pieces(block.len(), config, 0, 0, 1);
            let a = arrival_of(m, pieces[i]);
            &&& a.is_part_of(block, client_service_id)
            &&& i == pieces.len() - 1 ==> a.marks_end()
            &&& forall|p: int| #[trigger] a.carries(p) <==> pieces[i].from <= p < pieces[i].to
        }),
{
    let m = export::opened(id, block, client_service_id, config);
    let pieces = export::first_pieces(block.len(), config, 0, 0, 1);
    let a = arrival_of(m, pieces[i]);
    lemma_first_pieces(block.len(), config, 0, 0, 1);
    lemma_first_pieces_red(block.len(), config, 0, 0, 1);
    if i < pieces.len() - 1 {
        assert(pieces[i].to < block.len());
        assert(!a.marks_end());
    } else {
        assert(pieces[i] == pieces.last());
    }
}

/// A segment that is sent again arrives as a part of the block.
proof fn lemma_missing_piece_is_part(
    sender: ExportModel,
    report_serial: u64,
    claims: Seq<ReceptionClaim>,
    i: int,
)
    requires
        sender.block.len() <= u64::MAX,
        export::consistent(sender),
        forall|k: int|
            0 <= k < claims.len() ==> (#[trigger] claims[k]).offset + claims[k].length <= u64::MAX,
        0 <= i < missing_pieces(sender, report_serial, claims).len(),
    ensures
        ({
            let pieces = missing_pieces(sender, report_serial, claims);
            let a = arrival_of(sender, pieces[i]);
            &&& a.is_part_of(sender.block, sender.client_service_id)
            &&& forall|p: int| #[trigger] a.carries(p) <==> pieces[i].from <= p < pieces[i].to
        }),
{
    let len = sender.block.len() as u64;
    let pieces = missing_pieces(sender, report_serial, claims);
    let acknowledged = export::with_claims(sender.acknowledged, claims);
    let missing = extents::uncovered(acknowledged, 0, len);
    let size = export::piece_size(sender.config);
    claims_are_acknowledged(sender.acknowledged, claims);
    extents::gaps_are_the_complement(acknowledged, 0, len);
    assert(missing.len() > 0);
    retransmission_sends_exactly_the_ranges(missing, size, sender.next_serial, report_serial);
    assert(repeats(pieces, pieces[i].to - 1));
    assert(extents::covered(missing, pieces[i].to - 1));
    if i == pieces.len() - 1 {
        assert(pieces[i] == pieces.last());
    }
}

/// Losses are made up for: a sender that acts on a report of what the receiver
/// has, and that has never been told of more than that, sends what is missing.
/// When these segments have arrived too, in whatever order and however often,
/// the receiver is complete and has delivered the block, once.
pub proof fn lost_segments_are_recovered(
    id: SessionId,
    sender: ExportModel,
    receiver: ImportConfig,
    arrived: Seq<Arrival>,
    report_serial: u64,
    claims: Seq<ReceptionClaim>,
    order: Seq<int>,
)
    requires
        sender.block.len() <= u64::MAX,
        export::consistent(sender),
        receiver.expected_client_service_id == sender.client_service_id,
        receiver.max_reports is None,
        receiver.max_red_data_bytes is Some ==> sender.block.len()
            <= receiver.max_red_data_bytes->0,
        forall|k: int|
            0 <= k < arrived.len() ==> (#[trigger] arrived[k]).is_part_of(
                sender.block,
                sender.client_service_id,
            ),
        import_laws::end_marked(arrived),
        forall|i: int|
            0 <= i < claims.len() ==> (#[trigger] claims[i]).offset + claims[i].length <= u64::MAX,
        forall|p: int|
            0 <= p < sender.block.len() && (extents::covered(sender.acknowledged, p)
                || import_laws::claimed(claims, p)) ==> #[trigger] import_laws::carried(arrived, p),
        forall|k: int|
            0 <= k < order.len() ==> 0 <= #[trigger] order[k] < missing_pieces(
                sender,
                report_serial,
                claims,
            ).len(),
        forall|i: int|
            0 <= i < missing_pieces(sender, report_serial, claims).len()
                ==> #[trigger] order.contains(i),
    ensures
        ({
            let pieces = missing_pieces(sender, report_serial, claims);
            let arrivals = arrived + order.map_values(|i: int| arrival_of(sender, pieces[i]));
            let (last, actions) = import_laws::all_arrived(import::fresh(id, receiver), arrivals);
            &&& last.state == ImportState::Complete
            &&& import_laws::delivers_once(actions, sender.block)
        }),
{
    let block = sender.block;
    let len = block.len() as u64;
    let pieces = missing_pieces(sender, report_serial, claims);
    let repeated = order.map_values(|i: int| arrival_of(sender, pieces[i]));
    let arrivals = arrived + repeated;
    let acknowledged = export::with_claims(sender.acknowledged, claims);
    let missing = extents::uncovered(acknowledged, 0, len);
    let size = export::piece_size(sender.config);
    claims_are_acknowledged(sender.acknowledged, claims);
    extents::gaps_are_the_complement(acknowledged, 0, len);
    if missing.len() > 0 {
        retransmission_sends_exactly_the_ranges(missing, size, sender.next_serial, report_serial);
    }
    assert forall|k: int| 0 <= k < arrivals.len() implies (#[trigger] arrivals[k]).is_part_of(
        block,
        sender.client_service_id,
    ) by {
        if k < arrived.len() {
            assert(arrivals[k] == arrived[k]);
        } else {
            assert(0 <= order[k - arrived.len()] < pieces.len());
            lemma_missing_piece_is_part(
                sender,
                report_serial,
                claims,
                order[k - arrived.len()],
            );
        }
    }
    let e = choose|i: int| 0 <= i < arrived.len() && (#[trigger] arrived[i]).marks_end();
    assert(arrivals[e] == arrived[e]);
    assert forall|p: int| 0 <= p < block.len() implies #[trigger] import_laws::carried(
        arrivals,
        p,
    ) by {
        if import_laws::carried(arrived, p) {
            let i = choose|i: int| 0 <= i < arrived.len() && (#[trigger] arrived[i]).carries(p);
            assert(arrivals[i] == arrived[i]);
        } else {
            assert(!extents::covered(acknowledged, p));
            assert(extents::covered(missing, p));
            assert(missing.len() > 0);
            assert(repeats(pieces, p));
            let i = choose|i: int|
                0 <= i < pieces.len() && (#[trigger] pieces[i]).from <= p < pieces[i].to;
            assert(order.contains(i));
            let k = choose|k: int| 0 <= k < order.len() && order[k] == i;
            lemma_missing_piece_is_part(sender, report_serial, claims, i);
            assert(arrivals[arrived.len() + k].carries(p));
        }
    }
    import_laws::complete_block_is_delivered(id, receiver, block, arrivals);
}

/// What the sender sends again when a report on the whole block has come in.
pub open spec fn missing_pieces(
    sender: ExportModel,
    report_serial: u64,
    claims: Seq<ReceptionClaim>,
) -> Seq<Piece> {
    export::repeat_pieces(
        extents::uncovered(
            export::with_claims(sender.acknowledged, claims),
            0,
            sender.block.len() as u64,
        ),
        export::piece_size(sender.config),
        sender.next_serial,
        report_serial,
    )
}

/// Consecutive pieces leave no byte out.
proof fn lemma_piece_at(pieces: Seq<Piece>, from: nat, to: nat, size: nat, p: int) -> (i: int)
    requires
        consecutive(pieces, from, to, size),
        from <= p < to,
    ensures
        0 <= i < pieces.len(),
        pieces[i].from <= p < pieces[i].to,
    decreases pieces.len(),
{
    let z = pieces.len() - 1;
    if pieces[z].from <= p {
        z
    } else {
        let init = pieces.drop_last();
        assert(z > 0);
        assert(pieces[z - 1].to == pieces[z].from);
        assert(init.last() == pieces[z - 1]);
        assert forall|i: int| 0 <= i < init.len() implies (#[trigger] init[i]).from <= init[i].to
            <= init[i].from + size by {
            assert(init[i] == pieces[i]);
        }
        assert forall|i: int, j: int| 0 <= i && j == i + 1 && j < init.len() implies (
        #[trigger] init[i]).to == (#[trigger] init[j]).from by {
            assert(init[i] == pieces[i] && init[j] == pieces[j]);
        }
        lemma_piece_at(init, from, pieces[z].from, size, p)
    }
}

} // verus!
