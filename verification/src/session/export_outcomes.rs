//! What the calls of an export session do, told by the bytes of the block and
//! the positions that have been confirmed.

use crate::buffer;
use crate::segment::{self, CheckpointInfo, ReceptionClaim, SegmentType, SegmentView};
use crate::session::export::{
    self, ExportAction, ExportActionView, ExportConfig, ExportModel, ExportState, Piece,
};
use crate::session::export_laws;
use crate::session::extents;
use crate::session::import_laws;
use crate::session::{CancelDirection, CancelReason, SessionId};
use std::time::Duration;
use vstd::prelude::*;

verus! {

// ---------------------------------------------------------------------------
// First transmission
// ---------------------------------------------------------------------------
/// The number of bytes that a segment carries, but for the last of a row.
pub open spec fn segment_size(config: ExportConfig) -> int {
    if config.max_segment_size >= 1 {
        config.max_segment_size as int
    } else {
        1
    }
}

/// The number of segments that a block of `len` bytes takes: as few as can carry
/// it, and one for an empty block.
pub open spec fn segment_count(len: nat, config: ExportConfig) -> int {
    if len == 0 {
        1
    } else {
        (len + segment_size(config) - 1) / segment_size(config)
    }
}

/// The number of checkpoints before segment `i`, which is not after the last: one
/// for every `checkpoint_every_n` segments, as far as they are allowed.
pub open spec fn checkpoints_before(config: ExportConfig, i: int) -> int {
    let n = if config.checkpoint_every_n == 0 {
        0
    } else {
        i / config.checkpoint_every_n as int
    };
    if config.green {
        0
    } else {
        match config.max_checkpoints {
            Some(max) => if n <= max {
                n
            } else {
                max as int
            },
            None => n,
        }
    }
}

/// The checkpoint that segment `i` carries. The last segment of a red block has
/// one, and every `checkpoint_every_n`th, as far as they are allowed. Their serial
/// numbers count up from 1, and they answer no report.
pub open spec fn first_checkpoint(config: ExportConfig, i: int, last: bool) -> Option<
    CheckpointInfo,
> {
    if !config.green && (last || config.checkpoint_every_n > 0 && (i + 1)
        % config.checkpoint_every_n as int == 0 && (config.max_checkpoints is Some ==> (i + 1)
        / config.checkpoint_every_n as int <= config.max_checkpoints->0)) {
        Some(
            CheckpointInfo {
                serial: (checkpoints_before(config, i) + 1) as u64,
                responding_report_serial: 0,
            },
        )
    } else {
        None
    }
}

/// Segment `i` of the first transmission: it starts where `i` full segments end,
/// and carries the bytes from there to the start of the next one, or to the end
/// of the block.
pub open spec fn first_segment(
    id: SessionId,
    block: Seq<u8>,
    client_service_id: u64,
    config: ExportConfig,
    i: int,
) -> SegmentView {
    let size = segment_size(config);
    let last = i == segment_count(block.len(), config) - 1;
    let checkpoint = first_checkpoint(config, i, last);
    SegmentView::Data {
        session_id: id,
        segment_type: if config.green {
            if last {
                SegmentType::GreenEob
            } else {
                SegmentType::GreenData
            }
        } else if last {
            SegmentType::RedEob
        } else if checkpoint is Some {
            SegmentType::RedCheckpoint
        } else {
            SegmentType::RedData
        },
        client_service_id,
        offset: (i * size) as u64,
        data: block.subrange(
            i * size,
            if last {
                block.len() as int
            } else {
                (i + 1) * size
            },
        ),
        checkpoint,
    }
}

proof fn lemma_count_bounds(len: nat, size: int)
    by (nonlinear_arith)
    requires
        size > 0,
        len > 0,
    ensures
        ((len + size - 1) / size - 1) * size < len,
        len <= ((len + size - 1) / size) * size,
        (len + size - 1) / size >= 1,
{
}

proof fn lemma_scaled(a: int, b: int, size: int)
    by (nonlinear_arith)
    requires
        a <= b,
        size > 0,
    ensures
        a * size <= b * size,
{
}

/// The last segment is the one that the rest of the block fits in.
proof fn lemma_last_segment(len: nat, config: ExportConfig, i: int)
    requires
        0 <= i < segment_count(len, config),
    ensures
        0 <= i * segment_size(config) <= len,
        i == segment_count(len, config) - 1 <==> len - i * segment_size(config) <= segment_size(
            config,
        ),
        (i + 1) * segment_size(config) == i * segment_size(config) + segment_size(config),
{
    let size = segment_size(config);
    let n = segment_count(len, config);
    assert((i + 1) * size == i * size + size) by (nonlinear_arith);
    assert(0 * size == 0) by (nonlinear_arith);
    lemma_scaled(0, i, size);
    if len > 0 {
        lemma_count_bounds(len, size);
        lemma_scaled(i, n - 1, size);
        if i < n - 1 {
            lemma_scaled(i + 1, n - 1, size);
        }
    }
}

proof fn lemma_count_step(i: int, e: int)
    by (nonlinear_arith)
    requires
        e > 0,
        i >= 0,
    ensures
        (i + 1) % e == 0 ==> (i + 1) / e == i / e + 1,
        (i + 1) % e != 0 ==> (i + 1) / e == i / e,
        i / e >= 0,
{
}

/// The checkpoints count up with the segments that carry them.
proof fn lemma_checkpoints_step(config: ExportConfig, i: int)
    requires
        i >= 0,
    ensures
        checkpoints_before(config, 0) == 0,
        checkpoints_before(config, i) >= 0,
        checkpoints_before(config, i + 1) == checkpoints_before(config, i) + if first_checkpoint(
            config,
            i,
            false,
        ) is Some {
            1int
        } else {
            0int
        },
{
    let e = config.checkpoint_every_n as int;
    if e > 0 {
        lemma_count_step(i, e);
        assert(0int / e == 0) by (nonlinear_arith)
            requires
                e > 0,
        ;
    }
}

/// The pieces of the first transmission from number `i` on.
proof fn lemma_first_pieces_in_place(len: nat, config: ExportConfig, i: int, j: int)
    requires
        0 <= i < segment_count(len, config),
    ensures
        ({
            let size = segment_size(config);
            let n = segment_count(len, config);
            let pieces = export::first_pieces(
                len,
                config,
                (i * size) as nat,
                i as nat,
                (checkpoints_before(config, i) + 1) as nat,
            );
            let last = i + j == n - 1;
            let checkpoint = first_checkpoint(config, i + j, last);
            &&& pieces.len() == n - i
            &&& 0 <= j < pieces.len() ==> {
                &&& pieces[j].from == (i + j) * size
                &&& pieces[j].to == if last {
                    len as int
                } else {
                    (i + j + 1) * size
                }
                &&& pieces[j].checkpoint == checkpoint
                &&& pieces[j].segment_type == if config.green {
                    if last {
                        SegmentType::GreenEob
                    } else {
                        SegmentType::GreenData
                    }
                } else if last {
                    SegmentType::RedEob
                } else if checkpoint is Some {
                    SegmentType::RedCheckpoint
                } else {
                    SegmentType::RedData
                }
                &&& export::checkpoint_count(pieces.take(j)) == checkpoints_before(config, i + j)
                    - checkpoints_before(config, i)
            }
        }),
    decreases segment_count(len, config) - i,
{
    let size = segment_size(config);
    let n = segment_count(len, config);
    let serial = (checkpoints_before(config, i) + 1) as nat;
    let pieces = export::first_pieces(len, config, (i * size) as nat, i as nat, serial);
    lemma_last_segment(len, config, i);
    lemma_checkpoints_step(config, i);
    lemma_marking(config, i);
    assert(pieces.take(0) == Seq::<Piece>::empty());
    assert(export::checkpoint_count(Seq::<Piece>::empty()) == 0);
    if i < n - 1 {
        let rest = export::first_pieces(
            len,
            config,
            ((i + 1) * size) as nat,
            (i + 1) as nat,
            (checkpoints_before(config, i + 1) + 1) as nat,
        );
        lemma_first_pieces_in_place(len, config, i + 1, j - 1);
        assert(pieces.drop_first() == rest);
        assert(pieces[0].checkpoint == first_checkpoint(config, i, false));
        if 0 < j < pieces.len() {
            assert(pieces[j] == rest[j - 1]);
            assert(pieces.take(j) == seq![pieces[0]] + rest.take(j - 1));
            lemma_count_prepend(pieces[0], rest.take(j - 1));
        }
    }
}

proof fn lemma_count_prepend(p: Piece, pieces: Seq<Piece>)
    ensures
        export::checkpoint_count(seq![p] + pieces) == export::checkpoint_count(pieces)
            + if p.checkpoint is Some {
            1nat
        } else {
            0nat
        },
    decreases pieces.len(),
{
    let all = seq![p] + pieces;
    if pieces.len() == 0 {
        assert(all.drop_last() == Seq::<Piece>::empty());
        assert(export::checkpoint_count(Seq::<Piece>::empty()) == 0);
        assert(all.last() == p);
    } else {
        assert(all.drop_last() == seq![p] + pieces.drop_last());
        lemma_count_prepend(p, pieces.drop_last());
    }
}

/// What a segment is marked as.
proof fn lemma_marking(config: ExportConfig, i: int)
    requires
        i >= 0,
    ensures
        ({
            let serial = (checkpoints_before(config, i) + 1) as nat;
            &&& export::first_marking(config, i as nat, serial, false).1 == first_checkpoint(
                config,
                i,
                false,
            )
            &&& export::first_marking(config, i as nat, serial, true).1 == first_checkpoint(
                config,
                i,
                true,
            )
        }),
{
    let e = config.checkpoint_every_n as int;
    lemma_checkpoints_step(config, i);
    if e > 0 {
        lemma_count_step(i, e);
    }
}

/// What opening a session sends. Segment after segment, in their order, goes out
/// as it stands above, each checkpoint followed by the start of its timer, and
/// nothing else does. A red session then awaits a report with the timers of all
/// its checkpoints running, and a green one is complete.
pub proof fn opening_sends_the_block(
    id: SessionId,
    block: Seq<u8>,
    client_service_id: u64,
    config: ExportConfig,
    i: int,
)
    requires
        0 <= i < segment_count(block.len(), config),
    ensures
        ({
            let (m, actions) = export::opening(id, block, client_service_id, config);
            let n = segment_count(block.len(), config);
            let at = i + checkpoints_before(config, i);
            let last = i == n - 1;
            let checkpoints = if config.green {
                0int
            } else {
                checkpoints_before(config, n - 1) + 1
            };
            &&& actions.len() == n + checkpoints
            &&& 0 <= at < actions.len()
            &&& actions[at] == ExportActionView::SendSegment(
                first_segment(id, block, client_service_id, config, i).wire(),
            )
            &&& first_checkpoint(config, i, last) matches Some(info) ==> at + 1 < actions.len()
                && actions[at + 1] == (ExportActionView::StartTimer {
                checkpoint_serial: info.serial,
                duration: config.retransmit_timeout,
            })
            &&& m.id == id
            &&& m.client_service_id == client_service_id
            &&& m.block == block
            &&& m.config == config
            &&& m.state == if config.green {
                ExportState::Complete
            } else {
                ExportState::AwaitingReport
            }
            &&& m.next_serial == checkpoints + 1
            &&& m.retries == 0
            &&& m.acknowledged.len() == 0
            &&& forall|s: u64| #[trigger] m.timers.contains(s) <==> 1 <= s <= checkpoints
            &&& !m.suspended
        }),
{
    let pieces = export::first_pieces(block.len(), config, 0, 0, 1);
    let m = export::opened(id, block, client_service_id, config);
    let n = segment_count(block.len(), config);
    let size = segment_size(config);
    assert(0 * size == 0) by (nonlinear_arith);
    lemma_checkpoints_step(config, 0);
    lemma_last_segment(block.len(), config, i);
    lemma_first_pieces_in_place(block.len(), config, 0, i);
    lemma_first_pieces_in_place(block.len(), config, 0, n - 1);
    assert(pieces.take(n - 1) == pieces.drop_last());
    assert(pieces.last() == pieces[n - 1]);
    export_laws::sent_actions_follow_the_pieces(m, pieces);
    let at = i + export::checkpoint_count(pieces.take(i)) as int;
    assert(export::data_segment(m, pieces[i]) == first_segment(
        id,
        block,
        client_service_id,
        config,
        i,
    ));
}

/// Decoding what opening a session sends gives the block. Segment `i` of the
/// transmission is read back as data of the session; the data starts where the
/// data of the segment before it ended, and the data of all of them, one after
/// the other, is the block.
pub proof fn opening_is_read_as_the_block(
    id: SessionId,
    block: Seq<u8>,
    client_service_id: u64,
    config: ExportConfig,
    tail: Seq<u8>,
)
    requires
        block.len() <= u64::MAX,
    ensures
        ({
            let actions = export::opening(id, block, client_service_id, config).1;
            let wires = actions.filter(|a: ExportActionView| a is SendSegment);
            let n = segment_count(block.len(), config);
            let payloads = Seq::new(
                n as nat,
                |i: int| payload(segment::read_segment(wires[i]->SendSegment_0 + tail).0),
            );
            &&& wires.len() == n
            &&& forall|i: int|
                0 <= i < n ==> segment::read_segment(
                    (#[trigger] wires[i])->SendSegment_0 + tail,
                ) == (
                    Ok::<SegmentView, segment::SegmentError>(
                        first_segment(id, block, client_service_id, config, i),
                    ),
                    tail,
                )
            &&& payloads.flatten() == block
        }),
{
    let pieces = export::first_pieces(block.len(), config, 0, 0, 1);
    let m = export::opened(id, block, client_service_id, config);
    let n = segment_count(block.len(), config);
    let size = segment_size(config);
    let actions = export::opening(id, block, client_service_id, config).1;
    let wires = actions.filter(|a: ExportActionView| a is SendSegment);
    assert(0 * size == 0) by (nonlinear_arith);
    lemma_checkpoints_step(config, 0);
    lemma_count_at_least_one(block.len(), config);
    lemma_first_pieces_in_place(block.len(), config, 0, 0);
    lemma_sends_of(m, pieces);
    assert forall|i: int| 0 <= i < n implies segment::read_segment(
        (#[trigger] wires[i])->SendSegment_0 + tail,
    ) == (
        Ok::<SegmentView, segment::SegmentError>(
            first_segment(id, block, client_service_id, config, i),
        ),
        tail,
    ) by {
        lemma_last_segment(block.len(), config, i);
        lemma_first_pieces_in_place(block.len(), config, 0, i);
        let s = first_segment(id, block, client_service_id, config, i);
        assert(export::data_segment(m, pieces[i]) == s);
        assert(s.valid());
        segment::segment_round_trip(s, tail);
    }
    let payloads = Seq::new(
        n as nat,
        |i: int| payload(segment::read_segment(wires[i]->SendSegment_0 + tail).0),
    );
    assert forall|i: int| 0 <= i < n implies #[trigger] payloads[i] == block.subrange(
        i * size,
        if i == n - 1 {
            block.len() as int
        } else {
            (i + 1) * size
        },
    ) by {
        assert(wires[i] is SendSegment);
    }
    lemma_cuts_join(block, payloads, config, n);
    assert(payloads.take(n) == payloads);
    assert(block.subrange(0, block.len() as int) == block);
}

/// The data of a decoded segment.
pub open spec fn payload(read: Result<SegmentView, segment::SegmentError>) -> Seq<u8> {
    match read {
        Ok(SegmentView::Data { data, .. }) => data,
        _ => Seq::empty(),
    }
}

proof fn lemma_count_at_least_one(len: nat, config: ExportConfig)
    ensures
        segment_count(len, config) >= 1,
{
    if len > 0 {
        lemma_count_bounds(len, segment_size(config));
    }
}

proof fn lemma_cuts_join(block: Seq<u8>, payloads: Seq<Seq<u8>>, config: ExportConfig, k: int)
    requires
        payloads.len() == segment_count(block.len(), config),
        0 <= k <= payloads.len(),
        forall|i: int|
            0 <= i < payloads.len() ==> #[trigger] payloads[i] == block.subrange(
                i * segment_size(config),
                if i == payloads.len() - 1 {
                    block.len() as int
                } else {
                    (i + 1) * segment_size(config)
                },
            ),
    ensures
        ({
            let to = if k == payloads.len() {
                block.len() as int
            } else {
                k * segment_size(config)
            };
            &&& 0 <= to <= block.len()
            &&& payloads.take(k).flatten() == block.subrange(0, to)
        }),
    decreases k,
{
    let size = segment_size(config);
    lemma_count_at_least_one(block.len(), config);
    assert(0 * size == 0) by (nonlinear_arith);
    if k == 0 {
        assert(payloads.take(0) == Seq::<Seq<u8>>::empty());
        assert(payloads.take(0).flatten() == block.subrange(0, 0));
    } else {
        lemma_cuts_join(block, payloads, config, k - 1);
        lemma_last_segment(block.len(), config, k - 1);
        if k < payloads.len() {
            lemma_last_segment(block.len(), config, k);
        }
        let init = payloads.take(k - 1);
        init.lemma_flatten_push(payloads[k - 1]);
        assert(init.push(payloads[k - 1]) == payloads.take(k));
        let to = if k == payloads.len() {
            block.len() as int
        } else {
            k * size
        };
        assert((k - 1 + 1) * size == k * size);
        assert(block.subrange(0, (k - 1) * size) + block.subrange((k - 1) * size, to)
            == block.subrange(0, to));
    }
}

/// The segments among the actions are those of the pieces.
proof fn lemma_sends_of(m: ExportModel, pieces: Seq<Piece>)
    ensures
        export::sent(m, pieces).filter(|a: ExportActionView| a is SendSegment)
            == pieces.map_values(
            |p: Piece| ExportActionView::SendSegment(export::data_segment(m, p).wire()),
        ),
    decreases pieces.len(),
{
    let is_send = |a: ExportActionView| a is SendSegment;
    let f = |p: Piece| ExportActionView::SendSegment(export::data_segment(m, p).wire());
    let all = export::sent(m, pieces);
    reveal(Seq::filter);
    if pieces.len() == 0 {
        assert(all.filter(is_send) == pieces.map_values(f));
    } else {
        let init = pieces.drop_last();
        lemma_sends_of(m, init);
        let head = export::sent(m, init);
        let send = f(pieces.last());
        head.lemma_filter_push(send, is_send);
        assert(pieces.map_values(f) == init.map_values(f).push(send));
        match pieces.last().checkpoint {
            Some(info) => {
                let timer = ExportActionView::StartTimer {
                    checkpoint_serial: info.serial,
                    duration: m.config.retransmit_timeout,
                };
                head.push(send).lemma_filter_push(timer, is_send);
                assert(all == head.push(send).push(timer));
            },
            None => {
                assert(all == head.push(send));
            },
        }
    }
}

// ---------------------------------------------------------------------------
// Retransmission
// ---------------------------------------------------------------------------
/// Whether position `p` lies in one of the cuts.
pub open spec fn in_a_cut(cuts: Seq<(int, int)>, p: int) -> bool {
    exists|i: int| 0 <= i < cuts.len() && (#[trigger] cuts[i]).0 <= p < cuts[i].1
}

/// Whether the cuts are the missing positions, cut for sending: they stand in
/// ascending order and do not overlap, together hold exactly the missing
/// positions, and each has `size` bytes, or less where nothing is missing behind
/// it.
pub open spec fn cuts_of(cuts: Seq<(int, int)>, missing: Set<int>, size: int) -> bool {
    &&& cuts.len() > 0
    &&& forall|i: int|
        0 <= i < cuts.len() ==> 0 <= (#[trigger] cuts[i]).0 < cuts[i].1 <= cuts[i].0 + size
    &&& forall|i: int, j: int|
        0 <= i < j < cuts.len() ==> (#[trigger] cuts[i]).1 <= (#[trigger] cuts[j]).0
    &&& forall|p: int| #[trigger] in_a_cut(cuts, p) <==> missing.contains(p)
    &&& forall|i: int|
        0 <= i < cuts.len() ==> (#[trigger] cuts[i]).1 == cuts[i].0 + size || !missing.contains(
            cuts[i].1,
        )
}

/// What sending the cuts again takes: for each of them, in order, a segment with
/// the bytes that the block holds there. All are plain red data but the last: it
/// is a checkpoint, and its timer is started.
pub open spec fn resending(
    m: ExportModel,
    cuts: Seq<(int, int)>,
    info: CheckpointInfo,
) -> Seq<ExportActionView> {
    Seq::new(
        cuts.len() + 1,
        |i: int|
            if i < cuts.len() {
                ExportActionView::SendSegment(
                    (SegmentView::Data {
                        session_id: m.id,
                        segment_type: if i == cuts.len() - 1 {
                            SegmentType::RedCheckpoint
                        } else {
                            SegmentType::RedData
                        },
                        client_service_id: m.client_service_id,
                        offset: cuts[i].0 as u64,
                        data: m.block.subrange(cuts[i].0, cuts[i].1),
                        checkpoint: if i == cuts.len() - 1 {
                            Some(info)
                        } else {
                            None
                        },
                    }).wire(),
                )
            } else {
                ExportActionView::StartTimer {
                    checkpoint_serial: info.serial,
                    duration: m.config.retransmit_timeout,
                }
            },
    )
}

/// Whether the actions send the missing positions again, and nothing else.
pub open spec fn sends_again(
    m: ExportModel,
    actions: Seq<ExportActionView>,
    missing: Set<int>,
    info: CheckpointInfo,
) -> bool {
    exists|cuts: Seq<(int, int)>| #[trigger]
        cuts_of(cuts, missing, segment_size(m.config)) && actions == resending(m, cuts, info)
}

/// The missing positions can be cut in one way.
pub proof fn cuts_are_unique(
    a: Seq<(int, int)>,
    b: Seq<(int, int)>,
    missing: Set<int>,
    size: int,
)
    requires
        cuts_of(a, missing, size),
        cuts_of(b, missing, size),
    ensures
        a == b,
{
    lemma_cuts_agree(a, b, missing, size, a.len() as int);
    lemma_cuts_agree(b, a, missing, size, b.len() as int);
    assert(a == b);
}

proof fn lemma_cuts_agree(
    a: Seq<(int, int)>,
    b: Seq<(int, int)>,
    missing: Set<int>,
    size: int,
    k: int,
)
    requires
        cuts_of(a, missing, size),
        cuts_of(b, missing, size),
        0 <= k <= a.len(),
    ensures
        k <= b.len(),
        forall|i: int| 0 <= i < k ==> a[i] == #[trigger] b[i],
    decreases k,
{
    if k > 0 {
        lemma_cuts_agree(a, b, missing, size, k - 1);
        let x = a[k - 1];
        assert(in_a_cut(a, x.0));
        assert(missing.contains(x.0));
        assert(in_a_cut(b, x.0));
        let i = choose|i: int| 0 <= i < b.len() && (#[trigger] b[i]).0 <= x.0 < b[i].1;
        if i < k - 1 {
            assert(a[i] == b[i]);
            assert(a[i].1 <= a[k - 1].0);
        }
        let y = b[k - 1];
        assert(y.0 <= x.0) by {
            if i > k - 1 {
                assert(b[k - 1].1 <= b[i].0);
            }
        }
        assert(in_a_cut(b, y.0));
        assert(missing.contains(y.0));
        assert(in_a_cut(a, y.0));
        let j = choose|j: int| 0 <= j < a.len() && (#[trigger] a[j]).0 <= y.0 < a[j].1;
        if j < k - 1 {
            assert(a[j] == b[j]);
            assert(b[j].1 <= b[k - 1].0);
        }
        if j > k - 1 {
            assert(a[k - 1].1 <= a[j].0);
        }
        assert(x.0 == y.0);
        assert(x.1 == y.1) by {
            if x.1 < y.1 {
                assert(in_a_cut(b, x.1));
            }
            if y.1 < x.1 {
                assert(in_a_cut(a, y.1));
            }
        }
    }
}

spec fn widened(cuts: Seq<(nat, nat)>) -> Seq<(int, int)> {
    cuts.map_values(|c: (nat, nat)| (c.0 as int, c.1 as int))
}

proof fn lemma_in_a_cut_append(a: Seq<(int, int)>, b: Seq<(int, int)>, p: int)
    ensures
        in_a_cut(a + b, p) <==> in_a_cut(a, p) || in_a_cut(b, p),
{
    let c = a + b;
    if in_a_cut(c, p) {
        let i = choose|i: int| 0 <= i < c.len() && (#[trigger] c[i]).0 <= p < c[i].1;
        if i < a.len() {
            assert(a[i] == c[i]);
        } else {
            assert(b[i - a.len()] == c[i]);
        }
    }
    if in_a_cut(a, p) {
        let i = choose|i: int| 0 <= i < a.len() && (#[trigger] a[i]).0 <= p < a[i].1;
        assert(c[i] == a[i]);
    }
    if in_a_cut(b, p) {
        let i = choose|i: int| 0 <= i < b.len() && (#[trigger] b[i]).0 <= p < b[i].1;
        assert(c[a.len() + i] == b[i]);
    }
}

/// One range, cut.
proof fn lemma_cut_in_place(from: nat, to: nat, size: nat)
    requires
        from < to,
        size > 0,
    ensures
        ({
            let cuts = widened(export::cut(from, to, size));
            &&& cuts.len() > 0
            &&& forall|i: int|
                0 <= i < cuts.len() ==> from <= (#[trigger] cuts[i]).0 < cuts[i].1 <= cuts[i].0
                    + size && cuts[i].1 <= to
            &&& forall|i: int, j: int|
                0 <= i < j < cuts.len() ==> (#[trigger] cuts[i]).1 <= (#[trigger] cuts[j]).0
            &&& forall|p: int| #[trigger] in_a_cut(cuts, p) <==> from <= p < to
            &&& forall|i: int|
                0 <= i < cuts.len() ==> (#[trigger] cuts[i]).1 == cuts[i].0 + size || cuts[i].1
                    == to
        }),
    decreases to - from,
{
    let cuts = widened(export::cut(from, to, size));
    if to - from <= size {
        assert(cuts == seq![(from as int, to as int)]);
        assert forall|p: int| #[trigger] in_a_cut(cuts, p) <==> from <= p < to by {
            if from <= p < to {
                assert(cuts[0].0 <= p < cuts[0].1);
            }
        }
    } else {
        lemma_cut_in_place(from + size, to, size);
        let rest = widened(export::cut(from + size, to, size));
        let first = seq![(from as int, (from + size) as int)];
        assert(cuts == first + rest);
        assert forall|p: int| #[trigger] in_a_cut(cuts, p) <==> from <= p < to by {
            lemma_in_a_cut_append(first, rest, p);
            assert(in_a_cut(rest, p) <==> from + size <= p < to);
            if from <= p < from + size {
                assert(first[0].0 <= p < first[0].1);
            }
        }
        assert forall|i: int, j: int| 0 <= i < j < cuts.len() implies (#[trigger] cuts[i]).1 <= (
        #[trigger] cuts[j]).0 by {
            assert(cuts[j] == rest[j - 1]);
            if i > 0 {
                assert(cuts[i] == rest[i - 1]);
            }
        }
        assert forall|i: int| 0 <= i < cuts.len() implies from <= (#[trigger] cuts[i]).0
            < cuts[i].1 <= cuts[i].0 + size && cuts[i].1 <= to && (cuts[i].1 == cuts[i].0 + size
            || cuts[i].1 == to) by {
            if i > 0 {
                assert(cuts[i] == rest[i - 1]);
            }
        }
    }
}

proof fn lemma_covered_last(ranges: Seq<(u64, u64)>, p: int)
    requires
        ranges.len() > 0,
    ensures
        extents::covered(ranges, p) <==> extents::covered(ranges.drop_last(), p)
            || ranges.last().0 <= p < ranges.last().1,
{
    let init = ranges.drop_last();
    if extents::covered(ranges, p) && !(ranges.last().0 <= p < ranges.last().1) {
        let i = choose|i: int| 0 <= i < ranges.len() && (#[trigger] ranges[i]).0 <= p < ranges[i].1;
        assert(init[i] == ranges[i]);
    }
    if extents::covered(init, p) {
        let i = choose|i: int| 0 <= i < init.len() && (#[trigger] init[i]).0 <= p < init[i].1;
        assert(init[i] == ranges[i]);
    }
    if ranges.last().0 <= p < ranges.last().1 {
        assert(ranges[ranges.len() - 1].0 <= p);
    }
}

/// Several ranges, cut.
proof fn lemma_cut_all_in_place(ranges: Seq<(u64, u64)>, size: nat)
    requires
        extents::canonical(ranges),
        size > 0,
    ensures
        ({
            let cuts = widened(export::cut_all(ranges, size));
            &&& ranges.len() > 0 ==> cuts.len() > 0
            &&& forall|i: int|
                0 <= i < cuts.len() ==> 0 <= (#[trigger] cuts[i]).0 < cuts[i].1 <= cuts[i].0 + size
            &&& forall|i: int|
                0 <= i < cuts.len() ==> ranges.len() > 0 && (#[trigger] cuts[i]).1
                    <= ranges.last().1
            &&& forall|i: int, j: int|
                0 <= i < j < cuts.len() ==> (#[trigger] cuts[i]).1 <= (#[trigger] cuts[j]).0
            &&& forall|p: int| #[trigger] in_a_cut(cuts, p) <==> extents::covered(ranges, p)
            &&& forall|i: int|
                0 <= i < cuts.len() ==> (#[trigger] cuts[i]).1 == cuts[i].0 + size
                    || !extents::covered(ranges, cuts[i].1)
        }),
    decreases ranges.len(),
{
    let cuts = widened(export::cut_all(ranges, size));
    if ranges.len() > 0 {
        let init = ranges.drop_last();
        let (from, to) = ranges.last();
        assert(extents::canonical(init)) by {
            assert forall|i: int| 0 <= i < init.len() implies (#[trigger] init[i]).0
                < init[i].1 by {
                assert(init[i] == ranges[i]);
            }
            assert forall|i: int, j: int| 0 <= i < j < init.len() implies (#[trigger] init[i]).1 < (
            #[trigger] init[j]).0 by {
                assert(init[i] == ranges[i] && init[j] == ranges[j]);
            }
        }
        assert(ranges[ranges.len() - 1].0 < ranges[ranges.len() - 1].1);
        lemma_cut_all_in_place(init, size);
        lemma_cut_in_place(from as nat, to as nat, size);
        let head = widened(export::cut_all(init, size));
        let tail = widened(export::cut(from as nat, to as nat, size));
        assert(cuts == head + tail);
        if init.len() > 0 {
            assert(ranges[ranges.len() - 2].1 < ranges[ranges.len() - 1].0);
            assert(init.last() == ranges[ranges.len() - 2]);
        }
        assert forall|p: int| #[trigger] in_a_cut(cuts, p) <==> extents::covered(ranges, p) by {
            lemma_in_a_cut_append(head, tail, p);
            lemma_covered_last(ranges, p);
            assert(in_a_cut(head, p) <==> extents::covered(init, p));
            assert(in_a_cut(tail, p) <==> from <= p < to);
        }
        assert forall|i: int, j: int| 0 <= i < j < cuts.len() implies (#[trigger] cuts[i]).1 <= (
        #[trigger] cuts[j]).0 by {
            if j < head.len() {
                assert(cuts[i] == head[i] && cuts[j] == head[j]);
            } else {
                assert(cuts[j] == tail[j - head.len()]);
                if i < head.len() {
                    assert(cuts[i] == head[i]);
                } else {
                    assert(cuts[i] == tail[i - head.len()]);
                }
            }
        }
        assert forall|i: int| 0 <= i < cuts.len() implies 0 <= (#[trigger] cuts[i]).0 < cuts[i].1
            <= cuts[i].0 + size && cuts[i].1 <= to && (cuts[i].1 == cuts[i].0 + size
            || !extents::covered(ranges, cuts[i].1)) by {
            lemma_covered_last(ranges, cuts[i].1);
            if i < head.len() {
                assert(cuts[i] == head[i]);
            } else {
                assert(cuts[i] == tail[i - head.len()]);
                if cuts[i].1 == to && extents::covered(init, to as int) {
                    let k = choose|k: int|
                        0 <= k < init.len() && (#[trigger] init[k]).0 <= to < init[k].1;
                    assert(init[k] == ranges[k]);
                    assert(ranges[k].1 < ranges[ranges.len() - 1].0);
                }
            }
        }
    }
}

/// What sending ranges again sends.
proof fn lemma_repeated_sends_again(
    m: ExportModel,
    ranges: Seq<(u64, u64)>,
    missing: Set<int>,
    responding_report_serial: u64,
)
    requires
        extents::canonical(ranges),
        ranges.len() > 0,
        forall|p: int| #[trigger] extents::covered(ranges, p) <==> missing.contains(p),
    ensures
        sends_again(
            m,
            export::repeated(m, ranges, responding_report_serial).1,
            missing,
            CheckpointInfo { serial: m.next_serial as u64, responding_report_serial },
        ),
{
    let size = export::piece_size(m.config);
    let raw = export::cut_all(ranges, size);
    let cuts = widened(raw);
    let info = CheckpointInfo { serial: m.next_serial as u64, responding_report_serial };
    let pieces = export::repeat_pieces(ranges, size, m.next_serial, responding_report_serial);
    let n = cuts.len() as int;
    lemma_cut_all_in_place(ranges, size);
    assert(cuts_of(cuts, missing, segment_size(m.config)));
    let wanted = resending(m, cuts, info);
    let actions = export::sent(m, pieces);
    lemma_plain_sent(m, pieces, n - 1);
    assert(pieces.take(n - 1) == pieces.drop_last());
    assert(pieces[n - 1].checkpoint == Some(info));
    assert forall|i: int| 0 <= i < n + 1 implies actions[i] == wanted[i] by {
        if i < n {
            assert(cuts[i] == (raw[i].0 as int, raw[i].1 as int));
        }
    }
    assert(actions == wanted);
}

proof fn lemma_plain_sent(m: ExportModel, pieces: Seq<Piece>, k: int)
    requires
        0 <= k < pieces.len(),
        forall|i: int| 0 <= i < k ==> (#[trigger] pieces[i]).checkpoint is None,
    ensures
        export::sent(m, pieces.take(k)).len() == k,
        forall|i: int|
            0 <= i < k ==> (#[trigger] export::sent(m, pieces.take(k))[i])
                == ExportActionView::SendSegment(export::data_segment(m, pieces[i]).wire()),
    decreases k,
{
    if k > 0 {
        lemma_plain_sent(m, pieces, k - 1);
        let now = pieces.take(k);
        assert(now.drop_last() == pieces.take(k - 1));
        assert(now.last() == pieces[k - 1]);
    }
}

// ---------------------------------------------------------------------------
// Reports and timers
// ---------------------------------------------------------------------------
/// Whether position `p` is confirmed once the claims are in.
pub open spec fn confirmed_with(
    m: ExportModel,
    claims: Seq<ReceptionClaim>,
    p: int,
) -> bool {
    extents::covered(m.acknowledged, p) || exists|i: int|
        0 <= i < claims.len() && (#[trigger] claims[i]).offset <= p < claims[i].offset
            + claims[i].length
}

/// The positions from `lower` to `upper` that are not confirmed once the claims
/// are in.
pub open spec fn missing_with(
    m: ExportModel,
    claims: Seq<ReceptionClaim>,
    lower: int,
    upper: int,
) -> Set<int> {
    Set::new(|p: int| lower <= p < upper && !confirmed_with(m, claims, p))
}

/// Whether no further checkpoint may be sent.
pub open spec fn no_checkpoint_left(m: ExportModel) -> bool {
    m.config.max_checkpoints is Some && m.next_serial - 1 >= m.config.max_checkpoints->0
}

/// The cancel with which the sender gives up.
pub open spec fn giving_up(m: ExportModel) -> ExportActionView {
    ExportActionView::SendSegment(
        (SegmentView::Cancel {
            session_id: m.id,
            reason: CancelReason::RetransmitLimitExceeded,
            direction: CancelDirection::FromSender,
        }).wire(),
    )
}

/// What a report leads to. It is acknowledged, first and always. A session that
/// has not ended then counts its retransmissions anew and adds the claimed
/// positions to the confirmed ones. Where nothing of the block is missing then,
/// it is complete. Otherwise what is missing of the report's scope is sent again
/// with a new checkpoint that answers the report; where no checkpoint is left for
/// that, the sender gives up.
pub proof fn report_is_acted_on(
    m: ExportModel,
    report_serial: u64,
    upper_bound: u64,
    lower_bound: u64,
    claims: Seq<ReceptionClaim>,
)
    requires
        export::consistent(m),
        m.block.len() <= u64::MAX,
        forall|i: int|
            0 <= i < claims.len() ==> (#[trigger] claims[i]).offset + claims[i].length <= u64::MAX,
    ensures
        ({
            let (after, actions) = export::reported(
                m,
                report_serial,
                upper_bound,
                lower_bound,
                claims,
            );
            let ended = m.state == ExportState::Complete || m.state == ExportState::Cancelled;
            let missing = missing_with(m, claims, lower_bound as int, upper_bound as int);
            let info = CheckpointInfo {
                serial: m.next_serial as u64,
                responding_report_serial: report_serial,
            };
            &&& actions.len() > 0
            &&& actions[0] == ExportActionView::SendSegment(
                (SegmentView::ReportAck { session_id: m.id, report_serial }).wire(),
            )
            &&& ended ==> after == m && actions.len() == 1
            &&& !ended ==> {
                &&& after.id == m.id
                &&& after.client_service_id == m.client_service_id
                &&& after.block == m.block
                &&& after.config == m.config
                &&& after.suspended == m.suspended
                &&& after.retries == 0
                &&& extents::canonical(after.acknowledged)
                &&& forall|p: int| #[trigger]
                    extents::covered(after.acknowledged, p) <==> confirmed_with(m, claims, p)
                &&& if forall|p: int|
                    0 <= p < m.block.len() ==> #[trigger] confirmed_with(m, claims, p) {
                    &&& after.state == ExportState::Complete
                    &&& after.timers == Set::<u64>::empty()
                    &&& after.next_serial == m.next_serial
                    &&& actions.len() == 1
                } else if forall|p: int|
                    lower_bound <= p < upper_bound ==> #[trigger] confirmed_with(m, claims, p) {
                    &&& after.state == ExportState::AwaitingReport
                    &&& after.timers == m.timers
                    &&& after.next_serial == m.next_serial
                    &&& actions.len() == 1
                } else if no_checkpoint_left(m) {
                    &&& after.state == ExportState::Cancelled
                    &&& after.timers == Set::<u64>::empty()
                    &&& after.next_serial == m.next_serial
                    &&& actions.len() == 2
                    &&& actions[1] == giving_up(m)
                } else {
                    &&& after.state == ExportState::AwaitingReport
                    &&& after.timers == m.timers.insert(m.next_serial as u64)
                    &&& after.next_serial == m.next_serial + 1
                    &&& sends_again(m, actions.skip(1), missing, info)
                }
            }
        }),
{
    let next = ExportModel {
        retries: 0,
        acknowledged: export::with_claims(m.acknowledged, claims),
        ..m
    };
    let len = m.block.len() as u64;
    let (after, actions) = export::reported(m, report_serial, upper_bound, lower_bound, claims);
    let ack = actions[0];
    export_laws::claims_are_acknowledged(m.acknowledged, claims);
    assert forall|p: int| #[trigger]
        extents::covered(next.acknowledged, p) <==> confirmed_with(m, claims, p) by {
        if import_laws::claimed(claims, p) {
            let i = choose|i: int|
                0 <= i < claims.len() && (#[trigger] claims[i]).offset <= p < claims[i].offset
                    + claims[i].length;
        }
    }
    extents::complete_means_no_gaps(next.acknowledged, 0, len);
    extents::complete_means_no_gaps(next.acknowledged, lower_bound, upper_bound);
    extents::gaps_are_the_complement(next.acknowledged, lower_bound, upper_bound);
    lemma_confirmed_scope(m, claims, next.acknowledged, 0, len as int);
    lemma_confirmed_scope(
        m,
        claims,
        next.acknowledged,
        lower_bound as int,
        upper_bound as int,
    );
    let unclaimed = extents::uncovered(next.acknowledged, lower_bound, upper_bound);
    let missing = missing_with(m, claims, lower_bound as int, upper_bound as int);
    if !export::finished(m) && extents::uncovered(next.acknowledged, 0, len).len() > 0
        && unclaimed.len() > 0 && !export::checkpoints_exhausted(m.config, m.next_serial) {
        assert forall|p: int| #[trigger]
            extents::covered(unclaimed, p) <==> missing.contains(p) by {
            assert(extents::covered(next.acknowledged, p) <==> confirmed_with(m, claims, p));
        }
        lemma_repeated_sends_again(next, unclaimed, missing, report_serial);
        let more = export::repeated(next, unclaimed, report_serial).1;
        let info = CheckpointInfo {
            serial: m.next_serial as u64,
            responding_report_serial: report_serial,
        };
        assert(actions.skip(1) == more);
        let cuts = choose|cuts: Seq<(int, int)>| #[trigger]
            cuts_of(cuts, missing, segment_size(next.config)) && more == resending(
                next,
                cuts,
                info,
            );
        assert(resending(next, cuts, info) == resending(m, cuts, info));
        assert(cuts_of(cuts, missing, segment_size(m.config)));
        assert(sends_again(m, actions.skip(1), missing, info));
    }
}

proof fn lemma_confirmed_scope(
    m: ExportModel,
    claims: Seq<ReceptionClaim>,
    acknowledged: Seq<(u64, u64)>,
    lower: int,
    upper: int,
)
    requires
        forall|p: int| #[trigger]
            extents::covered(acknowledged, p) <==> confirmed_with(m, claims, p),
    ensures
        (forall|p: int| lower <= p < upper ==> extents::covered(acknowledged, p)) <==> (forall|
            p: int,
        |
            lower <= p < upper ==> #[trigger] confirmed_with(m, claims, p)),
{
    if forall|p: int| lower <= p < upper ==> extents::covered(acknowledged, p) {
        assert forall|p: int| lower <= p < upper implies #[trigger] confirmed_with(
            m,
            claims,
            p,
        ) by {
            assert(extents::covered(acknowledged, p));
        }
    }
}

/// What an expired timer leads to, for a session that has not ended: it counts
/// one retransmission more, and nothing that was confirmed is lost. Where that
/// is one too many, or no checkpoint is left, the sender gives up. Otherwise all
/// that is missing of the block is sent again with a new checkpoint that answers
/// no report, and where nothing is, the session is complete.
pub proof fn expired_timer_is_acted_on(m: ExportModel, checkpoint_serial: u64)
    requires
        export::consistent(m),
        m.block.len() <= u64::MAX,
    ensures
        ({
            let (after, actions) = export::timed_out(m, checkpoint_serial);
            let ended = m.state == ExportState::Complete || m.state == ExportState::Cancelled;
            let none = Seq::<ReceptionClaim>::empty();
            let missing = missing_with(m, none, 0, m.block.len() as int);
            let info = CheckpointInfo {
                serial: m.next_serial as u64,
                responding_report_serial: 0,
            };
            &&& ended ==> after == m && actions.len() == 0
            &&& !ended ==> {
                &&& after.id == m.id
                &&& after.client_service_id == m.client_service_id
                &&& after.block == m.block
                &&& after.config == m.config
                &&& after.suspended == m.suspended
                &&& after.acknowledged == m.acknowledged
                &&& after.retries == m.retries + 1
                &&& if m.retries >= m.config.max_retransmissions || no_checkpoint_left(m) {
                    &&& after.state == ExportState::Cancelled
                    &&& after.timers == Set::<u64>::empty()
                    &&& after.next_serial == m.next_serial
                    &&& actions == seq![giving_up(m)]
                } else if forall|p: int|
                    0 <= p < m.block.len() ==> #[trigger] confirmed_with(m, none, p) {
                    &&& after.state == ExportState::Complete
                    &&& after.timers == m.timers.remove(checkpoint_serial)
                    &&& after.next_serial == m.next_serial
                    &&& actions.len() == 0
                } else {
                    &&& after.state == ExportState::AwaitingReport
                    &&& after.timers == m.timers.remove(checkpoint_serial).insert(
                        m.next_serial as u64,
                    )
                    &&& after.next_serial == m.next_serial + 1
                    &&& sends_again(m, actions, missing, info)
                }
            }
        }),
{
    let next = ExportModel {
        timers: m.timers.remove(checkpoint_serial),
        retries: m.retries + 1,
        ..m
    };
    let none = Seq::<ReceptionClaim>::empty();
    let len = m.block.len() as u64;
    let (after, actions) = export::timed_out(m, checkpoint_serial);
    let missing = missing_with(m, none, 0, len as int);
    let unclaimed = extents::uncovered(m.acknowledged, 0, len);
    extents::complete_means_no_gaps(m.acknowledged, 0, len);
    extents::gaps_are_the_complement(m.acknowledged, 0, len);
    lemma_confirmed_scope(m, none, m.acknowledged, 0, len as int);
    if !export::finished(m) && m.retries < m.config.max_retransmissions
        && !export::checkpoints_exhausted(m.config, m.next_serial) && unclaimed.len() > 0 {
        assert forall|p: int| #[trigger]
            extents::covered(unclaimed, p) <==> missing.contains(p) by {}
        lemma_repeated_sends_again(next, unclaimed, missing, 0);
        let info = CheckpointInfo { serial: m.next_serial as u64, responding_report_serial: 0 };
        let cuts = choose|cuts: Seq<(int, int)>| #[trigger]
            cuts_of(cuts, missing, segment_size(next.config)) && actions == resending(
                next,
                cuts,
                info,
            );
        assert(resending(next, cuts, info) == resending(m, cuts, info));
        assert(cuts_of(cuts, missing, segment_size(m.config)));
        assert(sends_again(m, actions, missing, info));
    }
}

/// A cancel from the receiver is acknowledged as one, and ends the session with
/// its timers, in whatever state it is.
pub proof fn cancel_is_answered(m: ExportModel)
    ensures
        export::withdrawn(m) == (
            ExportModel { state: ExportState::Cancelled, timers: Set::empty(), ..m },
            seq![
                ExportActionView::SendSegment(
                    (SegmentView::CancelAck {
                        session_id: m.id,
                        direction: CancelDirection::FromReceiver,
                    }).wire(),
                ),
            ],
        ),
{
}

/// Suspending tells of every timer that runs, once, and of no other, and only a
/// session that has not ended and is not suspended yet is suspended.
pub proof fn running_timers_are_suspended(
    m: ExportModel,
    after: ExportModel,
    actions: Seq<ExportActionView>,
)
    requires
        export::suspending(m, (after, actions)),
    ensures
        m.suspended || m.state == ExportState::Complete || m.state == ExportState::Cancelled
            ==> after == m && actions.len() == 0,
        !(m.suspended || m.state == ExportState::Complete || m.state == ExportState::Cancelled)
            ==> {
            &&& after == (ExportModel { suspended: true, ..m })
            &&& forall|i: int|
                0 <= i < actions.len() ==> ((#[trigger] actions[i]) matches
                    ExportActionView::SuspendTimer { checkpoint_serial } && m.timers.contains(
                    checkpoint_serial,
                ))
            &&& forall|s: u64| #[trigger]
                m.timers.contains(s) ==> exists|i: int|
                    0 <= i < actions.len() && #[trigger] actions[i]
                        == (ExportActionView::SuspendTimer { checkpoint_serial: s })
            &&& forall|i: int, j: int|
                0 <= i < j < actions.len() ==> #[trigger] actions[i] != #[trigger] actions[j]
        },
{
    if !(m.suspended || export::finished(m)) {
        let f = |checkpoint_serial: u64| ExportActionView::SuspendTimer { checkpoint_serial };
        let told = actions.to_set();
        assert(told == m.timers.map(f));
        assert forall|i: int| 0 <= i < actions.len() implies ((#[trigger] actions[i]) matches
            ExportActionView::SuspendTimer { checkpoint_serial } && m.timers.contains(
            checkpoint_serial,
        )) by {
            assert(told.contains(actions[i]));
        }
        assert forall|s: u64| #[trigger] m.timers.contains(s) implies exists|i: int|
            0 <= i < actions.len() && #[trigger] actions[i] == (ExportActionView::SuspendTimer {
                checkpoint_serial: s,
            }) by {
            assert(m.timers.map(f).contains(f(s)));
            assert(actions.contains(f(s)));
        }
    }
}

/// Resuming gives back those of the given timers that still run, in their order
/// and with their remaining times, and only a suspended session that has not
/// ended is resumed.
pub proof fn running_timers_are_resumed(m: ExportModel, suspended: Seq<(u64, Duration)>)
    ensures
        !m.suspended || m.state == ExportState::Complete || m.state == ExportState::Cancelled
            ==> export::resuming(m, suspended) == (m, Seq::<ExportActionView>::empty()),
        m.suspended && m.state != ExportState::Complete && m.state != ExportState::Cancelled
            ==> export::resuming(m, suspended) == (
            ExportModel { suspended: false, ..m },
            suspended.filter(|x: (u64, Duration)| m.timers.contains(x.0)).map_values(
                |x: (u64, Duration)|
                    ExportActionView::ResumeTimer { checkpoint_serial: x.0, remaining: x.1 },
            ),
        ),
{
    lemma_resumed_is_filtered(m.timers, suspended);
}

proof fn lemma_resumed_is_filtered(timers: Set<u64>, suspended: Seq<(u64, Duration)>)
    ensures
        export::resumed(timers, suspended) == suspended.filter(
            |x: (u64, Duration)| timers.contains(x.0),
        ).map_values(
            |x: (u64, Duration)|
                ExportActionView::ResumeTimer { checkpoint_serial: x.0, remaining: x.1 },
        ),
    decreases suspended.len(),
{
    let runs = |x: (u64, Duration)| timers.contains(x.0);
    let f = |x: (u64, Duration)|
        ExportActionView::ResumeTimer { checkpoint_serial: x.0, remaining: x.1 };
    if suspended.len() == 0 {
        reveal(Seq::filter);
        assert(export::resumed(timers, suspended) == suspended.filter(runs).map_values(f));
    } else {
        let init = suspended.drop_last();
        lemma_resumed_is_filtered(timers, init);
        init.lemma_filter_push(suspended.last(), runs);
        assert(init.push(suspended.last()) == suspended);
        assert(export::resumed(timers, suspended) == suspended.filter(runs).map_values(f));
    }
}

// ---------------------------------------------------------------------------
// Over all calls
// ---------------------------------------------------------------------------
/// What a session may be told, one call for each.
#[verifier::ext_equal]
pub enum ExportEvent {
    /// A report has arrived.
    Report {
        report_serial: u64,
        upper_bound: u64,
        lower_bound: u64,
        claims: Seq<ReceptionClaim>,
    },
    /// The timer of a checkpoint has expired.
    TimerExpired { checkpoint_serial: u64 },
    /// The receiver has cancelled.
    CancelFromReceiver,
    /// The timers are to be suspended.
    Suspend,
    /// Suspended timers are to be resumed.
    Resume { suspended: Seq<(u64, Duration)> },
}

/// Whether a session may be this after an event.
pub open spec fn happens(m: ExportModel, event: ExportEvent, after: ExportModel) -> bool {
    match event {
        ExportEvent::Report { report_serial, upper_bound, lower_bound, claims } => after
            == export::reported(m, report_serial, upper_bound, lower_bound, claims).0,
        ExportEvent::TimerExpired { checkpoint_serial } => after == export::timed_out(
            m,
            checkpoint_serial,
        ).0,
        ExportEvent::CancelFromReceiver => after == export::withdrawn(m).0,
        ExportEvent::Suspend => exists|actions: Seq<ExportActionView>| #[trigger]
            export::suspending(m, (after, actions)),
        ExportEvent::Resume { suspended } => after == export::resuming(m, suspended).0,
    }
}

/// Whether the claims of a report end within the range of offsets.
pub open spec fn claims_fit(event: ExportEvent) -> bool {
    event matches ExportEvent::Report { claims, .. } ==> forall|i: int|
        0 <= i < claims.len() ==> (#[trigger] claims[i]).offset + claims[i].length <= u64::MAX
}

/// What the receiver has confirmed stays confirmed, through whatever calls: if
/// the events lead from each session to the next, every position that the first
/// one has as confirmed the last one has as confirmed too. The block, the session
/// and its configuration never change, and serial numbers never count down.
pub proof fn confirmed_stays_confirmed(models: Seq<ExportModel>, events: Seq<ExportEvent>)
    requires
        models.len() == events.len() + 1,
        export::consistent(models[0]),
        models[0].block.len() <= u64::MAX,
        forall|i: int|
            0 <= i < events.len() ==> #[trigger] happens(models[i], events[i], models[i + 1]),
        forall|i: int| 0 <= i < events.len() ==> claims_fit(#[trigger] events[i]),
    ensures
        export::consistent(models.last()),
        forall|p: int| #[trigger]
            extents::covered(models[0].acknowledged, p) ==> extents::covered(
                models.last().acknowledged,
                p,
            ),
        models.last().id == models[0].id,
        models.last().client_service_id == models[0].client_service_id,
        models.last().block == models[0].block,
        models.last().config == models[0].config,
        models.last().next_serial >= models[0].next_serial,
    decreases events.len(),
{
    if events.len() > 0 {
        let n = events.len() - 1;
        let earlier = models.drop_last();
        let before = events.drop_last();
        assert forall|i: int| 0 <= i < before.len() implies #[trigger] happens(
            earlier[i],
            before[i],
            earlier[i + 1],
        ) by {
            assert(happens(models[i], events[i], models[i + 1]));
        }
        assert forall|i: int| 0 <= i < before.len() implies claims_fit(#[trigger] before[i]) by {
            assert(before[i] == events[i]);
        }
        confirmed_stays_confirmed(earlier, before);
        let m = models[n];
        assert(earlier.last() == m);
        assert(happens(models[n], events[n], models[n + 1]));
        assert(claims_fit(events[n]));
        let after = models.last();
        match events[n] {
            ExportEvent::Report { report_serial, upper_bound, lower_bound, claims } => {
                report_is_acted_on(m, report_serial, upper_bound, lower_bound, claims);
                assert forall|p: int| #[trigger]
                    extents::covered(m.acknowledged, p) implies extents::covered(
                    after.acknowledged,
                    p,
                ) by {
                    assert(confirmed_with(m, claims, p));
                }
            },
            ExportEvent::TimerExpired { checkpoint_serial } => {
                expired_timer_is_acted_on(m, checkpoint_serial);
            },
            ExportEvent::CancelFromReceiver => {},
            ExportEvent::Suspend => {
                let actions = choose|actions: Seq<ExportActionView>| #[trigger]
                    export::suspending(m, (after, actions));
                running_timers_are_suspended(m, after, actions);
            },
            ExportEvent::Resume { suspended } => {
                running_timers_are_resumed(m, suspended);
            },
        }
        assert forall|p: int| #[trigger]
            extents::covered(models[0].acknowledged, p) implies extents::covered(
            after.acknowledged,
            p,
        ) by {
            assert(earlier[0] == models[0]);
            assert(extents::covered(m.acknowledged, p));
        }
    }
}

/// A report can be taken in where its claims end within the range of offsets and
/// its scope within the block.
pub proof fn report_on_the_block_is_admissible(
    m: ExportModel,
    upper_bound: u64,
    lower_bound: u64,
    claims: Seq<ReceptionClaim>,
)
    requires
        export::consistent(m),
        upper_bound <= m.block.len(),
        forall|i: int|
            0 <= i < claims.len() ==> (#[trigger] claims[i]).offset + claims[i].length <= u64::MAX,
    ensures
        export::admissible(m, upper_bound, lower_bound, claims),
{
    let acknowledged = export::with_claims(m.acknowledged, claims);
    export_laws::claims_are_acknowledged(m.acknowledged, claims);
    extents::gaps_are_the_complement(acknowledged, lower_bound, upper_bound);
    let gaps = extents::uncovered(acknowledged, lower_bound, upper_bound);
    assert forall|i: int| 0 <= i < gaps.len() implies (#[trigger] gaps[i]).1 <= m.block.len() by {
        assert(gaps[i].0 < gaps[i].1);
        assert(extents::covered(gaps, gaps[i].1 - 1));
    }
}

/// Actions are seen as they are, each with its bytes and numbers, in their order.
pub proof fn actions_are_seen_as_they_are(actions: Seq<ExportAction>, i: int)
    requires
        0 <= i < actions.len(),
    ensures
        export::action_views(actions).len() == actions.len(),
        export::action_views(actions)[i] == match actions[i] {
            ExportAction::SendSegment(b) => ExportActionView::SendSegment(
                buffer::bytes_content(b),
            ),
            ExportAction::StartTimer { checkpoint_serial, duration } =>
                ExportActionView::StartTimer { checkpoint_serial, duration },
            ExportAction::SuspendTimer { checkpoint_serial } => ExportActionView::SuspendTimer {
                checkpoint_serial,
            },
            ExportAction::ResumeTimer { checkpoint_serial, remaining } =>
                ExportActionView::ResumeTimer { checkpoint_serial, remaining },
        },
{
}

} // verus!
