//! What holds of sessions and of the ranges that they keep, on concrete values.

use bytes::Bytes;
use hardy_ltp::segment::{self, CheckpointInfo, ReceptionClaim, Segment, SegmentType};
use hardy_ltp::session::export::{ExportAction, ExportConfig, ExportSession, ExportState};
use hardy_ltp::session::{
    CancelReason, ExtentMap, ImportAction, ImportConfig, ImportSession, ImportState, SessionId,
};
use std::time::Duration;

fn next_random(seed: &mut u64) -> u64 {
    *seed ^= *seed << 13;
    *seed ^= *seed >> 7;
    *seed ^= *seed << 17;
    *seed
}

fn shuffle<T>(items: &mut [T], seed: &mut u64) {
    for i in (1..items.len()).rev() {
        let j = (next_random(seed) as usize) % (i + 1);
        items.swap(i, j);
    }
}

fn id() -> SessionId {
    SessionId {
        engine_id: 4,
        session_number: 44,
    }
}

fn receiver(max_claims_per_report: usize) -> ImportConfig {
    ImportConfig {
        max_claims_per_report,
        ..ImportConfig::default()
    }
}

fn sender(max_segment_size: usize) -> ExportConfig {
    ExportConfig {
        max_segment_size,
        max_retransmissions: 2,
        retransmit_timeout: Duration::from_secs(10),
        checkpoint_every_n: 0,
        max_checkpoints: None,
        green: false,
    }
}

fn block(len: usize) -> Bytes {
    (0..len).map(|i| (i * 7 % 251) as u8).collect::<Vec<u8>>().into()
}

fn sent(actions: &[ExportAction]) -> Vec<Segment> {
    actions
        .iter()
        .filter_map(|a| match a {
            ExportAction::SendSegment(wire) => {
                let mut reader = &wire[..];
                Some(segment::decode(&mut reader).unwrap())
            }
            _ => None,
        })
        .collect()
}

fn answered(actions: &[ImportAction]) -> Vec<Segment> {
    actions
        .iter()
        .filter_map(|a| match a {
            ImportAction::SendSegment(wire) => {
                let mut reader = &wire[..];
                Some(segment::decode(&mut reader).unwrap())
            }
            _ => None,
        })
        .collect()
}

fn feed(session: &mut ImportSession, segment: &Segment) -> Vec<ImportAction> {
    match segment {
        Segment::Data {
            segment_type,
            client_service_id,
            offset,
            data,
            checkpoint,
            ..
        } => session.on_data_segment(*segment_type, *client_service_id, *offset, data, *checkpoint),
        _ => panic!("expected a data segment"),
    }
}

fn deliveries(actions: &[ImportAction]) -> Vec<Bytes> {
    actions
        .iter()
        .filter_map(|a| match a {
            ImportAction::DeliverBlock(b) => Some(b.clone()),
            _ => None,
        })
        .collect()
}

// ---------------------------------------------------------------------------
// Ranges
// ---------------------------------------------------------------------------

#[test]
fn ranges_are_the_union_in_canonical_form() {
    let mut seed = 17;
    for _ in 0..200 {
        let mut map = ExtentMap::new();
        let mut naive = vec![false; 300];
        for _ in 0..20 {
            let start = next_random(&mut seed) % 250;
            let end = start + next_random(&mut seed) % 50;
            map.insert(start, end);
            for p in start..end {
                naive[p as usize] = true;
            }
        }
        let claims = map.claims();
        for pair in claims.windows(2) {
            assert!(pair[0].0 + pair[0].1 < pair[1].0);
        }
        let covered = naive.iter().filter(|b| **b).count() as u64;
        assert_eq!(map.total_coverage(), covered);
        for (start, end) in map.gaps(0, 300) {
            assert!(start < end);
            for p in start..end {
                assert!(!naive[p as usize]);
                naive[p as usize] = true;
            }
        }
        assert!(naive.iter().all(|b| *b));
    }
}

#[test]
fn order_of_inserts_leaves_no_trace() {
    let mut seed = 99;
    let mut ranges: Vec<(u64, u64)> = (0..30)
        .map(|_| {
            let s = next_random(&mut seed) % 500;
            (s, s + next_random(&mut seed) % 30)
        })
        .collect();
    let mut first = ExtentMap::default();
    for (s, e) in &ranges {
        first.insert(*s, *e);
    }
    shuffle(&mut ranges, &mut seed);
    let mut second = ExtentMap::new();
    for (s, e) in ranges.iter().chain(ranges.iter()) {
        second.insert(*s, *e);
    }
    assert_eq!(first.claims(), second.claims());
    assert_eq!(first.clone().claims(), first.claims());
}

#[test]
fn covered_range_changes_nothing() {
    let mut map = ExtentMap::new();
    map.insert(10, 40);
    map.insert(15, 20);
    map.insert(40, 40);
    map.insert(50, 45);
    assert_eq!(map.claims(), vec![(10, 30)]);
}

// ---------------------------------------------------------------------------
// Receiver
// ---------------------------------------------------------------------------

#[test]
fn default_configuration() {
    let config = ImportConfig::default();
    assert_eq!(config.max_reports, None);
    assert_eq!(config.retransmit_timeout, Duration::from_secs(60));
    assert_eq!(config.max_claims_per_report, 20);
    assert_eq!(config.expected_client_service_id, 1);
    assert_eq!(config.max_red_data_bytes, None);
    assert_eq!(config.defer_report_ms, 0);
    assert_eq!(config.clone().retransmit_timeout, Duration::from_secs(60));
}

#[test]
fn block_is_delivered_in_any_order() {
    let mut seed = 5;
    for len in [1usize, 2, 99, 100, 101, 777] {
        for size in [1usize, 7, 100, 1000] {
            let data = block(len);
            let (_, actions) = ExportSession::new(id(), data.clone(), 1, sender(size));
            let mut segments = sent(&actions);
            let copy = segments.clone();
            segments.extend(copy);
            shuffle(&mut segments, &mut seed);
            let mut session = ImportSession::new(id(), receiver(3));
            let mut all = Vec::new();
            for s in &segments {
                all.extend(feed(&mut session, s));
            }
            assert_eq!(session.state(), ImportState::Complete);
            assert_eq!(deliveries(&all), vec![data]);
        }
    }
}

#[test]
fn incomplete_block_is_not_delivered() {
    let data = block(100);
    let (_, actions) = ExportSession::new(id(), data, 1, sender(10));
    let segments = sent(&actions);
    for lost in 0..segments.len() {
        let mut session = ImportSession::new(id(), receiver(20));
        let mut all = Vec::new();
        for (i, s) in segments.iter().enumerate() {
            if i != lost {
                all.extend(feed(&mut session, s));
            }
        }
        assert_eq!(session.state(), ImportState::Receiving);
        assert!(deliveries(&all).is_empty());
    }
}

#[test]
fn lost_segments_are_recovered() {
    let data = block(1000);
    let mut seed = 23;
    for round in 0..30u64 {
        let (mut sending, actions) = ExportSession::new(id(), data.clone(), 1, sender(37));
        let mut receiving = ImportSession::new(id(), receiver(2));
        let mut delivered = Vec::new();
        let mut segments = sent(&actions);
        let last = segments.pop().unwrap();
        segments.retain(|_| next_random(&mut seed) % 3 != round % 3);
        shuffle(&mut segments, &mut seed);
        for s in &segments {
            delivered.extend(deliveries(&feed(&mut receiving, s)));
        }
        let mut answers = feed(&mut receiving, &last);
        let mut guard = 0;
        while receiving.state() == ImportState::Receiving {
            guard += 1;
            assert!(guard < 50);
            let reports = answered(&answers);
            answers = Vec::new();
            for report in reports {
                if let Segment::Report {
                    report_serial,
                    checkpoint_serial,
                    upper_bound,
                    lower_bound,
                    claims,
                    ..
                } = report
                {
                    let reply = sending.on_report(
                        report_serial,
                        checkpoint_serial,
                        upper_bound,
                        lower_bound,
                        &claims,
                    );
                    for s in sent(&reply) {
                        if matches!(s, Segment::Data { .. }) {
                            answers.extend(feed(&mut receiving, &s));
                        }
                    }
                }
            }
            if receiving.state() == ImportState::Receiving && answered(&answers).is_empty() {
                for s in sent(&sending.on_timer_expired(1)) {
                    answers.extend(feed(&mut receiving, &s));
                }
            }
        }
        delivered.extend(deliveries(&answers));
        assert_eq!(delivered, vec![data.clone()]);
    }
}

#[test]
fn reports_claim_what_was_received() {
    let mut seed = 31;
    for _ in 0..60 {
        let max = 1 + (next_random(&mut seed) % 5) as usize;
        let mut session = ImportSession::new(id(), receiver(max));
        let mut expected = ExtentMap::new();
        for _ in 0..25 {
            let offset = next_random(&mut seed) % 900;
            let len = 1 + next_random(&mut seed) % 20;
            let _ = session.on_data_segment(
                SegmentType::RedData,
                1,
                offset,
                &vec![1; len as usize],
                None,
            );
            expected.insert(offset, offset + len);
        }
        expected.insert(1000, 1001);
        let actions = session.on_data_segment(
            SegmentType::RedCheckpoint,
            1,
            1000,
            &[2],
            Some(CheckpointInfo {
                serial: 6,
                responding_report_serial: 0,
            }),
        );
        let mut claimed = ExtentMap::new();
        let mut previous = 0;
        let reports = answered(&actions);
        assert_eq!(actions.len(), 2 * reports.len());
        for (i, report) in reports.iter().enumerate() {
            match report {
                Segment::Report {
                    report_serial,
                    checkpoint_serial,
                    upper_bound,
                    lower_bound,
                    claims,
                    ..
                } => {
                    assert_eq!(*report_serial, i as u64 + 1);
                    assert_eq!(*checkpoint_serial, 6);
                    assert!(claims.len() <= max);
                    assert!(previous <= *lower_bound);
                    previous = *upper_bound;
                    for c in claims {
                        assert!(*lower_bound <= c.offset);
                        assert!(c.offset + c.length <= *upper_bound);
                        claimed.insert(c.offset, c.offset + c.length);
                    }
                }
                other => panic!("expected a report, got {:?}", other),
            }
            assert_eq!(
                actions[2 * i + 1],
                ImportAction::StartTimer {
                    report_serial: i as u64 + 1,
                    duration: Duration::from_secs(60),
                }
            );
        }
        assert_eq!(previous, 1001);
        assert_eq!(claimed.claims(), expected.claims());
    }
}

#[test]
fn report_limit_is_kept() {
    let mut config = receiver(1);
    config.max_reports = Some(2);
    let mut session = ImportSession::new(id(), config);
    for offset in [0u64, 10, 20, 30] {
        let _ = session.on_data_segment(SegmentType::RedData, 1, offset, &[1], None);
    }
    let actions = session.on_data_segment(
        SegmentType::RedCheckpoint,
        1,
        40,
        &[1],
        Some(CheckpointInfo {
            serial: 1,
            responding_report_serial: 0,
        }),
    );
    assert_eq!(session.reports_generated(), 2);
    assert_eq!(session.state(), ImportState::Cancelled);
    assert_eq!(actions.len(), 5);
    assert!(matches!(
        answered(&actions)[2],
        Segment::Cancel {
            reason: CancelReason::ByEngine,
            ..
        }
    ));
}

#[test]
fn report_limit_and_completion_together_deliver() {
    let mut config = receiver(20);
    config.max_reports = Some(0);
    let mut session = ImportSession::new(id(), config);
    let actions = session.on_data_segment(
        SegmentType::RedEob,
        1,
        0,
        &[1, 2],
        Some(CheckpointInfo {
            serial: 1,
            responding_report_serial: 0,
        }),
    );
    assert_eq!(actions.len(), 2);
    assert!(matches!(answered(&actions)[0], Segment::Cancel { .. }));
    assert_eq!(deliveries(&actions), vec![Bytes::from_static(&[1, 2])]);
    assert_eq!(session.state(), ImportState::Complete);
}

#[test]
fn unasked_report_at_the_limit_gives_way_to_a_cancel() {
    let mut config = receiver(20);
    config.max_reports = Some(1);
    let mut session = ImportSession::new(id(), config);
    let checkpoint = CheckpointInfo {
        serial: 9,
        responding_report_serial: 0,
    };
    let first = session.on_data_segment(SegmentType::RedEob, 1, 2, &[3], Some(checkpoint));
    assert!(matches!(answered(&first)[..], [Segment::Report { .. }]));
    let last = session.on_data_segment(SegmentType::RedData, 1, 0, &[1, 2], None);
    assert_eq!(last.len(), 2);
    assert!(matches!(
        answered(&last)[..],
        [Segment::Cancel {
            reason: CancelReason::ByEngine,
            ..
        }]
    ));
    assert!(matches!(&last[1], ImportAction::DeliverBlock(b) if b[..] == [1, 2, 3]));
    assert_eq!(session.state(), ImportState::Complete);
    assert_eq!(session.reports_generated(), 1);
}

#[test]
fn complete_scope_stays_complete() {
    let mut session = ImportSession::new(id(), receiver(20));
    assert!(session.is_scope_complete(0));
    assert!(!session.is_scope_complete(1));
    let _ = session.on_data_segment(SegmentType::RedData, 1, 0, &[1, 2, 3, 4], None);
    let stays = |session: &ImportSession| {
        (0..=4).all(|upper| session.is_scope_complete(upper) && !session.has_gaps_in_scope(upper))
            && !session.is_scope_complete(5)
    };
    assert!(stays(&session));
    let _ = session.on_data_segment(SegmentType::RedData, 1, 7, &[8], None);
    assert!(stays(&session));
    let _ = session.on_data_segment(SegmentType::RedData, 1, 1, &[2], None);
    assert!(stays(&session));
    let _ = session.generate_deferred_report(1, 8);
    assert!(stays(&session));
    let _ = session.on_report_ack(1);
    assert!(stays(&session));
    let _ = session.on_data_segment(SegmentType::GreenData, 1, 4, &[5], None);
    assert_eq!(session.state(), ImportState::Cancelled);
    assert!(stays(&session));
    let _ = session.on_cancel_from_sender(CancelReason::ByEngine);
    assert!(stays(&session));
    let _ = session.on_data_segment(SegmentType::RedData, 1, 4, &[5], None);
    assert!(stays(&session));
}

#[test]
fn last_piece_delivers_the_block() {
    let whole = block(9);
    let checkpoint = CheckpointInfo {
        serial: 3,
        responding_report_serial: 0,
    };
    let pieces = [
        (SegmentType::RedData, 0, 2, None),
        (SegmentType::RedData, 2, 3, None),
        (SegmentType::RedData, 3, 7, None),
        (SegmentType::RedEob, 7, 9, Some(checkpoint)),
    ];
    for code in 0..256usize {
        let order = [code % 4, code / 4 % 4, code / 16 % 4, code / 64];
        if (0..4).any(|i| !order.contains(&i)) {
            continue;
        }
        let mut session = ImportSession::new(id(), receiver(1));
        for (turn, piece) in order.iter().enumerate() {
            assert_eq!(session.state(), ImportState::Receiving);
            let (segment_type, start, end, checkpoint) = pieces[*piece];
            let data = &whole[start..end];
            let actions =
                session.on_data_segment(segment_type, 1, start as u64, data, checkpoint);
            if turn < 3 {
                assert!(deliveries(&actions).is_empty());
            } else {
                assert_eq!(deliveries(&actions), vec![whole.clone()]);
            }
        }
        assert_eq!(session.state(), ImportState::Complete);
    }
}

#[test]
fn report_past_the_limit_cancels() {
    let mut config = receiver(20);
    config.max_reports = Some(0);
    let mut session = ImportSession::new(id(), config);
    let checkpoint = CheckpointInfo {
        serial: 1,
        responding_report_serial: 0,
    };
    let actions = session.on_data_segment(SegmentType::RedEob, 1, 2, &[3], Some(checkpoint));
    assert_eq!(actions.len(), 1);
    assert!(matches!(
        answered(&actions)[..],
        [Segment::Cancel {
            reason: CancelReason::ByEngine,
            ..
        }]
    ));
    assert!(deliveries(&actions).is_empty());
    assert_eq!(session.state(), ImportState::Cancelled);
}

#[test]
fn end_mark_delivers_green_data() {
    let mut session = ImportSession::new(id(), receiver(20));
    assert!(session.on_data_segment(SegmentType::GreenData, 1, 4, &[5, 6, 7], None).is_empty());
    assert!(session.on_data_segment(SegmentType::GreenData, 1, 1, &[2], None).is_empty());
    // Later bytes take the place of earlier ones.
    assert!(session.on_data_segment(SegmentType::GreenData, 1, 5, &[66], None).is_empty());
    assert!(session.on_data_segment(SegmentType::GreenData, 1, 12, &[9], None).is_empty());
    assert_eq!(session.state(), ImportState::Receiving);
    let actions = session.on_data_segment(SegmentType::GreenEob, 1, 8, &[8, 8], None);
    let expected = Bytes::from_static(&[0, 2, 0, 0, 5, 66, 7, 0, 8, 8]);
    assert_eq!(actions.len(), 1);
    assert_eq!(deliveries(&actions), vec![expected]);
    assert_eq!(session.state(), ImportState::Complete);
    assert!(session.on_data_segment(SegmentType::GreenData, 1, 0, &[1], None).is_empty());
    // An end mark that says where the block ends, with nothing before it.
    let mut session = ImportSession::new(id(), receiver(20));
    let actions = session.on_data_segment(SegmentType::GreenEob, 1, 3, &[], None);
    assert_eq!(deliveries(&actions), vec![Bytes::from_static(&[0, 0, 0])]);
}

#[test]
fn transmitted_green_block_is_delivered() {
    let whole = block(11);
    let mut config = sender(3);
    config.green = true;
    let (_, actions) = ExportSession::new(id(), whole.clone(), 1, config);
    let segments = sent(&actions);
    assert_eq!(segments.len(), 4);
    for order in [vec![0, 1, 2, 3], vec![2, 0, 2, 1, 3, 0], vec![1, 2, 0, 0, 3]] {
        let mut session = ImportSession::new(id(), receiver(20));
        let mut delivered = vec![];
        for i in order {
            delivered.extend(deliveries(&feed(&mut session, &segments[i])));
        }
        assert_eq!(delivered, vec![whole.clone()]);
        assert_eq!(session.state(), ImportState::Complete);
    }
    // The segment in the middle is late: zeros stand in its place.
    let mut session = ImportSession::new(id(), receiver(20));
    let mut delivered = vec![];
    for i in [2, 0, 3, 1] {
        delivered.extend(deliveries(&feed(&mut session, &segments[i])));
    }
    let mut gap = whole.to_vec();
    gap[3..6].fill(0);
    assert_eq!(delivered, vec![Bytes::from(gap)]);
}

#[test]
fn refused_segments() {
    for segment_type in [SegmentType::RedData, SegmentType::GreenEob] {
        let mut session = ImportSession::new(id(), receiver(20));
        let actions = session.on_data_segment(segment_type, 2, 0, &[1], None);
        assert_eq!(session.state(), ImportState::Cancelled);
        assert_eq!(session.color(), None);
        assert!(matches!(
            answered(&actions)[0],
            Segment::Cancel {
                reason: CancelReason::ClientSvcUnreachable,
                ..
            }
        ));
        assert!(session.on_data_segment(segment_type, 1, 0, &[1], None).is_empty());
    }
    let mut config = receiver(20);
    config.max_red_data_bytes = Some(10);
    let mut session = ImportSession::new(id(), config.clone());
    assert!(session.on_data_segment(SegmentType::RedData, 1, 8, &[1, 2], None).is_empty());
    let actions = session.on_data_segment(SegmentType::RedData, 1, 9, &[1, 2], None);
    assert!(matches!(
        answered(&actions)[0],
        Segment::Cancel {
            reason: CancelReason::ByEngine,
            ..
        }
    ));
    // An offset near the end of the range exceeds the limit, too.
    let mut session = ImportSession::new(id(), config);
    let _ = session.on_data_segment(SegmentType::RedData, 1, u64::MAX, &[1, 2], None);
    assert_eq!(session.state(), ImportState::Cancelled);
}

#[test]
fn green_data_is_never_reported() {
    let mut session = ImportSession::new(id(), receiver(20));
    assert!(session.on_data_segment(SegmentType::GreenData, 1, 0, &[1, 2], None).is_empty());
    let actions = session.on_data_segment(SegmentType::GreenEob, 1, 4, &[5], None);
    assert_eq!(actions.len(), 1);
    assert_eq!(deliveries(&actions), vec![Bytes::from_static(&[1, 2, 0, 0, 5])]);
    assert_eq!(session.reports_generated(), 0);
}

#[test]
fn deferral_only_postpones_the_report() {
    let info = CheckpointInfo {
        serial: 8,
        responding_report_serial: 0,
    };
    let mut config = receiver(2);
    let mut prompt = ImportSession::new(id(), config.clone());
    config.defer_report_ms = 250;
    let mut patient = ImportSession::new(id(), config);
    for offset in [0u64, 10, 20, 30] {
        for session in [&mut prompt, &mut patient] {
            let _ = session.on_data_segment(SegmentType::RedData, 1, offset, &[7; 5], None);
        }
    }
    let at_once = prompt.on_data_segment(SegmentType::RedCheckpoint, 1, 40, &[1], Some(info));
    let deferred = patient.on_data_segment(SegmentType::RedCheckpoint, 1, 40, &[1], Some(info));
    assert_eq!(
        deferred,
        vec![ImportAction::DeferReport {
            checkpoint_serial: 8,
            upper_bound: 41,
            defer_ms: 250,
        }]
    );
    assert!(patient.has_gaps_in_scope(41));
    assert_eq!(patient.generate_deferred_report(8, 41), at_once);
    assert_eq!(answered(&at_once).len(), 3);
}

#[test]
fn completing_data_is_reported_unasked() {
    let mut session = ImportSession::new(id(), receiver(20));
    let info = CheckpointInfo {
        serial: 1,
        responding_report_serial: 0,
    };
    let _ = session.on_data_segment(SegmentType::RedEob, 1, 2, &[3], Some(info));
    assert!(!session.is_scope_complete(3));
    let actions = session.on_data_segment(SegmentType::RedData, 1, 0, &[1, 2], None);
    assert_eq!(actions.len(), 3);
    match &answered(&actions)[0] {
        Segment::Report {
            checkpoint_serial,
            report_serial,
            upper_bound,
            claims,
            ..
        } => {
            assert_eq!((*checkpoint_serial, *report_serial, *upper_bound), (0, 2, 3));
            assert_eq!(
                *claims,
                vec![ReceptionClaim {
                    offset: 0,
                    length: 3
                }]
            );
        }
        other => panic!("expected a report, got {:?}", other),
    }
    assert_eq!(deliveries(&actions), vec![Bytes::from_static(&[1, 2, 3])]);
    assert_eq!(session.state(), ImportState::Complete);
}

#[test]
fn timers_belong_to_checkpoints() {
    let mut config = sender(4);
    config.checkpoint_every_n = 2;
    config.max_retransmissions = 10;
    let (mut session, _) = ExportSession::new(id(), block(30), 1, config);
    for round in 1..6u64 {
        let _ = session.on_timer_expired(round);
        let next = session.next_checkpoint_serial();
        assert!(session.active_timer_serials().iter().all(|s| 1 <= *s && *s < next));
        assert!(session.active_timer_serials().contains(&(next - 1)));
        assert!(!session.active_timer_serials().contains(&round));
    }
}

#[test]
fn empty_block_is_delivered() {
    let mut session = ImportSession::new(id(), receiver(20));
    let actions = session.on_data_segment(
        SegmentType::RedEob,
        1,
        0,
        &[],
        Some(CheckpointInfo {
            serial: 1,
            responding_report_serial: 0,
        }),
    );
    assert_eq!(deliveries(&actions), vec![Bytes::new()]);
    assert_eq!(answered(&actions).len(), 1);
}

#[test]
fn actions_clone_equal() {
    let action = ImportAction::DeliverBlock(Bytes::from_static(b"x"));
    assert_eq!(action.clone(), action);
    let action = ExportAction::SuspendTimer {
        checkpoint_serial: 3,
    };
    assert_eq!(action.clone(), action);
}

// ---------------------------------------------------------------------------
// Sender
// ---------------------------------------------------------------------------

#[test]
fn first_transmission_carries_the_block() {
    for len in [0usize, 1, 9, 10, 11, 95] {
        for size in [0usize, 1, 3, 10, 200] {
            let data = block(len);
            let (session, actions) = ExportSession::new(id(), data.clone(), 1, sender(size));
            let segments = sent(&actions);
            let step = size.max(1);
            assert_eq!(segments.len(), len.div_ceil(step).max(1));
            let mut payload = Vec::new();
            for (i, s) in segments.iter().enumerate() {
                if let Segment::Data {
                    offset,
                    data,
                    segment_type,
                    checkpoint,
                    ..
                } = s
                {
                    assert_eq!(*offset as usize, i * step);
                    assert!(data.len() <= step);
                    payload.extend_from_slice(data);
                    let last = i == segments.len() - 1;
                    assert_eq!(*segment_type == SegmentType::RedEob, last);
                    assert_eq!(checkpoint.is_some(), last);
                }
            }
            assert_eq!(payload, data.to_vec());
            assert_eq!(session.next_checkpoint_serial(), 2);
            assert_eq!(session.block(), &data);
        }
    }
}

#[test]
fn checkpoints_count_up_within_their_limit() {
    let mut config = sender(1);
    config.checkpoint_every_n = 2;
    config.max_checkpoints = Some(3);
    let (session, actions) = ExportSession::new(id(), block(20), 1, config);
    let serials: Vec<u64> = sent(&actions)
        .iter()
        .filter_map(|s| match s {
            Segment::Data { checkpoint, .. } => checkpoint.map(|c| c.serial),
            _ => None,
        })
        .collect();
    assert_eq!(serials, vec![1, 2, 3, 4]);
    let timers = session.active_timer_serials();
    assert_eq!(timers.len(), 4);
    assert!((1..=4).all(|s| timers.contains(&s)));
}

#[test]
fn green_transmission_completes_at_once() {
    let mut config = sender(3);
    config.green = true;
    config.checkpoint_every_n = 1;
    let (session, actions) = ExportSession::new(id(), block(7), 1, config);
    assert_eq!(session.state(), ExportState::Complete);
    assert!(session.active_timer_serials().is_empty());
    assert_eq!(actions.len(), 3);
    for s in sent(&actions) {
        if let Segment::Data {
            segment_type,
            checkpoint,
            ..
        } = s
        {
            assert!(segment_type.is_green());
            assert!(checkpoint.is_none());
        }
    }
}

#[test]
fn report_repeats_exactly_what_is_missing() {
    let mut seed = 71;
    for _ in 0..40 {
        let len = 200u64;
        let (mut session, _) = ExportSession::new(id(), block(len as usize), 1, sender(9));
        let mut has = vec![false; len as usize];
        let mut claims = Vec::new();
        for _ in 0..4 {
            let offset = next_random(&mut seed) % 150;
            let length = next_random(&mut seed) % 40;
            claims.push(ReceptionClaim { offset, length });
            for p in offset..offset + length {
                has[p as usize] = true;
            }
        }
        let actions = session.on_report(5, 1, len, 0, &claims);
        let segments = sent(&actions);
        assert!(matches!(segments[0], Segment::ReportAck { report_serial: 5, .. }));
        for (i, s) in segments.iter().enumerate().skip(1) {
            if let Segment::Data {
                offset,
                data,
                checkpoint,
                ..
            } = s
            {
                assert!(!data.is_empty() && data.len() <= 9);
                for p in *offset..*offset + data.len() as u64 {
                    assert!(!has[p as usize]);
                    has[p as usize] = true;
                }
                let expected = if i == segments.len() - 1 {
                    Some(CheckpointInfo {
                        serial: 2,
                        responding_report_serial: 5,
                    })
                } else {
                    None
                };
                assert_eq!(*checkpoint, expected);
            }
        }
        assert!(has.iter().all(|b| *b));
        assert_eq!(session.next_checkpoint_serial(), 3);
    }
}

#[test]
fn session_completes_exactly_when_all_is_acknowledged() {
    let (mut session, _) = ExportSession::new(id(), block(30), 1, sender(10));
    let _ = session.on_timer_expired(1);
    assert_eq!(session.retry_count(), 1);
    let claims = [ReceptionClaim {
        offset: 0,
        length: 29,
    }];
    let _ = session.on_report(1, 1, 30, 0, &claims);
    assert_eq!(session.state(), ExportState::AwaitingReport);
    assert_eq!(session.retry_count(), 0);
    let claims = [ReceptionClaim {
        offset: 29,
        length: 1,
    }];
    let actions = session.on_report(2, 2, 30, 0, &claims);
    assert_eq!(session.state(), ExportState::Complete);
    assert_eq!(actions.len(), 1);
    assert!(session.active_timer_serials().is_empty());
    assert!(session.on_timer_expired(1).is_empty());
    assert_eq!(session.on_report(3, 1, 30, 0, &[]).len(), 1);
}

#[test]
fn sender_gives_up_at_its_limits() {
    let (mut session, _) = ExportSession::new(id(), block(30), 1, sender(10));
    for serial in 1..=2 {
        assert!(!session.on_timer_expired(serial).is_empty());
        assert_eq!(session.state(), ExportState::AwaitingReport);
    }
    let actions = session.on_timer_expired(3);
    assert_eq!(session.state(), ExportState::Cancelled);
    assert!(matches!(
        sent(&actions)[0],
        Segment::Cancel {
            reason: CancelReason::RetransmitLimitExceeded,
            ..
        }
    ));

    let mut config = sender(10);
    config.max_checkpoints = Some(1);
    let (mut session, _) = ExportSession::new(id(), block(30), 1, config);
    let actions = session.on_report(1, 1, 30, 0, &[]);
    assert_eq!(actions.len(), 2);
    assert_eq!(session.state(), ExportState::Cancelled);
    assert_eq!(session.next_checkpoint_serial(), 2);
}

#[test]
fn suspended_timers_come_back() {
    let mut config = sender(5);
    config.checkpoint_every_n = 1;
    let (mut session, _) = ExportSession::new(id(), block(20), 1, config);
    let mut serials: Vec<u64> = session
        .suspend_timers()
        .iter()
        .map(|a| match a {
            ExportAction::SuspendTimer { checkpoint_serial } => *checkpoint_serial,
            other => panic!("unexpected {:?}", other),
        })
        .collect();
    serials.sort();
    assert_eq!(serials, vec![1, 2, 3, 4]);
    assert!(session.suspend_timers().is_empty());
    let _ = session.on_timer_expired(2);
    let left: Vec<(u64, Duration)> = serials
        .iter()
        .map(|s| (*s, Duration::from_millis(*s)))
        .collect();
    let resumed = session.resume_timers(&left);
    assert_eq!(
        resumed,
        vec![1, 3, 4]
            .into_iter()
            .map(|s| ExportAction::ResumeTimer {
                checkpoint_serial: s,
                remaining: Duration::from_millis(s),
            })
            .collect::<Vec<_>>()
    );
    assert!(session.resume_timers(&left).is_empty());
}
