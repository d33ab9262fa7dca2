//! The sender's session.

use bytes::Bytes;
use hardy_ltp::segment::{self, CheckpointInfo, ReceptionClaim, Segment, SegmentType};
use hardy_ltp::session::export::{ExportAction, ExportConfig, ExportSession, ExportState};
use hardy_ltp::session::{CancelDirection, CancelReason, SessionId};
use std::time::Duration;

fn default_config() -> ExportConfig {
    ExportConfig {
        max_segment_size: 100,
        max_retransmissions: 3,
        retransmit_timeout: Duration::from_secs(30),
        checkpoint_every_n: 0,
        max_checkpoints: None,
        green: false,
    }
}

fn session_id() -> SessionId {
    SessionId {
        engine_id: 1,
        session_number: 42,
    }
}

/// Helper: create a session with a 200-byte block and 100-byte segments.
fn create_test_session() -> ExportSession {
    let block = Bytes::from(vec![0xAB; 200]);
    let config = default_config();
    let (session, _actions) = ExportSession::new(session_id(), block, 1, config);
    session
}

/// Helper: count SendSegment actions.
fn count_send_segments(actions: &[ExportAction]) -> usize {
    actions
        .iter()
        .filter(|a| matches!(a, ExportAction::SendSegment(_)))
        .count()
}

/// Helper: count StartTimer actions.
fn count_start_timers(actions: &[ExportAction]) -> usize {
    actions
        .iter()
        .filter(|a| matches!(a, ExportAction::StartTimer { .. }))
        .count()
}

/// Helper: decode the first SendSegment action into a Segment.
fn decode_first_segment(actions: &[ExportAction]) -> Segment {
    for action in actions {
        if let ExportAction::SendSegment(wire) = action {
            let mut reader = &wire[..];
            return segment::decode(&mut reader).unwrap();
        }
    }
    panic!("No SendSegment action found");
}

// -----------------------------------------------------------------------
// on_report tests
// -----------------------------------------------------------------------

#[test]
fn on_report_sends_report_ack() {
    let mut session = create_test_session();
    let claims = vec![ReceptionClaim {
        offset: 0,
        length: 100,
    }];

    let actions = session.on_report(1, 1, 200, 0, &claims);

    // First action should be a ReportAck
    let seg = decode_first_segment(&actions);
    match seg {
        Segment::ReportAck {
            report_serial,
            session_id: sid,
            ..
        } => {
            assert_eq!(report_serial, 1);
            assert_eq!(sid, session_id());
        }
        _ => panic!("Expected ReportAck segment, got {:?}", seg),
    }
}

#[test]
fn on_report_full_ack_transitions_to_complete() {
    let mut session = create_test_session();
    // Acknowledge the entire 200-byte block
    let claims = vec![ReceptionClaim {
        offset: 0,
        length: 200,
    }];

    let actions = session.on_report(1, 1, 200, 0, &claims);

    assert_eq!(session.state(), ExportState::Complete);
    // Should only have the ReportAck, no retransmissions
    assert_eq!(count_send_segments(&actions), 1);
    assert_eq!(count_start_timers(&actions), 0);
}

#[test]
fn on_report_partial_ack_retransmits_unclaimed() {
    let mut session = create_test_session();
    // Acknowledge only the first 100 bytes; bytes 100-200 are unclaimed
    let claims = vec![ReceptionClaim {
        offset: 0,
        length: 100,
    }];

    let actions = session.on_report(1, 1, 200, 0, &claims);

    // Should have: 1 ReportAck + 1 retransmitted data segment (100 bytes)
    // The retransmitted segment should be a checkpoint
    assert_eq!(count_send_segments(&actions), 2);
    assert_eq!(count_start_timers(&actions), 1);
    assert_eq!(session.state(), ExportState::AwaitingReport);
}

#[test]
fn on_report_resets_retry_count() {
    let mut session = create_test_session();

    // Simulate a timer expiry to increment retry_count
    let _ = session.on_timer_expired(1);
    assert_eq!(session.retry_count(), 1);

    // Now receive a report — retry_count should reset
    let claims = vec![ReceptionClaim {
        offset: 0,
        length: 100,
    }];
    let _ = session.on_report(1, 1, 200, 0, &claims);
    assert_eq!(session.retry_count(), 0);
}

#[test]
fn on_report_retransmits_gap_in_middle() {
    let block = Bytes::from(vec![0xAB; 300]);
    let config = ExportConfig {
        max_segment_size: 100,
        ..default_config()
    };
    let (mut session, _) = ExportSession::new(session_id(), block, 1, config);

    // Acknowledge bytes 0-100 and 200-300, leaving gap at 100-200
    let claims = vec![
        ReceptionClaim {
            offset: 0,
            length: 100,
        },
        ReceptionClaim {
            offset: 200,
            length: 100,
        },
    ];

    let actions = session.on_report(1, 1, 300, 0, &claims);

    // Should have: 1 ReportAck + 1 data segment (the gap 100-200)
    assert_eq!(count_send_segments(&actions), 2);
    assert_eq!(count_start_timers(&actions), 1);

    // Decode the retransmitted data segment (second SendSegment)
    let mut data_segments = Vec::new();
    for action in &actions {
        if let ExportAction::SendSegment(wire) = action {
            let mut reader = &wire[..];
            let seg = segment::decode(&mut reader).unwrap();
            if let Segment::Data { offset, data, .. } = &seg {
                data_segments.push((*offset, data.len()));
            }
        }
    }
    assert_eq!(data_segments.len(), 1);
    assert_eq!(data_segments[0], (100, 100)); // gap at offset 100, length 100
}

#[test]
fn on_report_checkpoint_serial_increases() {
    let mut session = create_test_session();
    let initial_serial = session.next_checkpoint_serial();

    // Partial ack triggers retransmission with new checkpoint
    let claims = vec![ReceptionClaim {
        offset: 0,
        length: 100,
    }];
    let _ = session.on_report(1, 1, 200, 0, &claims);

    assert!(session.next_checkpoint_serial() > initial_serial);
}

#[test]
fn on_report_multiple_claims_merge() {
    let block = Bytes::from(vec![0xAB; 400]);
    let config = ExportConfig {
        max_segment_size: 100,
        ..default_config()
    };
    let (mut session, _) = ExportSession::new(session_id(), block, 1, config);

    // First report: ack bytes 0-100
    let claims1 = vec![ReceptionClaim {
        offset: 0,
        length: 100,
    }];
    let _ = session.on_report(1, 1, 400, 0, &claims1);

    // Second report: ack bytes 100-200 (adjacent to first)
    let claims2 = vec![ReceptionClaim {
        offset: 100,
        length: 100,
    }];
    let _ = session.on_report(2, 2, 400, 0, &claims2);

    // The acknowledged ranges should be merged into one: [0, 200)
    let ranges = session.acknowledged_ranges();
    assert_eq!(ranges.len(), 1);
    assert_eq!(ranges[0], (0, 200));
}

#[test]
fn on_report_ignored_when_complete() {
    let mut session = create_test_session();

    // Fully acknowledge
    let claims = vec![ReceptionClaim {
        offset: 0,
        length: 200,
    }];
    let _ = session.on_report(1, 1, 200, 0, &claims);
    assert_eq!(session.state(), ExportState::Complete);

    // Another report should just send RAS, not change state
    let actions = session.on_report(2, 1, 200, 0, &claims);
    assert_eq!(session.state(), ExportState::Complete);
    assert_eq!(count_send_segments(&actions), 1); // Just the RAS
}

// -----------------------------------------------------------------------
// on_timer_expired tests
// -----------------------------------------------------------------------

#[test]
fn on_timer_expired_increments_retry_count() {
    let mut session = create_test_session();
    assert_eq!(session.retry_count(), 0);

    let _ = session.on_timer_expired(1);
    assert_eq!(session.retry_count(), 1);

    let _ = session.on_timer_expired(2);
    assert_eq!(session.retry_count(), 2);
}

#[test]
fn on_timer_expired_retransmits_full_block() {
    let mut session = create_test_session();

    let actions = session.on_timer_expired(1);

    // Should retransmit the full 200-byte block (2 segments of 100 bytes)
    // The last segment should be a checkpoint
    assert_eq!(count_send_segments(&actions), 2);
    assert_eq!(count_start_timers(&actions), 1);
    assert_eq!(session.state(), ExportState::AwaitingReport);
}

#[test]
fn on_timer_expired_retransmits_only_unclaimed() {
    let mut session = create_test_session();

    // First, acknowledge the first 100 bytes
    let claims = vec![ReceptionClaim {
        offset: 0,
        length: 100,
    }];
    let _ = session.on_report(1, 1, 200, 0, &claims);

    // Now timer expires — should only retransmit bytes 100-200
    let actions = session.on_timer_expired(2);

    // Should have 1 data segment (100 bytes) + 1 timer
    assert_eq!(count_send_segments(&actions), 1);
    assert_eq!(count_start_timers(&actions), 1);
}

#[test]
fn on_timer_expired_cancels_when_limit_exceeded() {
    let block = Bytes::from(vec![0xAB; 100]);
    let config = ExportConfig {
        max_segment_size: 100,
        max_retransmissions: 2,
        retransmit_timeout: Duration::from_secs(30),
        checkpoint_every_n: 0,
        max_checkpoints: None,
        green: false,
    };
    let (mut session, _) = ExportSession::new(session_id(), block, 1, config);

    // Expire timer twice (retry_count goes to 1, then 2)
    let _ = session.on_timer_expired(1);
    assert_eq!(session.retry_count(), 1);
    assert_eq!(session.state(), ExportState::AwaitingReport);

    let _ = session.on_timer_expired(2);
    assert_eq!(session.retry_count(), 2);
    assert_eq!(session.state(), ExportState::AwaitingReport);

    // Third expiry exceeds limit (retry_count 3 > max_retransmissions 2)
    let actions = session.on_timer_expired(3);
    assert_eq!(session.retry_count(), 3);
    assert_eq!(session.state(), ExportState::Cancelled);

    // Should emit a Cancel segment
    let seg = decode_first_segment(&actions);
    match seg {
        Segment::Cancel {
            reason, direction, ..
        } => {
            assert_eq!(reason, CancelReason::RetransmitLimitExceeded);
            assert_eq!(direction, CancelDirection::FromSender);
        }
        _ => panic!("Expected Cancel segment, got {:?}", seg),
    }
}

#[test]
fn on_timer_expired_ignored_when_cancelled() {
    let mut session = create_test_session();
    session.on_cancel_from_receiver(CancelReason::ByUser);
    assert_eq!(session.state(), ExportState::Cancelled);

    let actions = session.on_timer_expired(1);
    assert!(actions.is_empty());
    assert_eq!(session.state(), ExportState::Cancelled);
}

#[test]
fn on_timer_expired_ignored_when_complete() {
    let mut session = create_test_session();

    // Fully acknowledge
    let claims = vec![ReceptionClaim {
        offset: 0,
        length: 200,
    }];
    let _ = session.on_report(1, 1, 200, 0, &claims);
    assert_eq!(session.state(), ExportState::Complete);

    let actions = session.on_timer_expired(1);
    assert!(actions.is_empty());
}

// -----------------------------------------------------------------------
// on_cancel_from_receiver tests
// -----------------------------------------------------------------------

#[test]
fn on_cancel_from_receiver_sends_cancel_ack() {
    let mut session = create_test_session();

    let actions = session.on_cancel_from_receiver(CancelReason::MiscoloredSegment);

    assert_eq!(session.state(), ExportState::Cancelled);
    assert_eq!(count_send_segments(&actions), 1);

    let seg = decode_first_segment(&actions);
    match seg {
        Segment::CancelAck { direction, .. } => {
            assert_eq!(direction, CancelDirection::FromReceiver);
        }
        _ => panic!("Expected CancelAck segment, got {:?}", seg),
    }
}

#[test]
fn on_cancel_from_receiver_various_reasons() {
    for reason in [
        CancelReason::ByUser,
        CancelReason::ClientSvcUnreachable,
        CancelReason::RetransmitLimitExceeded,
        CancelReason::MiscoloredSegment,
        CancelReason::ByEngine,
    ] {
        let mut session = create_test_session();
        let actions = session.on_cancel_from_receiver(reason);
        assert_eq!(session.state(), ExportState::Cancelled);
        assert_eq!(count_send_segments(&actions), 1);
    }
}

// -----------------------------------------------------------------------
// State transition tests
// -----------------------------------------------------------------------

#[test]
fn state_transitions_sending_to_awaiting_report() {
    let session = create_test_session();
    // After new(), session should be in AwaitingReport
    assert_eq!(session.state(), ExportState::AwaitingReport);
}

#[test]
fn state_transitions_full_lifecycle() {
    let mut session = create_test_session();
    assert_eq!(session.state(), ExportState::AwaitingReport);

    // Partial report → retransmit → back to AwaitingReport
    let claims = vec![ReceptionClaim {
        offset: 0,
        length: 100,
    }];
    let _ = session.on_report(1, 1, 200, 0, &claims);
    assert_eq!(session.state(), ExportState::AwaitingReport);

    // Full ack → Complete
    let claims = vec![ReceptionClaim {
        offset: 0,
        length: 200,
    }];
    let _ = session.on_report(2, 2, 200, 0, &claims);
    assert_eq!(session.state(), ExportState::Complete);
}

// -----------------------------------------------------------------------
// Helper method tests
// -----------------------------------------------------------------------

#[test]
fn acknowledged_ranges_adjacent() {
    let mut session = create_test_session();
    session.acknowledged.insert(0, 50);
    session.acknowledged.insert(50, 100);
    assert_eq!(session.acknowledged_ranges(), vec![(0, 100)]);
}

#[test]
fn acknowledged_ranges_overlapping() {
    let mut session = create_test_session();
    session.acknowledged.insert(0, 60);
    session.acknowledged.insert(40, 100);
    assert_eq!(session.acknowledged_ranges(), vec![(0, 100)]);
}

#[test]
fn acknowledged_ranges_disjoint() {
    let mut session = create_test_session();
    session.acknowledged.insert(0, 50);
    session.acknowledged.insert(100, 150);
    assert_eq!(session.acknowledged_ranges(), vec![(0, 50), (100, 50)]);
}

#[test]
fn acknowledged_ranges_fills_gap() {
    let mut session = create_test_session();
    session.acknowledged.insert(0, 50);
    session.acknowledged.insert(100, 150);
    // Fill the gap
    session.acknowledged.insert(50, 100);
    assert_eq!(session.acknowledged_ranges(), vec![(0, 150)]);
}

#[test]
fn gaps_no_acks() {
    let session = create_test_session();
    let unclaimed = session.acknowledged.gaps(0, 200);
    assert_eq!(unclaimed, vec![(0, 200)]);
}

#[test]
fn gaps_partial_ack() {
    let mut session = create_test_session();
    session.acknowledged.insert(0, 100);
    let unclaimed = session.acknowledged.gaps(0, 200);
    assert_eq!(unclaimed, vec![(100, 200)]);
}

#[test]
fn gaps_in_middle() {
    let mut session = create_test_session();
    session.acknowledged.insert(0, 50);
    session.acknowledged.insert(150, 200);
    let unclaimed = session.acknowledged.gaps(0, 200);
    assert_eq!(unclaimed, vec![(50, 150)]);
}

#[test]
fn gaps_fully_acked() {
    let mut session = create_test_session();
    session.acknowledged.insert(0, 200);
    let unclaimed = session.acknowledged.gaps(0, 200);
    assert!(unclaimed.is_empty());
}

#[test]
fn gaps_windowed() {
    let mut session = create_test_session();
    session.acknowledged.insert(50, 100); // acked [50, 100)
    // Window is [0, 150) — unclaimed: [0, 50) and [100, 150)
    let unclaimed = session.acknowledged.gaps(0, 150);
    assert_eq!(unclaimed, vec![(0, 50), (100, 150)]);
}

// -----------------------------------------------------------------------
// Green data export session tests
// -----------------------------------------------------------------------

fn green_config() -> ExportConfig {
    ExportConfig {
        max_segment_size: 100,
        max_retransmissions: 3,
        retransmit_timeout: Duration::from_secs(30),
        checkpoint_every_n: 0,
        max_checkpoints: None,
        green: true,
    }
}

#[test]
fn green_session_uses_green_segment_types() {
    let block = Bytes::from(vec![0xAB; 200]);
    let config = green_config();
    let (_session, actions) = ExportSession::new(session_id(), block, 1, config);

    // Decode all data segments and check their types
    let mut segment_types = Vec::new();
    for action in &actions {
        if let ExportAction::SendSegment(wire) = action {
            let mut reader = &wire[..];
            let seg = segment::decode(&mut reader).unwrap();
            if let Segment::Data { segment_type, .. } = seg {
                segment_types.push(segment_type);
            }
        }
    }

    // 200 bytes / 100 max = 2 segments
    assert_eq!(segment_types.len(), 2);
    assert_eq!(segment_types[0], SegmentType::GreenData);
    assert_eq!(segment_types[1], SegmentType::GreenEob);
}

#[test]
fn green_session_no_checkpoint_info() {
    let block = Bytes::from(vec![0xAB; 200]);
    let config = green_config();
    let (_session, actions) = ExportSession::new(session_id(), block, 1, config);

    // All segments should have checkpoint = None
    for action in &actions {
        if let ExportAction::SendSegment(wire) = action {
            let mut reader = &wire[..];
            let seg = segment::decode(&mut reader).unwrap();
            if let Segment::Data { checkpoint, .. } = seg {
                assert_eq!(
                    checkpoint, None,
                    "Green segments must not have checkpoint info"
                );
            }
        }
    }
}

#[test]
fn green_session_no_timers() {
    let block = Bytes::from(vec![0xAB; 200]);
    let config = green_config();
    let (_session, actions) = ExportSession::new(session_id(), block, 1, config);

    // No StartTimer actions should be emitted
    assert_eq!(count_start_timers(&actions), 0);
}

#[test]
fn green_session_immediately_complete() {
    let block = Bytes::from(vec![0xAB; 200]);
    let config = green_config();
    let (session, _actions) = ExportSession::new(session_id(), block, 1, config);

    assert_eq!(session.state(), ExportState::Complete);
}

#[test]
fn green_session_on_report_ignored() {
    let block = Bytes::from(vec![0xAB; 200]);
    let config = green_config();
    let (mut session, _) = ExportSession::new(session_id(), block, 1, config);

    // Session is already Complete, so on_report should just send RAS
    let claims = vec![ReceptionClaim {
        offset: 0,
        length: 200,
    }];
    let actions = session.on_report(1, 1, 200, 0, &claims);

    // Should only emit a ReportAck (the early-return path for Complete state)
    assert_eq!(session.state(), ExportState::Complete);
    assert_eq!(count_send_segments(&actions), 1);
    assert_eq!(count_start_timers(&actions), 0);
}

#[test]
fn green_session_on_timer_expired_ignored() {
    let block = Bytes::from(vec![0xAB; 200]);
    let config = green_config();
    let (mut session, _) = ExportSession::new(session_id(), block, 1, config);

    // Session is already Complete, so timer expiry should be a no-op
    let actions = session.on_timer_expired(1);
    assert!(actions.is_empty());
    assert_eq!(session.state(), ExportState::Complete);
}

#[test]
fn green_session_single_segment_uses_green_eob() {
    let block = Bytes::from(vec![0xAB; 50]);
    let config = green_config();
    let (session, actions) = ExportSession::new(session_id(), block, 1, config);

    assert_eq!(session.state(), ExportState::Complete);
    assert_eq!(count_send_segments(&actions), 1);
    assert_eq!(count_start_timers(&actions), 0);

    // The single segment should be GreenEob
    let seg = decode_first_segment(&actions);
    match seg {
        Segment::Data {
            segment_type,
            checkpoint,
            ..
        } => {
            assert_eq!(segment_type, SegmentType::GreenEob);
            assert_eq!(checkpoint, None);
        }
        _ => panic!("Expected Data segment, got {:?}", seg),
    }
}

#[test]
fn green_session_empty_block() {
    let block = Bytes::new();
    let config = green_config();
    let (session, actions) = ExportSession::new(session_id(), block, 1, config);

    assert_eq!(session.state(), ExportState::Complete);
    assert_eq!(count_send_segments(&actions), 1);
    assert_eq!(count_start_timers(&actions), 0);

    // Even an empty block produces one GreenEob segment
    let seg = decode_first_segment(&actions);
    match seg {
        Segment::Data {
            segment_type,
            checkpoint,
            data,
            ..
        } => {
            assert_eq!(segment_type, SegmentType::GreenEob);
            assert_eq!(checkpoint, None);
            assert!(data.is_empty());
        }
        _ => panic!("Expected Data segment, got {:?}", seg),
    }
}

#[test]
fn green_session_multiple_segments() {
    let block = Bytes::from(vec![0xAB; 350]);
    let config = ExportConfig {
        max_segment_size: 100,
        ..green_config()
    };
    let (session, actions) = ExportSession::new(session_id(), block, 1, config);

    assert_eq!(session.state(), ExportState::Complete);
    // 350 / 100 = 4 segments (100 + 100 + 100 + 50)
    assert_eq!(count_send_segments(&actions), 4);
    assert_eq!(count_start_timers(&actions), 0);

    // Decode all segments and verify types
    let mut segment_types = Vec::new();
    for action in &actions {
        if let ExportAction::SendSegment(wire) = action {
            let mut reader = &wire[..];
            let seg = segment::decode(&mut reader).unwrap();
            if let Segment::Data { segment_type, .. } = seg {
                segment_types.push(segment_type);
            }
        }
    }

    // First 3 should be GreenData, last should be GreenEob
    assert_eq!(segment_types[0], SegmentType::GreenData);
    assert_eq!(segment_types[1], SegmentType::GreenData);
    assert_eq!(segment_types[2], SegmentType::GreenData);
    assert_eq!(segment_types[3], SegmentType::GreenEob);
}

#[test]
fn green_session_data_reconstructs_block() {
    let block_data = vec![0x01, 0x02, 0x03, 0x04, 0x05, 0x06, 0x07, 0x08];
    let block = Bytes::from(block_data.clone());
    let config = ExportConfig {
        max_segment_size: 3,
        ..green_config()
    };
    let (_session, actions) = ExportSession::new(session_id(), block, 1, config);

    // Reconstruct the block from segment payloads
    let mut reconstructed = Vec::new();
    for action in &actions {
        if let ExportAction::SendSegment(wire) = action {
            let mut reader = &wire[..];
            let seg = segment::decode(&mut reader).unwrap();
            if let Segment::Data { data, .. } = seg {
                reconstructed.extend_from_slice(&data);
            }
        }
    }

    assert_eq!(reconstructed, block_data);
}

// -----------------------------------------------------------------------
// Max checkpoints limit tests
// -----------------------------------------------------------------------

#[test]
fn max_checkpoints_cancels_on_report_retransmission() {
    // Create a session with max_checkpoints = 2
    // Initial transmission creates 1 checkpoint (the EOB).
    // First retransmission creates checkpoint #2 (at limit).
    // Second retransmission should trigger cancel.
    let block = Bytes::from(vec![0xAB; 200]);
    let config = ExportConfig {
        max_segment_size: 100,
        max_retransmissions: 10,
        retransmit_timeout: Duration::from_secs(30),
        checkpoint_every_n: 0,
        max_checkpoints: Some(2),
        green: false,
    };
    let (mut session, _) = ExportSession::new(session_id(), block, 1, config);

    // Initial transmission used 1 checkpoint (serial 1, the EOB)
    assert_eq!(session.next_checkpoint_serial(), 2);

    // First partial report — retransmits with checkpoint #2 (at limit)
    let claims = vec![ReceptionClaim {
        offset: 0,
        length: 100,
    }];
    let actions = session.on_report(1, 1, 200, 0, &claims);
    assert_eq!(session.state(), ExportState::AwaitingReport);
    assert_eq!(session.next_checkpoint_serial(), 3); // Used checkpoint #2
    // Should have RAS + retransmitted data segment
    assert!(count_send_segments(&actions) >= 2);

    // Second partial report — would need checkpoint #3, but limit is 2
    let claims2 = vec![ReceptionClaim {
        offset: 0,
        length: 100,
    }];
    let actions2 = session.on_report(2, 2, 200, 0, &claims2);
    assert_eq!(session.state(), ExportState::Cancelled);

    // Should have RAS + Cancel segment
    // Find the Cancel segment
    let mut found_cancel = false;
    for action in &actions2 {
        if let ExportAction::SendSegment(wire) = action {
            let mut reader = &wire[..];
            let seg = segment::decode(&mut reader).unwrap();
            if let Segment::Cancel {
                reason, direction, ..
            } = seg
            {
                assert_eq!(reason, CancelReason::RetransmitLimitExceeded);
                assert_eq!(direction, CancelDirection::FromSender);
                found_cancel = true;
            }
        }
    }
    assert!(found_cancel, "Expected Cancel segment in actions");
}

#[test]
fn max_checkpoints_cancels_on_timer_retransmission() {
    // Create a session with max_checkpoints = 1
    // Initial transmission creates 1 checkpoint (the EOB) — at limit.
    // Timer expiry should trigger cancel because next checkpoint would exceed limit.
    let block = Bytes::from(vec![0xAB; 100]);
    let config = ExportConfig {
        max_segment_size: 100,
        max_retransmissions: 10,
        retransmit_timeout: Duration::from_secs(30),
        checkpoint_every_n: 0,
        max_checkpoints: Some(1),
        green: false,
    };
    let (mut session, _) = ExportSession::new(session_id(), block, 1, config);

    // Initial transmission used 1 checkpoint (serial 1)
    assert_eq!(session.next_checkpoint_serial(), 2);

    // Timer expires — would need a new checkpoint but limit is 1
    let actions = session.on_timer_expired(1);
    assert_eq!(session.state(), ExportState::Cancelled);

    // Should emit a Cancel segment
    let seg = decode_first_segment(&actions);
    match seg {
        Segment::Cancel {
            reason, direction, ..
        } => {
            assert_eq!(reason, CancelReason::RetransmitLimitExceeded);
            assert_eq!(direction, CancelDirection::FromSender);
        }
        _ => panic!("Expected Cancel segment, got {:?}", seg),
    }
}

#[test]
fn max_checkpoints_none_means_unlimited() {
    // With max_checkpoints = None, retransmissions should proceed normally
    let block = Bytes::from(vec![0xAB; 100]);
    let config = ExportConfig {
        max_segment_size: 100,
        max_retransmissions: 10,
        retransmit_timeout: Duration::from_secs(30),
        checkpoint_every_n: 0,
        max_checkpoints: None,
        green: false,
    };
    let (mut session, _) = ExportSession::new(session_id(), block, 1, config);

    // Multiple timer expiries should work fine
    for i in 1..=5 {
        let actions = session.on_timer_expired(i);
        assert_eq!(session.state(), ExportState::AwaitingReport);
        assert!(count_send_segments(&actions) > 0);
    }
}

#[test]
fn max_checkpoints_allows_retransmission_within_limit() {
    // max_checkpoints = 3: initial (1) + 2 retransmissions allowed
    let block = Bytes::from(vec![0xAB; 100]);
    let config = ExportConfig {
        max_segment_size: 100,
        max_retransmissions: 10,
        retransmit_timeout: Duration::from_secs(30),
        checkpoint_every_n: 0,
        max_checkpoints: Some(3),
        green: false,
    };
    let (mut session, _) = ExportSession::new(session_id(), block, 1, config);

    // First timer expiry — checkpoint #2 (within limit)
    let actions1 = session.on_timer_expired(1);
    assert_eq!(session.state(), ExportState::AwaitingReport);
    assert!(count_send_segments(&actions1) > 0);

    // Second timer expiry — checkpoint #3 (at limit)
    let actions2 = session.on_timer_expired(2);
    assert_eq!(session.state(), ExportState::AwaitingReport);
    assert!(count_send_segments(&actions2) > 0);

    // Third timer expiry — would be checkpoint #4, exceeds limit
    let actions3 = session.on_timer_expired(3);
    assert_eq!(session.state(), ExportState::Cancelled);

    let seg = decode_first_segment(&actions3);
    match seg {
        Segment::Cancel {
            reason, direction, ..
        } => {
            assert_eq!(reason, CancelReason::RetransmitLimitExceeded);
            assert_eq!(direction, CancelDirection::FromSender);
        }
        _ => panic!("Expected Cancel segment, got {:?}", seg),
    }
}

#[test]
fn max_checkpoints_intermediate_checkpoints_count_toward_limit() {
    // With checkpoint_every_n = 1 and a 300-byte block with 100-byte segments,
    // we get 3 segments: seg0 (intermediate ckpt), seg1 (intermediate ckpt), seg2 (EOB ckpt)
    // That's 3 checkpoints. With max_checkpoints = 3, no retransmission is allowed.
    let block = Bytes::from(vec![0xAB; 300]);
    let config = ExportConfig {
        max_segment_size: 100,
        max_retransmissions: 10,
        retransmit_timeout: Duration::from_secs(30),
        checkpoint_every_n: 1,
        max_checkpoints: Some(3),
        green: false,
    };
    let (mut session, _) = ExportSession::new(session_id(), block, 1, config);

    // Initial transmission: 3 checkpoints used (serials 1, 2, 3)
    assert_eq!(session.next_checkpoint_serial(), 4);

    // Timer expiry — would need checkpoint #4, but limit is 3
    let actions = session.on_timer_expired(1);
    assert_eq!(session.state(), ExportState::Cancelled);

    let seg = decode_first_segment(&actions);
    match seg {
        Segment::Cancel {
            reason, direction, ..
        } => {
            assert_eq!(reason, CancelReason::RetransmitLimitExceeded);
            assert_eq!(direction, CancelDirection::FromSender);
        }
        _ => panic!("Expected Cancel segment, got {:?}", seg),
    }
}

#[test]
fn max_checkpoints_skips_intermediate_in_new_when_at_limit() {
    // With checkpoint_every_n = 1 and max_checkpoints = 2, and a 300-byte block:
    // Segments: seg0, seg1, seg2 (EOB)
    // With checkpoint_every_n=1: seg0 would be intermediate ckpt, seg1 would be intermediate ckpt
    // But max_checkpoints=2: seg0 gets ckpt (serial 1, count was 0 < 2),
    // seg1 gets ckpt (serial 2, count was 1 < 2), seg2 is EOB (always gets ckpt, serial 3)
    // After initial transmission, 3 checkpoints used. The limit prevents further
    // retransmission checkpoints.
    let block = Bytes::from(vec![0xAB; 300]);
    let config = ExportConfig {
        max_segment_size: 100,
        max_retransmissions: 10,
        retransmit_timeout: Duration::from_secs(30),
        checkpoint_every_n: 1,
        max_checkpoints: Some(2),
        green: false,
    };
    let (mut session, _) = ExportSession::new(session_id(), block, 1, config);

    // Initial transmission used checkpoints: 2 intermediate + 1 EOB = 3 total
    // (EOB is always unconditional)
    assert_eq!(session.next_checkpoint_serial(), 4);

    // Timer expiry — would need checkpoint #4, but limit is 2 (already exceeded)
    let actions = session.on_timer_expired(1);
    assert_eq!(session.state(), ExportState::Cancelled);

    let seg = decode_first_segment(&actions);
    match seg {
        Segment::Cancel {
            reason, direction, ..
        } => {
            assert_eq!(reason, CancelReason::RetransmitLimitExceeded);
            assert_eq!(direction, CancelDirection::FromSender);
        }
        _ => panic!("Expected Cancel segment, got {:?}", seg),
    }
}

#[test]
fn max_checkpoints_limits_intermediate_in_new() {
    // With checkpoint_every_n = 1 and max_checkpoints = 1, and a 400-byte block:
    // 4 segments (indices 0, 1, 2, 3 where 3 is last/EOB)
    // seg0: intermediate ckpt → count was 0 < 1, allowed (serial 1)
    // seg1: intermediate ckpt → count is 1 >= 1, SKIPPED (plain RedData)
    // seg2: intermediate ckpt → count is 1 >= 1, SKIPPED (plain RedData)
    // seg3: EOB → always gets checkpoint (serial 2)
    // Total: 2 checkpoints (1 intermediate + 1 EOB)
    let block = Bytes::from(vec![0xAB; 400]);
    let config = ExportConfig {
        max_segment_size: 100,
        max_retransmissions: 10,
        retransmit_timeout: Duration::from_secs(30),
        checkpoint_every_n: 1,
        max_checkpoints: Some(1),
        green: false,
    };
    let (session, actions) = ExportSession::new(session_id(), block, 1, config);

    // Count checkpoints in the initial transmission
    let mut checkpoint_count = 0;
    let mut segment_types = Vec::new();
    for action in &actions {
        if let ExportAction::SendSegment(wire) = action {
            let mut reader = &wire[..];
            let seg = segment::decode(&mut reader).unwrap();
            if let Segment::Data {
                checkpoint,
                segment_type,
                ..
            } = seg
            {
                segment_types.push(segment_type);
                if checkpoint.is_some() {
                    checkpoint_count += 1;
                }
            }
        }
    }

    // Should have 2 checkpoints: 1 intermediate (before limit hit) + 1 EOB (always)
    assert_eq!(checkpoint_count, 2);
    // Segments: RedCheckpoint, RedData, RedData, RedEob
    assert_eq!(segment_types[0], SegmentType::RedCheckpoint);
    assert_eq!(segment_types[1], SegmentType::RedData);
    assert_eq!(segment_types[2], SegmentType::RedData);
    assert_eq!(segment_types[3], SegmentType::RedEob);
    // next_checkpoint_serial should be 3 (used serials 1 and 2)
    assert_eq!(session.next_checkpoint_serial(), 3);
}

// -----------------------------------------------------------------------
// Accelerated retransmission via intermediate checkpoints (Req 27.1-27.4)
// -----------------------------------------------------------------------

#[test]
fn intermediate_checkpoints_marked_every_n_segments() {
    // 500-byte block, 100-byte segments → 5 segments (indices 0..4)
    // checkpoint_every_n = 2: segments at index 1 and 3 would be checkpoints
    // (segment_index + 1) % 2 == 0 → indices 1, 3
    // But index 4 is the last segment → always RedEob
    let block = Bytes::from(vec![0xAB; 500]);
    let config = ExportConfig {
        max_segment_size: 100,
        max_retransmissions: 5,
        retransmit_timeout: Duration::from_secs(30),
        checkpoint_every_n: 2,
        max_checkpoints: None,
        green: false,
    };
    let (_session, actions) = ExportSession::new(session_id(), block, 1, config);

    let mut segment_types = Vec::new();
    let mut checkpoint_serials = Vec::new();
    for action in &actions {
        if let ExportAction::SendSegment(wire) = action {
            let mut reader = &wire[..];
            let seg = segment::decode(&mut reader).unwrap();
            if let Segment::Data {
                segment_type,
                checkpoint,
                ..
            } = seg
            {
                segment_types.push(segment_type);
                if let Some(ckpt) = checkpoint {
                    checkpoint_serials.push(ckpt.serial);
                }
            }
        }
    }

    // 5 segments: seg0=RedData, seg1=RedCheckpoint, seg2=RedData, seg3=RedCheckpoint, seg4=RedEob
    assert_eq!(segment_types.len(), 5);
    assert_eq!(segment_types[0], SegmentType::RedData);
    assert_eq!(segment_types[1], SegmentType::RedCheckpoint);
    assert_eq!(segment_types[2], SegmentType::RedData);
    assert_eq!(segment_types[3], SegmentType::RedCheckpoint);
    assert_eq!(segment_types[4], SegmentType::RedEob);

    // 3 checkpoints total: 2 intermediate + 1 EOB, each with unique serial
    assert_eq!(checkpoint_serials.len(), 3);
    assert_eq!(checkpoint_serials[0], 1); // intermediate
    assert_eq!(checkpoint_serials[1], 2); // intermediate
    assert_eq!(checkpoint_serials[2], 3); // EOB
}

#[test]
fn intermediate_checkpoints_unique_serial_numbers() {
    // Verify each intermediate checkpoint gets a unique, strictly increasing serial
    let block = Bytes::from(vec![0xAB; 600]);
    let config = ExportConfig {
        max_segment_size: 100,
        max_retransmissions: 5,
        retransmit_timeout: Duration::from_secs(30),
        checkpoint_every_n: 1, // every segment is a checkpoint
        max_checkpoints: None,
        green: false,
    };
    let (session, actions) = ExportSession::new(session_id(), block, 1, config);

    let mut checkpoint_serials = Vec::new();
    for action in &actions {
        if let ExportAction::SendSegment(wire) = action {
            let mut reader = &wire[..];
            let seg = segment::decode(&mut reader).unwrap();
            if let Segment::Data {
                checkpoint: Some(ckpt),
                ..
            } = seg
            {
                checkpoint_serials.push(ckpt.serial);
            }
        }
    }

    // 6 segments, all with checkpoints (5 intermediate + 1 EOB)
    assert_eq!(checkpoint_serials.len(), 6);
    // Verify strictly increasing
    for i in 1..checkpoint_serials.len() {
        assert!(
            checkpoint_serials[i] > checkpoint_serials[i - 1],
            "Checkpoint serial {} ({}) should be > {} ({})",
            i,
            checkpoint_serials[i],
            i - 1,
            checkpoint_serials[i - 1]
        );
    }
    // next_checkpoint_serial should be one past the last used
    assert_eq!(session.next_checkpoint_serial(), 7);
}

#[test]
fn intermediate_checkpoint_final_segment_always_eob() {
    // Even when checkpoint_every_n would make the final segment an intermediate
    // checkpoint, it should still be RedEob
    let block = Bytes::from(vec![0xAB; 300]);
    let config = ExportConfig {
        max_segment_size: 100,
        max_retransmissions: 5,
        retransmit_timeout: Duration::from_secs(30),
        checkpoint_every_n: 3, // every 3rd segment → index 2 would be checkpoint
        max_checkpoints: None,
        green: false,
    };
    let (_session, actions) = ExportSession::new(session_id(), block, 1, config);

    let mut segment_types = Vec::new();
    for action in &actions {
        if let ExportAction::SendSegment(wire) = action {
            let mut reader = &wire[..];
            let seg = segment::decode(&mut reader).unwrap();
            if let Segment::Data { segment_type, .. } = seg {
                segment_types.push(segment_type);
            }
        }
    }

    // 3 segments: seg0=RedData, seg1=RedData, seg2=RedEob (final always EOB)
    assert_eq!(segment_types.len(), 3);
    assert_eq!(segment_types[0], SegmentType::RedData);
    assert_eq!(segment_types[1], SegmentType::RedData);
    assert_eq!(segment_types[2], SegmentType::RedEob); // NOT RedCheckpoint
}

#[test]
fn intermediate_checkpoint_discretionary_optimization_skips_retransmission() {
    // When a report for an intermediate checkpoint shows
    // all bytes in its scope are acknowledged, skip retransmission.
    //
    // Setup: 400-byte block, 100-byte segments, checkpoint_every_n = 2
    // Segments: seg0(0-100)=RedData, seg1(100-200)=RedCheckpoint(serial 1),
    //           seg2(200-300)=RedData, seg3(300-400)=RedEob(serial 2)
    //
    // Simulate: receiver got all bytes 0-200, sends RS for intermediate
    // checkpoint (serial 1) with full coverage [0, 200).
    // The export session should NOT retransmit anything for this scope.
    let block = Bytes::from(vec![0xAB; 400]);
    let config = ExportConfig {
        max_segment_size: 100,
        max_retransmissions: 5,
        retransmit_timeout: Duration::from_secs(30),
        checkpoint_every_n: 2,
        max_checkpoints: None,
        green: false,
    };
    let (mut session, _) = ExportSession::new(session_id(), block, 1, config);

    // Report for intermediate checkpoint serial 1, scope [0, 200), fully acked
    let claims = vec![ReceptionClaim {
        offset: 0,
        length: 200,
    }];
    let actions = session.on_report(1, 1, 200, 0, &claims);

    // Should only have the Report-Ack, no retransmission segments
    assert_eq!(count_send_segments(&actions), 1); // Just the RAS
    assert_eq!(count_start_timers(&actions), 0);
    // Session should remain in AwaitingReport (waiting for final EOB report)
    assert_eq!(session.state(), ExportState::AwaitingReport);
}

#[test]
fn intermediate_checkpoint_partial_ack_triggers_retransmission() {
    // When a report for an intermediate checkpoint has gaps, retransmit
    // the unclaimed bytes within that scope.
    let block = Bytes::from(vec![0xAB; 400]);
    let config = ExportConfig {
        max_segment_size: 100,
        max_retransmissions: 5,
        retransmit_timeout: Duration::from_secs(30),
        checkpoint_every_n: 2,
        max_checkpoints: None,
        green: false,
    };
    let (mut session, _) = ExportSession::new(session_id(), block, 1, config);

    // Report for intermediate checkpoint serial 1, scope [0, 200),
    // but only bytes 0-100 acknowledged (gap at 100-200)
    let claims = vec![ReceptionClaim {
        offset: 0,
        length: 100,
    }];
    let actions = session.on_report(1, 1, 200, 0, &claims);

    // Should have: 1 RAS + 1 retransmitted segment (bytes 100-200) with new checkpoint
    assert_eq!(count_send_segments(&actions), 2);
    assert_eq!(count_start_timers(&actions), 1);
    assert_eq!(session.state(), ExportState::AwaitingReport);

    // Verify the retransmitted segment covers the gap
    let mut data_segments = Vec::new();
    for action in &actions {
        if let ExportAction::SendSegment(wire) = action {
            let mut reader = &wire[..];
            let seg = segment::decode(&mut reader).unwrap();
            if let Segment::Data { offset, data, .. } = &seg {
                data_segments.push((*offset, data.len()));
            }
        }
    }
    assert_eq!(data_segments.len(), 1);
    assert_eq!(data_segments[0], (100, 100)); // gap at offset 100, length 100
}

#[test]
fn intermediate_checkpoint_full_block_ack_completes_session() {
    // When the final EOB report comes in with full block coverage,
    // the session should transition to Complete.
    let block = Bytes::from(vec![0xAB; 400]);
    let config = ExportConfig {
        max_segment_size: 100,
        max_retransmissions: 5,
        retransmit_timeout: Duration::from_secs(30),
        checkpoint_every_n: 2,
        max_checkpoints: None,
        green: false,
    };
    let (mut session, _) = ExportSession::new(session_id(), block, 1, config);

    // First: intermediate checkpoint report with full scope ack
    let claims1 = vec![ReceptionClaim {
        offset: 0,
        length: 200,
    }];
    let _ = session.on_report(1, 1, 200, 0, &claims1);
    assert_eq!(session.state(), ExportState::AwaitingReport);

    // Second: final EOB report with full block ack
    let claims2 = vec![ReceptionClaim {
        offset: 0,
        length: 400,
    }];
    let actions = session.on_report(2, 2, 400, 0, &claims2);
    assert_eq!(session.state(), ExportState::Complete);
    // Only the RAS, no retransmission
    assert_eq!(count_send_segments(&actions), 1);
    assert_eq!(count_start_timers(&actions), 0);
}

#[test]
fn intermediate_checkpoint_timers_started_for_each() {
    // Each intermediate checkpoint should have a timer started
    let block = Bytes::from(vec![0xAB; 500]);
    let config = ExportConfig {
        max_segment_size: 100,
        max_retransmissions: 5,
        retransmit_timeout: Duration::from_secs(30),
        checkpoint_every_n: 2,
        max_checkpoints: None,
        green: false,
    };
    let (_session, actions) = ExportSession::new(session_id(), block, 1, config);

    // 5 segments: seg0=RedData, seg1=RedCheckpoint, seg2=RedData,
    //             seg3=RedCheckpoint, seg4=RedEob
    // 3 checkpoints → 3 timers
    assert_eq!(count_start_timers(&actions), 3);

    // Verify timer checkpoint serials
    let mut timer_serials: Vec<u64> = Vec::new();
    for action in &actions {
        if let ExportAction::StartTimer {
            checkpoint_serial, ..
        } = action
        {
            timer_serials.push(*checkpoint_serial);
        }
    }
    assert_eq!(timer_serials, vec![1, 2, 3]);
}

#[test]
fn checkpoint_every_n_zero_means_only_eob_checkpoint() {
    // When checkpoint_every_n = 0, only the final segment gets a checkpoint
    let block = Bytes::from(vec![0xAB; 500]);
    let config = ExportConfig {
        max_segment_size: 100,
        max_retransmissions: 5,
        retransmit_timeout: Duration::from_secs(30),
        checkpoint_every_n: 0,
        max_checkpoints: None,
        green: false,
    };
    let (_session, actions) = ExportSession::new(session_id(), block, 1, config);

    let mut segment_types = Vec::new();
    for action in &actions {
        if let ExportAction::SendSegment(wire) = action {
            let mut reader = &wire[..];
            let seg = segment::decode(&mut reader).unwrap();
            if let Segment::Data { segment_type, .. } = seg {
                segment_types.push(segment_type);
            }
        }
    }

    // 5 segments: first 4 are RedData, last is RedEob
    assert_eq!(segment_types.len(), 5);
    for seg_type in segment_types.iter().take(4) {
        assert_eq!(*seg_type, SegmentType::RedData);
    }
    assert_eq!(segment_types[4], SegmentType::RedEob);
    // Only 1 timer (for the EOB checkpoint)
    assert_eq!(count_start_timers(&actions), 1);
}

// -----------------------------------------------------------------------
// suspend_timers / resume_timers tests
// -----------------------------------------------------------------------

#[test]
fn suspend_timers_returns_suspend_actions_for_active_timers() {
    let (mut session, _actions) = ExportSession::new(
        session_id(),
        Bytes::from(vec![0xAB; 200]),
        1,
        default_config(),
    );

    // Session should have 1 active timer (the EOB checkpoint)
    assert_eq!(session.active_timer_serials().len(), 1);
    assert!(!session.timers_suspended());

    let suspend_actions = session.suspend_timers();
    assert_eq!(suspend_actions.len(), 1);
    match &suspend_actions[0] {
        ExportAction::SuspendTimer {
            checkpoint_serial, ..
        } => {
            assert!(session.active_timer_serials().contains(checkpoint_serial));
        }
        _ => panic!("Expected SuspendTimer action"),
    }
    assert!(session.timers_suspended());
}

#[test]
fn suspend_timers_double_suspend_is_noop() {
    let (mut session, _) = ExportSession::new(
        session_id(),
        Bytes::from(vec![0xAB; 200]),
        1,
        default_config(),
    );

    let first = session.suspend_timers();
    assert_eq!(first.len(), 1);

    // Second suspend should be a no-op
    let second = session.suspend_timers();
    assert!(second.is_empty());
}

#[test]
fn suspend_timers_noop_when_complete() {
    let (mut session, _) = ExportSession::new(
        session_id(),
        Bytes::from(vec![0xAB; 200]),
        1,
        default_config(),
    );

    // Complete the session
    let claims = vec![ReceptionClaim {
        offset: 0,
        length: 200,
    }];
    let _ = session.on_report(1, 1, 200, 0, &claims);
    assert_eq!(session.state(), ExportState::Complete);

    let actions = session.suspend_timers();
    assert!(actions.is_empty());
}

#[test]
fn suspend_timers_noop_when_cancelled() {
    let (mut session, _) = ExportSession::new(
        session_id(),
        Bytes::from(vec![0xAB; 200]),
        1,
        default_config(),
    );

    session.on_cancel_from_receiver(CancelReason::ByUser);
    assert_eq!(session.state(), ExportState::Cancelled);

    let actions = session.suspend_timers();
    assert!(actions.is_empty());
}

#[test]
fn suspend_timers_multiple_active_timers() {
    // Use intermediate checkpoints to get multiple active timers
    let block = Bytes::from(vec![0xAB; 400]);
    let config = ExportConfig {
        max_segment_size: 100,
        max_retransmissions: 5,
        retransmit_timeout: Duration::from_secs(30),
        checkpoint_every_n: 2,
        max_checkpoints: None,
        green: false,
    };
    let (mut session, _) = ExportSession::new(session_id(), block, 1, config);

    // With checkpoint_every_n=2 and 4 segments, we get:
    // seg0: RedData, seg1: RedCheckpoint (serial 1), seg2: RedData, seg3: RedEob (serial 2)
    // So 2 active timers
    assert_eq!(session.active_timer_serials().len(), 2);

    let suspend_actions = session.suspend_timers();
    assert_eq!(suspend_actions.len(), 2);

    for action in &suspend_actions {
        match action {
            ExportAction::SuspendTimer { .. } => {}
            _ => panic!("Expected SuspendTimer action, got {:?}", action),
        }
    }
}

#[test]
fn resume_timers_returns_resume_actions() {
    let (mut session, _) = ExportSession::new(
        session_id(),
        Bytes::from(vec![0xAB; 200]),
        1,
        default_config(),
    );

    // Suspend first
    let suspend_actions = session.suspend_timers();
    assert_eq!(suspend_actions.len(), 1);

    let checkpoint_serial = match &suspend_actions[0] {
        ExportAction::SuspendTimer {
            checkpoint_serial, ..
        } => *checkpoint_serial,
        _ => panic!("Expected SuspendTimer"),
    };

    // Resume with remaining duration
    let remaining = Duration::from_secs(15);
    let resume_actions = session.resume_timers(&[(checkpoint_serial, remaining)]);
    assert_eq!(resume_actions.len(), 1);

    match &resume_actions[0] {
        ExportAction::ResumeTimer {
            checkpoint_serial: serial,
            remaining: dur,
        } => {
            assert_eq!(*serial, checkpoint_serial);
            assert_eq!(*dur, remaining);
        }
        _ => panic!("Expected ResumeTimer action"),
    }

    // Should no longer be suspended
    assert!(!session.timers_suspended());
}

#[test]
fn resume_timers_skips_unknown_serials() {
    let (mut session, _) = ExportSession::new(
        session_id(),
        Bytes::from(vec![0xAB; 200]),
        1,
        default_config(),
    );

    session.suspend_timers();

    // Try to resume with a serial that doesn't exist
    let resume_actions = session.resume_timers(&[(999, Duration::from_secs(10))]);
    assert!(resume_actions.is_empty());
    assert!(!session.timers_suspended());
}

#[test]
fn resume_timers_noop_when_not_suspended() {
    let (mut session, _) = ExportSession::new(
        session_id(),
        Bytes::from(vec![0xAB; 200]),
        1,
        default_config(),
    );

    // Don't suspend first — resume should be a no-op
    let resume_actions = session.resume_timers(&[(1, Duration::from_secs(10))]);
    assert!(resume_actions.is_empty());
}

#[test]
fn resume_timers_noop_when_cancelled() {
    let (mut session, _) = ExportSession::new(
        session_id(),
        Bytes::from(vec![0xAB; 200]),
        1,
        default_config(),
    );

    session.suspend_timers();
    session.on_cancel_from_receiver(CancelReason::ByUser);

    // Session cancelled between suspend and resume — should be no-op
    let resume_actions = session.resume_timers(&[(1, Duration::from_secs(10))]);
    assert!(resume_actions.is_empty());
}

#[test]
fn resume_timers_partial_match() {
    // Create session with multiple timers
    let block = Bytes::from(vec![0xAB; 400]);
    let config = ExportConfig {
        max_segment_size: 100,
        max_retransmissions: 5,
        retransmit_timeout: Duration::from_secs(30),
        checkpoint_every_n: 2,
        max_checkpoints: None,
        green: false,
    };
    let (mut session, _) = ExportSession::new(session_id(), block, 1, config);

    let serials: Vec<u64> = session.active_timer_serials().iter().copied().collect();
    assert_eq!(serials.len(), 2);

    session.suspend_timers();

    // Resume with one valid serial and one invalid
    let resume_input: Vec<(u64, Duration)> = vec![
        (serials[0], Duration::from_secs(10)),
        (999, Duration::from_secs(5)), // invalid serial
    ];
    let resume_actions = session.resume_timers(&resume_input);

    // Only the valid serial should produce a ResumeTimer action
    assert_eq!(resume_actions.len(), 1);
    match &resume_actions[0] {
        ExportAction::ResumeTimer {
            checkpoint_serial,
            remaining,
        } => {
            assert_eq!(*checkpoint_serial, serials[0]);
            assert_eq!(*remaining, Duration::from_secs(10));
        }
        _ => panic!("Expected ResumeTimer"),
    }
}

#[test]
fn suspend_timers_green_session_is_noop() {
    let block = Bytes::from(vec![0xAB; 200]);
    let config = green_config();
    let (mut session, _) = ExportSession::new(session_id(), block, 1, config);

    // Green sessions are immediately Complete, so suspend is a no-op
    assert_eq!(session.state(), ExportState::Complete);
    let actions = session.suspend_timers();
    assert!(actions.is_empty());
}

#[test]
fn active_timers_cleared_on_full_ack() {
    let (mut session, _) = ExportSession::new(
        session_id(),
        Bytes::from(vec![0xAB; 200]),
        1,
        default_config(),
    );

    assert!(!session.active_timer_serials().is_empty());

    // Fully acknowledge
    let claims = vec![ReceptionClaim {
        offset: 0,
        length: 200,
    }];
    let _ = session.on_report(1, 1, 200, 0, &claims);
    assert_eq!(session.state(), ExportState::Complete);
    assert!(session.active_timer_serials().is_empty());
}

#[test]
fn active_timers_cleared_on_cancel() {
    let (mut session, _) = ExportSession::new(
        session_id(),
        Bytes::from(vec![0xAB; 200]),
        1,
        default_config(),
    );

    assert!(!session.active_timer_serials().is_empty());
    session.on_cancel_from_receiver(CancelReason::ByUser);
    assert!(session.active_timer_serials().is_empty());
}

#[test]
fn timer_expired_removes_from_active_set() {
    let (mut session, _) = ExportSession::new(
        session_id(),
        Bytes::from(vec![0xAB; 200]),
        1,
        default_config(),
    );

    // The initial checkpoint serial is 1
    assert!(session.active_timer_serials().contains(&1));

    // Timer expires for serial 1
    let _ = session.on_timer_expired(1);

    // Serial 1 should no longer be active (but a new one was created)
    assert!(!session.active_timer_serials().contains(&1));
    // A new timer was started for the retransmission checkpoint
    assert!(!session.active_timer_serials().is_empty());
}
