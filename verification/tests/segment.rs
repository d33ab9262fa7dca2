//! The segment wire format.

use bytes::{Buf, BufMut, Bytes, BytesMut};
use hardy_ltp::sdnv::{self, SdnvError};
use hardy_ltp::segment::{
    decode, encode, encoded_size, CheckpointInfo, ReceptionClaim, Segment, SegmentError,
    SegmentType,
};
use hardy_ltp::session::{CancelDirection, CancelReason, SessionId};

#[test]
fn segment_type_from_u8_valid() {
    assert_eq!(SegmentType::try_from(0).unwrap(), SegmentType::RedData);
    assert_eq!(SegmentType::try_from(1).unwrap(), SegmentType::RedCheckpoint);
    assert_eq!(SegmentType::try_from(2).unwrap(), SegmentType::RedEorp);
    assert_eq!(SegmentType::try_from(3).unwrap(), SegmentType::RedEob);
    assert_eq!(SegmentType::try_from(4).unwrap(), SegmentType::GreenData);
    assert_eq!(SegmentType::try_from(7).unwrap(), SegmentType::GreenEob);
    assert_eq!(SegmentType::try_from(8).unwrap(), SegmentType::Report);
    assert_eq!(SegmentType::try_from(9).unwrap(), SegmentType::ReportAck);
    assert_eq!(
        SegmentType::try_from(12).unwrap(),
        SegmentType::CancelFromSender
    );
    assert_eq!(
        SegmentType::try_from(13).unwrap(),
        SegmentType::CancelAckToSender
    );
    assert_eq!(
        SegmentType::try_from(14).unwrap(),
        SegmentType::CancelFromReceiver
    );
    assert_eq!(
        SegmentType::try_from(15).unwrap(),
        SegmentType::CancelAckToReceiver
    );
}

#[test]
fn segment_type_from_u8_invalid() {
    assert_eq!(
        SegmentType::try_from(5),
        Err(SegmentError::UnknownType(5))
    );
    assert_eq!(
        SegmentType::try_from(6),
        Err(SegmentError::UnknownType(6))
    );
    assert_eq!(
        SegmentType::try_from(10),
        Err(SegmentError::UnknownType(10))
    );
    assert_eq!(
        SegmentType::try_from(11),
        Err(SegmentError::UnknownType(11))
    );
    assert_eq!(
        SegmentType::try_from(16),
        Err(SegmentError::UnknownType(16))
    );
    assert_eq!(
        SegmentType::try_from(255),
        Err(SegmentError::UnknownType(255))
    );
}

#[test]
fn segment_type_is_checkpoint() {
    assert!(!SegmentType::RedData.is_checkpoint());
    assert!(SegmentType::RedCheckpoint.is_checkpoint());
    assert!(SegmentType::RedEorp.is_checkpoint());
    assert!(SegmentType::RedEob.is_checkpoint());
    assert!(!SegmentType::GreenData.is_checkpoint());
    assert!(!SegmentType::GreenEob.is_checkpoint());
    assert!(!SegmentType::Report.is_checkpoint());
    assert!(!SegmentType::ReportAck.is_checkpoint());
}

#[test]
fn segment_type_is_data() {
    assert!(SegmentType::RedData.is_data());
    assert!(SegmentType::RedCheckpoint.is_data());
    assert!(SegmentType::RedEorp.is_data());
    assert!(SegmentType::RedEob.is_data());
    assert!(SegmentType::GreenData.is_data());
    assert!(SegmentType::GreenEob.is_data());
    assert!(!SegmentType::Report.is_data());
    assert!(!SegmentType::ReportAck.is_data());
    assert!(!SegmentType::CancelFromSender.is_data());
    assert!(!SegmentType::CancelAckToSender.is_data());
    assert!(!SegmentType::CancelFromReceiver.is_data());
    assert!(!SegmentType::CancelAckToReceiver.is_data());
}

#[test]
fn segment_type_is_red() {
    assert!(SegmentType::RedData.is_red());
    assert!(SegmentType::RedCheckpoint.is_red());
    assert!(SegmentType::RedEorp.is_red());
    assert!(SegmentType::RedEob.is_red());
    assert!(!SegmentType::GreenData.is_red());
    assert!(!SegmentType::GreenEob.is_red());
    assert!(!SegmentType::Report.is_red());
}

#[test]
fn segment_type_is_green() {
    assert!(!SegmentType::RedData.is_green());
    assert!(!SegmentType::RedCheckpoint.is_green());
    assert!(SegmentType::GreenData.is_green());
    assert!(SegmentType::GreenEob.is_green());
    assert!(!SegmentType::Report.is_green());
}

#[test]
fn segment_error_from_sdnv_error() {
    let sdnv_err = SdnvError::Overflow;
    let seg_err: SegmentError = sdnv_err.into();
    assert_eq!(seg_err, SegmentError::Sdnv(SdnvError::Overflow));
}

#[test]
fn segment_error_display() {
    assert_eq!(
        SegmentError::UnknownType(5).to_string(),
        "unknown segment type code: 5"
    );
    assert_eq!(
        SegmentError::Truncated.to_string(),
        "segment truncated: insufficient bytes for segment body"
    );
    assert_eq!(
        SegmentError::InvalidReason(99).to_string(),
        "invalid cancel reason code: 99"
    );
    assert_eq!(
        SegmentError::Sdnv(SdnvError::Overflow).to_string(),
        "SDNV decode error: SDNV exceeds 10 bytes (64-bit overflow)"
    );
}

#[test]
fn segment_data_construction() {
    let seg = Segment::Data {
        session_id: SessionId {
            engine_id: 1,
            session_number: 42,
        },
        segment_type: SegmentType::RedCheckpoint,
        client_service_id: 1,
        offset: 0,
        data: Bytes::from_static(b"hello"),
        checkpoint: Some(CheckpointInfo {
            serial: 1,
            responding_report_serial: 0,
        }),
    };
    match seg {
        Segment::Data {
            session_id,
            segment_type,
            checkpoint,
            ..
        } => {
            assert_eq!(session_id.engine_id, 1);
            assert_eq!(session_id.session_number, 42);
            assert!(segment_type.is_checkpoint());
            assert!(checkpoint.is_some());
        }
        _ => panic!("expected Data variant"),
    }
}

#[test]
fn segment_report_construction() {
    let seg = Segment::Report {
        session_id: SessionId {
            engine_id: 2,
            session_number: 100,
        },
        report_serial: 1,
        checkpoint_serial: 1,
        upper_bound: 1000,
        lower_bound: 0,
        claims: vec![
            ReceptionClaim {
                offset: 0,
                length: 500,
            },
            ReceptionClaim {
                offset: 600,
                length: 400,
            },
        ],
    };
    match seg {
        Segment::Report { claims, .. } => {
            assert_eq!(claims.len(), 2);
            assert_eq!(claims[0].offset, 0);
            assert_eq!(claims[0].length, 500);
            assert_eq!(claims[1].offset, 600);
            assert_eq!(claims[1].length, 400);
        }
        _ => panic!("expected Report variant"),
    }
}

#[test]
fn segment_cancel_construction() {
    let seg = Segment::Cancel {
        session_id: SessionId {
            engine_id: 3,
            session_number: 7,
        },
        reason: CancelReason::RetransmitLimitExceeded,
        direction: CancelDirection::FromSender,
    };
    match seg {
        Segment::Cancel {
            reason, direction, ..
        } => {
            assert_eq!(reason, CancelReason::RetransmitLimitExceeded);
            assert_eq!(direction, CancelDirection::FromSender);
        }
        _ => panic!("expected Cancel variant"),
    }
}

#[test]
fn segment_cancel_ack_construction() {
    let seg = Segment::CancelAck {
        session_id: SessionId {
            engine_id: 4,
            session_number: 99,
        },
        direction: CancelDirection::FromReceiver,
    };
    match seg {
        Segment::CancelAck { direction, .. } => {
            assert_eq!(direction, CancelDirection::FromReceiver);
        }
        _ => panic!("expected CancelAck variant"),
    }
}

// -----------------------------------------------------------------------
// Encode tests
// -----------------------------------------------------------------------


#[test]
fn encode_data_segment_no_checkpoint() {
    let seg = Segment::Data {
        session_id: SessionId {
            engine_id: 1,
            session_number: 42,
        },
        segment_type: SegmentType::RedData,
        client_service_id: 1,
        offset: 0,
        data: Bytes::from_static(b"hello"),
        checkpoint: None,
    };

    let mut buf = BytesMut::new();
    encode(&seg, &mut buf);

    // Header: type=0 (RedData), engine_id=1, session_number=42, ext=0x00
    assert_eq!(buf[0], 0x00); // version 0 | type 0
    assert_eq!(buf[1], 0x01); // engine_id SDNV = 1
    assert_eq!(buf[2], 0x2A); // session_number SDNV = 42
    assert_eq!(buf[3], 0x00); // extension counts = 0

    // Body: client_service_id=1, offset=0, length=5, data="hello"
    assert_eq!(buf[4], 0x01); // client_service_id = 1
    assert_eq!(buf[5], 0x00); // offset = 0
    assert_eq!(buf[6], 0x05); // length = 5
    assert_eq!(&buf[7..12], b"hello");
    assert_eq!(buf.len(), 12);
}

#[test]
fn encode_data_segment_with_checkpoint() {
    let seg = Segment::Data {
        session_id: SessionId {
            engine_id: 1,
            session_number: 1,
        },
        segment_type: SegmentType::RedCheckpoint,
        client_service_id: 1,
        offset: 100,
        data: Bytes::from_static(b"AB"),
        checkpoint: Some(CheckpointInfo {
            serial: 5,
            responding_report_serial: 0,
        }),
    };

    let mut buf = BytesMut::new();
    encode(&seg, &mut buf);

    // Header: type=1 (RedCheckpoint)
    assert_eq!(buf[0], 0x01);
    assert_eq!(buf[1], 0x01); // engine_id = 1
    assert_eq!(buf[2], 0x01); // session_number = 1
    assert_eq!(buf[3], 0x00); // ext counts

    // Body: client_service_id=1, offset=100, length=2, ckpt_serial=5, resp_rpt=0, data
    assert_eq!(buf[4], 0x01); // client_service_id = 1
    assert_eq!(buf[5], 0x64); // offset = 100
    assert_eq!(buf[6], 0x02); // length = 2
    assert_eq!(buf[7], 0x05); // checkpoint serial = 5
    assert_eq!(buf[8], 0x00); // responding report serial = 0
    assert_eq!(&buf[9..11], b"AB");
    assert_eq!(buf.len(), 11);
}

#[test]
fn encode_report_segment_relative_offsets() {
    let seg = Segment::Report {
        session_id: SessionId {
            engine_id: 2,
            session_number: 10,
        },
        report_serial: 1,
        checkpoint_serial: 1,
        upper_bound: 1000,
        lower_bound: 500,
        claims: vec![
            ReceptionClaim {
                offset: 500,
                length: 200,
            },
            ReceptionClaim {
                offset: 800,
                length: 100,
            },
        ],
    };

    let mut buf = BytesMut::new();
    encode(&seg, &mut buf);

    // Header: type=8 (Report)
    assert_eq!(buf[0], 0x08);
    assert_eq!(buf[1], 0x02); // engine_id = 2
    assert_eq!(buf[2], 0x0A); // session_number = 10
    assert_eq!(buf[3], 0x00); // ext counts

    // Body: report_serial=1, ckpt_serial=1, upper=1000, lower=500, count=2
    let mut cursor = &buf[4..];
    let report_serial = sdnv::decode(&mut cursor).unwrap();
    assert_eq!(report_serial, 1);
    let ckpt_serial = sdnv::decode(&mut cursor).unwrap();
    assert_eq!(ckpt_serial, 1);
    let upper = sdnv::decode(&mut cursor).unwrap();
    assert_eq!(upper, 1000);
    let lower = sdnv::decode(&mut cursor).unwrap();
    assert_eq!(lower, 500);
    let count = sdnv::decode(&mut cursor).unwrap();
    assert_eq!(count, 2);

    // Claims: relative offsets (500-500=0, 800-500=300)
    let claim0_offset = sdnv::decode(&mut cursor).unwrap();
    assert_eq!(claim0_offset, 0); // 500 - 500 = 0
    let claim0_length = sdnv::decode(&mut cursor).unwrap();
    assert_eq!(claim0_length, 200);
    let claim1_offset = sdnv::decode(&mut cursor).unwrap();
    assert_eq!(claim1_offset, 300); // 800 - 500 = 300
    let claim1_length = sdnv::decode(&mut cursor).unwrap();
    assert_eq!(claim1_length, 100);
}

#[test]
fn encode_report_ack_segment() {
    let seg = Segment::ReportAck {
        session_id: SessionId {
            engine_id: 5,
            session_number: 77,
        },
        report_serial: 3,
    };

    let mut buf = BytesMut::new();
    encode(&seg, &mut buf);

    assert_eq!(buf[0], 0x09); // type = ReportAck
    assert_eq!(buf[1], 0x05); // engine_id = 5
    assert_eq!(buf[2], 0x4D); // session_number = 77
    assert_eq!(buf[3], 0x00); // ext counts
    assert_eq!(buf[4], 0x03); // report_serial = 3
    assert_eq!(buf.len(), 5);
}

#[test]
fn encode_cancel_segment() {
    let seg = Segment::Cancel {
        session_id: SessionId {
            engine_id: 3,
            session_number: 7,
        },
        reason: CancelReason::RetransmitLimitExceeded,
        direction: CancelDirection::FromSender,
    };

    let mut buf = BytesMut::new();
    encode(&seg, &mut buf);

    assert_eq!(buf[0], 0x0C); // type = CancelFromSender (12)
    assert_eq!(buf[1], 0x03); // engine_id = 3
    assert_eq!(buf[2], 0x07); // session_number = 7
    assert_eq!(buf[3], 0x00); // ext counts
    assert_eq!(buf[4], 0x02); // reason = RetransmitLimitExceeded (2)
    assert_eq!(buf.len(), 5);
}

#[test]
fn encode_cancel_from_receiver() {
    let seg = Segment::Cancel {
        session_id: SessionId {
            engine_id: 10,
            session_number: 1,
        },
        reason: CancelReason::MiscoloredSegment,
        direction: CancelDirection::FromReceiver,
    };

    let mut buf = BytesMut::new();
    encode(&seg, &mut buf);

    assert_eq!(buf[0], 0x0E); // type = CancelFromReceiver (14)
    assert_eq!(buf[4], 0x03); // reason = MiscoloredSegment (3)
}

#[test]
fn encode_cancel_ack_to_sender() {
    let seg = Segment::CancelAck {
        session_id: SessionId {
            engine_id: 4,
            session_number: 99,
        },
        direction: CancelDirection::FromSender,
    };

    let mut buf = BytesMut::new();
    encode(&seg, &mut buf);

    assert_eq!(buf[0], 0x0D); // type = CancelAckToSender (13)
    assert_eq!(buf[1], 0x04); // engine_id = 4
    assert_eq!(buf[2], 0x63); // session_number = 99
    assert_eq!(buf[3], 0x00); // ext counts
    assert_eq!(buf.len(), 4); // no body
}

#[test]
fn encode_cancel_ack_to_receiver() {
    let seg = Segment::CancelAck {
        session_id: SessionId {
            engine_id: 1,
            session_number: 1,
        },
        direction: CancelDirection::FromReceiver,
    };

    let mut buf = BytesMut::new();
    encode(&seg, &mut buf);

    assert_eq!(buf[0], 0x0F); // type = CancelAckToReceiver (15)
    assert_eq!(buf.len(), 4); // header only, no body
}

#[test]
fn encoded_size_matches_actual_encode() {
    let segments = vec![
        Segment::Data {
            session_id: SessionId {
                engine_id: 1,
                session_number: 42,
            },
            segment_type: SegmentType::RedData,
            client_service_id: 1,
            offset: 0,
            data: Bytes::from_static(b"hello"),
            checkpoint: None,
        },
        Segment::Data {
            session_id: SessionId {
                engine_id: 1000,
                session_number: 65535,
            },
            segment_type: SegmentType::RedEob,
            client_service_id: 1,
            offset: 4096,
            data: Bytes::from(vec![0u8; 100]),
            checkpoint: Some(CheckpointInfo {
                serial: 999,
                responding_report_serial: 42,
            }),
        },
        Segment::Report {
            session_id: SessionId {
                engine_id: 2,
                session_number: 10,
            },
            report_serial: 1,
            checkpoint_serial: 1,
            upper_bound: 10000,
            lower_bound: 5000,
            claims: vec![
                ReceptionClaim {
                    offset: 5000,
                    length: 2000,
                },
                ReceptionClaim {
                    offset: 8000,
                    length: 1000,
                },
            ],
        },
        Segment::ReportAck {
            session_id: SessionId {
                engine_id: 5,
                session_number: 77,
            },
            report_serial: 3,
        },
        Segment::Cancel {
            session_id: SessionId {
                engine_id: 3,
                session_number: 7,
            },
            reason: CancelReason::ByUser,
            direction: CancelDirection::FromSender,
        },
        Segment::CancelAck {
            session_id: SessionId {
                engine_id: 4,
                session_number: 99,
            },
            direction: CancelDirection::FromReceiver,
        },
    ];

    for seg in &segments {
        let predicted = encoded_size(seg);
        let mut buf = BytesMut::new();
        encode(seg, &mut buf);
        assert_eq!(
            predicted,
            buf.len(),
            "encoded_size mismatch for segment: {:?}",
            seg
        );
    }
}

#[test]
fn encode_green_data_segment() {
    let seg = Segment::Data {
        session_id: SessionId {
            engine_id: 1,
            session_number: 5,
        },
        segment_type: SegmentType::GreenData,
        client_service_id: 1,
        offset: 0,
        data: Bytes::from_static(b"green"),
        checkpoint: None,
    };

    let mut buf = BytesMut::new();
    encode(&seg, &mut buf);

    assert_eq!(buf[0], 0x04); // type = GreenData (4)
}

#[test]
fn encode_green_eob_segment() {
    let seg = Segment::Data {
        session_id: SessionId {
            engine_id: 1,
            session_number: 5,
        },
        segment_type: SegmentType::GreenEob,
        client_service_id: 1,
        offset: 100,
        data: Bytes::from_static(b"end"),
        checkpoint: None,
    };

    let mut buf = BytesMut::new();
    encode(&seg, &mut buf);

    assert_eq!(buf[0], 0x07); // type = GreenEob (7)
}

// -----------------------------------------------------------------------
// Decode + round-trip tests
// -----------------------------------------------------------------------

#[test]
fn round_trip_data_with_checkpoint() {
    let given = Segment::Data {
        session_id: SessionId {
            engine_id: 42,
            session_number: 1000,
        },
        segment_type: SegmentType::RedCheckpoint,
        client_service_id: 1,
        offset: 512,
        data: Bytes::from(vec![0xAB; 64]),
        checkpoint: Some(CheckpointInfo {
            serial: 7,
            responding_report_serial: 3,
        }),
    };

    let mut buf = BytesMut::new();
    encode(&given, &mut buf);
    let mut reader = &buf[..];
    let decoded = decode(&mut reader).unwrap();
    assert_eq!(given, decoded);
    assert_eq!(reader.remaining(), 0);
}

#[test]
fn round_trip_data_without_checkpoint() {
    let given = Segment::Data {
        session_id: SessionId {
            engine_id: 1,
            session_number: 42,
        },
        segment_type: SegmentType::RedData,
        client_service_id: 1,
        offset: 0,
        data: Bytes::from_static(b"hello world"),
        checkpoint: None,
    };

    let mut buf = BytesMut::new();
    encode(&given, &mut buf);
    let mut reader = &buf[..];
    let decoded = decode(&mut reader).unwrap();
    assert_eq!(given, decoded);
    assert_eq!(reader.remaining(), 0);
}

#[test]
fn round_trip_data_eorp() {
    let given = Segment::Data {
        session_id: SessionId {
            engine_id: 100,
            session_number: 999,
        },
        segment_type: SegmentType::RedEorp,
        client_service_id: 1,
        offset: 1024,
        data: Bytes::from(vec![0xFF; 128]),
        checkpoint: Some(CheckpointInfo {
            serial: 1,
            responding_report_serial: 0,
        }),
    };

    let mut buf = BytesMut::new();
    encode(&given, &mut buf);
    let mut reader = &buf[..];
    let decoded = decode(&mut reader).unwrap();
    assert_eq!(given, decoded);
}

#[test]
fn round_trip_data_eob() {
    let given = Segment::Data {
        session_id: SessionId {
            engine_id: 5,
            session_number: 3,
        },
        segment_type: SegmentType::RedEob,
        client_service_id: 2,
        offset: 0,
        data: Bytes::from_static(b"block"),
        checkpoint: Some(CheckpointInfo {
            serial: 10,
            responding_report_serial: 5,
        }),
    };

    let mut buf = BytesMut::new();
    encode(&given, &mut buf);
    let mut reader = &buf[..];
    let decoded = decode(&mut reader).unwrap();
    assert_eq!(given, decoded);
}

#[test]
fn round_trip_green_data() {
    let given = Segment::Data {
        session_id: SessionId {
            engine_id: 1,
            session_number: 5,
        },
        segment_type: SegmentType::GreenData,
        client_service_id: 1,
        offset: 0,
        data: Bytes::from_static(b"green data"),
        checkpoint: None,
    };

    let mut buf = BytesMut::new();
    encode(&given, &mut buf);
    let mut reader = &buf[..];
    let decoded = decode(&mut reader).unwrap();
    assert_eq!(given, decoded);
}

#[test]
fn round_trip_green_eob() {
    let given = Segment::Data {
        session_id: SessionId {
            engine_id: 1,
            session_number: 5,
        },
        segment_type: SegmentType::GreenEob,
        client_service_id: 1,
        offset: 100,
        data: Bytes::from_static(b"end"),
        checkpoint: None,
    };

    let mut buf = BytesMut::new();
    encode(&given, &mut buf);
    let mut reader = &buf[..];
    let decoded = decode(&mut reader).unwrap();
    assert_eq!(given, decoded);
}

#[test]
fn round_trip_report() {
    let given = Segment::Report {
        session_id: SessionId {
            engine_id: 2,
            session_number: 10,
        },
        report_serial: 1,
        checkpoint_serial: 1,
        upper_bound: 1000,
        lower_bound: 500,
        claims: vec![
            ReceptionClaim {
                offset: 500,
                length: 200,
            },
            ReceptionClaim {
                offset: 800,
                length: 100,
            },
        ],
    };

    let mut buf = BytesMut::new();
    encode(&given, &mut buf);
    let mut reader = &buf[..];
    let decoded = decode(&mut reader).unwrap();
    assert_eq!(given, decoded);
    assert_eq!(reader.remaining(), 0);
}

#[test]
fn round_trip_report_with_zero_lower_bound() {
    let given = Segment::Report {
        session_id: SessionId {
            engine_id: 1,
            session_number: 1,
        },
        report_serial: 5,
        checkpoint_serial: 3,
        upper_bound: 2048,
        lower_bound: 0,
        claims: vec![
            ReceptionClaim {
                offset: 0,
                length: 512,
            },
            ReceptionClaim {
                offset: 1024,
                length: 512,
            },
        ],
    };

    let mut buf = BytesMut::new();
    encode(&given, &mut buf);
    let mut reader = &buf[..];
    let decoded = decode(&mut reader).unwrap();
    assert_eq!(given, decoded);
}

#[test]
fn round_trip_report_ack() {
    let given = Segment::ReportAck {
        session_id: SessionId {
            engine_id: 5,
            session_number: 77,
        },
        report_serial: 3,
    };

    let mut buf = BytesMut::new();
    encode(&given, &mut buf);
    let mut reader = &buf[..];
    let decoded = decode(&mut reader).unwrap();
    assert_eq!(given, decoded);
    assert_eq!(reader.remaining(), 0);
}

#[test]
fn round_trip_cancel_from_sender() {
    let given = Segment::Cancel {
        session_id: SessionId {
            engine_id: 3,
            session_number: 7,
        },
        reason: CancelReason::RetransmitLimitExceeded,
        direction: CancelDirection::FromSender,
    };

    let mut buf = BytesMut::new();
    encode(&given, &mut buf);
    let mut reader = &buf[..];
    let decoded = decode(&mut reader).unwrap();
    assert_eq!(given, decoded);
    assert_eq!(reader.remaining(), 0);
}

#[test]
fn round_trip_cancel_from_receiver() {
    let given = Segment::Cancel {
        session_id: SessionId {
            engine_id: 10,
            session_number: 200,
        },
        reason: CancelReason::ClientSvcUnreachable,
        direction: CancelDirection::FromReceiver,
    };

    let mut buf = BytesMut::new();
    encode(&given, &mut buf);
    let mut reader = &buf[..];
    let decoded = decode(&mut reader).unwrap();
    assert_eq!(given, decoded);
}

#[test]
fn round_trip_cancel_all_reasons() {
    let reasons = [
        CancelReason::ByUser,
        CancelReason::ClientSvcUnreachable,
        CancelReason::RetransmitLimitExceeded,
        CancelReason::MiscoloredSegment,
        CancelReason::ByEngine,
    ];

    for reason in reasons {
        let given = Segment::Cancel {
            session_id: SessionId {
                engine_id: 1,
                session_number: 1,
            },
            reason,
            direction: CancelDirection::FromSender,
        };

        let mut buf = BytesMut::new();
        encode(&given, &mut buf);
        let mut reader = &buf[..];
        let decoded = decode(&mut reader).unwrap();
        assert_eq!(given, decoded);
    }
}

#[test]
fn round_trip_cancel_ack_to_sender() {
    let given = Segment::CancelAck {
        session_id: SessionId {
            engine_id: 4,
            session_number: 99,
        },
        direction: CancelDirection::FromSender,
    };

    let mut buf = BytesMut::new();
    encode(&given, &mut buf);
    let mut reader = &buf[..];
    let decoded = decode(&mut reader).unwrap();
    assert_eq!(given, decoded);
    assert_eq!(reader.remaining(), 0);
}

#[test]
fn round_trip_cancel_ack_to_receiver() {
    let given = Segment::CancelAck {
        session_id: SessionId {
            engine_id: 1,
            session_number: 1,
        },
        direction: CancelDirection::FromReceiver,
    };

    let mut buf = BytesMut::new();
    encode(&given, &mut buf);
    let mut reader = &buf[..];
    let decoded = decode(&mut reader).unwrap();
    assert_eq!(given, decoded);
}

// -----------------------------------------------------------------------
// Decode error condition tests
// -----------------------------------------------------------------------

#[test]
fn decode_empty_buffer() {
    let mut buf = &[][..];
    assert_eq!(decode(&mut buf).unwrap_err(), SegmentError::Truncated);
}

#[test]
fn decode_unknown_type_code() {
    // Type code 5 is not a valid segment type
    let data = [0x05, 0x01, 0x01, 0x00];
    let mut buf = &data[..];
    assert_eq!(
        decode(&mut buf).unwrap_err(),
        SegmentError::UnknownType(5)
    );
}

#[test]
fn decode_invalid_version() {
    // Version nibble = 1 (non-zero), type = 0
    let data = [0x10, 0x01, 0x01, 0x00];
    let mut buf = &data[..];
    // Non-zero version results in the full byte being treated as unknown
    assert!(decode(&mut buf).is_err());
}

#[test]
fn decode_truncated_data_segment() {
    // Valid header for RedData but body is truncated (claims data_length=10 but no data)
    let mut wire = BytesMut::new();
    wire.put_u8(0x00); // version 0 | type 0 (RedData)
    sdnv::encode(1, &mut wire); // engine_id
    sdnv::encode(1, &mut wire); // session_number
    wire.put_u8(0x00); // ext counts
    sdnv::encode(1, &mut wire); // client_service_id
    sdnv::encode(0, &mut wire); // offset
    sdnv::encode(10, &mut wire); // data_length = 10 (but no data follows)

    let mut reader = &wire[..];
    assert_eq!(decode(&mut reader).unwrap_err(), SegmentError::Truncated);
}

#[test]
fn decode_invalid_cancel_reason() {
    let mut wire = BytesMut::new();
    wire.put_u8(0x0C); // CancelFromSender
    sdnv::encode(1, &mut wire); // engine_id
    sdnv::encode(1, &mut wire); // session_number
    wire.put_u8(0x00); // ext counts
    wire.put_u8(99); // invalid reason code

    let mut reader = &wire[..];
    assert_eq!(
        decode(&mut reader).unwrap_err(),
        SegmentError::InvalidReason(99)
    );
}

#[test]
fn decode_truncated_cancel_body() {
    let mut wire = BytesMut::new();
    wire.put_u8(0x0C); // CancelFromSender
    sdnv::encode(1, &mut wire); // engine_id
    sdnv::encode(1, &mut wire); // session_number
    wire.put_u8(0x00); // ext counts
    // No reason byte follows

    let mut reader = &wire[..];
    assert_eq!(decode(&mut reader).unwrap_err(), SegmentError::Truncated);
}

#[test]
fn decode_sdnv_error_propagation() {
    // Header byte is valid (type 0), but engine_id SDNV is truncated
    let data = [0x00, 0x81]; // continuation bit set but no more bytes
    let mut buf = &data[..];
    match decode(&mut buf).unwrap_err() {
        SegmentError::Sdnv(SdnvError::Incomplete) => {}
        other => panic!("expected Sdnv(Incomplete), got {:?}", other),
    }
}

#[test]
fn decode_with_header_extensions_skipped() {
    // Build a segment with 1 header extension that should be skipped
    let mut wire = BytesMut::new();
    wire.put_u8(0x09); // ReportAck
    sdnv::encode(1, &mut wire); // engine_id
    sdnv::encode(1, &mut wire); // session_number
    wire.put_u8(0x10); // 1 header extension, 0 trailer extensions

    // Header extension: tag=42, length=3, value=[0xAA, 0xBB, 0xCC]
    sdnv::encode(42, &mut wire); // tag
    sdnv::encode(3, &mut wire); // length
    wire.put_slice(&[0xAA, 0xBB, 0xCC]); // value

    // Body: report_serial = 7
    sdnv::encode(7, &mut wire);

    let mut reader = &wire[..];
    let decoded = decode(&mut reader).unwrap();
    assert_eq!(
        decoded,
        Segment::ReportAck {
            session_id: SessionId {
                engine_id: 1,
                session_number: 1,
            },
            report_serial: 7,
        }
    );
}

#[test]
fn decode_with_trailer_extensions_skipped() {
    // Build a CancelAck with 1 trailer extension
    let mut wire = BytesMut::new();
    wire.put_u8(0x0D); // CancelAckToSender
    sdnv::encode(1, &mut wire); // engine_id
    sdnv::encode(1, &mut wire); // session_number
    wire.put_u8(0x01); // 0 header extensions, 1 trailer extension

    // CancelAck has empty body, so trailer extension comes next
    // Trailer extension: tag=99, length=2, value=[0x01, 0x02]
    sdnv::encode(99, &mut wire); // tag
    sdnv::encode(2, &mut wire); // length
    wire.put_slice(&[0x01, 0x02]); // value

    let mut reader = &wire[..];
    let decoded = decode(&mut reader).unwrap();
    assert_eq!(
        decoded,
        Segment::CancelAck {
            session_id: SessionId {
                engine_id: 1,
                session_number: 1,
            },
            direction: CancelDirection::FromSender,
        }
    );
    assert_eq!(reader.remaining(), 0);
}

#[test]
fn decode_report_reconstructs_absolute_offsets() {
    // Manually build a report segment with relative offsets on the wire
    let mut wire = BytesMut::new();
    wire.put_u8(0x08); // Report
    sdnv::encode(1, &mut wire); // engine_id
    sdnv::encode(1, &mut wire); // session_number
    wire.put_u8(0x00); // ext counts

    sdnv::encode(1, &mut wire); // report_serial
    sdnv::encode(1, &mut wire); // checkpoint_serial
    sdnv::encode(2000, &mut wire); // upper_bound
    sdnv::encode(1000, &mut wire); // lower_bound
    sdnv::encode(2, &mut wire); // claim_count

    // Claim 1: relative offset 0, length 500 → absolute offset 1000
    sdnv::encode(0, &mut wire);
    sdnv::encode(500, &mut wire);
    // Claim 2: relative offset 600, length 400 → absolute offset 1600
    sdnv::encode(600, &mut wire);
    sdnv::encode(400, &mut wire);

    let mut reader = &wire[..];
    let decoded = decode(&mut reader).unwrap();

    match decoded {
        Segment::Report {
            lower_bound,
            claims,
            ..
        } => {
            assert_eq!(lower_bound, 1000);
            assert_eq!(claims.len(), 2);
            // Absolute offsets reconstructed
            assert_eq!(claims[0].offset, 1000); // 1000 + 0
            assert_eq!(claims[0].length, 500);
            assert_eq!(claims[1].offset, 1600); // 1000 + 600
            assert_eq!(claims[1].length, 400);
        }
        _ => panic!("expected Report variant"),
    }
}

#[test]
fn round_trip_large_values() {
    // Test with large SDNV values to exercise multi-byte encoding
    let given = Segment::Data {
        session_id: SessionId {
            engine_id: u64::MAX / 2,
            session_number: 0xFFFF_FFFF,
        },
        segment_type: SegmentType::RedEorp,
        client_service_id: 65535,
        offset: 1_000_000,
        data: Bytes::from(vec![0x42; 256]),
        checkpoint: Some(CheckpointInfo {
            serial: 999_999,
            responding_report_serial: 888_888,
        }),
    };

    let mut buf = BytesMut::new();
    encode(&given, &mut buf);
    let mut reader = &buf[..];
    let decoded = decode(&mut reader).unwrap();
    assert_eq!(given, decoded);
}

#[test]
fn round_trip_empty_data() {
    let given = Segment::Data {
        session_id: SessionId {
            engine_id: 1,
            session_number: 1,
        },
        segment_type: SegmentType::RedData,
        client_service_id: 1,
        offset: 0,
        data: Bytes::new(),
        checkpoint: None,
    };

    let mut buf = BytesMut::new();
    encode(&given, &mut buf);
    let mut reader = &buf[..];
    let decoded = decode(&mut reader).unwrap();
    assert_eq!(given, decoded);
}

#[test]
fn round_trip_report_no_claims() {
    let given = Segment::Report {
        session_id: SessionId {
            engine_id: 1,
            session_number: 1,
        },
        report_serial: 1,
        checkpoint_serial: 1,
        upper_bound: 1000,
        lower_bound: 0,
        claims: vec![],
    };

    let mut buf = BytesMut::new();
    encode(&given, &mut buf);
    let mut reader = &buf[..];
    let decoded = decode(&mut reader).unwrap();
    assert_eq!(given, decoded);
}
