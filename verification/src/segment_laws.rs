//! What segments are on the wire, byte by byte, and what reading bytes gives.

use crate::buffer;
use crate::sdnv::{self, SdnvError};
use crate::segment::{
    self, CheckpointInfo, ReceptionClaim, Segment, SegmentError, SegmentType, SegmentView,
};
use crate::session::{CancelDirection, CancelReason, SessionId};
use crate::text;
use vstd::prelude::*;

verus! {

// ---------------------------------------------------------------------------
// Codes
// ---------------------------------------------------------------------------
/// The codes of the segment types, and the types of each kind.
pub proof fn segment_types_have_their_codes(t: SegmentType)
    ensures
        t.wire_code() == match t {
            SegmentType::RedData => 0u8,
            SegmentType::RedCheckpoint => 1u8,
            SegmentType::RedEorp => 2u8,
            SegmentType::RedEob => 3u8,
            SegmentType::GreenData => 4u8,
            SegmentType::GreenEob => 7u8,
            SegmentType::Report => 8u8,
            SegmentType::ReportAck => 9u8,
            SegmentType::CancelFromSender => 12u8,
            SegmentType::CancelAckToSender => 13u8,
            SegmentType::CancelFromReceiver => 14u8,
            SegmentType::CancelAckToReceiver => 15u8,
        },
        SegmentType::of_wire_code(t.wire_code()) == Some(t),
        t.checkpoint() <==> t == SegmentType::RedCheckpoint || t == SegmentType::RedEorp || t
            == SegmentType::RedEob,
        t.red() <==> t == SegmentType::RedData || t == SegmentType::RedCheckpoint || t
            == SegmentType::RedEorp || t == SegmentType::RedEob,
        t.green() <==> t == SegmentType::GreenData || t == SegmentType::GreenEob,
        t.carries_data() <==> t == SegmentType::RedData || t == SegmentType::RedCheckpoint || t
            == SegmentType::RedEorp || t == SegmentType::RedEob || t == SegmentType::GreenData || t
            == SegmentType::GreenEob,
{
}

/// The codes that stand for a segment type are these twelve.
pub proof fn other_codes_are_unknown(code: u8)
    ensures
        SegmentType::of_wire_code(code) is Some <==> code <= 4 || 7 <= code <= 9 || 12 <= code
            <= 15,
{
}

/// The codes of the reasons for a cancellation are 0 to 4.
pub proof fn cancel_reasons_have_their_codes(reason: CancelReason, code: u8)
    ensures
        reason.wire_code() == match reason {
            CancelReason::ByUser => 0u8,
            CancelReason::ClientSvcUnreachable => 1u8,
            CancelReason::RetransmitLimitExceeded => 2u8,
            CancelReason::MiscoloredSegment => 3u8,
            CancelReason::ByEngine => 4u8,
        },
        CancelReason::of_wire_code(reason.wire_code()) == Some(reason),
        CancelReason::of_wire_code(code) is Some <==> code <= 4,
{
}

// ---------------------------------------------------------------------------
// Writing
// ---------------------------------------------------------------------------
/// A number on the wire.
pub open spec fn number(v: u64) -> Seq<u8> {
    sdnv::sdnv(v as nat)
}

/// The header of a segment on the wire, without extensions: the type code, the
/// two numbers of the session, and a zero byte.
pub open spec fn plain_header(code: u8, id: SessionId) -> Seq<u8> {
    seq![code] + number(id.engine_id) + number(id.session_number) + seq![0u8]
}

proof fn lemma_rows(vs: Seq<u64>)
    ensures
        vs.len() == 0 ==> segment::numbers(vs) == Seq::<u8>::empty(),
        vs.len() == 1 ==> segment::numbers(vs) == number(vs[0]),
        vs.len() == 2 ==> segment::numbers(vs) == number(vs[0]) + number(vs[1]),
        vs.len() == 3 ==> segment::numbers(vs) == number(vs[0]) + number(vs[1]) + number(vs[2]),
        vs.len() == 5 ==> segment::numbers(vs) == number(vs[0]) + number(vs[1]) + number(vs[2])
            + number(vs[3]) + number(vs[4]),
{
    let a = vs.drop_last();
    let b = a.drop_last();
    let c = b.drop_last();
    let d = c.drop_last();
    reveal_with_fuel(segment::numbers, 6);
    if vs.len() == 5 {
        assert(segment::numbers(d) == Seq::<u8>::empty() + number(vs[0]));
        assert(segment::numbers(vs) == number(vs[0]) + number(vs[1]) + number(vs[2]) + number(
            vs[3],
        ) + number(vs[4]));
    } else if vs.len() == 3 {
        assert(segment::numbers(b) == Seq::<u8>::empty() + number(vs[0]));
        assert(segment::numbers(vs) == number(vs[0]) + number(vs[1]) + number(vs[2]));
    } else if vs.len() == 2 {
        assert(segment::numbers(a) == Seq::<u8>::empty() + number(vs[0]));
        assert(segment::numbers(vs) == number(vs[0]) + number(vs[1]));
    } else if vs.len() == 1 {
        assert(segment::numbers(vs) == Seq::<u8>::empty() + number(vs[0]));
    }
}

/// A checkpoint on the wire, of each of the three types: the header; the numbers
/// of the client service, the offset, the length, the checkpoint serial and the
/// report serial, in this order; and the data.
pub proof fn checkpoint_on_the_wire(
    session_id: SessionId,
    segment_type: SegmentType,
    client_service_id: u64,
    offset: u64,
    data: Seq<u8>,
    info: CheckpointInfo,
)
    requires
        segment_type == SegmentType::RedCheckpoint || segment_type == SegmentType::RedEorp
            || segment_type == SegmentType::RedEob,
        data.len() <= u64::MAX,
    ensures
        (SegmentView::Data {
            session_id,
            segment_type,
            client_service_id,
            offset,
            data,
            checkpoint: Some(info),
        }).wire() == plain_header(
            match segment_type {
                SegmentType::RedCheckpoint => 1,
                SegmentType::RedEorp => 2,
                _ => 3,
            },
            session_id,
        ) + number(client_service_id) + number(offset) + number(data.len() as u64) + number(
            info.serial,
        ) + number(info.responding_report_serial) + data,
{
    let s = SegmentView::Data {
        session_id,
        segment_type,
        client_service_id,
        offset,
        data,
        checkpoint: Some(info),
    };
    lemma_rows(seq![session_id.engine_id, session_id.session_number]);
    lemma_rows(s.fields());
    let h = plain_header(s.header_type().wire_code(), session_id);
    assert(s.header() == h);
    assert(s.wire() == h + number(client_service_id) + number(offset) + number(data.len() as u64)
        + number(info.serial) + number(info.responding_report_serial) + data);
}

/// Other data on the wire: the header; the numbers of the client service, the
/// offset and the length, in this order; and the data.
pub proof fn plain_data_on_the_wire(
    session_id: SessionId,
    segment_type: SegmentType,
    client_service_id: u64,
    offset: u64,
    data: Seq<u8>,
    checkpoint: Option<CheckpointInfo>,
)
    requires
        checkpoint is None || segment_type == SegmentType::RedData || segment_type
            == SegmentType::GreenData || segment_type == SegmentType::GreenEob,
        data.len() <= u64::MAX,
    ensures
        ({
            let w = (SegmentView::Data {
                session_id,
                segment_type,
                client_service_id,
                offset,
                data,
                checkpoint,
            }).wire();
            let body = number(client_service_id) + number(offset) + number(data.len() as u64)
                + data;
            &&& w == plain_header(segment_type.wire_code(), session_id) + body
            &&& segment_type == SegmentType::RedData ==> w == plain_header(0, session_id) + body
            &&& segment_type == SegmentType::GreenData ==> w == plain_header(4, session_id) + body
            &&& segment_type == SegmentType::GreenEob ==> w == plain_header(7, session_id) + body
        }),
{
    let s = SegmentView::Data {
        session_id,
        segment_type,
        client_service_id,
        offset,
        data,
        checkpoint,
    };
    lemma_rows(seq![session_id.engine_id, session_id.session_number]);
    lemma_rows(s.fields());
    let h = plain_header(segment_type.wire_code(), session_id);
    assert(s.header() == h);
    assert(s.wire() == h + (number(client_service_id) + number(offset) + number(
        data.len() as u64,
    ) + data));
}

/// A claim of a report on the wire: its offset, counted from the lower bound of
/// the report, and its length.
pub open spec fn claim_on_the_wire(claim: ReceptionClaim, lower_bound: u64) -> Seq<u8> {
    number(
        if claim.offset >= lower_bound {
            (claim.offset - lower_bound) as u64
        } else {
            0
        },
    ) + number(claim.length)
}

proof fn lemma_claims_rows(claims: Seq<ReceptionClaim>, lower_bound: u64)
    ensures
        segment::claims_bytes(claims, lower_bound) == claims.map_values(
            |c: ReceptionClaim| claim_on_the_wire(c, lower_bound),
        ).flatten(),
    decreases claims.len(),
{
    let f = |c: ReceptionClaim| claim_on_the_wire(c, lower_bound);
    let rows = claims.map_values(f);
    if claims.len() > 0 {
        lemma_claims_rows(claims.drop_first(), lower_bound);
        lemma_rows(
            seq![segment::relative_offset(claims[0].offset, lower_bound), claims[0].length],
        );
        assert(rows.drop_first() == claims.drop_first().map_values(f));
        assert(rows[0] == claim_on_the_wire(claims[0], lower_bound));
    }
}

/// A report on the wire: the header; the numbers of the report serial, the
/// checkpoint serial, the upper bound, the lower bound and the count of claims,
/// in this order; and each claim in its turn.
pub proof fn report_on_the_wire(
    session_id: SessionId,
    report_serial: u64,
    checkpoint_serial: u64,
    upper_bound: u64,
    lower_bound: u64,
    claims: Seq<ReceptionClaim>,
)
    requires
        claims.len() <= u64::MAX,
    ensures
        (SegmentView::Report {
            session_id,
            report_serial,
            checkpoint_serial,
            upper_bound,
            lower_bound,
            claims,
        }).wire() == plain_header(8, session_id) + number(report_serial) + number(
            checkpoint_serial,
        ) + number(upper_bound) + number(lower_bound) + number(claims.len() as u64)
            + claims.map_values(
            |c: ReceptionClaim| claim_on_the_wire(c, lower_bound),
        ).flatten(),
{
    let s = SegmentView::Report {
        session_id,
        report_serial,
        checkpoint_serial,
        upper_bound,
        lower_bound,
        claims,
    };
    lemma_rows(seq![session_id.engine_id, session_id.session_number]);
    lemma_rows(s.fields());
    lemma_claims_rows(claims, lower_bound);
    let h = plain_header(8, session_id);
    assert(s.header() == h);
    assert(s.wire() == h + number(report_serial) + number(checkpoint_serial) + number(upper_bound)
        + number(lower_bound) + number(claims.len() as u64) + s.trailing());
}

/// The other segments on the wire: a report acknowledgement is the header and
/// the report serial, a cancel segment the header and the code of the reason,
/// and the acknowledgement of one is the header alone. The direction of a cancel
/// segment and of its acknowledgement is told by the type.
pub proof fn acks_and_cancels_on_the_wire(
    session_id: SessionId,
    report_serial: u64,
    reason: CancelReason,
)
    ensures
        (SegmentView::ReportAck { session_id, report_serial }).wire() == plain_header(
            9,
            session_id,
        ) + number(report_serial),
        (SegmentView::Cancel {
            session_id,
            reason,
            direction: CancelDirection::FromSender,
        }).wire() == plain_header(12, session_id) + seq![reason.wire_code()],
        (SegmentView::CancelAck {
            session_id,
            direction: CancelDirection::FromSender,
        }).wire() == plain_header(13, session_id),
        (SegmentView::Cancel {
            session_id,
            reason,
            direction: CancelDirection::FromReceiver,
        }).wire() == plain_header(14, session_id) + seq![reason.wire_code()],
        (SegmentView::CancelAck {
            session_id,
            direction: CancelDirection::FromReceiver,
        }).wire() == plain_header(15, session_id),
{
    lemma_rows(seq![session_id.engine_id, session_id.session_number]);
    lemma_rows(seq![report_serial]);
    lemma_rows(seq![]);
    let a = SegmentView::ReportAck { session_id, report_serial };
    assert(a.header() == plain_header(9, session_id));
    assert(a.wire() == plain_header(9, session_id) + number(report_serial));
    let c = SegmentView::Cancel { session_id, reason, direction: CancelDirection::FromSender };
    assert(c.header() == plain_header(12, session_id));
    assert(c.wire() == plain_header(12, session_id) + seq![reason.wire_code()]);
    let d = SegmentView::CancelAck { session_id, direction: CancelDirection::FromSender };
    assert(d.header() == plain_header(13, session_id));
    assert(d.wire() == plain_header(13, session_id));
    let e = SegmentView::Cancel { session_id, reason, direction: CancelDirection::FromReceiver };
    assert(e.header() == plain_header(14, session_id));
    assert(e.wire() == plain_header(14, session_id) + seq![reason.wire_code()]);
    let f = SegmentView::CancelAck { session_id, direction: CancelDirection::FromReceiver };
    assert(f.header() == plain_header(15, session_id));
    assert(f.wire() == plain_header(15, session_id));
}

// ---------------------------------------------------------------------------
// Reading
// ---------------------------------------------------------------------------
/// Whether the bytes are a number on the wire, as any sender may write it: they
/// are read as `v` and nothing is left of them.
pub open spec fn spells(code: Seq<u8>, v: u64) -> bool {
    sdnv::read_sdnv(code) == (Ok::<u64, SdnvError>(v), Seq::<u8>::empty())
}

/// Whether the rows of bytes are these numbers.
pub open spec fn all_spell(codes: Seq<Seq<u8>>, vs: Seq<u64>) -> bool {
    &&& codes.len() == vs.len()
    &&& forall|i: int| 0 <= i < codes.len() ==> spells(#[trigger] codes[i], vs[i])
}

/// What the library writes for a number is that number.
pub proof fn written_number_spells_itself(v: u64)
    ensures
        spells(number(v), v),
{
    sdnv::sdnv_round_trip(v, Seq::empty());
    assert(number(v) + Seq::<u8>::empty() == number(v));
}

/// Whether the bytes are an extension: a tag, a length, and that many bytes.
pub open spec fn is_extension(e: Seq<u8>) -> bool {
    exists|tag_code: Seq<u8>, tag: u64, len_code: Seq<u8>, value: Seq<u8>|
        #![trigger spells(tag_code, tag), len_code + value]
        {
            &&& spells(tag_code, tag)
            &&& value.len() <= u64::MAX
            &&& spells(len_code, value.len() as u64)
            &&& e == tag_code + (len_code + value)
        }
}

/// Whether these are extensions, of which a segment may have fifteen in each of
/// two places.
pub open spec fn are_extensions(exts: Seq<Seq<u8>>) -> bool {
    &&& exts.len() <= 15
    &&& forall|i: int| 0 <= i < exts.len() ==> is_extension(#[trigger] exts[i])
}

/// A segment as any sender may write it: the type code, the two numbers of the
/// session, a byte with the counts of the extensions, the header extensions, the
/// body, and the trailer extensions.
pub open spec fn enveloped(
    code: u8,
    id_codes: Seq<Seq<u8>>,
    header: Seq<Seq<u8>>,
    body: Seq<u8>,
    trailer: Seq<Seq<u8>>,
) -> Seq<u8> {
    seq![code] + id_codes.flatten() + seq![(16 * header.len() + trailer.len()) as u8]
        + header.flatten() + body + trailer.flatten()
}

proof fn lemma_flatten_last(rows: Seq<Seq<u8>>)
    requires
        rows.len() > 0,
    ensures
        rows.flatten() == rows.drop_last().flatten() + rows.last(),
{
    rows.drop_last().lemma_flatten_push(rows.last());
    assert(rows.drop_last().push(rows.last()) == rows);
}

proof fn lemma_read_numbers(codes: Seq<Seq<u8>>, vs: Seq<u64>, tail: Seq<u8>)
    requires
        all_spell(codes, vs),
    ensures
        segment::read_numbers(codes.flatten() + tail, vs.len()) == (
            Ok::<Seq<u64>, SegmentError>(vs),
            tail,
        ),
    decreases vs.len(),
{
    if vs.len() == 0 {
        assert(codes.flatten() + tail == tail);
        assert(vs == Seq::<u64>::empty());
    } else {
        let init = codes.drop_last();
        lemma_flatten_last(codes);
        assert forall|i: int| 0 <= i < init.len() implies spells(
            #[trigger] init[i],
            vs.drop_last()[i],
        ) by {
            assert(init[i] == codes[i]);
        }
        assert(spells(codes[codes.len() - 1], vs.last()));
        sdnv::read_stops_at_the_number(codes.last(), vs.last(), tail);
        lemma_read_numbers(init, vs.drop_last(), codes.last() + tail);
        assert(codes.flatten() + tail == init.flatten() + (codes.last() + tail));
        assert(vs.drop_last().push(vs.last()) == vs);
    }
}

/// A row of numbers that breaks off with an error.
proof fn lemma_read_numbers_fails(
    codes: Seq<Seq<u8>>,
    vs: Seq<u64>,
    bad: Seq<u8>,
    e: SdnvError,
    n: nat,
)
    requires
        all_spell(codes, vs),
        vs.len() < n,
        sdnv::read_sdnv(bad).0 == Err::<u64, SdnvError>(e),
    ensures
        segment::read_numbers(codes.flatten() + bad, n) == (
            Err::<Seq<u64>, SegmentError>(SegmentError::Sdnv(e)),
            sdnv::read_sdnv(bad).1,
        ),
    decreases n,
{
    if vs.len() == n - 1 {
        lemma_read_numbers(codes, vs, bad);
    } else {
        lemma_read_numbers_fails(codes, vs, bad, e, (n - 1) as nat);
    }
}

proof fn lemma_read_pair(a: Seq<u8>, v: u64, b: Seq<u8>, w: u64, tail: Seq<u8>)
    requires
        spells(a, v),
        spells(b, w),
    ensures
        segment::read_numbers(a + b + tail, 2) == (Ok::<Seq<u64>, SegmentError>(seq![v, w]), tail),
{
    let codes = seq![a, b];
    let vs = seq![v, w];
    assert forall|i: int| 0 <= i < codes.len() implies spells(#[trigger] codes[i], vs[i]) by {}
    lemma_read_numbers(codes, vs, tail);
    lemma_flatten_last(codes);
    assert(codes.drop_last() == seq![a]);
    seq![a].lemma_flatten_one_element();
    assert(codes.flatten() == a + b);
}

proof fn lemma_read_extensions(exts: Seq<Seq<u8>>, tail: Seq<u8>)
    requires
        forall|i: int| 0 <= i < exts.len() ==> is_extension(#[trigger] exts[i]),
    ensures
        segment::read_extensions(exts.flatten() + tail, exts.len()) == (
            Ok::<(), SegmentError>(()),
            tail,
        ),
    decreases exts.len(),
{
    if exts.len() == 0 {
        assert(exts.flatten() + tail == tail);
    } else {
        let rest = exts.drop_first();
        assert forall|i: int| 0 <= i < rest.len() implies is_extension(#[trigger] rest[i]) by {
            assert(rest[i] == exts[i + 1]);
        }
        lemma_read_extensions(rest, tail);
        assert(is_extension(exts[0]));
        let (tag_code, tag, len_code, value) = choose|
            tag_code: Seq<u8>,
            tag: u64,
            len_code: Seq<u8>,
            value: Seq<u8>,
        |
            #![trigger spells(tag_code, tag), len_code + value]
            {
                &&& spells(tag_code, tag)
                &&& value.len() <= u64::MAX
                &&& spells(len_code, value.len() as u64)
                &&& exts[0] == tag_code + (len_code + value)
            };
        let after = value + (rest.flatten() + tail);
        lemma_read_pair(tag_code, tag, len_code, value.len() as u64, after);
        assert(exts.flatten() + tail == tag_code + len_code + after);
        assert(after.skip(value.len() as int) == rest.flatten() + tail);
    }
}

/// A segment is read from its envelope as its body says.
proof fn lemma_read_envelope(
    segment_type: SegmentType,
    id: SessionId,
    id_codes: Seq<Seq<u8>>,
    header: Seq<Seq<u8>>,
    body: Seq<u8>,
    trailer: Seq<Seq<u8>>,
    tail: Seq<u8>,
    result: SegmentView,
)
    requires
        all_spell(id_codes, seq![id.engine_id, id.session_number]),
        are_extensions(header),
        are_extensions(trailer),
        segment::read_body(body + (trailer.flatten() + tail), id, segment_type) == (
            Ok::<SegmentView, SegmentError>(result),
            trailer.flatten() + tail,
        ),
    ensures
        segment::read_segment(
            enveloped(segment_type.wire_code(), id_codes, header, body, trailer) + tail,
        ) == (Ok::<SegmentView, SegmentError>(result), tail),
{
    let counts = (16 * header.len() + trailer.len()) as u8;
    let s = enveloped(segment_type.wire_code(), id_codes, header, body, trailer) + tail;
    let after_body = trailer.flatten() + tail;
    let after_counts = header.flatten() + (body + after_body);
    let after_ids = seq![counts] + after_counts;
    segment::type_codes_are_one_to_one(segment_type, 0);
    assert(s.skip(1) == id_codes.flatten() + after_ids);
    lemma_read_numbers(id_codes, seq![id.engine_id, id.session_number], after_ids);
    assert(after_ids[0] == counts);
    assert(after_ids.skip(1) == after_counts);
    lemma_read_extensions(header, body + after_body);
    lemma_read_extensions(trailer, tail);
}

/// Reading data gives what stands on the wire, whoever wrote it: the client
/// service, the offset, as much data as the length says, and, for the types 1, 2
/// and 3 and no others, the checkpoint serial and then the report serial.
/// Extensions are passed over, and what follows the segment is left.
pub proof fn data_is_read(
    segment_type: SegmentType,
    id: SessionId,
    id_codes: Seq<Seq<u8>>,
    header: Seq<Seq<u8>>,
    codes: Seq<Seq<u8>>,
    vs: Seq<u64>,
    data: Seq<u8>,
    trailer: Seq<Seq<u8>>,
    tail: Seq<u8>,
)
    requires
        all_spell(id_codes, seq![id.engine_id, id.session_number]),
        are_extensions(header),
        are_extensions(trailer),
        segment_type.wire_code() <= 7,
        all_spell(codes, vs),
        vs.len() == if 1 <= segment_type.wire_code() <= 3 {
            5nat
        } else {
            3nat
        },
        data.len() == vs[2],
    ensures
        segment::read_segment(
            enveloped(
                segment_type.wire_code(),
                id_codes,
                header,
                codes.flatten() + data,
                trailer,
            ) + tail,
        ) == (
            Ok::<SegmentView, SegmentError>(
                SegmentView::Data {
                    session_id: id,
                    segment_type,
                    client_service_id: vs[0],
                    offset: vs[1],
                    data,
                    checkpoint: if vs.len() == 5 {
                        Some(CheckpointInfo { serial: vs[3], responding_report_serial: vs[4] })
                    } else {
                        None
                    },
                },
            ),
            tail,
        ),
{
    let after_body = trailer.flatten() + tail;
    let body = codes.flatten() + data;
    lemma_read_numbers(codes, vs, data + after_body);
    assert(body + after_body == codes.flatten() + (data + after_body));
    assert((data + after_body).take(data.len() as int) == data);
    assert((data + after_body).skip(data.len() as int) == after_body);
    let result = segment::read_body(body + after_body, id, segment_type).0->Ok_0;
    lemma_read_envelope(segment_type, id, id_codes, header, body, trailer, tail, result);
}

/// Whether the bytes are a claim: its offset from the lower bound, and its length.
pub open spec fn spells_claim(code: Seq<u8>, claim: ReceptionClaim, lower_bound: u64) -> bool {
    &&& claim.offset >= lower_bound
    &&& exists|a: Seq<u8>, b: Seq<u8>|
        #![trigger a + b]
        spells(a, (claim.offset - lower_bound) as u64) && spells(b, claim.length) && code == a + b
}

proof fn lemma_read_claims(
    codes: Seq<Seq<u8>>,
    claims: Seq<ReceptionClaim>,
    lower_bound: u64,
    tail: Seq<u8>,
)
    requires
        codes.len() == claims.len(),
        forall|i: int|
            0 <= i < codes.len() ==> spells_claim(#[trigger] codes[i], claims[i], lower_bound),
    ensures
        segment::read_claims(codes.flatten() + tail, lower_bound, claims.len()) == (
            Ok::<Seq<ReceptionClaim>, SegmentError>(claims),
            tail,
        ),
    decreases claims.len(),
{
    if claims.len() == 0 {
        assert(codes.flatten() + tail == tail);
        assert(claims == Seq::<ReceptionClaim>::empty());
    } else {
        let rest = codes.drop_first();
        let others = claims.drop_first();
        assert forall|i: int| 0 <= i < rest.len() implies spells_claim(
            #[trigger] rest[i],
            others[i],
            lower_bound,
        ) by {
            assert(rest[i] == codes[i + 1]);
        }
        lemma_read_claims(rest, others, lower_bound, tail);
        assert(spells_claim(codes[0], claims[0], lower_bound));
        let (a, b) = choose|a: Seq<u8>, b: Seq<u8>|
            #![trigger a + b]
            spells(a, (claims[0].offset - lower_bound) as u64) && spells(b, claims[0].length)
                && codes[0] == a + b;
        lemma_read_pair(
            a,
            (claims[0].offset - lower_bound) as u64,
            b,
            claims[0].length,
            rest.flatten() + tail,
        );
        assert(codes.flatten() + tail == a + b + (rest.flatten() + tail));
        assert(seq![claims[0]] + others == claims);
    }
}

/// Reading a report gives what stands on the wire, whoever wrote it: the report
/// serial, the checkpoint serial, the upper and the lower bound, and the claims,
/// with their offsets counted from the start of the block.
pub proof fn report_is_read(
    id: SessionId,
    id_codes: Seq<Seq<u8>>,
    header: Seq<Seq<u8>>,
    codes: Seq<Seq<u8>>,
    vs: Seq<u64>,
    claim_codes: Seq<Seq<u8>>,
    claims: Seq<ReceptionClaim>,
    trailer: Seq<Seq<u8>>,
    tail: Seq<u8>,
)
    requires
        all_spell(id_codes, seq![id.engine_id, id.session_number]),
        are_extensions(header),
        are_extensions(trailer),
        all_spell(codes, vs),
        vs.len() == 5,
        claims.len() == vs[4],
        claim_codes.len() == claims.len(),
        forall|i: int|
            0 <= i < claim_codes.len() ==> spells_claim(
                #[trigger] claim_codes[i],
                claims[i],
                vs[3],
            ),
    ensures
        segment::read_segment(
            enveloped(8, id_codes, header, codes.flatten() + claim_codes.flatten(), trailer) + tail,
        ) == (
            Ok::<SegmentView, SegmentError>(
                SegmentView::Report {
                    session_id: id,
                    report_serial: vs[0],
                    checkpoint_serial: vs[1],
                    upper_bound: vs[2],
                    lower_bound: vs[3],
                    claims,
                },
            ),
            tail,
        ),
{
    let after_body = trailer.flatten() + tail;
    let body = codes.flatten() + claim_codes.flatten();
    lemma_read_claims(claim_codes, claims, vs[3], after_body);
    lemma_read_numbers(codes, vs, claim_codes.flatten() + after_body);
    assert(body + after_body == codes.flatten() + (claim_codes.flatten() + after_body));
    let result = SegmentView::Report {
        session_id: id,
        report_serial: vs[0],
        checkpoint_serial: vs[1],
        upper_bound: vs[2],
        lower_bound: vs[3],
        claims,
    };
    lemma_read_envelope(SegmentType::Report, id, id_codes, header, body, trailer, tail, result);
}

/// Reading the other segments gives what stands on the wire, whoever wrote it.
pub proof fn acks_and_cancels_are_read(
    id: SessionId,
    id_codes: Seq<Seq<u8>>,
    header: Seq<Seq<u8>>,
    serial_code: Seq<u8>,
    report_serial: u64,
    reason: CancelReason,
    trailer: Seq<Seq<u8>>,
    tail: Seq<u8>,
)
    requires
        all_spell(id_codes, seq![id.engine_id, id.session_number]),
        are_extensions(header),
        are_extensions(trailer),
        spells(serial_code, report_serial),
    ensures
        segment::read_segment(enveloped(9, id_codes, header, serial_code, trailer) + tail) == (
            Ok::<SegmentView, SegmentError>(
                SegmentView::ReportAck { session_id: id, report_serial },
            ),
            tail,
        ),
        segment::read_segment(
            enveloped(12, id_codes, header, seq![reason.wire_code()], trailer) + tail,
        ) == (
            Ok::<SegmentView, SegmentError>(
                SegmentView::Cancel {
                    session_id: id,
                    reason,
                    direction: CancelDirection::FromSender,
                },
            ),
            tail,
        ),
        segment::read_segment(enveloped(13, id_codes, header, Seq::empty(), trailer) + tail) == (
            Ok::<SegmentView, SegmentError>(
                SegmentView::CancelAck { session_id: id, direction: CancelDirection::FromSender },
            ),
            tail,
        ),
        segment::read_segment(
            enveloped(14, id_codes, header, seq![reason.wire_code()], trailer) + tail,
        ) == (
            Ok::<SegmentView, SegmentError>(
                SegmentView::Cancel {
                    session_id: id,
                    reason,
                    direction: CancelDirection::FromReceiver,
                },
            ),
            tail,
        ),
        segment::read_segment(enveloped(15, id_codes, header, Seq::empty(), trailer) + tail) == (
            Ok::<SegmentView, SegmentError>(
                SegmentView::CancelAck { session_id: id, direction: CancelDirection::FromReceiver },
            ),
            tail,
        ),
{
    let after = trailer.flatten() + tail;
    sdnv::read_stops_at_the_number(serial_code, report_serial, after);
    lemma_read_envelope(
        SegmentType::ReportAck,
        id,
        id_codes,
        header,
        serial_code,
        trailer,
        tail,
        SegmentView::ReportAck { session_id: id, report_serial },
    );
    let body = seq![reason.wire_code()];
    assert((body + after).skip(1) == after);
    lemma_read_envelope(
        SegmentType::CancelFromSender,
        id,
        id_codes,
        header,
        body,
        trailer,
        tail,
        SegmentView::Cancel { session_id: id, reason, direction: CancelDirection::FromSender },
    );
    lemma_read_envelope(
        SegmentType::CancelFromReceiver,
        id,
        id_codes,
        header,
        body,
        trailer,
        tail,
        SegmentView::Cancel { session_id: id, reason, direction: CancelDirection::FromReceiver },
    );
    let none = Seq::<u8>::empty();
    assert(none + after == after);
    lemma_read_envelope(
        SegmentType::CancelAckToSender,
        id,
        id_codes,
        header,
        none,
        trailer,
        tail,
        SegmentView::CancelAck { session_id: id, direction: CancelDirection::FromSender },
    );
    lemma_read_envelope(
        SegmentType::CancelAckToReceiver,
        id,
        id_codes,
        header,
        none,
        trailer,
        tail,
        SegmentView::CancelAck { session_id: id, direction: CancelDirection::FromReceiver },
    );
}

// ---------------------------------------------------------------------------
// Errors
// ---------------------------------------------------------------------------
/// The start of a segment, up to its body: the type code, the two numbers of the
/// session, a byte with the counts of the extensions, and the header extensions.
pub open spec fn opening(
    code: u8,
    id_codes: Seq<Seq<u8>>,
    header: Seq<Seq<u8>>,
    trailers: nat,
) -> Seq<u8> {
    seq![code] + id_codes.flatten() + seq![(16 * header.len() + trailers) as u8]
        + header.flatten()
}

/// An error in the body is the error of the segment.
proof fn lemma_body_error(
    segment_type: SegmentType,
    id: SessionId,
    id_codes: Seq<Seq<u8>>,
    header: Seq<Seq<u8>>,
    trailers: nat,
    rest: Seq<u8>,
    e: SegmentError,
)
    requires
        all_spell(id_codes, seq![id.engine_id, id.session_number]),
        are_extensions(header),
        trailers <= 15,
        segment::read_body(rest, id, segment_type).0 == Err::<SegmentView, SegmentError>(e),
    ensures
        segment::read_segment(
            opening(segment_type.wire_code(), id_codes, header, trailers) + rest,
        ) == segment::read_body(rest, id, segment_type),
{
    let counts = (16 * header.len() + trailers) as u8;
    let s = opening(segment_type.wire_code(), id_codes, header, trailers) + rest;
    let after_counts = header.flatten() + rest;
    let after_ids = seq![counts] + after_counts;
    segment::type_codes_are_one_to_one(segment_type, 0);
    assert(s.skip(1) == id_codes.flatten() + after_ids);
    lemma_read_numbers(id_codes, seq![id.engine_id, id.session_number], after_ids);
    assert(after_ids[0] == counts);
    assert(after_ids.skip(1) == after_counts);
    lemma_read_extensions(header, rest);
}

/// What cannot be the start of a segment: no bytes at all, and a code that no
/// type has, whatever follows it.
pub proof fn unknown_start_is_an_error(s: Seq<u8>)
    ensures
        s.len() == 0 ==> segment::read_segment(s).0 == Err::<SegmentView, SegmentError>(
            SegmentError::Truncated,
        ),
        s.len() > 0 && (5 <= s[0] <= 6 || 10 <= s[0] <= 11 || s[0] >= 16) ==> segment::read_segment(
            s,
        ) == (Err::<SegmentView, SegmentError>(SegmentError::UnknownType(s[0])), s.skip(1)),
{
}

/// A segment whose header breaks off: a number of the session that cannot be
/// read is the error that it is, and a missing byte for the extensions is a
/// truncation.
pub proof fn broken_header_is_an_error(
    segment_type: SegmentType,
    codes: Seq<Seq<u8>>,
    vs: Seq<u64>,
    bad: Seq<u8>,
)
    requires
        all_spell(codes, vs),
        vs.len() <= 2,
    ensures
        ({
            let s = seq![segment_type.wire_code()] + codes.flatten() + bad;
            &&& vs.len() < 2 ==> (sdnv::read_sdnv(bad).0 matches Err(e) ==> segment::read_segment(s)
                == (
                Err::<SegmentView, SegmentError>(SegmentError::Sdnv(e)),
                sdnv::read_sdnv(bad).1,
            ))
            &&& vs.len() == 2 && bad.len() == 0 ==> segment::read_segment(s).0 == Err::<
                SegmentView,
                SegmentError,
            >(SegmentError::Truncated)
        }),
{
    let s = seq![segment_type.wire_code()] + codes.flatten() + bad;
    segment::type_codes_are_one_to_one(segment_type, 0);
    assert(s.skip(1) == codes.flatten() + bad);
    if vs.len() < 2 && sdnv::read_sdnv(bad).0 is Err {
        lemma_read_numbers_fails(codes, vs, bad, sdnv::read_sdnv(bad).0->Err_0, 2);
    }
    if vs.len() == 2 {
        lemma_read_numbers(codes, vs, bad);
    }
}

/// An extension that breaks off: a tag or a length that cannot be read is the
/// error that it is, and a value with fewer bytes than its length is a
/// truncation.
pub proof fn broken_extension_is_an_error(
    segment_type: SegmentType,
    id: SessionId,
    id_codes: Seq<Seq<u8>>,
    before: Seq<Seq<u8>>,
    more: nat,
    trailers: nat,
    codes: Seq<Seq<u8>>,
    vs: Seq<u64>,
    bad: Seq<u8>,
)
    requires
        all_spell(id_codes, seq![id.engine_id, id.session_number]),
        are_extensions(before),
        before.len() < more <= 15,
        trailers <= 15,
        all_spell(codes, vs),
        vs.len() <= 2,
    ensures
        ({
            let s = seq![segment_type.wire_code()] + id_codes.flatten() + seq![
                (16 * more + trailers) as u8,
            ] + before.flatten() + codes.flatten() + bad;
            &&& vs.len() < 2 ==> (sdnv::read_sdnv(bad).0 matches Err(e) ==> segment::read_segment(s)
                == (
                Err::<SegmentView, SegmentError>(SegmentError::Sdnv(e)),
                sdnv::read_sdnv(bad).1,
            ))
            &&& vs.len() == 2 && bad.len() < vs[1] ==> segment::read_segment(s) == (
                Err::<SegmentView, SegmentError>(SegmentError::Truncated),
                bad,
            )
        }),
{
    let counts = (16 * more + trailers) as u8;
    let s = seq![segment_type.wire_code()] + id_codes.flatten() + seq![counts] + before.flatten()
        + codes.flatten() + bad;
    let after_counts = before.flatten() + (codes.flatten() + bad);
    let after_ids = seq![counts] + after_counts;
    segment::type_codes_are_one_to_one(segment_type, 0);
    assert(s.skip(1) == id_codes.flatten() + after_ids);
    lemma_read_numbers(id_codes, seq![id.engine_id, id.session_number], after_ids);
    assert(after_ids[0] == counts);
    assert(after_ids.skip(1) == after_counts);
    if vs.len() < 2 && sdnv::read_sdnv(bad).0 is Err {
        lemma_read_numbers_fails(codes, vs, bad, sdnv::read_sdnv(bad).0->Err_0, 2);
        lemma_extensions_fail(before, codes.flatten() + bad, more);
    }
    if vs.len() == 2 && bad.len() < vs[1] {
        lemma_read_numbers(codes, vs, bad);
        lemma_extensions_fail(before, codes.flatten() + bad, more);
    }
}

proof fn lemma_extensions_fail(before: Seq<Seq<u8>>, rest: Seq<u8>, n: nat)
    requires
        forall|i: int| 0 <= i < before.len() ==> is_extension(#[trigger] before[i]),
        before.len() < n,
        segment::read_extensions(rest, 1).0 is Err,
    ensures
        segment::read_extensions(before.flatten() + rest, n) == segment::read_extensions(rest, 1),
    decreases before.len(),
{
    reveal_with_fuel(segment::read_extensions, 3);
    if before.len() == 0 {
        assert(before.flatten() + rest == rest);
    } else {
        let later = before.drop_first();
        assert forall|i: int| 0 <= i < later.len() implies is_extension(#[trigger] later[i]) by {
            assert(later[i] == before[i + 1]);
        }
        lemma_extensions_fail(later, rest, (n - 1) as nat);
        assert(is_extension(before[0]));
        let first = seq![before[0]];
        lemma_read_extensions(first, later.flatten() + rest);
        first.lemma_flatten_one_element();
        assert(before.flatten() + rest == before[0] + (later.flatten() + rest));
    }
}

/// A body that breaks off in its numbers: the number that cannot be read is the
/// error that it is. Data has three numbers, with a checkpoint five, a report
/// has five, and its acknowledgement one.
pub proof fn broken_body_is_an_error(
    segment_type: SegmentType,
    id: SessionId,
    id_codes: Seq<Seq<u8>>,
    header: Seq<Seq<u8>>,
    trailers: nat,
    codes: Seq<Seq<u8>>,
    vs: Seq<u64>,
    bad: Seq<u8>,
    e: SdnvError,
)
    requires
        all_spell(id_codes, seq![id.engine_id, id.session_number]),
        are_extensions(header),
        trailers <= 15,
        all_spell(codes, vs),
        vs.len() < match segment_type {
            SegmentType::RedData => 3nat,
            SegmentType::RedCheckpoint => 5nat,
            SegmentType::RedEorp => 5nat,
            SegmentType::RedEob => 5nat,
            SegmentType::GreenData => 3nat,
            SegmentType::GreenEob => 3nat,
            SegmentType::Report => 5nat,
            SegmentType::ReportAck => 1nat,
            _ => 0nat,
        },
        sdnv::read_sdnv(bad).0 == Err::<u64, SdnvError>(e),
    ensures
        segment::read_segment(
            opening(segment_type.wire_code(), id_codes, header, trailers) + (codes.flatten() + bad),
        ) == (
            Err::<SegmentView, SegmentError>(SegmentError::Sdnv(e)),
            sdnv::read_sdnv(bad).1,
        ),
{
    if vs.len() < 3 {
        lemma_read_numbers_fails(codes, vs, bad, e, 3);
    }
    if vs.len() < 5 {
        lemma_read_numbers_fails(codes, vs, bad, e, 5);
    }
    if segment_type == SegmentType::ReportAck {
        assert(codes.flatten() + bad == bad);
    }
    lemma_body_error(
        segment_type,
        id,
        id_codes,
        header,
        trailers,
        codes.flatten() + bad,
        SegmentError::Sdnv(e),
    );
}

/// Data with fewer bytes than its length is a truncation, as is a cancel segment
/// without a reason; a code that no reason has is an invalid reason.
pub proof fn short_data_and_bad_reasons_are_errors(
    segment_type: SegmentType,
    id: SessionId,
    id_codes: Seq<Seq<u8>>,
    header: Seq<Seq<u8>>,
    trailers: nat,
    codes: Seq<Seq<u8>>,
    vs: Seq<u64>,
    rest: Seq<u8>,
)
    requires
        all_spell(id_codes, seq![id.engine_id, id.session_number]),
        are_extensions(header),
        trailers <= 15,
        all_spell(codes, vs),
    ensures
        ({
            let start = opening(segment_type.wire_code(), id_codes, header, trailers);
            let truncated = Err::<SegmentView, SegmentError>(SegmentError::Truncated);
            &&& segment_type.wire_code() <= 7 && vs.len() == (if 1 <= segment_type.wire_code()
                <= 3 {
                5nat
            } else {
                3nat
            }) && rest.len() < vs[2] ==> segment::read_segment(start + (codes.flatten() + rest))
                == (truncated, rest)
            &&& segment_type == SegmentType::CancelFromSender || segment_type
                == SegmentType::CancelFromReceiver ==> {
                &&& rest.len() == 0 ==> segment::read_segment(start + rest).0 == truncated
                &&& rest.len() > 0 && rest[0] >= 5 ==> segment::read_segment(start + rest) == (
                    Err::<SegmentView, SegmentError>(SegmentError::InvalidReason(rest[0])),
                    rest.skip(1),
                )
            }
        }),
{
    let t = segment_type;
    if t.wire_code() <= 7 && vs.len() == (if 1 <= t.wire_code() <= 3 {
        5nat
    } else {
        3nat
    }) && rest.len() < vs[2] {
        lemma_read_numbers(codes, vs, rest);
        lemma_body_error(
            t,
            id,
            id_codes,
            header,
            trailers,
            codes.flatten() + rest,
            SegmentError::Truncated,
        );
    }
    if t == SegmentType::CancelFromSender || t == SegmentType::CancelFromReceiver {
        if rest.len() == 0 {
            lemma_body_error(t, id, id_codes, header, trailers, rest, SegmentError::Truncated);
        } else if rest[0] >= 5 {
            lemma_body_error(
                t,
                id,
                id_codes,
                header,
                trailers,
                rest,
                SegmentError::InvalidReason(rest[0]),
            );
        }
    }
}

/// A report whose claims break off: a number that cannot be read is the error
/// that it is, and a claim that starts beyond the range of offsets overflows.
pub proof fn broken_claims_are_an_error(
    id: SessionId,
    id_codes: Seq<Seq<u8>>,
    header: Seq<Seq<u8>>,
    trailers: nat,
    codes: Seq<Seq<u8>>,
    vs: Seq<u64>,
    claim_codes: Seq<Seq<u8>>,
    claims: Seq<ReceptionClaim>,
    last: Seq<Seq<u8>>,
    ws: Seq<u64>,
    bad: Seq<u8>,
)
    requires
        all_spell(id_codes, seq![id.engine_id, id.session_number]),
        are_extensions(header),
        trailers <= 15,
        all_spell(codes, vs),
        vs.len() == 5,
        claims.len() < vs[4],
        claim_codes.len() == claims.len(),
        forall|i: int|
            0 <= i < claim_codes.len() ==> spells_claim(
                #[trigger] claim_codes[i],
                claims[i],
                vs[3],
            ),
        all_spell(last, ws),
        ws.len() <= 2,
    ensures
        ({
            let s = opening(8, id_codes, header, trailers) + (codes.flatten() + (
            claim_codes.flatten() + (last.flatten() + bad)));
            &&& ws.len() < 2 ==> (sdnv::read_sdnv(bad).0 matches Err(e) ==> segment::read_segment(s)
                == (
                Err::<SegmentView, SegmentError>(SegmentError::Sdnv(e)),
                sdnv::read_sdnv(bad).1,
            ))
            &&& ws.len() == 2 && vs[3] + ws[0] > u64::MAX ==> segment::read_segment(s) == (
                Err::<SegmentView, SegmentError>(SegmentError::Sdnv(SdnvError::Overflow)),
                bad,
            )
        }),
{
    let end = last.flatten() + bad;
    let body = codes.flatten() + (claim_codes.flatten() + end);
    lemma_read_numbers(codes, vs, claim_codes.flatten() + end);
    if ws.len() < 2 && sdnv::read_sdnv(bad).0 is Err {
        let e = sdnv::read_sdnv(bad).0->Err_0;
        lemma_read_numbers_fails(last, ws, bad, e, 2);
        lemma_claims_fail(claim_codes, claims, vs[3], end, vs[4] as nat);
        lemma_body_error(
            SegmentType::Report,
            id,
            id_codes,
            header,
            trailers,
            body,
            SegmentError::Sdnv(e),
        );
    }
    if ws.len() == 2 && vs[3] + ws[0] > u64::MAX {
        lemma_read_numbers(last, ws, bad);
        lemma_claims_fail(claim_codes, claims, vs[3], end, vs[4] as nat);
        lemma_body_error(
            SegmentType::Report,
            id,
            id_codes,
            header,
            trailers,
            body,
            SegmentError::Sdnv(SdnvError::Overflow),
        );
    }
}

proof fn lemma_claims_fail(
    codes: Seq<Seq<u8>>,
    claims: Seq<ReceptionClaim>,
    lower_bound: u64,
    rest: Seq<u8>,
    n: nat,
)
    requires
        codes.len() == claims.len(),
        forall|i: int|
            0 <= i < codes.len() ==> spells_claim(#[trigger] codes[i], claims[i], lower_bound),
        claims.len() < n,
        segment::read_claims(rest, lower_bound, 1).0 is Err,
    ensures
        segment::read_claims(codes.flatten() + rest, lower_bound, n) == segment::read_claims(
            rest,
            lower_bound,
            1,
        ),
    decreases claims.len(),
{
    reveal_with_fuel(segment::read_claims, 3);
    if claims.len() == 0 {
        assert(codes.flatten() + rest == rest);
    } else {
        let later = codes.drop_first();
        let others = claims.drop_first();
        assert forall|i: int| 0 <= i < later.len() implies spells_claim(
            #[trigger] later[i],
            others[i],
            lower_bound,
        ) by {
            assert(later[i] == codes[i + 1]);
        }
        lemma_claims_fail(later, others, lower_bound, rest, (n - 1) as nat);
        assert(spells_claim(codes[0], claims[0], lower_bound));
        let (a, b) = choose|a: Seq<u8>, b: Seq<u8>|
            #![trigger a + b]
            spells(a, (claims[0].offset - lower_bound) as u64) && spells(b, claims[0].length)
                && codes[0] == a + b;
        lemma_read_pair(
            a,
            (claims[0].offset - lower_bound) as u64,
            b,
            claims[0].length,
            later.flatten() + rest,
        );
        assert(codes.flatten() + rest == a + b + (later.flatten() + rest));
    }
}

/// What is said of an error: what it is and, where a code was wrong, which.
pub proof fn errors_are_told(e: SegmentError)
    ensures
        e.message() == match e {
            SegmentError::UnknownType(code) => "unknown segment type code: "@ + text::decimal(
                code as nat,
            ),
            SegmentError::Truncated => "segment truncated: insufficient bytes for segment body"@,
            SegmentError::InvalidReason(code) => "invalid cancel reason code: "@ + text::decimal(
                code as nat,
            ),
            SegmentError::Sdnv(SdnvError::Overflow) => "SDNV decode error: "@
                + "SDNV exceeds 10 bytes (64-bit overflow)"@,
            SegmentError::Sdnv(SdnvError::Incomplete) => "SDNV decode error: "@
                + "SDNV truncated (continuation bit set on final byte)"@,
        },
{
}

/// A segment is seen as it is, with all its fields, and so is what a decode gives.
pub proof fn segments_are_seen_as_they_are(s: Segment, e: SegmentError)
    ensures
        s@ == match s {
            Segment::Data {
                session_id,
                segment_type,
                client_service_id,
                offset,
                data,
                checkpoint,
            } => SegmentView::Data {
                session_id,
                segment_type,
                client_service_id,
                offset,
                data: buffer::bytes_content(data),
                checkpoint,
            },
            Segment::Report {
                session_id,
                report_serial,
                checkpoint_serial,
                upper_bound,
                lower_bound,
                claims,
            } => SegmentView::Report {
                session_id,
                report_serial,
                checkpoint_serial,
                upper_bound,
                lower_bound,
                claims: claims@,
            },
            Segment::ReportAck { session_id, report_serial } => SegmentView::ReportAck {
                session_id,
                report_serial,
            },
            Segment::Cancel { session_id, reason, direction } => SegmentView::Cancel {
                session_id,
                reason,
                direction,
            },
            Segment::CancelAck { session_id, direction } => SegmentView::CancelAck {
                session_id,
                direction,
            },
        },
        segment::outcome(Ok(s)) == Ok::<SegmentView, SegmentError>(s@),
        segment::outcome(Err(e)) == Err::<SegmentView, SegmentError>(e),
{
}

// ---------------------------------------------------------------------------
// What follows
// ---------------------------------------------------------------------------
proof fn lemma_numbers_look_no_further(s: Seq<u8>, n: nat, tail: Seq<u8>)
    requires
        segment::read_numbers(s, n).0 is Ok,
    ensures
        segment::read_numbers(s + tail, n) == (
            segment::read_numbers(s, n).0,
            segment::read_numbers(s, n).1 + tail,
        ),
    decreases n,
{
    if n > 0 {
        lemma_numbers_look_no_further(s, (n - 1) as nat, tail);
        sdnv::read_does_not_look_ahead(segment::read_numbers(s, (n - 1) as nat).1, tail);
    }
}

proof fn lemma_extensions_look_no_further(s: Seq<u8>, n: nat, tail: Seq<u8>)
    requires
        segment::read_extensions(s, n).0 is Ok,
    ensures
        segment::read_extensions(s + tail, n) == (
            segment::read_extensions(s, n).0,
            segment::read_extensions(s, n).1 + tail,
        ),
    decreases n,
{
    if n > 0 {
        lemma_numbers_look_no_further(s, 2, tail);
        let (vs, rest) = segment::read_numbers(s, 2);
        let k = vs->Ok_0[1] as int;
        assert((rest + tail).skip(k) == rest.skip(k) + tail);
        lemma_extensions_look_no_further(rest.skip(k), (n - 1) as nat, tail);
    }
}

proof fn lemma_claims_look_no_further(s: Seq<u8>, lower_bound: u64, n: nat, tail: Seq<u8>)
    requires
        segment::read_claims(s, lower_bound, n).0 is Ok,
    ensures
        segment::read_claims(s + tail, lower_bound, n) == (
            segment::read_claims(s, lower_bound, n).0,
            segment::read_claims(s, lower_bound, n).1 + tail,
        ),
    decreases n,
{
    if n > 0 {
        lemma_numbers_look_no_further(s, 2, tail);
        let rest = segment::read_numbers(s, 2).1;
        lemma_claims_look_no_further(rest, lower_bound, (n - 1) as nat, tail);
    }
}

proof fn lemma_body_looks_no_further(
    s: Seq<u8>,
    id: SessionId,
    segment_type: SegmentType,
    tail: Seq<u8>,
)
    requires
        segment::read_body(s, id, segment_type).0 is Ok,
    ensures
        segment::read_body(s + tail, id, segment_type) == (
            segment::read_body(s, id, segment_type).0,
            segment::read_body(s, id, segment_type).1 + tail,
        ),
{
    match segment_type {
        SegmentType::Report => {
            lemma_numbers_look_no_further(s, 5, tail);
            let (vs, rest) = segment::read_numbers(s, 5);
            lemma_claims_look_no_further(rest, vs->Ok_0[3], vs->Ok_0[4] as nat, tail);
        },
        SegmentType::ReportAck => {
            sdnv::read_does_not_look_ahead(s, tail);
        },
        SegmentType::CancelFromSender => {
            assert((s + tail).skip(1) == s.skip(1) + tail);
        },
        SegmentType::CancelFromReceiver => {
            assert((s + tail).skip(1) == s.skip(1) + tail);
        },
        SegmentType::CancelAckToSender => {},
        SegmentType::CancelAckToReceiver => {},
        _ => {
            let n: nat = if segment_type.checkpoint() {
                5
            } else {
                3
            };
            lemma_numbers_look_no_further(s, n, tail);
            let (vs, rest) = segment::read_numbers(s, n);
            let k = vs->Ok_0[2] as int;
            assert((rest + tail).take(k) == rest.take(k));
            assert((rest + tail).skip(k) == rest.skip(k) + tail);
        },
    }
}

proof fn lemma_rest_looks_no_further(
    s: Seq<u8>,
    id: SessionId,
    segment_type: SegmentType,
    tail: Seq<u8>,
)
    requires
        segment::read_after_session(s, id, segment_type).0 is Ok,
    ensures
        segment::read_after_session(s + tail, id, segment_type) == (
            segment::read_after_session(s, id, segment_type).0,
            segment::read_after_session(s, id, segment_type).1 + tail,
        ),
{
    assert((s + tail).skip(1) == s.skip(1) + tail);
    lemma_extensions_look_no_further(s.skip(1), s[0] as nat / 16, tail);
    let body = segment::read_extensions(s.skip(1), s[0] as nat / 16).1;
    lemma_body_looks_no_further(body, id, segment_type, tail);
    let trailer = segment::read_body(body, id, segment_type).1;
    lemma_extensions_look_no_further(trailer, s[0] as nat % 16, tail);
}

/// What is decoded does not depend on what follows it: where a segment is read,
/// the same one is read with more bytes behind it, and they are left behind what
/// was left.
pub proof fn decode_does_not_look_ahead(s: Seq<u8>, tail: Seq<u8>)
    requires
        segment::read_segment(s).0 is Ok,
    ensures
        segment::read_segment(s + tail) == (
            segment::read_segment(s).0,
            segment::read_segment(s).1 + tail,
        ),
{
    assert((s + tail).skip(1) == s.skip(1) + tail);
    lemma_numbers_look_no_further(s.skip(1), 2, tail);
    let (vs, rest) = segment::read_numbers(s.skip(1), 2);
    let id = SessionId { engine_id: vs->Ok_0[0], session_number: vs->Ok_0[1] };
    lemma_rest_looks_no_further(rest, id, SegmentType::of_wire_code(s[0])->0, tail);
}

/// A segment that was cut short anywhere is not read as one.
pub proof fn cut_short_segment_is_an_error(segment: SegmentView, n: int)
    requires
        segment.valid(),
        0 <= n < segment.wire().len(),
    ensures
        segment::read_segment(segment.wire().take(n)).0 is Err,
{
    let w = segment.wire();
    if segment::read_segment(w.take(n)).0 is Ok {
        let tail = w.skip(n);
        decode_does_not_look_ahead(w.take(n), tail);
        assert(w.take(n) + tail == w);
        segment::segment_round_trip(segment, Seq::empty());
        assert(w + Seq::<u8>::empty() == w);
        assert((segment::read_segment(w.take(n)).1 + tail).len() > 0);
    }
}

/// A segment without trailers that is read to its end has a body that is.
proof fn lemma_plain_body(
    segment_type: SegmentType,
    id: SessionId,
    id_codes: Seq<Seq<u8>>,
    header: Seq<Seq<u8>>,
    body: Seq<u8>,
)
    requires
        all_spell(id_codes, seq![id.engine_id, id.session_number]),
        are_extensions(header),
        segment::read_segment(
            enveloped(segment_type.wire_code(), id_codes, header, body, Seq::empty()),
        ).0 is Ok,
        segment::read_segment(
            enveloped(segment_type.wire_code(), id_codes, header, body, Seq::empty()),
        ).1.len() == 0,
    ensures
        segment::read_body(body, id, segment_type).0 is Ok,
        segment::read_body(body, id, segment_type).1.len() == 0,
{
    let none = Seq::<Seq<u8>>::empty();
    let ids = seq![id.engine_id, id.session_number];
    let plain = enveloped(segment_type.wire_code(), id_codes, header, body, none);
    let counts = (16 * header.len() + none.len()) as u8;
    let rest = seq![counts] + (header.flatten() + body);
    segment::type_codes_are_one_to_one(segment_type, 0);
    assert(none.flatten() == Seq::<u8>::empty());
    assert(plain.skip(1) == id_codes.flatten() + rest);
    lemma_read_numbers(id_codes, ids, rest);
    assert(rest[0] == counts);
    assert(rest.skip(1) == header.flatten() + body);
    lemma_read_extensions(header, body);
}

/// An error in the trailers is the error of the segment.
proof fn lemma_trailer_error(
    segment_type: SegmentType,
    id: SessionId,
    id_codes: Seq<Seq<u8>>,
    header: Seq<Seq<u8>>,
    body: Seq<u8>,
    more: nat,
    after_body: Seq<u8>,
    e: SegmentError,
)
    requires
        all_spell(id_codes, seq![id.engine_id, id.session_number]),
        are_extensions(header),
        more <= 15,
        segment::read_body(body, id, segment_type).0 is Ok,
        segment::read_body(body, id, segment_type).1.len() == 0,
        segment::read_extensions(after_body, more).0 == Err::<(), SegmentError>(e),
    ensures
        segment::read_segment(
            opening(segment_type.wire_code(), id_codes, header, more) + (body + after_body),
        ) == (
            Err::<SegmentView, SegmentError>(e),
            segment::read_extensions(after_body, more).1,
        ),
{
    let ids = seq![id.engine_id, id.session_number];
    let counts = (16 * header.len() + more) as u8;
    let s = opening(segment_type.wire_code(), id_codes, header, more) + (body + after_body);
    let rest = seq![counts] + (header.flatten() + (body + after_body));
    segment::type_codes_are_one_to_one(segment_type, 0);
    lemma_body_looks_no_further(body, id, segment_type, after_body);
    assert(segment::read_body(body, id, segment_type).1 + after_body == after_body);
    assert(s.skip(1) == id_codes.flatten() + rest);
    lemma_read_numbers(id_codes, ids, rest);
    assert(rest[0] == counts);
    assert(rest.skip(1) == header.flatten() + (body + after_body));
    lemma_read_extensions(header, body + after_body);
}

/// A trailer extension that breaks off makes an error of a segment that is read
/// without it: a tag or a length that cannot be read is the error that it is, and
/// a value with fewer bytes than its length is a truncation.
pub proof fn broken_trailer_is_an_error(
    segment_type: SegmentType,
    id: SessionId,
    id_codes: Seq<Seq<u8>>,
    header: Seq<Seq<u8>>,
    body: Seq<u8>,
    before: Seq<Seq<u8>>,
    more: nat,
    codes: Seq<Seq<u8>>,
    vs: Seq<u64>,
    bad: Seq<u8>,
)
    requires
        all_spell(id_codes, seq![id.engine_id, id.session_number]),
        are_extensions(header),
        are_extensions(before),
        before.len() < more <= 15,
        all_spell(codes, vs),
        vs.len() <= 2,
        segment::read_segment(
            enveloped(segment_type.wire_code(), id_codes, header, body, Seq::empty()),
        ).0 is Ok,
        segment::read_segment(
            enveloped(segment_type.wire_code(), id_codes, header, body, Seq::empty()),
        ).1.len() == 0,
    ensures
        ({
            let s = opening(segment_type.wire_code(), id_codes, header, more) + body
                + before.flatten() + codes.flatten() + bad;
            &&& vs.len() < 2 ==> (sdnv::read_sdnv(bad).0 matches Err(e) ==> segment::read_segment(s)
                == (
                Err::<SegmentView, SegmentError>(SegmentError::Sdnv(e)),
                sdnv::read_sdnv(bad).1,
            ))
            &&& vs.len() == 2 && bad.len() < vs[1] ==> segment::read_segment(s) == (
                Err::<SegmentView, SegmentError>(SegmentError::Truncated),
                bad,
            )
        }),
{
    let end = codes.flatten() + bad;
    let after_body = before.flatten() + end;
    let start = opening(segment_type.wire_code(), id_codes, header, more);
    let s = start + body + before.flatten() + codes.flatten() + bad;
    lemma_plain_body(segment_type, id, id_codes, header, body);
    assert(s == start + (body + after_body));
    if vs.len() < 2 && sdnv::read_sdnv(bad).0 is Err {
        let e = sdnv::read_sdnv(bad).0->Err_0;
        lemma_read_numbers_fails(codes, vs, bad, e, 2);
        lemma_extensions_fail(before, end, more);
        lemma_trailer_error(
            segment_type,
            id,
            id_codes,
            header,
            body,
            more,
            after_body,
            SegmentError::Sdnv(e),
        );
    }
    if vs.len() == 2 && bad.len() < vs[1] {
        lemma_read_numbers(codes, vs, bad);
        lemma_extensions_fail(before, end, more);
        lemma_trailer_error(
            segment_type,
            id,
            id_codes,
            header,
            body,
            more,
            after_body,
            SegmentError::Truncated,
        );
    }
}

} // verus!
