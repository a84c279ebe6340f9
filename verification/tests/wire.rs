//! Numbers, frames and headers on the wire.

use dope_quic::frame::decode::FrameDecoder;
use dope_quic::frame::{Frame, FrameError};
use dope_quic::math::{next_power_of_two, saturating_mul};
use dope_quic::packet::long::{HandshakeHeader, InitialHeader, LongHeader, ParsedLong, ZeroRttHeader};
use dope_quic::packet::retry::{Retry, RetryRef};
use dope_quic::packet::{
    ConnectionId, ConnectionIdError, ConnectionIdRef, DecodeError, EncodeError, LongType,
    ShortHeader, ShortHeaderRef, QUIC_V1,
};
use dope_quic::varint::VarInt;
use dope_quic::wire::{get_be, put_be, same_bytes};

fn hex(text: &str) -> Vec<u8> {
    let digits: Vec<u8> = text
        .bytes()
        .map(|b| match b {
            b'0'..=b'9' => b - b'0',
            _ => b - b'a' + 10,
        })
        .collect();
    digits.chunks(2).map(|pair| pair[0] * 16 + pair[1]).collect()
}

fn number(value: u64) -> VarInt {
    VarInt::new(value).unwrap()
}

#[test]
fn varint_known_encodings() {
    for (bytes, value) in [
        ("c2197c5eff14e88c", 151_288_809_941_952_652u64),
        ("9d7f3e7d", 494_878_333),
        ("7bbd", 15_293),
        ("25", 37),
    ] {
        let wire = hex(bytes);
        let (decoded, used) = VarInt::decode(&wire).unwrap();
        assert_eq!(decoded.get(), value);
        assert_eq!(used, wire.len());
        let mut out = Vec::new();
        decoded.encode(&mut out);
        assert_eq!(out, wire);
        assert_eq!(decoded.encoded_len(), wire.len());
    }
}

#[test]
fn varint_need_not_be_shortest() {
    let (decoded, used) = VarInt::decode(&hex("4025")).unwrap();
    assert_eq!(decoded.get(), 37);
    assert_eq!(used, 2);
}

#[test]
fn varint_limits() {
    assert!(VarInt::new(0x3fff_ffff_ffff_ffff).is_some());
    assert!(VarInt::new(0x4000_0000_0000_0000).is_none());
    assert_eq!(VarInt::zero().get(), 0);
    assert_eq!(VarInt::from_usize(63).unwrap().encoded_len(), 1);
    assert_eq!(VarInt::from_usize(64).unwrap().encoded_len(), 2);
    assert!(VarInt::decode(&[]).is_err());
    assert!(VarInt::decode(&[0x40]).is_err());
}

#[test]
fn big_endian_round_trip() {
    let mut out = vec![9];
    put_be(&mut out, 0x0102_03, 3);
    assert_eq!(out, vec![9, 1, 2, 3]);
    assert_eq!(get_be(&out[1..]), 0x0102_03);
    assert!(same_bytes(&[1, 2], &[1, 2]));
    assert!(!same_bytes(&[1, 2], &[1, 3]));
    assert!(!same_bytes(&[1, 2], &[1]));
}

#[test]
fn arithmetic_stops_at_the_end() {
    assert_eq!(saturating_mul(3, 4), 12);
    assert_eq!(saturating_mul(u64::MAX, 2), u64::MAX);
    assert_eq!(next_power_of_two(0), Some(1));
    assert_eq!(next_power_of_two(5), Some(8));
    assert_eq!(next_power_of_two(8), Some(8));
    assert_eq!(next_power_of_two(usize::MAX), None);
}

fn encoded(frame: &Frame) -> Vec<u8> {
    let mut out = Vec::new();
    frame.encode(&mut out).unwrap();
    out
}

#[test]
fn frames_have_their_types() {
    let cases: Vec<(Frame, &str)> = vec![
        (Frame::Padding, "00"),
        (Frame::Ping, "01"),
        (Frame::HandshakeDone, "1e"),
        (Frame::MaxData { maximum_data: number(37) }, "1025"),
        (Frame::PathChallenge { data: [1, 2, 3, 4, 5, 6, 7, 8] }, "1a0102030405060708"),
        (Frame::PathResponse { data: [8, 7, 6, 5, 4, 3, 2, 1] }, "1b0807060504030201"),
        (Frame::RetireConnectionId { sequence_number: number(3) }, "1903"),
        (Frame::Crypto { offset: number(0), data: vec![0xaa, 0xbb] }, "060002aabb"),
    ];
    for (frame, wire) in cases {
        assert_eq!(encoded(&frame), hex(wire));
        let (decoded, used) = Frame::decode(&hex(wire)).unwrap();
        assert_eq!(used * 2, wire.len());
        assert_eq!(encoded(&decoded), hex(wire));
    }
}

#[test]
fn stream_frames_tell_their_fields_by_their_type() {
    let mut out = Vec::new();
    Frame::encode_stream(&mut out, number(4), number(0), false, true, &[1, 2]).unwrap();
    assert_eq!(out, hex("0a04020102"));
    let mut out = Vec::new();
    Frame::encode_stream(&mut out, number(4), number(16), true, false, &[1, 2]).unwrap();
    assert_eq!(out, hex("0d04100102"));
    let mut header = Vec::new();
    Frame::encode_stream_header(&mut header, number(4), number(16), true, None).unwrap();
    assert_eq!(header, hex("0d0410"));
    let (frame, used) = Frame::decode(&out).unwrap();
    assert_eq!(used, 5);
    match frame {
        Frame::Stream { stream_id, offset, fin, data, .. } => {
            assert_eq!(stream_id.get(), 4);
            assert_eq!(offset.get(), 16);
            assert!(fin);
            assert_eq!(data, vec![1, 2]);
        }
        other => panic!("{:?}", other),
    }
}

#[test]
fn acknowledgements_list_ranges() {
    let frame: Frame = Frame::Ack {
        largest: number(10),
        delay: number(5),
        first_range: number(2),
        additional_ranges: vec![(number(1), number(3))],
    };
    let wire = encoded(&frame);
    assert_eq!(wire, hex("020a0501020103"));
    let (decoded, used) = FrameDecoder::new(&wire).decode().unwrap();
    assert_eq!(used, wire.len());
    match decoded {
        Frame::Ack { largest, mut additional_ranges, .. } => {
            assert_eq!(largest.get(), 10);
            let (gap, len) = additional_ranges.next().unwrap();
            assert_eq!((gap.get(), len.get()), (1, 3));
            assert!(additional_ranges.next().is_none());
        }
        other => panic!("{:?}", other),
    }
}

#[test]
fn all_frames_of_a_packet() {
    let mut out = Vec::new();
    out.extend(encoded(&Frame::Ping));
    out.extend(encoded(&Frame::Padding));
    out.extend(encoded(&Frame::MaxData { maximum_data: number(1000) }));
    let frames = Frame::decode_all(&out).unwrap();
    assert_eq!(frames.len(), 2);
    assert!(matches!(frames[0], Frame::Ping));
    assert!(matches!(frames[1], Frame::MaxData { .. }));
    let (borrowed, used) = Frame::decode_ref(&out).unwrap();
    assert!(matches!(borrowed, Frame::Ping));
    assert_eq!(used, 1);
}

#[test]
fn frames_that_are_no_frames() {
    assert_eq!(Frame::decode(&[]).unwrap_err(), FrameError::Underflow);
    assert_eq!(Frame::decode(&[0x3f]).unwrap_err(), FrameError::BadType);
    assert_eq!(Frame::decode(&[0x06, 0x00, 0x05, 1]).unwrap_err(), FrameError::Underflow);
    assert_eq!(Frame::decode(&[0x10, 0x40]).unwrap_err(), FrameError::BadVarInt);
    assert!(Frame::decode(&hex("0201000001")).is_ok());
    assert!(Frame::decode(&hex("020100")).is_err());
    assert_eq!(Frame::decode(&hex("0201000002")).unwrap_err(), FrameError::InvalidAckRange);
    assert_eq!(FrameError::Underflow.message(), "truncated frame");
    assert_eq!(FrameError::BadVarInt.message(), "invalid frame integer");
    assert_eq!(FrameError::BadType.message(), "invalid frame type");
    assert_eq!(FrameError::InvalidAckRange.message(), "invalid ACK range");
}

#[test]
fn connection_ids_are_short() {
    let cid = ConnectionId::new(&[1, 2, 3]).unwrap();
    assert_eq!(cid.as_slice(), &[1, 2, 3]);
    assert_eq!(cid.len(), 3);
    assert!(!cid.is_empty());
    assert!(cid.same(&ConnectionId::new(&[1, 2, 3]).unwrap()));
    assert!(ConnectionId::default().is_empty());
    assert!(ConnectionId::new(&[0; 20]).is_some());
    assert!(ConnectionId::new(&[0; 21]).is_none());
    assert_eq!(ConnectionId::try_from_slice(&[0; 21]).unwrap_err(), ConnectionIdError::TooLong);
    assert!(ConnectionIdRef::new(&[0; 21]).is_err());
    assert_eq!(ConnectionIdRef::new(&[7]).unwrap().into_owned().to_vec(), vec![7]);
}

#[test]
fn long_packet_types() {
    assert_eq!(LongType::from_first_byte(0xc0).unwrap(), LongType::Initial);
    assert_eq!(LongType::from_first_byte(0xd0).unwrap(), LongType::ZeroRtt);
    assert_eq!(LongType::from_first_byte(0xe0).unwrap(), LongType::Handshake);
    assert_eq!(LongType::from_first_byte(0xf0).unwrap(), LongType::Retry);
    assert_eq!(LongType::from_first_byte(0x40).unwrap_err(), DecodeError::NotLongHeader);
    assert_eq!(LongType::Handshake.bits(), 0x20);
}

#[test]
fn initial_header_round_trip() {
    let header = InitialHeader {
        version: QUIC_V1,
        dcid: hex("8394c8f03e515708"),
        scid: vec![],
        token: vec![0x55],
        packet_number: 2,
        pn_len: 4,
    };
    let (wire, pn_offset) = header.encode_with_pn(1178).unwrap();
    assert_eq!(wire, hex("c300000001088394c8f03e5157080001" ).into_iter().chain(hex("55449e00000002")).collect::<Vec<u8>>());
    assert_eq!(pn_offset, wire.len() - 4);
    let mut padded = wire.clone();
    padded.resize(wire.len() + 1178, 0);
    let prefix = InitialHeader::decode_pre_hp(&padded).unwrap();
    assert_eq!(prefix.dcid.into_slice(), &header.dcid[..]);
    assert_eq!(prefix.token, &[0x55]);
    assert_eq!(prefix.pn_offset, pn_offset);
    assert_eq!(prefix.length, 1182);
    assert_eq!(ParsedLong::parse(padded).unwrap().kind(), LongType::Initial);
}

#[test]
fn other_long_headers_round_trip() {
    let handshake = HandshakeHeader {
        version: QUIC_V1,
        dcid: vec![1, 2],
        scid: vec![3],
        packet_number: 9,
        pn_len: 1,
    };
    let (mut wire, pn_offset) = handshake.encode_with_pn(20).unwrap();
    wire.resize(wire.len() + 20, 0);
    let prefix = HandshakeHeader::decode_pre_hp(&wire).unwrap();
    assert_eq!(prefix.pn_offset, pn_offset);
    assert_eq!(prefix.scid.into_slice(), &[3]);
    let early = ZeroRttHeader {
        version: QUIC_V1,
        dcid: vec![1, 2],
        scid: vec![3],
        packet_number: 9,
        pn_len: 1,
    };
    let (mut wire, _) = early.encode_with_pn(20).unwrap();
    wire.resize(wire.len() + 20, 0);
    assert!(ZeroRttHeader::decode_pre_hp(&wire).is_ok());
    assert_eq!(HandshakeHeader::decode_pre_hp(&wire).unwrap_err(), DecodeError::BadType);
    assert_eq!(InitialHeader::decode_pre_hp(&wire).unwrap_err(), DecodeError::BadType);
}

#[test]
fn headers_that_cannot_be_encoded() {
    let mut out = Vec::new();
    let header = LongHeader {
        version: QUIC_V1,
        kind: LongType::Handshake,
        dcid: &[0; 21],
        scid: &[],
        token: None,
        packet_number: 0,
        packet_number_len: 1,
    };
    assert_eq!(header.encode_into(&mut out, 16).unwrap_err(), EncodeError::CidTooLong);
    let header = LongHeader {
        version: QUIC_V1,
        kind: LongType::Handshake,
        dcid: &[],
        scid: &[],
        token: None,
        packet_number: 0,
        packet_number_len: 5,
    };
    assert_eq!(
        header.encode_into(&mut out, 16).unwrap_err(),
        EncodeError::InvalidPacketNumberLength
    );
    assert_eq!(EncodeError::ValueOutOfRange.message().is_empty(), false);
    assert_eq!(EncodeError::Crypto.message().is_empty(), false);
}

#[test]
fn short_header() {
    let header = ShortHeader { dcid: vec![1, 2, 3, 4], packet_number: 0x1234, pn_len: 2 };
    let (wire, pn_offset) = header.encode_with_pn().unwrap();
    assert_eq!(wire, hex("41010203041234"));
    assert_eq!(pn_offset, 5);
    assert_eq!(ShortHeader::pn_offset_for(4), 5);
    let mut out = Vec::new();
    let reference = ShortHeaderRef { dcid: &[1, 2, 3, 4], packet_number: 0x1234, pn_len: 0 };
    assert_eq!(reference.encode_into(&mut out).unwrap_err(), EncodeError::InvalidPacketNumberLength);
}

#[test]
fn long_headers_that_are_none() {
    assert_eq!(InitialHeader::decode_pre_hp(&[]).unwrap_err(), DecodeError::Underflow);
    assert_eq!(
        InitialHeader::decode_pre_hp(&hex("43000000010000")).unwrap_err(),
        DecodeError::NotLongHeader
    );
    assert_eq!(
        InitialHeader::decode_pre_hp(&hex("c3000000020000")).unwrap_err(),
        DecodeError::UnsupportedVersion
    );
    assert_eq!(
        InitialHeader::decode_pre_hp(&hex("c3000000011500")).unwrap_err(),
        DecodeError::BadCidLen
    );
    assert_eq!(
        InitialHeader::decode_pre_hp(&hex("e3000000010000")).unwrap_err(),
        DecodeError::BadType
    );
}

#[test]
fn retry_known_packet() {
    let wire = hex("ff000000010008f067a5502a4262b5746f6b656e04a265ba2eff4d829058fb3f0f2496ba");
    let odcid = hex("8394c8f03e515708");
    let retry = RetryRef::decode(&wire).unwrap();
    assert_eq!(retry.version(), QUIC_V1);
    assert_eq!(retry.token(), b"token");
    assert_eq!(retry.source_connection_id().into_slice(), &hex("f067a5502a4262b5")[..]);
    assert_eq!(retry.destination_connection_id().len(), 0);
    assert_eq!(&retry.integrity_tag()[..], &hex("04a265ba2eff4d829058fb3f0f2496ba")[..]);
    let tag = Retry::compute_tag(&odcid, &wire[..wire.len() - 16]).unwrap();
    assert_eq!(tag, retry.integrity_tag());
    let mut storage = Vec::new();
    let verified = retry
        .verify_into(
            ConnectionIdRef::new(&odcid).unwrap(),
            ConnectionIdRef::new(&[]).unwrap(),
            &mut storage,
        )
        .unwrap()
        .unwrap();
    assert_eq!(verified.token(), b"token");
}

#[test]
fn retry_for_another_connection_is_refused() {
    let wire = hex("ff000000010008f067a5502a4262b5746f6b656e04a265ba2eff4d829058fb3f0f2496ba");
    let retry = RetryRef::decode(&wire).unwrap();
    let mut storage = Vec::new();
    let verified = retry
        .verify_into(
            ConnectionIdRef::new(&[1, 2]).unwrap(),
            ConnectionIdRef::new(&[]).unwrap(),
            &mut storage,
        )
        .unwrap();
    assert!(verified.is_none());
}

#[test]
fn retry_round_trip() {
    let mut retry = Retry {
        version: QUIC_V1,
        dcid: vec![1, 2],
        scid: vec![3, 4, 5],
        token: vec![6; 30],
        integrity_tag: [0; 16],
    };
    retry.integrity_tag = retry.compute_integrity_tag(&[9, 9]).unwrap();
    let wire = retry.encode().unwrap();
    let decoded = RetryRef::decode(&wire).unwrap();
    assert_eq!(decoded.token(), &[6; 30]);
    assert_eq!(decoded.integrity_tag(), retry.integrity_tag);
    assert_eq!(wire.len(), 7 + 2 + 3 + 30 + 16);
}
