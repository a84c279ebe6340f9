//! Packets that a connection sends.

use dope_quic::conn::control::{Control, Pending};
use dope_quic::conn::streams::limits::{InitialCredit, Params};
use dope_quic::conn::streams::state::{Setup, State};
use dope_quic::conn::transmit::batch::{Batch, Emission};
use dope_quic::conn::transmit::connection::{
    CongestionControl, Connection, Egress, Epochs, PendingClose, WriteKeys,
};
use dope_quic::conn::transmit::crypto::{CryptoStream, Epoch, Fate};
use dope_quic::conn::transmit::draft::Draft;
use dope_quic::conn::transmit::eligibility::Cargo;
use dope_quic::conn::transmit::packets::Packets;
use dope_quic::conn::transmit::path::Path;
use dope_quic::conn::transmit::room::{crypto_data_limit, number_len, short_payload_limit};
use dope_quic::frame::Frame;
use dope_quic::new_reno::NewReno;
use dope_quic::pacer::Pacer;
use dope_quic::packet::long::ParsedLong;
use dope_quic::packet::ConnectionId;
use dope_quic::packet_protection::PacketProtection;
use dope_quic::pmtud::Pmtud;
use dope_quic::pn_space::{PnSpace, Receive};
use dope_quic::qkdf::{InitialSecrets, PacketKeys};
use dope_quic::rtt::RttTracker;

fn keys(seed: u8) -> PacketKeys {
    let secrets = InitialSecrets::from_dcid(&[seed; 8]).unwrap();
    PacketKeys::aes_128(&secrets.client).unwrap()
}

fn protection(seed: u8) -> PacketProtection {
    PacketProtection::aes_128(&keys(seed)).unwrap()
}

fn params() -> Option<Params> {
    Some(Params {
        initial_max_stream_data_bidi_local: 100_000,
        initial_max_stream_data_bidi_remote: 100_000,
        initial_max_stream_data_uni: 100_000,
    })
}

fn connection(is_client: bool) -> Connection {
    let mut streams = State::new(Setup {
        is_client,
        local_bidi_capacity: 8,
        local_uni_capacity: 8,
        initial_max_bidi: 8,
        initial_max_uni: 8,
        local_max_data: 100_000,
        local_initial_stream_data: InitialCredit { bidi_local: 1000, bidi_remote: 1000, uni: 1000 },
        stream_journal_capacity: 64,
        receive_segment_capacity: 64,
    });
    streams.set_peer_max_streams(false, 8);
    let mut control = Pending::new(32);
    streams.raise_data_credit(100_000, &mut control);
    Connection {
        is_client,
        peer_params_known: true,
        path: Path {
            peer_cid: ConnectionId::new(&[1; 8]).unwrap(),
            local_cid: ConnectionId::new(&[2; 8]).unwrap(),
            retry_token: vec![],
            local_cids: vec![],
            challenge: None,
        },
        keys: WriteKeys {
            epochs: Epochs { initial: None, handshake: None, application: Some(protection(3)) },
            zero_rtt: None,
        },
        crypto: Epochs {
            initial: CryptoStream::new(16),
            handshake: CryptoStream::new(16),
            application: CryptoStream::new(16),
        },
        received: Epochs {
            initial: Receive::default(),
            handshake: Receive::default(),
            application: Receive::default(),
        },
        streams,
        control,
        egress: Egress {
            closed: false,
            spaces: Epochs {
                initial: PnSpace::default(),
                handshake: PnSpace::default(),
                application: PnSpace::default(),
            },
            cc: NewReno::default(),
            pacer: Pacer::new(0),
            rtt: RttTracker::default(),
            pmtud: Pmtud::new(1200),
            pmtud_probe_pn: None,
            pto_probe_allowance: 0,
            pto_probe_epoch: None,
            amplification_received: 0,
            amplification_sent: 0,
            peer_address_validated: true,
            pending_datagrams: vec![],
            datagram_congestion_control: CongestionControl::Standard,
            pending_close: None,
            last_activity: 0,
            ack_eliciting_sent_since_last_receive: false,
            sent_initial: false,
            packets: Packets::new(64, 64, 64),
            owed: vec![],
        },
    }
}

fn opened(packet: &[u8], expected: u64) -> Vec<Frame> {
    let mut bytes = packet.to_vec();
    let (_, start, end) = protection(3).decrypt_short_in_place(&mut bytes, 9, expected).unwrap();
    Frame::decode_all(&bytes[start..end]).unwrap()
}

#[test]
fn idle_connection_sends_nothing() {
    let mut conn = connection(true);
    assert!(!conn.has_pending_output());
    assert!(Emission::new(&mut conn).send(100).is_empty());
    assert_eq!(conn.send_deadline(100, Some(500)), None);
}

#[test]
fn stream_bytes_go_out_in_a_packet() {
    let mut conn = connection(true);
    let id = conn.streams.open_local(false, params(), true, true).unwrap();
    conn.streams.send_bytes(id, b"hello", params(), true, true).unwrap();
    assert!(conn.has_pending_output() && conn.has_sendable_output());
    let packets = Emission::new(&mut conn).send(100);
    assert_eq!(packets.len(), 1);
    let frames = opened(&packets[0], 0);
    let found = frames.iter().any(|frame| match frame {
        Frame::Stream { stream_id, offset, data, fin, .. } => {
            stream_id.get() == id && offset.get() == 0 && data == b"hello" && !fin
        }
        _ => false,
    });
    assert!(found);
    assert_eq!(conn.egress.spaces.application.next_pn, 1);
    assert_eq!(conn.egress.cc.bytes_in_flight, packets[0].len() as u64);
    assert!(Emission::new(&mut conn).send(100).is_empty());
}

#[test]
fn long_streams_are_cut_into_packets() {
    let mut conn = connection(true);
    let id = conn.streams.open_local(false, params(), true, true).unwrap();
    conn.streams.send_bytes(id, &[9; 3000], params(), true, true).unwrap();
    conn.streams.send_fin(id, params(), true, true).unwrap();
    let mut batch = Batch::default();
    Emission::new(&mut conn).send_batch(&mut batch, 100, 8, 1200);
    assert_eq!(batch.packets.len(), 3);
    let mut bytes = 0;
    let mut ended = false;
    for (number, packet) in batch.packets.iter().enumerate() {
        assert!(packet.len() <= 1200);
        for frame in opened(packet, number as u64) {
            if let Frame::Stream { data, fin, .. } = frame {
                bytes += data.len();
                ended = ended || fin;
            }
        }
    }
    assert_eq!(bytes, 3000);
    assert!(ended);
}

#[test]
fn one_packet_at_a_time() {
    let mut conn = connection(true);
    let id = conn.streams.open_local(false, params(), true, true).unwrap();
    conn.streams.send_bytes(id, &[9; 3000], params(), true, true).unwrap();
    assert!(Emission::new(&mut conn).send_one(100, 1200).is_some());
    assert!(conn.has_pending_output());
    assert!(Emission::new(&mut conn).send_one(100, 1200).is_some());
    assert!(Emission::new(&mut conn).send_one(100, 1200).is_some());
    assert!(Emission::new(&mut conn).send_one(100, 1200).is_none());
}

#[test]
fn received_packets_are_acknowledged() {
    let mut conn = connection(true);
    for pn in 0..3 {
        let fresh = conn.received.application.accept(pn).unwrap();
        conn.received.application.commit(fresh, true, 50);
    }
    let packets = Emission::new(&mut conn).send(100);
    assert_eq!(packets.len(), 1);
    let frames = opened(&packets[0], 0);
    assert!(frames.iter().any(|frame| matches!(frame, Frame::Ack { largest, first_range, .. }
        if largest.get() == 2 && first_range.get() == 2)));
    assert!(!conn.received.application.ack_pending());
}

#[test]
fn control_records_become_frames() {
    let mut conn = connection(false);
    conn.control.queue(Control::MaxData { limit: 777 });
    conn.control.queue(Control::HandshakeDone);
    let packets = Emission::new(&mut conn).send(100);
    let frames = opened(&packets[0], 0);
    assert!(frames.iter().any(|f| matches!(f, Frame::HandshakeDone)));
    assert!(frames.iter().any(|f| matches!(f, Frame::MaxData { maximum_data } if maximum_data.get() == 777)));
    assert!(conn.control.is_empty());
}

#[test]
fn client_initial_fills_a_datagram() {
    let mut conn = connection(true);
    conn.keys.epochs.application = None;
    conn.keys.epochs.initial = Some(protection(5));
    conn.crypto.initial.queue(&[7; 300]);
    let packets = Emission::new(&mut conn).send(100);
    assert_eq!(packets.len(), 1);
    assert_eq!(packets[0].len(), 1200);
    let opened = ParsedLong::parse(packets[0].clone()).unwrap().decrypt(&protection(5), 0).unwrap();
    let frames = Frame::decode_all(opened.body()).unwrap();
    assert!(frames.iter().any(|f| matches!(f, Frame::Crypto { offset, data }
        if offset.get() == 0 && data == &vec![7; 300])));
}

#[test]
fn server_keeps_to_three_times_what_came() {
    let mut conn = connection(false);
    conn.egress.peer_address_validated = false;
    conn.egress.amplification_received = 100;
    conn.keys.epochs.application = None;
    conn.keys.epochs.initial = Some(protection(5));
    conn.crypto.initial.queue(&[7; 3000]);
    assert_eq!(conn.anti_amplification_remaining(), 300);
    let packets = Emission::new(&mut conn).send(100);
    let total: usize = packets.iter().map(|p| p.len()).sum();
    assert!(total <= 300);
    assert!(conn.egress.amplification_sent <= 300);
    assert_eq!(conn.emission_ceiling(1200).map_or(0, |c| c), (300 - total).min(1200));
}

#[test]
fn close_is_told_and_ends_sending() {
    let mut conn = connection(true);
    conn.egress.pending_close = Some(PendingClose {
        is_application: true,
        error_code: 5,
        frame_type: 0,
        reason: b"bye".to_vec(),
    });
    let packets = Emission::new(&mut conn).send(100);
    assert_eq!(packets.len(), 1);
    let frames = opened(&packets[0], 0);
    assert!(frames.iter().any(|f| matches!(f, Frame::ConnectionClose { error_code, reason, .. }
        if error_code.get() == 5 && reason == b"bye")));
    assert!(conn.egress.closed);
    assert!(Emission::new(&mut conn).send(200).is_empty());
}

#[test]
fn congestion_holds_streams_back() {
    let mut conn = connection(true);
    conn.egress.cc.bytes_in_flight = conn.egress.cc.cwnd;
    let id = conn.streams.open_local(false, params(), true, true).unwrap();
    conn.streams.send_bytes(id, &[9; 10], params(), true, true).unwrap();
    assert!(Emission::new(&mut conn).send(100).is_empty());
    assert!(!conn.allows_emit_for(Cargo::DatagramOnly, 100));
    assert_eq!(conn.send_deadline(100, Some(900)), Some(900));
}

#[test]
fn datagrams_go_out_whole() {
    let mut conn = connection(true);
    conn.egress.pending_datagrams.push(vec![4; 50]);
    let packets = Emission::new(&mut conn).send(100);
    assert_eq!(packets.len(), 1);
    let frames = opened(&packets[0], 0);
    assert!(frames.iter().any(|f| matches!(f, Frame::Datagram { data, .. } if data == &vec![4; 50])));
    assert!(conn.egress.pending_datagrams.is_empty());
}

#[test]
fn handshake_bytes_are_sent_again_when_lost() {
    let mut stream = CryptoStream::new(4);
    stream.queue(&[1, 2, 3, 4]);
    let first = stream.peek_crypto_chunk(100).unwrap();
    assert_eq!((first.offset, first.len), (0, 4));
    assert_eq!(stream.data(&first), &[1, 2, 3, 4]);
    let record = stream.commit(first).unwrap();
    assert!(!stream.has_sendable());
    stream.settle(record, Fate::Lost);
    let again = stream.peek_crypto_chunk(100).unwrap();
    assert_eq!((again.offset, again.len), (0, 4));
    stream.commit(again);
    stream.settle(record, Fate::Acknowledged);
    assert!(!stream.has_sendable());
}

#[test]
fn rooms() {
    assert_eq!(number_len(63), 1);
    assert_eq!(number_len(64), 2);
    assert_eq!(number_len(16_384), 4);
    assert_eq!(short_payload_limit(8, 1200), 1200 - 1 - 8 - 4 - 16);
    assert!(crypto_data_limit(0, 100) < 100);
    assert!(matches!(Epoch::Initial, Epoch::Initial));
}

#[test]
fn packets_keep_to_their_ceiling() {
    for ceiling in [60, 300, 777, 1200] {
        let mut conn = connection(true);
        let id = conn.streams.open_local(false, params(), true, true).unwrap();
        conn.streams.send_bytes(id, &[9; 3000], params(), true, true).unwrap();
        conn.control.queue(Control::MaxData { limit: 777 });
        conn.egress.pending_datagrams.push(vec![4; 500]);
        let mut batch = Batch::default();
        Emission::new(&mut conn).send_batch(&mut batch, 100, 8, ceiling);
        assert!(!batch.packets.is_empty());
        assert!(batch.packets.iter().all(|packet| packet.len() <= ceiling));
    }
}

#[test]
fn all_packets_together_keep_to_the_allowance() {
    for received in [10, 50, 100, 500] {
        let mut conn = connection(false);
        conn.egress.peer_address_validated = false;
        conn.egress.amplification_received = received;
        conn.egress.amplification_sent = 20;
        let id = conn.streams.open_local(false, params(), false, true).unwrap();
        conn.streams.send_bytes(id, &[9; 3000], params(), false, true).unwrap();
        let packets = Emission::new(&mut conn).send(100);
        let total: usize = packets.iter().map(|packet| packet.len()).sum();
        assert!(total as u64 + 20 <= 3 * received);
        assert_eq!(conn.egress.amplification_sent, 20 + total as u64);
    }
}

#[test]
fn early_data_goes_under_its_own_key() {
    let mut conn = connection(true);
    conn.keys.epochs.application = None;
    conn.keys.zero_rtt = Some(protection(7));
    let id = conn.streams.open_local(false, params(), true, true).unwrap();
    conn.streams.send_bytes(id, b"early", params(), true, true).unwrap();
    let packets = Emission::new(&mut conn).send(100);
    assert_eq!(packets.len(), 1);
    let opened = ParsedLong::parse(packets[0].clone()).unwrap().decrypt(&protection(7), 0).unwrap();
    let frames = Frame::decode_all(opened.body()).unwrap();
    assert!(frames.iter().any(|f| matches!(f, Frame::Stream { data, .. } if data == b"early")));
    assert_eq!(conn.egress.spaces.application.next_pn, 1);
}

#[test]
fn probes_send_once_more_what_is_in_flight() {
    let mut conn = connection(true);
    let id = conn.streams.open_local(false, params(), true, true).unwrap();
    conn.streams.send_bytes(id, b"again", params(), true, true).unwrap();
    assert_eq!(Emission::new(&mut conn).send(100).len(), 1);
    assert!(Emission::new(&mut conn).send(100).is_empty());
    conn.egress.pto_probe_allowance = 1;
    conn.egress.pto_probe_epoch = Some(Epoch::Application);
    conn.streams.arm_probes();
    let packets = Emission::new(&mut conn).send(100);
    assert_eq!(packets.len(), 1);
    let frames = opened(&packets[0], 1);
    assert!(frames.iter().any(|f| matches!(f, Frame::Stream { data, .. } if data == b"again")));
    assert_eq!(conn.egress.pto_probe_allowance, 0);
    assert_eq!(conn.egress.pto_probe_epoch, None);
}

#[test]
fn probes_are_a_sign_of_life() {
    let mut conn = connection(true);
    conn.egress.pto_probe_allowance = 2;
    conn.egress.pto_probe_epoch = Some(Epoch::Application);
    let packets = Emission::new(&mut conn).send(100);
    assert_eq!(packets.len(), 2);
    for (number, packet) in packets.iter().enumerate() {
        let frames = opened(packet, number as u64);
        assert!(frames.iter().any(|f| matches!(f, Frame::Ping)));
    }
}

#[test]
fn credit_of_the_peer_is_kept() {
    let mut conn = connection(true);
    let few = Some(Params {
        initial_max_stream_data_bidi_local: 0,
        initial_max_stream_data_bidi_remote: 10,
        initial_max_stream_data_uni: 0,
    });
    let id = conn.streams.open_local(false, few, true, true).unwrap();
    conn.streams.send_bytes(id, &[9; 50], few, true, true).unwrap();
    let packets = Emission::new(&mut conn).send(100);
    let mut sent = 0;
    for (number, packet) in packets.iter().enumerate() {
        for frame in opened(packet, number as u64) {
            if let Frame::Stream { offset, data, .. } = frame {
                assert!(offset.get() + data.len() as u64 <= 10);
                sent += data.len();
            }
        }
    }
    assert_eq!(sent, 10);
}

#[test]
fn acknowledgement_says_what_was_received() {
    let mut receive = Receive::default();
    for pn in [5, 6, 9, 2] {
        let fresh = receive.accept(pn).unwrap();
        receive.commit(fresh, true, 10);
    }
    let mut draft = Draft::new(100);
    assert!(draft.append_ack_frame(&receive));
    assert_eq!(draft.frames, vec![2, 9, 0, 2, 0, 1, 1, 1, 0]);
    let mut narrow = Draft::new(7);
    assert!(narrow.append_ack_frame(&receive));
    assert_eq!(narrow.frames, vec![2, 9, 0, 1, 0, 1, 1]);
    let mut none = Draft::new(4);
    assert!(!none.append_ack_frame(&receive));
    assert!(none.frames.is_empty());
}

#[test]
fn no_more_packets_go_out_than_may() {
    for most in 0..4 {
        let mut conn = connection(true);
        let id = conn.streams.open_local(false, params(), true, true).unwrap();
        conn.streams.send_bytes(id, &[9; 6000], params(), true, true).unwrap();
        let mut out = Vec::new();
        conn.fill_batch(&mut out, 100, most, 1200);
        assert_eq!(out.len(), most);
    }
}

#[test]
fn probes_of_application_data_keep_to_their_ceiling() {
    let mut conn = connection(true);
    let id = conn.streams.open_local(false, params(), true, true).unwrap();
    conn.streams.send_bytes(id, &[9; 900], params(), true, true).unwrap();
    assert!(!Emission::new(&mut conn).send(100).is_empty());
    conn.egress.pto_probe_allowance = 2;
    conn.egress.pto_probe_epoch = Some(Epoch::Application);
    conn.streams.arm_probes();
    let mut batch = Batch::default();
    Emission::new(&mut conn).send_batch(&mut batch, 200, 4, 300);
    assert!(!batch.packets.is_empty());
    assert!(batch.packets.iter().all(|packet| packet.len() <= 300));
}
