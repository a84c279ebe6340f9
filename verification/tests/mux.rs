//! Many connections over one socket.

use dope_quic::conn::control::Pending;
use dope_quic::conn::streams::limits::{InitialCredit, Params};
use dope_quic::conn::streams::state::{Event, Setup, State};
use dope_quic::conn::transmit::connection::{
    CongestionControl, Connection, DatagramLimits, Egress, Epochs, WriteKeys,
};
use dope_quic::conn::transmit::crypto::CryptoStream;
use dope_quic::conn::transmit::packets::Packets;
use dope_quic::conn::transmit::path::Path;
use dope_quic::errors::{ConnectError, TrySendError};
use dope_quic::mux::cid_table::{CidLink, CidTable, LocalCidKey};
use dope_quic::mux::deadlines::Deadlines;
use dope_quic::mux::output::{
    coalesce_gso, gso_is_usable, gso_packet_limit, GsoLimits, Outgoing, Storage,
};
use dope_quic::mux::registry::Registry;
use dope_quic::mux::reset_index::ResetIndex;
use dope_quic::mux::router::drive::{FlushRound, Notice, Step};
use dope_quic::mux::router::gate::{Error, RetryGate, Routed};
use dope_quic::mux::router::queue::{Drawn, Queue};
use dope_quic::mux::router::slots::RouteUpdate;
use dope_quic::mux::router::{DrivePhase, Router, Slot};
use dope_quic::mux::setup::{
    dcid, is_initial, reset_blank, reset_drawn, stateless_reset_into, Limits, ServerConfig,
};
use dope_quic::mux::turns::Turns;
use dope_quic::mux::Handle;
use dope_quic::new_reno::NewReno;
use dope_quic::pacer::Pacer;
use dope_quic::packet::long::InitialHeader;
use dope_quic::packet::retry::RetryRef;
use dope_quic::packet::{ConnectionId, ConnectionIdRef, QUIC_V1};
use dope_quic::packet_protection::PacketProtection;
use dope_quic::pmtud::Pmtud;
use dope_quic::pn_space::{PnSpace, Receive};
use dope_quic::qkdf::{InitialSecrets, PacketKeys};
use dope_quic::rtt::RttTracker;
use dope_quic::secrets::{PeerAddress, RetryTokenSecret, StatelessResetSecret};

const SEEDS: [[u8; 32]; 3] = [[1; 32], [2; 32], [3; 32]];

fn addr(port: u16) -> PeerAddress {
    PeerAddress::V4 { ip: [127, 0, 0, 1], port }
}

fn params() -> Option<Params> {
    Some(Params {
        initial_max_stream_data_bidi_local: 100_000,
        initial_max_stream_data_bidi_remote: 100_000,
        initial_max_stream_data_uni: 100_000,
    })
}

fn connection() -> Connection {
    let mut streams = State::new(Setup {
        is_client: true,
        local_bidi_capacity: 8,
        local_uni_capacity: 8,
        initial_max_bidi: 8,
        initial_max_uni: 8,
        local_max_data: 100_000,
        local_initial_stream_data: InitialCredit { bidi_local: 1000, bidi_remote: 1000, uni: 1000 },
        stream_journal_capacity: 64,
        receive_segment_capacity: 64,
    });
    streams.set_peer_max_streams(false, 8);
    let mut control = Pending::new(32);
    streams.raise_data_credit(100_000, &mut control);
    let secrets = InitialSecrets::from_dcid(&[1; 8]).unwrap();
    let keys = PacketKeys::aes_128(&secrets.client).unwrap();
    Connection {
        is_client: true,
        peer_params_known: true,
        path: Path {
            peer_cid: ConnectionId::new(&[1; 8]).unwrap(),
            local_cid: ConnectionId::new(&[2; 8]).unwrap(),
            retry_token: vec![],
            local_cids: vec![],
            challenge: None,
        },
        keys: WriteKeys {
            epochs: Epochs {
                initial: None,
                handshake: None,
                application: Some(PacketProtection::aes_128(&keys).unwrap()),
            },
            zero_rtt: None,
        },
        crypto: Epochs {
            initial: CryptoStream::new(16),
            handshake: CryptoStream::new(16),
            application: CryptoStream::new(16),
        },
        received: Epochs {
            initial: Receive::default(),
            handshake: Receive::default(),
            application: Receive::default(),
        },
        streams,
        control,
        egress: Egress {
            closed: false,
            spaces: Epochs {
                initial: PnSpace::default(),
                handshake: PnSpace::default(),
                application: PnSpace::default(),
            },
            cc: NewReno::default(),
            pacer: Pacer::new(0),
            rtt: RttTracker::default(),
            pmtud: Pmtud::new(1200),
            pmtud_probe_pn: None,
            pto_probe_allowance: 0,
            pto_probe_epoch: None,
            amplification_received: 0,
            amplification_sent: 0,
            peer_address_validated: true,
            pending_datagrams: vec![],
            datagram_congestion_control: CongestionControl::Standard,
            pending_close: None,
            last_activity: 0,
            ack_eliciting_sent_since_last_receive: false,
            sent_initial: false,
            packets: Packets::new(64, 64, 64),
            owed: vec![],
        },
    }
}

fn slot(port: u16) -> Slot<u32> {
    Slot::new(connection(), port as u32, addr(port), 1200)
}

fn limits(max_connections: usize) -> Limits {
    Limits { max_connections, outgoing_capacity: 16, outgoing_bytes_capacity: 20_000 }
}

fn router(max_connections: usize, server: Option<ServerConfig>) -> Router<u32> {
    Router::new(limits(max_connections), server, SEEDS).unwrap()
}

fn server_config() -> ServerConfig {
    ServerConfig {
        require_address_validation: true,
        retry_token_secret: Some([9; 32]),
        stateless_reset_secret: Some([8; 32]),
        cid_prefix: Some(0x77),
        max_pmtu: 1400,
    }
}

fn key(slot: usize) -> LocalCidKey {
    LocalCidKey { slot, sequence_number: slot as u64 }
}

fn cid(byte: u8) -> ConnectionId {
    ConnectionId::new(&[byte; 8]).unwrap()
}

fn client_initial(token: Vec<u8>) -> Vec<u8> {
    let header = InitialHeader {
        version: QUIC_V1,
        dcid: vec![0xd1; 8],
        scid: vec![0x51; 4],
        token,
        packet_number: 0,
        pn_len: 4,
    };
    let (mut wire, _) = header.encode_with_pn(1100).unwrap();
    wire.resize(wire.len() + 1100, 0);
    wire
}

#[test]
fn limits_are_in_range() {
    assert!(Limits::new().validate().is_ok());
    assert_eq!(Limits::new().max_connections, 1024);
    for bad in [
        Limits { max_connections: 0, ..Limits::new() },
        Limits { max_connections: 65_537, ..Limits::new() },
        Limits::new().outgoing_capacity(0),
        Limits::new().outgoing_capacity(65_537),
        Limits::new().outgoing_limits(1, 0),
        Limits::new().outgoing_limits(1, (1 << 30) + 1),
    ] {
        assert_eq!(bad.validate().unwrap_err(), ConnectError::InvalidConfig);
        assert!(Router::<u32>::new(bad, None, SEEDS).is_err());
    }
}

#[test]
fn links_hold_their_parts() {
    let link = CidLink::new(65_535, 9).unwrap();
    assert_eq!(link.index(), 65_535);
    assert_eq!(link.ordinal(), 9);
    assert!(CidLink::new(65_536, 0).is_none());
    assert!(CidLink::new(0, 16).is_none());
}

#[test]
fn connection_ids_lead_to_connections() {
    let mut table = CidTable::new(4, 4, [5; 32]);
    assert!(table.register(2, 0, cid(1), Some(key(0))));
    assert!(table.register(2, 0, cid(1), Some(key(0))));
    assert!(!table.register(3, 0, cid(1), Some(key(0))));
    assert!(!table.register(2, 0, cid(2), Some(key(0))));
    assert!(!table.register(2, 10, cid(2), None));
    assert!(table.register(1, 9, cid(3), None));
    assert_eq!(table.find(&[1; 8]), Some((2, Some(key(0)))));
    assert_eq!(table.find(&[3; 8]), Some((1, None)));
    assert_eq!(table.find(&[4; 8]), None);
    assert_eq!(table.free_alias(1), Some(8));
    assert!(!table.unregister(2, 0, Some(key(1))));
    assert!(table.unregister(2, 0, Some(key(0))));
    assert_eq!(table.find(&[1; 8]), None);
    assert_eq!(table.find(&[3; 8]), Some((1, None)));
}

#[test]
fn reset_tokens_lead_to_connections() {
    let mut index = ResetIndex::with_connection_capacity(1, [1; 32], [2; 32]);
    let one = Handle { index: 0, generation: 0 };
    let other = Handle { index: 0, generation: 1 };
    assert!(index.insert([1; 16], one));
    assert!(index.insert([1; 16], one));
    assert!(!index.insert([1; 16], other));
    assert_eq!(index.get([1; 16]), Some(one));
    assert_eq!(index.get([2; 16]), None);
    assert_eq!(index.len(), 1);
    assert!(!index.remove([1; 16], other));
    assert!(index.remove([1; 16], one));
    assert_eq!(index.len(), 0);
}

#[test]
fn reset_index_is_full_at_last() {
    let mut index = ResetIndex::with_connection_capacity(1, [1; 32], [2; 32]);
    let handle = Handle { index: 0, generation: 0 };
    let taken = (0..=255u8).filter(|byte| index.insert([*byte; 16], handle)).count();
    assert_eq!(taken, index.len());
    assert!(taken <= 16);
    assert!(taken >= 8);
}

#[test]
fn turns_come_in_order_and_once() {
    let mut turns = Turns::new(4);
    assert!(turns.push_back(2));
    assert!(turns.push_back(0));
    assert!(!turns.push_back(2));
    assert!(turns.push_back(3));
    assert_eq!(turns.len(), 3);
    assert!(turns.remove(0));
    assert!(!turns.remove(0));
    assert_eq!(turns.pop_front(), Some(2));
    assert_eq!(turns.pop_front(), Some(3));
    assert_eq!(turns.pop_front(), None);
}

#[test]
fn earliest_deadline_first() {
    let mut deadlines = Deadlines::new(4);
    assert!(deadlines.set(0, 50));
    assert!(deadlines.set(1, 30));
    assert!(deadlines.set(2, 40));
    assert!(!deadlines.set(4, 10));
    assert_eq!(deadlines.peek(), Some((1, 30)));
    assert!(deadlines.set(1, 60));
    assert_eq!(deadlines.peek(), Some((2, 40)));
    assert_eq!(deadlines.remove(2), Some(40));
    assert_eq!(deadlines.remove(2), None);
    deadlines.grow_to(5);
    assert!(deadlines.set(4, 10));
    assert_eq!(deadlines.peek(), Some((4, 10)));
}

#[test]
fn output_is_bounded_and_in_order() {
    let mut storage = Storage::new(3, 100);
    assert!(storage.is_empty() && storage.has_outgoing_room());
    assert!(storage.push_or_recycle(Outgoing::Plain(addr(1), vec![1; 40])));
    assert!(storage.push_or_recycle(Outgoing::Batch(addr(2), vec![2; 25], 20)));
    assert_eq!(storage.len(), 3);
    assert_eq!(storage.bytes(), 65);
    assert!(!storage.has_outgoing_room());
    assert!(!storage.push_or_recycle(Outgoing::Plain(addr(3), vec![3; 1])));
    let first = storage.pop().unwrap();
    assert_eq!(first.payload(), &[1; 40]);
    assert!(!storage.packet_fits(36 + 40, 1200));
    assert!(storage.packet_fits(75, 1200));
    assert!(storage.push_front(first).is_ok());
    assert_eq!(storage.pop().unwrap().bytes(), 40);
    let second = storage.pop().unwrap();
    assert_eq!(second.packets(), 2);
    assert!(second.addr().same(&addr(2)));
    assert!(storage.pop().is_none());
    assert!(storage.take_packet(10).unwrap().is_empty());
}

#[test]
fn suffix_goes_without_what_is_before_it() {
    let item = Outgoing::Suffix(addr(1), vec![1, 2, 3, 4], 1);
    assert_eq!(item.payload(), &[2, 3, 4]);
    assert_eq!(item.bytes(), 3);
    assert_eq!(item.packets(), 1);
    assert_eq!(item.into_storage(), vec![1, 2, 3, 4]);
}

#[test]
fn places_are_used_again_under_another_generation() {
    let mut registry = Registry::new(2);
    let first = registry.insert('a').unwrap();
    let second = registry.insert('b').unwrap();
    assert_eq!((first.index, second.index), (0, 1));
    assert_eq!(registry.insert('c').unwrap_err(), 'c');
    assert_eq!(registry.active(), 2);
    assert_eq!(registry.remove(0), 'a');
    let third = registry.insert('d').unwrap();
    assert_eq!((third.index, third.generation), (0, 1));
    assert_eq!(registry.handle_index(first), None);
    assert_eq!(registry.handle_index(third), Some(0));
    assert_eq!(*registry.value_ref(0), 'd');
}

#[test]
fn new_places_are_used_first() {
    let mut registry = Registry::new(1);
    registry.insert('a').unwrap();
    registry.remove(0);
    registry.resize(3);
    assert_eq!(registry.insert('b').unwrap().index, 1);
    assert_eq!(registry.insert('c').unwrap().index, 2);
    assert_eq!(registry.insert('d').unwrap().index, 0);
}

#[test]
fn phases_go_round() {
    let mut phase = DrivePhase::Notify;
    for expected in [
        DrivePhase::Deadline,
        DrivePhase::Reap,
        DrivePhase::Flush,
        DrivePhase::Notify,
    ] {
        phase = phase.next();
        assert_eq!(phase, expected);
    }
}

#[test]
fn connection_id_of_a_datagram() {
    assert!(is_initial(&[0xc3]));
    assert!(is_initial(&[0x80]));
    assert!(!is_initial(&[0xe3]));
    assert!(!is_initial(&[]));
    assert_eq!(dcid(&[0x40, 1, 2, 3], 3), Some(&[1u8, 2, 3][..]));
    assert_eq!(dcid(&[0x40, 1, 2], 3), None);
    assert_eq!(dcid(&[0xc0, 0, 0, 0, 1, 2, 7, 8, 9], 3), Some(&[7u8, 8][..]));
    assert_eq!(dcid(&[0xc0, 0, 0, 0, 1, 4, 7, 8, 9], 3), None);
    assert_eq!(dcid(&[], 3), None);
}

#[test]
fn stateless_reset_looks_like_a_short_packet() {
    let mut one = Vec::new();
    let mut other = Vec::new();
    assert!(stateless_reset_into(&mut one, [7; 16], 40));
    assert!(stateless_reset_into(&mut other, [7; 16], 40));
    assert_eq!(one.len(), 40);
    assert_eq!(one[0] & 0xc0, 0x40);
    assert_eq!(&one[24..], &[7; 16]);
    assert_ne!(one[..24], other[..24]);
    assert!(stateless_reset_into(&mut one, [7; 16], 5));
    assert_eq!(one.len(), 22);
}

#[test]
fn connections_come_and_go() {
    let mut router = router(2, None);
    let handle = router.insert_connection(slot(1), vec![[1; 16], [2; 16]]).ok().unwrap();
    assert_eq!(router.active_conns(), 1);
    assert!(router.register_local_cid(handle, key(0), cid(1)));
    assert!(router.register_cid_alias(handle, cid(2)));
    let (found, local) = router.find_cid(&[1; 8]).unwrap();
    assert_eq!((found, local), (handle, Some(key(0))));
    assert_eq!(router.find_cid(&[2; 8]).unwrap(), (handle, None));
    router.schedule_flush(handle);
    let gone = router.remove_slot(handle).unwrap();
    assert_eq!(gone.session, 1);
    assert!(router.find_cid(&[1; 8]).is_none());
    assert!(router.find_cid(&[2; 8]).is_none());
    assert!(router.remove_slot(handle).is_none());
    assert!(router.conn(handle).is_none());
    assert!(!router.has_drive_work(u64::MAX));
    assert_eq!(router.next_deadline(0), None);
}

#[test]
fn tokens_that_cannot_be_kept_end_a_connection() {
    let mut router = router(2, None);
    let first = router.insert_connection(slot(1), vec![[1; 16]]).ok().unwrap();
    assert!(router.insert_connection(slot(2), vec![[1; 16]]).is_err());
    assert!(router.insert_connection(slot(2), vec![[3; 16], [3; 16]]).is_err());
    assert_eq!(router.active_conns(), 1);
    assert!(router.sync_reset_tokens(first, vec![[4; 16]]));
    assert!(router.insert_connection(slot(2), vec![[1; 16]]).is_ok());
    assert!(!router.sync_reset_tokens(first, (0..9u8).map(|b| [b; 16]).collect()));
}

#[test]
fn routes_are_updated_up_to_one_that_cannot_be() {
    let mut router = router(2, None);
    let handle = router.insert_connection(slot(1), vec![]).ok().unwrap();
    let updates = vec![
        RouteUpdate::Add { key: key(1), cid: cid(1) },
        RouteUpdate::Remove { key: key(2) },
        RouteUpdate::Add { key: key(3), cid: cid(3) },
    ];
    assert!(!router.apply_cid_routes(handle, &updates));
    assert!(router.find_cid(&[1; 8]).is_some());
    assert!(router.find_cid(&[3; 8]).is_none());
    let updates = vec![RouteUpdate::Remove { key: key(1) }];
    assert!(router.apply_cid_routes(handle, &updates));
    assert!(router.find_cid(&[1; 8]).is_none());
}

#[test]
fn made_connection_ids() {
    let mut router = router(2, None);
    let handle = router.insert_connection(slot(1), vec![]).ok().unwrap();
    let first = router.gen_cid(None).unwrap();
    assert_eq!(first.as_slice(), &[1, 1, 2, 3, 4, 5, 6, 7]);
    let second = router.gen_cid(Some(0x77)).unwrap();
    assert_eq!(second.as_slice(), &[0x77, 2 ^ 1, 2, 3, 4, 5, 6, 7]);
    let third = ConnectionId::new(&[3, 1, 2, 3, 4, 5, 6, 7]).unwrap();
    assert!(router.register_local_cid(handle, key(0), third));
    assert_eq!(router.gen_cid(None).unwrap().as_slice(), &[4, 1, 2, 3, 4, 5, 6, 7]);
}

#[test]
fn connection_sends_at_its_turn() {
    let mut router = router(2, None);
    let handle = router.insert_connection(slot(5), vec![]).ok().unwrap();
    {
        let slot = router.conn_mut(handle, &mut vec![]).unwrap();
        let id = slot.conn.streams.open_local(false, params(), true, true).unwrap();
        slot.conn.streams.send_bytes(id, &[9; 3000], params(), true, true).unwrap();
    }
    assert!(router.finish_connection_mut(handle).is_none());
    let (outcome, gone) = router.flush_conn_round(handle, 10);
    assert_eq!(outcome, FlushRound::Idle);
    assert!(gone.is_none());
    let mut queue = Queue::new(&mut router);
    assert_eq!(queue.len(), 3);
    assert!(queue.bytes() > 3000);
    assert_eq!(queue.capacity(), 16);
    assert_eq!(queue.bytes_capacity(), 20_000);
    let mut drain = queue.drain();
    let mut sent = 0;
    loop {
        match queue.draw(&mut drain, 10) {
            Drawn::Outgoing(outgoing) => {
                assert!(outgoing.addr().same(&addr(5)));
                sent += 1;
                queue.recycle(outgoing);
            }
            Drawn::Step(Step::Reap(handle)) => {
                assert!(queue.router.reaped(handle, 10).is_none());
            }
            Drawn::Step(Step::Notify(handle, notice)) => {
                assert!(matches!(notice, Notice::Nothing));
                queue.router.heard(handle, vec![]);
            }
            Drawn::Step(_) => panic!("no other step"),
            Drawn::End => break,
        }
    }
    assert_eq!(sent, 3);
    assert!(queue.is_empty());
}

#[test]
fn output_room_holds_connections_back() {
    let mut router: Router<u32> = Router::new(
        Limits { max_connections: 1, outgoing_capacity: 2, outgoing_bytes_capacity: 5000 },
        None,
        SEEDS,
    )
    .unwrap();
    let handle = router.insert_connection(slot(5), vec![]).ok().unwrap();
    {
        let slot = router.conn_mut(handle, &mut vec![]).unwrap();
        let id = slot.conn.streams.open_local(false, params(), true, true).unwrap();
        slot.conn.streams.send_bytes(id, &[9; 5000], params(), true, true).unwrap();
    }
    router.finish_connection_mut(handle);
    assert_eq!(router.flush_conn_round(handle, 10).0, FlushRound::More);
    assert_eq!(router.flush_conn_round(handle, 10).0, FlushRound::Backpressure);
    assert!(router.pop_outgoing().is_some());
    assert_eq!(router.flush_conn_round(handle, 10).0, FlushRound::More);
    let stale = Handle { index: 0, generation: 9 };
    router.pop_outgoing();
    assert_eq!(router.flush_conn_round(stale, 10).0, FlushRound::Closed);
}

#[test]
fn what_happened_is_told_in_order() {
    let mut router = router(1, None);
    let handle = router.insert_connection(slot(5), vec![]).ok().unwrap();
    {
        let slot = router.conn_mut(handle, &mut vec![]).unwrap();
        slot.established = true;
        slot.inbox.push(vec![1, 2]);
        slot.events.push(Event::Stopped { stream_id: 4, error_code: 7 });
    }
    router.finish_connection_mut(handle);
    router.schedule_notify(handle);
    let (told, notice) = router.next_notice().unwrap();
    assert_eq!(told, handle);
    assert!(matches!(notice, Notice::Established));
    assert!(router.heard(handle, vec![]).is_none());
    assert!(matches!(router.next_notice(), Some((_, Notice::Datagram(data))) if data == vec![1, 2]));
    router.heard(handle, vec![]);
    assert!(matches!(
        router.next_notice(),
        Some((_, Notice::Stream(Event::Stopped { stream_id: 4, error_code: 7 })))
    ));
    router.heard(handle, vec![]);
    assert!(router.next_notice().is_none());
}

#[test]
fn timers_bring_connections_back() {
    let mut router = router(1, None);
    let handle = router.insert_connection(slot(5), vec![]).ok().unwrap();
    {
        router.conn_mut(handle, &mut vec![]).unwrap().timer = Some(500);
    }
    router.finish_connection_mut(handle);
    router.refresh_deadline(handle, 100);
    assert_eq!(router.next_deadline(100), Some(500));
    assert!(!router.promote_deadline_one(499));
    assert!(router.promote_deadline_one(500));
    assert_eq!(router.next_reap(), Some(handle));
    {
        router.conn_mut(handle, &mut vec![]).unwrap().conn.egress.closed = true;
    }
    router.finish_connection_mut(handle);
    assert!(router.reaped(handle, 600).is_some());
    assert_eq!(router.active_conns(), 0);
}

#[test]
fn client_has_to_show_its_address() {
    let mut router = router(4, Some(server_config()));
    let data = client_initial(vec![]);
    let routed = router.route(addr(9), &data, 0, 1000, &mut vec![]).unwrap();
    assert!(matches!(routed, Routed::Ignored));
    let outgoing = router.pop_outgoing().unwrap();
    assert!(outgoing.payload().len() <= 3 * data.len());
    let retry = RetryRef::decode(outgoing.payload()).unwrap();
    assert_eq!(retry.destination_connection_id().into_slice(), &[0x51; 4]);
    assert_eq!(retry.source_connection_id().into_slice()[0], 0x77);
    let again = client_initial(retry.token().to_vec());
    match router.route(addr(9), &again, 0, 1009, &mut vec![]).unwrap() {
        Routed::Accept(Some(odcid)) => assert_eq!(odcid.as_slice(), &[0xd1; 8]),
        other => panic!("{:?}", other),
    }
    assert!(matches!(router.route(addr(9), &again, 0, 1010, &mut vec![]).unwrap(), Routed::Ignored));
    assert!(matches!(router.route(addr(8), &again, 0, 1009, &mut vec![]).unwrap(), Routed::Ignored));
}

#[test]
fn gate_without_a_secret_is_open() {
    let mut router =
        router(4, Some(ServerConfig { require_address_validation: false, ..server_config() }));
    let data = client_initial(vec![]);
    assert!(matches!(
        router.maybe_handle_retry_gating(addr(9), &data, 0),
        Ok(RetryGate::Accept(None))
    ));
    let mut closed = self::router(4, None);
    assert!(matches!(
        closed.maybe_handle_retry_gating(addr(9), &data, 0),
        Err(Error::HeaderDecode)
    ));
    let mut strict = self::router(4, Some(server_config()));
    assert!(matches!(
        strict.maybe_handle_retry_gating(addr(9), &[0xc0, 0, 0], 0),
        Err(Error::HeaderDecode)
    ));
}

#[test]
fn new_client_is_let_in() {
    let mut router =
        router(4, Some(ServerConfig { require_address_validation: false, ..server_config() }));
    let data = client_initial(vec![]);
    assert!(matches!(router.route(addr(9), &data, 0, 0, &mut vec![]).unwrap(), Routed::Accept(None)));
    let opening = router.accept_prepare(&data).unwrap();
    assert_eq!(opening.initial_dcid.as_slice(), &[0xd1; 8]);
    assert_eq!(opening.peer_cid.as_slice(), &[0x51; 4]);
    assert_eq!(opening.max_packet_bytes, 1400);
    let handle = router
        .accept_finish(slot(9), vec![], key(0), opening.local_cid, opening.initial_dcid)
        .ok()
        .unwrap();
    match router.route(addr(9), &data, 0, 0, &mut vec![]).unwrap() {
        Routed::Deliver(found, local) => assert_eq!((found, local), (handle, None)),
        other => panic!("{:?}", other),
    }
    let (error, gone) = router.received(handle, vec![], &vec![], None, 10);
    assert!(error.is_none() && gone.is_none());
    let (error, gone) =
        router.received(handle, vec![[1; 16], [1; 16]], &vec![], None, 10);
    assert_eq!(error, Some(Error::ConnectionIdLimit));
    assert!(gone.is_some());
}

#[test]
fn accepting_can_fail() {
    let data = client_initial(vec![]);
    let mut client = router(1, None);
    assert_eq!(client.accept_prepare(&data).unwrap_err(), Error::HeaderDecode);
    let mut small: Router<u32> = Router::new(
        Limits { max_connections: 1, outgoing_capacity: 2, outgoing_bytes_capacity: 1000 },
        Some(server_config()),
        SEEDS,
    )
    .unwrap();
    assert_eq!(small.accept_prepare(&data).unwrap_err(), Error::PacketCeiling);
    let mut full = router(1, Some(server_config()));
    full.insert_connection(slot(1), vec![]).ok().unwrap();
    let result = full.accept_finish(slot(2), vec![], key(0), cid(1), cid(2));
    assert!(matches!(result, Err((Error::EventCapacity, _))));
    assert!(matches!(full.route(addr(3), &data, 0, 0, &mut vec![]).unwrap(), Routed::Ignored));
    let mut twice = router(2, Some(server_config()));
    twice.accept_finish(slot(1), vec![], key(0), cid(1), cid(2)).ok().unwrap();
    let result = twice.accept_finish(slot(2), vec![], key(0), cid(1), cid(3));
    assert!(matches!(result, Err((Error::HeaderDecode, _))));
    assert_eq!(twice.active_conns(), 1);
}

#[test]
fn client_connects() {
    let mut router = router(1, None);
    assert_eq!(router.connect_prepare(&[0; 21], None, 1400, &mut vec![]).unwrap_err(), ConnectError::InvalidConfig);
    assert_eq!(router.connect_prepare(&[0; 8], None, 1199, &mut vec![]).unwrap_err(), ConnectError::InvalidConfig);
    let opening = router.connect_prepare(&[7; 8], None, 1400, &mut vec![]).unwrap();
    assert_eq!(opening.initial_dcid.as_slice(), &[7; 8]);
    let handle =
        router.connect_finish(slot(1), vec![], key(0), opening.local_cid, 5).ok().unwrap();
    assert_eq!(router.find_cid(opening.local_cid.as_slice()).unwrap().0, handle);
    assert_eq!(router.connect_prepare(&[7; 8], None, 1400, &mut vec![]).unwrap_err(), ConnectError::Capacity);
    router.shutdown_begin();
    assert_eq!(router.connect_prepare(&[7; 8], None, 1400, &mut vec![]).unwrap_err(), ConnectError::Closed);
}

#[test]
fn datagram_for_no_connection_is_answered_by_a_reset() {
    let mut router = router(1, Some(server_config()));
    let mut data = vec![0x40; 40];
    data[1..9].copy_from_slice(&[5; 8]);
    assert!(matches!(router.route(addr(1), &data, 0, 0, &mut vec![]).unwrap(), Routed::Ignored));
    let reset = router.pop_outgoing().unwrap();
    assert_eq!(reset.payload().len(), 39);
    let token = StatelessResetSecret::from([8; 32]).token_for(&[5; 8]);
    assert_eq!(&reset.payload()[23..], &token[..]);
    assert!(!router.emit_stateless_reset(addr(1), &data[..22]));
    assert!(router.pop_outgoing().is_none());
}

#[test]
fn reset_closes_the_connection_of_its_token() {
    let mut router = router(2, None);
    let handle = router.insert_connection(slot(5), vec![[6; 16]]).ok().unwrap();
    let mut data = vec![0x41; 30];
    data[14..].copy_from_slice(&[6; 16]);
    assert!(!router.receive_stateless_reset(addr(4), &data, 10));
    assert!(!router.receive_stateless_reset(addr(5), &data[10..], 10));
    assert!(router.receive_stateless_reset(addr(5), &data, 10));
    assert!(router.conn(handle).unwrap().conn.egress.closed);
    assert_eq!(router.next_reap(), Some(handle));
}

#[test]
fn number_of_connections_can_be_set_while_there_are_none() {
    let mut router = router(1, None);
    assert!(!router.set_max_connections(0));
    assert!(!router.set_max_connections(65_537));
    assert!(router.set_max_connections(3));
    for port in 1..4 {
        assert!(router.insert_connection(slot(port), vec![]).is_ok());
    }
    assert!(!router.set_max_connections(5));
}

#[test]
fn shutdown_ends_everything() {
    let mut router = router(3, None);
    let handle = router.insert_connection(slot(1), vec![[1; 16]]).ok().unwrap();
    router.insert_connection(slot(2), vec![[2; 16]]).ok().unwrap();
    {
        router.conn_mut(handle, &mut vec![]).unwrap().conn.egress.pending_datagrams.push(vec![1; 10]);
    }
    router.finish_connection_mut(handle);
    router.flush_conn_round(handle, 10);
    assert!(!router.shutdown_complete());
    let mut closed = Vec::new();
    assert!(router.shutdown_bounded(&mut closed));
    assert_eq!(closed.len(), 2);
    assert_eq!(closed[0].0, handle);
    assert_eq!(router.active_conns(), 0);
    assert!(router.pop_outgoing().is_none());
    assert!(matches!(router.shutdown_step(), Step::Idle));
    assert!(matches!(router.route(addr(1), &[0x40; 40], 0, 0, &mut vec![]).unwrap(), Routed::Ignored));
    assert!(router.conn_mut(handle, &mut vec![]).is_none());
}

#[test]
fn steps_are_bounded() {
    let mut router = router(1, None);
    let handle = router.insert_connection(slot(1), vec![]).ok().unwrap();
    router.flush(handle, 10);
    let mut queue = Queue::new(&mut router);
    let (driven, step) = queue.drive_bounded(10);
    assert_eq!(driven, 1);
    assert!(matches!(step, Step::Idle));
}

#[test]
fn segments_need_limits_of_use() {
    let limits = |max_segments, max_bytes| GsoLimits { max_segments, max_bytes };
    assert!(gso_is_usable(limits(64, 65_536)));
    assert!(gso_is_usable(limits(255, 1)));
    assert!(!gso_is_usable(limits(1, 65_536)));
    assert!(!gso_is_usable(limits(256, 65_536)));
    assert!(!gso_is_usable(limits(64, 0)));
    assert_eq!(gso_packet_limit(8, 100_000, 65_536, 1200, limits(64, 65_536)), 8);
    assert_eq!(gso_packet_limit(8, 2500, 65_536, 1200, limits(64, 65_536)), 2);
    assert_eq!(gso_packet_limit(8, 100_000, 65_536, 1200, limits(4, 65_536)), 4);
    assert_eq!(gso_packet_limit(8, 100_000, 65_536, 1200, limits(64, 600)), 1);
}

#[test]
fn segments_go_out_together() {
    let one = coalesce_gso(addr(1), vec![7; 100], 100, 1);
    assert!(matches!(one, Outgoing::Plain(_, _)));
    let three = coalesce_gso(addr(1), vec![7; 250], 100, 3);
    assert!(matches!(three, Outgoing::Batch(_, _, 100)));
    assert_eq!(three.packets(), 3);
}

#[test]
fn datagrams_are_queued_on_a_connection() {
    let mut router = router(2, None);
    let handle = router.insert_connection(slot(1), vec![]).ok().unwrap();
    let limits = DatagramLimits { max_len: Some(3), capacity: 1 };
    let none = DatagramLimits { max_len: None, capacity: 1 };
    assert_eq!(
        router.try_send_datagram(handle, vec![1], none, 10),
        Err(TrySendError::Unsupported(vec![1]))
    );
    assert_eq!(
        router.try_send_datagram(handle, vec![1; 4], limits, 10),
        Err(TrySendError::TooLarge(vec![1; 4]))
    );
    assert!(router.conn(handle).unwrap().conn.egress.pending_datagrams.is_empty());
    assert_eq!(router.try_send_datagram(handle, vec![1, 2, 3], limits, 10), Ok(()));
    assert_eq!(router.conn(handle).unwrap().conn.egress.pending_datagrams, vec![vec![1, 2, 3]]);
    assert_eq!(
        router.try_send_datagram(handle, vec![4], limits, 10),
        Err(TrySendError::Full(vec![4]))
    );
    let other = Handle { index: 1, generation: 0 };
    assert_eq!(
        router.try_send_datagram(other, vec![4], limits, 10),
        Err(TrySendError::Closed(vec![4]))
    );
    router.shutdown_begin();
    assert_eq!(
        router.try_send_datagram(handle, vec![5], limits, 10),
        Err(TrySendError::Closed(vec![5]))
    );
}

#[test]
fn packets_are_changed_in_place() {
    let mut suffix = Outgoing::Suffix(addr(2), vec![0, 1, 2, 3], 2);
    assert_eq!(suffix.payload(), &[2, 3]);
    suffix.payload_mut()[0] = 9;
    assert_eq!(suffix.payload(), &[9, 3]);
    assert!(matches!(suffix, Outgoing::Suffix(_, ref storage, 2) if storage[..] == [0, 1, 9, 3]));
    let mut batch = Outgoing::Batch(addr(2), vec![7; 3], 2);
    batch.payload_mut()[2] = 1;
    assert_eq!(batch.payload(), &[7, 7, 1]);
    assert_eq!(batch.packets(), 2);
}

#[test]
fn connection_is_given_up() {
    let mut router = router(1, None);
    let handle = router.insert_connection(slot(1), vec![]).ok().unwrap();
    assert!(router.close(handle).is_some());
    assert!(router.close(handle).is_none());
    assert_eq!(router.active_conns(), 0);
}

#[test]
fn buffers_are_asked_for_and_granted() {
    let mut storage = Storage::new(2, 100);
    let request = storage.request_packet(30);
    assert_eq!(request.additional, 30);
    assert!(request.buffer.is_empty());
    assert!(!storage.has_recycled());
    assert!(storage.packet_granted(request.buffer, false).is_none());
    assert!(storage.has_recycled());
    let request = storage.request_packet(30);
    assert!(!storage.has_recycled());
    assert_eq!(storage.packet_granted(request.buffer, true), Some(vec![]));
    assert!(!storage.has_recycled());
}

#[test]
fn reset_is_made_of_drawn_bytes() {
    let mut blank = vec![1, 2, 3];
    reset_blank(&mut blank, 10);
    assert_eq!(blank, vec![0; 22]);
    let mut random: Vec<u8> = (200..224).collect();
    assert!(reset_drawn(&mut random, true, [9; 16]));
    assert_eq!(random[..8], [(200 & 0x3f) | 0x40, 201, 202, 203, 204, 205, 206, 207]);
    assert_eq!(random[8..], [9; 16]);
    let mut none = vec![7; 22];
    assert!(!reset_drawn(&mut none, false, [9; 16]));
    assert!(none.is_empty());
}

#[test]
fn reset_is_sent_where_memory_and_bytes_are_had() {
    let mut router = router(1, Some(server_config()));
    let mut data = vec![0x40; 40];
    data[1..9].copy_from_slice(&[5; 8]);
    let asked = router.request_reset(&data).unwrap();
    assert_eq!(asked.len, 39);
    assert_eq!(asked.request.additional, 39);
    assert_eq!(asked.token, StatelessResetSecret::from([8; 32]).token_for(&[5; 8]));
    assert!(!router.answer_reset(None, false, addr(1), asked.token));
    assert!(!router.answer_reset(Some(vec![3; 39]), false, addr(1), asked.token));
    assert!(router.pop_outgoing().is_none());
    assert!(router.answer_reset(Some(vec![3; 39]), true, addr(1), asked.token));
    let reset = router.pop_outgoing().unwrap();
    assert_eq!(reset.payload()[0], 0x43);
    assert_eq!(reset.payload()[1..23], [3; 22]);
    assert_eq!(reset.payload()[23..], asked.token);
    assert!(router.request_reset(&data[..22]).is_none());
}

#[test]
fn retry_is_issued_where_memory_is_had() {
    let mut router = router(1, Some(server_config()));
    let dcid = ConnectionIdRef::new(&[0xd1; 8]).unwrap();
    let scid = ConnectionIdRef::new(&[0x51; 4]).unwrap();
    let asked = router.request_retry(server_config(), dcid, scid, 1200).unwrap();
    let len = asked.request.additional - 9;
    let local = asked.local_cid;
    let secret = RetryTokenSecret { key: [9; 32] };
    let none = router.answer_retry(None, addr(1), dcid, scid, local.as_ref_id(), &secret, 50);
    assert!(matches!(none, RetryGate::Drop));
    assert!(router.pop_outgoing().is_none());
    let gate =
        router.answer_retry(Some(vec![]), addr(1), dcid, scid, local.as_ref_id(), &secret, 50);
    assert!(matches!(gate, RetryGate::IssuedRetry));
    let retry = router.pop_outgoing().unwrap();
    assert_eq!(retry.payload().len(), len);
    let read = RetryRef::decode(retry.payload()).unwrap();
    assert!(secret.validate(&addr(1), read.token(), 49).is_some());
    assert!(secret.validate(&addr(1), read.token(), 50).is_none());
    assert!(router.request_retry(server_config(), dcid, scid, 20).is_none());
}

#[test]
fn packets_go_out_as_one() {
    let mut router = router(1, None);
    let handle = router.insert_connection(slot(5), vec![]).ok().unwrap();
    assert!(!router.enable_gso(GsoLimits { max_segments: 1, max_bytes: 9000 }));
    assert!(router.enable_gso(GsoLimits { max_segments: 4, max_bytes: 9000 }));
    let limits = DatagramLimits { max_len: Some(1000), capacity: 4 };
    for len in [900, 900, 900, 500] {
        router.try_send_datagram(handle, vec![7; len], limits, 10).unwrap();
    }
    assert_eq!(router.flush_conn_round(handle, 10).0, FlushRound::Idle);
    let item = router.pop_outgoing().unwrap();
    assert!(router.pop_outgoing().is_none());
    let segment = match &item {
        Outgoing::Batch(_, _, segment) => *segment as usize,
        _ => panic!("a batch"),
    };
    assert!(segment > 900);
    assert_eq!(item.packets(), 4);
    assert_eq!(item.bytes(), 4 * segment - 400);
    router.disable_gso();
    router.try_send_datagram(handle, vec![1, 2], limits, 10).unwrap();
    router.flush_conn_round(handle, 10);
    assert!(matches!(router.pop_outgoing(), Some(Outgoing::Plain(_, _))));
}

#[test]
fn lent_connection_is_settled_before_a_datagram() {
    let mut router = router(2, None);
    let handle = router.insert_connection(slot(5), vec![[1; 16]]).ok().unwrap();
    let other = router.insert_connection(slot(6), vec![[2; 16]]).ok().unwrap();
    let mut closed = vec![];
    router.conn_mut(handle, &mut closed).unwrap().changed_tokens = Some(vec![[3; 16]]);
    let mut data = vec![0x41; 30];
    data[14..].copy_from_slice(&[3; 16]);
    assert!(matches!(
        router.route(addr(5), &data, 10, 0, &mut closed).unwrap(),
        Routed::Ignored
    ));
    assert!(closed.is_empty());
    assert!(router.conn(handle).unwrap().conn.egress.closed);
    router.conn_mut(other, &mut closed).unwrap().changed_tokens = Some(vec![[3; 16]]);
    assert!(router.conn_mut(handle, &mut closed).is_some());
    assert_eq!(closed.len(), 1);
    assert_eq!(closed[0].0, other);
    assert!(router.conn(other).is_none());
    assert!(router.finish_connection_mut(other).is_none());
}

#[test]
fn connection_too_large_for_the_queue_is_handed_back() {
    let mut router: Router<u32> = Router::new(
        Limits { max_connections: 1, outgoing_capacity: 2, outgoing_bytes_capacity: 1300 },
        None,
        SEEDS,
    )
    .unwrap();
    let mut large = slot(5);
    large.max_packet_bytes = 1400;
    large.first_flush = false;
    let handle = router.insert_connection(large, vec![]).ok().unwrap();
    router.schedule_flush(handle);
    assert!(matches!(router.flush_one(10), Step::Closed(gone, _) if gone == handle));
    assert_eq!(router.active_conns(), 0);
}

#[test]
fn handle_of_a_connection_stays_spent() {
    let mut registry: Registry<u32> = Registry::new(1);
    let first = registry.insert(1).unwrap();
    registry.remove(0);
    let second = registry.insert(2).unwrap();
    registry.remove(0);
    let third = registry.insert(3).unwrap();
    assert!(registry.handle_index(first).is_none());
    assert!(registry.handle_index(second).is_none());
    assert_eq!(registry.handle_index(third), Some(0));
}
