//! Streams of a connection.

use dope_quic::conn::control::{Control, Pending};
use dope_quic::conn::recv::Receiver;
use dope_quic::conn::send::Sender;
use dope_quic::conn::streams::limits::{Access, Error, InitialCredit, Params, StreamError};
use dope_quic::conn::streams::state::{Event, Setup, State};
use dope_quic::range_buffer::Arena;

fn setup(is_client: bool) -> Setup {
    Setup {
        is_client,
        local_bidi_capacity: 4,
        local_uni_capacity: 4,
        initial_max_bidi: 2,
        initial_max_uni: 2,
        local_max_data: 1000,
        local_initial_stream_data: InitialCredit { bidi_local: 100, bidi_remote: 200, uni: 300 },
        stream_journal_capacity: 16,
        receive_segment_capacity: 16,
    }
}

fn params() -> Option<Params> {
    Some(Params {
        initial_max_stream_data_bidi_local: 50,
        initial_max_stream_data_bidi_remote: 60,
        initial_max_stream_data_uni: 70,
    })
}

#[test]
fn streams_are_numbered_by_kind_and_side() {
    let mut client = State::new(setup(true));
    client.set_peer_max_streams(false, 2);
    client.set_peer_max_streams(true, 1);
    assert_eq!(client.open_local(false, params(), true, true), Ok(0));
    assert_eq!(client.open_local(false, params(), true, true), Ok(4));
    assert_eq!(client.open_local(false, params(), true, true), Err(StreamError::PeerLimit));
    assert_eq!(client.open_local(true, params(), true, true), Ok(2));
    let mut server = State::new(setup(false));
    server.set_peer_max_streams(false, 1);
    server.set_peer_max_streams(true, 1);
    assert_eq!(server.open_local(false, params(), false, true), Ok(1));
    assert_eq!(server.open_local(true, params(), false, true), Ok(3));
    assert_eq!(server.open_local(true, params(), false, false), Err(StreamError::NotEstablished));
}

#[test]
fn bytes_of_a_stream_are_read_in_order() {
    let mut server = State::new(setup(false));
    let mut events = Vec::new();
    let mut control = Pending::new(16);
    server.ingest_stream(0, 3, &[4, 5], true, false, &mut events).unwrap();
    server.ingest_stream(0, 0, &[1, 2, 3], false, false, &mut events).unwrap();
    assert_eq!(events, vec![Event::Readable { stream_id: 0 }]);
    let mut polled = events;
    assert_eq!(server.poll_event(&mut polled), Some(Event::Readable { stream_id: 0 }));
    assert_eq!(server.poll_event(&mut polled), None);
    assert!(server.recv_fin_received(0));
    assert!(!server.recv_eof(0));
    let mut out = Vec::new();
    let count = server.read(0, &mut out, false, &mut control, &mut polled);
    assert_eq!(count, 5);
    assert_eq!(out, vec![1, 2, 3, 4, 5]);
    assert!(server.recv_eof(0));
}

#[test]
fn peer_keeps_its_limits() {
    let mut server = State::new(setup(false));
    let mut events = Vec::new();
    assert_eq!(
        server.ingest_stream(0, 0, &[0; 201], false, false, &mut events),
        Err(Error::FlowControl)
    );
    assert!(server.ingest_stream(0, 0, &[0; 200], false, false, &mut events).is_ok());
    assert_eq!(server.validate_or_open_peer(4, Access::Receive, false), Ok(()));
    assert!(server.validate_or_open_peer(8, Access::Receive, false).is_err());
    assert!(server.validate_or_open_peer(3, Access::Receive, false).is_err());
    assert!(server.validate_access(2, Access::Send, false).is_err());
}

#[test]
fn end_of_a_stream_stays_where_it_is() {
    let mut server = State::new(setup(false));
    let mut events = Vec::new();
    server.ingest_stream(0, 0, &[1, 2], true, false, &mut events).unwrap();
    assert_eq!(
        server.ingest_stream(0, 0, &[1, 2, 3], false, false, &mut events),
        Err(Error::FinalSize)
    );
    assert_eq!(
        server.ingest_stream(0, 0, &[1], true, false, &mut events),
        Err(Error::FinalSize)
    );
}

#[test]
fn reading_gives_credit_back() {
    let mut server = State::new(setup(false));
    let mut events = Vec::new();
    let mut control = Pending::new(16);
    server.ingest_stream(0, 0, &[7; 150], false, false, &mut events).unwrap();
    let mut out = Vec::new();
    server.read(0, &mut out, false, &mut control, &mut events);
    server.reconcile_receive_controls(&mut control, 16);
    let mut told = Vec::new();
    for at in 0..control.len() {
        told.push(control.get(at));
    }
    assert!(told.contains(&Control::MaxData { limit: 1150 }));
    assert!(told.contains(&Control::MaxStreamData { stream_id: 0, limit: 350 }));
}

#[test]
fn reset_by_the_peer_is_told() {
    let mut server = State::new(setup(false));
    let mut events = Vec::new();
    let mut control = Pending::new(16);
    server.ingest_stream(0, 0, &[7; 10], false, false, &mut events).unwrap();
    server.ingest_reset(0, 42, 20, false, &mut control, &mut events).unwrap();
    assert_eq!(events, vec![Event::Reset { stream_id: 0, error_code: 42 }]);
    assert_eq!(
        server.ingest_reset(4, 1, 5000, false, &mut control, &mut events),
        Err(Error::FlowControl)
    );
}

#[test]
fn stop_by_the_peer_resets_the_stream() {
    let mut client = State::new(setup(true));
    client.set_peer_max_streams(false, 1);
    let id = client.open_local(false, params(), true, true).unwrap();
    client.send_bytes(id, &[1, 2, 3], params(), true, true).unwrap();
    let mut events = Vec::new();
    let mut control = Pending::new(16);
    client.ingest_stop(id, 9, params(), true, &mut control, &mut events);
    assert_eq!(client.send_stopped(id), Some(9));
    assert_eq!(events, vec![Event::Stopped { stream_id: id, error_code: 9 }]);
    assert_eq!(client.send_bytes(id, &[4], params(), true, true), Ok(()));
    assert_eq!(client.send_stopped(id), Some(9));
}

#[test]
fn streams_that_are_not_ours_cannot_be_written() {
    let mut client = State::new(setup(true));
    assert!(client.send_bytes(0, &[1], params(), true, true).is_err());
    assert!(client.send_fin(3, params(), true, true).is_err());
    let mut control = Pending::new(4);
    assert!(client.reset(0, 1, params(), true, true, &mut control).is_err());
    assert!(client.stop_sending(0, 1, true, true, &mut control).is_err());
}

#[test]
fn control_records_replace_each_other_by_subject() {
    let mut control = Pending::new(2);
    assert!(control.is_empty() && control.has_room());
    control.queue(Control::MaxData { limit: 10 });
    control.queue(Control::MaxData { limit: 20 });
    assert_eq!(control.len(), 1);
    assert_eq!(control.get(0), Control::MaxData { limit: 20 });
    control.queue(Control::HandshakeDone);
    assert!(!control.has_room());
    control.queue(Control::DataBlocked { limit: 3 });
    assert!(control.overflowed());
    assert!(control.take_overflowed());
    assert!(!control.overflowed());
    control.remove(Control::HandshakeDone.subject());
    assert!(!control.has(Control::HandshakeDone.subject()));
}

#[test]
fn bytes_are_handed_out_whole() {
    let mut server = State::new(setup(false));
    let mut events = Vec::new();
    let mut control = Pending::new(16);
    assert_eq!(server.read_owned(0, false, &mut control, &mut events), None);
    server.ingest_stream(0, 0, &[1, 2, 3], false, false, &mut events).unwrap();
    assert_eq!(server.read_owned(0, false, &mut control, &mut events), Some(vec![1, 2, 3]));
    assert_eq!(server.read_owned(0, false, &mut control, &mut events), None);
}

#[test]
fn what_is_written_is_what_is_read() {
    let mut sender = Sender::new(100);
    assert!(sender.write(&[1, 2, 3, 4]));
    let mut early = Vec::new();
    sender.append_range(&mut early, 0, 4);
    sender.advance_sent(4, false);
    assert!(sender.acknowledge_prefix(0, 2, false));
    assert!(!sender.range_available(0, 4));
    assert!(sender.write(&[5, 6]));
    sender.mark_fin();
    let mut late = Vec::new();
    sender.append_range(&mut late, 3, 3);
    assert_eq!(late, vec![4, 5, 6]);

    let mut arena = Arena::with_capacity(8);
    let mut receiver = Receiver::new(100);
    let mut handed = Vec::new();
    assert_eq!(receiver.insert(&mut arena, 3, &late, true), Ok(()));
    assert_eq!(receiver.read(&mut handed), 0);
    assert_eq!(receiver.insert(&mut arena, 0, &early[..2], false), Ok(()));
    assert_eq!(receiver.read(&mut handed), 2);
    assert!(!receiver.is_eof());
    assert_eq!(receiver.insert(&mut arena, 0, &early, false), Ok(()));
    assert_eq!(receiver.insert(&mut arena, 3, &late, true), Ok(()));
    assert_eq!(receiver.read(&mut handed), 4);
    assert!(receiver.is_eof());
    assert_eq!(handed, vec![1, 2, 3, 4, 5, 6]);
}

#[test]
fn streams_fit_up_to_the_capacity() {
    let mut client = State::new(setup(true));
    client.set_peer_max_streams(false, 8);
    client.set_peer_max_streams(true, 8);
    assert!(client.fits_sender());
    assert!(client.fits_receiver());
    for _ in 0..4 {
        assert!(client.open_local(false, params(), true, true).is_ok());
        assert!(client.open_local(true, params(), true, true).is_ok());
    }
    assert!(client.fits_sender());
    assert_eq!(client.open_local(false, params(), true, true), Err(StreamError::Capacity));
    for id in [1, 5] {
        client.validate_or_open_peer(id, Access::Send, true).unwrap();
        client.send_bytes(id, &[1], params(), true, true).unwrap();
    }
    assert!(!client.fits_sender());
    assert!(client.fits_receiver());
    assert_eq!(client.open_local(true, params(), true, true), Err(StreamError::Capacity));
}
