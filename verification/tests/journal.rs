//! Records of what was sent on streams.

use dope_quic::conn::send::Sender;
use dope_quic::conn::stream_journal::journal::{Journal, RetryWork};
use dope_quic::conn::stream_journal::model::{GroupId, Handle, SendHandle, Stream};
use dope_quic::conn::streams::table::Table;

const OWNER: SendHandle = SendHandle { index: 1, generation: 0 };

fn piece(offset: u64, len: u64, fin: bool) -> Stream {
    Stream { stream_id: 4, offset, len, fin }
}

fn filled(journal: &mut Journal, group: &mut Option<GroupId>) -> Vec<Handle> {
    [piece(0, 10, false), piece(10, 5, false), piece(15, 7, true)]
        .into_iter()
        .map(|record| journal.insert(OWNER, group, record).unwrap())
        .collect()
}

#[test]
fn bytes_are_released_from_the_front() {
    let mut journal = Journal::new(3);
    let mut group = None;
    let handles = filled(&mut journal, &mut group);
    assert!(!journal.has_room(1));
    assert!(journal.insert(OWNER, &mut group, piece(22, 1, false)).is_none());
    assert!(journal.acknowledge(handles[1]).is_none());
    let front = journal.acknowledge(handles[0]).unwrap();
    assert_eq!(journal.send_handle(&front), OWNER);
    assert_eq!(journal.span(&front), Some((0, 15, false, 2)));
    assert!(journal.commit(front, true).is_ok());
    assert!(journal.has_room(2));
    assert!(!journal.has_room(3));
    let rest = journal.acknowledge(handles[2]).unwrap();
    assert_eq!(journal.span(&rest), Some((15, 7, true, 1)));
    assert!(journal.commit(rest, true).is_ok());
    assert!(journal.has_room(3));
}

#[test]
fn lost_pieces_are_sent_again_in_turn() {
    let mut journal = Journal::new(8);
    let mut group = None;
    let handles = filled(&mut journal, &mut group);
    assert!(!journal.has_retransmit());
    journal.lose(handles[2]);
    journal.lose(handles[0]);
    assert!(journal.has_retransmit());
    let mut work = RetryWork::new(8);
    let (first, owner, record) = journal.next_retransmit(100, &mut work, &[]).unwrap();
    assert_eq!(owner, OWNER);
    assert!(record == piece(0, 10, false) || record == piece(15, 7, true));
    assert!(journal.add_carrier(first));
    let (second, _, other) = journal.next_retransmit(100, &mut work, &[]).unwrap();
    assert_ne!(first, second);
    assert_ne!(record, other);
    assert!(journal.add_carrier(second));
    assert!(!journal.has_retransmit());
}

#[test]
fn every_look_costs_work() {
    let mut journal = Journal::new(8);
    let mut group = None;
    let handles = filled(&mut journal, &mut group);
    journal.lose(handles[0]);
    let mut work = RetryWork::new(0);
    assert!(journal.next_retransmit(100, &mut work, &[]).is_none());
    let mut work = RetryWork::new(1);
    assert!(journal.next_retransmit(3, &mut work, &[]).is_none());
    assert_eq!(work.remaining, 0);
}

#[test]
fn cancelled_streams_give_their_room_back() {
    let mut journal = Journal::new(3);
    let mut group = None;
    let handles = filled(&mut journal, &mut group);
    journal.cancel(group.unwrap());
    assert!(journal.has_room(3));
    let mut other = None;
    let again = filled(&mut journal, &mut other);
    assert!(journal.acknowledge(handles[0]).is_none());
    journal.lose(handles[1]);
    assert!(!journal.has_retransmit());
    assert!(journal.acknowledge(again[0]).is_some());
}

#[test]
fn probes_show_each_piece_once() {
    let mut journal = Journal::new(8);
    let mut group = None;
    let handles = filled(&mut journal, &mut group);
    journal.arm_probes();
    let mut seen = Vec::new();
    for _ in 0..3 {
        let (handle, _, _) = journal.next_probe(&seen).unwrap();
        seen.push(handle);
    }
    assert!(handles.iter().all(|handle| seen.contains(handle)));
    assert!(journal.next_probe(&seen).is_none());
}

#[test]
fn handles_of_streams_expire() {
    let mut table: Table<u8> = Table::new(2);
    let first = table.or_insert(4, 1).unwrap();
    let second = table.or_insert(8, 2).unwrap();
    assert!(table.or_insert(12, 3).is_none());
    assert_eq!(table.handle(4), Some(first));
    assert_eq!(table.or_insert(4, 9), Some(first));
    assert_eq!(table.resolve(first).unwrap().value, 1);
    assert!(table.remove(4));
    assert!(table.resolve(first).is_none());
    let third = table.or_insert(12, 3).unwrap();
    assert_ne!(first, third);
    assert!(table.resolve(first).is_none());
    assert_eq!(table.resolve(second).unwrap().stream_id, 8);
    assert_eq!(table.resolve(third).unwrap().value, 3);
    assert_eq!(table.remaining_capacity(), 0);
}

#[test]
fn handle_of_a_stream_stays_spent() {
    let mut table: Table<u8> = Table::new(1);
    let mut spent = Vec::new();
    for round in 0..5 {
        let handle = table.or_insert(4, round).unwrap();
        assert!(table.set_value(handle, round + 10));
        assert_eq!(table.resolve(handle).unwrap().value, round + 10);
        for old in &spent {
            assert!(table.resolve(*old).is_none());
        }
        assert!(table.remove(4));
        spent.push(handle);
    }
}

#[test]
fn sending_side_advances_with_its_records() {
    let mut journal = Journal::new(3);
    let mut group = None;
    let handles = filled(&mut journal, &mut group);
    let mut sender = Sender::new(100);
    assert!(sender.write(&[7; 22]));
    sender.mark_fin();
    sender.advance_sent(22, true);
    assert!(journal.acknowledge(handles[1]).is_none());
    let front = journal.acknowledge(handles[0]).unwrap();
    assert_eq!(journal.commit_prefix(front, &mut sender).ok(), Some(false));
    assert!(!sender.range_available(14, 1));
    assert!(sender.range_available(15, 7));
    assert!(journal.has_room(2));
    assert!(!journal.has_room(3));
    let rest = journal.acknowledge(handles[2]).unwrap();
    assert_eq!(journal.commit_prefix(rest, &mut sender).ok(), Some(true));
    assert!(sender.is_fully_acked());
    assert!(journal.has_room(3));
}

#[test]
fn sending_side_that_refuses_keeps_its_bytes() {
    let mut journal = Journal::new(3);
    let mut group = None;
    let handles = filled(&mut journal, &mut group);
    let mut sender = Sender::new(100);
    assert!(sender.write(&[7; 22]));
    sender.advance_sent(5, false);
    let front = journal.acknowledge(handles[0]).unwrap();
    assert!(journal.commit_prefix(front, &mut sender).is_err());
    assert!(sender.range_available(0, 22));
    assert!(journal.has_room(3));
    journal.lose(handles[1]);
    assert!(!journal.has_retransmit());
}
