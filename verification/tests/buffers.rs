//! Bytes that arrive out of order.

use dope_quic::range_buffer::{Arena, InsertError, InsertLimits, Plan, ReadySegments, Store};

#[test]
fn bytes_come_out_in_order() {
    let mut arena = Arena::with_capacity(8);
    let mut store = Store::default();
    let limits = InsertLimits::new(1000, 8);
    let mut out = Vec::new();
    store.insert_copy_and_drain_into(&mut arena, 3, &[4, 5], limits, &mut out).unwrap();
    assert!(out.is_empty());
    assert_eq!(store.range_count(), 1);
    store.insert_copy_and_drain_into(&mut arena, 0, &[1, 2, 3], limits, &mut out).unwrap();
    assert_eq!(out, vec![1, 2, 3, 4, 5]);
    assert_eq!(store.next(), 5);
    assert_eq!(store.range_count(), 0);
    assert_eq!(arena.remaining_capacity(), 8);
}

#[test]
fn bytes_that_came_before_are_ignored() {
    let mut arena = Arena::with_capacity(8);
    let mut store = Store::default();
    let limits = InsertLimits::new(1000, 8);
    let mut out = Vec::new();
    store.insert_copy_and_drain_into(&mut arena, 0, &[1, 2, 3], limits, &mut out).unwrap();
    store.insert_copy_and_drain_into(&mut arena, 1, &[9, 9, 4], limits, &mut out).unwrap();
    assert_eq!(out, vec![1, 2, 3, 4]);
}

#[test]
fn limits_are_kept() {
    let mut arena = Arena::with_capacity(8);
    let mut store = Store::default();
    let mut out = Vec::new();
    let limits = InsertLimits::new(4, 2);
    assert!(matches!(
        store.insert_copy_and_drain_into(&mut arena, 10, &[0; 5], limits, &mut out),
        Err(InsertError::BufferFull)
    ));
    store.insert_copy_and_drain_into(&mut arena, 10, &[0], limits, &mut out).unwrap();
    store.insert_copy_and_drain_into(&mut arena, 20, &[0], limits, &mut out).unwrap();
    assert!(matches!(
        store.insert_copy_and_drain_into(&mut arena, 30, &[0], limits, &mut out),
        Err(InsertError::TooManyRanges)
    ));
    assert!(matches!(
        store.insert_copy_and_drain_into(&mut arena, u64::MAX, &[0, 0], limits, &mut out),
        Err(InsertError::OffsetOverflow)
    ));
    store.recycle(&mut arena);
    assert_eq!(arena.remaining_capacity(), 8);
}

#[test]
fn segments_come_out_as_they_came() {
    let mut arena = Arena::with_capacity(8);
    let mut store = Store::default();
    let limits = InsertLimits::new(1000, 8);
    let mut ready = ReadySegments::default();
    store.insert_retained_and_drain_into(&mut arena, 2, &[3, 4], limits, &mut ready).unwrap();
    assert_eq!(ready.len(), 0);
    store.insert_retained_and_drain_into(&mut arena, 0, &[1, 2], limits, &mut ready).unwrap();
    assert_eq!(ready.len(), 4);
    assert_eq!(ready.segment_count(), 2);
    assert_eq!(ready.pop_front(&mut arena), Some(vec![1, 2]));
    assert_eq!(ready.pop_front(&mut arena), Some(vec![3, 4]));
    assert_eq!(ready.pop_front(&mut arena), None);
}

#[test]
fn plan_tells_what_is_new() {
    let mut plan = Plan::empty();
    let (accepted, parts) = plan.insert_observed(2, 3, 8).unwrap();
    assert_eq!(accepted, 3);
    assert_eq!(parts, vec![(0, 3)]);
    assert_eq!(plan.range_count(), 1);
    let (accepted, parts) = plan.insert_observed(0, 4, 8).unwrap();
    assert_eq!(accepted, 2);
    assert_eq!(plan.next(), 5);
    assert_eq!(parts, vec![(0, 2)]);
    assert_eq!(plan.range_count(), 0);
}

#[test]
fn ranges_stay_as_they_came() {
    let mut arena = Arena::with_capacity(8);
    let mut store = Store::default();
    let limits = InsertLimits::new(1000, 8);
    let mut ready = ReadySegments::default();
    let data: Vec<u8> = (0..12).collect();
    for (from, to) in [(5, 8), (10, 12), (7, 11)] {
        let bytes = &data[from..to];
        store
            .insert_retained_and_drain_into(&mut arena, from as u64, bytes, limits, &mut ready)
            .unwrap();
    }
    assert_eq!(store.range_count(), 3);
    assert_eq!(arena.remaining_capacity(), 5);
    let mut plan = store.plan();
    store.insert_retained_and_drain_into(&mut arena, 0, &data[..5], limits, &mut ready).unwrap();
    assert_eq!(store.range_count(), 0);
    assert_eq!(store.next(), 12);
    assert_eq!(ready.segment_count(), 4);
    assert_eq!(arena.remaining_capacity(), 4);
    assert_eq!(ready.pop_front(&mut arena), Some(data[..5].to_vec()));
    assert_eq!(ready.pop_front(&mut arena), Some(data[5..8].to_vec()));
    assert_eq!(ready.pop_front(&mut arena), Some(data[8..10].to_vec()));
    assert_eq!(ready.pop_front(&mut arena), Some(data[10..].to_vec()));
    assert_eq!(arena.remaining_capacity(), 8);
    assert_eq!(plan.insert_observed(9, 6, 8), Ok((3, vec![(3, 6)])));
    assert_eq!(plan.range_count(), 4);
    assert_eq!(plan.insert_observed(20, 1, 4), Err(InsertError::TooManyRanges));
}
