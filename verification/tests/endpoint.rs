//! What an endpoint does next.

use dope_quic::clock::Instant;
use dope_quic::endpoint::{capped_pmtu, Choice, Pace, Progress};

#[test]
fn output_and_work_take_turns() {
    let mut pace = Pace::new();
    assert_eq!(pace.choose_next(true, true), Some(Choice::Send));
    assert_eq!(pace.choose_next(true, true), Some(Choice::Drive));
    assert_eq!(pace.choose_next(true, true), Some(Choice::Send));
}

#[test]
fn a_blocked_socket_leaves_the_work() {
    let mut pace = Pace::new();
    pace.flush_blocked = true;
    assert_eq!(pace.choose_next(true, true), Some(Choice::Drive));
    assert!(pace.prefer_output);
    assert_eq!(pace.choose_next(true, false), None);
    assert!(!pace.has_turn(true, false));
    assert!(pace.has_turn(false, true));
}

#[test]
fn a_lone_choice_keeps_the_preference() {
    let mut pace = Pace::new();
    assert_eq!(pace.choose_next(false, true), Some(Choice::Drive));
    assert_eq!(pace.choose_next(true, false), Some(Choice::Send));
    assert!(pace.prefer_output);
    assert_eq!(pace.choose_next(false, false), None);
}

#[test]
fn progress_waits_for_the_next_deadline() {
    let mut pace = Pace::new();
    let later: Instant = 7;
    assert_eq!(pace.progress(false, false, false, Some(later)), Progress::Until(later));
    assert_eq!(pace.progress(false, false, false, None), Progress::Quiescent);
    assert_eq!(pace.progress(false, true, false, Some(later)), Progress::Runnable);
    assert_eq!(pace.progress(false, false, true, None), Progress::Runnable);
    pace.flush_blocked = true;
    assert_eq!(pace.progress(false, true, false, None), Progress::Quiescent);
    pace.stopping = true;
    assert_eq!(pace.progress(false, false, false, None), Progress::Runnable);
    assert_eq!(pace.progress(true, true, true, Some(later)), Progress::Quiescent);
}

#[test]
fn packets_fit_their_buffers() {
    assert_eq!(capped_pmtu(1500, 2048), 1500);
    assert_eq!(capped_pmtu(9000, 2048), 2048);
    assert_eq!(capped_pmtu(u64::MAX, u32::MAX), 65_527);
}
