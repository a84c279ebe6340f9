//! Round-trip times, congestion, pacing, path sizes and packet numbers.

use dope_quic::new_reno::NewReno;
use dope_quic::pacer::Pacer;
use dope_quic::pmtud::Pmtud;
use dope_quic::pn_space::{PnSpace, Receive};
use dope_quic::rtt::RttTracker;

const MS: u128 = 1_000_000;

#[test]
fn first_sample_sets_the_estimate() {
    let mut rtt = RttTracker::default();
    rtt.update(100 * MS, 0);
    assert_eq!(rtt.smoothed_rtt, Some(100 * MS));
    assert_eq!(rtt.rttvar, 50 * MS);
    assert_eq!(rtt.min_rtt, Some(100 * MS));
    assert_eq!(rtt.pto_period(25 * MS), 100 * MS + 200 * MS + 25 * MS);
}

#[test]
fn later_samples_are_weighed() {
    let mut rtt = RttTracker::default();
    rtt.update(100 * MS, 0);
    rtt.update(200 * MS, 20 * MS);
    assert_eq!(rtt.latest_rtt, Some(200 * MS));
    assert_eq!(rtt.min_rtt, Some(100 * MS));
    assert_eq!(rtt.rttvar, (3 * 50 * MS + 80 * MS) / 4);
    assert_eq!(rtt.smoothed_rtt, Some((7 * 100 * MS + 180 * MS) / 8));
    assert_eq!(rtt.loss_delay(), 200 * MS * 9 / 8);
}

#[test]
fn without_samples_the_estimate_is_a_third_of_a_second() {
    let rtt = RttTracker::default();
    assert_eq!(rtt.pto_period(0), 333 * MS + MS);
}

#[test]
fn window_grows_and_shrinks() {
    let mut reno = NewReno::default();
    assert_eq!(reno.cwnd, 12_000);
    reno.on_packet_sent(12_000, true);
    assert!(!reno.allows_send());
    reno.on_packet_acked(1200, true);
    assert_eq!(reno.cwnd, 13_200);
    assert_eq!(reno.bytes_in_flight, 10_800);
    assert!(reno.allows_send());
    reno.on_packets_lost(1200, 50);
    assert_eq!(reno.cwnd, 6_600);
    assert_eq!(reno.ssthresh, 6_600);
    let window = reno.cwnd;
    reno.on_packets_lost(1200, 50);
    assert_eq!(reno.cwnd, window);
    reno.discard(100_000);
    assert_eq!(reno.bytes_in_flight, 0);
}

#[test]
fn burst_goes_at_once_and_the_rest_is_paced() {
    let mut pacer = Pacer::new(1000);
    for _ in 0..10 {
        assert!(pacer.allows_send(1000));
        pacer.packet_sent(1200, 1000, 12_000, 100 * MS);
    }
    assert!(pacer.allows_send(1000));
    pacer.packet_sent(1200, 1000, 12_000, 100 * MS);
    assert!(!pacer.allows_send(1000));
    assert_eq!(pacer.next_release_time(), 1000 + 8_000_000);
    assert!(pacer.allows_send(8_001_000));
}

#[test]
fn path_size_is_searched_by_halves() {
    let mut search = Pmtud::new(1500);
    assert_eq!(search.current(), 1200);
    let size = search.next_probe().unwrap();
    assert_eq!(size, 1350);
    search.arm_probe(size);
    assert_eq!(search.next_probe(), None);
    search.on_probe_acked();
    assert_eq!(search.current(), 1350);
    for _ in 0..3 {
        let size = search.next_probe().unwrap();
        assert_eq!(size, 1425);
        search.arm_probe(size);
        search.on_probe_lost();
    }
    assert_eq!(search.next_probe(), Some(1387));
    assert!(!search.done());
}

#[test]
fn path_size_search_is_over_when_it_is_narrow() {
    let search = Pmtud::new(1200);
    assert_eq!(search.next_probe(), None);
    let default = Pmtud::default();
    assert_eq!(default.next_probe(), Some(1350));
}

#[test]
fn received_numbers_are_acknowledged_in_ranges() {
    let mut receive = Receive::default();
    assert_eq!(receive.expected_pn(), 0);
    for pn in [0u64, 1, 2, 5, 6, 9] {
        let fresh = receive.accept(pn).unwrap();
        receive.commit(fresh, true, 100 + pn);
    }
    assert!(receive.accept(5).is_none());
    assert!(receive.accept(4).is_some());
    assert_eq!(receive.expected_pn(), 10);
    assert!(receive.ack_pending() && receive.ack_eliciting());
    assert_eq!(receive.largest_time(), Some(109));
    let mut view = receive.build_ack_ranges().unwrap();
    assert_eq!((view.largest, view.first_range), (9, 0));
    assert_eq!(view.additional.len(), 2);
    assert_eq!(view.additional.next(), Some((1, 1)));
    assert_eq!(view.additional.next(), Some((1, 2)));
    assert_eq!(view.additional.next(), None);
    receive.ack_sent();
    assert!(!receive.ack_pending());
}

#[test]
fn nothing_received_is_not_acknowledged() {
    assert!(Receive::default().build_ack_ranges().is_none());
    let space = PnSpace::default();
    assert_eq!(space.next_pn, 0);
    assert!(space.largest_acked.is_none());
}

#[test]
fn numbers_behind_the_window_count_as_received() {
    let mut receive = Receive::default();
    let fresh = receive.accept(10_000).unwrap();
    receive.commit(fresh, false, 1);
    assert!(receive.accept(1).is_none());
    assert!(receive.accept(9_999).is_some());
    assert!(!receive.ack_pending());
}

#[test]
fn finished_search_is_not_resumed() {
    let mut search = Pmtud::new(1204);
    assert!(!search.done());
    search.on_probe_acked();
    assert!(search.done());
    search.arm_probe(1400);
    search.on_probe_lost();
    assert!(search.done());
    search.arm_probe(u64::MAX - 4);
    search.on_probe_acked();
    assert!(search.done());
    assert_eq!(search.current(), u64::MAX - 4);
    assert_eq!(search.next_probe(), None);
}
