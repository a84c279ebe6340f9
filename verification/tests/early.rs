//! Early data that is sent twice, errors and endpoint limits.

use dope_quic::early_data::{EarlyDataReplayCache, ReplayCache, ReplayCacheError};
use dope_quic::endpoint::{Config, ConfigError};
use dope_quic::errors::{ConnectError, TrySendError};

#[test]
fn token_is_taken_once() {
    let mut cache = EarlyDataReplayCache::new();
    assert!(cache.register(&[1, 2, 3], 1000));
    assert!(!cache.register(&[1, 2, 3], 1001));
    assert!(cache.register(&[1, 2, 4], 1001));
}

#[test]
fn token_is_forgotten_after_two_hours() {
    let mut cache = EarlyDataReplayCache::default();
    assert!(cache.register(&[7], 0));
    assert!(!cache.register(&[7], 7_199_999));
    assert!(cache.register(&[7], 7_200_000));
}

#[test]
fn token_stays_remembered_whatever_comes() {
    let mut cache = EarlyDataReplayCache::with_capacity(3).unwrap();
    assert!(cache.register(&[1], 0));
    assert!(cache.register(&[2], 10));
    assert!(cache.register(&[3], 20));
    assert!(!cache.register(&[4], 30));
    assert!(!cache.register(&[1], 40));
}

#[test]
fn long_tokens_and_large_caches_are_refused() {
    let mut cache = EarlyDataReplayCache::new();
    assert!(!cache.register(&[0; 257], 0));
    assert!(cache.register(&[0; 256], 0));
    assert_eq!(
        EarlyDataReplayCache::with_capacity(65_537).unwrap_err(),
        ReplayCacheError::Capacity
    );
    assert!(matches!(ReplayCache::named(EarlyDataReplayCache::new(), None), Err(ReplayCacheError::Entropy)));
    assert!(matches!(ReplayCache::with_capacity(65_537), Err(ReplayCacheError::Capacity)));
    assert_eq!(
        ReplayCacheError::Capacity.message(),
        "early data replay capacity exceeds the supported maximum"
    );
}

#[test]
fn two_caches_have_two_domains() {
    let one = ReplayCache::new().ok().unwrap();
    let other = ReplayCache::new().ok().unwrap();
    assert!(one.domain != other.domain);
}

fn config() -> Config {
    Config {
        max_conns: 1,
        outgoing_capacity: 1,
        outgoing_bytes_capacity: 1200,
        packet_buffer_slots: 1,
        packet_buffer_bytes: 1200,
    }
}

#[test]
fn endpoint_limits() {
    assert!(config().validate().is_ok());
    assert!(Config { max_conns: 65_536, packet_buffer_bytes: 65_535, ..config() }.validate().is_ok());
    for bad in [
        Config { max_conns: 0, ..config() },
        Config { max_conns: 65_537, ..config() },
        Config { outgoing_capacity: 0, ..config() },
        Config { outgoing_capacity: 65_537, ..config() },
        Config { outgoing_bytes_capacity: 1199, ..config() },
        Config { outgoing_bytes_capacity: (1 << 30) + 1, ..config() },
        Config { packet_buffer_slots: 0, ..config() },
        Config { packet_buffer_slots: 65_537, ..config() },
        Config { packet_buffer_bytes: 1199, ..config() },
        Config { packet_buffer_bytes: 65_536, ..config() },
    ] {
        assert_eq!(bad.validate().unwrap_err(), ConfigError::Capacity);
    }
    assert_eq!(ConfigError::Capacity.message(), "invalid endpoint capacity");
    assert_eq!(ConfigError::ReceiveBudget.message(), "receive byte budget overflow");
}

#[test]
fn receive_budget() {
    let config = Config { packet_buffer_slots: 65_536, packet_buffer_bytes: 65_535, ..config() };
    assert_eq!(config.retained_receive_bytes().unwrap(), 4_294_901_760);
}

#[test]
fn errors_give_back_what_was_not_sent() {
    assert_eq!(TrySendError::Closed(vec![1u8]).into_inner(), vec![1]);
    assert_eq!(TrySendError::Full(vec![2u8]).into_inner(), vec![2]);
    assert_eq!(TrySendError::TooLarge(3u8).message(), "datagram too large");
    assert_eq!(TrySendError::Unsupported(3u8).message(), "datagrams unsupported");
    assert_eq!(ConnectError::Closed.message(), "multiplexer is shutting down");
    assert_eq!(ConnectError::Tls.message(), "TLS connection initialization failed");
}
