//! Keys, packet protection and tokens.

use dope_quic::hp::{HeaderProtectionError, HeaderProtectionKey};
use dope_quic::packet::long::{InitialHeader, ParsedLong};
use dope_quic::packet::{ConnectionId, ShortHeader, QUIC_V1};
use dope_quic::packet_protection::{decode_packet_number, CryptoFailure, PacketProtection};
use dope_quic::qkdf::{InitialSecrets, PacketKeys};
use dope_quic::secrets::{PeerAddress, RetryTokenSecret, StatelessResetSecret};

fn hex(text: &str) -> Vec<u8> {
    let digits: Vec<u8> = text
        .bytes()
        .map(|b| match b {
            b'0'..=b'9' => b - b'0',
            _ => b - b'a' + 10,
        })
        .collect();
    digits.chunks(2).map(|pair| pair[0] * 16 + pair[1]).collect()
}

fn client_keys() -> PacketKeys {
    let secrets = InitialSecrets::from_dcid(&hex("8394c8f03e515708")).unwrap();
    PacketKeys::aes_128(&secrets.client).unwrap()
}

#[test]
fn initial_secrets_known_values() {
    let secrets = InitialSecrets::from_dcid(&hex("8394c8f03e515708")).unwrap();
    assert_eq!(
        &secrets.client[..],
        &hex("c00cf151ca5be075ed0ebfb5c80323c42d6b7db67881289af4008f1f6c357aea")[..]
    );
    assert_eq!(
        &secrets.server[..],
        &hex("3c199828fd139efd216c155ad844cc81fb82fa8d7446fa7d78be803acdda951b")[..]
    );
}

#[test]
fn packet_keys_known_values() {
    let keys = client_keys();
    assert_eq!(&keys.key[..], &hex("1f369613dd76d5467730efcbe3b1a22d")[..]);
    assert_eq!(&keys.iv[..], &hex("fa044b2f42a3fd3b46fb255c")[..]);
    assert_eq!(&keys.hp[..], &hex("9f50449e04a0e810283a1e9933adedd2")[..]);
}

#[test]
fn header_protection_known_mask() {
    let keys = client_keys();
    let key = HeaderProtectionKey::aes_128(&keys.hp).unwrap();
    let mask = key.mask(&hex("d1b1c98dd7689fb8ec11d242b123dc9b")).unwrap();
    assert_eq!(&mask[..], &hex("437b9aec36")[..]);
    assert_eq!(key.mask(&[0; 15]).unwrap_err(), HeaderProtectionError::InvalidSample);
    assert_eq!(HeaderProtectionError::InvalidKey.message().is_empty(), false);
}

#[test]
fn long_packet_round_trip() {
    let protection = PacketProtection::aes_128(&client_keys()).unwrap();
    let header = InitialHeader {
        version: QUIC_V1,
        dcid: hex("8394c8f03e515708"),
        scid: vec![],
        token: vec![],
        packet_number: 2,
        pn_len: 4,
    };
    let payload = vec![7u8; 100];
    let (head, pn_offset) = header.encode_with_pn(payload.len() + 16).unwrap();
    let packet = protection.encrypt_long(&head, &payload, 2, pn_offset, 4).unwrap();
    assert_eq!(packet.len(), head.len() + 116);
    assert_ne!(&packet[head.len()..head.len() + 100], &payload[..]);
    let mut received = packet.clone();
    let (pn, start, end) = protection.decrypt_long_in_place(&mut received, pn_offset, 2).unwrap();
    assert_eq!(received[..start], head[..]);
    assert_eq!(pn, 2);
    assert_eq!(&received[start..end], &payload[..]);
    let parsed = ParsedLong::parse(packet).unwrap();
    let opened = parsed.decrypt(&protection, 0).unwrap();
    assert_eq!(opened.packet_number(), 2);
    assert_eq!(opened.body(), &payload[..]);
}

#[test]
fn altered_packet_does_not_open() {
    let protection = PacketProtection::aes_128(&client_keys()).unwrap();
    let header = ShortHeader { dcid: vec![1; 8], packet_number: 77, pn_len: 2 };
    let (head, pn_offset) = header.encode_with_pn().unwrap();
    let packet = protection.encrypt_short(&head, &[1; 40], 77, pn_offset, 2).unwrap();
    let mut received = packet.clone();
    let (pn, start, end) = protection.decrypt_short_in_place(&mut received, pn_offset, 77).unwrap();
    assert_eq!(received[..start], head[..]);
    assert_eq!(pn, 77);
    assert_eq!(&received[start..end], &[1; 40]);
    let mut altered = packet;
    let last = altered.len() - 1;
    altered[last] ^= 1;
    assert_eq!(
        protection.decrypt_short_in_place(&mut altered, pn_offset, 77).unwrap_err(),
        CryptoFailure::Decrypt
    );
    let mut short = vec![0x40; 12];
    assert_eq!(
        protection.decrypt_short_in_place(&mut short, 9, 0).unwrap_err(),
        CryptoFailure::InvalidPacket
    );
    assert_eq!(CryptoFailure::InvalidKey.message().is_empty(), false);
    assert_eq!(CryptoFailure::Encrypt.message().is_empty(), false);
    assert_eq!(CryptoFailure::HeaderProtection.message().is_empty(), false);
}

#[test]
fn packet_numbers_are_completed() {
    assert_eq!(decode_packet_number(0xa82f_30eb, 0x9b32, 2), 0xa82f_9b32);
    assert_eq!(decode_packet_number(0, 5, 1), 5);
    assert_eq!(decode_packet_number(0x100, 0xff, 1), 0xff);
}

#[test]
fn reset_tokens_depend_on_key_and_connection() {
    let secret = StatelessResetSecret::from([3; 32]);
    let token = secret.token_for(&[1, 2, 3, 4]);
    assert_eq!(token, secret.token_for(&[1, 2, 3, 4]));
    assert_ne!(token, secret.token_for(&[1, 2, 3, 5]));
    assert_ne!(token, StatelessResetSecret::from([4; 32]).token_for(&[1, 2, 3, 4]));
    assert_ne!(&token[..4], &[1, 2, 3, 4]);
}

#[test]
fn retry_tokens_hold_for_their_address_and_time() {
    let secret = RetryTokenSecret::from([5; 32]);
    let addr = PeerAddress::V4 { ip: [10, 0, 0, 1], port: 4433 };
    let odcid = ConnectionId::new(&[1, 2, 3, 4, 5, 6, 7, 8]).unwrap();
    let mut token = Vec::new();
    secret.issue_into(&mut token, &addr, odcid.as_ref_id(), 1000);
    assert_eq!(token.len(), RetryTokenSecret::encoded_len(odcid.as_ref_id()));
    assert!(secret.validate(&addr, &token, 999).unwrap().same(&odcid));
    assert!(secret.validate(&addr, &token, 1000).is_none());
    let other = PeerAddress::V4 { ip: [10, 0, 0, 1], port: 4434 };
    assert!(secret.validate(&other, &token, 999).is_none());
    let other = PeerAddress::V6 { ip: [0; 16], port: 4433, flowinfo: 0, scope_id: 0 };
    assert!(secret.validate(&other, &token, 999).is_none());
    let mut altered = token.clone();
    altered[10] ^= 1;
    assert!(secret.validate(&addr, &altered, 999).is_none());
    assert!(secret.validate(&addr, &token[..24], 999).is_none());
    assert!(addr.same(&addr) && !addr.same(&other));
}

#[test]
fn nothing_is_added_where_the_number_has_no_place() {
    let protection = PacketProtection::aes_128(&client_keys()).unwrap();
    let mut dst = vec![1, 2, 3];
    for (at, len) in [(1, 0), (1, 5), (9, 2), (usize::MAX, 4)] {
        let long = protection.encrypt_long_into(&mut dst, &[0xc0; 10], &[5; 30], 7, at, len);
        assert_eq!(long, Err(CryptoFailure::InvalidPacket));
        let short = protection.encrypt_short_into(&mut dst, &[0x40; 10], &[5; 30], 7, at, len);
        assert_eq!(short, Err(CryptoFailure::InvalidPacket));
        assert_eq!(dst, vec![1, 2, 3]);
    }
    let header = [0x40; 4];
    let short = protection.encrypt_short_into(&mut dst, &header, &[], 7, 3, 1);
    assert_eq!(short, Err(CryptoFailure::InvalidPacket));
    assert_eq!(dst.len(), 3 + 4 + 16);
    assert_eq!(dst[..3], [1, 2, 3]);
    assert_eq!(dst[3..7], header);
}
