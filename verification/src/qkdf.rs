//! Key derivation for packet protection.

use vstd::prelude::*;

use crate::frame::decode::array16;
use crate::primitives::{
    hkdf_expand_label, hkdf_expanded, hkdf_extract, hkdf_extracted, MAX_HASH_INPUT,
};
use shin::crypto::kdf::HkdfError;

verus! {

pub const INITIAL_SALT_V1: [u8; 20] = [
    0x38, 0x76, 0x2c, 0xf7, 0xf5, 0x59, 0x34, 0xb3, 0x4d, 0x17, 0x9a, 0xe6, 0xa4, 0xc8, 0x0c, 0xad,
    0xcc, 0xbb, 0x7f, 0x0a,
];

pub const HASH_LEN: usize = 32;

pub const KEY_LEN: usize = 16;

pub const IV_LEN: usize = 12;

pub const HP_KEY_LEN: usize = 16;

/// A secret expanded under a label without context.
pub open spec fn labelled(secret: Seq<u8>, label: Seq<char>, length: nat) -> Option<Seq<u8>> {
    hkdf_expanded(secret, label, Seq::empty(), length)
}

/// The secrets that protect Initial packets.
#[derive(Debug, Clone, PartialEq, Eq)]
pub struct InitialSecrets {
    pub client: [u8; 32],
    pub server: [u8; 32],
}

/// Copies 32 bytes.
fn array32(bytes: &[u8]) -> (result: [u8; 32])
    requires
        bytes.len() == 32,
    ensures
        result@ == bytes@,
{
    let mut out: [u8; 32] = [0; 32];
    let mut i: usize = 0;
    while i < 32
        invariant
            i <= 32,
            bytes.len() == 32,
            forall|k: int| 0 <= k < i ==> out@[k] == bytes@[k],
        decreases 32 - i,
    {
        out[i] = bytes[i];
        i += 1;
    }
    assert(out@ =~= bytes@);
    out
}

/// Copies 12 bytes.
fn array12(bytes: &[u8]) -> (result: [u8; 12])
    requires
        bytes.len() == 12,
    ensures
        result@ == bytes@,
{
    let mut out: [u8; 12] = [0; 12];
    let mut i: usize = 0;
    while i < 12
        invariant
            i <= 12,
            bytes.len() == 12,
            forall|k: int| 0 <= k < i ==> out@[k] == bytes@[k],
        decreases 12 - i,
    {
        out[i] = bytes[i];
        i += 1;
    }
    assert(out@ =~= bytes@);
    out
}

impl InitialSecrets {
    /// The secrets for the connection ID that the client chose first.
    pub fn from_dcid(dcid: &[u8]) -> (result: Result<InitialSecrets, HkdfError>)
        requires
            dcid@.len() <= MAX_HASH_INPUT,
        ensures
            result matches Ok(secrets) && ({
                let initial = hkdf_extracted(INITIAL_SALT_V1@, dcid@);
                &&& labelled(initial, "client in"@, 32) == Some(secrets.client@)
                &&& labelled(initial, "server in"@, 32) == Some(secrets.server@)
            }),
    {
        proof {
            reveal_strlit("client in");
            reveal_strlit("server in");
        }
        let initial_secret = hkdf_extract(&INITIAL_SALT_V1, dcid);
        let empty: [u8; 0] = [];
        assert(empty@ =~= Seq::<u8>::empty());
        let client = hkdf_expand_label(&initial_secret, "client in", &empty, HASH_LEN)?;
        let server = hkdf_expand_label(&initial_secret, "server in", &empty, HASH_LEN)?;
        Ok(InitialSecrets { client: array32(&client), server: array32(&server) })
    }
}

/// The keys that protect packets in one direction.
#[derive(Debug, Clone, PartialEq, Eq)]
pub struct PacketKeys {
    pub key: [u8; 16],
    pub iv: [u8; 12],
    pub hp: [u8; 16],
}

impl PacketKeys {
    /// The keys of a traffic secret, for AES-128.
    pub fn aes_128(secret: &[u8]) -> (result: Result<PacketKeys, HkdfError>)
        requires
            secret@.len() <= MAX_HASH_INPUT,
        ensures
            result matches Ok(keys) && {
                &&& labelled(secret@, "quic key"@, 16) == Some(keys.key@)
                &&& labelled(secret@, "quic iv"@, 12) == Some(keys.iv@)
                &&& labelled(secret@, "quic hp"@, 16) == Some(keys.hp@)
            },
    {
        proof {
            reveal_strlit("quic key");
            reveal_strlit("quic iv");
            reveal_strlit("quic hp");
        }
        let empty: [u8; 0] = [];
        assert(empty@ =~= Seq::<u8>::empty());
        let key = hkdf_expand_label(secret, "quic key", &empty, KEY_LEN)?;
        let iv = hkdf_expand_label(secret, "quic iv", &empty, IV_LEN)?;
        let hp = hkdf_expand_label(secret, "quic hp", &empty, HP_KEY_LEN)?;
        Ok(PacketKeys { key: array16(&key), iv: array12(&iv), hp: array16(&hp) })
    }
}

} // verus!
