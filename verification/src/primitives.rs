//! Cryptographic primitives: each function here hands plain values to one
//! operation of another crate.

use vstd::prelude::*;

use ring::aead::{quic, Aad, LessSafeKey, Nonce, UnboundKey, AES_128_GCM};
use ring::hmac;
use ring::rand::{SecureRandom, SystemRandom};
use shin::crypto::aead;
use shin::crypto::hash::Algorithm;
use shin::crypto::kdf::{Hkdf, HkdfError};
use subtle::ConstantTimeEq;

verus! {

/// The error of the key derivation of `shin`.
#[verifier::external_type_specification]
#[verifier::external_body]
pub struct ExHkdfError(HkdfError);

/// The tag of AES-128-GCM over additional data and no plaintext, or nothing
/// where the key or the data are rejected.
pub uninterp spec fn gcm_tag(key: Seq<u8>, nonce: Seq<u8>, aad: Seq<u8>) -> Option<[u8; 16]>;

/// Ciphertext and tag of AES-128-GCM under a key and an initialization vector
/// that is combined with a sequence number, or nothing on failure.
pub uninterp spec fn aead_sealed(
    key: Seq<u8>,
    iv: Seq<u8>,
    sequence: u64,
    aad: Seq<u8>,
    plaintext: Seq<u8>,
) -> Option<(Seq<u8>, [u8; 16])>;

/// The plaintext of a ciphertext with its tag behind it, or nothing where
/// authentication fails.
pub uninterp spec fn aead_opened(
    key: Seq<u8>,
    iv: Seq<u8>,
    sequence: u64,
    aad: Seq<u8>,
    input: Seq<u8>,
) -> Option<Seq<u8>>;

/// The header protection mask of a sample, or nothing where the key or the
/// sample is rejected.
pub uninterp spec fn hp_mask(key: Seq<u8>, sample: Seq<u8>) -> Option<[u8; 5]>;

/// HMAC-SHA256.
pub uninterp spec fn hmac_sha256_of(key: Seq<u8>, data: Seq<u8>) -> Seq<u8>;

/// HKDF-Extract with SHA-256.
pub uninterp spec fn hkdf_extracted(salt: Seq<u8>, ikm: Seq<u8>) -> Seq<u8>;

/// HKDF-Expand-Label of TLS 1.3 with SHA-256, or nothing where a length is
/// out of range.
pub uninterp spec fn hkdf_expanded(
    prk: Seq<u8>,
    label: Seq<char>,
    context: Seq<u8>,
    length: nat,
) -> Option<Seq<u8>>;

/// The largest input for which the hash functions are called: their own limit
/// is in bits.
pub const MAX_HASH_INPUT: u64 = 0x0fff_ffff_ffff_ffff;

/// Calls `ring::aead::LessSafeKey::seal_in_place_separate_tag` with
/// AES-128-GCM on an empty plaintext. The result is a function of key, nonce
/// and additional data.
#[verifier::external_body]
pub(crate) fn aes_128_gcm_tag(key: &[u8; 16], nonce: [u8; 12], aad: &[u8]) -> (result: Option<
    [u8; 16],
>)
    ensures
        result == gcm_tag(key@, nonce@, aad@),
{
    let key = LessSafeKey::new(UnboundKey::new(&AES_128_GCM, key).ok()?);
    let nonce = Nonce::assume_unique_for_key(nonce);
    let tag = key.seal_in_place_separate_tag(nonce, Aad::from(aad), &mut []).ok()?;
    tag.as_ref().try_into().ok()
}

/// Calls `subtle::ConstantTimeEq::ct_eq` on two byte slices: true exactly if
/// they are equal.
#[verifier::external_body]
pub(crate) fn constant_time_eq(a: &[u8], b: &[u8]) -> (result: bool)
    ensures
        result == (a@ == b@),
{
    bool::from(a.ct_eq(b))
}

/// Calls `shin::crypto::aead::Key::aes_128_gcm`: it refuses a key of another
/// length only, so it accepts each of this type.
#[verifier::external_body]
pub(crate) fn aead_key_is_accepted(key: &[u8; 16], iv: [u8; 12]) -> (result: bool)
    ensures
        result,
{
    aead::Key::aes_128_gcm(key, iv).is_ok()
}

/// Calls `shin::crypto::aead::Key::seal_detached`, which encrypts in place and
/// returns the tag. The ciphertext is as long as the plaintext. On failure the
/// data are left in a state of which nothing is said but their length.
#[verifier::external_body]
pub(crate) fn aead_seal(
    key: &[u8; 16],
    iv: [u8; 12],
    sequence: u64,
    aad: &[u8],
    data: &mut [u8],
    from: usize,
) -> (result: Option<[u8; 16]>)
    requires
        from <= old(data).len(),
    ensures
        final(data).len() == old(data).len(),
        final(data)@.subrange(0, from as int) == old(data)@.subrange(0, from as int),
        match aead_sealed(
            key@,
            iv@,
            sequence,
            aad@,
            old(data)@.subrange(from as int, old(data).len() as int),
        ) {
            Some((ciphertext, tag)) => result == Some(tag) && final(data)@.subrange(
                from as int,
                final(data).len() as int,
            ) == ciphertext,
            None => result is None,
        },
{
    let key = aead::Key::aes_128_gcm(key, iv).ok()?;
    key.seal_detached(sequence, aad, &mut data[from..]).ok()
}

/// Calls `shin::crypto::aead::Key::open`, which decrypts in place and returns
/// the plaintext, 16 bytes shorter than the input. What was sealed under the
/// same key, initialization vector, sequence number and additional data opens
/// to what was sealed. On failure, and behind the plaintext, nothing is said
/// of the data but their length.
#[verifier::external_body]
pub(crate) fn aead_open(
    key: &[u8; 16],
    iv: [u8; 12],
    sequence: u64,
    aad: &[u8],
    data: &mut [u8],
    from: usize,
) -> (result: Option<usize>)
    requires
        from <= old(data).len(),
    ensures
        final(data).len() == old(data).len(),
        final(data)@.subrange(0, from as int) == old(data)@.subrange(0, from as int),
        match aead_opened(
            key@,
            iv@,
            sequence,
            aad@,
            old(data)@.subrange(from as int, old(data).len() as int),
        ) {
            Some(plaintext) => {
                &&& result == Some(plaintext.len() as usize)
                &&& from + plaintext.len() + 16 == old(data).len()
                &&& final(data)@.subrange(from as int, from + plaintext.len()) == plaintext
            },
            None => result is None,
        },
        forall|plaintext: Seq<u8>|
            #![trigger aead_sealed(key@, iv@, sequence, aad@, plaintext)]
            match aead_sealed(key@, iv@, sequence, aad@, plaintext) {
                Some((ciphertext, tag)) => old(data)@.subrange(
                    from as int,
                    old(data).len() as int,
                ) == ciphertext + tag@ ==> result == Some(plaintext.len() as usize)
                    && plaintext.len() <= final(data).len() - from && final(data)@.subrange(
                    from as int,
                    from + plaintext.len(),
                ) == plaintext,
                None => true,
            },
{
    let key = aead::Key::aes_128_gcm(key, iv).ok()?;
    key.open(sequence, aad, &mut data[from..]).ok().map(|plaintext| plaintext.len())
}

/// Calls `ring::aead::quic::HeaderProtectionKey::new` with AES-128: it refuses
/// a key of another length only, so it accepts each of this type.
#[verifier::external_body]
pub(crate) fn hp_key_is_accepted(key: &[u8; 16]) -> (result: bool)
    ensures
        result,
{
    quic::HeaderProtectionKey::new(&quic::AES_128, key).is_ok()
}

/// Calls `ring::aead::quic::HeaderProtectionKey::new_mask` with AES-128.
/// Samples of 16 bytes have a mask, and no others.
#[verifier::external_body]
pub(crate) fn hp_new_mask(key: &[u8; 16], sample: &[u8]) -> (result: Option<[u8; 5]>)
    ensures
        result == hp_mask(key@, sample@),
        (result is Some) == (sample@.len() == 16),
{
    let key = quic::HeaderProtectionKey::new(&quic::AES_128, key).ok()?;
    key.new_mask(sample).ok()
}

/// Calls `ring::hmac::sign` with HMAC-SHA256. The result has 32 bytes.
#[verifier::external_body]
pub(crate) fn hmac_sha256(key: &[u8], data: &[u8]) -> (result: Vec<u8>)
    requires
        key@.len() <= MAX_HASH_INPUT,
        data@.len() <= MAX_HASH_INPUT,
    ensures
        result@ == hmac_sha256_of(key@, data@),
        result@.len() == 32,
{
    hmac::sign(&hmac::Key::new(hmac::HMAC_SHA256, key), data).as_ref().to_vec()
}

/// Calls `shin::crypto::kdf::Hkdf::extract` with SHA-256. The result has 32
/// bytes.
#[verifier::external_body]
pub(crate) fn hkdf_extract(salt: &[u8], ikm: &[u8]) -> (result: Vec<u8>)
    requires
        salt@.len() <= MAX_HASH_INPUT,
        ikm@.len() <= MAX_HASH_INPUT,
    ensures
        result@ == hkdf_extracted(salt@, ikm@),
        result@.len() == 32,
{
    Hkdf::new(Algorithm::Sha256).extract(salt, ikm).as_slice().to_vec()
}

/// Calls `shin::crypto::kdf::Hkdf::expand_label` with SHA-256. It fails only
/// where a length is out of range, never for an ASCII label of at most 249
/// characters with at most 255 bytes of context and 8160 bytes of output.
#[verifier::external_body]
pub(crate) fn hkdf_expand_label(prk: &[u8], label: &str, context: &[u8], length: usize) -> (result:
    Result<Vec<u8>, HkdfError>)
    requires
        prk@.len() <= MAX_HASH_INPUT,
        length <= 8160,
    ensures
        match result {
            Ok(out) => hkdf_expanded(prk@, label@, context@, length as nat) == Some(out@)
                && out@.len() == length,
            Err(_) => hkdf_expanded(prk@, label@, context@, length as nat) is None,
        },
        label.is_ascii() && label@.len() <= 249 && context@.len() <= 255 ==> result is Ok,
{
    let mut out = vec![0u8; length];
    Hkdf::new(Algorithm::Sha256).expand_label(prk, label, context, &mut out)?;
    Ok(out)
}

/// Calls `ring::rand::SecureRandom::fill` on `ring::rand::SystemRandom`.
/// Nothing is said of the bytes but how many there are; the result tells
/// whether they were filled.
#[verifier::external_body]
pub(crate) fn fill_random(out: &mut Vec<u8>) -> (result: bool)
    ensures
        final(out).len() == old(out).len(),
{
    SystemRandom::new().fill(out).is_ok()
}

} // verus!
