//! Retry packets.

use vstd::prelude::*;

use crate::frame::decode::array16;
use crate::frame::put_bytes;
use crate::packet::laws;
use crate::packet::model::{parse_prefix, prefix_bytes, retry_aad, retry_header, valid_cids};
use crate::packet::{
    decode_long_prefix, validate_header_fields, ConnectionIdRef, DecodeError, EncodeError,
    LongType, FIXED_BIT, FORM_LONG, LONG_RETRY, MAX_CONNECTION_ID_LEN, QUIC_V1,
    RETRY_INTEGRITY_TAG_LEN,
};
use crate::primitives::{aes_128_gcm_tag, constant_time_eq, gcm_tag};
use crate::wire::put_be;

verus! {

pub const RETRY_INTEGRITY_KEY_V1: [u8; 16] = [
    0xbe, 0x0c, 0x69, 0x0b, 0x9f, 0x66, 0x57, 0x5a, 0x1d, 0x76, 0x6b, 0x54, 0xe3, 0x68, 0xc8, 0x4e,
];

pub const RETRY_INTEGRITY_NONCE_V1: [u8; 12] = [
    0x46, 0x15, 0x99, 0xd3, 0x5d, 0x63, 0x2b, 0xf2, 0x23, 0x98, 0x25, 0xbb,
];

/// The integrity tag of a Retry packet over its additional data.
pub open spec fn integrity_tag_of(aad: Seq<u8>) -> Option<[u8; 16]> {
    gcm_tag(RETRY_INTEGRITY_KEY_V1@, RETRY_INTEGRITY_NONCE_V1@, aad)
}

#[derive(Debug, Clone)]
pub struct Retry {
    pub version: u32,
    pub dcid: Vec<u8>,
    pub scid: Vec<u8>,
    pub token: Vec<u8>,
    pub integrity_tag: [u8; 16],
}

/// A structurally valid Retry packet that borrows the received bytes. Its
/// fields are not to be trusted until `verify_into` succeeds.
#[derive(Debug, Clone, Copy)]
pub struct RetryRef<'wire> {
    version: u32,
    dcid: ConnectionIdRef<'wire>,
    scid: ConnectionIdRef<'wire>,
    token: &'wire [u8],
    header: &'wire [u8],
    integrity_tag: [u8; 16],
}

/// The fields of a Retry packet.
pub struct RetryModel {
    pub version: u32,
    pub dcid: Seq<u8>,
    pub scid: Seq<u8>,
    pub token: Seq<u8>,
    pub header: Seq<u8>,
    pub integrity_tag: Seq<u8>,
}

pub open spec fn parse_retry(input: Seq<u8>) -> Result<RetryModel, DecodeError> {
    match parse_prefix(input, LongType::Retry) {
        Err(error) => Err(error),
        Ok(prefix) => if prefix.end + RETRY_INTEGRITY_TAG_LEN > input.len() {
            Err(DecodeError::Underflow)
        } else {
            let end = input.len() - RETRY_INTEGRITY_TAG_LEN;
            Ok(
                RetryModel {
                    version: prefix.version,
                    dcid: prefix.dcid,
                    scid: prefix.scid,
                    token: input.subrange(prefix.end, end),
                    header: input.subrange(0, end),
                    integrity_tag: input.subrange(end, input.len() as int),
                },
            )
        },
    }
}

impl<'wire> View for RetryRef<'wire> {
    type V = RetryModel;

    closed spec fn view(&self) -> RetryModel {
        RetryModel {
            version: self.version,
            dcid: self.dcid@,
            scid: self.scid@,
            token: self.token@,
            header: self.header@,
            integrity_tag: self.integrity_tag@,
        }
    }
}

impl<'wire> RetryRef<'wire> {
    #[verifier::type_invariant]
    spec fn token_ends_header(self) -> bool {
        &&& self.token@.len() <= self.header@.len()
        &&& self.token@ == self.header@.subrange(
            self.header@.len() - self.token@.len(),
            self.header@.len() as int,
        )
    }

    pub fn decode(input: &'wire [u8]) -> (result: Result<RetryRef<'wire>, DecodeError>)
        ensures
            match result {
                Ok(retry) => parse_retry(input@) == Ok::<RetryModel, DecodeError>(retry@),
                Err(error) => parse_retry(input@) == Err::<RetryModel, DecodeError>(error),
            },
    {
        let prefix = decode_long_prefix(input, LongType::Retry)?;
        let token_start: usize = prefix.pos;
        if input.len() < RETRY_INTEGRITY_TAG_LEN || token_start > input.len()
            - RETRY_INTEGRITY_TAG_LEN {
            return Err(DecodeError::Underflow);
        }
        let end: usize = input.len() - RETRY_INTEGRITY_TAG_LEN;
        let integrity_tag = array16(vstd::slice::slice_subrange(input, end, input.len()));
        let token = vstd::slice::slice_subrange(input, token_start, end);
        let header = vstd::slice::slice_subrange(input, 0, end);
        assert(token@ =~= header@.subrange(header@.len() - token@.len(), header@.len() as int));
        Ok(
            RetryRef {
                version: prefix.version,
                dcid: prefix.dcid,
                scid: prefix.scid,
                token,
                header,
                integrity_tag,
            },
        )
    }

    pub fn version(self) -> (version: u32)
        ensures
            version == self@.version,
    {
        self.version
    }

    pub fn destination_connection_id(self) -> (cid: ConnectionIdRef<'wire>)
        ensures
            cid@ == self@.dcid,
    {
        self.dcid
    }

    pub fn source_connection_id(self) -> (cid: ConnectionIdRef<'wire>)
        ensures
            cid@ == self@.scid,
    {
        self.scid
    }

    pub fn token(self) -> (token: &'wire [u8])
        ensures
            token@ == self@.token,
    {
        self.token
    }

    pub fn integrity_tag(self) -> (tag: [u8; 16])
        ensures
            tag@ == self@.integrity_tag,
    {
        self.integrity_tag
    }

    /// Verifies the Retry packet against the connection IDs that the client
    /// used, and keeps its token in `storage`. The storage is empty where the
    /// packet is not accepted. Where no tag can be computed, it holds what the tag
    /// was to authenticate.
    pub fn verify_into<'storage>(
        self,
        original_dcid: ConnectionIdRef<'_>,
        expected_dcid: ConnectionIdRef<'_>,
        storage: &'storage mut Vec<u8>,
    ) -> (result: Result<Option<VerifiedRetry<'wire, 'storage>>, EncodeError>)
        ensures
            ({
                let tag = integrity_tag_of(retry_aad(original_dcid@, self@.header));
                match result {
                    Ok(Some(verified)) => {
                        &&& self@.dcid == expected_dcid@
                        &&& tag matches Some(tag) && tag@ == self@.integrity_tag
                        &&& verified.scid() == self@.scid
                        &&& verified.kept_token() == self@.token
                        &&& final(storage)@ == self@.token
                    },
                    Ok(None) => {
                        &&& final(storage)@.len() == 0
                        &&& self@.dcid != expected_dcid@ || (tag matches Some(tag) && tag@
                            != self@.integrity_tag)
                    },
                    Err(error) => {
                        &&& error == EncodeError::Crypto
                        &&& self@.dcid == expected_dcid@
                        &&& tag is None
                        &&& final(storage)@ == retry_aad(original_dcid@, self@.header)
                    },
                }
            }),
    {
        proof {
            use_type_invariant(self);
        }
        storage.clear();
        if !self.dcid.same(expected_dcid) {
            return Ok(None);
        }
        storage.push(original_dcid.len() as u8);
        put_bytes(storage, original_dcid.into_slice());
        put_bytes(storage, self.header);
        assert(storage@ =~= retry_aad(original_dcid@, self@.header));
        let expected = Retry::tag_from_aad(storage.as_slice())?;
        if !constant_time_eq(&self.integrity_tag, &expected) {
            storage.clear();
            return Ok(None);
        }
        storage.clear();
        put_bytes(storage, self.token);
        assert(storage@ =~= self@.token);
        Ok(Some(VerifiedRetry { scid: self.scid, token: storage.as_slice() }))
    }
}

/// A Retry packet whose destination and integrity tag were verified.
pub struct VerifiedRetry<'wire, 'storage> {
    scid: ConnectionIdRef<'wire>,
    token: &'storage [u8],
}

impl<'wire, 'storage> VerifiedRetry<'wire, 'storage> {
    pub closed spec fn kept_token(self) -> Seq<u8> {
        self.token@
    }

    pub fn token(&self) -> (token: &'storage [u8])
        ensures
            token@ == self.kept_token(),
    {
        self.token
    }

    pub closed spec fn scid(self) -> Seq<u8> {
        self.scid@
    }

    pub fn source_connection_id(&self) -> (cid: ConnectionIdRef<'wire>)
        ensures
            cid@ == self.scid(),
    {
        self.scid
    }
}

impl Retry {
    /// The length of what stands in front of the token.
    pub fn prefix_len(dcid: ConnectionIdRef<'_>, scid: ConnectionIdRef<'_>) -> (len: usize)
        ensures
            len == 7 + dcid@.len() + scid@.len(),
            len <= 7 + 2 * MAX_CONNECTION_ID_LEN,
    {
        7 + dcid.len() + scid.len()
    }

    /// Appends what stands in front of the token.
    pub fn encode_prefix_into(
        out: &mut Vec<u8>,
        version: u32,
        dcid: ConnectionIdRef<'_>,
        scid: ConnectionIdRef<'_>,
    )
        ensures
            final(out)@ == old(out)@ + prefix_bytes(0xf0, version, dcid@, scid@),
    {
        out.push(FORM_LONG + FIXED_BIT + LONG_RETRY);
        put_be(out, version as u64, 4);
        out.push(dcid.len() as u8);
        put_bytes(out, dcid.into_slice());
        out.push(scid.len() as u8);
        put_bytes(out, scid.into_slice());
        assert(out@ =~= old(out)@ + prefix_bytes(0xf0, version, dcid@, scid@));
    }

    /// All of the packet but its integrity tag.
    pub fn encode_header(&self) -> (result: Result<Vec<u8>, EncodeError>)
        ensures
            match result {
                Ok(bytes) => valid_cids(self.dcid@, self.scid@) && bytes@ == retry_header(
                    self.version,
                    self.dcid@,
                    self.scid@,
                    self.token@,
                ),
                Err(error) => !valid_cids(self.dcid@, self.scid@) && error
                    == EncodeError::CidTooLong,
            },
    {
        validate_header_fields(1, &self.dcid, &self.scid)?;
        let dcid = ConnectionIdRef::from_validated(&self.dcid);
        let scid = ConnectionIdRef::from_validated(&self.scid);
        let mut out: Vec<u8> = Vec::new();
        Self::encode_prefix_into(&mut out, self.version, dcid, scid);
        put_bytes(&mut out, &self.token);
        assert(out@ =~= retry_header(self.version, self.dcid@, self.scid@, self.token@));
        Ok(out)
    }

    /// The packet.
    pub fn encode(&self) -> (result: Result<Vec<u8>, EncodeError>)
        ensures
            match result {
                Ok(bytes) => valid_cids(self.dcid@, self.scid@) && bytes@ == retry_header(
                    self.version,
                    self.dcid@,
                    self.scid@,
                    self.token@,
                ) + self.integrity_tag@,
                Err(error) => !valid_cids(self.dcid@, self.scid@) && error
                    == EncodeError::CidTooLong,
            },
    {
        let mut wire = self.encode_header()?;
        put_bytes(&mut wire, &self.integrity_tag);
        Ok(wire)
    }

    /// The integrity tag that the packet should have.
    pub fn compute_integrity_tag(&self, odcid: &[u8]) -> (result: Result<[u8; 16], EncodeError>)
        ensures
            ({
                let header = retry_header(self.version, self.dcid@, self.scid@, self.token@);
                let tag = integrity_tag_of(retry_aad(odcid@, header));
                if !valid_cids(self.dcid@, self.scid@) || odcid@.len() > MAX_CONNECTION_ID_LEN {
                    result == Err::<[u8; 16], EncodeError>(EncodeError::CidTooLong)
                } else {
                    result == (match tag {
                        Some(tag) => Ok(tag),
                        None => Err(EncodeError::Crypto),
                    })
                }
            }),
    {
        let header = self.encode_header()?;
        Self::compute_tag(odcid, &header)
    }

    /// The integrity tag over a header, for the connection ID that the client
    /// chose first.
    pub fn compute_tag(odcid: &[u8], retry_header: &[u8]) -> (result: Result<[u8; 16], EncodeError>)
        ensures
            result == if odcid@.len() > MAX_CONNECTION_ID_LEN {
                Err::<[u8; 16], EncodeError>(EncodeError::CidTooLong)
            } else {
                match integrity_tag_of(retry_aad(odcid@, retry_header@)) {
                    Some(tag) => Ok(tag),
                    None => Err(EncodeError::Crypto),
                }
            },
    {
        if odcid.len() > MAX_CONNECTION_ID_LEN {
            return Err(EncodeError::CidTooLong);
        }
        let mut aad: Vec<u8> = Vec::new();
        aad.push(odcid.len() as u8);
        put_bytes(&mut aad, odcid);
        put_bytes(&mut aad, retry_header);
        assert(aad@ =~= retry_aad(odcid@, retry_header@));
        Self::tag_from_aad(&aad)
    }

    pub fn tag_from_aad(aad: &[u8]) -> (result: Result<[u8; 16], EncodeError>)
        ensures
            result == (match integrity_tag_of(aad@) {
                Some(tag) => Ok::<[u8; 16], EncodeError>(tag),
                None => Err(EncodeError::Crypto),
            }),
    {
        match aes_128_gcm_tag(&RETRY_INTEGRITY_KEY_V1, RETRY_INTEGRITY_NONCE_V1, aad) {
            Some(tag) => Ok(tag),
            None => Err(EncodeError::Crypto),
        }
    }
}

/// The fields of an encoded Retry packet are read back.
pub proof fn law_retry_round_trip(
    version: u32,
    dcid: Seq<u8>,
    scid: Seq<u8>,
    token: Seq<u8>,
    tag: [u8; 16],
)
    requires
        version == QUIC_V1,
        valid_cids(dcid, scid),
    ensures
        parse_retry(retry_header(version, dcid, scid, token) + tag@) == Ok::<
            RetryModel,
            DecodeError,
        >(
            RetryModel {
                version,
                dcid,
                scid,
                token,
                header: retry_header(version, dcid, scid, token),
                integrity_tag: tag@,
            },
        ),
{
    let header = retry_header(version, dcid, scid, token);
    let s = header + tag@;
    laws::lemma_prefix_round_trip(0xf0, version, dcid, scid, LongType::Retry, token + tag@);
    let prefix = prefix_bytes(0xf0, version, dcid, scid);
    assert(s =~= prefix + (token + tag@));
    let end = s.len() - 16;
    assert(s.subrange(prefix.len() as int, end) =~= token);
    assert(s.subrange(0, end) =~= header);
    assert(s.subrange(end, s.len() as int) =~= tag@);
}

/// The last 16 bytes of a Retry packet are its tag, all before them is what the tag covers,
/// and the token is what of it follows the connection IDs.
pub proof fn law_retry_read(input: Seq<u8>)
    ensures
        parse_retry(input) matches Ok(retry) ==> {
            let at = 7 + retry.dcid.len() + retry.scid.len();
            &&& retry.version == 1
            &&& input == retry.header + retry.integrity_tag
            &&& retry.integrity_tag.len() == 16
            &&& retry.token == retry.header.skip(at as int)
            &&& retry.dcid == retry.header.subrange(6, 6 + retry.dcid.len() as int)
            &&& retry.scid == retry.header.subrange(at - retry.scid.len(), at as int)
        },
        parse_prefix(input, LongType::Retry) matches Ok(prefix) ==> (parse_retry(input) is Ok) == (
        prefix.end + 16 <= input.len()),
{
    if let Ok(retry) = parse_retry(input) {
        let at = 7 + retry.dcid.len() + retry.scid.len();
        assert(input =~= retry.header + retry.integrity_tag);
        assert(retry.token =~= retry.header.skip(at as int));
        assert(retry.dcid =~= retry.header.subrange(6, 6 + retry.dcid.len() as int));
        assert(retry.scid =~= retry.header.subrange(at - retry.scid.len(), at as int));
    }
}

} // verus!
