//! Packet headers on the wire.

use vstd::prelude::*;

use crate::packet::{DecodeError, LongType, MAX_CONNECTION_ID_LEN, QUIC_V1};
use crate::varint::{varint_bytes, varint_parse, MAX_VARINT};
use crate::wire::{be_bytes, be_value};

verus! {

/// The bits of the first byte that tell the type of a long header.
pub open spec fn type_bits(kind: LongType) -> u8 {
    match kind {
        LongType::Initial => 0x00,
        LongType::ZeroRtt => 0x10,
        LongType::Handshake => 0x20,
        LongType::Retry => 0x30,
    }
}

/// The type bits of a first byte.
pub open spec fn type_bits_of(first: u8) -> u8 {
    ((first / 16 % 4) * 16) as u8
}

/// What a first byte says of a long header.
pub open spec fn first_byte_type(first: u8) -> Result<LongType, DecodeError> {
    if first < 0x80 {
        Err(DecodeError::NotLongHeader)
    } else if type_bits_of(first) == 0x00 {
        Ok(LongType::Initial)
    } else if type_bits_of(first) == 0x10 {
        Ok(LongType::ZeroRtt)
    } else if type_bits_of(first) == 0x20 {
        Ok(LongType::Handshake)
    } else {
        Ok(LongType::Retry)
    }
}

/// The connection ID whose length byte stands at `at`, and the position
/// behind it.
pub open spec fn cid_at(input: Seq<u8>, at: int) -> Result<(Seq<u8>, int), DecodeError> {
    if at >= input.len() {
        Err(DecodeError::Underflow)
    } else if input[at] > MAX_CONNECTION_ID_LEN {
        Err(DecodeError::BadCidLen)
    } else if at + 1 + input[at] > input.len() {
        Err(DecodeError::Underflow)
    } else {
        Ok((input.subrange(at + 1, at + 1 + input[at]), at + 1 + input[at]))
    }
}

/// What all long headers begin with.
pub struct PrefixModel {
    pub version: u32,
    pub dcid: Seq<u8>,
    pub scid: Seq<u8>,
    /// The position of the length byte of the source connection ID.
    pub scid_at: int,
    /// The position behind the prefix.
    pub end: int,
}

pub open spec fn parse_prefix(input: Seq<u8>, kind: LongType) -> Result<PrefixModel, DecodeError> {
    if input.len() < 7 {
        Err(DecodeError::Underflow)
    } else if input[0] < 0x80 {
        Err(DecodeError::NotLongHeader)
    } else if type_bits_of(input[0]) != type_bits(kind) {
        Err(DecodeError::BadType)
    } else if be_value(input.subrange(1, 5)) != QUIC_V1 {
        Err(DecodeError::UnsupportedVersion)
    } else {
        match cid_at(input, 5) {
            Err(error) => Err(error),
            Ok((dcid, scid_at)) => match cid_at(input, scid_at) {
                Err(error) => Err(error),
                Ok((scid, end)) => Ok(
                    PrefixModel { version: QUIC_V1, dcid, scid, scid_at, end },
                ),
            },
        }
    }
}

/// The length that is encoded at `at`, and the position behind it.
pub open spec fn length_at(input: Seq<u8>, at: int) -> Result<(int, int), DecodeError> {
    match varint_parse(input.subrange(at, input.len() as int)) {
        None => Err(DecodeError::BadVarInt),
        Some((value, n)) => if value > usize::MAX {
            Err(DecodeError::BadVarInt)
        } else {
            Ok((value as int, at + n))
        },
    }
}

/// A long header up to the packet number.
pub struct LayoutModel {
    pub prefix: PrefixModel,
    pub token: Option<Seq<u8>>,
    /// The position of the packet number.
    pub pn_offset: int,
    /// The announced length of packet number and payload.
    pub length: int,
}

/// The token of an Initial packet, and the position behind it.
pub open spec fn token_at(input: Seq<u8>, at: int) -> Result<(Seq<u8>, int), DecodeError> {
    match length_at(input, at) {
        Err(error) => Err(error),
        Ok((len, at)) => if at + len > input.len() {
            Err(DecodeError::Underflow)
        } else {
            Ok((input.subrange(at, at + len), at + len))
        },
    }
}

pub open spec fn parse_layout(input: Seq<u8>, kind: LongType) -> Result<LayoutModel, DecodeError> {
    if kind == LongType::Retry {
        Err(DecodeError::BadType)
    } else {
        match parse_prefix(input, kind) {
            Err(error) => Err(error),
            Ok(prefix) => match (if kind == LongType::Initial {
                match token_at(input, prefix.end) {
                    Err(error) => Err(error),
                    Ok((token, at)) => Ok((Some(token), at)),
                }
            } else {
                Ok((None, prefix.end))
            }) {
                Err(error) => Err(error),
                Ok((token, at)) => match length_at(input, at) {
                    Err(error) => Err(error),
                    Ok((length, pn_offset)) => if pn_offset + length > usize::MAX {
                        Err(DecodeError::Underflow)
                    } else {
                        Ok(LayoutModel { prefix, token, pn_offset, length })
                    },
                },
            },
        }
    }
}

/// First byte, version and connection IDs of a long header.
pub open spec fn prefix_bytes(first: u8, version: u32, dcid: Seq<u8>, scid: Seq<u8>) -> Seq<u8> {
    seq![first] + be_bytes(version as nat, 4) + seq![dcid.len() as u8] + dcid + seq![
        scid.len() as u8,
    ] + scid
}

/// A long header before it is encoded.
pub struct LongModel {
    pub version: u32,
    pub kind: LongType,
    pub dcid: Seq<u8>,
    pub scid: Seq<u8>,
    pub token: Option<Seq<u8>>,
    pub packet_number: u64,
    pub packet_number_len: u8,
}

/// The bytes of a long header in front of the token.
pub open spec fn long_head(h: LongModel) -> Seq<u8> {
    prefix_bytes(
        (0xc0 + type_bits(h.kind) + h.packet_number_len - 1) as u8,
        h.version,
        h.dcid,
        h.scid,
    )
}

/// The bytes of a long header in front of the packet number, for a payload of
/// `body` bytes behind it.
pub open spec fn long_front(h: LongModel, body: nat) -> Seq<u8> {
    long_head(h) + (match h.token {
        Some(token) => varint_bytes(token.len() as u64) + token,
        None => seq![],
    }) + varint_bytes((h.packet_number_len + body) as u64)
}

/// The bytes of a long header.
pub open spec fn long_bytes(h: LongModel, body: nat) -> Seq<u8> {
    long_front(h, body) + be_bytes(h.packet_number as nat, h.packet_number_len as nat)
}

pub open spec fn valid_pn_len(pn_len: u8) -> bool {
    1 <= pn_len <= 4
}

pub open spec fn valid_cids(dcid: Seq<u8>, scid: Seq<u8>) -> bool {
    dcid.len() <= MAX_CONNECTION_ID_LEN && scid.len() <= MAX_CONNECTION_ID_LEN
}

/// Whether the announced length is in range.
pub open spec fn valid_length(pn_len: u8, body: nat) -> bool {
    pn_len + body <= MAX_VARINT
}

pub open spec fn valid_token(token: Option<Seq<u8>>) -> bool {
    token matches Some(token) ==> token.len() <= MAX_VARINT
}

/// The bytes of a short header in front of the packet number.
pub open spec fn short_front(dcid: Seq<u8>, pn_len: u8) -> Seq<u8> {
    seq![(0x40 + pn_len - 1) as u8] + dcid
}

/// The bytes of a short header.
pub open spec fn short_bytes(dcid: Seq<u8>, packet_number: u64, pn_len: u8) -> Seq<u8> {
    short_front(dcid, pn_len) + be_bytes(packet_number as nat, pn_len as nat)
}

/// The bytes of a Retry packet in front of its integrity tag.
pub open spec fn retry_header(version: u32, dcid: Seq<u8>, scid: Seq<u8>, token: Seq<u8>) -> Seq<
    u8,
> {
    prefix_bytes(0xf0, version, dcid, scid) + token
}

/// What the integrity tag of a Retry packet is computed over.
pub open spec fn retry_aad(odcid: Seq<u8>, header: Seq<u8>) -> Seq<u8> {
    seq![odcid.len() as u8] + odcid + header
}

} // verus!
