//! Packet headers, connection IDs and Retry packets.

use vstd::prelude::*;

use crate::frame::put_bytes;
use crate::varint::VarInt;
use crate::wire::{get_be, put_be, same_bytes};

pub mod laws;
pub mod long;
pub mod model;
pub mod retry;

pub use long::{
    DecodedHandshakePrefix, DecodedInitialPrefix, DecryptedLong, HandshakeHeader, InitialHeader,
    LongHeader, ParsedLong, ZeroRttHeader,
};
pub use retry::{Retry, RetryRef, VerifiedRetry};

use model::{
    cid_at, first_byte_type, length_at, parse_prefix, short_bytes, type_bits, valid_cids,
    valid_pn_len, PrefixModel,
};

verus! {

pub const FORM_LONG: u8 = 0x80;

pub const FIXED_BIT: u8 = 0x40;

pub const LONG_TYPE_MASK: u8 = 0x30;

pub const LONG_INITIAL: u8 = 0x00;

pub const LONG_ZERO_RTT: u8 = 0x10;

pub const LONG_HANDSHAKE: u8 = 0x20;

pub const LONG_RETRY: u8 = 0x30;

pub const QUIC_V1: u32 = 0x0000_0001;

pub const MAX_CONNECTION_ID_LEN: usize = 20;

pub const RETRY_INTEGRITY_TAG_LEN: usize = 16;

/// A connection ID of at most 20 bytes.
#[derive(Debug, Clone, Copy, PartialEq, Eq, Hash)]
pub struct ConnectionId {
    bytes: [u8; 20],
    len: u8,
}

impl View for ConnectionId {
    type V = Seq<u8>;

    closed spec fn view(&self) -> Seq<u8> {
        self.bytes@.subrange(0, self.len as int)
    }
}

impl ConnectionId {
    #[verifier::type_invariant]
    spec fn canonical(self) -> bool {
        &&& self.len <= MAX_CONNECTION_ID_LEN
        &&& forall|i: int| self.len <= i < 20 ==> self.bytes@[i] == 0
    }

    /// The connection ID of the given bytes, which are few enough.
    pub fn new(bytes: &[u8]) -> (result: Option<ConnectionId>)
        ensures
            match result {
                Some(cid) => bytes.len() <= MAX_CONNECTION_ID_LEN && cid@ == bytes@,
                None => bytes.len() > MAX_CONNECTION_ID_LEN,
            },
    {
        if bytes.len() > MAX_CONNECTION_ID_LEN {
            return None;
        }
        Some(Self::from_validated(bytes))
    }

    fn from_validated(bytes: &[u8]) -> (cid: ConnectionId)
        requires
            bytes.len() <= MAX_CONNECTION_ID_LEN,
        ensures
            cid@ == bytes@,
    {
        let mut out: [u8; 20] = [0; 20];
        let mut i: usize = 0;
        while i < bytes.len()
            invariant
                i <= bytes.len() <= 20,
                forall|k: int| 0 <= k < i ==> out@[k] == bytes@[k],
                forall|k: int| i <= k < 20 ==> out@[k] == 0,
            decreases bytes.len() - i,
        {
            out[i] = bytes[i];
            i += 1;
        }
        let cid = ConnectionId { bytes: out, len: bytes.len() as u8 };
        assert(cid@ =~= bytes@);
        cid
    }

    /// The connection ID of the given bytes, or an error where they are too
    /// many.
    pub fn try_from_slice(bytes: &[u8]) -> (result: Result<ConnectionId, ConnectionIdError>)
        ensures
            match result {
                Ok(cid) => bytes.len() <= MAX_CONNECTION_ID_LEN && cid@ == bytes@,
                Err(error) => bytes.len() > MAX_CONNECTION_ID_LEN && error
                    == ConnectionIdError::TooLong,
            },
    {
        match Self::new(bytes) {
            Some(cid) => Ok(cid),
            None => Err(ConnectionIdError::TooLong),
        }
    }

    pub fn as_slice(&self) -> (bytes: &[u8])
        ensures
            bytes@ == self@,
            bytes.len() <= MAX_CONNECTION_ID_LEN,
    {
        proof {
            use_type_invariant(self);
        }
        vstd::slice::slice_subrange(self.bytes.as_slice(), 0, self.len as usize)
    }

    pub fn len(&self) -> (len: usize)
        ensures
            len == self@.len(),
            len <= MAX_CONNECTION_ID_LEN,
    {
        proof {
            use_type_invariant(self);
        }
        self.len as usize
    }

    pub fn is_empty(&self) -> (result: bool)
        ensures
            result == (self@.len() == 0),
    {
        proof {
            use_type_invariant(self);
        }
        self.len == 0
    }

    pub fn as_ref_id(&self) -> (result: ConnectionIdRef<'_>)
        ensures
            result@ == self@,
    {
        ConnectionIdRef { bytes: self.as_slice() }
    }

    /// The bytes as an owned value.
    pub fn to_vec(&self) -> (result: Vec<u8>)
        ensures
            result@ == self@,
    {
        vstd::slice::slice_to_vec(self.as_slice())
    }

    /// Two connection IDs are the same value exactly if their bytes agree:
    /// what lies behind the bytes in use does not tell them apart.
    pub fn same(&self, other: &ConnectionId) -> (result: bool)
        ensures
            result == (self@ == other@),
            result ==> *self == *other,
    {
        proof {
            use_type_invariant(self);
            use_type_invariant(other);
        }
        let result = same_bytes(self.as_slice(), other.as_slice());
        proof {
            if result {
                assert(self@.len() == self.len && other@.len() == other.len);
                assert forall|i: int| 0 <= i < 20 implies self.bytes@[i] == other.bytes@[i] by {
                    if i < self.len {
                        assert(self@[i] == other@[i]);
                    }
                }
                assert(self.bytes@ =~= other.bytes@);
                assert(self.bytes =~= other.bytes);
            }
        }
        result
    }
}

impl Default for ConnectionId {
    fn default() -> (cid: ConnectionId)
        ensures
            cid@ == Seq::<u8>::empty(),
    {
        let cid = ConnectionId { bytes: [0; 20], len: 0 };
        assert(cid@ =~= Seq::<u8>::empty());
        cid
    }
}

#[derive(Debug, Clone, Copy, PartialEq, Eq, Structural)]
pub enum ConnectionIdError {
    TooLong,
}

impl ConnectionIdError {
    /// A description for people.
    pub fn message(self) -> (text: &'static str)
        ensures
            text@ == "connection ID exceeds 20 bytes"@,
    {
        "connection ID exceeds 20 bytes"
    }
}

/// A connection ID that borrows its bytes.
#[derive(Debug, Clone, Copy)]
pub struct ConnectionIdRef<'a> {
    bytes: &'a [u8],
}

impl<'a> View for ConnectionIdRef<'a> {
    type V = Seq<u8>;

    closed spec fn view(&self) -> Seq<u8> {
        self.bytes@
    }
}

impl<'a> ConnectionIdRef<'a> {
    #[verifier::type_invariant]
    spec fn short_enough(self) -> bool {
        self.bytes@.len() <= MAX_CONNECTION_ID_LEN
    }

    pub fn new(bytes: &'a [u8]) -> (result: Result<ConnectionIdRef<'a>, ConnectionIdError>)
        ensures
            match result {
                Ok(cid) => bytes.len() <= MAX_CONNECTION_ID_LEN && cid@ == bytes@,
                Err(error) => bytes.len() > MAX_CONNECTION_ID_LEN && error
                    == ConnectionIdError::TooLong,
            },
    {
        if bytes.len() <= MAX_CONNECTION_ID_LEN {
            Ok(ConnectionIdRef { bytes })
        } else {
            Err(ConnectionIdError::TooLong)
        }
    }

    fn from_validated(bytes: &'a [u8]) -> (cid: ConnectionIdRef<'a>)
        requires
            bytes.len() <= MAX_CONNECTION_ID_LEN,
        ensures
            cid@ == bytes@,
    {
        ConnectionIdRef { bytes }
    }

    pub fn into_slice(self) -> (bytes: &'a [u8])
        ensures
            bytes@ == self@,
            bytes.len() <= MAX_CONNECTION_ID_LEN,
    {
        proof {
            use_type_invariant(self);
        }
        self.bytes
    }

    pub fn len(self) -> (len: usize)
        ensures
            len == self@.len(),
            len <= MAX_CONNECTION_ID_LEN,
    {
        proof {
            use_type_invariant(self);
        }
        self.bytes.len()
    }

    pub fn is_empty(self) -> (result: bool)
        ensures
            result == (self@.len() == 0),
    {
        self.bytes.len() == 0
    }

    pub fn into_owned(self) -> (cid: ConnectionId)
        ensures
            cid@ == self@,
    {
        ConnectionId::from_validated(self.into_slice())
    }

    /// Whether two connection IDs have the same bytes.
    pub fn same(self, other: ConnectionIdRef<'_>) -> (result: bool)
        ensures
            result == (self@ == other@),
    {
        same_bytes(self.bytes, other.bytes)
    }
}

#[derive(Debug, Clone, Copy, PartialEq, Eq, Structural)]
pub enum DecodeError {
    Underflow,
    NotLongHeader,
    UnsupportedVersion,
    BadCidLen,
    BadVarInt,
    BadType,
}

impl DecodeError {
    /// A description for people.
    pub fn message(self) -> (text: &'static str)
        ensures
            text@ == (match self {
                DecodeError::Underflow => "truncated packet header"@,
                DecodeError::NotLongHeader => "expected a long packet header"@,
                DecodeError::UnsupportedVersion => "unsupported QUIC version"@,
                DecodeError::BadCidLen => "invalid connection ID length"@,
                DecodeError::BadVarInt => "invalid packet integer"@,
                DecodeError::BadType => "invalid packet type"@,
            }),
    {
        match self {
            DecodeError::Underflow => "truncated packet header",
            DecodeError::NotLongHeader => "expected a long packet header",
            DecodeError::UnsupportedVersion => "unsupported QUIC version",
            DecodeError::BadCidLen => "invalid connection ID length",
            DecodeError::BadVarInt => "invalid packet integer",
            DecodeError::BadType => "invalid packet type",
        }
    }
}

#[derive(Debug, Clone, Copy, PartialEq, Eq, Structural)]
pub enum EncodeError {
    InvalidPacketNumberLength,
    CidTooLong,
    ValueOutOfRange,
    Crypto,
}

impl EncodeError {
    /// A description for people.
    pub fn message(self) -> (text: &'static str)
        ensures
            text@ == (match self {
                EncodeError::InvalidPacketNumberLength => "invalid packet number length"@,
                EncodeError::CidTooLong => "connection ID is too long"@,
                EncodeError::ValueOutOfRange => "packet value is out of range"@,
                EncodeError::Crypto => "packet cryptography failed"@,
            }),
    {
        match self {
            EncodeError::InvalidPacketNumberLength => "invalid packet number length",
            EncodeError::CidTooLong => "connection ID is too long",
            EncodeError::ValueOutOfRange => "packet value is out of range",
            EncodeError::Crypto => "packet cryptography failed",
        }
    }
}

/// The types of packets with a long header.
#[derive(Debug, Clone, Copy, PartialEq, Eq, Structural)]
pub enum LongType {
    Initial,
    ZeroRtt,
    Handshake,
    Retry,
}

impl LongType {
    pub fn from_first_byte(b: u8) -> (result: Result<LongType, DecodeError>)
        ensures
            result == first_byte_type(b),
    {
        if b < FORM_LONG {
            return Err(DecodeError::NotLongHeader);
        }
        let bits: u8 = (b / 16 % 4) * 16;
        if bits == LONG_INITIAL {
            Ok(LongType::Initial)
        } else if bits == LONG_ZERO_RTT {
            Ok(LongType::ZeroRtt)
        } else if bits == LONG_HANDSHAKE {
            Ok(LongType::Handshake)
        } else {
            Ok(LongType::Retry)
        }
    }

    /// The bits of the first byte that tell the type.
    pub fn bits(self) -> (result: u8)
        ensures
            result == type_bits(self),
    {
        match self {
            LongType::Initial => LONG_INITIAL,
            LongType::ZeroRtt => LONG_ZERO_RTT,
            LongType::Handshake => LONG_HANDSHAKE,
            LongType::Retry => LONG_RETRY,
        }
    }
}

/// Rejects packet number lengths and connection IDs that no header can hold.
fn validate_header_fields(pn_len: u8, dcid: &[u8], scid: &[u8]) -> (result: Result<(), EncodeError>)
    ensures
        match result {
            Ok(_) => valid_pn_len(pn_len) && valid_cids(dcid@, scid@),
            Err(EncodeError::InvalidPacketNumberLength) => !valid_pn_len(pn_len),
            Err(EncodeError::CidTooLong) => valid_pn_len(pn_len) && !valid_cids(dcid@, scid@),
            Err(_) => false,
        },
{
    if pn_len < 1 || pn_len > 4 {
        return Err(EncodeError::InvalidPacketNumberLength);
    }
    if dcid.len() > MAX_CONNECTION_ID_LEN || scid.len() > MAX_CONNECTION_ID_LEN {
        return Err(EncodeError::CidTooLong);
    }
    Ok(())
}

/// The connection ID whose length byte stands at `pos`, and the position
/// behind it.
fn take_connection_id<'a>(input: &'a [u8], pos: usize) -> (result: Result<
    (ConnectionIdRef<'a>, usize),
    DecodeError,
>)
    ensures
        match result {
            Ok((cid, end)) => cid_at(input@, pos as int) == Ok::<(Seq<u8>, int), DecodeError>(
                (cid@, end as int),
            ) && pos < end <= input.len(),
            Err(error) => cid_at(input@, pos as int) == Err::<(Seq<u8>, int), DecodeError>(error),
        },
{
    if pos >= input.len() {
        return Err(DecodeError::Underflow);
    }
    let length: usize = input[pos] as usize;
    if length > MAX_CONNECTION_ID_LEN {
        return Err(DecodeError::BadCidLen);
    }
    if input.len() - pos - 1 < length {
        return Err(DecodeError::Underflow);
    }
    let end: usize = pos + 1 + length;
    Ok((ConnectionIdRef::from_validated(vstd::slice::slice_subrange(input, pos + 1, end)), end))
}

/// What all long headers begin with.
struct LongPrefix<'a> {
    version: u32,
    dcid: ConnectionIdRef<'a>,
    scid: ConnectionIdRef<'a>,
    scid_at: usize,
    pos: usize,
}

impl<'a> LongPrefix<'a> {
    spec fn stands_for(self, model: PrefixModel) -> bool {
        &&& model.version == self.version
        &&& model.dcid == self.dcid@
        &&& model.scid == self.scid@
        &&& model.scid_at == self.scid_at
        &&& model.end == self.pos
    }
}

fn decode_long_prefix<'a>(input: &'a [u8], kind: LongType) -> (result: Result<
    LongPrefix<'a>,
    DecodeError,
>)
    ensures
        match result {
            Ok(prefix) => {
                &&& parse_prefix(input@, kind) matches Ok(model) && prefix.stands_for(model)
                &&& 7 <= prefix.pos <= input.len()
                &&& prefix.scid_at + 1 + prefix.scid@.len() == prefix.pos
                &&& 6 <= prefix.scid_at <= 26
            },
            Err(error) => parse_prefix(input@, kind) == Err::<PrefixModel, DecodeError>(error),
        },
{
    if input.len() < 7 {
        return Err(DecodeError::Underflow);
    }
    let first: u8 = input[0];
    if first < FORM_LONG {
        return Err(DecodeError::NotLongHeader);
    }
    if (first / 16 % 4) * 16 != kind.bits() {
        return Err(DecodeError::BadType);
    }
    let version: u64 = get_be(vstd::slice::slice_subrange(input, 1, 5));
    if version != QUIC_V1 as u64 {
        return Err(DecodeError::UnsupportedVersion);
    }
    let (dcid, scid_at) = take_connection_id(input, 5)?;
    let (scid, pos) = take_connection_id(input, scid_at)?;
    Ok(LongPrefix { version: QUIC_V1, dcid, scid, scid_at, pos })
}

/// The length that is encoded at `pos`, and the position behind it.
fn decode_length(input: &[u8], pos: usize) -> (result: Result<(usize, usize), DecodeError>)
    requires
        pos <= input.len(),
    ensures
        match result {
            Ok((length, end)) => length_at(input@, pos as int) == Ok::<(int, int), DecodeError>(
                (length as int, end as int),
            ) && pos < end <= input.len(),
            Err(error) => length_at(input@, pos as int) == Err::<(int, int), DecodeError>(error),
        },
{
    let rest = vstd::slice::slice_subrange(input, pos, input.len());
    match VarInt::decode(rest) {
        Ok((length, n)) => {
            if length.get() > usize::MAX as u64 {
                Err(DecodeError::BadVarInt)
            } else {
                Ok((length.get() as usize, pos + n))
            }
        },
        Err(_) => Err(DecodeError::BadVarInt),
    }
}

/// A short header that borrows its connection ID.
pub struct ShortHeaderRef<'a> {
    pub dcid: &'a [u8],
    pub packet_number: u64,
    pub pn_len: u8,
}

impl<'a> ShortHeaderRef<'a> {
    /// Appends the header; returns where in `out` the packet number begins.
    pub fn encode_into(self, out: &mut Vec<u8>) -> (result: Result<usize, EncodeError>)
        ensures
            match result {
                Ok(pn_offset) => {
                    &&& valid_pn_len(self.pn_len)
                    &&& self.dcid@.len() <= MAX_CONNECTION_ID_LEN
                    &&& final(out)@ == old(out)@ + short_bytes(
                        self.dcid@,
                        self.packet_number,
                        self.pn_len,
                    )
                    &&& pn_offset == old(out)@.len() + 1 + self.dcid@.len()
                },
                Err(error) => {
                    &&& final(out)@ == old(out)@
                    &&& error == if !valid_pn_len(self.pn_len) {
                        EncodeError::InvalidPacketNumberLength
                    } else {
                        EncodeError::CidTooLong
                    }
                    &&& !(valid_pn_len(self.pn_len) && self.dcid@.len() <= MAX_CONNECTION_ID_LEN)
                },
            },
    {
        validate_header_fields(self.pn_len, self.dcid, self.dcid)?;
        out.push(FIXED_BIT + (self.pn_len - 1));
        put_bytes(out, self.dcid);
        let pn_offset: usize = out.len();
        put_be(out, self.packet_number, self.pn_len as usize);
        assert(out@ =~= old(out)@ + short_bytes(self.dcid@, self.packet_number, self.pn_len));
        Ok(pn_offset)
    }
}

/// The header of a packet of an established connection.
#[derive(Debug, Clone)]
pub struct ShortHeader {
    pub dcid: Vec<u8>,
    pub packet_number: u64,
    pub pn_len: u8,
}

impl ShortHeader {
    /// The encoded header, and where in it the packet number begins.
    pub fn encode_with_pn(&self) -> (result: Result<(Vec<u8>, usize), EncodeError>)
        ensures
            match result {
                Ok((bytes, pn_offset)) => {
                    &&& valid_pn_len(self.pn_len)
                    &&& self.dcid@.len() <= MAX_CONNECTION_ID_LEN
                    &&& bytes@ == short_bytes(self.dcid@, self.packet_number, self.pn_len)
                    &&& pn_offset == 1 + self.dcid@.len()
                },
                Err(error) => {
                    &&& error == if !valid_pn_len(self.pn_len) {
                        EncodeError::InvalidPacketNumberLength
                    } else {
                        EncodeError::CidTooLong
                    }
                    &&& !(valid_pn_len(self.pn_len) && self.dcid@.len() <= MAX_CONNECTION_ID_LEN)
                },
            },
    {
        let mut out: Vec<u8> = Vec::new();
        let header = ShortHeaderRef {
            dcid: &self.dcid,
            packet_number: self.packet_number,
            pn_len: self.pn_len,
        };
        let pn_offset: usize = header.encode_into(&mut out)?;
        assert(out@ =~= short_bytes(self.dcid@, self.packet_number, self.pn_len));
        Ok((out, pn_offset))
    }

    /// Where the packet number begins behind a connection ID of the given
    /// length.
    pub fn pn_offset_for(dcid_len: usize) -> (offset: usize)
        requires
            dcid_len < usize::MAX,
        ensures
            offset == 1 + dcid_len,
    {
        1 + dcid_len
    }
}

} // verus!
