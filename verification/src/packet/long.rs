//! Packets with a long header.

use vstd::prelude::*;

use crate::frame::put_bytes;
use crate::packet::model::{
    first_byte_type, long_bytes, long_front, long_head, parse_layout, valid_cids, valid_length,
    valid_pn_len, valid_token, LayoutModel, LongModel,
};
use crate::packet::{
    decode_length, decode_long_prefix, validate_header_fields, ConnectionId, ConnectionIdRef,
    DecodeError, EncodeError, LongType, FIXED_BIT, FORM_LONG, MAX_CONNECTION_ID_LEN,
};
use crate::packet_protection::{CryptoFailure, PacketProtection};
use crate::varint::{VarInt, MAX_VARINT};
use crate::wire::put_be;

verus! {

/// A long header up to the packet number.
struct LongLayout<'a> {
    version: u32,
    dcid: ConnectionIdRef<'a>,
    scid: ConnectionIdRef<'a>,
    scid_at: usize,
    token: Option<&'a [u8]>,
    pn_offset: usize,
    length: usize,
}

impl<'a> LongLayout<'a> {
    spec fn stands_for(self, model: LayoutModel) -> bool {
        &&& model.prefix.version == self.version
        &&& model.prefix.dcid == self.dcid@
        &&& model.prefix.scid == self.scid@
        &&& model.prefix.scid_at == self.scid_at
        &&& model.token == (match self.token {
            Some(token) => Some(token@),
            None => None,
        })
        &&& model.pn_offset == self.pn_offset
        &&& model.length == self.length
    }
}

fn decode_long_layout<'a>(input: &'a [u8], kind: LongType) -> (result: Result<
    LongLayout<'a>,
    DecodeError,
>)
    ensures
        match result {
            Ok(layout) => {
                &&& parse_layout(input@, kind) matches Ok(model) && layout.stands_for(model)
                &&& layout.pn_offset <= input.len()
                &&& layout.pn_offset + layout.length <= usize::MAX
                &&& layout.scid_at + 1 + layout.scid@.len() <= input.len()
                &&& 6 <= layout.scid_at <= 26
                &&& (layout.token is Some) == (kind == LongType::Initial)
            },
            Err(error) => parse_layout(input@, kind) == Err::<LayoutModel, DecodeError>(error),
        },
{
    if kind == LongType::Retry {
        return Err(DecodeError::BadType);
    }
    let prefix = decode_long_prefix(input, kind)?;
    let (token, pos): (Option<&'a [u8]>, usize) = if kind == LongType::Initial {
        let (token_len, start) = decode_length(input, prefix.pos)?;
        if input.len() - start < token_len {
            return Err(DecodeError::Underflow);
        }
        let end: usize = start + token_len;
        (Some(vstd::slice::slice_subrange(input, start, end)), end)
    } else {
        (None, prefix.pos)
    };
    let (length, pn_offset) = decode_length(input, pos)?;
    if usize::MAX - pn_offset < length {
        return Err(DecodeError::Underflow);
    }
    Ok(
        LongLayout {
            version: prefix.version,
            dcid: prefix.dcid,
            scid: prefix.scid,
            scid_at: prefix.scid_at,
            token,
            pn_offset,
            length,
        },
    )
}

/// A long header that borrows its parts.
pub struct LongHeader<'a> {
    pub version: u32,
    pub kind: LongType,
    pub dcid: &'a [u8],
    pub scid: &'a [u8],
    pub token: Option<&'a [u8]>,
    pub packet_number: u64,
    pub packet_number_len: u8,
}

impl<'a> View for LongHeader<'a> {
    type V = LongModel;

    open spec fn view(&self) -> LongModel {
        LongModel {
            version: self.version,
            kind: self.kind,
            dcid: self.dcid@,
            scid: self.scid@,
            token: match self.token {
                Some(token) => Some(token@),
                None => None,
            },
            packet_number: self.packet_number,
            packet_number_len: self.packet_number_len,
        }
    }
}

/// Why a long header with a payload of `body` bytes cannot be encoded.
pub open spec fn long_error(h: LongModel, body: nat) -> Option<EncodeError> {
    if !valid_pn_len(h.packet_number_len) {
        Some(EncodeError::InvalidPacketNumberLength)
    } else if !valid_cids(h.dcid, h.scid) {
        Some(EncodeError::CidTooLong)
    } else if !valid_length(h.packet_number_len, body) || !valid_token(h.token) {
        Some(EncodeError::ValueOutOfRange)
    } else {
        None
    }
}

impl<'a> LongHeader<'a> {
    /// Appends the header of a packet with `body_len_after_pn` bytes behind
    /// the packet number; returns where in `out` the packet number begins.
    /// Where only the token is too long, what stands in front of it was
    /// appended.
    pub fn encode_into(self, out: &mut Vec<u8>, body_len_after_pn: usize) -> (result: Result<
        usize,
        EncodeError,
    >)
        ensures
            match result {
                Ok(pn_offset) => {
                    &&& long_error(self@, body_len_after_pn as nat) is None
                    &&& final(out)@ == old(out)@ + long_bytes(self@, body_len_after_pn as nat)
                    &&& pn_offset == old(out)@.len() + long_front(
                        self@,
                        body_len_after_pn as nat,
                    ).len()
                },
                Err(error) => {
                    &&& long_error(self@, body_len_after_pn as nat) == Some(error)
                    &&& final(out)@ == if valid_pn_len(self.packet_number_len) && valid_cids(
                        self.dcid@,
                        self.scid@,
                    ) && valid_length(self.packet_number_len, body_len_after_pn as nat) {
                        old(out)@ + long_head(self@)
                    } else {
                        old(out)@
                    }
                },
            },
    {
        validate_header_fields(self.packet_number_len, self.dcid, self.scid)?;
        if body_len_after_pn as u64 > MAX_VARINT - self.packet_number_len as u64 {
            return Err(EncodeError::ValueOutOfRange);
        }
        let length: u64 = self.packet_number_len as u64 + body_len_after_pn as u64;
        out.push(FORM_LONG + FIXED_BIT + self.kind.bits() + (self.packet_number_len - 1));
        put_be(out, self.version as u64, 4);
        out.push(self.dcid.len() as u8);
        put_bytes(out, self.dcid);
        out.push(self.scid.len() as u8);
        put_bytes(out, self.scid);
        assert(out@ =~= old(out)@ + long_head(self@));
        if let Some(token) = self.token {
            match VarInt::from_usize(token.len()) {
                Some(token_len) => token_len.encode(out),
                None => {
                    return Err(EncodeError::ValueOutOfRange);
                },
            }
            put_bytes(out, token);
        }
        match VarInt::new(length) {
            Some(length) => length.encode(out),
            None => {
                return Err(EncodeError::ValueOutOfRange);
            },
        }
        assert(out@ =~= old(out)@ + long_front(self@, body_len_after_pn as nat));
        let pn_offset: usize = out.len();
        put_be(out, self.packet_number, self.packet_number_len as usize);
        assert(out@ =~= old(out)@ + long_bytes(self@, body_len_after_pn as nat));
        Ok(pn_offset)
    }
}

/// Encodes a long header into a buffer of its own.
fn encode_long(header: LongHeader<'_>, body_len_after_pn: usize) -> (result: Result<
    (Vec<u8>, usize),
    EncodeError,
>)
    ensures
        match result {
            Ok((bytes, pn_offset)) => {
                &&& long_error(header@, body_len_after_pn as nat) is None
                &&& bytes@ == long_bytes(header@, body_len_after_pn as nat)
                &&& pn_offset == long_front(header@, body_len_after_pn as nat).len()
            },
            Err(error) => long_error(header@, body_len_after_pn as nat) == Some(error),
        },
{
    let mut out: Vec<u8> = Vec::new();
    let ghost model = header@;
    let pn_offset: usize = header.encode_into(&mut out, body_len_after_pn)?;
    assert(out@ =~= long_bytes(model, body_len_after_pn as nat));
    Ok((out, pn_offset))
}

#[derive(Debug, Clone)]
pub struct InitialHeader {
    pub version: u32,
    pub dcid: Vec<u8>,
    pub scid: Vec<u8>,
    pub token: Vec<u8>,
    pub packet_number: u64,
    pub pn_len: u8,
}

impl View for InitialHeader {
    type V = LongModel;

    open spec fn view(&self) -> LongModel {
        LongModel {
            version: self.version,
            kind: LongType::Initial,
            dcid: self.dcid@,
            scid: self.scid@,
            token: Some(self.token@),
            packet_number: self.packet_number,
            packet_number_len: self.pn_len,
        }
    }
}

impl InitialHeader {
    /// The encoded header, and where in it the packet number begins.
    pub fn encode_with_pn(&self, body_len_after_pn: usize) -> (result: Result<
        (Vec<u8>, usize),
        EncodeError,
    >)
        ensures
            match result {
                Ok((bytes, pn_offset)) => {
                    &&& long_error(self@, body_len_after_pn as nat) is None
                    &&& bytes@ == long_bytes(self@, body_len_after_pn as nat)
                    &&& pn_offset == long_front(self@, body_len_after_pn as nat).len()
                },
                Err(error) => long_error(self@, body_len_after_pn as nat) == Some(error),
            },
    {
        encode_long(
            LongHeader {
                version: self.version,
                kind: LongType::Initial,
                dcid: &self.dcid,
                scid: &self.scid,
                token: Some(&self.token),
                packet_number: self.packet_number,
                packet_number_len: self.pn_len,
            },
            body_len_after_pn,
        )
    }

    /// Reads what a header holds before header protection is removed.
    pub fn decode_pre_hp(input: &[u8]) -> (result: Result<DecodedInitialPrefix<'_>, DecodeError>)
        ensures
            match result {
                Ok(prefix) => parse_layout(input@, LongType::Initial) matches Ok(model) && {
                    &&& prefix.version == model.prefix.version
                    &&& prefix.dcid@ == model.prefix.dcid
                    &&& prefix.scid@ == model.prefix.scid
                    &&& Some(prefix.token@) == model.token
                    &&& prefix.pn_offset == model.pn_offset
                    &&& prefix.length == model.length
                },
                Err(error) => parse_layout(input@, LongType::Initial) == Err::<
                    LayoutModel,
                    DecodeError,
                >(error),
            },
    {
        let layout = decode_long_layout(input, LongType::Initial)?;
        let token = match layout.token {
            Some(token) => token,
            None => {
                return Err(DecodeError::BadType);
            },
        };
        Ok(
            DecodedInitialPrefix {
                version: layout.version,
                dcid: layout.dcid,
                scid: layout.scid,
                token,
                pn_offset: layout.pn_offset,
                length: layout.length,
            },
        )
    }
}

#[derive(Debug, Clone, Copy)]
pub struct DecodedInitialPrefix<'a> {
    pub version: u32,
    pub dcid: ConnectionIdRef<'a>,
    pub scid: ConnectionIdRef<'a>,
    pub token: &'a [u8],
    pub pn_offset: usize,
    pub length: usize,
}

#[derive(Debug, Clone, Copy)]
pub struct DecodedHandshakePrefix<'a> {
    pub version: u32,
    pub dcid: ConnectionIdRef<'a>,
    pub scid: ConnectionIdRef<'a>,
    pub pn_offset: usize,
    pub length: usize,
}

impl<'a> DecodedHandshakePrefix<'a> {
    /// Whether the prefix is what a long header says.
    pub open spec fn stands_for(self, model: LayoutModel) -> bool {
        &&& self.version == model.prefix.version
        &&& self.dcid@ == model.prefix.dcid
        &&& self.scid@ == model.prefix.scid
        &&& self.pn_offset == model.pn_offset
        &&& self.length == model.length
    }
}

#[derive(Debug, Clone)]
pub struct HandshakeHeader {
    pub version: u32,
    pub dcid: Vec<u8>,
    pub scid: Vec<u8>,
    pub packet_number: u64,
    pub pn_len: u8,
}

impl View for HandshakeHeader {
    type V = LongModel;

    open spec fn view(&self) -> LongModel {
        LongModel {
            version: self.version,
            kind: LongType::Handshake,
            dcid: self.dcid@,
            scid: self.scid@,
            token: None,
            packet_number: self.packet_number,
            packet_number_len: self.pn_len,
        }
    }
}

impl HandshakeHeader {
    /// The encoded header, and where in it the packet number begins.
    pub fn encode_with_pn(&self, body_len_after_pn: usize) -> (result: Result<
        (Vec<u8>, usize),
        EncodeError,
    >)
        ensures
            match result {
                Ok((bytes, pn_offset)) => {
                    &&& long_error(self@, body_len_after_pn as nat) is None
                    &&& bytes@ == long_bytes(self@, body_len_after_pn as nat)
                    &&& pn_offset == long_front(self@, body_len_after_pn as nat).len()
                },
                Err(error) => long_error(self@, body_len_after_pn as nat) == Some(error),
            },
    {
        encode_long(
            LongHeader {
                version: self.version,
                kind: LongType::Handshake,
                dcid: &self.dcid,
                scid: &self.scid,
                token: None,
                packet_number: self.packet_number,
                packet_number_len: self.pn_len,
            },
            body_len_after_pn,
        )
    }

    /// Reads what a header holds before header protection is removed.
    pub fn decode_pre_hp(input: &[u8]) -> (result: Result<DecodedHandshakePrefix<'_>, DecodeError>)
        ensures
            match result {
                Ok(prefix) => parse_layout(input@, LongType::Handshake) matches Ok(model)
                    && prefix.stands_for(model),
                Err(error) => parse_layout(input@, LongType::Handshake) == Err::<
                    LayoutModel,
                    DecodeError,
                >(error),
            },
    {
        decode_handshake_like(input, LongType::Handshake)
    }
}

fn decode_handshake_like<'a>(input: &'a [u8], kind: LongType) -> (result: Result<
    DecodedHandshakePrefix<'a>,
    DecodeError,
>)
    ensures
        match result {
            Ok(prefix) => parse_layout(input@, kind) matches Ok(model) && prefix.stands_for(model),
            Err(error) => parse_layout(input@, kind) == Err::<LayoutModel, DecodeError>(error),
        },
{
    let layout = decode_long_layout(input, kind)?;
    Ok(
        DecodedHandshakePrefix {
            version: layout.version,
            dcid: layout.dcid,
            scid: layout.scid,
            pn_offset: layout.pn_offset,
            length: layout.length,
        },
    )
}

#[derive(Debug, Clone)]
pub struct ZeroRttHeader {
    pub version: u32,
    pub dcid: Vec<u8>,
    pub scid: Vec<u8>,
    pub packet_number: u64,
    pub pn_len: u8,
}

impl View for ZeroRttHeader {
    type V = LongModel;

    open spec fn view(&self) -> LongModel {
        LongModel {
            version: self.version,
            kind: LongType::ZeroRtt,
            dcid: self.dcid@,
            scid: self.scid@,
            token: None,
            packet_number: self.packet_number,
            packet_number_len: self.pn_len,
        }
    }
}

impl ZeroRttHeader {
    /// The encoded header, and where in it the packet number begins.
    pub fn encode_with_pn(&self, body_len_after_pn: usize) -> (result: Result<
        (Vec<u8>, usize),
        EncodeError,
    >)
        ensures
            match result {
                Ok((bytes, pn_offset)) => {
                    &&& long_error(self@, body_len_after_pn as nat) is None
                    &&& bytes@ == long_bytes(self@, body_len_after_pn as nat)
                    &&& pn_offset == long_front(self@, body_len_after_pn as nat).len()
                },
                Err(error) => long_error(self@, body_len_after_pn as nat) == Some(error),
            },
    {
        encode_long(
            LongHeader {
                version: self.version,
                kind: LongType::ZeroRtt,
                dcid: &self.dcid,
                scid: &self.scid,
                token: None,
                packet_number: self.packet_number,
                packet_number_len: self.pn_len,
            },
            body_len_after_pn,
        )
    }

    /// Reads what a header holds before header protection is removed.
    pub fn decode_pre_hp(input: &[u8]) -> (result: Result<DecodedHandshakePrefix<'_>, DecodeError>)
        ensures
            match result {
                Ok(prefix) => parse_layout(input@, LongType::ZeroRtt) matches Ok(model)
                    && prefix.stands_for(model),
                Err(error) => parse_layout(input@, LongType::ZeroRtt) == Err::<
                    LayoutModel,
                    DecodeError,
                >(error),
            },
    {
        decode_handshake_like(input, LongType::ZeroRtt)
    }
}

/// A datagram whose first packet has a long header, together with the layout
/// of that header.
pub struct ParsedLong {
    packet: Vec<u8>,
    kind: LongType,
    scid_start: u8,
    scid_len: u8,
    pn_offset: usize,
    packet_len: usize,
}

/// The layout of the first packet of a datagram, which holds the whole packet.
pub open spec fn parse_first(input: Seq<u8>) -> Result<(LongType, LayoutModel), DecodeError> {
    if input.len() == 0 {
        Err(DecodeError::Underflow)
    } else {
        match first_byte_type(input[0]) {
            Err(error) => Err(error),
            Ok(kind) => match parse_layout(input, kind) {
                Err(error) => Err(error),
                Ok(layout) => if layout.pn_offset + layout.length > input.len() {
                    Err(DecodeError::Underflow)
                } else {
                    Ok((kind, layout))
                },
            },
        }
    }
}

impl ParsedLong {
    #[verifier::type_invariant]
    spec fn fits(self) -> bool {
        &&& self.scid_start + self.scid_len <= self.packet_len
        &&& self.scid_len <= MAX_CONNECTION_ID_LEN
        &&& self.pn_offset <= self.packet_len <= self.packet@.len()
    }

    /// The datagram.
    pub closed spec fn datagram(self) -> Seq<u8> {
        self.packet@
    }

    pub closed spec fn spec_kind(self) -> LongType {
        self.kind
    }

    /// The source connection ID.
    pub closed spec fn spec_scid(self) -> Seq<u8> {
        self.packet@.subrange(self.scid_start as int, self.scid_start + self.scid_len)
    }

    /// The position of the packet number.
    pub closed spec fn spec_pn_offset(self) -> nat {
        self.pn_offset as nat
    }

    /// The length of the first packet.
    pub closed spec fn spec_packet_len(self) -> nat {
        self.packet_len as nat
    }

    pub fn parse(packet: Vec<u8>) -> (result: Result<ParsedLong, DecodeError>)
        ensures
            match result {
                Ok(parsed) => parse_first(packet@) matches Ok((kind, layout)) && {
                    &&& parsed.datagram() == packet@
                    &&& parsed.spec_kind() == kind
                    &&& parsed.spec_scid() == layout.prefix.scid
                    &&& parsed.spec_pn_offset() == layout.pn_offset
                    &&& parsed.spec_packet_len() == layout.pn_offset + layout.length
                },
                Err(error) => parse_first(packet@) == Err::<(LongType, LayoutModel), DecodeError>(
                    error,
                ),
            },
    {
        if packet.len() == 0 {
            return Err(DecodeError::Underflow);
        }
        let kind = LongType::from_first_byte(packet[0])?;
        let (scid_at, scid_len, pn_offset, length) = {
            let layout = decode_long_layout(packet.as_slice(), kind)?;
            (layout.scid_at, layout.scid.len(), layout.pn_offset, layout.length)
        };
        let packet_len: usize = pn_offset + length;
        if packet_len > packet.len() {
            return Err(DecodeError::Underflow);
        }
        let ghost model = parse_layout(packet@, kind).unwrap();
        let ghost bytes = packet@;
        proof {
            crate::packet::laws::lemma_layout_scid(bytes, kind);
        }
        let parsed = ParsedLong {
            packet,
            kind,
            scid_start: (scid_at + 1) as u8,
            scid_len: scid_len as u8,
            pn_offset,
            packet_len,
        };
        assert(parsed.spec_scid() =~= model.prefix.scid);
        Ok(parsed)
    }

    pub fn kind(&self) -> (kind: LongType)
        ensures
            kind == self.spec_kind(),
    {
        self.kind
    }

    /// The source connection ID.
    pub fn scid(&self) -> (cid: ConnectionId)
        ensures
            cid@ == self.spec_scid(),
    {
        proof {
            use_type_invariant(self);
        }
        let start: usize = self.scid_start as usize;
        let end: usize = start + self.scid_len as usize;
        ConnectionId::from_validated(vstd::slice::slice_subrange(self.packet.as_slice(), start, end))
    }

    /// Cuts the datagram behind its first packet.
    pub fn split_first(self) -> (result: (ParsedLong, Vec<u8>))
        ensures
            result.0.datagram() == self.datagram().subrange(0, self.spec_packet_len() as int),
            result.1@ == self.datagram().subrange(
                self.spec_packet_len() as int,
                self.datagram().len() as int,
            ),
            result.0.spec_kind() == self.spec_kind(),
            result.0.spec_scid() == self.spec_scid(),
            result.0.spec_pn_offset() == self.spec_pn_offset(),
            result.0.spec_packet_len() == self.spec_packet_len() == result.0.datagram().len(),
    {
        proof {
            use_type_invariant(&self);
        }
        let ghost whole = self.packet@;
        let mut packet = self.packet;
        let tail = packet.split_off(self.packet_len);
        assert(packet@ =~= whole.subrange(0, self.packet_len as int));
        let first = ParsedLong {
            packet,
            kind: self.kind,
            scid_start: self.scid_start,
            scid_len: self.scid_len,
            pn_offset: self.pn_offset,
            packet_len: self.packet_len,
        };
        assert(first.spec_scid() =~= whole.subrange(
            self.scid_start as int,
            self.scid_start + self.scid_len,
        ));
        (first, tail)
    }

    /// Removes the protection of the first packet, which is all of the
    /// datagram that is kept.
    pub fn decrypt(self, protection: &PacketProtection, expected_packet_number: u64) -> (result:
        Result<DecryptedLong, CryptoFailure>)
        ensures
            match result {
                Ok(opened) => protection.opens_long(
                    self.datagram(),
                    self.spec_pn_offset() as int,
                    expected_packet_number,
                ) == Ok::<(u64, Seq<u8>), CryptoFailure>(
                    (opened.spec_packet_number(), opened.spec_body()),
                ),
                Err(error) => protection.opens_long(
                    self.datagram(),
                    self.spec_pn_offset() as int,
                    expected_packet_number,
                ) == Err::<(u64, Seq<u8>), CryptoFailure>(error),
            },
    {
        let mut packet = self.packet;
        let (packet_number, start, end) = protection.decrypt_long_in_place(
            packet.as_mut_slice(),
            self.pn_offset,
            expected_packet_number,
        )?;
        Ok(DecryptedLong { packet, packet_number, start, end })
    }
}

/// A packet without its protection.
pub struct DecryptedLong {
    packet: Vec<u8>,
    packet_number: u64,
    start: usize,
    end: usize,
}

impl DecryptedLong {
    #[verifier::type_invariant]
    spec fn fits(self) -> bool {
        self.start <= self.end <= self.packet@.len()
    }

    pub closed spec fn spec_packet_number(self) -> u64 {
        self.packet_number
    }

    /// The payload.
    pub closed spec fn spec_body(self) -> Seq<u8> {
        self.packet@.subrange(self.start as int, self.end as int)
    }

    pub fn packet_number(&self) -> (packet_number: u64)
        ensures
            packet_number == self.spec_packet_number(),
    {
        self.packet_number
    }

    pub fn body(&self) -> (body: &[u8])
        ensures
            body@ == self.spec_body(),
    {
        proof {
            use_type_invariant(self);
        }
        vstd::slice::slice_subrange(self.packet.as_slice(), self.start, self.end)
    }

    /// Packet number, packet, and where in the packet the payload begins and
    /// ends.
    pub fn into_parts(self) -> (result: (u64, Vec<u8>, usize, usize))
        ensures
            result.0 == self.spec_packet_number(),
            result.2 <= result.3 <= result.1@.len(),
            result.1@.subrange(result.2 as int, result.3 as int) == self.spec_body(),
    {
        proof {
            use_type_invariant(&self);
        }
        (self.packet_number, self.packet, self.start, self.end)
    }
}

} // verus!
