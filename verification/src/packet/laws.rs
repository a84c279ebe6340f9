//! What holds of encoding and decoding headers together.

use vstd::prelude::*;

use crate::packet::long::{long_error, parse_first, InitialHeader, ZeroRttHeader};
use crate::packet::model::{
    first_byte_type, length_at, long_bytes, long_front, long_head, parse_layout, parse_prefix,
    prefix_bytes, retry_aad, retry_header, short_bytes, short_front, type_bits, type_bits_of,
    LayoutModel, LongModel, PrefixModel,
};
use crate::packet::{DecodeError, EncodeError, LongType, MAX_CONNECTION_ID_LEN, QUIC_V1};
use crate::varint::{law_varint_parse_bounds, law_varint_round_trip, varint_bytes, varint_len};
use crate::wire::{be_bytes, be_value, law_be_round_trip, lemma_be_bytes_len, pow256};

verus! {

/// The source connection ID lies behind its length byte.
pub proof fn lemma_layout_scid(input: Seq<u8>, kind: LongType)
    ensures
        parse_layout(input, kind) matches Ok(layout) ==> {
            let at = layout.prefix.scid_at;
            &&& layout.prefix.scid == input.subrange(at + 1, at + 1 + layout.prefix.scid.len())
            &&& at + 1 + layout.prefix.scid.len() <= layout.pn_offset
            &&& layout.pn_offset <= input.len()
            &&& layout.prefix.scid.len() <= MAX_CONNECTION_ID_LEN
        },
{
    if let Ok(layout) = parse_layout(input, kind) {
        let end = layout.prefix.end;
        law_varint_parse_bounds(input.subrange(end, input.len() as int));
        if let Some(token) = layout.token {
            let (len, at) = length_at(input, end).unwrap();
            law_varint_parse_bounds(input.subrange(at + len, input.len() as int));
        }
    }
}

pub proof fn lemma_prefix_round_trip(
    first: u8,
    version: u32,
    dcid: Seq<u8>,
    scid: Seq<u8>,
    kind: LongType,
    rest: Seq<u8>,
)
    requires
        first >= 0x80,
        type_bits_of(first) == type_bits(kind),
        version == QUIC_V1,
        dcid.len() <= MAX_CONNECTION_ID_LEN,
        scid.len() <= MAX_CONNECTION_ID_LEN,
    ensures
        parse_prefix(prefix_bytes(first, version, dcid, scid) + rest, kind) == Ok::<
            PrefixModel,
            DecodeError,
        >(
            PrefixModel {
                version,
                dcid,
                scid,
                scid_at: 6 + dcid.len() as int,
                end: 7 + dcid.len() + scid.len() as int,
            },
        ),
        prefix_bytes(first, version, dcid, scid).len() == 7 + dcid.len() + scid.len(),
{
    let s = prefix_bytes(first, version, dcid, scid) + rest;
    reveal_with_fuel(pow256, 5);
    law_be_round_trip(version as nat, 4);
    assert(s.subrange(1, 5) =~= be_bytes(version as nat, 4));
    assert(s[5] == dcid.len());
    assert(s.subrange(6, 6 + dcid.len() as int) =~= dcid);
    assert(s[6 + dcid.len() as int] == scid.len());
    assert(s.subrange(7 + dcid.len() as int, 7 + dcid.len() + scid.len() as int) =~= scid);
}

/// The fields of an encoded long header are read back, whatever follows it.
#[verifier::rlimit(40)]
pub proof fn law_long_header_round_trip(h: LongModel, body: nat, rest: Seq<u8>)
    requires
        h.version == QUIC_V1,
        h.kind != LongType::Retry,
        (h.token is Some) == (h.kind == LongType::Initial),
        long_error(h, body) is None,
        long_front(h, body).len() + h.packet_number_len + body <= usize::MAX,
    ensures
        parse_layout(long_bytes(h, body) + rest, h.kind) matches Ok(layout) && {
            &&& layout.prefix.version == h.version
            &&& layout.prefix.dcid == h.dcid
            &&& layout.prefix.scid == h.scid
            &&& layout.token == h.token
            &&& layout.pn_offset == long_front(h, body).len()
            &&& layout.length == h.packet_number_len + body
        },
{
    let s = long_bytes(h, body) + rest;
    let first = (0xc0 + type_bits(h.kind) + h.packet_number_len - 1) as u8;
    let length = (h.packet_number_len + body) as u64;
    let pn = be_bytes(h.packet_number as nat, h.packet_number_len as nat) + rest;
    let token_part = match h.token {
        Some(token) => varint_bytes(token.len() as u64) + token,
        None => seq![],
    };
    let after = token_part + varint_bytes(length) + pn;
    assert(s =~= long_head(h) + after);
    lemma_prefix_round_trip(first, h.version, h.dcid, h.scid, h.kind, after);
    let end = long_head(h).len() as int;
    law_varint_round_trip(length, pn);
    match h.token {
        Some(token) => {
            let n = token.len() as u64;
            let behind = token + (varint_bytes(length) + pn);
            law_varint_round_trip(n, behind);
            assert(s.subrange(end, s.len() as int) =~= varint_bytes(n) + behind);
            let at = end + varint_len(n);
            assert(s.subrange(at, at + n) =~= token);
            assert(s.subrange(at + n, s.len() as int) =~= varint_bytes(length) + pn);
        },
        None => {
            assert(s.subrange(end, s.len() as int) =~= varint_bytes(length) + pn);
        },
    }
}

/// An encoded header is not read as one of another type.
pub proof fn law_long_header_keeps_type(h: LongModel, body: nat, rest: Seq<u8>, kind: LongType)
    requires
        h.version == QUIC_V1,
        long_error(h, body) is None,
        kind != h.kind,
    ensures
        parse_layout(long_bytes(h, body) + rest, kind) == Err::<LayoutModel, DecodeError>(
            DecodeError::BadType,
        ),
{
    let s = long_bytes(h, body) + rest;
    let first = (0xc0 + type_bits(h.kind) + h.packet_number_len - 1) as u8;
    assert(type_bits_of(first) == type_bits(h.kind));
    lemma_prefix_round_trip(first, h.version, h.dcid, h.scid, h.kind, Seq::empty());
    assert(long_head(h)[0] == first);
    assert(s[0] == first);
}

/// An Initial header is read back, whatever follows it, and as no other type.
pub proof fn law_initial_round_trip(h: InitialHeader, body: usize, rest: Seq<u8>)
    requires
        h.version == QUIC_V1,
        long_error(h@, body as nat) is None,
        long_front(h@, body as nat).len() + h.pn_len + body <= usize::MAX,
    ensures
        parse_layout(long_bytes(h@, body as nat) + rest, LongType::Initial) matches Ok(layout) && {
            &&& layout.prefix.version == h.version
            &&& layout.prefix.dcid == h.dcid@
            &&& layout.prefix.scid == h.scid@
            &&& layout.token == Some(h.token@)
            &&& layout.pn_offset == long_front(h@, body as nat).len()
            &&& layout.length == h.pn_len + body
        },
        forall|kind: LongType|
            kind != LongType::Initial ==> #[trigger] parse_layout(
                long_bytes(h@, body as nat) + rest,
                kind,
            ) == Err::<LayoutModel, DecodeError>(DecodeError::BadType),
{
    law_long_header_round_trip(h@, body as nat, rest);
    assert forall|kind: LongType| kind != LongType::Initial implies #[trigger] parse_layout(
        long_bytes(h@, body as nat) + rest,
        kind,
    ) == Err::<LayoutModel, DecodeError>(DecodeError::BadType) by {
        law_long_header_keeps_type(h@, body as nat, rest, kind);
    }
}

/// A header of early data is read back, whatever follows it, and as no other type.
pub proof fn law_zero_rtt_round_trip(h: ZeroRttHeader, body: usize, rest: Seq<u8>)
    requires
        h.version == QUIC_V1,
        long_error(h@, body as nat) is None,
        long_front(h@, body as nat).len() + h.pn_len + body <= usize::MAX,
    ensures
        parse_layout(long_bytes(h@, body as nat) + rest, LongType::ZeroRtt) matches Ok(layout) && {
            &&& layout.prefix.version == h.version
            &&& layout.prefix.dcid == h.dcid@
            &&& layout.prefix.scid == h.scid@
            &&& layout.pn_offset == long_front(h@, body as nat).len()
            &&& layout.length == h.pn_len + body
        },
        forall|kind: LongType|
            kind != LongType::ZeroRtt ==> #[trigger] parse_layout(
                long_bytes(h@, body as nat) + rest,
                kind,
            ) == Err::<LayoutModel, DecodeError>(DecodeError::BadType),
{
    law_long_header_round_trip(h@, body as nat, rest);
    assert forall|kind: LongType| kind != LongType::ZeroRtt implies #[trigger] parse_layout(
        long_bytes(h@, body as nat) + rest,
        kind,
    ) == Err::<LayoutModel, DecodeError>(DecodeError::BadType) by {
        law_long_header_keeps_type(h@, body as nat, rest, kind);
    }
}

/// Where each field of a long header stands: the first byte with the type and the length of
/// the packet number, version, destination, source, token, length, packet number.
pub proof fn law_long_header_on_the_wire(h: LongModel, body: nat)
    requires
        long_error(h, body) is None,
    ensures
        ({
            let bytes = long_bytes(h, body);
            let d = h.dcid.len() as int;
            let s = h.scid.len() as int;
            let kind = match h.kind {
                LongType::Initial => 0int,
                LongType::ZeroRtt => 1,
                LongType::Handshake => 2,
                LongType::Retry => 3,
            };
            let number = be_bytes(h.packet_number as nat, h.packet_number_len as nat);
            &&& 1 <= h.packet_number_len <= 4 && d <= 20 && s <= 20
            &&& bytes[0] == 0xc0 + 0x10 * kind + h.packet_number_len - 1
            &&& bytes.subrange(1, 5) == be_bytes(h.version as nat, 4)
            &&& bytes[5] == d
            &&& bytes.subrange(6, 6 + d) == h.dcid
            &&& bytes[6 + d] == s
            &&& bytes.subrange(7 + d, 7 + d + s) == h.scid
            &&& bytes.skip(7 + d + s) == match h.token {
                Some(token) => varint_bytes(token.len() as u64) + token + varint_bytes(
                    (h.packet_number_len + body) as u64,
                ) + number,
                None => varint_bytes((h.packet_number_len + body) as u64) + number,
            }
            &&& long_front(h, body) == bytes.take(bytes.len() - number.len())
            &&& number.len() == h.packet_number_len
        }),
{
    let bytes = long_bytes(h, body);
    let d = h.dcid.len() as int;
    let s = h.scid.len() as int;
    let number = be_bytes(h.packet_number as nat, h.packet_number_len as nat);
    lemma_be_bytes_len(h.version as nat, 4);
    lemma_be_bytes_len(h.packet_number as nat, h.packet_number_len as nat);
    assert(bytes.subrange(1, 5) =~= be_bytes(h.version as nat, 4));
    assert(bytes.subrange(6, 6 + d) =~= h.dcid);
    assert(bytes.subrange(7 + d, 7 + d + s) =~= h.scid);
    match h.token {
        Some(token) => {
            assert(bytes.skip(7 + d + s) =~= varint_bytes(token.len() as u64) + token
                + varint_bytes((h.packet_number_len + body) as u64) + number);
        },
        None => {
            assert(bytes.skip(7 + d + s) =~= varint_bytes((h.packet_number_len + body) as u64)
                + number);
        },
    }
    assert(long_front(h, body) =~= bytes.take(bytes.len() - number.len()));
}

/// A long header cannot be written exactly where the packet number has no byte or more than
/// four, a connection ID more than 20, or a length has no wire form.
pub proof fn law_long_header_refused(h: LongModel, body: nat)
    ensures
        match long_error(h, body) {
            Some(EncodeError::InvalidPacketNumberLength) => h.packet_number_len == 0
                || h.packet_number_len > 4,
            Some(EncodeError::CidTooLong) => h.dcid.len() > 20 || h.scid.len() > 20,
            Some(EncodeError::ValueOutOfRange) => h.packet_number_len + body
                > 0x3fff_ffff_ffff_ffff || (h.token is Some && h.token->0.len()
                > 0x3fff_ffff_ffff_ffff),
            Some(_) => false,
            None => {
                &&& 1 <= h.packet_number_len <= 4
                &&& h.dcid.len() <= 20 && h.scid.len() <= 20
                &&& h.packet_number_len + body <= 0x3fff_ffff_ffff_ffff
                &&& h.token matches Some(token) ==> token.len() <= 0x3fff_ffff_ffff_ffff
            },
        },
{
}

/// The highest bit of a first byte tells a long header, and the third and fourth its type.
pub proof fn law_first_byte_tells_type(first: u8)
    ensures
        match first_byte_type(first) {
            Err(error) => first < 0x80 && error == DecodeError::NotLongHeader,
            Ok(kind) => first >= 0x80 && (first as int / 16) % 4 == match kind {
                LongType::Initial => 0int,
                LongType::ZeroRtt => 1,
                LongType::Handshake => 2,
                LongType::Retry => 3,
            },
        },
{
}

/// The prefix of a long header is read at its places, for version 1 only.
pub proof fn law_prefix_read(input: Seq<u8>, kind: LongType)
    ensures
        parse_prefix(input, kind) matches Ok(prefix) ==> {
            let d = prefix.dcid.len() as int;
            let s = prefix.scid.len() as int;
            &&& first_byte_type(input[0]) == Ok::<LongType, DecodeError>(kind)
            &&& prefix.version == 1 && be_value(input.subrange(1, 5)) == 1
            &&& d <= 20 && input[5] == d && input.subrange(6, 6 + d) == prefix.dcid
            &&& s <= 20 && input[6 + d] == s && input.subrange(7 + d, 7 + d + s) == prefix.scid
            &&& prefix.end == 7 + d + s <= input.len()
        },
        input.len() >= 7 && first_byte_type(input[0]) == Ok::<LongType, DecodeError>(kind)
            && be_value(input.subrange(1, 5)) != 1 ==> parse_prefix(input, kind) == Err::<
            PrefixModel,
            DecodeError,
        >(DecodeError::UnsupportedVersion),
        input.len() >= 7 && first_byte_type(input[0]) == Ok::<LongType, DecodeError>(kind)
            && be_value(input.subrange(1, 5)) == 1 && input[5] > 20 ==> parse_prefix(
            input,
            kind,
        ) == Err::<PrefixModel, DecodeError>(DecodeError::BadCidLen),
        input.len() < 7 ==> parse_prefix(input, kind) == Err::<PrefixModel, DecodeError>(
            DecodeError::Underflow,
        ),
{
}

/// A packet is read as far as its length says, and only where that much is there.
pub proof fn law_first_packet_whole(input: Seq<u8>)
    ensures
        parse_first(input) matches Ok((kind, layout)) ==> {
            &&& kind != LongType::Retry
            &&& layout.pn_offset + layout.length <= input.len()
            &&& parse_layout(input, kind) == Ok::<LayoutModel, DecodeError>(layout)
            &&& first_byte_type(input[0]) == Ok::<LongType, DecodeError>(kind)
            &&& (layout.token is Some) == (kind == LongType::Initial)
        },
        input.len() > 0 && input[0] < 0x80 ==> parse_first(input) == Err::<
            (LongType, LayoutModel),
            DecodeError,
        >(DecodeError::NotLongHeader),
{
}

/// Where each field of a short header stands: the first byte with the length of the packet
/// number, the destination, the packet number.
pub proof fn law_short_header_on_the_wire(dcid: Seq<u8>, packet_number: u64, pn_len: u8)
    requires
        1 <= pn_len <= 4,
    ensures
        ({
            let bytes = short_bytes(dcid, packet_number, pn_len);
            let d = dcid.len() as int;
            &&& bytes[0] == 0x40 + pn_len - 1
            &&& bytes.subrange(1, 1 + d) == dcid
            &&& bytes.skip(1 + d) == be_bytes(packet_number as nat, pn_len as nat)
            &&& short_front(dcid, pn_len) == bytes.take(1 + d)
            &&& bytes.len() == 1 + d + pn_len
        }),
{
    let bytes = short_bytes(dcid, packet_number, pn_len);
    let d = dcid.len() as int;
    lemma_be_bytes_len(packet_number as nat, pn_len as nat);
    assert(bytes.subrange(1, 1 + d) =~= dcid);
    assert(bytes.skip(1 + d) =~= be_bytes(packet_number as nat, pn_len as nat));
    assert(short_front(dcid, pn_len) =~= bytes.take(1 + d));
}

/// Where each field of a Retry packet stands, and that its tag covers the connection ID that
/// the client chose first, with its length, and all of the packet in front of the tag.
pub proof fn law_retry_on_the_wire(
    version: u32,
    dcid: Seq<u8>,
    scid: Seq<u8>,
    token: Seq<u8>,
    odcid: Seq<u8>,
)
    requires
        dcid.len() <= 20,
        scid.len() <= 20,
        odcid.len() <= 20,
    ensures
        ({
            let bytes = retry_header(version, dcid, scid, token);
            let aad = retry_aad(odcid, bytes);
            let d = dcid.len() as int;
            let s = scid.len() as int;
            &&& bytes[0] == 0xf0
            &&& bytes.subrange(1, 5) == be_bytes(version as nat, 4)
            &&& bytes[5] == d && bytes.subrange(6, 6 + d) == dcid
            &&& bytes[6 + d] == s && bytes.subrange(7 + d, 7 + d + s) == scid
            &&& bytes.skip(7 + d + s) == token
            &&& aad[0] == odcid.len()
            &&& aad.subrange(1, 1 + odcid.len() as int) == odcid
            &&& aad.skip(1 + odcid.len() as int) == bytes
        }),
{
    let bytes = retry_header(version, dcid, scid, token);
    let aad = retry_aad(odcid, bytes);
    let d = dcid.len() as int;
    let s = scid.len() as int;
    lemma_be_bytes_len(version as nat, 4);
    assert(bytes.subrange(1, 5) =~= be_bytes(version as nat, 4));
    assert(bytes.subrange(6, 6 + d) =~= dcid);
    assert(bytes.subrange(7 + d, 7 + d + s) =~= scid);
    assert(bytes.skip(7 + d + s) =~= token);
    assert(aad.subrange(1, 1 + odcid.len() as int) =~= odcid);
    assert(aad.skip(1 + odcid.len() as int) =~= bytes);
}

} // verus!
