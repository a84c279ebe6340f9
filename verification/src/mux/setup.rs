//! What a multiplexer is made with, and what it reads of a datagram.
use vstd::prelude::*;

use crate::errors::ConnectError;
use crate::frame::put_bytes;
use crate::mux::{MAX_CONNECTIONS, MAX_OUTGOING_BYTES, MAX_OUTGOING_CAPACITY};
use crate::primitives::fill_random;

verus! {

/// How many connections there are at most, unless that is set.
pub const DEFAULT_MAX_CONNS: usize = 1024;

/// How many packets wait at most, unless that is set.
pub const DEFAULT_OUTGOING_CAP: usize = 4096;

/// How many bytes wait at most, unless that is set.
pub const DEFAULT_OUTGOING_BYTES_CAP: usize = 16_777_216;

/// The length of the shortest stateless reset.
pub const MIN_RESET_LEN: usize = 22;

/// How large a multiplexer may grow.
#[derive(Debug, Clone, Copy, PartialEq, Eq, Structural)]
pub struct Limits {
    pub max_connections: usize,
    pub outgoing_capacity: usize,
    pub outgoing_bytes_capacity: usize,
}

impl Limits {
    /// Whether each limit is in its range.
    pub open spec fn valid(self) -> bool {
        &&& 1 <= self.max_connections <= MAX_CONNECTIONS
        &&& 1 <= self.outgoing_capacity <= MAX_OUTGOING_CAPACITY
        &&& 1 <= self.outgoing_bytes_capacity <= MAX_OUTGOING_BYTES
    }

    pub fn new() -> (limits: Limits)
        ensures
            limits == (Limits {
                max_connections: DEFAULT_MAX_CONNS,
                outgoing_capacity: DEFAULT_OUTGOING_CAP,
                outgoing_bytes_capacity: DEFAULT_OUTGOING_BYTES_CAP,
            }),
            limits.valid(),
    {
        Limits {
            max_connections: DEFAULT_MAX_CONNS,
            outgoing_capacity: DEFAULT_OUTGOING_CAP,
            outgoing_bytes_capacity: DEFAULT_OUTGOING_BYTES_CAP,
        }
    }

    pub fn outgoing_capacity(self, capacity: usize) -> (limits: Limits)
        ensures
            limits == (Limits { outgoing_capacity: capacity, ..self }),
    {
        Limits { outgoing_capacity: capacity, ..self }
    }

    pub fn outgoing_limits(self, capacity: usize, bytes_capacity: usize) -> (limits: Limits)
        ensures
            limits == (Limits {
                outgoing_capacity: capacity,
                outgoing_bytes_capacity: bytes_capacity,
                ..self
            }),
    {
        Limits { outgoing_capacity: capacity, outgoing_bytes_capacity: bytes_capacity, ..self }
    }

    /// The limits, if each is in its range.
    pub fn validate(self) -> (result: Result<Limits, ConnectError>)
        ensures
            result == if self.valid() {
                Ok(self)
            } else {
                Err(ConnectError::InvalidConfig)
            },
    {
        if self.max_connections == 0 || self.max_connections > MAX_CONNECTIONS
            || self.outgoing_capacity == 0 || self.outgoing_capacity > MAX_OUTGOING_CAPACITY
            || self.outgoing_bytes_capacity == 0 || self.outgoing_bytes_capacity
            > MAX_OUTGOING_BYTES {
            return Err(ConnectError::InvalidConfig);
        }
        Ok(self)
    }
}

/// What a server goes by when a datagram belongs to no connection.
#[derive(Clone, Copy)]
pub struct ServerConfig {
    /// Whether a client has to show that it receives what is sent to it.
    pub require_address_validation: bool,
    pub retry_token_secret: Option<[u8; 32]>,
    pub stateless_reset_secret: Option<[u8; 32]>,
    /// The first byte of each connection ID that is made here.
    pub cid_prefix: Option<u8>,
    /// The length of the longest packet.
    pub max_pmtu: u16,
}

/// The smaller of two numbers.
pub open spec fn least(a: int, b: int) -> int {
    if a < b {
        a
    } else {
        b
    }
}

/// The length of the longest packet of a connection: what is configured, and what can
/// wait to go out at all.
pub fn connection_ceiling(max_pmtu: u16, outgoing_capacity: usize) -> (ceiling: usize)
    ensures
        ceiling == least(max_pmtu as int, outgoing_capacity as int),
{
    if (max_pmtu as usize) < outgoing_capacity {
        max_pmtu as usize
    } else {
        outgoing_capacity
    }
}

/// Whether a datagram begins as one with an Initial packet does.
pub open spec fn looks_initial(wire: Seq<u8>) -> bool {
    wire.len() > 0 && wire[0] & 0xb0 == 0x80
}

pub fn is_initial(wire: &[u8]) -> (initial: bool)
    ensures
        initial == looks_initial(wire@),
{
    wire.len() > 0 && (wire[0] & 0xb0) == 0x80
}

/// The connection ID that a datagram is for, where those of packets with a short
/// header have the given length.
pub open spec fn dcid_of(wire: Seq<u8>, short_header_dcid_len: int) -> Option<Seq<u8>> {
    if wire.len() == 0 {
        None
    } else if wire[0] & 0x80 != 0 {
        if wire.len() < 6 || wire.len() < 6 + wire[5] {
            None
        } else {
            Some(wire.subrange(6, 6 + wire[5]))
        }
    } else if wire.len() < 1 + short_header_dcid_len {
        None
    } else {
        Some(wire.subrange(1, 1 + short_header_dcid_len))
    }
}

/// The connection ID that a datagram is for.
pub fn dcid(wire: &[u8], short_header_dcid_len: usize) -> (dcid: Option<&[u8]>)
    ensures
        match dcid {
            Some(dcid) => dcid_of(wire@, short_header_dcid_len as int) == Some(dcid@),
            None => dcid_of(wire@, short_header_dcid_len as int) is None,
        },
{
    if wire.len() == 0 {
        return None;
    }
    if wire[0] & 0x80 != 0 {
        if wire.len() < 6 {
            return None;
        }
        let dcid_len: usize = wire[5] as usize;
        if wire.len() - 6 < dcid_len {
            return None;
        }
        Some(vstd::slice::slice_subrange(wire, 6, 6 + dcid_len))
    } else {
        if wire.len() - 1 < short_header_dcid_len {
            return None;
        }
        Some(vstd::slice::slice_subrange(wire, 1, 1 + short_header_dcid_len))
    }
}

/// Whether a packet is a stateless reset with a token: of the length that is asked
/// for, but not too short, with the first bits of a short header, and with the token
/// at its end.
pub open spec fn is_reset(packet: Seq<u8>, token: Seq<u8>, len: int) -> bool {
    &&& packet.len() == if len < MIN_RESET_LEN {
        MIN_RESET_LEN as int
    } else {
        len
    }
    &&& packet[0] & 0xc0 == 0x40
    &&& packet.subrange(packet.len() - 16, packet.len() as int) == token
}

/// How many random bytes a stateless reset of a length is made of.
pub open spec fn reset_len(len: int) -> int {
    if len < MIN_RESET_LEN {
        MIN_RESET_LEN as int
    } else {
        len
    }
}

/// The stateless reset of some random bytes: the first with the first bits of a short
/// header, and the last ones give way to the token.
pub open spec fn reset_of(random: Seq<u8>, token: Seq<u8>) -> Seq<u8> {
    seq![(random[0] & 0x3f) | 0x40] + random.subrange(1, random.len() - 16) + token
}

/// Random bytes as many as are needed make a stateless reset.
pub proof fn law_reset_is_made(random: Seq<u8>, token: Seq<u8>, len: int)
    requires
        random.len() == reset_len(len),
        token.len() == 16,
    ensures
        is_reset(reset_of(random, token), token, len),
{
    let first: u8 = random[0];
    let marked: u8 = (first & 0x3f) | 0x40;
    assert(marked & 0xc0 == 0x40) by (bit_vector)
        requires
            marked == (first & 0x3f) | 0x40,
    ;
    let packet = reset_of(random, token);
    assert(packet.subrange(packet.len() - 16, packet.len() as int) =~= token);
}

/// As many zeros as a stateless reset of a length needs random bytes.
pub fn reset_blank(out: &mut Vec<u8>, len: usize)
    ensures
        final(out)@ == Seq::new(reset_len(len as int) as nat, |i: int| 0u8),
{
    let len: usize = if len < MIN_RESET_LEN {
        MIN_RESET_LEN
    } else {
        len
    };
    out.clear();
    while out.len() < len
        invariant
            out@.len() <= len,
            forall|i: int| 0 <= i < out@.len() ==> out@[i] == 0,
        decreases len - out@.len(),
    {
        out.push(0);
    }
    assert(out@ =~= Seq::new(len as nat, |i: int| 0u8));
}

/// Makes a stateless reset of bytes that were drawn, if they were.
pub fn reset_drawn(out: &mut Vec<u8>, drawn: bool, token: [u8; 16]) -> (made: bool)
    requires
        old(out)@.len() >= MIN_RESET_LEN,
    ensures
        made == drawn,
        final(out)@ == if drawn {
            reset_of(old(out)@, token@)
        } else {
            Seq::empty()
        },
{
    if !drawn {
        out.clear();
        return false;
    }
    let ghost random = out@;
    let first: u8 = out[0];
    out.set(0, (first & 0x3f) | 0x40);
    let tail: usize = out.len() - 16;
    out.truncate(tail);
    put_bytes(out, &token);
    assert(out@ =~= reset_of(random, token@));
    true
}

/// Makes a stateless reset of random bytes before a token. Which bytes are drawn is left
/// to chance; where none can be had, nothing is made.
pub fn stateless_reset_into(out: &mut Vec<u8>, token: [u8; 16], len: usize) -> (made: bool)
    ensures
        if made {
            is_reset(final(out)@, token@, len as int) && exists|random: Seq<u8>|
                random.len() == reset_len(len as int) && final(out)@ == #[trigger] reset_of(
                    random,
                    token@,
                )
        } else {
            final(out)@.len() == 0
        },
{
    reset_blank(out, len);
    let drawn = fill_random(out);
    proof {
        law_reset_is_made(out@, token@, len as int);
    }
    reset_drawn(out, drawn, token)
}

/// The limits of a router are valid exactly in these ranges.
pub proof fn law_limit_ranges(limits: Limits)
    ensures
        limits.valid() == (1 <= limits.max_connections <= 65_536 && 1 <= limits.outgoing_capacity
            <= 65_536 && 1 <= limits.outgoing_bytes_capacity <= 1_073_741_824),
{
}

/// A stateless reset looks like a packet with a short header, is as long as the random bytes
/// that it is made of and at least 22 bytes, ends in the token, and shows the random bytes
/// elsewhere.
pub proof fn law_reset_on_the_wire(random: Seq<u8>, token: Seq<u8>, len: int)
    requires
        random.len() == reset_len(len),
        token.len() == 16,
    ensures
        ({
            let packet = reset_of(random, token);
            &&& packet.len() == random.len()
            &&& packet.len() >= 22 && packet.len() >= len
            &&& len >= 22 ==> packet.len() == len
            &&& 0x40 <= packet[0] < 0x80
            &&& packet[0] % 64 == random[0] % 64
            &&& packet.subrange(1, packet.len() - 16) == random.subrange(1, random.len() - 16)
            &&& packet.skip(packet.len() - 16) == token
        }),
{
    let first: u8 = random[0];
    let marked: u8 = (first & 0x3f) | 0x40;
    assert(0x40 <= marked < 0x80 && marked % 64 == first % 64) by (bit_vector)
        requires
            marked == (first & 0x3f) | 0x40,
    ;
    let packet = reset_of(random, token);
    assert(packet.subrange(1, packet.len() - 16) =~= random.subrange(1, random.len() - 16));
    assert(packet.skip(packet.len() - 16) =~= token);
}

/// A datagram is for the connection ID behind its first byte, where its first bit says that
/// its header is short; else for the one behind its version, whose length it tells.
pub proof fn law_where_a_datagram_goes(wire: Seq<u8>, len: int)
    requires
        wire.len() > 0,
        len >= 0,
    ensures
        wire[0] < 0x80 ==> dcid_of(wire, len) == if wire.len() < 1 + len {
            None
        } else {
            Some(wire.subrange(1, 1 + len))
        },
        wire[0] >= 0x80 ==> dcid_of(wire, len) == if wire.len() < 6 || wire.len() < 6 + wire[5] {
            None
        } else {
            Some(wire.subrange(6, 6 + wire[5]))
        },
        looks_initial(wire) == (wire[0] >= 0x80 && (wire[0] / 16) % 4 == 0),
{
    let first: u8 = wire[0];
    assert((first & 0x80 != 0) == (first >= 0x80)) by (bit_vector);
    assert((first & 0xb0 == 0x80) == (first >= 0x80 && (first / 16) % 4 == 0)) by (bit_vector);
}

} // verus!
