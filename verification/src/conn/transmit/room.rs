//! How much fits a packet.
use vstd::prelude::*;

use crate::varint::varint_len;

verus! {

/// How many bytes authenticate a packet.
pub const TAG_LEN: usize = 16;

/// How many bytes of a packet number are sent.
pub const PN_LEN: u8 = 4;

/// How many bytes a STREAM frame takes at most besides its data.
pub const STREAM_FRAME_OVERHEAD: usize = 25;

/// The least size of a datagram with an Initial packet of a client.
pub const MIN_INITIAL_LEN: usize = 1200;

/// How many bytes a number takes.
pub fn number_len(value: u64) -> (len: usize)
    ensures
        len == varint_len(value),
        1 <= len <= 8,
{
    if value < 0x40 {
        1
    } else if value < 0x4000 {
        2
    } else if value < 0x4000_0000 {
        4
    } else {
        8
    }
}

/// What is left of a room, or nothing.
pub open spec fn left(room: int, taken: int) -> int {
    if room > taken {
        room - taken
    } else {
        0
    }
}

/// The amount that a first guess comes down to: as long as the amount, and the
/// length in front of it, do not fit the room, it is made smaller. The length
/// counts so many bytes more.
pub open spec fn settled(room: int, more: int, guess: int) -> int
    decreases guess,
{
    let next = left(room, varint_len((guess + more) as u64));
    if next >= guess {
        guess
    } else {
        settled(room, more, next)
    }
}

/// What comes of a guess fits the room together with its length, unless it is
/// nothing.
pub proof fn law_settled_fits(room: int, more: int, guess: int)
    requires
        guess >= 0,
    ensures
        0 <= settled(room, more, guess) <= guess,
        settled(room, more, guess) > 0 ==> settled(room, more, guess) + varint_len(
            (settled(room, more, guess) + more) as u64,
        ) <= room,
    decreases guess,
{
    let next = left(room, varint_len((guess + more) as u64));
    if next < guess {
        law_settled_fits(room, more, next);
    }
}

fn settle(capacity: usize, fixed: usize, more: usize, start: usize) -> (amount: usize)
    requires
        fixed <= usize::MAX - 8,
        start <= usize::MAX - more,
    ensures
        amount == settled(capacity - fixed, more as int, start as int),
{
    let mut guess: usize = start;
    loop
        invariant
            fixed <= usize::MAX - 8,
            guess <= usize::MAX - more,
            settled(capacity - fixed, more as int, guess as int) == settled(
                capacity - fixed,
                more as int,
                start as int,
            ),
        decreases guess,
    {
        let next: usize = capacity.saturating_sub(fixed + number_len((guess + more) as u64));
        if next >= guess {
            return guess;
        }
        guess = next;
    }
}

/// How many bytes a long header has before the length and the packet number.
pub open spec fn long_fixed(peer_cid: int, local_cid: int) -> int {
    1 + 4 + 1 + peer_cid + 1 + local_cid + PN_LEN
}

/// How many bytes of frames fit a packet with a long header.
pub open spec fn long_room(fixed: int, capacity: int) -> int {
    settled(
        capacity - fixed - TAG_LEN,
        PN_LEN + TAG_LEN,
        left(capacity, fixed + TAG_LEN + 1),
    )
}

/// How many bytes of frames fit an Initial packet.
pub open spec fn initial_room(peer_cid: int, local_cid: int, token: int, capacity: int) -> int {
    long_room(long_fixed(peer_cid, local_cid) + varint_len(token as u64) + token, capacity)
}

/// How many bytes of frames fit a packet with a short header.
pub open spec fn short_room(peer_cid: int, capacity: int) -> int {
    left(capacity, 1 + peer_cid + PN_LEN + TAG_LEN)
}

/// How many bytes of data fit a CRYPTO frame.
pub open spec fn crypto_room(offset: u64, room: int) -> int {
    settled(room - 1 - varint_len(offset), 0, left(room, 2 + varint_len(offset)))
}

/// A packet with a long header is no longer than its capacity, where anything
/// fits it.
pub proof fn law_long_room_fits(fixed: int, capacity: int)
    ensures
        long_room(fixed, capacity) >= 0,
        long_room(fixed, capacity) > 0 ==> fixed + varint_len(
            (PN_LEN + long_room(fixed, capacity) + TAG_LEN) as u64,
        ) + long_room(fixed, capacity) + TAG_LEN <= capacity,
{
    law_settled_fits(
        capacity - fixed - TAG_LEN,
        PN_LEN + TAG_LEN,
        left(capacity, fixed + TAG_LEN + 1),
    );
}

/// A packet with a short header is no longer than its capacity, where anything
/// fits it.
pub proof fn law_short_room_fits(peer_cid: int, capacity: int)
    ensures
        short_room(peer_cid, capacity) > 0 ==> 1 + peer_cid + PN_LEN + short_room(
            peer_cid,
            capacity,
        ) + TAG_LEN <= capacity,
{
}

/// A CRYPTO frame is no longer than its room, where any data fits it.
pub proof fn law_crypto_room_fits(offset: u64, room: int)
    ensures
        crypto_room(offset, room) >= 0,
        crypto_room(offset, room) > 0 ==> 1 + varint_len(offset) + varint_len(
            crypto_room(offset, room) as u64,
        ) + crypto_room(offset, room) <= room,
{
    law_settled_fits(room - 1 - varint_len(offset), 0, left(room, 2 + varint_len(offset)));
}

fn long_payload_limit(fixed_header: usize, max_packet_bytes: usize) -> (limit: usize)
    requires
        PN_LEN <= fixed_header <= usize::MAX - TAG_LEN - 8,
    ensures
        limit == long_room(fixed_header as int, max_packet_bytes as int),
{
    let start: usize = max_packet_bytes.saturating_sub(fixed_header + TAG_LEN + 1);
    settle(max_packet_bytes, fixed_header + TAG_LEN, PN_LEN as usize + TAG_LEN, start)
}

/// How many bytes of frames fit an Initial packet.
pub fn initial_payload_limit_for(
    peer_cid_len: usize,
    local_cid_len: usize,
    token_len: usize,
    max_packet_bytes: usize,
) -> (limit: usize)
    requires
        peer_cid_len + local_cid_len + token_len <= usize::MAX - 64,
    ensures
        limit == initial_room(
            peer_cid_len as int,
            local_cid_len as int,
            token_len as int,
            max_packet_bytes as int,
        ),
{
    let fixed_header: usize = 1 + 4 + 1 + peer_cid_len + 1 + local_cid_len + number_len(token_len as u64)
        + token_len + PN_LEN as usize;
    long_payload_limit(fixed_header, max_packet_bytes)
}

/// How many bytes of frames fit a Handshake or 0-RTT packet.
pub fn handshake_payload_limit(
    peer_cid_len: usize,
    local_cid_len: usize,
    max_packet_bytes: usize,
) -> (limit: usize)
    requires
        peer_cid_len + local_cid_len <= usize::MAX - 64,
    ensures
        limit == long_room(
            long_fixed(peer_cid_len as int, local_cid_len as int),
            max_packet_bytes as int,
        ),
{
    long_payload_limit(
        1 + 4 + 1 + peer_cid_len + 1 + local_cid_len + PN_LEN as usize,
        max_packet_bytes,
    )
}

/// How many bytes of frames fit a packet with a short header.
pub fn short_payload_limit(peer_cid_len: usize, max_packet_bytes: usize) -> (limit: usize)
    requires
        peer_cid_len <= usize::MAX - 64,
    ensures
        limit == short_room(peer_cid_len as int, max_packet_bytes as int),
{
    max_packet_bytes.saturating_sub(1 + peer_cid_len + PN_LEN as usize + TAG_LEN)
}

/// How many bytes of data fit a CRYPTO frame.
pub fn crypto_data_limit(offset: u64, frame_room: usize) -> (limit: usize)
    ensures
        limit == crypto_room(offset, frame_room as int),
{
    let fixed: usize = 1 + number_len(offset);
    settle(frame_room, fixed, 0, frame_room.saturating_sub(fixed + 1))
}

/// What comes of a guess leaves at most eight bytes of the room unused, where the guess did
/// not.
pub proof fn law_settled_uses_room(room: int, more: int, guess: int)
    requires
        guess >= 0,
        guess >= room - 8,
    ensures
        settled(room, more, guess) >= room - 8,
    decreases guess,
{
    let next = left(room, varint_len((guess + more) as u64));
    if next < guess {
        law_settled_uses_room(room, more, next);
    }
}

/// Of a packet with a long header at most eight bytes go unused, of one with a short header
/// none, and of a CRYPTO frame at most eight. A header takes one byte, four for the version,
/// the connection IDs with a byte for each length, and four for the packet number; the tag
/// takes 16.
pub proof fn law_rooms_are_used(
    peer_cid: int,
    local_cid: int,
    token: int,
    offset: u64,
    capacity: int,
)
    requires
        0 <= peer_cid,
        0 <= local_cid,
        0 <= token,
    ensures
        long_room(long_fixed(peer_cid, local_cid), capacity) >= capacity - (1 + 4 + 1 + peer_cid
            + 1 + local_cid + 4) - 16 - 8,
        initial_room(peer_cid, local_cid, token, capacity) >= capacity - (1 + 4 + 1 + peer_cid + 1
            + local_cid + 4 + varint_len(token as u64) + token) - 16 - 8,
        capacity >= 1 + peer_cid + 4 + 16 ==> short_room(peer_cid, capacity) == capacity - 1
            - peer_cid - 4 - 16,
        crypto_room(offset, capacity) >= capacity - 1 - varint_len(offset) - 8,
        MIN_INITIAL_LEN == 1200,
        STREAM_FRAME_OVERHEAD == 1 + 8 + 8 + 8,
{
    let fixed = long_fixed(peer_cid, local_cid);
    law_settled_uses_room(
        capacity - fixed - TAG_LEN,
        PN_LEN + TAG_LEN,
        left(capacity, fixed + TAG_LEN + 1),
    );
    let more = fixed + varint_len(token as u64) + token;
    law_settled_uses_room(
        capacity - more - TAG_LEN,
        PN_LEN + TAG_LEN,
        left(capacity, more + TAG_LEN + 1),
    );
    law_settled_uses_room(
        capacity - 1 - varint_len(offset),
        0,
        left(capacity, 2 + varint_len(offset)),
    );
}

} // verus!
