//! What holds of encoding and decoding together.

use vstd::prelude::*;

use crate::frame::ack_ranges::pairs_at;
use crate::frame::model::{
    encodable, frame_bytes, int_at, parse_frame, parse_frames, prefixed_at, range_bytes, ranges_at,
    skip_ints, FrameModel,
};
use crate::frame::{Frame, FrameError};
use crate::frame::MAX_ACK_RANGES;
use crate::varint::{
    law_varint_parse_bounds, law_varint_round_trip, varint_bytes, varint_len, VarInt,
    MAX_VARINT,
};

verus! {

/// Frames in front of the frames of a payload that could be read.
pub open spec fn prepended(
    front: Seq<FrameModel>,
    rest: Result<Seq<FrameModel>, FrameError>,
) -> Result<Seq<FrameModel>, FrameError> {
    match rest {
        Ok(frames) => Ok(front + frames),
        Err(error) => Err(error),
    }
}

pub proof fn lemma_prepend(
    rest: Result<Seq<FrameModel>, FrameError>,
    front: Seq<FrameModel>,
)
    requires
        front.len() == 0,
    ensures
        prepended(front, rest) == rest,
{
    if let Ok(frames) = rest {
        assert(front + frames =~= frames);
    }
}

pub proof fn lemma_prepend_step(
    front: Seq<FrameModel>,
    frame: FrameModel,
    rest: Result<Seq<FrameModel>, FrameError>,
)
    ensures
        prepended(front + seq![frame], rest) == prepended(front, prepended(seq![frame], rest)),
{
    if let Ok(frames) = rest {
        assert(front + seq![frame] + frames =~= front + (seq![frame] + frames));
    }
}

pub proof fn lemma_int_at_bounds(input: Seq<u8>, at: int)
    requires
        0 <= at <= input.len(),
    ensures
        int_at(input, at) matches Some((v, end)) ==> v@ <= MAX_VARINT && at < end <= input.len(),
{
    broadcast use crate::varint::lemma_of_view;

    law_varint_parse_bounds(input.subrange(at, input.len() as int));
}

pub proof fn lemma_ranges_bounds(input: Seq<u8>, at: int, count: nat, smallest: int)
    requires
        0 <= at <= input.len(),
    ensures
        ranges_at(input, at, count, smallest) matches Ok((ranges, end)) ==> ranges.len() == count
            && at <= end <= input.len() && ranges == pairs_at(input, at, count),
    decreases count,
{
    lemma_int_at_bounds(input, at);
    if count > 0 {
        if let Some((gap, a1)) = int_at(input, at) {
            lemma_int_at_bounds(input, a1);
            if let Some((len, a2)) = int_at(input, a1) {
                lemma_ranges_bounds(input, a2, (count - 1) as nat, smallest - gap@ - 2 - len@);
            }
        }
    }
}

pub proof fn lemma_skip_bounds(input: Seq<u8>, at: int, count: nat)
    requires
        0 <= at <= input.len(),
    ensures
        skip_ints(input, at, count) matches Some(end) ==> at <= end <= input.len(),
    decreases count,
{
    if count > 0 {
        lemma_int_at_bounds(input, at);
        if let Some((_, a1)) = int_at(input, at) {
            lemma_skip_bounds(input, a1, (count - 1) as nat);
        }
    }
}

/// A frame that is read takes at least one byte, and no more than there are.
pub proof fn law_parse_frame_bounds(input: Seq<u8>)
    ensures
        parse_frame(input) matches Ok((frame, n)) ==> 1 <= n <= input.len(),
{
    reveal(parse_frame);
    if input.len() > 0 {
        lemma_int_at_bounds(input, 1);
        if let Some((a, a1)) = int_at(input, 1) {
            lemma_int_at_bounds(input, a1);
            if let Some((b, a2)) = int_at(input, a1) {
                lemma_int_at_bounds(input, a2);
                if let Some((c, a3)) = int_at(input, a2) {
                    lemma_int_at_bounds(input, a3);
                    if let Some((d, a4)) = int_at(input, a3) {
                        lemma_ranges_bounds(input, a4, c@ as nat, a@ - d@);
                        if let Ok((_, a5)) = ranges_at(input, a4, c@ as nat, a@ - d@) {
                            lemma_skip_bounds(input, a5, 3);
                        }
                    }
                }
            }
        }
    }
}

/// Whether the integers of a frame are in range.
pub open spec fn valid_integers(frame: FrameModel) -> bool {
    match frame {
        Frame::Ack { largest, delay, first_range, additional_ranges } => {
            &&& largest@ <= MAX_VARINT
            &&& delay@ <= MAX_VARINT
            &&& first_range@ <= MAX_VARINT
            &&& forall|i: int|
                0 <= i < additional_ranges.len() ==> (#[trigger] additional_ranges[i]).0@
                    <= MAX_VARINT && additional_ranges[i].1@ <= MAX_VARINT
        },
        Frame::Crypto { offset, .. } => offset@ <= MAX_VARINT,
        Frame::ConnectionClose { error_code, frame_type, .. } => error_code@ <= MAX_VARINT
            && frame_type@ <= MAX_VARINT,
        Frame::NewConnectionId { sequence_number, retire_prior_to, .. } => sequence_number@
            <= MAX_VARINT && retire_prior_to@ <= MAX_VARINT,
        Frame::RetireConnectionId { sequence_number } => sequence_number@ <= MAX_VARINT,
        Frame::Stream { stream_id, offset, .. } => stream_id@ <= MAX_VARINT && offset@
            <= MAX_VARINT,
        Frame::ResetStream { stream_id, error_code, final_size } => stream_id@ <= MAX_VARINT
            && error_code@ <= MAX_VARINT && final_size@ <= MAX_VARINT,
        Frame::StopSending { stream_id, error_code } => stream_id@ <= MAX_VARINT && error_code@
            <= MAX_VARINT,
        Frame::MaxData { maximum_data } => maximum_data@ <= MAX_VARINT,
        Frame::MaxStreamData { stream_id, maximum_stream_data } => stream_id@ <= MAX_VARINT
            && maximum_stream_data@ <= MAX_VARINT,
        Frame::DataBlocked { maximum_data } => maximum_data@ <= MAX_VARINT,
        Frame::StreamDataBlocked { stream_id, maximum_stream_data } => stream_id@ <= MAX_VARINT
            && maximum_stream_data@ <= MAX_VARINT,
        Frame::MaxStreams { max_streams, .. } => max_streams@ <= MAX_VARINT,
        Frame::StreamsBlocked { max_streams, .. } => max_streams@ <= MAX_VARINT,
        _ => true,
    }
}

/// Whether ACK ranges walk down from `smallest` without passing zero.
pub open spec fn descends(ranges: Seq<(VarInt, VarInt)>, smallest: int) -> bool
    decreases ranges.len(),
{
    if ranges.len() == 0 {
        true
    } else {
        let next = smallest - ranges[0].0@ - 2 - ranges[0].1@;
        next >= 0 && descends(ranges.subrange(1, ranges.len() as int), next)
    }
}

/// Whether the wire form of a frame tells the frame: the ranges of an ACK
/// frame are ones that a receiver accepts, a connection ID fits its length
/// byte, and an application close names no frame type.
pub open spec fn unambiguous(frame: FrameModel) -> bool {
    match frame {
        Frame::Ack { largest, first_range, additional_ranges, .. } => {
            &&& additional_ranges.len() <= MAX_ACK_RANGES
            &&& first_range@ <= largest@
            &&& descends(additional_ranges, largest@ - first_range@)
        },
        Frame::NewConnectionId { connection_id, .. } => connection_id.len() < 256,
        Frame::ConnectionClose { is_application, frame_type, .. } => is_application ==> frame_type@
            == 0,
        _ => true,
    }
}

/// Whether a frame takes all that follows for its data.
pub open spec fn extends_to_end(frame: FrameModel) -> bool {
    match frame {
        Frame::Stream { length_prefixed, .. } => !length_prefixed,
        Frame::Datagram { length_prefixed, .. } => !length_prefixed,
        _ => false,
    }
}

/// An encoded integer is read back, and what follows it comes next.
proof fn lemma_take_int(s: Seq<u8>, at: int, v: VarInt, rest: Seq<u8>)
    requires
        v@ <= MAX_VARINT,
        0 <= at <= s.len(),
        s.subrange(at, s.len() as int) == varint_bytes(v@) + rest,
    ensures
        int_at(s, at) == Some((v, at + varint_len(v@))),
        at + varint_len(v@) <= s.len(),
        s.subrange(at + varint_len(v@), s.len() as int) == rest,
{
    broadcast use crate::varint::lemma_view_of;

    law_varint_round_trip(v@, rest);
    let n = varint_len(v@) as int;
    let tail = s.subrange(at, s.len() as int);
    assert(s.subrange(at + n, s.len() as int) =~= tail.subrange(n, tail.len() as int));
    assert(tail.subrange(n, tail.len() as int) =~= rest);
}

/// Length-prefixed data are read back, and what follows them comes next.
proof fn lemma_take_data(s: Seq<u8>, at: int, data: Seq<u8>, rest: Seq<u8>)
    requires
        data.len() <= MAX_VARINT,
        0 <= at <= s.len(),
        s.subrange(at, s.len() as int) == varint_bytes(data.len() as u64) + (data + rest),
    ensures
        prefixed_at(s, at) == Ok::<(Seq<u8>, int), FrameError>((data, s.len() - rest.len())),
{
    broadcast use crate::varint::lemma_of_view;

    let n = data.len() as u64;
    lemma_take_int(s, at, VarInt::of(n), data + rest);
    let after = at + varint_len(n);
    let tail = s.subrange(after, s.len() as int);
    assert(tail =~= data + rest);
    assert(s.subrange(after, after + n) =~= data);
}

pub proof fn lemma_range_front(ranges: Seq<(VarInt, VarInt)>)
    requires
        ranges.len() > 0,
    ensures
        range_bytes(ranges) == varint_bytes(ranges[0].0@) + (varint_bytes(ranges[0].1@)
            + range_bytes(ranges.subrange(1, ranges.len() as int))),
    decreases ranges.len(),
{
    let rest = ranges.subrange(1, ranges.len() as int);
    if ranges.len() == 1 {
        assert(ranges.drop_last() =~= Seq::empty());
        assert(rest =~= Seq::empty());
        assert(range_bytes(ranges) =~= varint_bytes(ranges[0].0@) + (varint_bytes(ranges[0].1@)
            + range_bytes(rest)));
    } else {
        let front = ranges.drop_last();
        lemma_range_front(front);
        assert(front.subrange(1, front.len() as int) =~= rest.drop_last());
        assert(range_bytes(ranges) =~= varint_bytes(ranges[0].0@) + (varint_bytes(ranges[0].1@)
            + range_bytes(rest)));
    }
}

proof fn lemma_take_ranges(
    s: Seq<u8>,
    at: int,
    ranges: Seq<(VarInt, VarInt)>,
    smallest: int,
    rest: Seq<u8>,
)
    requires
        0 <= at <= s.len(),
        descends(ranges, smallest),
        forall|i: int|
            0 <= i < ranges.len() ==> (#[trigger] ranges[i]).0@ <= MAX_VARINT && ranges[i].1@
                <= MAX_VARINT,
        s.subrange(at, s.len() as int) == range_bytes(ranges) + rest,
    ensures
        ranges_at(s, at, ranges.len(), smallest) == Ok::<(Seq<(VarInt, VarInt)>, int), FrameError>(
            (ranges, s.len() - rest.len()),
        ),
        ranges.len() <= s.len() - at,
    decreases ranges.len(),
{
    if ranges.len() == 0 {
        assert(range_bytes(ranges) + rest =~= rest);
        assert(ranges =~= Seq::empty());
    } else {
        lemma_range_front(ranges);
        let (gap, len) = ranges[0];
        let tail = ranges.subrange(1, ranges.len() as int);
        assert(range_bytes(ranges) + rest =~= varint_bytes(gap@) + (varint_bytes(len@) + (
        range_bytes(tail) + rest)));
        lemma_take_int(s, at, gap, varint_bytes(len@) + (range_bytes(tail) + rest));
        let a1 = at + varint_len(gap@);
        lemma_take_int(s, a1, len, range_bytes(tail) + rest);
        let a2 = a1 + varint_len(len@);
        lemma_take_ranges(s, a2, tail, smallest - gap@ - 2 - len@, rest);
        assert(seq![(gap, len)] + tail =~= ranges);
    }
}

/// A frame of integers behind the type byte.
proof fn lemma_take_ints(s: Seq<u8>, a: VarInt, b: Option<VarInt>, c: Option<VarInt>, rest: Seq<u8>)
    requires
        a@ <= MAX_VARINT,
        b matches Some(b) ==> b@ <= MAX_VARINT,
        c matches Some(c) ==> c@ <= MAX_VARINT,
        c is Some ==> b is Some,
        s.len() > 0,
        s.subrange(1, s.len() as int) == varint_bytes(a@) + ((match b {
            Some(b) => varint_bytes(b@),
            None => seq![],
        }) + ((match c {
            Some(c) => varint_bytes(c@),
            None => seq![],
        }) + rest)),
    ensures
        int_at(s, 1) matches Some((x, a1)) && {
            &&& x == a
            &&& b is None ==> a1 == s.len() - rest.len()
            &&& b matches Some(b) ==> {
                &&& int_at(s, a1) matches Some((y, a2)) && {
                    &&& y == b
                    &&& c is None ==> a2 == s.len() - rest.len()
                    &&& c matches Some(c) ==> int_at(s, a2) == Some(
                        (c, s.len() - rest.len()),
                    )
                }
            }
        },
{
    let cs = match c {
        Some(c) => varint_bytes(c@),
        None => seq![],
    };
    let bs = match b {
        Some(b) => varint_bytes(b@),
        None => seq![],
    };
    lemma_take_int(s, 1, a, bs + (cs + rest));
    let a1 = 1 + varint_len(a@);
    if let Some(b) = b {
        lemma_take_int(s, a1, b, cs + rest);
        let a2 = a1 + varint_len(b@);
        if let Some(c) = c {
            lemma_take_int(s, a2, c, rest);
        } else {
            assert(cs + rest =~= rest);
        }
    } else {
        assert(bs + (cs + rest) =~= rest);
    }
}

proof fn lemma_round_trip_integers(frame: FrameModel, rest: Seq<u8>)
    requires
        valid_integers(frame),
        frame is ResetStream || frame is StopSending || frame is MaxData || frame is MaxStreamData
            || frame is DataBlocked || frame is StreamDataBlocked || frame is MaxStreams
            || frame is StreamsBlocked || frame is RetireConnectionId,
    ensures
        parse_frame(frame_bytes(frame) + rest) == Ok::<(FrameModel, int), FrameError>(
            (frame, frame_bytes(frame).len() as int),
        ),
{
    reveal(parse_frame);
    let s = frame_bytes(frame) + rest;
    let (a, b, c): (VarInt, Option<VarInt>, Option<VarInt>) = match frame {
        Frame::ResetStream { stream_id, error_code, final_size } => (
            stream_id,
            Some(error_code),
            Some(final_size),
        ),
        Frame::StopSending { stream_id, error_code } => (stream_id, Some(error_code), None),
        Frame::MaxData { maximum_data } => (maximum_data, None, None),
        Frame::MaxStreamData { stream_id, maximum_stream_data } => (
            stream_id,
            Some(maximum_stream_data),
            None,
        ),
        Frame::DataBlocked { maximum_data } => (maximum_data, None, None),
        Frame::StreamDataBlocked { stream_id, maximum_stream_data } => (
            stream_id,
            Some(maximum_stream_data),
            None,
        ),
        Frame::MaxStreams { max_streams, .. } => (max_streams, None, None),
        Frame::StreamsBlocked { max_streams, .. } => (max_streams, None, None),
        Frame::RetireConnectionId { sequence_number } => (sequence_number, None, None),
        _ => arbitrary(),
    };
    let cs = match c {
        Some(c) => varint_bytes(c@),
        None => seq![],
    };
    let bs = match b {
        Some(b) => varint_bytes(b@),
        None => seq![],
    };
    assert(s.subrange(1, s.len() as int) =~= varint_bytes(a@) + (bs + (cs + rest)));
    lemma_take_ints(s, a, b, c, rest);
}

proof fn lemma_round_trip_stream(frame: FrameModel, rest: Seq<u8>)
    requires
        valid_integers(frame),
        encodable(frame),
        frame is Stream,
        extends_to_end(frame) ==> rest.len() == 0,
    ensures
        parse_frame(frame_bytes(frame) + rest) == Ok::<(FrameModel, int), FrameError>(
            (frame, frame_bytes(frame).len() as int),
        ),
{
    broadcast use {crate::varint::lemma_of_view, crate::varint::lemma_view_of};

    reveal(parse_frame);
    let s = frame_bytes(frame) + rest;
    if let Frame::Stream { stream_id, offset, fin, length_prefixed, data } = frame {
        let body = if length_prefixed {
            varint_bytes(data.len() as u64) + (data + rest)
        } else {
            data
        };
        let after = if offset@ != 0 {
            varint_bytes(offset@) + body
        } else {
            body
        };
        assert(s.subrange(1, s.len() as int) =~= varint_bytes(stream_id@) + after);
        lemma_take_int(s, 1, stream_id, after);
        let a1 = 1 + varint_len(stream_id@);
        let a2 = if offset@ != 0 {
            lemma_take_int(s, a1, offset, body);
            a1 + varint_len(offset@)
        } else {
            assert(VarInt::of(0) == offset);
            a1
        };
        if length_prefixed {
            lemma_take_data(s, a2, data, rest);
        }
    }
}

proof fn lemma_round_trip_ack(frame: FrameModel, rest: Seq<u8>)
    requires
        valid_integers(frame),
        encodable(frame),
        unambiguous(frame),
        frame is Ack,
    ensures
        parse_frame(frame_bytes(frame) + rest) == Ok::<(FrameModel, int), FrameError>(
            (frame, frame_bytes(frame).len() as int),
        ),
{
    broadcast use crate::varint::lemma_of_view;

    reveal(parse_frame);
    let s = frame_bytes(frame) + rest;
    if let Frame::Ack { largest, delay, first_range, additional_ranges } = frame {
        let count = VarInt::of(additional_ranges.len() as u64);
        let r4 = range_bytes(additional_ranges) + rest;
        let r3 = varint_bytes(first_range@) + r4;
        let r2 = varint_bytes(count@) + r3;
        let r1 = varint_bytes(delay@) + r2;
        assert(s.subrange(1, s.len() as int) =~= varint_bytes(largest@) + r1);
        lemma_take_int(s, 1, largest, r1);
        let a1 = 1 + varint_len(largest@);
        lemma_take_int(s, a1, delay, r2);
        let a2 = a1 + varint_len(delay@);
        lemma_take_int(s, a2, count, r3);
        let a3 = a2 + varint_len(count@);
        lemma_take_int(s, a3, first_range, r4);
        let a4 = a3 + varint_len(first_range@);
        lemma_take_ranges(s, a4, additional_ranges, largest@ - first_range@, rest);
    }
}

proof fn lemma_round_trip_id(frame: FrameModel, rest: Seq<u8>)
    requires
        valid_integers(frame),
        unambiguous(frame),
        frame is NewConnectionId || frame is PathChallenge || frame is PathResponse,
    ensures
        parse_frame(frame_bytes(frame) + rest) == Ok::<(FrameModel, int), FrameError>(
            (frame, frame_bytes(frame).len() as int),
        ),
{
    reveal(parse_frame);
    let s = frame_bytes(frame) + rest;
    match frame {
        Frame::NewConnectionId {
            sequence_number,
            retire_prior_to,
            connection_id,
            stateless_reset_token,
        } => {
            let n = connection_id.len() as u8;
            let r2 = seq![n] + (connection_id + (stateless_reset_token@ + rest));
            let r1 = varint_bytes(retire_prior_to@) + r2;
            assert(s.subrange(1, s.len() as int) =~= varint_bytes(sequence_number@) + r1);
            lemma_take_int(s, 1, sequence_number, r1);
            let a1 = 1 + varint_len(sequence_number@);
            lemma_take_int(s, a1, retire_prior_to, r2);
            let a2 = a1 + varint_len(retire_prior_to@);
            let tail = s.subrange(a2, s.len() as int);
            assert(s[a2] == tail[0]);
            assert(s.subrange(a2 + 1, a2 + 1 + n) =~= tail.subrange(1, 1 + n));
            assert(tail.subrange(1, 1 + n) =~= connection_id);
            assert(s.subrange(a2 + 1 + n, a2 + 1 + n + 16) =~= tail.subrange(1 + n, 1 + n + 16));
            assert(tail.subrange(1 + n, 1 + n + 16) =~= stateless_reset_token@);
            crate::frame::decode::lemma_array16(stateless_reset_token);
        },
        Frame::PathChallenge { data } => {
            assert(s.subrange(1, 9) =~= data@);
            crate::frame::decode::lemma_array8(data);
        },
        Frame::PathResponse { data } => {
            assert(s.subrange(1, 9) =~= data@);
            crate::frame::decode::lemma_array8(data);
        },
        _ => {},
    }
}

proof fn lemma_round_trip_data(frame: FrameModel, rest: Seq<u8>)
    requires
        valid_integers(frame),
        encodable(frame),
        unambiguous(frame),
        extends_to_end(frame) ==> rest.len() == 0,
        frame is Crypto || frame is Datagram || frame is ConnectionClose,
    ensures
        parse_frame(frame_bytes(frame) + rest) == Ok::<(FrameModel, int), FrameError>(
            (frame, frame_bytes(frame).len() as int),
        ),
{
    broadcast use {crate::varint::lemma_of_view, crate::varint::lemma_view_of};

    reveal(parse_frame);
    let s = frame_bytes(frame) + rest;
    match frame {
        Frame::Crypto { offset, data } => {
            let r1 = varint_bytes(data.len() as u64) + (data + rest);
            assert(s.subrange(1, s.len() as int) =~= varint_bytes(offset@) + r1);
            lemma_take_int(s, 1, offset, r1);
            lemma_take_data(s, 1 + varint_len(offset@), data, rest);
        },
        Frame::Datagram { length_prefixed, data } => {
            if length_prefixed {
                assert(s.subrange(1, s.len() as int) =~= varint_bytes(data.len() as u64) + (data
                    + rest));
                lemma_take_data(s, 1, data, rest);
            } else {
                assert(s.subrange(1, s.len() as int) =~= data);
            }
        },
        Frame::ConnectionClose { is_application, error_code, frame_type, reason } => {
            let r2 = varint_bytes(reason.len() as u64) + (reason + rest);
            let r1 = if is_application {
                r2
            } else {
                varint_bytes(frame_type@) + r2
            };
            assert(s.subrange(1, s.len() as int) =~= varint_bytes(error_code@) + r1);
            lemma_take_int(s, 1, error_code, r1);
            let a1 = 1 + varint_len(error_code@);
            if is_application {
                assert(VarInt::of(0) == frame_type);
                lemma_take_data(s, a1, reason, rest);
            } else {
                lemma_take_int(s, a1, frame_type, r2);
                lemma_take_data(s, a1 + varint_len(frame_type@), reason, rest);
            }
        },
        _ => {},
    }
}

/// Decoding what was encoded gives the frame back and consumes exactly its
/// bytes, whatever follows; a frame without a length of its own is the last.
pub proof fn law_frame_round_trip(frame: FrameModel, rest: Seq<u8>)
    requires
        valid_integers(frame),
        encodable(frame),
        unambiguous(frame),
        extends_to_end(frame) ==> rest.len() == 0,
    ensures
        parse_frame(frame_bytes(frame) + rest) == Ok::<(FrameModel, int), FrameError>(
            (frame, frame_bytes(frame).len() as int),
        ),
{
    match frame {
        Frame::Padding | Frame::Ping | Frame::HandshakeDone => {
            reveal(parse_frame);
        },
        Frame::Ack { .. } => lemma_round_trip_ack(frame, rest),
        Frame::Stream { .. } => lemma_round_trip_stream(frame, rest),
        Frame::Crypto { .. } | Frame::Datagram { .. } | Frame::ConnectionClose { .. } =>
            lemma_round_trip_data(frame, rest),
        Frame::NewConnectionId { .. } | Frame::PathChallenge { .. } | Frame::PathResponse { .. } =>
            lemma_round_trip_id(frame, rest),
        _ => lemma_round_trip_integers(frame, rest),
    }
}

/// Integers, one behind the other.
pub open spec fn ints(values: Seq<u64>) -> Seq<u8>
    decreases values.len(),
{
    if values.len() == 0 {
        Seq::empty()
    } else {
        varint_bytes(values[0]) + ints(values.skip(1))
    }
}

/// The gap and length pairs of an ACK frame as integers.
pub open spec fn pair_values(ranges: Seq<(VarInt, VarInt)>) -> Seq<u64> {
    Seq::new(
        2 * ranges.len(),
        |i: int|
            if i % 2 == 0 {
                ranges[i / 2].0@
            } else {
                ranges[i / 2].1@
            },
    )
}

proof fn lemma_ints(values: Seq<u64>)
    ensures
        values.len() == 0 ==> ints(values) == Seq::<u8>::empty(),
        values.len() == 1 ==> ints(values) == varint_bytes(values[0]),
        values.len() == 2 ==> ints(values) == varint_bytes(values[0]) + varint_bytes(values[1]),
        values.len() == 3 ==> ints(values) == varint_bytes(values[0]) + varint_bytes(values[1])
            + varint_bytes(values[2]),
        values.len() == 4 ==> ints(values) == varint_bytes(values[0]) + varint_bytes(values[1])
            + varint_bytes(values[2]) + varint_bytes(values[3]),
{
    reveal_with_fuel(ints, 5);
    if values.len() == 1 {
        assert(ints(values) =~= varint_bytes(values[0]));
    } else if values.len() == 2 {
        assert(values.skip(1)[0] == values[1]);
        assert(ints(values) =~= varint_bytes(values[0]) + varint_bytes(values[1]));
    } else if values.len() == 3 {
        assert(values.skip(1)[0] == values[1]);
        assert(values.skip(1).skip(1)[0] == values[2]);
        assert(ints(values) =~= varint_bytes(values[0]) + varint_bytes(values[1]) + varint_bytes(
            values[2],
        ));
    } else if values.len() == 4 {
        assert(values.skip(1)[0] == values[1]);
        assert(values.skip(1).skip(1)[0] == values[2]);
        assert(values.skip(1).skip(1).skip(1)[0] == values[3]);
        assert(ints(values) =~= varint_bytes(values[0]) + varint_bytes(values[1]) + varint_bytes(
            values[2],
        ) + varint_bytes(values[3]));
    }
}

proof fn lemma_pair_ints(ranges: Seq<(VarInt, VarInt)>)
    ensures
        range_bytes(ranges) == ints(pair_values(ranges)),
    decreases ranges.len(),
{
    let values = pair_values(ranges);
    if ranges.len() > 0 {
        lemma_range_front(ranges);
        let rest = ranges.subrange(1, ranges.len() as int);
        lemma_pair_ints(rest);
        reveal_with_fuel(ints, 3);
        assert(values.skip(1).skip(1) =~= pair_values(rest)) by {
            assert forall|i: int| 0 <= i < 2 * rest.len() implies values.skip(1).skip(1)[i]
                == pair_values(rest)[i] by {
                assert((i + 2) / 2 == i / 2 + 1);
                assert((i + 2) % 2 == i % 2);
            }
        }
        assert(values[0] == ranges[0].0@);
        assert(values.skip(1)[0] == ranges[0].1@);
    }
}

/// What each frame is on the wire: which type byte it begins with, which integers follow in
/// which order, and which data stand at its end.
pub proof fn law_frame_on_the_wire(frame: FrameModel)
    requires
        encodable(frame),
    ensures
        ({
            let bytes = frame_bytes(frame);
            match frame {
                Frame::Padding => bytes == seq![0x00u8],
                Frame::Ping => bytes == seq![0x01u8],
                Frame::Ack { largest, delay, first_range, additional_ranges } => bytes
                    == seq![0x02u8] + ints(
                    seq![largest@, delay@, additional_ranges.len() as u64, first_range@],
                ) + ints(pair_values(additional_ranges)),
                Frame::ResetStream { stream_id, error_code, final_size } => bytes
                    == seq![0x04u8] + ints(seq![stream_id@, error_code@, final_size@]),
                Frame::StopSending { stream_id, error_code } => bytes == seq![0x05u8] + ints(
                    seq![stream_id@, error_code@],
                ),
                Frame::Crypto { offset, data } => bytes == seq![0x06u8] + ints(
                    seq![offset@, data.len() as u64],
                ) + data,
                Frame::Stream { stream_id, offset, fin, length_prefixed, data } => {
                    &&& 0x08 <= bytes[0] < 0x10
                    &&& (bytes[0] % 2 == 1) == fin
                    &&& (bytes[0] / 2 % 2 == 1) == length_prefixed
                    &&& (bytes[0] >= 0x0c) == (offset@ != 0)
                    &&& offset@ == 0 && !length_prefixed ==> bytes.skip(1) == ints(
                        seq![stream_id@],
                    ) + data
                    &&& offset@ == 0 && length_prefixed ==> bytes.skip(1) == ints(
                        seq![stream_id@, data.len() as u64],
                    ) + data
                    &&& offset@ != 0 && !length_prefixed ==> bytes.skip(1) == ints(
                        seq![stream_id@, offset@],
                    ) + data
                    &&& offset@ != 0 && length_prefixed ==> bytes.skip(1) == ints(
                        seq![stream_id@, offset@, data.len() as u64],
                    ) + data
                },
                Frame::MaxData { maximum_data } => bytes == seq![0x10u8] + ints(
                    seq![maximum_data@],
                ),
                Frame::MaxStreamData { stream_id, maximum_stream_data } => bytes
                    == seq![0x11u8] + ints(seq![stream_id@, maximum_stream_data@]),
                Frame::MaxStreams { is_uni, max_streams } => {
                    &&& is_uni ==> bytes == seq![0x13u8] + ints(seq![max_streams@])
                    &&& !is_uni ==> bytes == seq![0x12u8] + ints(seq![max_streams@])
                },
                Frame::DataBlocked { maximum_data } => bytes == seq![0x14u8] + ints(
                    seq![maximum_data@],
                ),
                Frame::StreamDataBlocked { stream_id, maximum_stream_data } => bytes
                    == seq![0x15u8] + ints(seq![stream_id@, maximum_stream_data@]),
                Frame::StreamsBlocked { is_uni, max_streams } => {
                    &&& is_uni ==> bytes == seq![0x17u8] + ints(seq![max_streams@])
                    &&& !is_uni ==> bytes == seq![0x16u8] + ints(seq![max_streams@])
                },
                Frame::NewConnectionId {
                    sequence_number,
                    retire_prior_to,
                    connection_id,
                    stateless_reset_token,
                } => connection_id.len() < 256 ==> bytes == seq![0x18u8] + ints(
                    seq![sequence_number@, retire_prior_to@],
                ) + seq![connection_id.len() as u8] + connection_id + stateless_reset_token@,
                Frame::RetireConnectionId { sequence_number } => bytes == seq![0x19u8] + ints(
                    seq![sequence_number@],
                ),
                Frame::PathChallenge { data } => bytes == seq![0x1au8] + data@,
                Frame::PathResponse { data } => bytes == seq![0x1bu8] + data@,
                Frame::ConnectionClose { is_application, error_code, frame_type, reason } => {
                    &&& !is_application ==> bytes == seq![0x1cu8] + ints(
                        seq![error_code@, frame_type@, reason.len() as u64],
                    ) + reason
                    &&& is_application ==> bytes == seq![0x1du8] + ints(
                        seq![error_code@, reason.len() as u64],
                    ) + reason
                },
                Frame::HandshakeDone => bytes == seq![0x1eu8],
                Frame::Datagram { length_prefixed, data } => {
                    &&& !length_prefixed ==> bytes == seq![0x30u8] + data
                    &&& length_prefixed ==> bytes == seq![0x31u8] + ints(
                        seq![data.len() as u64],
                    ) + data
                },
            }
        }),
{
    let bytes = frame_bytes(frame);
    match frame {
        Frame::Ack { largest, delay, first_range, additional_ranges } => {
            lemma_ints(seq![largest@, delay@, additional_ranges.len() as u64, first_range@]);
            lemma_pair_ints(additional_ranges);
            assert(bytes =~= seq![0x02u8] + ints(
                seq![largest@, delay@, additional_ranges.len() as u64, first_range@],
            ) + ints(pair_values(additional_ranges)));
        },
        Frame::ResetStream { stream_id, error_code, final_size } => {
            lemma_ints(seq![stream_id@, error_code@, final_size@]);
            assert(bytes =~= seq![0x04u8] + ints(seq![stream_id@, error_code@, final_size@]));
        },
        Frame::StopSending { stream_id, error_code } => {
            lemma_ints(seq![stream_id@, error_code@]);
            assert(bytes =~= seq![0x05u8] + ints(seq![stream_id@, error_code@]));
        },
        Frame::Crypto { offset, data } => {
            lemma_ints(seq![offset@, data.len() as u64]);
            assert(bytes =~= seq![0x06u8] + ints(seq![offset@, data.len() as u64]) + data);
        },
        Frame::Stream { stream_id, offset, fin, length_prefixed, data } => {
            lemma_ints(seq![stream_id@]);
            lemma_ints(seq![stream_id@, data.len() as u64]);
            lemma_ints(seq![stream_id@, offset@]);
            lemma_ints(seq![stream_id@, offset@, data.len() as u64]);
            if offset@ == 0 && !length_prefixed {
                assert(bytes.skip(1) =~= ints(seq![stream_id@]) + data);
            } else if offset@ == 0 {
                assert(bytes.skip(1) =~= ints(seq![stream_id@, data.len() as u64]) + data);
            } else if !length_prefixed {
                assert(bytes.skip(1) =~= ints(seq![stream_id@, offset@]) + data);
            } else {
                assert(bytes.skip(1) =~= ints(seq![stream_id@, offset@, data.len() as u64])
                    + data);
            }
        },
        Frame::MaxData { maximum_data } => {
            lemma_ints(seq![maximum_data@]);
        },
        Frame::MaxStreamData { stream_id, maximum_stream_data } => {
            lemma_ints(seq![stream_id@, maximum_stream_data@]);
            assert(bytes =~= seq![0x11u8] + ints(seq![stream_id@, maximum_stream_data@]));
        },
        Frame::MaxStreams { is_uni, max_streams } => {
            lemma_ints(seq![max_streams@]);
        },
        Frame::DataBlocked { maximum_data } => {
            lemma_ints(seq![maximum_data@]);
        },
        Frame::StreamDataBlocked { stream_id, maximum_stream_data } => {
            lemma_ints(seq![stream_id@, maximum_stream_data@]);
            assert(bytes =~= seq![0x15u8] + ints(seq![stream_id@, maximum_stream_data@]));
        },
        Frame::StreamsBlocked { is_uni, max_streams } => {
            lemma_ints(seq![max_streams@]);
        },
        Frame::NewConnectionId {
            sequence_number,
            retire_prior_to,
            connection_id,
            stateless_reset_token,
        } => {
            lemma_ints(seq![sequence_number@, retire_prior_to@]);
            if connection_id.len() < 256 {
                assert(bytes =~= seq![0x18u8] + ints(seq![sequence_number@, retire_prior_to@])
                    + seq![connection_id.len() as u8] + connection_id + stateless_reset_token@);
            }
        },
        Frame::RetireConnectionId { sequence_number } => {
            lemma_ints(seq![sequence_number@]);
        },
        Frame::ConnectionClose { is_application, error_code, frame_type, reason } => {
            lemma_ints(seq![error_code@, frame_type@, reason.len() as u64]);
            lemma_ints(seq![error_code@, reason.len() as u64]);
            if is_application {
                assert(bytes =~= seq![0x1du8] + ints(seq![error_code@, reason.len() as u64])
                    + reason);
            } else {
                assert(bytes =~= seq![0x1cu8] + ints(
                    seq![error_code@, frame_type@, reason.len() as u64],
                ) + reason);
            }
        },
        Frame::Datagram { length_prefixed, data } => {
            lemma_ints(seq![data.len() as u64]);
        },
        _ => {},
    }
}

/// Which frame is read is told by the first byte, and no frame is read from one that no frame
/// begins with. Data are the last bytes of a frame.
pub proof fn law_type_tells_frame(input: Seq<u8>)
    ensures
        input.len() == 0 ==> parse_frame(input) is Err,
        input.len() > 0 && (input[0] == 0x07 || 0x1f <= input[0] < 0x30 || 0x31 < input[0])
            ==> parse_frame(input) == Err::<(FrameModel, int), FrameError>(FrameError::BadType),
        parse_frame(input) matches Ok((frame, n)) ==> match frame {
            Frame::Padding => input[0] == 0x00 && n == 1,
            Frame::Ping => input[0] == 0x01 && n == 1,
            Frame::Ack { .. } => input[0] == 0x02 || input[0] == 0x03,
            Frame::ResetStream { .. } => input[0] == 0x04,
            Frame::StopSending { .. } => input[0] == 0x05,
            Frame::Crypto { data, .. } => input[0] == 0x06 && data == input.subrange(
                n - data.len(),
                n,
            ),
            Frame::Stream { offset, fin, length_prefixed, data, .. } => {
                &&& 0x08 <= input[0] < 0x10
                &&& fin == (input[0] % 2 == 1)
                &&& length_prefixed == (input[0] / 2 % 2 == 1)
                &&& input[0] < 0x0c ==> offset@ == 0
                &&& !length_prefixed ==> n == input.len()
                &&& data == input.subrange(n - data.len(), n)
            },
            Frame::MaxData { .. } => input[0] == 0x10,
            Frame::MaxStreamData { .. } => input[0] == 0x11,
            Frame::MaxStreams { is_uni, .. } => (input[0] == 0x12 && !is_uni) || (input[0]
                == 0x13 && is_uni),
            Frame::DataBlocked { .. } => input[0] == 0x14,
            Frame::StreamDataBlocked { .. } => input[0] == 0x15,
            Frame::StreamsBlocked { is_uni, .. } => (input[0] == 0x16 && !is_uni) || (input[0]
                == 0x17 && is_uni),
            Frame::NewConnectionId { .. } => input[0] == 0x18,
            Frame::RetireConnectionId { .. } => input[0] == 0x19,
            Frame::PathChallenge { .. } => input[0] == 0x1a && n == 9,
            Frame::PathResponse { .. } => input[0] == 0x1b && n == 9,
            Frame::ConnectionClose { is_application, reason, .. } => {
                &&& (input[0] == 0x1c && !is_application) || (input[0] == 0x1d && is_application)
                &&& reason == input.subrange(n - reason.len(), n)
            },
            Frame::HandshakeDone => input[0] == 0x1e && n == 1,
            Frame::Datagram { length_prefixed, data } => {
                &&& (input[0] == 0x30 && !length_prefixed && n == input.len()) || (input[0]
                    == 0x31 && length_prefixed)
                &&& data == input.subrange(n - data.len(), n)
            },
        },
{
    broadcast use {crate::varint::lemma_of_view, crate::varint::lemma_view_of};

    reveal(parse_frame);
    law_parse_frame_bounds(input);
    if input.len() > 0 {
        lemma_int_at_bounds(input, 1);
        if let Some((a, a1)) = int_at(input, 1) {
            lemma_int_at_bounds(input, a1);
            if let Some((b, a2)) = int_at(input, a1) {
                lemma_int_at_bounds(input, a2);
            }
        }
        if input[0] == 0x30 {
            assert(input.subrange(1, input.len() as int).len() == input.len() - 1);
        }
    }
}

/// The frames of a payload come out in the order in which they stand, and padding does not.
pub proof fn law_frames_in_order(frame: FrameModel, rest: Seq<u8>)
    requires
        valid_integers(frame),
        encodable(frame),
        unambiguous(frame),
        extends_to_end(frame) ==> rest.len() == 0,
    ensures
        ({
            let all = parse_frames(frame_bytes(frame) + rest);
            match parse_frames(rest) {
                Ok(frames) => if frame is Padding {
                    all == Ok::<Seq<FrameModel>, FrameError>(frames)
                } else {
                    all == Ok::<Seq<FrameModel>, FrameError>(seq![frame] + frames)
                },
                Err(error) => all == Err::<Seq<FrameModel>, FrameError>(error),
            }
        }),
        parse_frames(Seq::empty()) == Ok::<Seq<FrameModel>, FrameError>(Seq::empty()),
{
    let s = frame_bytes(frame) + rest;
    law_frame_round_trip(frame, rest);
    law_parse_frame_bounds(s);
    let n = frame_bytes(frame).len() as int;
    assert(s.subrange(n, s.len() as int) =~= rest);
}

/// The counts of marked packets behind an acknowledgement are read over: it says what it says
/// without them, and takes three integers more.
pub proof fn law_marked_counts_read_over(frame: FrameModel, a: u64, b: u64, c: u64, rest: Seq<u8>)
    requires
        valid_integers(frame),
        encodable(frame),
        unambiguous(frame),
        frame is Ack,
        a <= MAX_VARINT,
        b <= MAX_VARINT,
        c <= MAX_VARINT,
    ensures
        ({
            let counts = varint_bytes(a) + varint_bytes(b) + varint_bytes(c);
            let bytes = seq![0x03u8] + frame_bytes(frame).skip(1) + counts;
            parse_frame(bytes + rest) == Ok::<(FrameModel, int), FrameError>(
                (frame, bytes.len() as int),
            )
        }),
{
    broadcast use {crate::varint::lemma_of_view, crate::varint::lemma_view_of};

    reveal(parse_frame);
    let counts = varint_bytes(a) + varint_bytes(b) + varint_bytes(c);
    let bytes = seq![0x03u8] + frame_bytes(frame).skip(1) + counts;
    let s = bytes + rest;
    if let Frame::Ack { largest, delay, first_range, additional_ranges } = frame {
        let count = VarInt::of(additional_ranges.len() as u64);
        let behind = counts + rest;
        let r4 = range_bytes(additional_ranges) + behind;
        let r3 = varint_bytes(first_range@) + r4;
        let r2 = varint_bytes(count@) + r3;
        let r1 = varint_bytes(delay@) + r2;
        assert(s.subrange(1, s.len() as int) =~= varint_bytes(largest@) + r1);
        lemma_take_int(s, 1, largest, r1);
        let a1 = 1 + varint_len(largest@);
        lemma_take_int(s, a1, delay, r2);
        let a2 = a1 + varint_len(delay@);
        lemma_take_int(s, a2, count, r3);
        let a3 = a2 + varint_len(count@);
        lemma_take_int(s, a3, first_range, r4);
        let a4 = a3 + varint_len(first_range@);
        lemma_take_ranges(s, a4, additional_ranges, largest@ - first_range@, behind);
        let a5 = a4 + range_bytes(additional_ranges).len();
        assert(s.subrange(a5, s.len() as int) =~= varint_bytes(a) + (varint_bytes(b) + (
        varint_bytes(c) + rest)));
        lemma_take_int(s, a5, VarInt::of(a), varint_bytes(b) + (varint_bytes(c) + rest));
        let a6 = a5 + varint_len(a);
        lemma_take_int(s, a6, VarInt::of(b), varint_bytes(c) + rest);
        let a7 = a6 + varint_len(b);
        lemma_take_int(s, a7, VarInt::of(c), rest);
        reveal_with_fuel(skip_ints, 4);
        assert(skip_ints(s, a5, 3) == Some(a7 + varint_len(c)));
    }
}

} // verus!
