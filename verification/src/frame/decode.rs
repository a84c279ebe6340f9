//! Reading one frame.

use vstd::prelude::*;

use crate::frame::ack_ranges::{lemma_pairs_shift, pairs_at, AckRanges};
use crate::frame::laws::{lemma_int_at_bounds, lemma_ranges_bounds};
use crate::frame::model::{
    challenge_of, data_at, int_at, is_stream_type, parse_ack, parse_close, parse_frame,
    parse_integers, parse_new_connection_id, parse_path, parse_stream, prefixed_at, ranges_at,
    skip_ints, token_of, FrameModel,
};
use crate::frame::{Frame, FrameError};
use crate::frame::{
    MAX_ACK_RANGES, TYPE_ACK, TYPE_ACK_ECN, TYPE_CONNECTION_CLOSE, TYPE_CONNECTION_CLOSE_APP,
    TYPE_CRYPTO, TYPE_DATAGRAM, TYPE_DATAGRAM_LEN, TYPE_DATA_BLOCKED, TYPE_HANDSHAKE_DONE,
    TYPE_MAX_DATA, TYPE_MAX_STREAMS_BIDI, TYPE_MAX_STREAMS_UNI, TYPE_MAX_STREAM_DATA,
    TYPE_NEW_CONNECTION_ID, TYPE_PADDING, TYPE_PATH_CHALLENGE, TYPE_PATH_RESPONSE, TYPE_PING,
    TYPE_RESET_STREAM, TYPE_RETIRE_CONNECTION_ID, TYPE_STOP_SENDING, TYPE_STREAMS_BLOCKED_BIDI,
    TYPE_STREAMS_BLOCKED_UNI, TYPE_STREAM_BASE, TYPE_STREAM_DATA_BLOCKED,
};
use crate::varint::VarInt;

verus! {

/// The integer at position `pos`, and the position behind it.
fn read_int(input: &[u8], pos: usize) -> (result: Result<(VarInt, usize), FrameError>)
    requires
        pos <= input.len(),
    ensures
        match result {
            Ok((v, end)) => int_at(input@, pos as int) == Some((v, end as int)) && pos < end
                <= input.len(),
            Err(error) => int_at(input@, pos as int) is None && error == FrameError::BadVarInt,
        },
{
    broadcast use crate::varint::lemma_view_of;

    let rest = vstd::slice::slice_subrange(input, pos, input.len());
    proof {
        lemma_int_at_bounds(input@, pos as int);
    }
    match VarInt::decode(rest) {
        Ok((v, n)) => Ok((v, pos + n)),
        Err(_) => Err(FrameError::BadVarInt),
    }
}

/// The end of the data of the given length at position `pos`.
fn data_end(input: &[u8], pos: usize, length: u64) -> (result: Result<usize, FrameError>)
    requires
        pos <= input.len(),
    ensures
        match result {
            Ok(end) => pos <= end <= input.len() && data_at(input@, pos as int, length) == Some(
                (input@.subrange(pos as int, end as int), end as int),
            ),
            Err(error) => data_at(input@, pos as int, length) is None && error
                == FrameError::Underflow,
        },
{
    if length <= (input.len() - pos) as u64 {
        Ok(pos + length as usize)
    } else {
        Err(FrameError::Underflow)
    }
}

/// The length-prefixed data at position `pos`, and the position behind it.
fn read_data<'a>(input: &'a [u8], pos: usize) -> (result: Result<(&'a [u8], usize), FrameError>)
    requires
        pos <= input.len(),
    ensures
        match result {
            Ok((data, end)) => prefixed_at(input@, pos as int) == Ok::<(Seq<u8>, int), FrameError>(
                (data@, end as int),
            ) && pos <= end <= input.len(),
            Err(error) => prefixed_at(input@, pos as int) == Err::<(Seq<u8>, int), FrameError>(
                error,
            ),
        },
{
    let (length, pos) = read_int(input, pos)?;
    let end: usize = data_end(input, pos, length.get())?;
    Ok((vstd::slice::slice_subrange(input, pos, end), end))
}

/// Copies 16 bytes.
pub(crate) fn array16(bytes: &[u8]) -> (result: [u8; 16])
    requires
        bytes.len() == 16,
    ensures
        result@ == bytes@,
{
    let mut out: [u8; 16] = [0; 16];
    let mut i: usize = 0;
    while i < 16
        invariant
            i <= 16,
            bytes.len() == 16,
            forall|k: int| 0 <= k < i ==> out@[k] == bytes@[k],
        decreases 16 - i,
    {
        out[i] = bytes[i];
        i += 1;
    }
    assert(out@ =~= bytes@);
    out
}

/// Copies 8 bytes.
fn array8(bytes: &[u8]) -> (result: [u8; 8])
    requires
        bytes.len() == 8,
    ensures
        result@ == bytes@,
{
    let mut out: [u8; 8] = [0; 8];
    let mut i: usize = 0;
    while i < 8
        invariant
            i <= 8,
            bytes.len() == 8,
            forall|k: int| 0 <= k < i ==> out@[k] == bytes@[k],
        decreases 8 - i,
    {
        out[i] = bytes[i];
        i += 1;
    }
    assert(out@ =~= bytes@);
    out
}

pub proof fn lemma_array16(array: [u8; 16])
    ensures
        token_of(array@) == array,
{
    let other = token_of(array@);
    assert(array@ == array@);
    assert(other@ == array@);
    assert(other =~= array);
}

pub proof fn lemma_array8(array: [u8; 8])
    ensures
        challenge_of(array@) == array,
{
    let other = challenge_of(array@);
    assert(array@ == array@);
    assert(other@ == array@);
    assert(other =~= array);
}

/// The result of a decoder stands for the result of the model.
pub open spec fn stands_for<'a>(
    result: Result<(Frame<&'a [u8], AckRanges<'a>>, usize), FrameError>,
    model: Result<(FrameModel, int), FrameError>,
) -> bool {
    match result {
        Ok((frame, n)) => model == Ok::<(FrameModel, int), FrameError>((frame@, n as int)),
        Err(error) => model == Err::<(FrameModel, int), FrameError>(error),
    }
}

/// Reads one frame from the front of its input.
pub struct FrameDecoder<'a> {
    input: &'a [u8],
}

impl<'a> View for FrameDecoder<'a> {
    type V = Seq<u8>;

    closed spec fn view(&self) -> Seq<u8> {
        self.input@
    }
}

impl<'a> FrameDecoder<'a> {
    pub fn new(input: &'a [u8]) -> (result: Self)
        ensures
            result@ == input@,
    {
        FrameDecoder { input }
    }

    fn decode_integers(self, ty: u8) -> (result: Result<
        (Frame<&'a [u8], AckRanges<'a>>, usize),
        FrameError,
    >)
        requires
            self@.len() > 0,
            self@[0] == ty,
        ensures
            stands_for(result, parse_integers(self@)),
    {
        let input = self.input;
        let (a, pos) = read_int(input, 1)?;
        if ty == TYPE_MAX_DATA {
            return Ok((Frame::MaxData { maximum_data: a }, pos));
        }
        if ty == TYPE_DATA_BLOCKED {
            return Ok((Frame::DataBlocked { maximum_data: a }, pos));
        }
        if ty == TYPE_MAX_STREAMS_BIDI || ty == TYPE_MAX_STREAMS_UNI {
            return Ok((Frame::MaxStreams { is_uni: ty == TYPE_MAX_STREAMS_UNI, max_streams: a }, pos));
        }
        if ty == TYPE_STREAMS_BLOCKED_BIDI || ty == TYPE_STREAMS_BLOCKED_UNI {
            return Ok(
                (
                    Frame::StreamsBlocked { is_uni: ty == TYPE_STREAMS_BLOCKED_UNI, max_streams: a },
                    pos,
                ),
            );
        }
        if ty == TYPE_RETIRE_CONNECTION_ID {
            return Ok((Frame::RetireConnectionId { sequence_number: a }, pos));
        }
        let (b, pos) = read_int(input, pos)?;
        if ty == TYPE_STOP_SENDING {
            return Ok((Frame::StopSending { stream_id: a, error_code: b }, pos));
        }
        if ty == TYPE_MAX_STREAM_DATA {
            return Ok((Frame::MaxStreamData { stream_id: a, maximum_stream_data: b }, pos));
        }
        if ty == TYPE_STREAM_DATA_BLOCKED {
            return Ok((Frame::StreamDataBlocked { stream_id: a, maximum_stream_data: b }, pos));
        }
        let (c, pos) = read_int(input, pos)?;
        Ok((Frame::ResetStream { stream_id: a, error_code: b, final_size: c }, pos))
    }

    fn decode_stream(self, ty: u8) -> (result: Result<
        (Frame<&'a [u8], AckRanges<'a>>, usize),
        FrameError,
    >)
        requires
            self@.len() > 0,
            self@[0] == ty,
            is_stream_type(ty),
        ensures
            stands_for(result, parse_stream(self@)),
    {
        broadcast use {crate::varint::lemma_of_view, crate::varint::lemma_view_of};

        let input = self.input;
        let has_off = (ty - TYPE_STREAM_BASE) / 4 == 1;
        let has_len = (ty - TYPE_STREAM_BASE) / 2 % 2 == 1;
        let fin = ty % 2 == 1;
        let (stream_id, pos) = read_int(input, 1)?;
        let (offset, pos) = if has_off {
            read_int(input, pos)?
        } else {
            (VarInt::zero(), pos)
        };
        let (data, pos) = if has_len {
            read_data(input, pos)?
        } else {
            (vstd::slice::slice_subrange(input, pos, input.len()), input.len())
        };
        Ok((Frame::Stream { stream_id, offset, fin, length_prefixed: has_len, data }, pos))
    }

    fn decode_ack(self, ty: u8) -> (result: Result<
        (Frame<&'a [u8], AckRanges<'a>>, usize),
        FrameError,
    >)
        requires
            self@.len() > 0,
            self@[0] == ty,
        ensures
            stands_for(result, parse_ack(self@)),
    {
        let input = self.input;
        let (largest, pos) = read_int(input, 1)?;
        let (delay, pos) = read_int(input, pos)?;
        let (range_count, pos) = read_int(input, pos)?;
        if range_count.get() > MAX_ACK_RANGES as u64 {
            return Err(FrameError::InvalidAckRange);
        }
        let (first_range, pos) = read_int(input, pos)?;
        if first_range.get() > largest.get() {
            return Err(FrameError::InvalidAckRange);
        }
        if range_count.get() > (input.len() - pos) as u64 {
            return Err(FrameError::Underflow);
        }
        let count: usize = range_count.get() as usize;
        let start: usize = pos;
        let mut pos: usize = pos;
        let mut smallest: u64 = largest.get() - first_range.get();
        let ghost all = ranges_at(input@, start as int, count as nat, smallest as int);
        let ghost mut front: Seq<(VarInt, VarInt)> = seq![];
        let mut i: usize = 0;
        proof {
            if let Ok((ranges, _)) = all {
                assert(front + ranges =~= ranges);
            }
        }
        while i < count
            invariant
                i <= count,
                start <= pos <= input.len(),
                all == (match ranges_at(
                    input@,
                    pos as int,
                    (count - i) as nat,
                    smallest as int,
                ) {
                    Ok((ranges, end)) => Ok((front + ranges, end)),
                    Err(error) => Err(error),
                }),
                parse_ack(self@) == parse_ack(input@),
                parse_ack(input@) matches Ok(_) ==> all is Ok,
                all matches Err(error) ==> parse_ack(input@) == Err::<(FrameModel, int), FrameError>(
                    error,
                ),
            decreases count - i,
        {
            let (gap, after_gap) = read_int(input, pos)?;
            let (range_len, next) = read_int(input, after_gap)?;
            let skip: u64 = gap.get() + 2;
            if skip > smallest {
                return Err(FrameError::InvalidAckRange);
            }
            if range_len.get() > smallest - skip {
                return Err(FrameError::InvalidAckRange);
            }
            proof {
                let tail = ranges_at(
                    input@,
                    next as int,
                    (count - i - 1) as nat,
                    smallest - gap@ - 2 - range_len@,
                );
                if let Ok((ranges, _)) = tail {
                    assert(front + (seq![(gap, range_len)] + ranges) =~= front + seq![
                        (gap, range_len),
                    ] + ranges);
                }
                front = front + seq![(gap, range_len)];
            }
            smallest = smallest - skip - range_len.get();
            pos = next;
            i += 1;
        }
        let window = vstd::slice::slice_subrange(input, start, pos);
        let additional_ranges = AckRanges::new(window, count);
        proof {
            assert(front + Seq::<(VarInt, VarInt)>::empty() =~= front);
            lemma_ranges_bounds(
                input@,
                start as int,
                count as nat,
                largest@ - first_range@,
            );
            lemma_pairs_window(input@, start as int, pos as int, count as nat, largest@ - first_range@);
        }
        if ty == TYPE_ACK_ECN {
            reveal_with_fuel(skip_ints, 4);
            let (_, p1) = read_int(input, pos)?;
            let (_, p2) = read_int(input, p1)?;
            let (_, p3) = read_int(input, p2)?;
            pos = p3;
        }
        Ok((Frame::Ack { largest, delay, first_range, additional_ranges }, pos))
    }

    fn decode_new_connection_id(self) -> (result: Result<
        (Frame<&'a [u8], AckRanges<'a>>, usize),
        FrameError,
    >)
        requires
            self@.len() > 0,
        ensures
            stands_for(result, parse_new_connection_id(self@)),
    {
        let input = self.input;
        let (sequence_number, pos) = read_int(input, 1)?;
        let (retire_prior_to, pos) = read_int(input, pos)?;
        if input.len() <= pos {
            return Err(FrameError::Underflow);
        }
        let cid_len: usize = input[pos] as usize;
        if input.len() - pos < 17 || input.len() - pos - 17 < cid_len {
            return Err(FrameError::Underflow);
        }
        let end: usize = pos + 1 + cid_len;
        let connection_id = vstd::slice::slice_subrange(input, pos + 1, end);
        let stateless_reset_token = array16(vstd::slice::slice_subrange(input, end, end + 16));
        proof {
            lemma_array16(stateless_reset_token);
        }
        Ok(
            (
                Frame::NewConnectionId {
                    sequence_number,
                    retire_prior_to,
                    connection_id,
                    stateless_reset_token,
                },
                end + 16,
            ),
        )
    }

    fn decode_path(self, ty: u8) -> (result: Result<
        (Frame<&'a [u8], AckRanges<'a>>, usize),
        FrameError,
    >)
        requires
            self@.len() > 0,
            self@[0] == ty,
        ensures
            stands_for(result, parse_path(self@)),
    {
        let input = self.input;
        if input.len() < 9 {
            return Err(FrameError::Underflow);
        }
        let data = array8(vstd::slice::slice_subrange(input, 1, 9));
        proof {
            lemma_array8(data);
        }
        if ty == TYPE_PATH_CHALLENGE {
            Ok((Frame::PathChallenge { data }, 9))
        } else {
            Ok((Frame::PathResponse { data }, 9))
        }
    }

    fn decode_close(self, ty: u8) -> (result: Result<
        (Frame<&'a [u8], AckRanges<'a>>, usize),
        FrameError,
    >)
        requires
            self@.len() > 0,
            self@[0] == ty,
        ensures
            stands_for(result, parse_close(self@)),
    {
        broadcast use {crate::varint::lemma_of_view, crate::varint::lemma_view_of};

        let input = self.input;
        let is_application = ty == TYPE_CONNECTION_CLOSE_APP;
        let (error_code, pos) = read_int(input, 1)?;
        let (frame_type, pos) = if is_application {
            (VarInt::zero(), pos)
        } else {
            read_int(input, pos)?
        };
        let (reason, pos) = read_data(input, pos)?;
        Ok((Frame::ConnectionClose { is_application, error_code, frame_type, reason }, pos))
    }

    /// Reads the frame; also returns the number of bytes that it takes.
    pub fn decode(self) -> (result: Result<(Frame<&'a [u8], AckRanges<'a>>, usize), FrameError>)
        ensures
            stands_for(result, parse_frame(self@)),
    {
        reveal(parse_frame);
        let input = self.input;
        if input.len() == 0 {
            return Err(FrameError::Underflow);
        }
        let ty: u8 = input[0];
        match ty {
            TYPE_PADDING => Ok((Frame::Padding, 1)),
            TYPE_PING => Ok((Frame::Ping, 1)),
            TYPE_HANDSHAKE_DONE => Ok((Frame::HandshakeDone, 1)),
            TYPE_RESET_STREAM
            | TYPE_STOP_SENDING
            | TYPE_MAX_DATA
            | TYPE_MAX_STREAM_DATA
            | TYPE_DATA_BLOCKED
            | TYPE_STREAM_DATA_BLOCKED
            | TYPE_MAX_STREAMS_BIDI
            | TYPE_MAX_STREAMS_UNI
            | TYPE_STREAMS_BLOCKED_BIDI
            | TYPE_STREAMS_BLOCKED_UNI
            | TYPE_RETIRE_CONNECTION_ID => self.decode_integers(ty),
            TYPE_ACK | TYPE_ACK_ECN => self.decode_ack(ty),
            TYPE_CRYPTO => {
                let (offset, pos) = read_int(input, 1)?;
                let (data, pos) = read_data(input, pos)?;
                Ok((Frame::Crypto { offset, data }, pos))
            },
            TYPE_DATAGRAM => {
                let data = vstd::slice::slice_subrange(input, 1, input.len());
                Ok((Frame::Datagram { length_prefixed: false, data }, input.len()))
            },
            TYPE_DATAGRAM_LEN => {
                let (data, pos) = read_data(input, 1)?;
                Ok((Frame::Datagram { length_prefixed: true, data }, pos))
            },
            TYPE_NEW_CONNECTION_ID => self.decode_new_connection_id(),
            TYPE_PATH_CHALLENGE | TYPE_PATH_RESPONSE => self.decode_path(ty),
            TYPE_CONNECTION_CLOSE | TYPE_CONNECTION_CLOSE_APP => self.decode_close(ty),
            _ => if TYPE_STREAM_BASE <= ty && ty < TYPE_STREAM_BASE + 8 {
                self.decode_stream(ty)
            } else {
                Err(FrameError::BadType)
            },
        }
    }
}

/// Ranges that were read up to a position can be read from the bytes up to
/// that position.
proof fn lemma_pairs_window(input: Seq<u8>, at: int, end: int, count: nat, smallest: int)
    requires
        0 <= at <= input.len(),
        ranges_at(input, at, count, smallest) matches Ok((_, e)) && e == end,
    ensures
        pairs_at(input.subrange(at, end), 0, count) == pairs_at(input, at, count),
    decreases count,
{
    lemma_ranges_bounds(input, at, count, smallest);
    if count > 0 {
        let window = input.subrange(at, end);
        lemma_int_at_bounds(input, at);
        let (gap, a1) = int_at(input, at).unwrap();
        lemma_int_at_bounds(input, a1);
        let (len, a2) = int_at(input, a1).unwrap();
        let rest = smallest - gap@ - 2 - len@;
        lemma_ranges_bounds(input, a2, (count - 1) as nat, rest);
        lemma_pairs_window(input, a2, end, (count - 1) as nat, rest);
        lemma_parse_prefix(
            input.subrange(at, input.len() as int),
            window.subrange(0, window.len() as int),
        );
        lemma_parse_prefix(
            input.subrange(a1, input.len() as int),
            window.subrange(a1 - at, window.len() as int),
        );
        lemma_pairs_shift(window, a2 - at, 0, (count - 1) as nat);
        assert(window.subrange(a2 - at, window.len() as int) =~= input.subrange(a2, end));
    }
}

/// An integer that lies within a prefix is read alike from the prefix.
proof fn lemma_parse_prefix(whole: Seq<u8>, prefix: Seq<u8>)
    requires
        prefix.len() <= whole.len(),
        prefix =~= whole.subrange(0, prefix.len() as int),
        crate::varint::varint_parse(whole) matches Some((_, n)) && n <= prefix.len(),
    ensures
        crate::varint::varint_parse(prefix) == crate::varint::varint_parse(whole),
{
    reveal(crate::varint::varint_parse);
}

} // verus!
