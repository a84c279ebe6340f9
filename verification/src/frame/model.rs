//! What frames are on the wire.

use vstd::prelude::*;

use crate::frame::{Frame, FrameError};
use crate::frame::{
    MAX_ACK_RANGES, STREAM_FLAG_FIN, STREAM_FLAG_LEN, STREAM_FLAG_OFF, TYPE_ACK, TYPE_ACK_ECN,
    TYPE_CONNECTION_CLOSE, TYPE_CONNECTION_CLOSE_APP, TYPE_CRYPTO, TYPE_DATAGRAM,
    TYPE_DATAGRAM_LEN, TYPE_DATA_BLOCKED, TYPE_HANDSHAKE_DONE, TYPE_MAX_DATA,
    TYPE_MAX_STREAMS_BIDI, TYPE_MAX_STREAMS_UNI, TYPE_MAX_STREAM_DATA, TYPE_NEW_CONNECTION_ID,
    TYPE_PADDING, TYPE_PATH_CHALLENGE, TYPE_PATH_RESPONSE, TYPE_PING, TYPE_RESET_STREAM,
    TYPE_RETIRE_CONNECTION_ID, TYPE_STOP_SENDING, TYPE_STREAMS_BLOCKED_BIDI,
    TYPE_STREAMS_BLOCKED_UNI, TYPE_STREAM_BASE, TYPE_STREAM_DATA_BLOCKED,
};
use crate::varint::{varint_bytes, varint_parse, VarInt, MAX_VARINT};

verus! {

/// A frame over mathematical sequences.
pub type FrameModel = Frame<Seq<u8>, Seq<(VarInt, VarInt)>>;

/// The type byte of a STREAM frame.
pub open spec fn stream_type(has_offset: bool, has_length: bool, fin: bool) -> u8 {
    (TYPE_STREAM_BASE + if has_offset {
        STREAM_FLAG_OFF as int
    } else {
        0
    } + if has_length {
        STREAM_FLAG_LEN as int
    } else {
        0
    } + if fin {
        STREAM_FLAG_FIN as int
    } else {
        0
    }) as u8
}

/// The bytes of a STREAM frame in front of its data and of the length.
pub open spec fn stream_head(stream_id: VarInt, offset: VarInt, fin: bool, prefixed: bool) -> Seq<
    u8,
> {
    seq![stream_type(offset@ != 0, prefixed, fin)] + varint_bytes(stream_id@) + if offset@ != 0 {
        varint_bytes(offset@)
    } else {
        seq![]
    }
}

/// The encodings of the gap and length pairs, one after the other.
pub open spec fn range_bytes(ranges: Seq<(VarInt, VarInt)>) -> Seq<u8>
    decreases ranges.len(),
{
    if ranges.len() == 0 {
        seq![]
    } else {
        range_bytes(ranges.drop_last()) + varint_bytes(ranges.last().0@) + varint_bytes(
            ranges.last().1@,
        )
    }
}

/// The length that a frame announces on the wire, where it announces one.
pub open spec fn announced(frame: FrameModel) -> Option<nat> {
    match frame {
        Frame::Ack { additional_ranges, .. } => Some(additional_ranges.len()),
        Frame::Crypto { data, .. } => Some(data.len()),
        Frame::Datagram { length_prefixed, data } => if length_prefixed {
            Some(data.len())
        } else {
            None
        },
        Frame::ConnectionClose { reason, .. } => Some(reason.len()),
        Frame::Stream { length_prefixed, data, .. } => if length_prefixed {
            Some(data.len())
        } else {
            None
        },
        _ => None,
    }
}

/// The bytes of a frame up to the length that it announces, or all of them
/// where it announces none.
pub open spec fn head_bytes(frame: FrameModel) -> Seq<u8> {
    match frame {
        Frame::Padding => seq![TYPE_PADDING],
        Frame::Ping => seq![TYPE_PING],
        Frame::Ack { largest, delay, .. } => seq![TYPE_ACK] + varint_bytes(largest@) + varint_bytes(
            delay@,
        ),
        Frame::Crypto { offset, .. } => seq![TYPE_CRYPTO] + varint_bytes(offset@),
        Frame::Datagram { length_prefixed, data } => if length_prefixed {
            seq![TYPE_DATAGRAM_LEN]
        } else {
            seq![TYPE_DATAGRAM] + data
        },
        Frame::HandshakeDone => seq![TYPE_HANDSHAKE_DONE],
        Frame::ConnectionClose { is_application, error_code, frame_type, .. } => if is_application {
            seq![TYPE_CONNECTION_CLOSE_APP] + varint_bytes(error_code@)
        } else {
            seq![TYPE_CONNECTION_CLOSE] + varint_bytes(error_code@) + varint_bytes(frame_type@)
        },
        Frame::NewConnectionId {
            sequence_number,
            retire_prior_to,
            connection_id,
            stateless_reset_token,
        } => seq![TYPE_NEW_CONNECTION_ID] + varint_bytes(sequence_number@) + varint_bytes(
            retire_prior_to@,
        ) + seq![(connection_id.len() % 256) as u8] + connection_id + stateless_reset_token@,
        Frame::RetireConnectionId { sequence_number } => seq![TYPE_RETIRE_CONNECTION_ID]
            + varint_bytes(sequence_number@),
        Frame::PathChallenge { data } => seq![TYPE_PATH_CHALLENGE] + data@,
        Frame::PathResponse { data } => seq![TYPE_PATH_RESPONSE] + data@,
        Frame::Stream { stream_id, offset, fin, length_prefixed, data } => stream_head(
            stream_id,
            offset,
            fin,
            length_prefixed,
        ) + if length_prefixed {
            seq![]
        } else {
            data
        },
        Frame::ResetStream { stream_id, error_code, final_size } => seq![TYPE_RESET_STREAM]
            + varint_bytes(stream_id@) + varint_bytes(error_code@) + varint_bytes(final_size@),
        Frame::StopSending { stream_id, error_code } => seq![TYPE_STOP_SENDING] + varint_bytes(
            stream_id@,
        ) + varint_bytes(error_code@),
        Frame::MaxData { maximum_data } => seq![TYPE_MAX_DATA] + varint_bytes(maximum_data@),
        Frame::MaxStreamData { stream_id, maximum_stream_data } => seq![TYPE_MAX_STREAM_DATA]
            + varint_bytes(stream_id@) + varint_bytes(maximum_stream_data@),
        Frame::DataBlocked { maximum_data } => seq![TYPE_DATA_BLOCKED] + varint_bytes(
            maximum_data@,
        ),
        Frame::StreamDataBlocked { stream_id, maximum_stream_data } =>
            seq![TYPE_STREAM_DATA_BLOCKED] + varint_bytes(stream_id@) + varint_bytes(
            maximum_stream_data@,
        ),
        Frame::MaxStreams { is_uni, max_streams } => seq![
            if is_uni {
                TYPE_MAX_STREAMS_UNI
            } else {
                TYPE_MAX_STREAMS_BIDI
            },
        ] + varint_bytes(max_streams@),
        Frame::StreamsBlocked { is_uni, max_streams } => seq![
            if is_uni {
                TYPE_STREAMS_BLOCKED_UNI
            } else {
                TYPE_STREAMS_BLOCKED_BIDI
            },
        ] + varint_bytes(max_streams@),
    }
}

/// The bytes of a frame behind the length that it announces.
pub open spec fn tail_bytes(frame: FrameModel) -> Seq<u8> {
    match frame {
        Frame::Ack { first_range, additional_ranges, .. } => varint_bytes(first_range@)
            + range_bytes(additional_ranges),
        Frame::Crypto { data, .. } => data,
        Frame::Datagram { length_prefixed, data } => if length_prefixed {
            data
        } else {
            seq![]
        },
        Frame::ConnectionClose { reason, .. } => reason,
        Frame::Stream { length_prefixed, data, .. } => if length_prefixed {
            data
        } else {
            seq![]
        },
        _ => seq![],
    }
}

/// The wire form of a frame.
pub open spec fn frame_bytes(frame: FrameModel) -> Seq<u8> {
    match announced(frame) {
        Some(length) => head_bytes(frame) + varint_bytes(length as u64) + tail_bytes(frame),
        None => head_bytes(frame),
    }
}

/// Whether a frame has a wire form: the length that it announces, if any, is
/// within the range of a variable-length integer.
pub open spec fn encodable(frame: FrameModel) -> bool {
    announced(frame) matches Some(length) ==> length <= MAX_VARINT
}

/// The integer at position `at` and the position behind it.
pub open spec fn int_at(input: Seq<u8>, at: int) -> Option<(VarInt, int)> {
    match varint_parse(input.subrange(at, input.len() as int)) {
        Some((value, n)) => Some((VarInt::of(value), at + n)),
        None => None,
    }
}

/// The data of length `length` at position `at`, and the position behind it.
pub open spec fn data_at(input: Seq<u8>, at: int, length: u64) -> Option<(Seq<u8>, int)> {
    if at + length <= input.len() {
        Some((input.subrange(at, at + length), at + length))
    } else {
        None
    }
}

/// The length-prefixed data at position `at`, and the position behind it.
pub open spec fn prefixed_at(input: Seq<u8>, at: int) -> Result<(Seq<u8>, int), FrameError> {
    match int_at(input, at) {
        None => Err(FrameError::BadVarInt),
        Some((length, at)) => match data_at(input, at, length@) {
            None => Err(FrameError::Underflow),
            Some(found) => Ok(found),
        },
    }
}

/// The next `count` gap and length pairs, which walk down from `smallest`, and
/// the position behind them.
pub open spec fn ranges_at(input: Seq<u8>, at: int, count: nat, smallest: int) -> Result<
    (Seq<(VarInt, VarInt)>, int),
    FrameError,
>
    decreases count,
{
    if count == 0 {
        Ok((seq![], at))
    } else {
        match int_at(input, at) {
            None => Err(FrameError::BadVarInt),
            Some((gap, at)) => match int_at(input, at) {
                None => Err(FrameError::BadVarInt),
                Some((len, at)) => if smallest - gap@ - 2 - len@ < 0 {
                    Err(FrameError::InvalidAckRange)
                } else {
                    match ranges_at(input, at, (count - 1) as nat, smallest - gap@ - 2 - len@) {
                        Err(error) => Err(error),
                        Ok((rest, at)) => Ok((seq![(gap, len)] + rest, at)),
                    }
                },
            },
        }
    }
}

/// The position behind `count` integers at position `at`.
pub open spec fn skip_ints(input: Seq<u8>, at: int, count: nat) -> Option<int>
    decreases count,
{
    if count == 0 {
        Some(at)
    } else {
        match int_at(input, at) {
            None => None,
            Some((_, at)) => skip_ints(input, at, (count - 1) as nat),
        }
    }
}

/// Whether a type byte is that of a STREAM frame.
pub open spec fn is_stream_type(ty: u8) -> bool {
    TYPE_STREAM_BASE <= ty < TYPE_STREAM_BASE + 8
}

pub open spec fn stream_has_offset(ty: u8) -> bool {
    (ty - TYPE_STREAM_BASE) / 4 == 1
}

pub open spec fn stream_has_length(ty: u8) -> bool {
    (ty - TYPE_STREAM_BASE) / 2 % 2 == 1
}

pub open spec fn stream_has_fin(ty: u8) -> bool {
    ty % 2 == 1
}

pub open spec fn parse_stream(input: Seq<u8>) -> Result<(FrameModel, int), FrameError> {
    let ty = input[0];
    match int_at(input, 1) {
        None => Err(FrameError::BadVarInt),
        Some((stream_id, at)) => match (if stream_has_offset(ty) {
            int_at(input, at)
        } else {
            Some((VarInt::of(0), at))
        }) {
            None => Err(FrameError::BadVarInt),
            Some((offset, at)) => match (if stream_has_length(ty) {
                prefixed_at(input, at)
            } else {
                Ok((input.subrange(at, input.len() as int), input.len() as int))
            }) {
                Err(error) => Err(error),
                Ok((data, at)) => Ok(
                    (
                        Frame::Stream {
                            stream_id,
                            offset,
                            fin: stream_has_fin(ty),
                            length_prefixed: stream_has_length(ty),
                            data,
                        },
                        at,
                    ),
                ),
            },
        },
    }
}

pub open spec fn parse_ack(input: Seq<u8>) -> Result<(FrameModel, int), FrameError> {
    match int_at(input, 1) {
        None => Err(FrameError::BadVarInt),
        Some((largest, at)) => match int_at(input, at) {
            None => Err(FrameError::BadVarInt),
            Some((delay, at)) => match int_at(input, at) {
                None => Err(FrameError::BadVarInt),
                Some((count, at)) => if count@ > MAX_ACK_RANGES {
                    Err(FrameError::InvalidAckRange)
                } else {
                    match int_at(input, at) {
                        None => Err(FrameError::BadVarInt),
                        Some((first_range, at)) => if first_range@ > largest@ {
                            Err(FrameError::InvalidAckRange)
                        } else if count@ > input.len() - at {
                            Err(FrameError::Underflow)
                        } else {
                            match ranges_at(
                                input,
                                at,
                                count@ as nat,
                                largest@ - first_range@,
                            ) {
                                Err(error) => Err(error),
                                Ok((additional_ranges, at)) => match (if input[0] == TYPE_ACK_ECN {
                                    skip_ints(input, at, 3)
                                } else {
                                    Some(at)
                                }) {
                                    None => Err(FrameError::BadVarInt),
                                    Some(at) => Ok(
                                        (
                                            Frame::Ack {
                                                largest,
                                                delay,
                                                first_range,
                                                additional_ranges,
                                            },
                                            at,
                                        ),
                                    ),
                                },
                            }
                        },
                    }
                },
            },
        },
    }
}

pub open spec fn parse_new_connection_id(input: Seq<u8>) -> Result<(FrameModel, int), FrameError> {
    match int_at(input, 1) {
        None => Err(FrameError::BadVarInt),
        Some((sequence_number, at)) => match int_at(input, at) {
            None => Err(FrameError::BadVarInt),
            Some((retire_prior_to, at)) => if input.len() <= at || input.len() < at + 1 + input[at]
                + 16 {
                Err(FrameError::Underflow)
            } else {
                let end = at + 1 + input[at];
                Ok(
                    (
                        Frame::NewConnectionId {
                            sequence_number,
                            retire_prior_to,
                            connection_id: input.subrange(at + 1, end),
                            stateless_reset_token: token_of(input.subrange(end, end + 16)),
                        },
                        end + 16,
                    ),
                )
            },
        },
    }
}

/// The array that holds 16 given bytes.
pub open spec fn token_of(bytes: Seq<u8>) -> [u8; 16] {
    choose|array: [u8; 16]| array@ == bytes
}

/// The array that holds 8 given bytes.
pub open spec fn challenge_of(bytes: Seq<u8>) -> [u8; 8] {
    choose|array: [u8; 8]| array@ == bytes
}

pub open spec fn parse_close(input: Seq<u8>) -> Result<(FrameModel, int), FrameError> {
    let is_application = input[0] == TYPE_CONNECTION_CLOSE_APP;
    match int_at(input, 1) {
        None => Err(FrameError::BadVarInt),
        Some((error_code, at)) => match (if is_application {
            Some((VarInt::of(0), at))
        } else {
            int_at(input, at)
        }) {
            None => Err(FrameError::BadVarInt),
            Some((frame_type, at)) => match prefixed_at(input, at) {
                Err(error) => Err(error),
                Ok((reason, at)) => Ok(
                    (Frame::ConnectionClose { is_application, error_code, frame_type, reason }, at),
                ),
            },
        },
    }
}

pub open spec fn parse_crypto(input: Seq<u8>) -> Result<(FrameModel, int), FrameError> {
    match int_at(input, 1) {
        None => Err(FrameError::BadVarInt),
        Some((offset, at)) => match prefixed_at(input, at) {
            Err(error) => Err(error),
            Ok((data, at)) => Ok((Frame::Crypto { offset, data }, at)),
        },
    }
}

pub open spec fn parse_path(input: Seq<u8>) -> Result<(FrameModel, int), FrameError> {
    if input.len() < 9 {
        Err(FrameError::Underflow)
    } else if input[0] == TYPE_PATH_CHALLENGE {
        Ok((Frame::PathChallenge { data: challenge_of(input.subrange(1, 9)) }, 9))
    } else {
        Ok((Frame::PathResponse { data: challenge_of(input.subrange(1, 9)) }, 9))
    }
}

/// Frames that consist of one, two or three integers behind the type byte.
pub open spec fn parse_integers(input: Seq<u8>) -> Result<(FrameModel, int), FrameError> {
    let ty = input[0];
    match int_at(input, 1) {
        None => Err(FrameError::BadVarInt),
        Some((a, at)) => if ty == TYPE_MAX_DATA {
            Ok((Frame::MaxData { maximum_data: a }, at))
        } else if ty == TYPE_DATA_BLOCKED {
            Ok((Frame::DataBlocked { maximum_data: a }, at))
        } else if ty == TYPE_MAX_STREAMS_BIDI || ty == TYPE_MAX_STREAMS_UNI {
            Ok((Frame::MaxStreams { is_uni: ty == TYPE_MAX_STREAMS_UNI, max_streams: a }, at))
        } else if ty == TYPE_STREAMS_BLOCKED_BIDI || ty == TYPE_STREAMS_BLOCKED_UNI {
            Ok(
                (
                    Frame::StreamsBlocked { is_uni: ty == TYPE_STREAMS_BLOCKED_UNI, max_streams: a },
                    at,
                ),
            )
        } else if ty == TYPE_RETIRE_CONNECTION_ID {
            Ok((Frame::RetireConnectionId { sequence_number: a }, at))
        } else {
            match int_at(input, at) {
                None => Err(FrameError::BadVarInt),
                Some((b, at)) => if ty == TYPE_STOP_SENDING {
                    Ok((Frame::StopSending { stream_id: a, error_code: b }, at))
                } else if ty == TYPE_MAX_STREAM_DATA {
                    Ok((Frame::MaxStreamData { stream_id: a, maximum_stream_data: b }, at))
                } else if ty == TYPE_STREAM_DATA_BLOCKED {
                    Ok((Frame::StreamDataBlocked { stream_id: a, maximum_stream_data: b }, at))
                } else {
                    match int_at(input, at) {
                        None => Err(FrameError::BadVarInt),
                        Some((c, at)) => Ok(
                            (Frame::ResetStream { stream_id: a, error_code: b, final_size: c }, at),
                        ),
                    }
                },
            }
        },
    }
}

/// Whether a type byte belongs to a frame that consists of integers alone.
pub open spec fn is_integer_type(ty: u8) -> bool {
    ||| ty == TYPE_RESET_STREAM
    ||| ty == TYPE_STOP_SENDING
    ||| ty == TYPE_MAX_DATA
    ||| ty == TYPE_MAX_STREAM_DATA
    ||| ty == TYPE_DATA_BLOCKED
    ||| ty == TYPE_STREAM_DATA_BLOCKED
    ||| ty == TYPE_MAX_STREAMS_BIDI
    ||| ty == TYPE_MAX_STREAMS_UNI
    ||| ty == TYPE_STREAMS_BLOCKED_BIDI
    ||| ty == TYPE_STREAMS_BLOCKED_UNI
    ||| ty == TYPE_RETIRE_CONNECTION_ID
}

/// The frame at the front of `input` and the number of bytes that it takes, or
/// why there is none.
#[verifier::opaque]
pub open spec fn parse_frame(input: Seq<u8>) -> Result<(FrameModel, int), FrameError> {
    if input.len() == 0 {
        Err(FrameError::Underflow)
    } else {
        let ty = input[0];
        if ty == TYPE_PADDING {
            Ok((Frame::Padding, 1))
        } else if ty == TYPE_PING {
            Ok((Frame::Ping, 1))
        } else if ty == TYPE_HANDSHAKE_DONE {
            Ok((Frame::HandshakeDone, 1))
        } else if is_integer_type(ty) {
            parse_integers(input)
        } else if is_stream_type(ty) {
            parse_stream(input)
        } else if ty == TYPE_ACK || ty == TYPE_ACK_ECN {
            parse_ack(input)
        } else if ty == TYPE_CRYPTO {
            parse_crypto(input)
        } else if ty == TYPE_DATAGRAM {
            Ok(
                (
                    Frame::Datagram {
                        length_prefixed: false,
                        data: input.subrange(1, input.len() as int),
                    },
                    input.len() as int,
                ),
            )
        } else if ty == TYPE_DATAGRAM_LEN {
            match prefixed_at(input, 1) {
                Err(error) => Err(error),
                Ok((data, at)) => Ok((Frame::Datagram { length_prefixed: true, data }, at)),
            }
        } else if ty == TYPE_NEW_CONNECTION_ID {
            parse_new_connection_id(input)
        } else if ty == TYPE_PATH_CHALLENGE || ty == TYPE_PATH_RESPONSE {
            parse_path(input)
        } else if ty == TYPE_CONNECTION_CLOSE || ty == TYPE_CONNECTION_CLOSE_APP {
            parse_close(input)
        } else {
            Err(FrameError::BadType)
        }
    }
}

/// All frames of a payload in order, without the padding.
pub open spec fn parse_frames(input: Seq<u8>) -> Result<Seq<FrameModel>, FrameError>
    decreases input.len(),
{
    if input.len() == 0 {
        Ok(seq![])
    } else {
        match parse_frame(input) {
            Err(error) => Err(error),
            Ok((frame, n)) => if 1 <= n <= input.len() {
                match parse_frames(input.subrange(n, input.len() as int)) {
                    Err(error) => Err(error),
                    Ok(rest) => Ok(
                        if frame is Padding {
                            rest
                        } else {
                            seq![frame] + rest
                        },
                    ),
                }
            } else {
                Err(FrameError::Underflow)
            },
        }
    }
}

} // verus!
