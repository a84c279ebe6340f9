//! QUIC frames: the unit of a packet's payload.

use vstd::prelude::*;

use crate::varint;
use crate::varint::{varint_bytes, VarInt, MAX_VARINT};

pub mod ack_ranges;
pub mod decode;
pub mod error;
pub mod laws;
pub mod model;

pub use ack_ranges::AckRanges;
use decode::FrameDecoder;
use model::{
    encodable, frame_bytes, head_bytes, parse_frame, parse_frames, range_bytes, stream_head,
    FrameModel,
};

verus! {

pub const TYPE_PADDING: u8 = 0x00;

pub const TYPE_PING: u8 = 0x01;

pub const TYPE_ACK: u8 = 0x02;

pub const TYPE_ACK_ECN: u8 = 0x03;

pub const TYPE_RESET_STREAM: u8 = 0x04;

pub const TYPE_STOP_SENDING: u8 = 0x05;

pub const TYPE_CRYPTO: u8 = 0x06;

pub const TYPE_STREAM_BASE: u8 = 0x08;

pub const STREAM_FLAG_OFF: u8 = 0x04;

pub const STREAM_FLAG_LEN: u8 = 0x02;

pub const STREAM_FLAG_FIN: u8 = 0x01;

pub const TYPE_MAX_DATA: u8 = 0x10;

pub const TYPE_MAX_STREAM_DATA: u8 = 0x11;

pub const TYPE_MAX_STREAMS_BIDI: u8 = 0x12;

pub const TYPE_MAX_STREAMS_UNI: u8 = 0x13;

pub const TYPE_DATA_BLOCKED: u8 = 0x14;

pub const TYPE_STREAM_DATA_BLOCKED: u8 = 0x15;

pub const TYPE_STREAMS_BLOCKED_BIDI: u8 = 0x16;

pub const TYPE_STREAMS_BLOCKED_UNI: u8 = 0x17;

pub const TYPE_NEW_CONNECTION_ID: u8 = 0x18;

pub const TYPE_RETIRE_CONNECTION_ID: u8 = 0x19;

pub const TYPE_PATH_CHALLENGE: u8 = 0x1a;

pub const TYPE_PATH_RESPONSE: u8 = 0x1b;

pub const TYPE_CONNECTION_CLOSE: u8 = 0x1c;

pub const TYPE_CONNECTION_CLOSE_APP: u8 = 0x1d;

pub const TYPE_HANDSHAKE_DONE: u8 = 0x1e;

pub const TYPE_DATAGRAM: u8 = 0x30;

pub const TYPE_DATAGRAM_LEN: u8 = 0x31;

/// The most additional ranges that an ACK frame may hold.
pub const MAX_ACK_RANGES: usize = 256;

#[derive(Debug, Clone, Copy, PartialEq, Eq, Structural)]
pub enum FrameError {
    Underflow,
    BadVarInt,
    BadType,
    InvalidAckRange,
}

impl From<varint::Error> for FrameError {
    fn from(error: varint::Error) -> (result: FrameError) {
        FrameError::BadVarInt
    }
}

impl vstd::std_specs::convert::FromSpecImpl<varint::Error> for FrameError {
    open spec fn obeys_from_spec() -> bool {
        true
    }

    open spec fn from_spec(error: varint::Error) -> FrameError {
        FrameError::BadVarInt
    }
}

impl FrameError {
    /// A description for people.
    pub fn message(self) -> (text: &'static str)
        ensures
            text@ == (match self {
                FrameError::Underflow => "truncated frame"@,
                FrameError::BadVarInt => "invalid frame integer"@,
                FrameError::BadType => "invalid frame type"@,
                FrameError::InvalidAckRange => "invalid ACK range"@,
            }),
    {
        match self {
            FrameError::Underflow => "truncated frame",
            FrameError::BadVarInt => "invalid frame integer",
            FrameError::BadType => "invalid frame type",
            FrameError::InvalidAckRange => "invalid ACK range",
        }
    }
}

/// A frame over a kind of byte data and a kind of list of ACK ranges.
#[allow(inconsistent_fields)]
#[derive(Debug, Clone)]
pub enum Frame<Data = Vec<u8>, Ranges = Vec<(VarInt, VarInt)>> {
    Padding,
    Ping,
    Ack { largest: VarInt, delay: VarInt, first_range: VarInt, additional_ranges: Ranges },
    Crypto { offset: VarInt, data: Data },
    Datagram { length_prefixed: bool, data: Data },
    HandshakeDone,
    ConnectionClose { is_application: bool, error_code: VarInt, frame_type: VarInt, reason: Data },
    NewConnectionId {
        sequence_number: VarInt,
        retire_prior_to: VarInt,
        connection_id: Data,
        stateless_reset_token: [u8; 16],
    },
    RetireConnectionId { sequence_number: VarInt },
    PathChallenge { data: [u8; 8] },
    PathResponse { data: [u8; 8] },
    Stream { stream_id: VarInt, offset: VarInt, fin: bool, length_prefixed: bool, data: Data },
    ResetStream { stream_id: VarInt, error_code: VarInt, final_size: VarInt },
    StopSending { stream_id: VarInt, error_code: VarInt },
    MaxData { maximum_data: VarInt },
    MaxStreamData { stream_id: VarInt, maximum_stream_data: VarInt },
    DataBlocked { maximum_data: VarInt },
    StreamDataBlocked { stream_id: VarInt, maximum_stream_data: VarInt },
    MaxStreams { is_uni: bool, max_streams: VarInt },
    StreamsBlocked { is_uni: bool, max_streams: VarInt },
}

/// The same frame over other kinds of data and ranges.
pub open spec fn mapped<D, R, E, S>(
    frame: Frame<D, R>,
    data_map: spec_fn(D) -> E,
    range_map: spec_fn(R) -> S,
) -> Frame<E, S> {
    match frame {
        Frame::Padding => Frame::Padding,
        Frame::Ping => Frame::Ping,
        Frame::Ack { largest, delay, first_range, additional_ranges } => Frame::Ack {
            largest,
            delay,
            first_range,
            additional_ranges: range_map(additional_ranges),
        },
        Frame::Crypto { offset, data } => Frame::Crypto { offset, data: data_map(data) },
        Frame::Datagram { length_prefixed, data } => Frame::Datagram {
            length_prefixed,
            data: data_map(data),
        },
        Frame::HandshakeDone => Frame::HandshakeDone,
        Frame::ConnectionClose { is_application, error_code, frame_type, reason } =>
            Frame::ConnectionClose {
            is_application,
            error_code,
            frame_type,
            reason: data_map(reason),
        },
        Frame::NewConnectionId {
            sequence_number,
            retire_prior_to,
            connection_id,
            stateless_reset_token,
        } => Frame::NewConnectionId {
            sequence_number,
            retire_prior_to,
            connection_id: data_map(connection_id),
            stateless_reset_token,
        },
        Frame::RetireConnectionId { sequence_number } => Frame::RetireConnectionId {
            sequence_number,
        },
        Frame::PathChallenge { data } => Frame::PathChallenge { data },
        Frame::PathResponse { data } => Frame::PathResponse { data },
        Frame::Stream { stream_id, offset, fin, length_prefixed, data } => Frame::Stream {
            stream_id,
            offset,
            fin,
            length_prefixed,
            data: data_map(data),
        },
        Frame::ResetStream { stream_id, error_code, final_size } => Frame::ResetStream {
            stream_id,
            error_code,
            final_size,
        },
        Frame::StopSending { stream_id, error_code } => Frame::StopSending {
            stream_id,
            error_code,
        },
        Frame::MaxData { maximum_data } => Frame::MaxData { maximum_data },
        Frame::MaxStreamData { stream_id, maximum_stream_data } => Frame::MaxStreamData {
            stream_id,
            maximum_stream_data,
        },
        Frame::DataBlocked { maximum_data } => Frame::DataBlocked { maximum_data },
        Frame::StreamDataBlocked { stream_id, maximum_stream_data } => Frame::StreamDataBlocked {
            stream_id,
            maximum_stream_data,
        },
        Frame::MaxStreams { is_uni, max_streams } => Frame::MaxStreams { is_uni, max_streams },
        Frame::StreamsBlocked { is_uni, max_streams } => Frame::StreamsBlocked {
            is_uni,
            max_streams,
        },
    }
}

/// Whether two frames agree in all but their data and ranges, which stand in
/// the given relations.
pub open spec fn related<D, R, E, S>(
    a: Frame<D, R>,
    b: Frame<E, S>,
    data: spec_fn(D, E) -> bool,
    ranges: spec_fn(R, S) -> bool,
) -> bool {
    match (a, b) {
        (
            Frame::Ack { largest, delay, first_range, additional_ranges },
            Frame::Ack { largest: l, delay: d, first_range: f, additional_ranges: r },
        ) => largest == l && delay == d && first_range == f && ranges(additional_ranges, r),
        (Frame::Crypto { offset, data: x }, Frame::Crypto { offset: o, data: y }) => offset == o
            && data(x, y),
        (
            Frame::Datagram { length_prefixed, data: x },
            Frame::Datagram { length_prefixed: l, data: y },
        ) => length_prefixed == l && data(x, y),
        (
            Frame::ConnectionClose { is_application, error_code, frame_type, reason },
            Frame::ConnectionClose { is_application: i, error_code: e, frame_type: f, reason: r },
        ) => is_application == i && error_code == e && frame_type == f && data(reason, r),
        (
            Frame::NewConnectionId {
                sequence_number,
                retire_prior_to,
                connection_id,
                stateless_reset_token,
            },
            Frame::NewConnectionId {
                sequence_number: s,
                retire_prior_to: r,
                connection_id: c,
                stateless_reset_token: t,
            },
        ) => sequence_number == s && retire_prior_to == r && data(connection_id, c)
            && stateless_reset_token == t,
        (
            Frame::Stream { stream_id, offset, fin, length_prefixed, data: x },
            Frame::Stream { stream_id: s, offset: o, fin: f, length_prefixed: l, data: y },
        ) => stream_id == s && offset == o && fin == f && length_prefixed == l && data(x, y),
        _ => !holds_data(a) && mapped(a, |d: D| (), |r: R| ()) == mapped(b, |d: E| (), |r: S| ()),
    }
}

/// Whether a frame holds byte data or ranges.
pub open spec fn holds_data<D, R>(frame: Frame<D, R>) -> bool {
    ||| frame is Ack
    ||| frame is Crypto
    ||| frame is Datagram
    ||| frame is ConnectionClose
    ||| frame is NewConnectionId
    ||| frame is Stream
}

impl View for Frame<Vec<u8>, Vec<(VarInt, VarInt)>> {
    type V = FrameModel;

    open spec fn view(&self) -> FrameModel {
        mapped(*self, |d: Vec<u8>| d@, |r: Vec<(VarInt, VarInt)>| r@)
    }
}

impl<'a> View for Frame<&'a [u8], AckRanges<'a>> {
    type V = FrameModel;

    open spec fn view(&self) -> FrameModel {
        mapped(*self, |d: &'a [u8]| d@, |r: AckRanges<'a>| r@)
    }
}

impl<Data, Ranges> Frame<Data, Ranges> {
    /// Replaces the data and the ranges of a frame and keeps the rest.
    pub fn map<MappedData, MappedRanges>(
        self,
        map_data: impl Copy + Fn(Data) -> MappedData,
        map_ranges: impl FnOnce(Ranges) -> MappedRanges,
    ) -> (result: Frame<MappedData, MappedRanges>)
        requires
            forall|data: Data| #[trigger] call_requires(map_data, (data,)),
            forall|ranges: Ranges| #[trigger] call_requires(map_ranges, (ranges,)),
        ensures
            related(
                self,
                result,
                |x: Data, y: MappedData| call_ensures(map_data, (x,), y),
                |x: Ranges, y: MappedRanges| call_ensures(map_ranges, (x,), y),
            ),
    {
        match self {
            Frame::Padding => Frame::Padding,
            Frame::Ping => Frame::Ping,
            Frame::Ack { largest, delay, first_range, additional_ranges } => Frame::Ack {
                largest,
                delay,
                first_range,
                additional_ranges: map_ranges(additional_ranges),
            },
            Frame::Crypto { offset, data } => Frame::Crypto { offset, data: map_data(data) },
            Frame::Datagram { length_prefixed, data } => Frame::Datagram {
                length_prefixed,
                data: map_data(data),
            },
            Frame::HandshakeDone => Frame::HandshakeDone,
            Frame::ConnectionClose { is_application, error_code, frame_type, reason } =>
                Frame::ConnectionClose {
                is_application,
                error_code,
                frame_type,
                reason: map_data(reason),
            },
            Frame::NewConnectionId {
                sequence_number,
                retire_prior_to,
                connection_id,
                stateless_reset_token,
            } => Frame::NewConnectionId {
                sequence_number,
                retire_prior_to,
                connection_id: map_data(connection_id),
                stateless_reset_token,
            },
            Frame::RetireConnectionId { sequence_number } => Frame::RetireConnectionId {
                sequence_number,
            },
            Frame::PathChallenge { data } => Frame::PathChallenge { data },
            Frame::PathResponse { data } => Frame::PathResponse { data },
            Frame::Stream { stream_id, offset, fin, length_prefixed, data } => Frame::Stream {
                stream_id,
                offset,
                fin,
                length_prefixed,
                data: map_data(data),
            },
            Frame::ResetStream { stream_id, error_code, final_size } => Frame::ResetStream {
                stream_id,
                error_code,
                final_size,
            },
            Frame::StopSending { stream_id, error_code } => Frame::StopSending {
                stream_id,
                error_code,
            },
            Frame::MaxData { maximum_data } => Frame::MaxData { maximum_data },
            Frame::MaxStreamData { stream_id, maximum_stream_data } => Frame::MaxStreamData {
                stream_id,
                maximum_stream_data,
            },
            Frame::DataBlocked { maximum_data } => Frame::DataBlocked { maximum_data },
            Frame::StreamDataBlocked { stream_id, maximum_stream_data } =>
                Frame::StreamDataBlocked { stream_id, maximum_stream_data },
            Frame::MaxStreams { is_uni, max_streams } => Frame::MaxStreams { is_uni, max_streams },
            Frame::StreamsBlocked { is_uni, max_streams } => Frame::StreamsBlocked {
                is_uni,
                max_streams,
            },
        }
    }
}

/// Appends a length as a variable-length integer.
fn put_length(out: &mut Vec<u8>, length: usize) -> (result: Result<(), FrameError>)
    ensures
        match result {
            Ok(_) => length <= MAX_VARINT && final(out)@ == old(out)@ + varint_bytes(length as u64),
            Err(error) => length > MAX_VARINT && error == FrameError::BadVarInt && final(out)@
                == old(out)@,
        },
{
    match VarInt::from_usize(length) {
        Some(length) => {
            length.encode(out);
            Ok(())
        },
        None => Err(FrameError::BadVarInt),
    }
}

/// Appends bytes.
pub(crate) fn put_bytes(out: &mut Vec<u8>, data: &[u8])
    ensures
        final(out)@ == old(out)@ + data@,
{
    out.extend_from_slice(data);
    assert(out@ =~= old(out)@ + data@);
}

/// Copies bytes.
fn owned_bytes(data: &[u8]) -> (out: Vec<u8>)
    ensures
        out@ == data@,
{
    vstd::slice::slice_to_vec(data)
}

/// Copies ranges.
fn owned_ranges(ranges: AckRanges) -> (out: Vec<(VarInt, VarInt)>)
    ensures
        out@ == ranges@,
{
    ranges.to_vec()
}

impl Frame<Vec<u8>, Vec<(VarInt, VarInt)>> {
    /// Appends a STREAM frame. Where the length does not fit its integer, only
    /// what stands in front of the length was appended.
    pub fn encode_stream(
        out: &mut Vec<u8>,
        stream_id: VarInt,
        offset: VarInt,
        fin: bool,
        length_prefixed: bool,
        data: &[u8],
    ) -> (result: Result<(), FrameError>)
        ensures
            ({
                let frame: FrameModel = Frame::Stream {
                    stream_id,
                    offset,
                    fin,
                    length_prefixed,
                    data: data@,
                };
                match result {
                    Ok(_) => encodable(frame) && final(out)@ == old(out)@ + frame_bytes(frame),
                    Err(error) => {
                        &&& !encodable(frame)
                        &&& error == FrameError::BadVarInt
                        &&& final(out)@ == old(out)@ + head_bytes(frame)
                    },
                }
            }),
    {
        let length: Option<usize> = if length_prefixed {
            Some(data.len())
        } else {
            None
        };
        let ghost frame: FrameModel = Frame::Stream {
            stream_id,
            offset,
            fin,
            length_prefixed,
            data: data@,
        };
        match Self::encode_stream_header(out, stream_id, offset, fin, length) {
            Ok(_) => {},
            Err(error) => {
                assert(out@ =~= old(out)@ + head_bytes(frame));
                return Err(error);
            },
        }
        put_bytes(out, data);
        assert(out@ =~= old(out)@ + frame_bytes(frame));
        Ok(())
    }

    /// Appends what stands in front of the data of a STREAM frame.
    pub fn encode_stream_header(
        out: &mut Vec<u8>,
        stream_id: VarInt,
        offset: VarInt,
        fin: bool,
        length: Option<usize>,
    ) -> (result: Result<(), FrameError>)
        ensures
            match result {
                Ok(_) => {
                    &&& length matches Some(n) ==> n <= MAX_VARINT
                    &&& final(out)@ == old(out)@ + stream_head(
                        stream_id,
                        offset,
                        fin,
                        length is Some,
                    ) + match length {
                        Some(n) => varint_bytes(n as u64),
                        None => seq![],
                    }
                },
                Err(error) => {
                    &&& error == FrameError::BadVarInt
                    &&& length matches Some(n) && n > MAX_VARINT
                    &&& final(out)@ == old(out)@ + stream_head(stream_id, offset, fin, true)
                },
            },
    {
        let mut ty: u8 = TYPE_STREAM_BASE;
        if offset.get() != 0 {
            ty = ty + STREAM_FLAG_OFF;
        }
        if length.is_some() {
            ty = ty + STREAM_FLAG_LEN;
        }
        if fin {
            ty = ty + STREAM_FLAG_FIN;
        }
        out.push(ty);
        stream_id.encode(out);
        if offset.get() != 0 {
            offset.encode(out);
        }
        assert(out@ =~= old(out)@ + stream_head(stream_id, offset, fin, length is Some));
        if let Some(length) = length {
            put_length(out, length)?;
        }
        Ok(())
    }

    /// Appends the wire form. Where a length does not fit its integer, only
    /// what stands in front of the length was appended.
    pub fn encode(&self, out: &mut Vec<u8>) -> (result: Result<(), FrameError>)
        ensures
            match result {
                Ok(_) => encodable(self@) && final(out)@ == old(out)@ + frame_bytes(self@),
                Err(error) => {
                    &&& !encodable(self@)
                    &&& error == FrameError::BadVarInt
                    &&& final(out)@ == old(out)@ + head_bytes(self@)
                },
            },
    {
        match self {
            Frame::Padding => out.push(TYPE_PADDING),
            Frame::Ping => out.push(TYPE_PING),
            Frame::Ack { largest, delay, first_range, additional_ranges } => {
                out.push(TYPE_ACK);
                largest.encode(out);
                delay.encode(out);
                assert(out@ =~= old(out)@ + head_bytes(self@));
                put_length(out, additional_ranges.len())?;
                first_range.encode(out);
                let ghost start = out@;
                let mut i: usize = 0;
                assert(additional_ranges@.subrange(0, 0) =~= seq![]);
                while i < additional_ranges.len()
                    invariant
                        i <= additional_ranges.len(),
                        out@ == start + range_bytes(additional_ranges@.subrange(0, i as int)),
                    decreases additional_ranges.len() - i,
                {
                    let (gap, range_len) = additional_ranges[i];
                    gap.encode(out);
                    range_len.encode(out);
                    proof {
                        let next = additional_ranges@.subrange(0, i + 1);
                        assert(next.drop_last() =~= additional_ranges@.subrange(0, i as int));
                        assert(out@ =~= start + range_bytes(next));
                    }
                    i += 1;
                }
                assert(additional_ranges@.subrange(0, i as int) =~= additional_ranges@);
            },
            Frame::Crypto { offset, data } => {
                out.push(TYPE_CRYPTO);
                offset.encode(out);
                assert(out@ =~= old(out)@ + head_bytes(self@));
                put_length(out, data.len())?;
                put_bytes(out, data);
            },
            Frame::Datagram { length_prefixed, data } => {
                if *length_prefixed {
                    out.push(TYPE_DATAGRAM_LEN);
                    assert(out@ =~= old(out)@ + head_bytes(self@));
                    put_length(out, data.len())?;
                    put_bytes(out, data);
                } else {
                    out.push(TYPE_DATAGRAM);
                    put_bytes(out, data);
                }
            },
            Frame::HandshakeDone => out.push(TYPE_HANDSHAKE_DONE),
            Frame::NewConnectionId {
                sequence_number,
                retire_prior_to,
                connection_id,
                stateless_reset_token,
            } => {
                out.push(TYPE_NEW_CONNECTION_ID);
                sequence_number.encode(out);
                retire_prior_to.encode(out);
                out.push((connection_id.len() % 256) as u8);
                put_bytes(out, connection_id);
                put_bytes(out, stateless_reset_token);
            },
            Frame::RetireConnectionId { sequence_number } => {
                out.push(TYPE_RETIRE_CONNECTION_ID);
                sequence_number.encode(out);
            },
            Frame::PathChallenge { data } => {
                out.push(TYPE_PATH_CHALLENGE);
                put_bytes(out, data);
            },
            Frame::PathResponse { data } => {
                out.push(TYPE_PATH_RESPONSE);
                put_bytes(out, data);
            },
            Frame::Stream { stream_id, offset, fin, length_prefixed, data } => {
                return Self::encode_stream(
                    out,
                    *stream_id,
                    *offset,
                    *fin,
                    *length_prefixed,
                    data,
                );
            },
            Frame::ResetStream { stream_id, error_code, final_size } => {
                out.push(TYPE_RESET_STREAM);
                stream_id.encode(out);
                error_code.encode(out);
                final_size.encode(out);
            },
            Frame::StopSending { stream_id, error_code } => {
                out.push(TYPE_STOP_SENDING);
                stream_id.encode(out);
                error_code.encode(out);
            },
            Frame::MaxData { maximum_data } => {
                out.push(TYPE_MAX_DATA);
                maximum_data.encode(out);
            },
            Frame::MaxStreamData { stream_id, maximum_stream_data } => {
                out.push(TYPE_MAX_STREAM_DATA);
                stream_id.encode(out);
                maximum_stream_data.encode(out);
            },
            Frame::DataBlocked { maximum_data } => {
                out.push(TYPE_DATA_BLOCKED);
                maximum_data.encode(out);
            },
            Frame::StreamDataBlocked { stream_id, maximum_stream_data } => {
                out.push(TYPE_STREAM_DATA_BLOCKED);
                stream_id.encode(out);
                maximum_stream_data.encode(out);
            },
            Frame::MaxStreams { is_uni, max_streams } => {
                out.push(
                    if *is_uni {
                        TYPE_MAX_STREAMS_UNI
                    } else {
                        TYPE_MAX_STREAMS_BIDI
                    },
                );
                max_streams.encode(out);
            },
            Frame::StreamsBlocked { is_uni, max_streams } => {
                out.push(
                    if *is_uni {
                        TYPE_STREAMS_BLOCKED_UNI
                    } else {
                        TYPE_STREAMS_BLOCKED_BIDI
                    },
                );
                max_streams.encode(out);
            },
            Frame::ConnectionClose { is_application, error_code, frame_type, reason } => {
                out.push(
                    if *is_application {
                        TYPE_CONNECTION_CLOSE_APP
                    } else {
                        TYPE_CONNECTION_CLOSE
                    },
                );
                error_code.encode(out);
                if !*is_application {
                    frame_type.encode(out);
                }
                assert(out@ =~= old(out)@ + head_bytes(self@));
                put_length(out, reason.len())?;
                put_bytes(out, reason);
            },
        }
        assert(out@ =~= old(out)@ + frame_bytes(self@));
        Ok(())
    }

    /// Reads the frame at the front of `input`; also returns the number of
    /// bytes that it takes.
    pub fn decode(input: &[u8]) -> (result: Result<
        (Frame<Vec<u8>, Vec<(VarInt, VarInt)>>, usize),
        FrameError,
    >)
        ensures
            match result {
                Ok((frame, n)) => parse_frame(input@) == Ok::<(FrameModel, int), FrameError>(
                    (frame@, n as int),
                ),
                Err(error) => parse_frame(input@) == Err::<(FrameModel, int), FrameError>(error),
            },
    {
        let (frame, n) = FrameDecoder::new(input).decode()?;
        let owned = frame.map(owned_bytes, owned_ranges);
        assert(owned@ == frame@);
        Ok((owned, n))
    }

    /// Reads all frames of a payload and leaves out the padding.
    pub fn decode_all(input: &[u8]) -> (result: Result<
        Vec<Frame<Vec<u8>, Vec<(VarInt, VarInt)>>>,
        FrameError,
    >)
        ensures
            match result {
                Ok(frames) => parse_frames(input@) == Ok::<Seq<FrameModel>, FrameError>(
                    frames@.map_values(|frame: Frame<Vec<u8>, Vec<(VarInt, VarInt)>>| frame@),
                ),
                Err(error) => parse_frames(input@) == Err::<Seq<FrameModel>, FrameError>(error),
            },
    {
        let ghost view = |frame: Frame<Vec<u8>, Vec<(VarInt, VarInt)>>| frame@;
        let mut out: Vec<Frame<Vec<u8>, Vec<(VarInt, VarInt)>>> = Vec::new();
        let mut at: usize = 0;
        assert(input@.subrange(0, input@.len() as int) =~= input@);
        proof {
            laws::lemma_prepend(parse_frames(input@), Seq::empty());
            assert(out@.map_values(view) =~= Seq::empty());
        }
        while at < input.len()
            invariant
                at <= input.len(),
                view == (|frame: Frame<Vec<u8>, Vec<(VarInt, VarInt)>>| frame@),
                parse_frames(input@) == laws::prepended(
                    out@.map_values(view),
                    parse_frames(input@.subrange(at as int, input@.len() as int)),
                ),
            decreases input.len() - at,
        {
            let rest = vstd::slice::slice_subrange(input, at, input.len());
            let (frame, n) = match Self::decode(rest) {
                Ok(found) => found,
                Err(error) => {
                    return Err(error);
                },
            };
            proof {
                laws::law_parse_frame_bounds(rest@);
                assert(rest@.subrange(n as int, rest@.len() as int) =~= input@.subrange(
                    at + n,
                    input@.len() as int,
                ));
            }
            let ghost had = out@;
            let ghost frame_model = frame@;
            match frame {
                Frame::Padding => {},
                _ => out.push(frame),
            }
            proof {
                let tail = parse_frames(input@.subrange(at + n, input@.len() as int));
                if !(frame_model is Padding) {
                    assert(out@.map_values(view) =~= had.map_values(view) + seq![frame_model]);
                    laws::lemma_prepend_step(had.map_values(view), frame_model, tail);
                }
            }
            at += n;
        }
        assert(input@.subrange(at as int, input@.len() as int) =~= Seq::empty());
        proof {
            assert(out@.map_values(view) + Seq::<FrameModel>::empty() =~= out@.map_values(view));
        }
        Ok(out)
    }
}

impl<'a> Frame<&'a [u8], AckRanges<'a>> {
    /// As `decode`, without copying the data.
    pub fn decode_ref(input: &'a [u8]) -> (result: Result<
        (Frame<&'a [u8], AckRanges<'a>>, usize),
        FrameError,
    >)
        ensures
            match result {
                Ok((frame, n)) => parse_frame(input@) == Ok::<(FrameModel, int), FrameError>(
                    (frame@, n as int),
                ),
                Err(error) => parse_frame(input@) == Err::<(FrameModel, int), FrameError>(error),
            },
    {
        FrameDecoder::new(input).decode()
    }
}

} // verus!
