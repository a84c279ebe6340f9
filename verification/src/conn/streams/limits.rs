//! Which streams there may be, and how much may be sent on them.
use vstd::prelude::*;

use crate::conn::control::{Control, Pending, PendingModel, Subject};
use crate::varint::MAX_VARINT;

verus! {

/// The greatest number of streams of a kind.
pub const MAX_STREAM_COUNT: u64 = 0x1000_0000_0000_0000;

/// Why a frame of the peer breaks the rules.
#[derive(Debug, Clone, Copy, PartialEq, Eq, Structural)]
pub enum Error {
    ProtocolViolation,
    FlowControl,
    FinalSize,
    StreamBufferExceeded,
    FrameDecode,
}

/// Why an operation on a stream is refused.
#[derive(Debug, Clone, Copy, PartialEq, Eq, Structural)]
pub enum StreamError {
    IdOverflow,
    NotEstablished,
    InvalidStream,
    ValueOutOfRange,
    PeerLimit,
    Capacity,
}

/// What a stream is used for.
#[derive(Debug, Clone, Copy, PartialEq, Eq, Structural)]
pub enum Access {
    Receive,
    Send,
}

/// Whether bytes go one way only.
pub open spec fn uni(stream_id: u64) -> bool {
    (stream_id / 2) % 2 == 1
}

/// Whether we opened a stream.
pub open spec fn ours(stream_id: u64, is_client: bool) -> bool {
    (stream_id % 2 == 0) == is_client
}

pub fn is_uni(stream_id: u64) -> (result: bool)
    ensures
        result == uni(stream_id),
{
    (stream_id / 2) % 2 == 1
}

pub fn we_initiated(stream_id: u64, is_client: bool) -> (result: bool)
    ensures
        result == ours(stream_id, is_client),
{
    (stream_id % 2 == 0) == is_client
}

/// A number for streams that go both ways, and one for the others.
#[derive(Debug, Clone, Copy, PartialEq, Eq, Structural)]
pub struct Pair {
    pub bidi: u64,
    pub uni: u64,
}

impl Pair {
    pub open spec fn of(self, is_uni: bool) -> u64 {
        if is_uni {
            self.uni
        } else {
            self.bidi
        }
    }

    pub open spec fn with(self, is_uni: bool, value: u64) -> Pair {
        if is_uni {
            Pair { uni: value, ..self }
        } else {
            Pair { bidi: value, ..self }
        }
    }

    pub fn get(&self, is_uni: bool) -> (value: u64)
        ensures
            value == self.of(is_uni),
    {
        if is_uni {
            self.uni
        } else {
            self.bidi
        }
    }

    pub fn set(&mut self, is_uni: bool, value: u64)
        ensures
            *final(self) == old(self).with(is_uni, value),
    {
        if is_uni {
            self.uni = value;
        } else {
            self.bidi = value;
        }
    }
}

/// How many bytes the peer takes on a new stream.
#[derive(Debug, Clone, Copy, PartialEq, Eq, Structural)]
pub struct Params {
    pub initial_max_stream_data_bidi_local: u64,
    pub initial_max_stream_data_bidi_remote: u64,
    pub initial_max_stream_data_uni: u64,
}

/// How many bytes we take on a new stream.
#[derive(Debug, Clone, Copy, PartialEq, Eq, Structural)]
pub struct InitialCredit {
    pub bidi_local: u64,
    pub bidi_remote: u64,
    pub uni: u64,
}

/// The streams that we open.
#[derive(Debug, Clone, Copy, PartialEq, Eq, Structural)]
pub struct LocalInitiated {
    /// The number of the next stream.
    pub next: Pair,
    /// How many the peer allows.
    pub peer_max: Pair,
    pub opened: Pair,
    pub active: Pair,
    /// How many there can be at once.
    pub capacity: Pair,
}

/// The streams that the peer opens.
#[derive(Debug, Clone, Copy, PartialEq, Eq, Structural)]
pub struct PeerInitiated {
    /// How many we allow.
    pub max: Pair,
    pub initial_max: Pair,
    /// How many were closed since more were last allowed.
    pub closed: Pair,
}

/// How much of a connection's limits is used, and what the peer is to be told.
#[derive(Debug, Clone, Copy, PartialEq, Eq, Structural)]
pub struct Limits {
    pub local: LocalInitiated,
    pub peer: PeerInitiated,
    pub initial: InitialCredit,
    /// How many bytes we take on all streams together.
    pub local_max_data: u64,
    /// How many of them arrived.
    pub total: u64,
    /// Whether the peer is to be told that we take more bytes.
    pub data_dirty: bool,
    /// Whether the peer is to be told that it may open more streams.
    pub bidi_dirty: bool,
    pub uni_dirty: bool,
}

/// A sum that stays within 64 bits.
pub open spec fn bounded_sum(a: u64, b: u64) -> u64 {
    if a + b <= u64::MAX {
        (a + b) as u64
    } else {
        u64::MAX
    }
}

/// How many bytes the peer takes on a new stream.
pub open spec fn peer_credit(params: Option<Params>, is_client: bool, stream_id: u64) -> u64 {
    match params {
        None => 0,
        Some(params) => if uni(stream_id) {
            if ours(stream_id, is_client) {
                params.initial_max_stream_data_uni
            } else {
                0
            }
        } else if ours(stream_id, is_client) {
            params.initial_max_stream_data_bidi_remote
        } else {
            params.initial_max_stream_data_bidi_local
        },
    }
}

pub fn peer_initial_credit(params: Option<Params>, is_client: bool, stream_id: u64) -> (credit: u64)
    ensures
        credit == peer_credit(params, is_client, stream_id),
{
    match params {
        None => 0,
        Some(params) => if is_uni(stream_id) {
            if we_initiated(stream_id, is_client) {
                params.initial_max_stream_data_uni
            } else {
                0
            }
        } else if we_initiated(stream_id, is_client) {
            params.initial_max_stream_data_bidi_remote
        } else {
            params.initial_max_stream_data_bidi_local
        },
    }
}

/// What bytes up to an offset mean to the limits of a stream and of the
/// connection.
pub open spec fn stream_verdict(
    limit: u64,
    highest: u64,
    final_size: Option<u64>,
    total: u64,
    local_max_data: u64,
    end: int,
    fin: bool,
) -> Result<u64, Error> {
    let grown = if end > highest {
        end - highest
    } else {
        0
    };
    if end > limit {
        Err(Error::FlowControl)
    } else if (final_size matches Some(size) && (end > size || fin && end != size)) || (fin && end
        < highest) {
        Err(Error::FinalSize)
    } else if total + grown > local_max_data {
        Err(Error::FlowControl)
    } else {
        Ok((total + grown) as u64)
    }
}

/// What a final size means to the limits of a stream and of the connection.
pub open spec fn reset_verdict(
    limit: u64,
    highest: u64,
    known: Option<u64>,
    total: u64,
    local_max_data: u64,
    final_size: u64,
) -> Result<u64, Error> {
    if final_size > limit {
        Err(Error::FlowControl)
    } else if final_size < highest || (known matches Some(size) && size != final_size) {
        Err(Error::FinalSize)
    } else if total + (final_size - highest) > local_max_data {
        Err(Error::FlowControl)
    } else {
        Ok((total + (final_size - highest)) as u64)
    }
}

impl Limits {
    /// Whether a stream is there and can be used in a way; `opened` tells whether
    /// the peer opened it.
    pub open spec fn accessible(
        self,
        opened: bool,
        stream_id: u64,
        access: Access,
        is_client: bool,
    ) -> bool {
        if ours(stream_id, is_client) {
            stream_id < self.local.next.of(uni(stream_id)) && !(uni(stream_id) && access
                == Access::Receive)
        } else {
            opened && !(uni(stream_id) && access == Access::Send)
        }
    }

    /// Whether the peer may open a stream.
    pub open spec fn peer_may_open(self, stream_id: u64) -> bool {
        stream_id / 4 < self.peer.max.of(uni(stream_id))
    }

    /// How many bytes we take on a new stream.
    pub open spec fn receive_credit(self, stream_id: u64, is_client: bool) -> u64 {
        if uni(stream_id) {
            if ours(stream_id, is_client) {
                0
            } else {
                self.initial.uni
            }
        } else if ours(stream_id, is_client) {
            self.initial.bidi_local
        } else {
            self.initial.bidi_remote
        }
    }

    pub open spec fn streams_dirty(self, is_uni: bool) -> bool {
        if is_uni {
            self.uni_dirty
        } else {
            self.bidi_dirty
        }
    }

    pub open spec fn with_streams_dirty(self, is_uni: bool, dirty: bool) -> Limits {
        if is_uni {
            Limits { uni_dirty: dirty, ..self }
        } else {
            Limits { bidi_dirty: dirty, ..self }
        }
    }

    /// Whether the peer is to be told of a limit.
    pub open spec fn any_dirty(self) -> bool {
        self.data_dirty || self.bidi_dirty || self.uni_dirty
    }

    /// After bytes were read: as many more are taken, and the peer is told. A
    /// frame that waits is changed; otherwise one is owed.
    pub open spec fn data_released(self, count: u64, control: PendingModel) -> (
        Limits,
        PendingModel,
    ) {
        let limit = bounded_sum(self.local_max_data, count);
        let raised = Limits { local_max_data: limit, ..self };
        if control.has(Subject::Data) {
            (Limits { data_dirty: false, ..raised }, control.queued(Control::MaxData { limit }))
        } else {
            (Limits { data_dirty: true, ..raised }, control)
        }
    }

    /// After a stream of the peer was closed: once half as many were closed as
    /// were allowed at first, as many more are allowed.
    pub open spec fn stream_released(self, is_uni: bool, control: PendingModel) -> (
        Limits,
        PendingModel,
    ) {
        let closed = bounded_sum(self.peer.closed.of(is_uni), 1);
        let half = self.peer.initial_max.of(is_uni) / 2;
        let threshold = if half > 1 {
            half
        } else {
            1
        };
        if closed < threshold {
            (
                Limits {
                    peer: PeerInitiated {
                        closed: self.peer.closed.with(is_uni, closed),
                        ..self.peer
                    },
                    ..self
                },
                control,
            )
        } else {
            let sum = bounded_sum(self.peer.max.of(is_uni), closed);
            let max = if sum < MAX_STREAM_COUNT {
                sum
            } else {
                MAX_STREAM_COUNT
            };
            let reset = Limits {
                peer: PeerInitiated { closed: self.peer.closed.with(is_uni, 0), ..self.peer },
                ..self
            };
            if max > self.peer.max.of(is_uni) {
                let raised = Limits {
                    peer: PeerInitiated { max: self.peer.max.with(is_uni, max), ..reset.peer },
                    ..reset
                };
                if control.has(Subject::Streams { is_uni }) {
                    (
                        raised.with_streams_dirty(is_uni, false),
                        control.queued(Control::MaxStreams { is_uni, max }),
                    )
                } else {
                    (raised.with_streams_dirty(is_uni, true), control)
                }
            } else {
                (reset, control)
            }
        }
    }

    /// After one of our streams came to an end.
    pub open spec fn local_released(self, is_uni: bool) -> Limits {
        let active = self.local.active.of(is_uni);
        Limits {
            local: LocalInitiated {
                active: self.local.active.with(
                    is_uni,
                    if active > 0 {
                        (active - 1) as u64
                    } else {
                        0
                    },
                ),
                ..self.local
            },
            ..self
        }
    }

    /// Whether we may open a stream, and which, or why not.
    pub open spec fn next_local(self, is_uni: bool, available: bool) -> Result<u64, StreamError> {
        if !available {
            Err(StreamError::NotEstablished)
        } else if self.local.opened.of(is_uni) >= self.local.peer_max.of(is_uni) {
            Err(StreamError::PeerLimit)
        } else if self.local.active.of(is_uni) >= self.local.capacity.of(is_uni) {
            Err(StreamError::Capacity)
        } else if self.local.next.of(is_uni) > u64::MAX - 4 {
            Err(StreamError::IdOverflow)
        } else {
            Ok(self.local.next.of(is_uni))
        }
    }

    /// After we opened a stream.
    pub open spec fn local_opened(self, is_uni: bool) -> Limits {
        let local = self.local;
        Limits {
            local: LocalInitiated {
                next: local.next.with(is_uni, (local.next.of(is_uni) + 4) as u64),
                opened: local.opened.with(is_uni, bounded_sum(local.opened.of(is_uni), 1)),
                active: local.active.with(is_uni, (local.active.of(is_uni) + 1) as u64),
                ..local
            },
            ..self
        }
    }

    /// Checks that a stream is there and can be used in a way.
    pub fn validate_access(
        &self,
        opened: bool,
        stream_id: u64,
        access: Access,
        is_client: bool,
    ) -> (result: Result<(), Error>)
        ensures
            result == (if self.accessible(opened, stream_id, access, is_client) {
                Ok::<(), Error>(())
            } else {
                Err(Error::ProtocolViolation)
            }),
    {
        let one_way = is_uni(stream_id);
        if we_initiated(stream_id, is_client) {
            if stream_id >= self.local.next.get(one_way) || (one_way && access
                == Access::Receive) {
                return Err(Error::ProtocolViolation);
            }
        } else if !opened || (one_way && access == Access::Send) {
            return Err(Error::ProtocolViolation);
        }
        Ok(())
    }

    /// Checks that an operation on a stream is possible.
    pub fn validate_operation(
        &self,
        opened: bool,
        stream_id: u64,
        access: Access,
        is_client: bool,
        available: bool,
    ) -> (result: Result<(), StreamError>)
        ensures
            result == (if stream_id > MAX_VARINT {
                Err(StreamError::IdOverflow)
            } else if !available {
                Err(StreamError::NotEstablished)
            } else if !self.accessible(opened, stream_id, access, is_client) {
                Err(StreamError::InvalidStream)
            } else {
                Ok::<(), StreamError>(())
            }),
    {
        if stream_id > MAX_VARINT {
            return Err(StreamError::IdOverflow);
        }
        if !available {
            return Err(StreamError::NotEstablished);
        }
        match self.validate_access(opened, stream_id, access, is_client) {
            Ok(()) => Ok(()),
            Err(error) => Err(StreamError::InvalidStream),
        }
    }

    /// Whether the peer may open a stream.
    pub fn peer_opens(&self, stream_id: u64) -> (result: bool)
        ensures
            result == self.peer_may_open(stream_id),
    {
        stream_id / 4 < self.peer.max.get(is_uni(stream_id))
    }

    /// How many bytes we take on a new stream.
    pub fn initial_receive_credit(&self, stream_id: u64, is_client: bool) -> (credit: u64)
        ensures
            credit == self.receive_credit(stream_id, is_client),
    {
        if is_uni(stream_id) {
            if we_initiated(stream_id, is_client) {
                0
            } else {
                self.initial.uni
            }
        } else if we_initiated(stream_id, is_client) {
            self.initial.bidi_local
        } else {
            self.initial.bidi_remote
        }
    }

    /// Notes whether the peer is to be told that it may open more streams.
    pub fn set_streams_dirty(&mut self, one_way: bool, dirty: bool)
        ensures
            *final(self) == old(self).with_streams_dirty(one_way, dirty),
    {
        if one_way {
            self.uni_dirty = dirty;
        } else {
            self.bidi_dirty = dirty;
        }
    }

    /// Takes as many more bytes as were read.
    pub fn release_connection_receive_credit(&mut self, count: u64, control: &mut Pending)
        ensures
            (*final(self), final(control)@) == old(self).data_released(count, old(control)@),
    {
        self.local_max_data = self.local_max_data.saturating_add(count);
        if control.has(Subject::Data) {
            control.queue(Control::MaxData { limit: self.local_max_data });
            self.data_dirty = false;
        } else {
            self.data_dirty = true;
        }
    }

    /// Allows the peer more streams, once enough were closed.
    pub fn release_peer_receive_credit(&mut self, one_way: bool, control: &mut Pending)
        ensures
            (*final(self), final(control)@) == old(self).stream_released(one_way, old(control)@),
    {
        let closed: u64 = self.peer.closed.get(one_way).saturating_add(1);
        let half: u64 = self.peer.initial_max.get(one_way) / 2;
        let threshold: u64 = if half > 1 {
            half
        } else {
            1
        };
        if closed < threshold {
            self.peer.closed.set(one_way, closed);
            return;
        }
        let sum: u64 = self.peer.max.get(one_way).saturating_add(closed);
        let next: u64 = if sum < MAX_STREAM_COUNT {
            sum
        } else {
            MAX_STREAM_COUNT
        };
        self.peer.closed.set(one_way, 0);
        if next > self.peer.max.get(one_way) {
            self.peer.max.set(one_way, next);
            if control.has(Subject::Streams { is_uni: one_way }) {
                control.queue(Control::MaxStreams { is_uni: one_way, max: next });
                self.set_streams_dirty(one_way, false);
            } else {
                self.set_streams_dirty(one_way, true);
            }
        }
    }

    /// Gives the place of one of our streams free.
    pub fn release_local_capacity(&mut self, one_way: bool)
        ensures
            *final(self) == old(self).local_released(one_way),
    {
        let active: u64 = self.local.active.get(one_way);
        self.local.active.set(one_way, active.saturating_sub(1));
    }

    /// Opens one of our streams.
    pub fn open_local(&mut self, one_way: bool, available: bool) -> (result: Result<
        u64,
        StreamError,
    >)
        ensures
            result == old(self).next_local(one_way, available),
            *final(self) == if result is Ok {
                old(self).local_opened(one_way)
            } else {
                *old(self)
            },
    {
        if !available {
            return Err(StreamError::NotEstablished);
        }
        if self.local.opened.get(one_way) >= self.local.peer_max.get(one_way) {
            return Err(StreamError::PeerLimit);
        }
        let active: u64 = self.local.active.get(one_way);
        if active >= self.local.capacity.get(one_way) {
            return Err(StreamError::Capacity);
        }
        let stream_id: u64 = self.local.next.get(one_way);
        if stream_id > u64::MAX - 4 {
            return Err(StreamError::IdOverflow);
        }
        let opened: u64 = self.local.opened.get(one_way);
        self.local.next.set(one_way, stream_id + 4);
        self.local.opened.set(one_way, opened.saturating_add(1));
        self.local.active.set(one_way, active + 1);
        Ok(stream_id)
    }
}

/// Checks bytes up to an offset against the limits of a stream and of the
/// connection. Tells how many bytes then have arrived on all streams.
pub fn check_stream(
    limit: u64,
    highest: u64,
    final_size: Option<u64>,
    total: u64,
    local_max_data: u64,
    end: u64,
    fin: bool,
) -> (result: Result<u64, Error>)
    ensures
        result == stream_verdict(
            limit,
            highest,
            final_size,
            total,
            local_max_data,
            end as int,
            fin,
        ),
{
    if end > limit {
        return Err(Error::FlowControl);
    }
    let exceeds = match final_size {
        Some(size) => end > size || (fin && end != size),
        None => false,
    };
    if exceeds || (fin && end < highest) {
        return Err(Error::FinalSize);
    }
    match total.checked_add(end.saturating_sub(highest)) {
        Some(projected) => if projected <= local_max_data {
            Ok(projected)
        } else {
            Err(Error::FlowControl)
        },
        None => Err(Error::FlowControl),
    }
}

/// Checks a final size against the limits of a stream and of the connection.
pub fn check_reset(
    limit: u64,
    highest: u64,
    known: Option<u64>,
    total: u64,
    local_max_data: u64,
    final_size: u64,
) -> (result: Result<u64, Error>)
    ensures
        result == reset_verdict(limit, highest, known, total, local_max_data, final_size),
{
    if final_size > limit {
        return Err(Error::FlowControl);
    }
    let differs = match known {
        Some(size) => size != final_size,
        None => false,
    };
    if final_size < highest || differs {
        return Err(Error::FinalSize);
    }
    match total.checked_add(final_size - highest) {
        Some(projected) => if projected <= local_max_data {
            Ok(projected)
        } else {
            Err(Error::FlowControl)
        },
        None => Err(Error::FlowControl),
    }
}

/// The peer is never allowed fewer streams than before, and never more than a
/// stream number can count.
pub proof fn law_stream_limit_grows(limits: Limits, is_uni: bool, control: PendingModel)
    requires
        limits.peer.max.of(is_uni) <= MAX_STREAM_COUNT,
    ensures
        limits.peer.max.of(is_uni) <= limits.stream_released(is_uni, control).0.peer.max.of(is_uni)
            <= MAX_STREAM_COUNT,
        limits.stream_released(is_uni, control).0.peer.max.of(!is_uni) == limits.peer.max.of(
            !is_uni,
        ),
{
}

/// What was accepted is within the limits of the stream and of the connection.
pub proof fn law_flow_control(
    limit: u64,
    highest: u64,
    final_size: Option<u64>,
    total: u64,
    local_max_data: u64,
    end: int,
    fin: bool,
)
    ensures
        stream_verdict(limit, highest, final_size, total, local_max_data, end, fin) matches Ok(
            projected,
        ) ==> {
            &&& end <= limit
            &&& total <= projected <= local_max_data
            &&& final_size matches Some(size) ==> end <= size
        },
{
}

/// Bytes up to an offset count once: where they are accepted, the connection's total grows by
/// exactly as many as lie beyond those that arrived before, and they are refused for the
/// connection's sake only where that sum is over its limit.
pub proof fn law_arrival_counted(
    limit: u64,
    highest: u64,
    final_size: Option<u64>,
    total: u64,
    local_max_data: u64,
    end: int,
    fin: bool,
)
    ensures
        ({
            let reach = if end > highest {
                end
            } else {
                highest as int
            };
            match stream_verdict(limit, highest, final_size, total, local_max_data, end, fin) {
                Ok(projected) => {
                    &&& projected - total == reach - highest
                    &&& projected <= local_max_data
                    &&& end <= limit
                    &&& fin ==> end == reach
                    &&& final_size matches Some(size) ==> end <= size && (fin ==> end == size)
                },
                Err(Error::FlowControl) => end > limit || total + reach - highest
                    > local_max_data,
                Err(Error::FinalSize) => (fin && end < highest) || (final_size matches Some(size)
                    && (end > size || fin && end < size)),
                Err(_) => false,
            }
        }),
{
}

/// Bytes that arrive in two steps count as much as those that arrive at once, and are
/// accepted where those are.
pub proof fn law_arrivals_add_up(
    limit: u64,
    highest: u64,
    final_size: Option<u64>,
    total: u64,
    local_max_data: u64,
    first: u64,
    end: u64,
    fin: bool,
)
    requires
        first <= end,
    ensures
        ({
            let once = stream_verdict(
                limit,
                highest,
                final_size,
                total,
                local_max_data,
                end as int,
                fin,
            );
            let part = stream_verdict(
                limit,
                highest,
                final_size,
                total,
                local_max_data,
                first as int,
                false,
            );
            let reach = if first > highest {
                first
            } else {
                highest
            };
            &&& once is Ok ==> part is Ok
            &&& part matches Ok(projected) ==> once == stream_verdict(
                limit,
                reach,
                final_size,
                projected,
                local_max_data,
                end as int,
                fin,
            )
        }),
{
}

/// Bytes that arrived before cost nothing when they arrive again.
pub proof fn law_repetition_is_free(
    limit: u64,
    highest: u64,
    final_size: Option<u64>,
    total: u64,
    local_max_data: u64,
    end: int,
)
    requires
        highest <= limit,
        final_size matches Some(size) ==> highest <= size,
        total <= local_max_data,
        end <= highest,
    ensures
        stream_verdict(limit, highest, final_size, total, local_max_data, end, false) == Ok::<
            u64,
            Error,
        >(total),
{
}

/// A reset that tells a size counts as much as the end of a stream of that size.
pub proof fn law_reset_counts_as_end(
    limit: u64,
    highest: u64,
    known: Option<u64>,
    total: u64,
    local_max_data: u64,
    final_size: u64,
)
    ensures
        reset_verdict(limit, highest, known, total, local_max_data, final_size) == stream_verdict(
            limit,
            highest,
            known,
            total,
            local_max_data,
            final_size as int,
            true,
        ),
{
}

/// Streams are numbered by fours: first those that a client opens and that go both ways, then
/// those of a server, then those of a client that go one way, then those of a server.
pub proof fn law_stream_numbers(n: u64)
    requires
        n < 0x1000_0000_0000_0000,
    ensures
        ({
            let client_bidi = (4 * n) as u64;
            let server_bidi = (4 * n + 1) as u64;
            let client_uni = (4 * n + 2) as u64;
            let server_uni = (4 * n + 3) as u64;
            &&& !uni(client_bidi) && ours(client_bidi, true) && !ours(client_bidi, false)
            &&& !uni(server_bidi) && ours(server_bidi, false) && !ours(server_bidi, true)
            &&& uni(client_uni) && ours(client_uni, true) && !ours(client_uni, false)
            &&& uni(server_uni) && ours(server_uni, false) && !ours(server_uni, true)
        }),
{
}

/// As many streams of a kind may be opened as are allowed: those with the lowest numbers.
pub proof fn law_streams_allowed(limits: Limits, n: u64)
    requires
        n < 0x1000_0000_0000_0000,
    ensures
        limits.peer_may_open((4 * n) as u64) == (n < limits.peer.max.bidi),
        limits.peer_may_open((4 * n + 1) as u64) == (n < limits.peer.max.bidi),
        limits.peer_may_open((4 * n + 2) as u64) == (n < limits.peer.max.uni),
        limits.peer_may_open((4 * n + 3) as u64) == (n < limits.peer.max.uni),
{
}

/// Both ends agree on how many bytes may be sent on a new stream: what one takes is what the
/// other reads out of the parameters that it was told.
pub proof fn law_ends_agree_on_credit(limits: Limits, is_client: bool, stream_id: u64)
    ensures
        ({
            let told = Params {
                initial_max_stream_data_bidi_local: limits.initial.bidi_local,
                initial_max_stream_data_bidi_remote: limits.initial.bidi_remote,
                initial_max_stream_data_uni: limits.initial.uni,
            };
            peer_credit(Some(told), !is_client, stream_id) == limits.receive_credit(
                stream_id,
                is_client,
            )
        }),
        peer_credit(None, is_client, stream_id) == 0,
        !uni(stream_id) && ours(stream_id, is_client) ==> limits.receive_credit(
            stream_id,
            is_client,
        ) == limits.initial.bidi_local,
        !uni(stream_id) && !ours(stream_id, is_client) ==> limits.receive_credit(
            stream_id,
            is_client,
        ) == limits.initial.bidi_remote,
        uni(stream_id) && ours(stream_id, is_client) ==> limits.receive_credit(
            stream_id,
            is_client,
        ) == 0,
{
}

/// A stream that goes one way is written by the end that opened it and read by the other; one
/// that goes both ways is written and read by both. Ours are there once we opened them.
pub proof fn law_who_may_use(
    limits: Limits,
    opened: bool,
    stream_id: u64,
    is_client: bool,
)
    ensures
        ({
            let is_ours = ours(stream_id, is_client);
            let there = if is_ours {
                stream_id < limits.local.next.of(uni(stream_id))
            } else {
                opened
            };
            let sends = limits.accessible(opened, stream_id, Access::Send, is_client);
            let receives = limits.accessible(opened, stream_id, Access::Receive, is_client);
            &&& !there ==> !sends && !receives
            &&& there && !uni(stream_id) ==> sends && receives
            &&& there && uni(stream_id) ==> sends == is_ours && receives == !is_ours
        }),
{
}

/// We open a stream exactly where the peer allows one more and there is room for it. It is
/// the one that comes next of its kind, and is there from then on.
pub proof fn law_stream_opened(
    limits: Limits,
    one_way: bool,
    available: bool,
    is_client: bool,
    opened: bool,
)
    requires
        uni(limits.local.next.of(one_way)) == one_way,
        ours(limits.local.next.of(one_way), is_client),
        limits.local.next.of(one_way) <= u64::MAX - 4,
    ensures
        (limits.next_local(one_way, available) is Ok) == (available && limits.local.opened.of(
            one_way,
        ) < limits.local.peer_max.of(one_way) && limits.local.active.of(one_way)
            < limits.local.capacity.of(one_way)),
        limits.next_local(one_way, available) matches Ok(stream_id) ==> {
            let after = limits.local_opened(one_way);
            &&& uni(stream_id) == one_way && ours(stream_id, is_client)
            &&& !limits.accessible(opened, stream_id, Access::Send, is_client)
            &&& after.accessible(opened, stream_id, Access::Send, is_client)
            &&& after.local.next.of(one_way) == stream_id + 4
            &&& uni(after.local.next.of(one_way)) == one_way
            &&& ours(after.local.next.of(one_way), is_client)
            &&& after.local.opened.of(one_way) == limits.local.opened.of(one_way) + 1
            &&& after.local.active.of(one_way) == limits.local.active.of(one_way) + 1
            &&& after.local.next.of(!one_way) == limits.local.next.of(!one_way)
            &&& after.local.opened.of(!one_way) == limits.local.opened.of(!one_way)
            &&& after.local.active.of(!one_way) == limits.local.active.of(!one_way)
            &&& after.local.peer_max == limits.local.peer_max
            &&& after.local.capacity == limits.local.capacity
            &&& after.local_released(one_way).local.active == limits.local.active
            &&& after.local_released(one_way).local.opened == after.local.opened
        },
{
}

/// Bytes that were read are allowed again, no more and no fewer, and the peer is told: by the
/// frame that waits, or by one that is owed.
pub proof fn law_read_bytes_allowed_again(
    limits: Limits,
    first: u64,
    second: u64,
    control: PendingModel,
)
    requires
        limits.local_max_data + first + second <= u64::MAX,
    ensures
        ({
            let (once, told) = limits.data_released(first, control);
            &&& once.local_max_data == limits.local_max_data + first
            &&& once.total == limits.total
            &&& once.peer == limits.peer && once.local == limits.local
            &&& if control.has(Subject::Data) {
                !once.data_dirty && told == control.queued(
                    Control::MaxData { limit: once.local_max_data },
                )
            } else {
                once.data_dirty && told == control
            }
            &&& once.data_released(second, told).0.local_max_data == limits.data_released(
                (first + second) as u64,
                control,
            ).0.local_max_data
        }),
{
}

/// Each stream that was closed allows one more in the end: those that are allowed and those
/// that were closed since grow by one together. They are allowed once half as many were
/// closed as were allowed at first, and then the peer is told.
pub proof fn law_closed_streams_allowed_again(limits: Limits, is_uni: bool, control: PendingModel)
    requires
        limits.peer.max.of(is_uni) + limits.peer.closed.of(is_uni) + 1 <= 0x1000_0000_0000_0000,
    ensures
        ({
            let (after, told) = limits.stream_released(is_uni, control);
            let half = limits.peer.initial_max.of(is_uni) as int / 2;
            let due = limits.peer.closed.of(is_uni) + 1 >= half;
            &&& after.peer.max.of(is_uni) + after.peer.closed.of(is_uni) == limits.peer.max.of(
                is_uni,
            ) + limits.peer.closed.of(is_uni) + 1
            &&& due ==> after.peer.closed.of(is_uni) == 0
            &&& !due ==> after.peer.max.of(is_uni) == limits.peer.max.of(is_uni) && told
                == control
            &&& due && control.has(Subject::Streams { is_uni }) ==> told == control.queued(
                Control::MaxStreams { is_uni, max: after.peer.max.of(is_uni) },
            )
            &&& due && !control.has(Subject::Streams { is_uni }) ==> after.streams_dirty(is_uni)
                && told == control
            &&& after.peer.closed.of(!is_uni) == limits.peer.closed.of(!is_uni)
            &&& after.peer.initial_max == limits.peer.initial_max
            &&& after.streams_dirty(!is_uni) == limits.streams_dirty(!is_uni)
            &&& after.local_max_data == limits.local_max_data && after.data_dirty
                == limits.data_dirty
        }),
{
}

} // verus!
