//! Control records that wait to be sent.
use vstd::prelude::*;

use crate::frame::model::FrameModel;
use crate::frame::Frame;
use crate::varint::{VarInt, MAX_VARINT};

verus! {

/// What a control frame is to say.
#[derive(Clone, Copy, Debug, PartialEq, Eq)]
pub enum Control {
    HandshakeDone,
    MaxData { limit: u64 },
    MaxStreams { is_uni: bool, max: u64 },
    MaxStreamData { stream_id: u64, limit: u64 },
    StopSending { stream_id: u64, error_code: u64 },
    ResetStream { stream_id: u64, error_code: u64, final_size: u64 },
    DataBlocked { limit: u64 },
    StreamDataBlocked { stream_id: u64, limit: u64 },
    RetireConnectionId { sequence_number: u64 },
    /// Tells one of our connection IDs; the path holds it.
    NewConnectionId { sequence_number: u64 },
    PathChallenge { data: [u8; 8] },
    PathResponse { data: [u8; 8] },
}

/// What a record is about: a later one about the same takes its place.
#[derive(Clone, Copy, Debug, PartialEq, Eq, Structural)]
pub enum Subject {
    HandshakeDone,
    Data,
    Streams { is_uni: bool },
    StreamData { stream_id: u64 },
    Stop { stream_id: u64 },
    Reset { stream_id: u64 },
    DataBlocked,
    StreamDataBlocked { stream_id: u64 },
    Retire { sequence_number: u64 },
    NewCid { sequence_number: u64 },
    PathChallenge,
    PathResponse,
}

/// What a record is about.
pub open spec fn about(control: Control) -> Subject {
    match control {
        Control::HandshakeDone => Subject::HandshakeDone,
        Control::MaxData { .. } => Subject::Data,
        Control::MaxStreams { is_uni, .. } => Subject::Streams { is_uni },
        Control::MaxStreamData { stream_id, .. } => Subject::StreamData { stream_id },
        Control::StopSending { stream_id, .. } => Subject::Stop { stream_id },
        Control::ResetStream { stream_id, .. } => Subject::Reset { stream_id },
        Control::DataBlocked { .. } => Subject::DataBlocked,
        Control::StreamDataBlocked { stream_id, .. } => Subject::StreamDataBlocked { stream_id },
        Control::RetireConnectionId { sequence_number } => Subject::Retire { sequence_number },
        Control::NewConnectionId { sequence_number } => Subject::NewCid { sequence_number },
        Control::PathChallenge { .. } => Subject::PathChallenge,
        Control::PathResponse { .. } => Subject::PathResponse,
    }
}

/// The frame of a record, unless one of its numbers has no wire form, or the
/// frame is not made of numbers alone.
pub open spec fn frame_of(control: Control) -> Option<FrameModel> {
    match control {
        Control::HandshakeDone => Some(Frame::HandshakeDone),
        Control::MaxData { limit } => if limit <= MAX_VARINT {
            Some(Frame::MaxData { maximum_data: VarInt::of(limit) })
        } else {
            None
        },
        Control::MaxStreams { is_uni, max } => if max <= MAX_VARINT {
            Some(Frame::MaxStreams { is_uni, max_streams: VarInt::of(max) })
        } else {
            None
        },
        Control::MaxStreamData { stream_id, limit } => if stream_id <= MAX_VARINT && limit
            <= MAX_VARINT {
            Some(
                Frame::MaxStreamData {
                    stream_id: VarInt::of(stream_id),
                    maximum_stream_data: VarInt::of(limit),
                },
            )
        } else {
            None
        },
        Control::StopSending { stream_id, error_code } => if stream_id <= MAX_VARINT && error_code
            <= MAX_VARINT {
            Some(
                Frame::StopSending {
                    stream_id: VarInt::of(stream_id),
                    error_code: VarInt::of(error_code),
                },
            )
        } else {
            None
        },
        Control::ResetStream { stream_id, error_code, final_size } => if stream_id <= MAX_VARINT
            && error_code <= MAX_VARINT && final_size <= MAX_VARINT {
            Some(
                Frame::ResetStream {
                    stream_id: VarInt::of(stream_id),
                    error_code: VarInt::of(error_code),
                    final_size: VarInt::of(final_size),
                },
            )
        } else {
            None
        },
        Control::DataBlocked { limit } => if limit <= MAX_VARINT {
            Some(Frame::DataBlocked { maximum_data: VarInt::of(limit) })
        } else {
            None
        },
        Control::StreamDataBlocked { stream_id, limit } => if stream_id <= MAX_VARINT && limit
            <= MAX_VARINT {
            Some(
                Frame::StreamDataBlocked {
                    stream_id: VarInt::of(stream_id),
                    maximum_stream_data: VarInt::of(limit),
                },
            )
        } else {
            None
        },
        Control::RetireConnectionId { sequence_number } => if sequence_number <= MAX_VARINT {
            Some(Frame::RetireConnectionId { sequence_number: VarInt::of(sequence_number) })
        } else {
            None
        },
        Control::NewConnectionId { .. } => None,
        Control::PathChallenge { data } => Some(Frame::PathChallenge { data }),
        Control::PathResponse { data } => Some(Frame::PathResponse { data }),
    }
}

impl Control {
    pub fn subject(&self) -> (subject: Subject)
        ensures
            subject == about(*self),
    {
        match *self {
            Control::HandshakeDone => Subject::HandshakeDone,
            Control::MaxData { limit } => Subject::Data,
            Control::MaxStreams { is_uni, max } => Subject::Streams { is_uni },
            Control::MaxStreamData { stream_id, limit } => Subject::StreamData { stream_id },
            Control::StopSending { stream_id, error_code } => Subject::Stop { stream_id },
            Control::ResetStream { stream_id, error_code, final_size } => Subject::Reset {
                stream_id,
            },
            Control::DataBlocked { limit } => Subject::DataBlocked,
            Control::StreamDataBlocked { stream_id, limit } => Subject::StreamDataBlocked {
                stream_id,
            },
            Control::RetireConnectionId { sequence_number } => Subject::Retire {
                sequence_number,
            },
            Control::NewConnectionId { sequence_number } => Subject::NewCid { sequence_number },
            Control::PathChallenge { data } => Subject::PathChallenge,
            Control::PathResponse { data } => Subject::PathResponse,
        }
    }

    /// The frame of a record, unless one of its numbers has no wire form.
    pub fn frame(&self) -> (frame: Option<Frame>)
        ensures
            match frame {
                Some(frame) => frame_of(*self) == Some(frame@),
                None => frame_of(*self) is None,
            },
    {
        broadcast use {crate::varint::lemma_of_view, crate::varint::lemma_view_of};

        match *self {
            Control::HandshakeDone => Some(Frame::HandshakeDone),
            Control::MaxData { limit } => match VarInt::new(limit) {
                Some(maximum_data) => Some(Frame::MaxData { maximum_data }),
                None => None,
            },
            Control::MaxStreams { is_uni, max } => match VarInt::new(max) {
                Some(max_streams) => Some(Frame::MaxStreams { is_uni, max_streams }),
                None => None,
            },
            Control::MaxStreamData { stream_id, limit } => match (
                VarInt::new(stream_id),
                VarInt::new(limit),
            ) {
                (Some(stream_id), Some(maximum_stream_data)) => Some(
                    Frame::MaxStreamData { stream_id, maximum_stream_data },
                ),
                _ => None,
            },
            Control::StopSending { stream_id, error_code } => match (
                VarInt::new(stream_id),
                VarInt::new(error_code),
            ) {
                (Some(stream_id), Some(error_code)) => Some(
                    Frame::StopSending { stream_id, error_code },
                ),
                _ => None,
            },
            Control::ResetStream { stream_id, error_code, final_size } => match (
                VarInt::new(stream_id),
                VarInt::new(error_code),
                VarInt::new(final_size),
            ) {
                (Some(stream_id), Some(error_code), Some(final_size)) => Some(
                    Frame::ResetStream { stream_id, error_code, final_size },
                ),
                _ => None,
            },
            Control::DataBlocked { limit } => match VarInt::new(limit) {
                Some(maximum_data) => Some(Frame::DataBlocked { maximum_data }),
                None => None,
            },
            Control::StreamDataBlocked { stream_id, limit } => match (
                VarInt::new(stream_id),
                VarInt::new(limit),
            ) {
                (Some(stream_id), Some(maximum_stream_data)) => Some(
                    Frame::StreamDataBlocked { stream_id, maximum_stream_data },
                ),
                _ => None,
            },
            Control::RetireConnectionId { sequence_number } => match VarInt::new(sequence_number) {
                Some(sequence_number) => Some(Frame::RetireConnectionId { sequence_number }),
                None => None,
            },
            Control::NewConnectionId { sequence_number } => None,
            Control::PathChallenge { data } => Some(Frame::PathChallenge { data }),
            Control::PathResponse { data } => Some(Frame::PathResponse { data }),
        }
    }
}

/// Where the first record about something is, or how many there are.
pub open spec fn place(records: Seq<Control>, subject: Subject) -> int
    decreases records.len(),
{
    if records.len() == 0 || about(records[0]) == subject {
        0
    } else {
        1 + place(records.subrange(1, records.len() as int), subject)
    }
}

/// Whether a record about something waits.
pub open spec fn is_queued(records: Seq<Control>, subject: Subject) -> bool {
    place(records, subject) < records.len()
}

/// The records of a connection that wait to be sent.
pub struct Pending {
    records: Vec<Control>,
    capacity: usize,
    overflowed: bool,
}

/// The state of the records that wait.
#[verifier::ext_equal]
pub struct PendingModel {
    pub records: Seq<Control>,
    pub capacity: int,
    /// Whether a record was lost for want of room.
    pub overflowed: bool,
}

impl PendingModel {
    pub open spec fn has(self, subject: Subject) -> bool {
        is_queued(self.records, subject)
    }

    pub open spec fn has_room(self) -> bool {
        self.records.len() < self.capacity
    }

    /// The state after a record was queued: it takes the place of one about the
    /// same, or comes last.
    pub open spec fn queued(self, record: Control) -> PendingModel {
        let at = place(self.records, about(record));
        if at < self.records.len() {
            PendingModel { records: self.records.update(at, record), ..self }
        } else if self.has_room() {
            PendingModel { records: self.records.push(record), ..self }
        } else {
            PendingModel { overflowed: true, ..self }
        }
    }

    /// The state without a record about something.
    pub open spec fn without(self, subject: Subject) -> PendingModel {
        if self.has(subject) {
            PendingModel { records: self.records.remove(place(self.records, subject)), ..self }
        } else {
            self
        }
    }
}

impl View for Pending {
    type V = PendingModel;

    closed spec fn view(&self) -> PendingModel {
        PendingModel {
            records: self.records@,
            capacity: self.capacity as int,
            overflowed: self.overflowed,
        }
    }
}

proof fn lemma_place(records: Seq<Control>, subject: Subject, at: int)
    requires
        0 <= at <= records.len(),
        forall|i: int| 0 <= i < at ==> about(#[trigger] records[i]) != subject,
        at < records.len() ==> about(records[at]) == subject,
    ensures
        place(records, subject) == at,
    decreases records.len(),
{
    if at > 0 {
        let rest = records.subrange(1, records.len() as int);
        assert(about(records[0]) != subject);
        assert forall|i: int| 0 <= i < at - 1 implies about(#[trigger] rest[i]) != subject by {
            assert(rest[i] == records[i + 1]);
        }
        lemma_place(rest, subject, at - 1);
    }
}

impl Pending {
    pub fn new(capacity: usize) -> (pending: Pending)
        ensures
            pending@.records.len() == 0,
            pending@.capacity == capacity,
            !pending@.overflowed,
    {
        Pending { records: Vec::new(), capacity, overflowed: false }
    }

    fn find(&self, subject: Subject) -> (at: usize)
        ensures
            at == place(self@.records, subject),
            at <= self@.records.len(),
    {
        let mut at: usize = 0;
        while at < self.records.len() && self.records[at].subject() != subject
            invariant
                at <= self.records@.len(),
                forall|i: int| 0 <= i < at ==> about(#[trigger] self.records@[i]) != subject,
            decreases self.records@.len() - at,
        {
            at = at + 1;
        }
        proof {
            lemma_place(self.records@, subject, at as int);
        }
        at
    }

    /// Whether a record about something waits.
    pub fn has(&self, subject: Subject) -> (has: bool)
        ensures
            has == self@.has(subject),
    {
        self.find(subject) < self.records.len()
    }

    pub fn is_empty(&self) -> (empty: bool)
        ensures
            empty == (self@.records.len() == 0),
    {
        self.records.len() == 0
    }

    pub fn len(&self) -> (len: usize)
        ensures
            len == self@.records.len(),
    {
        self.records.len()
    }

    pub fn get(&self, at: usize) -> (record: Control)
        requires
            at < self@.records.len(),
        ensures
            record == self@.records[at as int],
    {
        self.records[at]
    }

    pub fn has_room(&self) -> (room: bool)
        ensures
            room == self@.has_room(),
    {
        self.records.len() < self.capacity
    }

    /// Tells once that a record was lost for want of room.
    pub fn take_overflowed(&mut self) -> (overflowed: bool)
        ensures
            overflowed == old(self)@.overflowed,
            final(self)@ == (PendingModel { overflowed: false, ..old(self)@ }),
    {
        let overflowed = self.overflowed;
        self.overflowed = false;
        overflowed
    }

    pub fn overflowed(&self) -> (overflowed: bool)
        ensures
            overflowed == self@.overflowed,
    {
        self.overflowed
    }

    /// Queues a record.
    pub fn queue(&mut self, record: Control)
        ensures
            final(self)@ == old(self)@.queued(record),
    {
        let at: usize = self.find(record.subject());
        if at < self.records.len() {
            self.records.set(at, record);
        } else if self.records.len() < self.capacity {
            self.records.push(record);
        } else {
            self.overflowed = true;
        }
    }

    /// Takes a record about something out.
    pub fn remove(&mut self, subject: Subject)
        ensures
            final(self)@ == old(self)@.without(subject),
    {
        let at: usize = self.find(subject);
        if at < self.records.len() {
            self.records.remove(at);
        }
    }
}

/// What is about something waits exactly where some record is about it.
pub proof fn law_has(pending: PendingModel, subject: Subject)
    ensures
        pending.has(subject) == (exists|i: int|
            0 <= i < pending.records.len() && about(#[trigger] pending.records[i]) == subject),
        0 <= place(pending.records, subject) <= pending.records.len(),
        forall|i: int|
            0 <= i < place(pending.records, subject) ==> about(#[trigger] pending.records[i])
                != subject,
        pending.has(subject) ==> about(pending.records[place(pending.records, subject)])
            == subject,
    decreases pending.records.len(),
{
    let records = pending.records;
    if records.len() > 0 && about(records[0]) != subject {
        let rest = PendingModel {
            records: records.subrange(1, records.len() as int),
            ..pending
        };
        law_has(rest, subject);
        assert forall|i: int| 0 <= i < place(records, subject) implies about(
            #[trigger] records[i],
        ) != subject by {
            if i > 0 {
                assert(rest.records[i - 1] == records[i]);
            }
        }
        if exists|i: int| 0 <= i < records.len() && about(#[trigger] records[i]) == subject {
            let i = choose|i: int| 0 <= i < records.len() && about(#[trigger] records[i])
                == subject;
            assert(rest.records[i - 1] == records[i]);
        }
        if pending.has(subject) {
            let at = place(records, subject);
            assert(rest.records[at - 1] == records[at]);
        }
    }
}

/// A record that is queued waits afterwards, in place of one about the same or behind all
/// others; the others stay as they are. It is lost only where none about the same waits and
/// there is no room, and that is noted.
pub proof fn law_latest_record_waits(pending: PendingModel, record: Control)
    ensures
        ({
            let after = pending.queued(record);
            let kept = pending.has(about(record)) || pending.records.len() < pending.capacity;
            &&& kept ==> after.records.contains(record) && after.has(about(record))
                && after.overflowed == pending.overflowed
            &&& !kept ==> after.records == pending.records && after.overflowed
            &&& after.capacity == pending.capacity
            &&& pending.has(about(record)) ==> after.records.len() == pending.records.len()
            &&& kept && !pending.has(about(record)) ==> after.records == pending.records.push(
                record,
            )
            &&& forall|i: int|
                0 <= i < pending.records.len() && about(pending.records[i]) != about(record)
                    ==> #[trigger] after.records[i] == pending.records[i]
            &&& pending.records.len() <= pending.capacity ==> after.records.len()
                <= after.capacity
        }),
{
    law_has(pending, about(record));
    law_has(pending.queued(record), about(record));
    let at = place(pending.records, about(record));
    let after = pending.queued(record);
    if at < after.records.len() {
        assert(after.records[at] == record);
    }
}

/// A record that is taken out is gone, and the others keep their order.
pub proof fn law_record_taken_out(pending: PendingModel, subject: Subject)
    requires
        forall|i: int, j: int|
            0 <= i < j < pending.records.len() ==> about(#[trigger] pending.records[i]) != about(
                #[trigger] pending.records[j],
            ),
    ensures
        ({
            let after = pending.without(subject);
            &&& !after.has(subject)
            &&& !pending.has(subject) ==> after == pending
            &&& pending.has(subject) ==> exists|at: int|
                0 <= at < pending.records.len() && about(#[trigger] pending.records[at])
                    == subject && after.records == pending.records.remove(at)
            &&& after.capacity == pending.capacity && after.overflowed == pending.overflowed
        }),
{
    law_has(pending, subject);
    let after = pending.without(subject);
    law_has(after, subject);
    let at = place(pending.records, subject);
    if pending.has(subject) {
        assert(about(pending.records[at]) == subject);
        assert forall|i: int| 0 <= i < after.records.len() implies about(
            #[trigger] after.records[i],
        ) != subject by {
            if i < at {
                assert(after.records[i] == pending.records[i]);
            } else {
                assert(after.records[i] == pending.records[i + 1]);
            }
        }
    }
}

/// The frame of a record says what the record says.
pub proof fn law_frame_says_record(control: Control)
    ensures
        frame_of(control) matches Some(frame) ==> match (control, frame) {
            (Control::HandshakeDone, Frame::HandshakeDone) => true,
            (Control::MaxData { limit }, Frame::MaxData { maximum_data }) => maximum_data@
                == limit,
            (
                Control::MaxStreams { is_uni: one_way, max },
                Frame::MaxStreams { is_uni, max_streams },
            ) => is_uni == one_way && max_streams@ == max,
            (
                Control::MaxStreamData { stream_id: id, limit },
                Frame::MaxStreamData { stream_id, maximum_stream_data },
            ) => stream_id@ == id && maximum_stream_data@ == limit,
            (
                Control::StopSending { stream_id: id, error_code: code },
                Frame::StopSending { stream_id, error_code },
            ) => stream_id@ == id && error_code@ == code,
            (
                Control::ResetStream { stream_id: id, error_code: code, final_size: size },
                Frame::ResetStream { stream_id, error_code, final_size },
            ) => stream_id@ == id && error_code@ == code && final_size@ == size,
            (Control::DataBlocked { limit }, Frame::DataBlocked { maximum_data }) => maximum_data@
                == limit,
            (
                Control::StreamDataBlocked { stream_id: id, limit },
                Frame::StreamDataBlocked { stream_id, maximum_stream_data },
            ) => stream_id@ == id && maximum_stream_data@ == limit,
            (
                Control::RetireConnectionId { sequence_number: number },
                Frame::RetireConnectionId { sequence_number },
            ) => sequence_number@ == number,
            (Control::PathChallenge { data: bytes }, Frame::PathChallenge { data }) => data
                == bytes,
            (Control::PathResponse { data: bytes }, Frame::PathResponse { data }) => data == bytes,
            _ => false,
        },
        frame_of(control) is None ==> match control {
            Control::MaxData { limit } => limit > 0x3fff_ffff_ffff_ffff,
            Control::MaxStreams { max, .. } => max > 0x3fff_ffff_ffff_ffff,
            Control::MaxStreamData { stream_id, limit } => stream_id > 0x3fff_ffff_ffff_ffff
                || limit > 0x3fff_ffff_ffff_ffff,
            Control::StopSending { stream_id, error_code } => stream_id > 0x3fff_ffff_ffff_ffff
                || error_code > 0x3fff_ffff_ffff_ffff,
            Control::ResetStream { stream_id, error_code, final_size } => stream_id
                > 0x3fff_ffff_ffff_ffff || error_code > 0x3fff_ffff_ffff_ffff || final_size
                > 0x3fff_ffff_ffff_ffff,
            Control::DataBlocked { limit } => limit > 0x3fff_ffff_ffff_ffff,
            Control::StreamDataBlocked { stream_id, limit } => stream_id > 0x3fff_ffff_ffff_ffff
                || limit > 0x3fff_ffff_ffff_ffff,
            Control::RetireConnectionId { sequence_number } => sequence_number
                > 0x3fff_ffff_ffff_ffff,
            Control::NewConnectionId { .. } => true,
            _ => false,
        },
{
    broadcast use {crate::varint::lemma_of_view, crate::varint::lemma_view_of};

}

/// Two records are about the same exactly where they are of one kind and about one stream,
/// kind of stream or number, if they name one.
pub proof fn law_same_subject(a: Control, b: Control)
    ensures
        (about(a) == about(b)) == match (a, b) {
            (Control::HandshakeDone, Control::HandshakeDone) => true,
            (Control::MaxData { .. }, Control::MaxData { .. }) => true,
            (
                Control::MaxStreams { is_uni: a, .. },
                Control::MaxStreams { is_uni: b, .. },
            ) => a == b,
            (
                Control::MaxStreamData { stream_id: a, .. },
                Control::MaxStreamData { stream_id: b, .. },
            ) => a == b,
            (
                Control::StopSending { stream_id: a, .. },
                Control::StopSending { stream_id: b, .. },
            ) => a == b,
            (
                Control::ResetStream { stream_id: a, .. },
                Control::ResetStream { stream_id: b, .. },
            ) => a == b,
            (Control::DataBlocked { .. }, Control::DataBlocked { .. }) => true,
            (
                Control::StreamDataBlocked { stream_id: a, .. },
                Control::StreamDataBlocked { stream_id: b, .. },
            ) => a == b,
            (
                Control::RetireConnectionId { sequence_number: a },
                Control::RetireConnectionId { sequence_number: b },
            ) => a == b,
            (
                Control::NewConnectionId { sequence_number: a },
                Control::NewConnectionId { sequence_number: b },
            ) => a == b,
            (Control::PathChallenge { .. }, Control::PathChallenge { .. }) => true,
            (Control::PathResponse { .. }, Control::PathResponse { .. }) => true,
            _ => false,
        },
{
}

} // verus!
