//! The sending side of a stream.
use vstd::prelude::*;

use crate::conn::stream_journal::model::GroupId;
use crate::varint::MAX_VARINT;

verus! {

/// What is kept of the bytes of a stream from the first that is not
/// acknowledged on, and how much of it was sent.
pub struct Sender {
    start: u64,
    bytes: Vec<u8>,
    next: u64,
    fin: bool,
    fin_sent: bool,
    fin_acked: bool,
    stopped: Option<u64>,
    reset_sent: bool,
    deferred_reset: Option<u64>,
    credit: u64,
    delivery_group: Option<GroupId>,
    stop_event_pending: bool,
}

/// The state of the sending side of a stream.
#[verifier::ext_equal]
pub struct SenderModel {
    /// The offset of the first byte that is kept.
    pub start: int,
    pub bytes: Seq<u8>,
    /// The offset of the first byte that was not sent.
    pub next: int,
    /// Whether the stream ends after these bytes.
    pub fin: bool,
    pub fin_sent: bool,
    pub fin_acked: bool,
    /// Why the peer asked to stop.
    pub stopped: Option<u64>,
    pub reset_sent: bool,
    /// Why the stream is reset, while the frame for it waits for room.
    pub deferred_reset: Option<u64>,
    /// Up to which offset the peer takes bytes.
    pub credit: u64,
    pub delivery_group: Option<GroupId>,
    pub stop_event_pending: bool,
}

impl SenderModel {
    pub open spec fn sound(self) -> bool {
        0 <= self.start <= self.next <= self.start + self.bytes.len() <= MAX_VARINT
    }

    pub open spec fn initial(credit: u64) -> SenderModel {
        SenderModel {
            start: 0,
            bytes: Seq::empty(),
            next: 0,
            fin: false,
            fin_sent: false,
            fin_acked: false,
            stopped: None,
            reset_sent: false,
            deferred_reset: None,
            credit,
            delivery_group: None,
            stop_event_pending: false,
        }
    }

    /// How many bytes were not sent.
    pub open spec fn unsent(self) -> int {
        self.start + self.bytes.len() - self.next
    }

    /// Whether the stream ends with so many more bytes.
    pub open spec fn would_fin(self, count: int) -> bool {
        self.fin && !self.fin_sent && count == self.unsent()
    }

    pub open spec fn has_pending(self) -> bool {
        self.unsent() > 0 || (self.fin && !self.fin_sent)
    }

    /// Whether nothing of the stream is sent any more.
    pub open spec fn blocked(self) -> bool {
        self.stopped is Some || self.reset_sent
    }

    /// Whether bytes are kept.
    pub open spec fn available(self, offset: int, len: int) -> bool {
        self.start <= offset && offset + len <= self.start + self.bytes.len()
    }

    /// The bytes at an offset.
    pub open spec fn range(self, offset: int, len: int) -> Seq<u8> {
        self.bytes.subrange(offset - self.start, offset - self.start + len)
    }

    /// Whether more bytes can be written.
    pub open spec fn can_write(self, count: int) -> bool {
        self.start + self.bytes.len() + count <= MAX_VARINT
    }

    /// The state after bytes were written.
    pub open spec fn written(self, data: Seq<u8>) -> SenderModel {
        SenderModel { bytes: self.bytes + data, ..self }
    }

    /// The state after bytes were sent.
    pub open spec fn advanced(self, len: int, fin: bool) -> SenderModel {
        SenderModel { next: self.next + len, fin_sent: self.fin_sent || fin, ..self }
    }

    /// Whether these are the bytes that are to be released next.
    pub open spec fn releases(self, offset: int, bytes: int, fin: bool) -> bool {
        &&& offset == self.start
        &&& self.start + bytes <= self.next
        &&& fin ==> self.fin_sent && self.start + bytes == self.start + self.bytes.len()
    }

    /// Whether the whole stream was acknowledged.
    pub open spec fn fully_acked(self) -> bool {
        self.fin_acked && self.bytes.len() == 0
    }

    /// The state after bytes were acknowledged.
    pub open spec fn released(self, bytes: int, fin: bool) -> SenderModel {
        SenderModel {
            start: self.start + bytes,
            bytes: self.bytes.subrange(bytes, self.bytes.len() as int),
            fin_acked: self.fin_acked || fin,
            ..self
        }
    }
}

impl View for Sender {
    type V = SenderModel;

    closed spec fn view(&self) -> SenderModel {
        SenderModel {
            start: self.start as int,
            bytes: self.bytes@,
            next: self.next as int,
            fin: self.fin,
            fin_sent: self.fin_sent,
            fin_acked: self.fin_acked,
            stopped: self.stopped,
            reset_sent: self.reset_sent,
            deferred_reset: self.deferred_reset,
            credit: self.credit,
            delivery_group: self.delivery_group,
            stop_event_pending: self.stop_event_pending,
        }
    }
}

impl Sender {
    /// A stream on which nothing was written.
    pub fn new(credit: u64) -> (sender: Sender)
        ensures
            sender@ == SenderModel::initial(credit),
            sender@.sound(),
    {
        Sender {
            start: 0,
            bytes: Vec::new(),
            next: 0,
            fin: false,
            fin_sent: false,
            fin_acked: false,
            stopped: None,
            reset_sent: false,
            deferred_reset: None,
            credit,
            delivery_group: None,
            stop_event_pending: false,
        }
    }

    /// The offset of the first byte that was not sent.
    pub fn next_offset(&self) -> (offset: u64)
        ensures
            offset == self@.next,
    {
        self.next
    }

    /// Up to which offset the peer takes bytes.
    pub fn credit(&self) -> (credit: u64)
        ensures
            credit == self@.credit,
    {
        self.credit
    }

    /// How many bytes were not sent.
    pub fn unsent_len(&self) -> (len: usize)
        requires
            self@.sound(),
        ensures
            len == self@.unsent(),
    {
        self.bytes.len() - (self.next - self.start) as usize
    }

    /// Whether the stream ends with so many more bytes.
    pub fn would_fin(&self, count: usize) -> (fin: bool)
        requires
            self@.sound(),
        ensures
            fin == self@.would_fin(count as int),
    {
        self.fin && !self.fin_sent && count == self.unsent_len()
    }

    /// Whether there is something to send.
    pub fn has_pending(&self) -> (pending: bool)
        requires
            self@.sound(),
        ensures
            pending == self@.has_pending(),
    {
        self.unsent_len() > 0 || (self.fin && !self.fin_sent)
    }

    /// Whether nothing of the stream is sent any more.
    pub fn blocked(&self) -> (blocked: bool)
        ensures
            blocked == self@.blocked(),
    {
        self.stopped.is_some() || self.reset_sent
    }

    pub fn reset_sent(&self) -> (sent: bool)
        ensures
            sent == self@.reset_sent,
    {
        self.reset_sent
    }

    pub fn stop_sending_error(&self) -> (error: Option<u64>)
        ensures
            error == self@.stopped,
    {
        self.stopped
    }

    pub fn stop_event_pending(&self) -> (pending: bool)
        ensures
            pending == self@.stop_event_pending,
    {
        self.stop_event_pending
    }

    pub fn set_stop_event_pending(&mut self, pending: bool)
        ensures
            final(self)@ == (SenderModel { stop_event_pending: pending, ..old(self)@ }),
    {
        self.stop_event_pending = pending;
    }

    pub fn deferred_reset(&self) -> (error: Option<u64>)
        ensures
            error == self@.deferred_reset,
    {
        self.deferred_reset
    }

    pub fn set_deferred_reset(&mut self, error: Option<u64>)
        ensures
            final(self)@ == (SenderModel { deferred_reset: error, ..old(self)@ }),
    {
        self.deferred_reset = error;
    }

    pub fn delivery_group(&self) -> (group: Option<GroupId>)
        ensures
            group == self@.delivery_group,
    {
        self.delivery_group
    }

    pub fn set_delivery_group(&mut self, group: Option<GroupId>)
        ensures
            final(self)@ == (SenderModel { delivery_group: group, ..old(self)@ }),
    {
        self.delivery_group = group;
    }

    /// Takes a higher limit.
    pub fn raise_credit(&mut self, maximum: u64)
        ensures
            final(self)@ == (SenderModel {
                credit: if maximum > old(self)@.credit {
                    maximum
                } else {
                    old(self)@.credit
                },
                ..old(self)@
            }),
    {
        if maximum > self.credit {
            self.credit = maximum;
        }
    }

    /// Writes bytes, unless offsets would not reach that far.
    pub fn write(&mut self, data: &[u8]) -> (written: bool)
        requires
            old(self)@.sound(),
        ensures
            written == old(self)@.can_write(data@.len() as int),
            final(self)@ == if written {
                old(self)@.written(data@)
            } else {
                old(self)@
            },
            final(self)@.sound(),
    {
        let end: u64 = self.start + self.bytes.len() as u64;
        if data.len() as u64 > MAX_VARINT - end {
            return false;
        }
        crate::frame::put_bytes(&mut self.bytes, data);
        true
    }

    /// Ends the stream after what was written.
    pub fn mark_fin(&mut self)
        ensures
            final(self)@ == (SenderModel { fin: true, ..old(self)@ }),
    {
        self.fin = true;
    }

    pub fn mark_reset_sent(&mut self)
        ensures
            final(self)@ == (SenderModel { reset_sent: true, ..old(self)@ }),
    {
        self.reset_sent = true;
    }

    /// Notes that the peer asked to stop.
    pub fn stop(&mut self, error_code: u64)
        ensures
            final(self)@ == (SenderModel { stopped: Some(error_code), ..old(self)@ }),
    {
        self.stopped = Some(error_code);
    }

    /// Notes that bytes were sent.
    pub fn advance_sent(&mut self, len: u64, fin: bool)
        requires
            old(self)@.sound(),
            len <= old(self)@.unsent(),
        ensures
            final(self)@ == old(self)@.advanced(len as int, fin),
            final(self)@.sound(),
    {
        self.next = self.next + len;
        if fin {
            self.fin_sent = true;
        }
    }

    /// Whether bytes are kept.
    pub fn range_available(&self, offset: u64, len: u64) -> (available: bool)
        requires
            self@.sound(),
        ensures
            available == self@.available(offset as int, len as int),
            available ==> len <= usize::MAX,
    {
        if offset < self.start {
            return false;
        }
        let skipped: u64 = offset - self.start;
        let kept: u64 = self.bytes.len() as u64;
        skipped <= kept && len <= kept - skipped
    }

    /// Appends bytes that are kept.
    pub fn append_range(&self, out: &mut Vec<u8>, offset: u64, len: usize)
        requires
            self@.sound(),
            self@.available(offset as int, len as int),
        ensures
            final(out)@ == old(out)@ + self@.range(offset as int, len as int),
    {
        let kept: usize = self.bytes.len();
        assert(offset - self.start + len <= kept);
        let from: usize = (offset - self.start) as usize;
        let piece = vstd::slice::slice_subrange(self.bytes.as_slice(), from, from + len);
        crate::frame::put_bytes(out, piece);
    }

    /// Releases the first bytes, if they are those that were acknowledged.
    pub fn acknowledge_prefix(&mut self, offset: u64, bytes: usize, fin: bool) -> (accepted: bool)
        requires
            old(self)@.sound(),
        ensures
            accepted == old(self)@.releases(offset as int, bytes as int, fin),
            final(self)@ == if accepted {
                old(self)@.released(bytes as int, fin)
            } else {
                old(self)@
            },
            final(self)@.sound(),
    {
        if offset != self.start || bytes as u64 > self.next - self.start {
            return false;
        }
        if fin && (!self.fin_sent || bytes != self.bytes.len()) {
            return false;
        }
        let rest = vstd::slice::slice_to_vec(
            vstd::slice::slice_subrange(self.bytes.as_slice(), bytes, self.bytes.len()),
        );
        self.bytes = rest;
        self.start = self.start + bytes as u64;
        if fin {
            self.fin_acked = true;
        }
        true
    }

    /// Whether the whole stream was acknowledged.
    pub fn is_fully_acked(&self) -> (acked: bool)
        requires
            self@.sound(),
        ensures
            acked == self@.fully_acked(),
    {
        self.fin_acked && self.bytes.len() == 0
    }
}

/// Writing adds to what is to be sent, sending takes from it, and neither touches what was
/// written before. What was written can be sent at its place until it is acknowledged.
pub proof fn law_sending_moves_on(
    sender: SenderModel,
    data: Seq<u8>,
    count: int,
    offset: int,
    len: int,
)
    requires
        sender.sound(),
        0 <= count <= sender.unsent(),
        sender.start <= offset,
        0 <= len,
    ensures
        ({
            let more = sender.written(data);
            let end = sender.start + sender.bytes.len();
            &&& more.unsent() == sender.unsent() + data.len()
            &&& more.next == sender.next && more.start == sender.start
            &&& more.range(end, data.len() as int) == data
            &&& offset + len <= end ==> more.range(offset, len) == sender.range(offset, len)
            &&& sender.available(offset, len) == (offset + len <= end)
            &&& sender.advanced(count, false).unsent() == sender.unsent() - count
            &&& sender.advanced(count, false).next == sender.next + count
            &&& sender.advanced(count, false).bytes == sender.bytes
            &&& sender.advanced(count, false).sound()
        }),
{
    let more = sender.written(data);
    let end = sender.start + sender.bytes.len();
    assert(more.range(end, data.len() as int) =~= data);
    if offset + len <= end {
        assert(more.range(offset, len) =~= sender.range(offset, len));
    }
}

/// The end of a stream is sent once, with its last bytes, and then nothing is left to send.
pub proof fn law_end_sent_once(sender: SenderModel, count: int)
    requires
        sender.sound(),
        0 <= count <= sender.unsent(),
    ensures
        ({
            let after = sender.advanced(count, sender.would_fin(count));
            let end = sender.start + sender.bytes.len();
            &&& sender.would_fin(count) ==> sender.fin && !sender.fin_sent && sender.next + count
                == end
            &&& sender.would_fin(count) ==> after.fin_sent && !after.has_pending()
                && !after.would_fin(0)
            &&& sender.fin && !sender.fin_sent && sender.next + count == end
                ==> sender.would_fin(count)
            &&& sender.fin_sent ==> after.fin_sent && !sender.would_fin(count)
            &&& sender.has_pending() == (sender.next < end || (sender.fin && !sender.fin_sent))
            &&& count == sender.unsent() ==> !after.has_pending()
        }),
{
}

/// Bytes are released in order, only once they were sent, and the end only with all of them.
pub proof fn law_released_in_order(
    sender: SenderModel,
    offset: int,
    bytes: int,
    fin: bool,
    at: int,
    len: int,
)
    requires
        sender.sound(),
        0 <= bytes,
        sender.releases(offset, bytes, fin),
        offset + bytes <= at,
        0 <= len,
        sender.available(at, len),
    ensures
        ({
            let after = sender.released(bytes, fin);
            &&& offset == sender.start
            &&& offset + bytes <= sender.next
            &&& after.start == sender.start + bytes
            &&& after.sound()
            &&& after.next == sender.next && after.unsent() == sender.unsent()
            &&& after.range(at, len) == sender.range(at, len)
            &&& fin ==> after.fully_acked() && sender.fin_sent
            &&& !fin && !sender.fin_acked ==> !after.fully_acked()
        }),
{
    let after = sender.released(bytes, fin);
    assert(after.range(at, len) =~= sender.range(at, len));
}

} // verus!
