//! The receiving side of a stream.
use vstd::prelude::*;

use crate::conn::streams::limits::stream_verdict;
use crate::range_buffer::{
    beyond, left_from, stretch, Arena, InsertError, InsertLimits, Plan, Store, StoreModel,
    MAX_RANGES,
};

verus! {

/// What arrived of a stream, and what the peer may still send.
pub struct Receiver {
    limit: u64,
    highest: u64,
    final_size: Option<u64>,
    store: Store,
    ready: Vec<u8>,
    /// Whether a higher limit is to be told.
    credit_dirty: bool,
    /// Why the peer is asked to stop, while the frame for it waits for room.
    deferred_stop: Option<u64>,
    /// Whether the application was told of something to read and has not looked.
    event_pending: bool,
}

/// The state of the receiving side of a stream.
#[verifier::ext_equal]
pub struct ReceiverModel {
    /// Up to which offset the peer may send.
    pub limit: u64,
    /// The end of what arrived.
    pub highest: u64,
    /// Where the stream ends, once it is known.
    pub final_size: Option<u64>,
    pub store: StoreModel,
    /// What can be read.
    pub ready: Seq<u8>,
    pub credit_dirty: bool,
    pub deferred_stop: Option<u64>,
    pub event_pending: bool,
}

impl ReceiverModel {
    pub open spec fn initial(limit: u64) -> ReceiverModel {
        ReceiverModel {
            limit,
            highest: 0,
            final_size: None,
            store: StoreModel { next: 0, held: Map::empty(), spans: Seq::empty() },
            ready: Seq::empty(),
            credit_dirty: false,
            deferred_stop: None,
            event_pending: false,
        }
    }

    /// Whether everything was read.
    pub open spec fn is_eof(self) -> bool {
        self.final_size matches Some(size) && size == self.store.next && self.ready.len() == 0
    }

    /// Whether a control frame is to be queued.
    pub open spec fn has_deferred_control(self) -> bool {
        self.credit_dirty || self.deferred_stop is Some
    }

    /// The state once it is known how far the stream goes at least.
    pub open spec fn observed(self, end: int, fin: bool) -> ReceiverModel {
        ReceiverModel {
            highest: if end > self.highest {
                end as u64
            } else {
                self.highest
            },
            final_size: if fin {
                Some(end as u64)
            } else {
                self.final_size
            },
            ..self
        }
    }

    /// Whether bytes were taken and led to another state.
    pub open spec fn took(
        self,
        offset: int,
        data: Seq<u8>,
        fin: bool,
        after: ReceiverModel,
    ) -> bool {
        let bytes = self.store.taken(offset, data);
        &&& StoreModel::delivers(bytes, self.store.next, after.store.next)
        &&& after.store.held == beyond(bytes, after.store.next)
        &&& left_from(
            self.store.spans,
            self.store.wanted(offset, data.len() as int),
            after.store.next,
            after.store.spans,
        )
        &&& after == (ReceiverModel {
            store: after.store,
            ready: self.ready + stretch(bytes, self.store.next, after.store.next),
            ..self.observed(offset + data.len(), fin)
        })
    }

    /// Why bytes are not taken, if they are not.
    pub open spec fn refusal(self, offset: int, len: int, remaining: int) -> Option<InsertError> {
        if offset + len <= u64::MAX && self.store.continues(offset, len) {
            None
        } else {
            self.store.refusal(
                offset,
                len,
                InsertLimits { max_bytes: usize::MAX, max_ranges: MAX_RANGES },
                remaining,
            )
        }
    }
}

impl View for Receiver {
    type V = ReceiverModel;

    closed spec fn view(&self) -> ReceiverModel {
        ReceiverModel {
            limit: self.limit,
            highest: self.highest,
            final_size: self.final_size,
            store: self.store@,
            ready: self.ready@,
            credit_dirty: self.credit_dirty,
            deferred_stop: self.deferred_stop,
            event_pending: self.event_pending,
        }
    }
}

impl Receiver {
    pub closed spec fn wf(&self) -> bool {
        self.store.wf() && !self.store@.held.dom().contains(self.store@.next)
    }

    /// A stream of which nothing arrived.
    pub fn new(limit: u64) -> (receiver: Receiver)
        ensures
            receiver.wf(),
            receiver@ == ReceiverModel::initial(limit),
    {
        let receiver = Receiver {
            limit,
            highest: 0,
            final_size: None,
            store: Store::default(),
            ready: Vec::new(),
            credit_dirty: false,
            deferred_stop: None,
            event_pending: false,
        };
        assert(receiver@.store.spans =~= Seq::empty());
        receiver
    }

    pub fn limit(&self) -> (limit: u64)
        ensures
            limit == self@.limit,
    {
        self.limit
    }

    pub fn highest_offset(&self) -> (highest: u64)
        ensures
            highest == self@.highest,
    {
        self.highest
    }

    pub fn final_size(&self) -> (size: Option<u64>)
        ensures
            size == self@.final_size,
    {
        self.final_size
    }

    pub fn is_eof(&self) -> (eof: bool)
        ensures
            eof == self@.is_eof(),
    {
        match self.final_size {
            Some(size) => size == self.store.next() && self.ready.len() == 0,
            None => false,
        }
    }

    pub fn range_count(&self) -> (count: usize)
        ensures
            count == self@.store.spans.len(),
    {
        self.store.range_count()
    }

    pub fn credit_dirty(&self) -> (dirty: bool)
        ensures
            dirty == self@.credit_dirty,
    {
        self.credit_dirty
    }

    pub fn set_credit_dirty(&mut self, dirty: bool)
        requires
            old(self).wf(),
        ensures
            final(self).wf(),
            final(self)@ == (ReceiverModel { credit_dirty: dirty, ..old(self)@ }),
    {
        self.credit_dirty = dirty;
    }

    pub fn deferred_stop(&self) -> (error: Option<u64>)
        ensures
            error == self@.deferred_stop,
    {
        self.deferred_stop
    }

    pub fn set_deferred_stop(&mut self, error: Option<u64>)
        requires
            old(self).wf(),
        ensures
            final(self).wf(),
            final(self)@ == (ReceiverModel { deferred_stop: error, ..old(self)@ }),
    {
        self.deferred_stop = error;
    }

    pub fn event_pending(&self) -> (pending: bool)
        ensures
            pending == self@.event_pending,
    {
        self.event_pending
    }

    pub fn set_event_pending(&mut self, pending: bool)
        requires
            old(self).wf(),
        ensures
            final(self).wf(),
            final(self)@ == (ReceiverModel { event_pending: pending, ..old(self)@ }),
    {
        self.event_pending = pending;
    }

    pub fn has_deferred_control(&self) -> (deferred: bool)
        ensures
            deferred == self@.has_deferred_control(),
    {
        self.credit_dirty || self.deferred_stop.is_some()
    }

    /// A plan for what arrives next.
    pub fn receive_plan(&self) -> (plan: Plan)
        requires
            self.wf(),
        ensures
            plan.wf(),
            plan@.next == self@.store.next,
            plan@.spans == self@.store.spans,
    {
        self.store.plan()
    }

    /// Takes bytes that arrived.
    pub fn insert(&mut self, arena: &mut Arena, offset: u64, data: &[u8], fin: bool) -> (result:
        Result<(), InsertError>)
        requires
            old(self).wf(),
            old(self)@.store.spans.len() <= old(arena).live(),
        ensures
            final(self).wf(),
            final(arena).limit() == old(arena).limit(),
            final(self)@.store.spans.len() <= final(arena).live(),
            final(arena).live() - final(self)@.store.spans.len() == old(arena).live() - old(
                self,
            )@.store.spans.len(),
            match result {
                Ok(()) => {
                    &&& old(self)@.refusal(
                        offset as int,
                        data@.len() as int,
                        old(arena).limit() - old(arena).live(),
                    ) is None
                    &&& old(self)@.took(offset as int, data@, fin, final(self)@)
                },
                Err(error) => {
                    &&& old(self)@.refusal(
                        offset as int,
                        data@.len() as int,
                        old(arena).limit() - old(arena).live(),
                    ) == Some(error)
                    &&& final(self)@ == old(self)@
                },
            },
    {
        let limits = InsertLimits::new(usize::MAX, MAX_RANGES);
        let length: usize = data.len();
        match self.store.insert_copy_and_drain_into(arena, offset, data, limits, &mut self.ready) {
            Ok(()) => {},
            Err(error) => {
                return Err(error);
            },
        }
        let end: u64 = offset + length as u64;
        self.observe(end, fin);
        Ok(())
    }

    /// Notes how far the stream goes at least, and where it ends.
    pub fn observe(&mut self, end: u64, fin: bool)
        requires
            old(self).wf(),
        ensures
            final(self).wf(),
            final(self)@ == old(self)@.observed(end as int, fin),
    {
        if end > self.highest {
            self.highest = end;
        }
        if fin {
            self.final_size = Some(end);
        }
    }

    /// Forgets what waits.
    pub fn release_ranges(&mut self, arena: &mut Arena)
        requires
            old(self).wf(),
            old(self)@.store.spans.len() <= old(arena).live(),
        ensures
            final(self).wf(),
            final(self)@ == (ReceiverModel {
                store: StoreModel { next: 0, held: Map::empty(), spans: Seq::empty() },
                ..old(self)@
            }),
            final(arena).live() == old(arena).live() - old(self)@.store.spans.len(),
            final(arena).limit() == old(arena).limit(),
    {
        self.store.recycle(arena);
    }

    /// Hands out what can be read.
    pub fn read(&mut self, out: &mut Vec<u8>) -> (count: usize)
        requires
            old(self).wf(),
        ensures
            final(self).wf(),
            count == old(self)@.ready.len(),
            final(out)@ == old(out)@ + old(self)@.ready,
            final(self)@ == (ReceiverModel { ready: Seq::empty(), ..old(self)@ }),
    {
        let count: usize = self.ready.len();
        crate::frame::put_bytes(out, self.ready.as_slice());
        self.ready = Vec::new();
        count
    }

    /// Lets the peer send so much more.
    pub fn release_credit(&mut self, released: u64) -> (limit: u64)
        requires
            old(self).wf(),
        ensures
            final(self).wf(),
            limit == if old(self)@.limit + released <= u64::MAX {
                (old(self)@.limit + released) as u64
            } else {
                u64::MAX
            },
            final(self)@ == (ReceiverModel { limit, ..old(self)@ }),
    {
        self.limit = self.limit.saturating_add(released);
        self.limit
    }
}

/// What is known of a stream only grows: how far it goes is the greatest end that was seen,
/// in whatever order.
pub proof fn law_reach_is_greatest_end(receiver: ReceiverModel, a: u64, b: u64)
    ensures
        ({
            let both = receiver.observed(a as int, false).observed(b as int, false);
            &&& both == receiver.observed(b as int, false).observed(a as int, false)
            &&& both.highest >= receiver.highest && both.highest >= a && both.highest >= b
            &&& both.highest == receiver.highest || both.highest == a || both.highest == b
            &&& both.final_size == receiver.final_size
            &&& receiver.observed(a as int, true).final_size == Some(a)
            &&& receiver.observed(a as int, true).observed(b as int, false).final_size == Some(a)
            &&& both.limit == receiver.limit && both.ready == receiver.ready && both.store
                == receiver.store
        }),
{
}

/// What is accepted on a stream stays within its limit and its size, and the connection's
/// total grows by as much as the stream reaches further.
pub proof fn law_accepted_stays_within(
    receiver: ReceiverModel,
    total: u64,
    local_max_data: u64,
    end: u64,
    fin: bool,
)
    requires
        receiver.highest <= receiver.limit,
        receiver.final_size matches Some(size) ==> receiver.highest <= size,
        stream_verdict(
            receiver.limit,
            receiver.highest,
            receiver.final_size,
            total,
            local_max_data,
            end as int,
            fin,
        ) is Ok,
    ensures
        ({
            let after = receiver.observed(end as int, fin);
            let projected = stream_verdict(
                receiver.limit,
                receiver.highest,
                receiver.final_size,
                total,
                local_max_data,
                end as int,
                fin,
            )->Ok_0;
            &&& projected - total == after.highest - receiver.highest
            &&& projected <= local_max_data
            &&& after.highest <= after.limit
            &&& after.final_size matches Some(size) ==> after.highest <= size
            &&& receiver.final_size is Some ==> after.final_size == receiver.final_size
            &&& fin ==> after.final_size == Some(after.highest)
        }),
{
}

/// A stream was read to its end exactly where its size is known, as many bytes came in a row,
/// and none of them is left to read.
pub proof fn law_end_of_stream(receiver: ReceiverModel, size: u64)
    ensures
        receiver.is_eof() ==> receiver.final_size is Some && receiver.ready.len() == 0,
        receiver.final_size == Some(size) ==> receiver.is_eof() == (receiver.store.next == size
            && receiver.ready.len() == 0),
{
}

} // verus!
