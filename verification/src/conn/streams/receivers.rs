//! The receiving sides of a connection's streams.
use vstd::prelude::*;

use crate::conn::recv::{Receiver, ReceiverModel};
use crate::conn::streams::table::{
    lemma_views_changed, lemma_views_inserted, lemma_views_removed, lemma_weight_changed,
    lemma_weight_inserted, lemma_weight_part, lemma_weight_removed, total_weight, views, Entry,
    Handle, Table, TableModel,
};
use crate::range_buffer::{Arena, InsertError};

verus! {

/// How many ranges wait on a stream.
spec fn range_weight() -> spec_fn(Receiver) -> int {
    |receiver: Receiver| receiver@.store.spans.len() as int
}

/// The receiving sides of streams, by stream number, and the budget of ranges
/// that they share.
pub struct Receivers {
    table: Table<Receiver>,
    ranges: Arena,
}

impl View for Receivers {
    type V = Map<u64, ReceiverModel>;

    closed spec fn view(&self) -> Map<u64, ReceiverModel> {
        views(self.table@)
    }
}

impl Receivers {
    pub closed spec fn wf(&self) -> bool {
        &&& self.table.wf()
        &&& forall|id: u64| #[trigger] self.table@.has(id) ==> self.table@.get(id).value.wf()
        &&& total_weight(self.table@, range_weight()) == self.ranges.live()
    }

    /// Whether one more stream fits.
    pub closed spec fn has_room(&self) -> bool {
        self.table@.has_room()
    }

    /// How many more ranges can wait.
    pub closed spec fn remaining(&self) -> int {
        self.ranges.limit() - self.ranges.live()
    }

    /// No streams.
    pub fn new(capacity: usize, range_capacity: usize) -> (receivers: Receivers)
        requires
            capacity < u32::MAX - 1,
            2 * capacity <= usize::MAX / 2 + 1,
        ensures
            receivers.wf(),
            receivers@ == Map::<u64, ReceiverModel>::empty(),
            receivers.remaining() == range_capacity,
            capacity > 0 ==> receivers.has_room(),
    {
        let receivers = Receivers {
            table: Table::new(capacity),
            ranges: Arena::with_capacity(range_capacity),
        };
        assert(receivers@ =~= Map::empty());
        receivers
    }

    /// Whether one more stream fits.
    pub fn fits_one(&self) -> (fits: bool)
        requires
            self.wf(),
        ensures
            fits == self.has_room(),
    {
        self.table.fits_one()
    }

    /// The receiving side of a stream.
    pub fn get(&self, stream_id: u64) -> (receiver: Option<&Receiver>)
        requires
            self.wf(),
        ensures
            match receiver {
                Some(receiver) => self@.dom().contains(stream_id) && receiver@ == self@[stream_id]
                    && receiver.wf(),
                None => !self@.dom().contains(stream_id),
            },
    {
        match self.table.get(stream_id) {
            Some(entry) => Some(&entry.value),
            None => None,
        }
    }

    /// Puts a stream there, if it is not.
    pub fn ensure(&mut self, stream_id: u64, limit: u64)
        requires
            old(self).wf(),
            old(self)@.dom().contains(stream_id) || old(self).has_room(),
        ensures
            final(self).wf(),
            final(self)@ == if old(self)@.dom().contains(stream_id) {
                old(self)@
            } else {
                old(self)@.insert(stream_id, ReceiverModel::initial(limit))
            },
            final(self).remaining() == old(self).remaining(),
    {
        if self.table.handle(stream_id).is_some() {
            return;
        }
        let ghost before = self.table@;
        let receiver = Receiver::new(limit);
        proof {
            self.table.lemma_next();
            self.table.lemma_wf();
            lemma_views_inserted(before, stream_id, receiver);
            lemma_weight_inserted(before, range_weight(), stream_id, receiver);
        }
        let handle = self.table.or_insert(stream_id, receiver);
        proof {
            assert forall|id: u64| #[trigger] self.table@.has(id) implies self.table@.get(
                id,
            ).value.wf() by {
                if id != stream_id {
                    assert(before.has(id));
                    assert(before.entries.live(before.index[id]));
                }
            }
        }
    }

    /// The handle of a stream that is there.
    fn handle(&self, stream_id: u64) -> (handle: Handle)
        requires
            self.wf(),
            self@.dom().contains(stream_id),
        ensures
            self.table@.names(handle),
            handle == self.table@.handle(stream_id),
            self.table@.named(handle) == self.table@.get(stream_id),
            self.table@.named(handle).stream_id == stream_id,
    {
        proof {
            self.table.lemma_wf();
        }
        match self.table.handle(stream_id) {
            Some(handle) => handle,
            None => Handle { index: 0, generation: 0 },
        }
    }

    /// What changes when what is kept for one stream does.
    proof fn lemma_changed(&self, before: TableModel<Receiver>, handle: Handle, after: Receiver)
        requires
            before.sound(),
            before.names(handle),
            self.table.wf(),
            after.wf(),
            forall|id: u64| #[trigger] before.has(id) ==> before.get(id).value.wf(),
            self.table@ == before.changed(
                handle,
                Entry { value: after, ..before.named(handle) },
            ),
        ensures
            self@ == views(before).insert(before.named(handle).stream_id, after@),
            total_weight(self.table@, range_weight()) == total_weight(before, range_weight())
                + after@.store.spans.len() - before.named(handle).value@.store.spans.len(),
            forall|id: u64| #[trigger] self.table@.has(id) ==> self.table@.get(id).value.wf(),
    {
        let entry = Entry { value: after, ..before.named(handle) };
        lemma_views_changed(before, handle, entry);
        lemma_weight_changed(before, range_weight(), handle, entry);
        assert forall|id: u64| #[trigger] self.table@.has(id) implies self.table@.get(
            id,
        ).value.wf() by {
            assert(before.has(id));
            assert(before.entries.live(before.index[id]));
        }
    }

    /// Takes bytes that arrived on a stream.
    pub fn insert(&mut self, stream_id: u64, offset: u64, data: &[u8], fin: bool) -> (result:
        Result<(), InsertError>)
        requires
            old(self).wf(),
            old(self)@.dom().contains(stream_id),
        ensures
            final(self).wf(),
            final(self)@.dom() == old(self)@.dom(),
            final(self).has_room() == old(self).has_room(),
            final(self)@ == old(self)@.insert(stream_id, final(self)@[stream_id]),
            final(self).remaining() + final(self)@[stream_id].store.spans.len() == old(
                self,
            ).remaining() + old(self)@[stream_id].store.spans.len(),
            ({
                let refusal = old(self)@[stream_id].refusal(
                    offset as int,
                    data@.len() as int,
                    old(self).remaining(),
                );
                match result {
                    Ok(()) => refusal is None && old(self)@[stream_id].took(
                        offset as int,
                        data@,
                        fin,
                        final(self)@[stream_id],
                    ),
                    Err(error) => {
                        &&& refusal == Some(error)
                        &&& final(self)@ == old(self)@
                        &&& final(self).remaining() == old(self).remaining()
                    },
                }
            }),
    {
        let handle = self.handle(stream_id);
        let ghost before = self.table@;
        proof {
            self.table.lemma_wf();
            lemma_weight_part(before, range_weight(), stream_id);
        }
        let receiver = self.table.value_mut(handle);
        let result = receiver.insert(&mut self.ranges, offset, data, fin);
        proof {
            let after = self.table@.named(handle).value;
            self.lemma_changed(before, handle, after);
            assert(self@.dom() =~= views(before).dom());
            if result is Err {
                assert(self@ =~= views(before));
            }
        }
        result
    }

    /// Notes how far a stream goes at least, and where it ends.
    pub fn observe(&mut self, stream_id: u64, end: u64, fin: bool)
        requires
            old(self).wf(),
            old(self)@.dom().contains(stream_id),
        ensures
            final(self).wf(),
            final(self)@ == old(self)@.insert(
                stream_id,
                old(self)@[stream_id].observed(end as int, fin),
            ),
            final(self).remaining() == old(self).remaining(),
            final(self).has_room() == old(self).has_room(),
    {
        let handle = self.handle(stream_id);
        let ghost before = self.table@;
        proof {
            self.table.lemma_wf();
        }
        let receiver = self.table.value_mut(handle);
        receiver.observe(end, fin);
        proof {
            self.lemma_changed(before, handle, self.table@.named(handle).value);
        }
    }

    /// Notes whether the application was told of something to read.
    pub fn set_event_pending(&mut self, stream_id: u64, pending: bool)
        requires
            old(self).wf(),
            old(self)@.dom().contains(stream_id),
        ensures
            final(self).wf(),
            final(self)@ == old(self)@.insert(
                stream_id,
                (ReceiverModel { event_pending: pending, ..old(self)@[stream_id] }),
            ),
            final(self).remaining() == old(self).remaining(),
            final(self).has_room() == old(self).has_room(),
    {
        let handle = self.handle(stream_id);
        let ghost before = self.table@;
        proof {
            self.table.lemma_wf();
        }
        let receiver = self.table.value_mut(handle);
        receiver.set_event_pending(pending);
        proof {
            self.lemma_changed(before, handle, self.table@.named(handle).value);
        }
    }

    /// Notes whether a higher limit is to be told.
    pub fn set_credit_dirty(&mut self, stream_id: u64, dirty: bool)
        requires
            old(self).wf(),
            old(self)@.dom().contains(stream_id),
        ensures
            final(self).wf(),
            final(self)@ == old(self)@.insert(
                stream_id,
                (ReceiverModel { credit_dirty: dirty, ..old(self)@[stream_id] }),
            ),
            final(self).remaining() == old(self).remaining(),
            final(self).has_room() == old(self).has_room(),
    {
        let handle = self.handle(stream_id);
        let ghost before = self.table@;
        proof {
            self.table.lemma_wf();
        }
        let receiver = self.table.value_mut(handle);
        receiver.set_credit_dirty(dirty);
        proof {
            self.lemma_changed(before, handle, self.table@.named(handle).value);
        }
    }

    /// Notes why the peer is asked to stop.
    pub fn set_deferred_stop(&mut self, stream_id: u64, error: Option<u64>)
        requires
            old(self).wf(),
            old(self)@.dom().contains(stream_id),
        ensures
            final(self).wf(),
            final(self)@ == old(self)@.insert(
                stream_id,
                (ReceiverModel { deferred_stop: error, ..old(self)@[stream_id] }),
            ),
            final(self).remaining() == old(self).remaining(),
            final(self).has_room() == old(self).has_room(),
    {
        let handle = self.handle(stream_id);
        let ghost before = self.table@;
        proof {
            self.table.lemma_wf();
        }
        let receiver = self.table.value_mut(handle);
        receiver.set_deferred_stop(error);
        proof {
            self.lemma_changed(before, handle, self.table@.named(handle).value);
        }
    }

    /// Lets the peer send so much more on a stream.
    pub fn release_credit(&mut self, stream_id: u64, released: u64) -> (limit: u64)
        requires
            old(self).wf(),
            old(self)@.dom().contains(stream_id),
        ensures
            final(self).wf(),
            limit == crate::conn::streams::limits::bounded_sum(
                old(self)@[stream_id].limit,
                released,
            ),
            final(self)@ == old(self)@.insert(
                stream_id,
                (ReceiverModel { limit, ..old(self)@[stream_id] }),
            ),
            final(self).remaining() == old(self).remaining(),
            final(self).has_room() == old(self).has_room(),
    {
        let handle = self.handle(stream_id);
        let ghost before = self.table@;
        proof {
            self.table.lemma_wf();
        }
        let receiver = self.table.value_mut(handle);
        let limit: u64 = receiver.release_credit(released);
        proof {
            self.lemma_changed(before, handle, self.table@.named(handle).value);
        }
        limit
    }

    /// Hands out what can be read on a stream.
    pub fn read(&mut self, stream_id: u64, out: &mut Vec<u8>) -> (count: usize)
        requires
            old(self).wf(),
            old(self)@.dom().contains(stream_id),
        ensures
            final(self).wf(),
            count == old(self)@[stream_id].ready.len(),
            final(out)@ == old(out)@ + old(self)@[stream_id].ready,
            final(self)@ == old(self)@.insert(
                stream_id,
                (ReceiverModel { ready: Seq::empty(), ..old(self)@[stream_id] }),
            ),
            final(self).remaining() == old(self).remaining(),
            final(self).has_room() == old(self).has_room(),
    {
        let handle = self.handle(stream_id);
        let ghost before = self.table@;
        proof {
            self.table.lemma_wf();
        }
        let receiver = self.table.value_mut(handle);
        let count: usize = receiver.read(out);
        proof {
            self.lemma_changed(before, handle, self.table@.named(handle).value);
        }
        count
    }

    /// Removes a stream, and gives its ranges back.
    pub fn remove(&mut self, stream_id: u64)
        requires
            old(self).wf(),
        ensures
            final(self).wf(),
            final(self)@ == old(self)@.remove(stream_id),
            final(self).remaining() == old(self).remaining() + if old(self)@.dom().contains(
                stream_id,
            ) {
                old(self)@[stream_id].store.spans.len() as int
            } else {
                0
            },
    {
        if self.table.handle(stream_id).is_none() {
            assert(self@.remove(stream_id) =~= self@);
            return;
        }
        let handle = self.handle(stream_id);
        let ghost first = self.table@;
        proof {
            self.table.lemma_wf();
            lemma_weight_part(first, range_weight(), stream_id);
        }
        let receiver = self.table.value_mut(handle);
        receiver.release_ranges(&mut self.ranges);
        let ghost before = self.table@;
        proof {
            self.lemma_changed(first, handle, self.table@.named(handle).value);
            self.table.lemma_wf();
            assert(before.has(stream_id));
            assert(before.get(stream_id) == before.named(handle));
            lemma_views_removed(before, stream_id);
            lemma_weight_removed(before, range_weight(), stream_id);
        }
        let removed = self.table.remove(stream_id);
        proof {
            assert forall|id: u64| #[trigger] self.table@.has(id) implies self.table@.get(
                id,
            ).value.wf() by {
                assert(before.has(id));
                assert(before.entries.live(before.index[id]));
                assert(before.entries.live(before.index[stream_id]));
            }
            assert(self@ =~= views(first).remove(stream_id));
        }
    }
}

} // verus!
