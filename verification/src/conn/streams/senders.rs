//! The sending sides of a connection's streams.
use vstd::prelude::*;

use crate::conn::send::{Sender, SenderModel};
use crate::conn::stream_journal::model::{GroupId, SendHandle};
use crate::conn::streams::table::{
    lemma_views_changed, lemma_views_inserted, lemma_views_removed, views, Entry, Handle, Table,
    TableModel,
};

verus! {

/// The sending sides of streams, by stream number.
pub struct Senders {
    table: Table<Sender>,
}

impl View for Senders {
    type V = Map<u64, SenderModel>;

    closed spec fn view(&self) -> Map<u64, SenderModel> {
        views(self.table@)
    }
}

impl Senders {
    pub closed spec fn wf(&self) -> bool {
        &&& self.table.wf()
        &&& forall|id: u64| #[trigger] self.table@.has(id) ==> self.table@.get(id).value@.sound()
    }

    /// What holds of every sending side.
    pub proof fn lemma_sound(&self)
        requires
            self.wf(),
        ensures
            forall|id: u64| #[trigger] self@.dom().contains(id) ==> self@[id].sound(),
    {
        assert forall|id: u64| #[trigger] self@.dom().contains(id) implies self@[id].sound() by {
            assert(self.table@.has(id));
        }
    }

    /// Whether one more stream fits.
    pub closed spec fn has_room(&self) -> bool {
        self.table@.has_room()
    }

    /// The stream that a handle names.
    pub closed spec fn named(&self, handle: SendHandle) -> Option<u64> {
        if self.table@.names(table_handle(handle)) {
            Some(self.table@.named(table_handle(handle)).stream_id)
        } else {
            None
        }
    }

    /// The handle of a stream.
    pub closed spec fn handle_of(&self, stream_id: u64) -> SendHandle {
        let handle = self.table@.handle(stream_id);
        SendHandle { index: handle.index, generation: handle.generation }
    }

    /// Handles name streams that are there, and the handle of a stream names it.
    pub proof fn lemma_named(&self)
        requires
            self.wf(),
        ensures
            forall|handle: SendHandle|
                #![trigger self.named(handle)]
                self.named(handle) matches Some(id) ==> self@.dom().contains(id) && handle
                    == self.handle_of(id),
    {
        self.table.lemma_wf();
        assert forall|handle: SendHandle|
            #![trigger self.named(handle)]
            self.named(handle) matches Some(id) implies self@.dom().contains(self.named(handle)->0)
            && handle == self.handle_of(self.named(handle)->0) by {
            if self.named(handle) is Some {
                assert(self.table@.entries.live(handle.index as int));
            }
        }
    }

    /// No streams.
    pub fn new(capacity: usize) -> (senders: Senders)
        requires
            capacity < u32::MAX - 1,
            2 * capacity <= usize::MAX / 2 + 1,
        ensures
            senders.wf(),
            senders@ == Map::<u64, SenderModel>::empty(),
            capacity > 0 ==> senders.has_room(),
    {
        let senders = Senders { table: Table::new(capacity) };
        assert(senders@ =~= Map::empty());
        senders
    }

    /// The sending side of a stream.
    pub fn get(&self, stream_id: u64) -> (sender: Option<&Sender>)
        requires
            self.wf(),
        ensures
            match sender {
                Some(sender) => self@.dom().contains(stream_id) && sender@ == self@[stream_id]
                    && sender@.sound(),
                None => !self@.dom().contains(stream_id),
            },
    {
        match self.table.get(stream_id) {
            Some(entry) => Some(&entry.value),
            None => None,
        }
    }

    /// The stream that a handle names.
    pub fn resolve(&self, handle: SendHandle) -> (stream_id: Option<u64>)
        requires
            self.wf(),
        ensures
            stream_id == self.named(handle),
    {
        match self.table.resolve(
            Handle { index: handle.index, generation: handle.generation },
        ) {
            Some(entry) => Some(entry.stream_id),
            None => None,
        }
    }

    /// Whether one more stream fits.
    pub fn fits_one(&self) -> (fits: bool)
        requires
            self.wf(),
        ensures
            fits == self.has_room(),
    {
        self.table.fits_one()
    }

    /// The handle of a stream.
    pub fn send_handle(&self, stream_id: u64) -> (handle: SendHandle)
        requires
            self.wf(),
            self@.dom().contains(stream_id),
        ensures
            handle == self.handle_of(stream_id),
            self.named(handle) == Some(stream_id),
    {
        let handle = self.handle(stream_id);
        SendHandle { index: handle.index, generation: handle.generation }
    }

    /// Puts a stream there, if it is not and fits.
    pub fn ensure(&mut self, stream_id: u64, credit: u64) -> (there: bool)
        requires
            old(self).wf(),
        ensures
            final(self).wf(),
            there == (old(self)@.dom().contains(stream_id) || old(self).has_room()),
            final(self)@ == if old(self)@.dom().contains(stream_id) || !old(self).has_room() {
                old(self)@
            } else {
                old(self)@.insert(stream_id, SenderModel::initial(credit))
            },
    {
        if self.table.handle(stream_id).is_some() {
            return true;
        }
        let ghost before = self.table@;
        let sender = Sender::new(credit);
        proof {
            self.table.lemma_wf();
            if before.has_room() {
                self.table.lemma_next();
                lemma_views_inserted(before, stream_id, sender);
            }
        }
        let handle = self.table.or_insert(stream_id, sender);
        proof {
            assert forall|id: u64| #[trigger] self.table@.has(id) implies self.table@.get(
                id,
            ).value@.sound() by {
                if id != stream_id {
                    assert(before.has(id));
                    assert(before.entries.live(before.index[id]));
                }
            }
        }
        handle.is_some()
    }

    fn handle(&self, stream_id: u64) -> (handle: Handle)
        requires
            self.wf(),
            self@.dom().contains(stream_id),
        ensures
            self.table@.names(handle),
            handle == self.table@.handle(stream_id),
            self.table@.named(handle) == self.table@.get(stream_id),
            self.table@.named(handle).stream_id == stream_id,
    {
        match self.table.handle(stream_id) {
            Some(handle) => handle,
            None => Handle { index: 0, generation: 0 },
        }
    }

    /// What changes when what is kept for one stream does.
    proof fn lemma_changed(&self, before: TableModel<Sender>, handle: Handle, after: Sender)
        requires
            before.sound(),
            before.names(handle),
            after@.sound(),
            forall|id: u64| #[trigger] before.has(id) ==> before.get(id).value@.sound(),
            self.table@ == before.changed(
                handle,
                Entry { value: after, ..before.named(handle) },
            ),
        ensures
            self@ == views(before).insert(before.named(handle).stream_id, after@),
            forall|id: u64| #[trigger] self.table@.has(id) ==> self.table@.get(id).value@.sound(),
            forall|other: Handle| #[trigger] self.table@.names(other) == before.names(other),
            forall|other: Handle| #[trigger]
                self.table@.names(other) ==> self.table@.named(other).stream_id == before.named(
                    other,
                ).stream_id,
            forall|id: u64| #[trigger]
                self.table@.has(id) ==> self.table@.handle(id) == before.handle(id),
    {
        let entry = Entry { value: after, ..before.named(handle) };
        lemma_views_changed(before, handle, entry);
        assert forall|id: u64| #[trigger] self.table@.has(id) implies self.table@.get(
            id,
        ).value@.sound() by {
            assert(before.has(id));
            assert(before.entries.live(before.index[id]));
        }
        assert forall|id: u64| #[trigger] self.table@.has(id) implies self.table@.handle(id)
            == before.handle(id) by {
            assert(before.has(id));
            assert(before.entries.live(before.index[id]));
        }
    }

    /// Whether the same handles name the same streams.
    pub open spec fn same_handles(&self, other: &Senders) -> bool {
        &&& forall|handle: SendHandle| #[trigger] self.named(handle) == other.named(handle)
        &&& forall|id: u64| #[trigger]
            self@.dom().contains(id) ==> self.handle_of(id) == other.handle_of(id)
        &&& self@.dom() == other@.dom()
        &&& self.has_room() == other.has_room()
    }

    /// Writes bytes on a stream, unless offsets would not reach that far.
    pub fn write(&mut self, stream_id: u64, data: &[u8]) -> (result: bool)
        requires
            old(self).wf(),
            old(self)@.dom().contains(stream_id),
        ensures
            final(self).wf(),
            final(self)@ == old(self)@.insert(stream_id, if old(self)@[stream_id].can_write(data@.len() as int) {
                old(self)@[stream_id].written(data@)
            } else {
                old(self)@[stream_id]
            }),
            final(self).same_handles(old(self)),
            result == old(self)@[stream_id].can_write(data@.len() as int),
    {
        let handle = self.handle(stream_id);
        let ghost before = self.table@;
        proof {
            self.table.lemma_wf();
        }
        let sender = self.table.value_mut(handle);
        let result = sender.write(data);
        proof {
            self.lemma_changed(before, handle, self.table@.named(handle).value);
            assert(self@.dom() =~= views(before).dom());
        }
        result
    }

    /// Ends a stream after what was written.
    pub fn mark_fin(&mut self, stream_id: u64)
        requires
            old(self).wf(),
            old(self)@.dom().contains(stream_id),
        ensures
            final(self).wf(),
            final(self)@ == old(self)@.insert(stream_id, (SenderModel { fin: true, ..old(self)@[stream_id] })),
            final(self).same_handles(old(self)),
    {
        let handle = self.handle(stream_id);
        let ghost before = self.table@;
        proof {
            self.table.lemma_wf();
        }
        let sender = self.table.value_mut(handle);
        sender.mark_fin();
        proof {
            self.lemma_changed(before, handle, self.table@.named(handle).value);
            assert(self@.dom() =~= views(before).dom());
        }

    }

    /// Notes that a stream was reset.
    pub fn mark_reset_sent(&mut self, stream_id: u64)
        requires
            old(self).wf(),
            old(self)@.dom().contains(stream_id),
        ensures
            final(self).wf(),
            final(self)@ == old(self)@.insert(stream_id, (SenderModel { reset_sent: true, ..old(self)@[stream_id] })),
            final(self).same_handles(old(self)),
    {
        let handle = self.handle(stream_id);
        let ghost before = self.table@;
        proof {
            self.table.lemma_wf();
        }
        let sender = self.table.value_mut(handle);
        sender.mark_reset_sent();
        proof {
            self.lemma_changed(before, handle, self.table@.named(handle).value);
            assert(self@.dom() =~= views(before).dom());
        }

    }

    /// Notes that the peer asked to stop.
    pub fn stop(&mut self, stream_id: u64, error_code: u64)
        requires
            old(self).wf(),
            old(self)@.dom().contains(stream_id),
        ensures
            final(self).wf(),
            final(self)@ == old(self)@.insert(stream_id, (SenderModel { stopped: Some(error_code), ..old(self)@[stream_id] })),
            final(self).same_handles(old(self)),
    {
        let handle = self.handle(stream_id);
        let ghost before = self.table@;
        proof {
            self.table.lemma_wf();
        }
        let sender = self.table.value_mut(handle);
        sender.stop(error_code);
        proof {
            self.lemma_changed(before, handle, self.table@.named(handle).value);
            assert(self@.dom() =~= views(before).dom());
        }

    }

    /// Notes why a stream is reset, while the frame for it waits for room.
    pub fn set_deferred_reset(&mut self, stream_id: u64, error: Option<u64>)
        requires
            old(self).wf(),
            old(self)@.dom().contains(stream_id),
        ensures
            final(self).wf(),
            final(self)@ == old(self)@.insert(stream_id, (SenderModel { deferred_reset: error, ..old(self)@[stream_id] })),
            final(self).same_handles(old(self)),
    {
        let handle = self.handle(stream_id);
        let ghost before = self.table@;
        proof {
            self.table.lemma_wf();
        }
        let sender = self.table.value_mut(handle);
        sender.set_deferred_reset(error);
        proof {
            self.lemma_changed(before, handle, self.table@.named(handle).value);
            assert(self@.dom() =~= views(before).dom());
        }

    }

    /// Notes whether the application was told that the peer asked to stop.
    pub fn set_stop_event_pending(&mut self, stream_id: u64, pending: bool)
        requires
            old(self).wf(),
            old(self)@.dom().contains(stream_id),
        ensures
            final(self).wf(),
            final(self)@ == old(self)@.insert(stream_id, (SenderModel { stop_event_pending: pending, ..old(self)@[stream_id] })),
            final(self).same_handles(old(self)),
    {
        let handle = self.handle(stream_id);
        let ghost before = self.table@;
        proof {
            self.table.lemma_wf();
        }
        let sender = self.table.value_mut(handle);
        sender.set_stop_event_pending(pending);
        proof {
            self.lemma_changed(before, handle, self.table@.named(handle).value);
            assert(self@.dom() =~= views(before).dom());
        }

    }

    /// Notes the records of a stream.
    pub fn set_delivery_group(&mut self, stream_id: u64, group: Option<GroupId>)
        requires
            old(self).wf(),
            old(self)@.dom().contains(stream_id),
        ensures
            final(self).wf(),
            final(self)@ == old(self)@.insert(stream_id, (SenderModel { delivery_group: group, ..old(self)@[stream_id] })),
            final(self).same_handles(old(self)),
    {
        let handle = self.handle(stream_id);
        let ghost before = self.table@;
        proof {
            self.table.lemma_wf();
        }
        let sender = self.table.value_mut(handle);
        sender.set_delivery_group(group);
        proof {
            self.lemma_changed(before, handle, self.table@.named(handle).value);
            assert(self@.dom() =~= views(before).dom());
        }

    }

    /// Takes a higher limit of a stream.
    pub fn raise_credit(&mut self, stream_id: u64, maximum: u64)
        requires
            old(self).wf(),
            old(self)@.dom().contains(stream_id),
        ensures
            final(self).wf(),
            final(self)@ == old(self)@.insert(stream_id, (SenderModel {
                credit: if maximum > old(self)@[stream_id].credit {
                    maximum
                } else {
                    old(self)@[stream_id].credit
                },
                ..old(self)@[stream_id]
            })),
            final(self).same_handles(old(self)),
    {
        let handle = self.handle(stream_id);
        let ghost before = self.table@;
        proof {
            self.table.lemma_wf();
        }
        let sender = self.table.value_mut(handle);
        sender.raise_credit(maximum);
        proof {
            self.lemma_changed(before, handle, self.table@.named(handle).value);
            assert(self@.dom() =~= views(before).dom());
        }

    }

    /// Notes that bytes of a stream were sent.
    pub fn advance_sent(&mut self, stream_id: u64, len: u64, fin: bool)
        requires
            old(self).wf(),
            old(self)@.dom().contains(stream_id),
            len <= old(self)@[stream_id].unsent(),
        ensures
            final(self).wf(),
            final(self)@ == old(self)@.insert(stream_id, old(self)@[stream_id].advanced(len as int, fin)),
            final(self).same_handles(old(self)),
    {
        let handle = self.handle(stream_id);
        let ghost before = self.table@;
        proof {
            self.table.lemma_wf();
        }
        let sender = self.table.value_mut(handle);
        sender.advance_sent(len, fin);
        proof {
            self.lemma_changed(before, handle, self.table@.named(handle).value);
            assert(self@.dom() =~= views(before).dom());
        }

    }

    /// Removes a stream.
    pub fn remove(&mut self, stream_id: u64)
        requires
            old(self).wf(),
        ensures
            final(self).wf(),
            final(self)@ == old(self)@.remove(stream_id),
    {
        let ghost before = self.table@;
        proof {
            self.table.lemma_wf();
            if before.has(stream_id) {
                lemma_views_removed(before, stream_id);
            } else {
                assert(self@.remove(stream_id) =~= self@);
            }
        }
        let removed = self.table.remove(stream_id);
        proof {
            assert forall|id: u64| #[trigger] self.table@.has(id) implies self.table@.get(
                id,
            ).value@.sound() by {
                assert(before.has(id));
                assert(before.entries.live(before.index[id]));
                if before.has(stream_id) {
                    assert(before.entries.live(before.index[stream_id]));
                }
            }
        }
    }
}

spec fn table_handle(handle: SendHandle) -> Handle {
    Handle { index: handle.index, generation: handle.generation }
}

} // verus!
