//! A table of fixed capacity of what is kept for each stream.
use vstd::prelude::*;

use crate::conn::arena::{Arena, ArenaModel, Slot};
use crate::conn::streams::index::Index;
use crate::math::next_power_of_two;

verus! {

/// The last generation of a slot.
pub const MAX_GENERATION: u32 = 0x7fff_ffff;

/// Names what is kept for a stream, until the stream is removed.
#[derive(Clone, Copy, Debug, PartialEq, Eq, Structural)]
pub struct Handle {
    pub index: u32,
    pub generation: u32,
}

impl Handle {
    /// The handle as one number, which is not zero.
    pub open spec fn number(self) -> int {
        self.generation * 0x1_0000_0000 + self.index + 1
    }

    /// The handle as one number, which is not zero.
    pub fn raw(self) -> (raw: u64)
        requires
            self.index < u32::MAX,
        ensures
            raw == self.number(),
            raw != 0,
    {
        self.generation as u64 * 0x1_0000_0000 + (self.index as u64 + 1)
    }

    /// The handle of a number.
    pub fn from_raw(raw: u64) -> (handle: Handle)
        requires
            raw % 0x1_0000_0000 != 0,
        ensures
            handle.number() == raw,
            handle.index < u32::MAX,
    {
        Handle {
            index: (raw % 0x1_0000_0000) as u32 - 1,
            generation: (raw / 0x1_0000_0000) as u32,
        }
    }
}

/// What is kept for a stream, and a place that its owner notes.
pub struct Entry<V> {
    pub stream_id: u64,
    pub value: V,
    pub position: Option<u32>,
}

/// The streams of a connection's side, by number and by handle.
pub struct Table<V> {
    index: Index,
    entries: Arena<Entry<V>>,
    capacity: usize,
    len: usize,
}

/// The content of a table.
pub struct TableModel<V> {
    /// The slot of each stream.
    pub index: Map<u64, int>,
    pub entries: ArenaModel<Entry<V>>,
}

impl<V> TableModel<V> {
    /// Whether a stream is there.
    pub open spec fn has(self, stream_id: u64) -> bool {
        self.index.dom().contains(stream_id)
    }

    /// What is kept for a stream.
    pub open spec fn get(self, stream_id: u64) -> Entry<V> {
        self.entries.at(self.index[stream_id])
    }

    pub open spec fn handle_at(self, index: int) -> Handle {
        Handle { index: index as u32, generation: self.entries.slots[index].generation }
    }

    /// The handle of a stream.
    pub open spec fn handle(self, stream_id: u64) -> Handle {
        self.handle_at(self.index[stream_id])
    }

    /// Whether a handle names a stream.
    pub open spec fn names(self, handle: Handle) -> bool {
        self.entries.live(handle.index as int) && self.entries.slots[handle.index as int].generation
            == handle.generation
    }

    /// What a handle names.
    pub open spec fn named(self, handle: Handle) -> Entry<V> {
        self.entries.at(handle.index as int)
    }

    /// Whether one more stream fits.
    pub open spec fn has_room(self) -> bool {
        self.entries.next() is Some
    }

    /// The table with one more stream.
    pub open spec fn inserted(self, stream_id: u64, value: V) -> TableModel<V> {
        let slot = self.entries.next()->0;
        TableModel {
            index: self.index.insert(stream_id, slot),
            entries: self.entries.taken().put(
                slot,
                Some(Entry { stream_id, value, position: None }),
            ),
        }
    }

    /// The table without a stream.
    pub open spec fn removed(self, stream_id: u64) -> TableModel<V> {
        let slot = self.index[stream_id];
        TableModel {
            index: self.index.remove(stream_id),
            entries: self.entries.put(slot, None).released(slot),
        }
    }

    /// The table with something else kept for what a handle names.
    pub open spec fn changed(self, handle: Handle, entry: Entry<V>) -> TableModel<V> {
        TableModel { entries: self.entries.put(handle.index as int, Some(entry)), ..self }
    }

    /// Each stream has one slot, and each slot that is in use one stream.
    pub open spec fn sound(self) -> bool {
        &&& forall|id: u64| #[trigger]
            self.index.dom().contains(id) ==> self.entries.live(self.index[id]) && self.entries.at(
                self.index[id],
            ).stream_id == id
        &&& forall|i: int| #[trigger]
            self.entries.live(i) ==> self.index.dom().contains(self.entries.at(i).stream_id)
                && self.index[self.entries.at(i).stream_id] == i
    }
}

impl<V> View for Table<V> {
    type V = TableModel<V>;

    closed spec fn view(&self) -> TableModel<V> {
        TableModel { index: self.index@, entries: self.entries@ }
    }
}

impl<V> Table<V> {
    pub closed spec fn wf(&self) -> bool {
        &&& self.index.wf()
        &&& self.entries.wf()
        &&& self@.sound()
        &&& self.index.slots() == self.entries@.slots.len()
        &&& self.entries@.limit == self.capacity
        &&& self.entries@.last == MAX_GENERATION
        &&& self.len == self.index@.len()
        &&& self.index@.dom().finite()
        &&& self.len <= self.capacity
        &&& self.index.room() + self.len >= 2 * self.capacity - 1
    }

    /// What holds of every table.
    pub proof fn lemma_wf(&self)
        requires
            self.wf(),
        ensures
            self@.sound(),
            self@.slots_sound(),
            self@.index.dom().finite(),
            self@.index.len() <= self@.entries.limit,
    {
        self.entries.lemma_model();
    }

    /// The slot of the next stream.
    pub proof fn lemma_next(&self)
        requires
            self.wf(),
            self@.has_room(),
        ensures
            0 <= self@.entries.next()->0 <= self@.entries.slots.len(),
            self@.entries.free.len() > 0 ==> self@.entries.next()->0 < self@.entries.slots.len(),
            !self@.entries.live(self@.entries.next()->0),
    {
        self.entries.lemma_model();
    }

    /// An empty table.
    pub fn new(capacity: usize) -> (table: Table<V>)
        requires
            capacity < u32::MAX - 1,
            2 * capacity <= usize::MAX / 2 + 1,
        ensures
            table.wf(),
            table@.index == Map::<u64, int>::empty(),
            table@.entries.slots.len() == 0,
            table@.entries.free.len() == 0,
            table@.entries.limit == capacity,
    {
        let bucket_count: usize = match next_power_of_two(capacity * 2) {
            Some(count) => count,
            None => 1,
        };
        Table {
            index: Index::new(bucket_count),
            entries: Arena::new(capacity, MAX_GENERATION),
            capacity,
            len: 0,
        }
    }

    /// How many more streams can be there at once.
    pub fn remaining_capacity(&self) -> (remaining: usize)
        requires
            self.wf(),
        ensures
            remaining == self@.entries.limit - self@.index.len(),
    {
        self.capacity - self.len
    }

    /// What is kept for a stream.
    pub fn get(&self, stream_id: u64) -> (entry: Option<&Entry<V>>)
        requires
            self.wf(),
        ensures
            match entry {
                Some(entry) => self@.has(stream_id) && *entry == self@.get(stream_id),
                None => !self@.has(stream_id),
            },
    {
        match self.index.find(stream_id) {
            Some(slot) => Some(self.entries.value_ref(slot)),
            None => None,
        }
    }

    /// Whether one more stream fits.
    pub fn fits_one(&self) -> (fits: bool)
        requires
            self.wf(),
        ensures
            fits == self@.has_room(),
    {
        self.entries.has_next()
    }

    /// The handle of a stream.
    pub fn handle(&self, stream_id: u64) -> (handle: Option<Handle>)
        requires
            self.wf(),
        ensures
            match handle {
                Some(handle) => {
                    &&& self@.has(stream_id)
                    &&& handle == self@.handle(stream_id)
                    &&& handle.index == self@.index[stream_id]
                    &&& self@.names(handle)
                    &&& self@.named(handle) == self@.get(stream_id)
                    &&& self@.named(handle).stream_id == stream_id
                },
                None => !self@.has(stream_id),
            },
    {
        match self.index.find(stream_id) {
            Some(slot) => {
                assert(self@.entries.live(slot as int));
                Some(Handle { index: slot, generation: self.entries.generation(slot) })
            },
            None => None,
        }
    }

    /// The handle of the stream in a slot.
    pub fn handle_at(&self, index: u32) -> (handle: Option<Handle>)
        requires
            self.wf(),
        ensures
            handle == (if self@.entries.live(index as int) {
                Some(self@.handle_at(index as int))
            } else {
                None
            }),
    {
        if self.entries.is_live(index) {
            Some(Handle { index, generation: self.entries.generation(index) })
        } else {
            None
        }
    }

    /// What a handle names.
    pub fn resolve(&self, handle: Handle) -> (entry: Option<&Entry<V>>)
        requires
            self.wf(),
        ensures
            match entry {
                Some(entry) => self@.names(handle) && *entry == self@.named(handle),
                None => !self@.names(handle),
            },
    {
        self.entries.get(handle.index, handle.generation)
    }

    /// Keeps something else for what a handle names.
    pub fn set_value(&mut self, handle: Handle, value: V) -> (changed: bool)
        requires
            old(self).wf(),
        ensures
            final(self).wf(),
            changed == old(self)@.names(handle),
            final(self)@ == if changed {
                old(self)@.changed(handle, Entry { value, ..old(self)@.named(handle) })
            } else {
                old(self)@
            },
    {
        if self.entries.get(handle.index, handle.generation).is_none() {
            return false;
        }
        let ghost before = self@;
        let entry = self.entries.value_mut(handle.index);
        entry.value = value;
        proof {
            lemma_changed(before, handle, self@.named(handle));
        }
        true
    }

    /// What is kept for what a handle names, to be changed.
    pub fn value_mut(&mut self, handle: Handle) -> (value: &mut V)
        requires
            old(self).wf(),
            old(self)@.names(handle),
        ensures
            *value == old(self)@.named(handle).value,
            final(self).wf(),
            final(self)@ == old(self)@.changed(
                handle,
                Entry { value: *final(value), ..old(self)@.named(handle) },
            ),
    {
        proof {
            self.entries.lemma_model();
            lemma_changed_any(self@, handle);
        }
        &mut self.entries.value_mut(handle.index).value
    }

    /// Notes another place for what a handle names.
    pub fn set_position(&mut self, handle: Handle, position: Option<u32>) -> (changed: bool)
        requires
            old(self).wf(),
        ensures
            final(self).wf(),
            changed == old(self)@.names(handle),
            final(self)@ == if changed {
                old(self)@.changed(handle, Entry { position, ..old(self)@.named(handle) })
            } else {
                old(self)@
            },
    {
        if self.entries.get(handle.index, handle.generation).is_none() {
            return false;
        }
        let ghost before = self@;
        let entry = self.entries.value_mut(handle.index);
        entry.position = position;
        proof {
            lemma_changed(before, handle, self@.named(handle));
        }
        true
    }

    /// The handle of a stream, which is put there if it is not.
    pub fn or_insert(&mut self, stream_id: u64, value: V) -> (handle: Option<Handle>)
        requires
            old(self).wf(),
        ensures
            final(self).wf(),
            final(self)@ == if old(self)@.has(stream_id) || !old(self)@.has_room() {
                old(self)@
            } else {
                old(self)@.inserted(stream_id, value)
            },
            handle == (if old(self)@.has(stream_id) || old(self)@.has_room() {
                Some(final(self)@.handle(stream_id))
            } else {
                None
            }),
    {
        match self.index.find(stream_id) {
            Some(slot) => {
                return Some(Handle { index: slot, generation: self.entries.generation(slot) });
            },
            None => {},
        }
        let ghost before = self@;
        let ghost slots = self.entries@.slots.len();
        proof {
            self.entries.lemma_model();
            self.index.lemma_wf();
            lemma_room(before);
        }
        if self.len == self.capacity {
            return None;
        }
        let count: usize = self.entries.len();
        let (slot, generation) = match self.entries.take() {
            Some(taken) => taken,
            None => {
                return None;
            },
        };
        if self.entries.len() > count {
            self.index.add_slot();
        }
        proof {
            assert(!before.entries.live(slot as int));
        }
        self.entries.put(slot, Some(Entry { stream_id, value, position: None }));
        self.index.insert(stream_id, slot);
        self.len = self.len + 1;
        proof {
            lemma_inserted(before, stream_id, value);
        }
        Some(Handle { index: slot, generation })
    }

    /// Removes a stream.
    pub fn remove(&mut self, stream_id: u64) -> (removed: bool)
        requires
            old(self).wf(),
        ensures
            final(self).wf(),
            removed == old(self)@.has(stream_id),
            final(self)@ == if removed {
                old(self)@.removed(stream_id)
            } else {
                old(self)@
            },
    {
        let slot: u32 = match self.index.find(stream_id) {
            Some(slot) => slot,
            None => {
                return false;
            },
        };
        let ghost before = self@;
        proof {
            self.entries.lemma_model();
            self.index.lemma_wf();
            assert(before.entries.live(slot as int));
        }
        self.index.remove(stream_id);
        self.entries.put(slot, None);
        self.entries.release(slot);
        self.len = self.len - 1;
        proof {
            lemma_removed(before, stream_id);
        }
        true
    }
}

/// Where one more stream fits, fewer are there than the limit.
proof fn lemma_room<V>(m: TableModel<V>)
    requires
        m.sound(),
        m.index.dom().finite(),
        m.entries.slots.len() <= m.entries.limit,
        forall|k: int|
            0 <= k < m.entries.free.len() ==> 0 <= #[trigger] m.entries.free[k]
                < m.entries.slots.len() && m.entries.slots[m.entries.free[k]].value is None,
    ensures
        m.has_room() ==> m.index.len() < m.entries.limit,
{
    let slots = m.entries.slots.len() as int;
    let f = |id: u64| m.index[id];
    let used = m.index.dom().map(f);
    let range = vstd::set_lib::set_int_range(0, slots);
    assert(vstd::relations::injective_on(f, m.index.dom()));
    vstd::set_lib::lemma_map_size(m.index.dom(), used, f);
    vstd::set_lib::lemma_int_range(0, slots);
    assert forall|i: int| used.contains(i) implies m.entries.live(i) by {
        let id = choose|id: u64| m.index.dom().contains(id) && f(id) == i;
        assert(m.index.dom().contains(id));
    }
    assert(used.subset_of(range));
    vstd::set_lib::lemma_len_subset(used, range);
    if m.has_room() && m.entries.free.len() > 0 {
        let spare = m.entries.free[0];
        assert(!used.contains(spare));
        assert(used.subset_of(range.remove(spare)));
        vstd::set_lib::lemma_len_subset(used, range.remove(spare));
    }
}

/// A change of what is kept keeps the table sound.
proof fn lemma_changed<V>(m: TableModel<V>, handle: Handle, entry: Entry<V>)
    requires
        m.sound(),
        m.names(handle),
        entry.stream_id == m.named(handle).stream_id,
    ensures
        m.changed(handle, entry).sound(),
{
    let r = m.changed(handle, entry);
    assert(forall|i: int| r.entries.live(i) == m.entries.live(i));
    assert forall|id: u64| #[trigger] r.index.dom().contains(id) implies r.entries.live(
        r.index[id],
    ) && r.entries.at(r.index[id]).stream_id == id by {
        assert(m.index.dom().contains(id));
    }
    assert forall|i: int| #[trigger] r.entries.live(i) implies r.index.dom().contains(
        r.entries.at(i).stream_id,
    ) && r.index[r.entries.at(i).stream_id] == i by {
        assert(m.entries.live(i));
    }
}

/// Any change that keeps the stream number keeps the table sound.
proof fn lemma_changed_any<V>(m: TableModel<V>, handle: Handle)
    requires
        m.sound(),
        m.names(handle),
    ensures
        forall|entry: Entry<V>|
            #![trigger m.entries.put(handle.index as int, Some(entry))]
            entry.stream_id == m.named(handle).stream_id ==> m.changed(handle, entry).sound(),
{
    assert forall|entry: Entry<V>|
        #![trigger m.entries.put(handle.index as int, Some(entry))]
        entry.stream_id == m.named(handle).stream_id implies m.changed(handle, entry).sound() by {
        lemma_changed(m, handle, entry);
    }
}

proof fn lemma_inserted<V>(m: TableModel<V>, stream_id: u64, value: V)
    requires
        m.sound(),
        !m.has(stream_id),
        m.has_room(),
        !m.entries.live(m.entries.next()->0),
        0 <= m.entries.next()->0 <= m.entries.slots.len(),
        m.entries.free.len() > 0 ==> m.entries.next()->0 < m.entries.slots.len(),
    ensures
        m.inserted(stream_id, value).sound(),
{
    let slot = m.entries.next()->0;
    let r = m.inserted(stream_id, value);
    assert(forall|i: int| r.entries.live(i) == (m.entries.live(i) || i == slot));
    assert forall|id: u64| #[trigger] r.index.dom().contains(id) implies r.entries.live(
        r.index[id],
    ) && r.entries.at(r.index[id]).stream_id == id by {
        if id != stream_id {
            assert(m.index.dom().contains(id));
        }
    }
    assert forall|i: int| #[trigger] r.entries.live(i) implies r.index.dom().contains(
        r.entries.at(i).stream_id,
    ) && r.index[r.entries.at(i).stream_id] == i by {
        if i != slot {
            assert(m.entries.live(i));
        }
    }
}

proof fn lemma_removed<V>(m: TableModel<V>, stream_id: u64)
    requires
        m.sound(),
        m.has(stream_id),
    ensures
        m.removed(stream_id).sound(),
{
    let slot = m.index[stream_id];
    let r = m.removed(stream_id);
    assert(m.entries.live(slot));
    assert(forall|i: int| r.entries.live(i) == (m.entries.live(i) && i != slot));
    assert forall|id: u64| #[trigger] r.index.dom().contains(id) implies r.entries.live(
        r.index[id],
    ) && r.entries.at(r.index[id]).stream_id == id by {
        assert(m.index.dom().contains(id));
    }
    assert forall|i: int| #[trigger] r.entries.live(i) implies r.index.dom().contains(
        r.entries.at(i).stream_id,
    ) && r.index[r.entries.at(i).stream_id] == i by {
        assert(m.entries.live(i));
    }
}

/// A handle is recovered from its number.
pub proof fn law_handle_number(one: Handle, other: Handle)
    requires
        one.index < u32::MAX,
        other.index < u32::MAX,
        one.number() == other.number(),
    ensures
        one == other,
{
}

impl<V> TableModel<V> {
    /// What holds of the slots of every table.
    pub open spec fn slots_sound(self) -> bool {
        &&& self.entries.slots.len() <= self.entries.limit < u32::MAX
        &&& self.entries.free.no_duplicates()
        &&& forall|k: int|
            0 <= k < self.entries.free.len() ==> 0 <= #[trigger] self.entries.free[k]
                < self.entries.slots.len() && self.entries.slots[self.entries.free[k]].value is None
    }

    /// Whether something was done to the table: a stream was put in or removed, or
    /// something else is kept for one.
    pub open spec fn steps_to(self, next: TableModel<V>) -> bool {
        ||| next == self
        ||| exists|stream_id: u64, value: V|
            !self.has(stream_id) && self.has_room() && next == #[trigger] self.inserted(
                stream_id,
                value,
            )
        ||| exists|stream_id: u64|
            self.has(stream_id) && next == #[trigger] self.removed(stream_id)
        ||| exists|handle: Handle, entry: Entry<V>|
            self.names(handle) && entry.stream_id == self.named(handle).stream_id && next
                == #[trigger] self.changed(handle, entry)
    }

    /// Whether a handle was given up: its slot came to a later generation, or is used no
    /// more.
    spec fn spent(self, handle: Handle) -> bool {
        let i = handle.index as int;
        &&& i < self.entries.slots.len()
        &&& self.entries.slots[i].generation > handle.generation || (
        self.entries.slots[i].generation == handle.generation && self.entries.slots[i].value is None
            && !self.entries.free.contains(i))
    }
}

/// Every step keeps a table in order.
proof fn lemma_step_sound<V>(m: TableModel<V>, next: TableModel<V>)
    requires
        m.sound(),
        m.slots_sound(),
        m.steps_to(next),
    ensures
        next.sound(),
        next.slots_sound(),
{
    if next == m {
    } else if exists|stream_id: u64, value: V|
        !m.has(stream_id) && m.has_room() && next == #[trigger] m.inserted(stream_id, value) {
        let (stream_id, value) = choose|stream_id: u64, value: V|
            !m.has(stream_id) && m.has_room() && next == #[trigger] m.inserted(stream_id, value);
        if m.entries.free.len() > 0 {
            assert(0 <= m.entries.free[0] < m.entries.slots.len());
        }
        lemma_inserted(m, stream_id, value);
        let slot = m.entries.next()->0;
        assert forall|k: int| 0 <= k < next.entries.free.len() implies 0
            <= #[trigger] next.entries.free[k] < next.entries.slots.len()
            && next.entries.slots[next.entries.free[k]].value is None by {
            if m.entries.free.len() > 0 {
                assert(next.entries.free[k] == m.entries.free[k + 1]);
                assert(m.entries.free[k + 1] != m.entries.free[0]);
            } else {
                assert(next.entries.free[k] == m.entries.free[k]);
            }
        }
    } else if exists|stream_id: u64|
        m.has(stream_id) && next == #[trigger] m.removed(stream_id) {
        let stream_id = choose|stream_id: u64|
            m.has(stream_id) && next == #[trigger] m.removed(stream_id);
        lemma_removed(m, stream_id);
        let slot = m.index[stream_id];
        assert(m.entries.live(slot));
        assert forall|k: int| 0 <= k < next.entries.free.len() implies 0
            <= #[trigger] next.entries.free[k] < next.entries.slots.len()
            && next.entries.slots[next.entries.free[k]].value is None by {
            if next.entries.free.len() > m.entries.free.len() {
                if k > 0 {
                    assert(next.entries.free[k] == m.entries.free[k - 1]);
                }
            } else {
                assert(next.entries.free[k] == m.entries.free[k]);
            }
        }
        assert(!m.entries.free.contains(slot));
    } else {
        let (handle, entry) = choose|handle: Handle, entry: Entry<V>|
            m.names(handle) && entry.stream_id == m.named(handle).stream_id && next
                == #[trigger] m.changed(handle, entry);
        lemma_changed(m, handle, entry);
        assert forall|k: int| 0 <= k < next.entries.free.len() implies 0
            <= #[trigger] next.entries.free[k] < next.entries.slots.len()
            && next.entries.slots[next.entries.free[k]].value is None by {
            assert(next.entries.free[k] == m.entries.free[k]);
        }
    }
}

/// What becomes of a handle in one step: it goes on naming its stream, or it is spent; and
/// once it is, it stays so.
proof fn lemma_step_handle<V>(m: TableModel<V>, next: TableModel<V>, handle: Handle)
    requires
        m.sound(),
        m.slots_sound(),
        m.steps_to(next),
    ensures
        m.spent(handle) ==> next.spent(handle),
        m.names(handle) ==> next.spent(handle) || (next.names(handle) && next.named(
            handle,
        ).stream_id == m.named(handle).stream_id),
{
    let i = handle.index as int;
    if next == m {
    } else if exists|stream_id: u64, value: V|
        !m.has(stream_id) && m.has_room() && next == #[trigger] m.inserted(stream_id, value) {
        let (stream_id, value) = choose|stream_id: u64, value: V|
            !m.has(stream_id) && m.has_room() && next == #[trigger] m.inserted(stream_id, value);
        if m.entries.free.len() > 0 {
            assert(0 <= m.entries.free[0] < m.entries.slots.len());
            assert(m.entries.free.contains(m.entries.free[0]));
            assert forall|x: int| next.entries.free.contains(x) implies m.entries.free.contains(
                x,
            ) by {
                let k = next.entries.free.index_of(x);
                assert(m.entries.free[k + 1] == x);
            }
        }
    } else if exists|stream_id: u64|
        m.has(stream_id) && next == #[trigger] m.removed(stream_id) {
        let stream_id = choose|stream_id: u64|
            m.has(stream_id) && next == #[trigger] m.removed(stream_id);
        let slot = m.index[stream_id];
        assert(m.entries.live(slot));
        assert forall|x: int| x != slot && next.entries.free.contains(x) implies
            m.entries.free.contains(x) by {
            let k = next.entries.free.index_of(x);
            if next.entries.free.len() > m.entries.free.len() {
                assert(m.entries.free[k - 1] == x);
            }
        }
        assert(!m.entries.free.contains(slot));
    } else {
        let (other, entry) = choose|other: Handle, entry: Entry<V>|
            m.names(other) && entry.stream_id == m.named(other).stream_id && next
                == #[trigger] m.changed(other, entry);
    }
}

proof fn lemma_steps<V>(states: Seq<TableModel<V>>, handle: Handle, from: int, i: int)
    requires
        0 <= from <= i < states.len(),
        states[0].sound(),
        states[0].slots_sound(),
        forall|k: int|
            0 <= k < states.len() - 1 ==> #[trigger] states[k].steps_to(states[k + 1]),
    ensures
        states[i].sound(),
        states[i].slots_sound(),
        states[from].spent(handle) ==> states[i].spent(handle),
        states[from].names(handle) ==> states[i].spent(handle) || (states[i].names(handle)
            && states[i].named(handle).stream_id == states[from].named(handle).stream_id),
    decreases i,
{
    if i > 0 {
        let to = if from < i {
            from
        } else {
            i - 1
        };
        lemma_steps(states, handle, to, i - 1);
        assert(states[i - 1].steps_to(states[i - 1 + 1]));
        lemma_step_sound(states[i - 1], states[i]);
        lemma_step_handle(states[i - 1], states[i], handle);
    }
}

/// A handle names its stream, with what is kept for it now, for as long as the stream is
/// there, whatever else is done to the table.
pub proof fn law_handles_hold<V>(
    states: Seq<TableModel<V>>,
    stream_id: u64,
    handle: Handle,
    i: int,
)
    requires
        0 <= i < states.len(),
        states[0].sound(),
        states[0].slots_sound(),
        states[0].names(handle),
        states[0].named(handle).stream_id == stream_id,
        forall|k: int|
            0 <= k < states.len() - 1 ==> #[trigger] states[k].steps_to(states[k + 1]),
        forall|k: int| 0 <= k <= i ==> (#[trigger] states[k]).has(stream_id),
    ensures
        states[i].names(handle),
        states[i].named(handle) == states[i].get(stream_id),
        states[i].named(handle).stream_id == stream_id,
    decreases i,
{
    assert(states[i].has(stream_id));
    assert(states[0].entries.live(handle.index as int));
    if i > 0 {
        law_handles_hold(states, stream_id, handle, i - 1);
        lemma_steps(states, handle, 0, i - 1);
        let m = states[i - 1];
        let next = states[i];
        assert(m.steps_to(states[i - 1 + 1]));
        lemma_step_sound(m, next);
        lemma_kept(m, next, handle, stream_id);
        assert(next.entries.live(handle.index as int));
    }
}

/// A stream that is there before and after a step stays where it is.
proof fn lemma_kept<V>(m: TableModel<V>, next: TableModel<V>, handle: Handle, stream_id: u64)
    requires
        m.sound(),
        m.slots_sound(),
        m.steps_to(next),
        m.names(handle),
        m.named(handle).stream_id == stream_id,
        next.has(stream_id),
    ensures
        next.names(handle),
        next.named(handle).stream_id == stream_id,
{
    let i = handle.index as int;
    assert(m.entries.live(i));
    if next == m {
    } else if exists|id: u64, value: V|
        !m.has(id) && m.has_room() && next == #[trigger] m.inserted(id, value) {
        let (id, value) = choose|id: u64, value: V|
            !m.has(id) && m.has_room() && next == #[trigger] m.inserted(id, value);
        if m.entries.free.len() > 0 {
            assert(0 <= m.entries.free[0] < m.entries.slots.len());
        }
    } else if exists|id: u64| m.has(id) && next == #[trigger] m.removed(id) {
        let id = choose|id: u64| m.has(id) && next == #[trigger] m.removed(id);
        assert(id != stream_id);
        assert(m.entries.live(m.index[id]));
        assert(m.index[id] != i);
    } else {
        let (other, entry) = choose|other: Handle, entry: Entry<V>|
            m.names(other) && entry.stream_id == m.named(other).stream_id && next
                == #[trigger] m.changed(other, entry);
    }
}

/// Once its stream was removed a handle names nothing any more, whatever else is done to
/// the table: not another stream that comes to the slot, and not the same stream again.
pub proof fn law_handles_expire<V>(
    states: Seq<TableModel<V>>,
    stream_id: u64,
    handle: Handle,
    gone: int,
    i: int,
)
    requires
        0 <= gone <= i < states.len(),
        states[0].sound(),
        states[0].slots_sound(),
        states[0].names(handle),
        states[0].named(handle).stream_id == stream_id,
        forall|k: int|
            0 <= k < states.len() - 1 ==> #[trigger] states[k].steps_to(states[k + 1]),
        !states[gone].has(stream_id),
    ensures
        !states[i].names(handle),
{
    lemma_steps(states, handle, 0, gone);
    lemma_steps(states, handle, gone, i);
    if states[gone].names(handle) && !states[gone].spent(handle) {
        assert(states[gone].entries.live(handle.index as int));
    }
}

/// What is kept for each stream, seen from outside.
pub open spec fn views<V: View>(m: TableModel<V>) -> Map<u64, V::V> {
    Map::new(|id: u64| m.has(id), |id: u64| m.get(id).value@)
}

pub proof fn lemma_views_changed<V: View>(m: TableModel<V>, handle: Handle, entry: Entry<V>)
    requires
        m.sound(),
        m.names(handle),
        entry.stream_id == m.named(handle).stream_id,
    ensures
        views(m.changed(handle, entry)) == views(m).insert(entry.stream_id, entry.value@),
{
    let r = m.changed(handle, entry);
    let i = handle.index as int;
    assert(m.entries.live(i));
    assert forall|id: u64| r.has(id) implies #[trigger] r.get(id) == if id == entry.stream_id {
        entry
    } else {
        m.get(id)
    } by {
        assert(m.index.dom().contains(id));
        assert(m.entries.live(m.index[id]));
    }
    assert(views(r) =~= views(m).insert(entry.stream_id, entry.value@));
}

pub proof fn lemma_views_inserted<V: View>(m: TableModel<V>, stream_id: u64, value: V)
    requires
        m.sound(),
        !m.has(stream_id),
        m.has_room(),
        0 <= m.entries.next()->0 <= m.entries.slots.len(),
        m.entries.free.len() > 0 ==> m.entries.next()->0 < m.entries.slots.len(),
        !m.entries.live(m.entries.next()->0),
    ensures
        views(m.inserted(stream_id, value)) == views(m).insert(stream_id, value@),
{
    let r = m.inserted(stream_id, value);
    assert forall|id: u64| r.has(id) && id != stream_id implies #[trigger] r.get(id) == m.get(
        id,
    ) by {
        assert(m.index.dom().contains(id));
        assert(m.entries.live(m.index[id]));
    }
    assert(views(r) =~= views(m).insert(stream_id, value@));
}

pub proof fn lemma_views_removed<V: View>(m: TableModel<V>, stream_id: u64)
    requires
        m.sound(),
        m.has(stream_id),
    ensures
        views(m.removed(stream_id)) == views(m).remove(stream_id),
{
    let r = m.removed(stream_id);
    assert forall|id: u64| r.has(id) implies #[trigger] r.get(id) == m.get(id) by {
        assert(m.index.dom().contains(id));
        assert(m.entries.live(m.index[id]));
        assert(m.entries.live(m.index[stream_id]));
        assert(m.index[id] != m.index[stream_id]);
    }
    assert(views(r) =~= views(m).remove(stream_id));
}

/// The weights of what is kept in the first slots, added up.
pub open spec fn weigh<V>(slots: Seq<Slot<Entry<V>>>, weight: spec_fn(V) -> int, count: int) -> int
    decreases count,
{
    if count <= 0 {
        0
    } else {
        weigh(slots, weight, count - 1) + weight_of(slots[count - 1], weight)
    }
}

pub open spec fn weight_of<V>(slot: Slot<Entry<V>>, weight: spec_fn(V) -> int) -> int {
    match slot.value {
        Some(entry) => weight(entry.value),
        None => 0,
    }
}

/// The weight of all that is kept.
pub open spec fn total_weight<V>(m: TableModel<V>, weight: spec_fn(V) -> int) -> int {
    weigh(m.entries.slots, weight, m.entries.slots.len() as int)
}

proof fn lemma_weigh_update<V>(
    slots: Seq<Slot<Entry<V>>>,
    weight: spec_fn(V) -> int,
    i: int,
    slot: Slot<Entry<V>>,
    count: int,
)
    requires
        0 <= i < slots.len(),
        count <= slots.len(),
    ensures
        weigh(slots.update(i, slot), weight, count) == weigh(slots, weight, count) + if i < count {
            weight_of(slot, weight) - weight_of(slots[i], weight)
        } else {
            0
        },
    decreases count,
{
    if count > 0 {
        lemma_weigh_update(slots, weight, i, slot, count - 1);
    }
}

proof fn lemma_weigh_push<V>(
    slots: Seq<Slot<Entry<V>>>,
    weight: spec_fn(V) -> int,
    slot: Slot<Entry<V>>,
    count: int,
)
    requires
        count <= slots.len(),
    ensures
        weigh(slots.push(slot), weight, count) == weigh(slots, weight, count),
    decreases count,
{
    if count > 0 {
        lemma_weigh_push(slots, weight, slot, count - 1);
    }
}

pub proof fn lemma_weight_changed<V>(
    m: TableModel<V>,
    weight: spec_fn(V) -> int,
    handle: Handle,
    entry: Entry<V>,
)
    requires
        m.names(handle),
    ensures
        total_weight(m.changed(handle, entry), weight) == total_weight(m, weight) + weight(
            entry.value,
        ) - weight(m.named(handle).value),
{
    let i = handle.index as int;
    let r = m.changed(handle, entry);
    lemma_weigh_update(
        m.entries.slots,
        weight,
        i,
        r.entries.slots[i],
        m.entries.slots.len() as int,
    );
}

pub proof fn lemma_weight_inserted<V>(
    m: TableModel<V>,
    weight: spec_fn(V) -> int,
    stream_id: u64,
    value: V,
)
    requires
        m.has_room(),
        0 <= m.entries.next()->0 <= m.entries.slots.len(),
        m.entries.free.len() > 0 ==> m.entries.next()->0 < m.entries.slots.len(),
        !m.entries.live(m.entries.next()->0),
    ensures
        total_weight(m.inserted(stream_id, value), weight) == total_weight(m, weight) + weight(
            value,
        ),
{
    let slot = m.entries.next()->0;
    let r = m.inserted(stream_id, value);
    let count = m.entries.slots.len() as int;
    if m.entries.free.len() > 0 {
        assert(r.entries.slots =~= m.entries.slots.update(slot, r.entries.slots[slot]));
        lemma_weigh_update(m.entries.slots, weight, slot, r.entries.slots[slot], count);
    } else {
        assert(r.entries.slots =~= m.entries.slots.push(r.entries.slots[slot]));
        lemma_weigh_push(m.entries.slots, weight, r.entries.slots[slot], count);
    }
}

pub proof fn lemma_weight_removed<V>(m: TableModel<V>, weight: spec_fn(V) -> int, stream_id: u64)
    requires
        m.sound(),
        m.has(stream_id),
    ensures
        total_weight(m.removed(stream_id), weight) == total_weight(m, weight) - weight(
            m.get(stream_id).value,
        ),
{
    let slot = m.index[stream_id];
    assert(m.entries.live(slot));
    let r = m.removed(stream_id);
    assert(r.entries.slots =~= m.entries.slots.update(slot, r.entries.slots[slot]));
    lemma_weigh_update(
        m.entries.slots,
        weight,
        slot,
        r.entries.slots[slot],
        m.entries.slots.len() as int,
    );
}

/// One part is no heavier than all, where nothing has a negative weight.
pub proof fn lemma_weight_part<V>(m: TableModel<V>, weight: spec_fn(V) -> int, stream_id: u64)
    requires
        m.sound(),
        m.has(stream_id),
        forall|value: V| #[trigger] weight(value) >= 0,
    ensures
        weight(m.get(stream_id).value) <= total_weight(m, weight),
{
    let slot = m.index[stream_id];
    assert(m.entries.live(slot));
    lemma_weigh_part(m.entries.slots, weight, slot, m.entries.slots.len() as int);
}

proof fn lemma_weigh_part<V>(
    slots: Seq<Slot<Entry<V>>>,
    weight: spec_fn(V) -> int,
    i: int,
    count: int,
)
    requires
        0 <= count <= slots.len(),
        0 <= i,
        forall|value: V| #[trigger] weight(value) >= 0,
    ensures
        0 <= weigh(slots, weight, count),
        i < count ==> weight_of(slots[i], weight) <= weigh(slots, weight, count),
    decreases count,
{
    if count > 0 {
        lemma_weigh_part(slots, weight, i, count - 1);
        match slots[count - 1].value {
            Some(entry) => {
                assert(weight(entry.value) >= 0);
            },
            None => {},
        }
    }
}

} // verus!
