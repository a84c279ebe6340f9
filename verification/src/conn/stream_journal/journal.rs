//! The journal of stream records.
use vstd::prelude::*;

use crate::conn::links::{is_linked, lemma_total, total, Lists};
use crate::conn::arena::Arena;
use crate::conn::send::Sender;
use crate::conn::stream_journal::model::{
    active_total, after, Group, GroupId, Handle, JournalModel, Node, SendHandle, Stream,
};
use crate::conn::stream_journal::sound::{
    lemma_active_part, lemma_cancelled, lemma_discard, lemma_holds, lemma_reclaimed,
    lemma_release_group, lemma_requeue, lemma_resend, lemma_rotated, lemma_settled,
    lemma_settled_shape, lemma_turned, lemma_with_carriers, lemma_with_group, lemma_with_record,
};

verus! {

/// One owner, of fixed capacity, of the stream records that are in flight, that
/// have to be sent again, or that are acknowledged while bytes before them are
/// not.
///
/// Cancelling a stream takes its group out of use at once. Its records stay
/// reachable by their handles until they are acknowledged or lost, but their
/// slots are used again where room is needed.
pub struct Journal {
    nodes: Arena<Node>,
    groups: Arena<Group>,
    all: Lists,
    retry: Lists,
    inflight: Lists,
    retry_groups: Lists,
    reclaim_groups: Lists,
    probe_groups: Lists,
    cursor_group: Option<u32>,
    cursor_node: Option<u32>,
    active: usize,
    limit: usize,
}

/// A group whose first records can be released.
pub struct Acknowledged {
    pub group: GroupId,
}

/// The first records of a group are not the bytes that a stream waits for.
#[derive(Debug)]
pub struct InvalidPrefix;

/// How many records may still be looked at while one packet is built.
pub struct RetryWork {
    pub remaining: usize,
}

impl RetryWork {
    pub fn new(remaining: usize) -> (work: RetryWork)
        ensures
            work.remaining == remaining,
    {
        RetryWork { remaining }
    }

    fn spend(&mut self) -> (spent: bool)
        ensures
            spent == (old(self).remaining > 0),
            final(self).remaining == if spent {
                old(self).remaining - 1
            } else {
                0
            },
    {
        if self.remaining == 0 {
            return false;
        }
        self.remaining = self.remaining - 1;
        true
    }
}

/// A number as the model has it.
pub open spec fn number(x: Option<u32>) -> Option<int> {
    match x {
        Some(x) => Some(x as int),
        None => None,
    }
}

impl View for Journal {
    type V = JournalModel;

    closed spec fn view(&self) -> JournalModel {
        JournalModel {
            nodes: self.nodes@,
            groups: self.groups@,
            all: self.all@,
            retry: self.retry@,
            inflight: self.inflight@,
            retry_groups: self.retry_groups@[0],
            reclaim_groups: self.reclaim_groups@[0],
            probe_groups: self.probe_groups@[0],
            cursor_group: number(self.cursor_group),
            cursor_node: number(self.cursor_node),
            active: self.active as int,
            limit: self.limit as int,
        }
    }
}

impl Journal {
    /// The parts fit together.
    spec fn built(&self) -> bool {
        &&& self.nodes.wf()
        &&& self.groups.wf()
        &&& self.all.wf()
        &&& self.retry.wf()
        &&& self.inflight.wf()
        &&& self.retry_groups.wf()
        &&& self.reclaim_groups.wf()
        &&& self.probe_groups.wf()
        &&& self.all.size() == self.nodes@.slots.len()
        &&& self.retry.size() == self.nodes@.slots.len()
        &&& self.inflight.size() == self.nodes@.slots.len()
        &&& self.all@.len() == self.groups@.slots.len()
        &&& self.retry@.len() == self.groups@.slots.len()
        &&& self.inflight@.len() == self.groups@.slots.len()
        &&& self.retry_groups.size() == self.groups@.slots.len()
        &&& self.reclaim_groups.size() == self.groups@.slots.len()
        &&& self.probe_groups.size() == self.groups@.slots.len()
        &&& self.retry_groups@.len() == 1
        &&& self.reclaim_groups@.len() == 1
        &&& self.probe_groups@.len() == 1
        &&& self.nodes@.limit == self.limit
        &&& self.groups@.limit == self.limit
    }

    pub closed spec fn wf(&self) -> bool {
        self.built() && self@.sound()
    }

    /// Every state of a journal is sound.
    pub proof fn lemma_wf(&self)
        requires
            self.wf(),
        ensures
            self@.sound(),
            self@.shaped(),
    {
        self.lemma_built();
    }

    proof fn lemma_built(&self)
        requires
            self.built(),
        ensures
            self@.shaped(),
    {
        self.nodes.lemma_model();
        self.groups.lemma_model();
        self.all.lemma_apart();
        self.retry.lemma_apart();
        self.inflight.lemma_apart();
        self.retry_groups.lemma_apart();
        self.reclaim_groups.lemma_apart();
        self.probe_groups.lemma_apart();
    }

    /// An empty journal.
    pub fn new(capacity: usize) -> (journal: Journal)
        requires
            capacity < u32::MAX,
        ensures
            journal.wf(),
            journal@.limit == capacity,
            journal@.active == 0,
            forall|i: int| !journal@.nodes.live(i),
            forall|g: int| !journal@.groups.live(g),
            journal@.retry_groups.len() == 0,
            journal@.reclaim_groups.len() == 0,
            journal@.probe_groups.len() == 0,
            journal@.cursor_group is None,
    {
        let mut retry_groups = Lists::new();
        retry_groups.add_list();
        let mut reclaim_groups = Lists::new();
        reclaim_groups.add_list();
        let mut probe_groups = Lists::new();
        probe_groups.add_list();
        Journal {
            nodes: Arena::new(capacity, u32::MAX),
            groups: Arena::new(capacity, u32::MAX),
            all: Lists::new(),
            retry: Lists::new(),
            inflight: Lists::new(),
            retry_groups,
            reclaim_groups,
            probe_groups,
            cursor_group: None,
            cursor_node: None,
            active: 0,
            limit: capacity,
        }
    }

    /// Whether so many more records are within the limit.
    pub fn has_room(&self, needed: usize) -> (room: bool)
        ensures
            room == (self@.active + needed <= self@.limit || (self@.active + needed > usize::MAX
                && self@.limit == usize::MAX)),
    {
        self.active.saturating_add(needed) <= self.limit
    }

    /// Whether something has to be sent again.
    pub fn has_retransmit(&self) -> (retransmit: bool)
        requires
            self.wf(),
        ensures
            retransmit == (self@.retry_groups.len() > 0),
    {
        self.retry_groups.head(0).is_some()
    }

    fn link_retry_group(&mut self, g: u32)
        requires
            old(self).built(),
            g < old(self)@.groups.slots.len(),
        ensures
            final(self).built(),
            final(self)@ == old(self)@.link_retry_group(g as int),
    {
        proof {
            assert(is_linked(self.retry_groups@, g as int) ==> self.retry_groups@[0].contains(
                g as int,
            ));
        }
        if self.retry_groups.linked(g) {
            return;
        }
        self.retry_groups.push_back(0, g);
    }

    fn unlink_retry_group(&mut self, g: u32)
        requires
            old(self).built(),
            g < old(self)@.groups.slots.len(),
        ensures
            final(self).built(),
            final(self)@ == old(self)@.unlink_retry_group(g as int),
    {
        if !self.retry_groups.linked(g) {
            assert(!self.retry_groups@[0].contains(g as int));
            return;
        }
        self.retry_groups.remove(0, g);
    }

    fn link_reclaim_group(&mut self, g: u32)
        requires
            old(self).built(),
            g < old(self)@.groups.slots.len(),
        ensures
            final(self).built(),
            final(self)@ == old(self)@.link_reclaim_group(g as int),
    {
        if self.reclaim_groups.linked(g) {
            return;
        }
        assert(!self.reclaim_groups@[0].contains(g as int));
        self.reclaim_groups.push_back(0, g);
    }

    fn unlink_reclaim_group(&mut self, g: u32)
        requires
            old(self).built(),
            g < old(self)@.groups.slots.len(),
        ensures
            final(self).built(),
            final(self)@ == old(self)@.unlink_reclaim_group(g as int),
    {
        if !self.reclaim_groups.linked(g) {
            assert(!self.reclaim_groups@[0].contains(g as int));
            return;
        }
        self.reclaim_groups.remove(0, g);
    }

    fn link_probe_group(&mut self, g: u32)
        requires
            old(self).built(),
            g < old(self)@.groups.slots.len(),
        ensures
            final(self).built(),
            final(self)@ == old(self)@.link_probe_group(g as int),
    {
        if self.probe_groups.linked(g) {
            return;
        }
        assert(!self.probe_groups@[0].contains(g as int));
        self.probe_groups.push_back(0, g);
    }

    /// Moves the walk to the group after one.
    fn cursor_past(&mut self, g: u32)
        requires
            old(self).built(),
            old(self)@.probe_groups.contains(g as int),
        ensures
            final(self).built(),
            final(self)@ == old(self)@.cursor_past(g as int),
    {
        let next = self.probe_groups.next(0, g);
        self.cursor_group = next;
        self.cursor_node = match next {
            Some(next) => self.inflight.head(next),
            None => None,
        };
    }

    fn unlink_probe_group(&mut self, g: u32)
        requires
            old(self).built(),
            g < old(self)@.groups.slots.len(),
        ensures
            final(self).built(),
            final(self)@ == old(self)@.unlink_probe_group(g as int),
    {
        if !self.probe_groups.linked(g) {
            assert(!self.probe_groups@[0].contains(g as int));
            return;
        }
        if self.cursor_group == Some(g) {
            self.cursor_past(g);
        }
        self.probe_groups.remove(0, g);
    }

    fn link_retry(&mut self, g: u32, i: u32)
        requires
            old(self).built(),
            g < old(self)@.groups.slots.len(),
            i < old(self)@.nodes.slots.len(),
            !is_linked(old(self)@.retry, i as int),
        ensures
            final(self).built(),
            final(self)@ == old(self)@.link_retry(g as int, i as int),
    {
        let was_empty = self.retry.head(g).is_none();
        self.retry.push_back(g, i);
        if was_empty {
            self.link_retry_group(g);
        }
    }

    fn unlink_retry(&mut self, g: u32, i: u32)
        requires
            old(self).built(),
            g < old(self)@.groups.slots.len(),
            old(self)@.retry[g as int].contains(i as int),
        ensures
            final(self).built(),
            final(self)@ == old(self)@.unlink_retry(g as int, i as int),
    {
        self.retry.remove(g, i);
        if self.retry.head(g).is_none() {
            self.unlink_retry_group(g);
        }
    }

    fn link_inflight(&mut self, g: u32, i: u32)
        requires
            old(self).built(),
            g < old(self)@.groups.slots.len(),
            i < old(self)@.nodes.slots.len(),
            !is_linked(old(self)@.inflight, i as int),
        ensures
            final(self).built(),
            final(self)@ == old(self)@.link_inflight(g as int, i as int),
    {
        let was_empty = self.inflight.head(g).is_none();
        self.inflight.push_back(g, i);
        if was_empty {
            self.link_probe_group(g);
        }
    }

    fn unlink_inflight(&mut self, g: u32, i: u32)
        requires
            old(self).built(),
            g < old(self)@.groups.slots.len(),
            old(self)@.inflight[g as int].contains(i as int),
        ensures
            final(self).built(),
            final(self)@ == old(self)@.unlink_inflight(g as int, i as int),
    {
        if self.cursor_group == Some(g) && self.cursor_node == Some(i) {
            self.cursor_node = self.inflight.next(g, i);
        }
        self.inflight.remove(g, i);
        if self.inflight.head(g).is_none() {
            self.unlink_probe_group(g);
        }
    }

    fn release_group(&mut self, g: u32)
        requires
            old(self).built(),
            old(self)@.groups.live(g as int),
        ensures
            final(self).built(),
            final(self)@ == old(self)@.release_group(g as int),
    {
        proof {
            self.lemma_built();
            assert(!self@.groups.free.contains(g as int));
        }
        self.unlink_retry_group(g);
        self.unlink_probe_group(g);
        self.unlink_reclaim_group(g);
        self.groups.put(g, None);
        self.groups.release(g);
    }

    /// Sets how many packets carry a record.
    fn set_carriers(&mut self, i: u32, carriers: u16)
        requires
            old(self).built(),
            old(self)@.nodes.live(i as int),
        ensures
            final(self).built(),
            final(self)@ == old(self)@.with_carriers(i as int, carriers),
    {
        proof {
            self.lemma_built();
            assert(!self@.nodes.free.contains(i as int));
        }
        let node = self.nodes.value(i);
        self.nodes.put(i, Some(Node { carriers, ..node }));
    }

    fn set_len(&mut self, g: u32, len: usize)
        requires
            old(self).built(),
            old(self)@.groups.live(g as int),
        ensures
            final(self).built(),
            final(self)@ == old(self)@.resized(g as int, len),
    {
        proof {
            self.lemma_built();
            assert(!self@.groups.free.contains(g as int));
        }
        let group = self.groups.value(g);
        self.groups.put(g, Some(Group { len, ..group }));
    }

    /// Takes a record out of the lists of what is to be delivered.
    fn settle(&mut self, i: u32)
        requires
            old(self).wf(),
            old(self)@.nodes.live(i as int),
        ensures
            final(self).built(),
            final(self)@ == old(self)@.settled(i as int),
    {
        proof {
            self.lemma_wf();
            assert(self@.node_sound(i as int));
            lemma_linked(self@, i as int);
        }
        let g: u32 = self.nodes.value(i).group.index;
        if self.retry.linked(i) {
            self.unlink_retry(g, i);
        }
        if self.inflight.linked(i) {
            self.unlink_inflight(g, i);
        }
    }

    fn discard_node(&mut self, i: u32, active: bool)
        requires
            old(self).wf(),
            old(self)@.nodes.live(i as int),
            active == old(self)@.is_active(old(self)@.group_of(i as int)),
        ensures
            final(self).wf(),
            final(self)@ == old(self)@.discard(i as int, active),
    {
        let ghost m = self@;
        let g: u32 = self.nodes.value(i).group.index;
        proof {
            self.lemma_wf();
            assert(m.node_sound(i as int));
            assert(m.all[g as int].contains(i as int));
            assert(m.group_sound(g as int));
            assert(!m.nodes.free.contains(i as int));
            lemma_discard(m, i as int, active);
            lemma_settled_shape(m, i as int);
            if active {
                lemma_active_part(m.groups.slots, g as int, m.groups.slots.len() as int);
            }
        }
        self.settle(i);
        self.all.remove(g, i);
        let len: usize = self.groups.value(g).len;
        self.set_len(g, len - 1);
        self.nodes.put(i, None);
        if active {
            self.active = self.active - 1;
        }
        self.nodes.release(i);
        if len - 1 == 0 {
            self.release_group(g);
        }
    }

    /// Gives up the oldest record of a cancelled group.
    fn reclaim_one(&mut self) -> (reclaimed: bool)
        requires
            old(self).wf(),
        ensures
            final(self).wf(),
            final(self)@ == old(self)@.reclaimed(),
            reclaimed == (old(self)@.reclaim_groups.len() > 0),
    {
        proof {
            self.lemma_wf();
        }
        match self.reclaim_groups.head(0) {
            Some(g) => {
                proof {
                    assert(self@.reclaim_groups.contains(g as int));
                    assert(self@.group_sound(g as int));
                    let i = self@.all[g as int][0];
                    assert(self@.all[g as int].contains(i));
                    assert(self@.listed_sound(g as int, i));
                }
                match self.all.head(g) {
                    Some(i) => {
                        self.discard_node(i, false);
                    },
                    None => {},
                }
                true
            },
            None => false,
        }
    }

    /// Makes a slot for a group.
    fn take_group(&mut self) -> (result: Option<(u32, u32)>)
        requires
            old(self).built(),
        ensures
            final(self).built(),
            final(self)@ == old(self)@.with_group_slot(),
            match result {
                Some((g, generation)) => {
                    &&& old(self)@.groups.next() == Some(g as int)
                    &&& g < final(self)@.groups.slots.len()
                    &&& generation == final(self)@.groups.slots[g as int].generation
                    &&& final(self)@.groups.slots[g as int].value is None
                    &&& !final(self)@.groups.free.contains(g as int)
                },
                None => old(self)@.groups.next() is None,
            },
    {
        let before: usize = self.groups.len();
        let taken = self.groups.take();
        if self.groups.len() > before {
            proof {
                self.groups.lemma_model();
            }
            self.all.add_list();
            self.retry.add_list();
            self.inflight.add_list();
            self.retry_groups.add_element();
            self.reclaim_groups.add_element();
            self.probe_groups.add_element();
        }
        taken
    }

    /// Finds the group of a stream, or makes one.
    fn ensure_group(&mut self, owner: SendHandle, known: &mut Option<GroupId>) -> (result: Option<
        GroupId,
    >)
        requires
            old(self).wf(),
        ensures
            final(self).wf(),
            (final(self)@, result) == old(self)@.ensured(owner, *old(known)),
            *final(known) == result,
            result matches Some(id) ==> final(self)@.owned(id, owner),
    {
        proof {
            self.lemma_wf();
        }
        match *known {
            Some(id) => {
                match self.group(id) {
                    Some(group) => {
                        if group.active && group.owner == owner {
                            return Some(id);
                        }
                    },
                    None => {},
                }
            },
            None => {},
        }
        *known = None;
        let ghost m = self@;
        assert(m.ensured(owner, *old(known)) == m.ensured(owner, None));
        let mut taken = self.take_group();
        if taken.is_none() {
            assert(self@ =~= m);
            if !self.reclaim_one() {
                return None;
            }
            proof {
                self.lemma_wf();
            }
            taken = self.take_group();
        }
        let ghost roomy = m.group_room();
        proof {
            if m.groups.next() is None {
                lemma_reclaimed(m);
            }
        }
        match taken {
            Some((index, generation)) => {
                proof {
                    lemma_with_group(roomy, owner);
                }
                self.groups.put(index, Some(Group { owner, active: true, len: 0 }));
                let id = GroupId { index, generation };
                *known = Some(id);
                Some(id)
            },
            None => None,
        }
    }

    /// The group that an identity names.
    fn group(&self, id: GroupId) -> (group: Option<Group>)
        requires
            self.built(),
        ensures
            match group {
                Some(group) => self@.names(id) && group == self@.groups.at(id.index as int),
                None => !self@.names(id),
            },
    {
        match self.groups.get(id.index, id.generation) {
            Some(group) => Some(*group),
            None => None,
        }
    }

    /// Makes a slot for a record, where need be in place of one of a cancelled
    /// group.
    fn take_node(&mut self) -> (result: Option<u32>)
        requires
            old(self).wf(),
        ensures
            final(self).built(),
            match result {
                Some(i) => {
                    let roomy = old(self)@.node_room();
                    &&& roomy.sound()
                    &&& roomy.shaped()
                    &&& roomy.nodes.next() == Some(i as int)
                    &&& final(self)@ == (JournalModel { nodes: roomy.nodes.taken(), ..roomy })
                    &&& i < final(self)@.nodes.slots.len()
                    &&& final(self)@.nodes.slots[i as int].value is None
                    &&& !final(self)@.nodes.free.contains(i as int)
                },
                None => {
                    &&& final(self).wf()
                    &&& final(self)@ == old(self)@.node_room()
                    &&& old(self)@.node_room().nodes.next() is None
                },
            },
    {
        proof {
            self.lemma_wf();
        }
        let ghost m = self@;
        let mut taken = self.take_node_slot();
        if taken.is_none() {
            assert(self@ =~= m);
            if !self.reclaim_one() {
                return None;
            }
            proof {
                self.lemma_wf();
            }
            let ghost roomy = self@;
            taken = self.take_node_slot();
            proof {
                if taken is None {
                    assert(self@ =~= roomy);
                }
            }
        }
        taken
    }

    fn take_node_slot(&mut self) -> (result: Option<u32>)
        requires
            old(self).built(),
        ensures
            final(self).built(),
            final(self)@ == (JournalModel { nodes: old(self)@.nodes.taken(), ..old(self)@ }),
            match result {
                Some(i) => {
                    &&& old(self)@.nodes.next() == Some(i as int)
                    &&& i < final(self)@.nodes.slots.len()
                    &&& final(self)@.nodes.slots[i as int].value is None
                    &&& !final(self)@.nodes.free.contains(i as int)
                },
                None => old(self)@.nodes.next() is None,
            },
    {
        let before: usize = self.nodes.len();
        let taken = self.nodes.take();
        if self.nodes.len() > before {
            proof {
                self.nodes.lemma_model();
            }
            self.all.add_element();
            self.retry.add_element();
            self.inflight.add_element();
        }
        match taken {
            Some((i, generation)) => Some(i),
            None => None,
        }
    }

    /// Puts a new record in flight, for a stream whose group is `owner`.
    pub fn insert(
        &mut self,
        send_handle: SendHandle,
        owner: &mut Option<GroupId>,
        record: Stream,
    ) -> (result: Option<Handle>)
        requires
            old(self).wf(),
        ensures
            final(self).wf(),
            (final(self)@, *final(owner), result) == old(self)@.inserted(
                send_handle,
                *old(owner),
                record,
            ),
    {
        let ghost m = self@;
        let id = match self.ensure_group(send_handle, owner) {
            Some(id) => id,
            None => {
                return None;
            },
        };
        let ghost grouped = self@;
        proof {
            self.lemma_wf();
            if grouped.nodes.next() is None {
                lemma_reclaimed(grouped);
                assert(grouped.reclaimed().owned(id, send_handle));
            }
            assert(grouped.node_room().owned(id, send_handle));
        }
        let g: u32 = id.index;
        let i: u32 = match self.take_node() {
            Some(i) => i,
            None => {
                let len: usize = self.groups.value(g).len;
                if len == 0 {
                    proof {
                        self.lemma_wf();
                        assert(self@.group_sound(g as int));
                        lemma_release_group(self@, g as int);
                    }
                    self.release_group(g);
                    *owner = None;
                }
                return None;
            },
        };
        let ghost roomy = grouped.node_room();
        proof {
            assert(roomy.group_sound(g as int));
            self.lemma_counted(roomy);
            lemma_with_record(roomy, id, record);
            lemma_unlinked(roomy, i as int);
        }
        self.nodes.put(i, Some(Node { group: id, record, carriers: 1 }));
        self.all.push_back(g, i);
        let len: usize = self.groups.value(g).len;
        self.set_len(g, len + 1);
        self.link_inflight(g, i);
        self.active = self.active + 1;
        Some(Handle { index: i, generation: self.generation(i) })
    }

    /// Takes a stream's records out of use.
    pub fn cancel(&mut self, id: GroupId)
        requires
            old(self).wf(),
        ensures
            final(self).wf(),
            final(self)@ == old(self)@.cancelled(id),
    {
        proof {
            self.lemma_wf();
            lemma_cancelled(self@, id);
        }
        let group = match self.group(id) {
            Some(group) => group,
            None => {
                return;
            },
        };
        if !group.active {
            return;
        }
        let g: u32 = id.index;
        proof {
            assert(self@.group_sound(g as int));
            assert(!self@.groups.free.contains(g as int));
            lemma_active_part(self@.groups.slots, g as int, self@.groups.slots.len() as int);
        }
        self.unlink_retry_group(g);
        self.unlink_probe_group(g);
        self.groups.put(g, Some(Group { active: false, ..group }));
        self.active = self.active - group.len;
        if group.len == 0 {
            self.release_group(g);
        } else {
            self.link_reclaim_group(g);
        }
    }

    /// The slot of a record that a handle names and that is not acknowledged.
    fn validate_node(&self, handle: Handle) -> (result: Option<u32>)
        requires
            self.wf(),
        ensures
            match result {
                Some(i) => self@.valid(handle) && i == handle.index,
                None => !self@.valid(handle),
            },
    {
        match self.nodes.get(handle.index, handle.generation) {
            Some(node) => {
                proof {
                    self.lemma_wf();
                    lemma_linked(self@, handle.index as int);
                }
                let acknowledged = node.carriers == 0 && !self.retry.linked(handle.index)
                    && !self.inflight.linked(handle.index);
                if acknowledged {
                    None
                } else {
                    Some(handle.index)
                }
            },
            None => None,
        }
    }

    /// Notes that a record arrived. Tells the group whose first records can now
    /// be released, if there is one.
    pub fn acknowledge(&mut self, handle: Handle) -> (result: Option<Acknowledged>)
        requires
            old(self).wf(),
        ensures
            final(self).wf(),
            final(self)@ == old(self)@.with_acknowledged(handle),
            match result {
                Some(acknowledged) => {
                    let id = old(self)@.node(handle.index as int).group;
                    &&& acknowledged.group == id
                    &&& old(self)@.valid(handle)
                    &&& old(self)@.is_active(id.index as int)
                    &&& final(self)@.is_active(id.index as int)
                    &&& final(self)@.names(id)
                    &&& final(self)@.lead(id.index as int, 0) > 0
                },
                None => !old(self)@.valid(handle) || !old(self)@.is_active(
                    old(self)@.group_of(handle.index as int),
                ) || final(self)@.lead(old(self)@.group_of(handle.index as int), 0) == 0,
            },
    {
        let ghost m = self@;
        let i: u32 = match self.validate_node(handle) {
            Some(i) => i,
            None => {
                return None;
            },
        };
        proof {
            self.lemma_wf();
            assert(m.node_sound(i as int));
        }
        let id = self.nodes.value(i).group;
        let active = match self.group(id) {
            Some(group) => group.active,
            None => false,
        };
        if !active {
            self.discard_node(i, false);
            return None;
        }
        proof {
            lemma_settled(m, i as int);
            lemma_settled_shape(m, i as int);
        }
        self.settle(i);
        self.set_carriers(i, 0);
        let g: u32 = id.index;
        proof {
            self.lemma_wf();
            assert(self@.nodes.live(i as int));
            assert(self@.node_sound(i as int));
            assert(self@.all[g as int].contains(i as int));
        }
        match self.all.head(g) {
            Some(head) => {
                proof {
                    assert(self@.all[g as int].contains(head as int));
                    assert(self@.listed_sound(g as int, head as int));
                    lemma_linked(self@, head as int);
                    self.lemma_lead(g as int, 1);
                }
                let node = self.nodes.value(head);
                let acknowledged = node.carriers == 0 && !self.retry.linked(head)
                    && !self.inflight.linked(head);
                if acknowledged {
                    Some(Acknowledged { group: id })
                } else {
                    None
                }
            },
            None => None,
        }
    }

    /// A lead is not negative and ends in the list.
    proof fn lemma_lead(&self, g: int, from: int)
        requires
            0 <= from,
        ensures
            0 <= self@.lead(g, from),
            from <= self@.all[g].len() ==> from + self@.lead(g, from) <= self@.all[g].len(),
        decreases self@.all[g].len() - from,
    {
        if from < self@.all[g].len() {
            self.lemma_lead(g, from + 1);
        }
    }

    /// Gives up the stream of a record whose owner is gone.
    pub fn discard_group(&mut self, handle: Handle)
        requires
            old(self).wf(),
        ensures
            final(self).wf(),
            final(self)@ == old(self)@.without_group(handle),
    {
        let i: u32 = match self.validate_node(handle) {
            Some(i) => i,
            None => {
                return;
            },
        };
        proof {
            self.lemma_wf();
            assert(self@.node_sound(i as int));
        }
        let id = self.nodes.value(i).group;
        let active = match self.group(id) {
            Some(group) => group.active,
            None => false,
        };
        if active {
            self.cancel(id);
        } else {
            self.discard_node(i, false);
        }
    }

    /// Notes that a packet that carries a record was lost.
    pub fn lose(&mut self, handle: Handle)
        requires
            old(self).wf(),
        ensures
            final(self).wf(),
            final(self)@ == old(self)@.with_lost(handle),
    {
        let ghost m = self@;
        let i: u32 = match self.validate_node(handle) {
            Some(i) => i,
            None => {
                return;
            },
        };
        proof {
            self.lemma_wf();
            assert(m.node_sound(i as int));
            lemma_linked(m, i as int);
        }
        let node = self.nodes.value(i);
        let g: u32 = node.group.index;
        let active = match self.group(node.group) {
            Some(group) => group.active,
            None => false,
        };
        if !active {
            self.discard_node(i, false);
            return;
        }
        if node.carriers > 1 {
            proof {
                lemma_with_carriers(m, i as int, (node.carriers - 1) as u16);
            }
            self.set_carriers(i, node.carriers - 1);
            return;
        }
        if node.carriers == 0 {
            return;
        }
        proof {
            lemma_requeue(m, i as int);
        }
        self.set_carriers(i, 0);
        self.unlink_inflight(g, i);
        self.link_retry(g, i);
    }

    /// Notes that one more packet carries a record.
    pub fn add_carrier(&mut self, handle: Handle) -> (carried: bool)
        requires
            old(self).wf(),
        ensures
            final(self).wf(),
            final(self)@ == old(self)@.with_carrier(handle),
            carried == old(self)@.carries(handle),
    {
        let ghost m = self@;
        let i: u32 = match self.validate_node(handle) {
            Some(i) => i,
            None => {
                return false;
            },
        };
        proof {
            self.lemma_wf();
            assert(m.node_sound(i as int));
            lemma_linked(m, i as int);
        }
        let node = self.nodes.value(i);
        let g: u32 = node.group.index;
        let active = match self.group(node.group) {
            Some(group) => group.active,
            None => false,
        };
        if !active {
            self.discard_node(i, false);
            return false;
        }
        if self.retry.linked(i) {
            proof {
                lemma_resend(m, i as int);
                assert(m.node(i as int).carriers == 0);
            }
            self.unlink_retry(g, i);
            self.set_carriers(i, 1);
            self.link_inflight(g, i);
        } else {
            if node.carriers == u16::MAX {
                return false;
            }
            proof {
                lemma_with_carriers(m, i as int, (node.carriers + 1) as u16);
            }
            self.set_carriers(i, node.carriers + 1);
        }
        true
    }

    /// Moves the next record to send again, and its group, to the end of their
    /// queues.
    fn turn(&mut self, g: u32, i: u32)
        requires
            old(self).wf(),
            old(self)@.retry_groups.len() > 0,
            old(self)@.retry_groups[0] == g,
            old(self)@.retry[g as int].len() > 0,
            old(self)@.retry[g as int][0] == i,
        ensures
            final(self).wf(),
            final(self)@ == old(self)@.turned(),
    {
        let ghost m = self@;
        proof {
            self.lemma_wf();
            lemma_turned(m);
            assert(m.retry_groups.contains(g as int));
            assert(m.group_sound(g as int));
            lemma_rotated(m.retry[g as int]);
            lemma_rotated(m.retry_groups);
            assert(m.retry[g as int].contains(i as int));
            assert(m.all[g as int].contains(i as int));
            assert(m.listed_sound(g as int, i as int));
            lemma_linked(m, i as int);
        }
        if self.retry.next(g, i).is_some() {
            self.retry.remove(g, i);
            proof {
                crate::conn::stream_journal::sound::lemma_without(
                    m.retry[g as int],
                    i as int,
                );
                assert forall|h: int| 0 <= h < self.retry@.len() implies !(
                #[trigger] self.retry@[h]).contains(i as int) by {
                    if h != g && m.retry[h].contains(i as int) {
                        assert(is_linked(m.retry, i as int));
                        assert(m.all[h].contains(i as int));
                    }
                }
            }
            self.retry.push_back(g, i);
        }
        if self.retry_groups.next(0, g).is_some() {
            proof {
                crate::conn::stream_journal::sound::lemma_without(m.retry_groups, g as int);
            }
            self.retry_groups.remove(0, g);
            self.retry_groups.push_back(0, g);
        }
        assert(self@.retry =~= m.turned().retry);
    }

    /// Looks for a record that has to be sent again, is not `excluded`, and fits
    /// the room.
    pub fn next_retransmit(
        &mut self,
        room: usize,
        work: &mut RetryWork,
        excluded: &[Handle],
    ) -> (result: Option<(Handle, SendHandle, Stream)>)
        requires
            old(self).wf(),
        ensures
            final(self).wf(),
            (final(self)@, final(work).remaining as int, result) == old(self)@.retransmit(
                room as int,
                old(work).remaining as int,
                excluded@,
            ),
    {
        let ghost m = self@;
        let ghost units = work.remaining as int;
        while work.spend()
            invariant
                self.wf(),
                m == old(self)@,
                units == old(work).remaining,
                m.retransmit(room as int, units, excluded@) == self@.retransmit(
                    room as int,
                    work.remaining as int,
                    excluded@,
                ),
            decreases work.remaining,
        {
            let ghost now = self@;
            proof {
                self.lemma_wf();
            }
            let g: u32 = match self.retry_groups.head(0) {
                Some(g) => g,
                None => {
                    return None;
                },
            };
            proof {
                assert(now.retry_groups.contains(g as int));
                assert(now.group_sound(g as int));
                lemma_holds(now.retry[g as int]);
                let i = now.retry[g as int][0];
                assert(now.all[g as int].contains(i));
                assert(now.listed_sound(g as int, i));
            }
            let i: u32 = match self.retry.head(g) {
                Some(i) => i,
                None => {
                    return None;
                },
            };
            let owner = self.groups.value(g).owner;
            let handle = Handle { index: i, generation: self.generation(i) };
            let record = self.nodes.value(i).record;
            self.turn(g, i);
            if contains_handle(excluded, handle) || record.len > room as u64 {
                continue ;
            }
            return Some((handle, owner, record));
        }
        None
    }

    /// Starts a walk over all that is in flight.
    pub fn arm_probes(&mut self)
        requires
            old(self).wf(),
        ensures
            final(self).wf(),
            final(self)@.at_rest() == old(self)@.at_rest(),
            final(self)@.unprobed() == old(self)@.later(0),
    {
        let ghost m = self@;
        proof {
            self.lemma_wf();
        }
        self.cursor_group = self.probe_groups.head(0);
        self.cursor_node = match self.cursor_group {
            Some(g) => self.inflight.head(g),
            None => None,
        };
        proof {
            lemma_same_walk(m, self@);
            lemma_moved(m, self@);
            if m.probe_groups.len() > 0 {
                let g = m.probe_groups[0];
                assert(m.probe_groups.contains(g));
                assert(m.group_sound(g));
                lemma_holds(m.inflight[g]);
                assert(m.probe_groups.index_of(g) == 0);
                assert(m.inflight[g].index_of(m.inflight[g][0]) == 0);
                assert(m.inflight[g].subrange(0, m.inflight[g].len() as int) =~= m.inflight[g]);
                lemma_same_later(m, self@, 1);
            }
        }
    }

    /// Goes on to the next record in flight that is not `excluded`.
    pub fn next_probe(&mut self, excluded: &[Handle]) -> (result: Option<
        (Handle, SendHandle, Stream),
    >)
        requires
            old(self).wf(),
        ensures
            final(self).wf(),
            final(self)@.at_rest() == old(self)@.at_rest(),
            match result {
                Some((handle, owner, record)) => exists|k: int|
                    #![trigger old(self)@.unprobed()[k]]
                    {
                        let i = old(self)@.unprobed()[k];
                        &&& 0 <= k < old(self)@.unprobed().len()
                        &&& handle == old(self)@.handle_at(i)
                        &&& owner == old(self)@.groups.at(old(self)@.group_of(i)).owner
                        &&& record == old(self)@.node(i).record
                        &&& !excluded@.contains(handle)
                        &&& all_excluded(old(self)@, old(self)@.unprobed().take(k), excluded@)
                        &&& final(self)@.unprobed() == old(self)@.unprobed().skip(k + 1)
                    },
                None => {
                    &&& all_excluded(old(self)@, old(self)@.unprobed(), excluded@)
                    &&& final(self)@.unprobed().len() == 0
                },
            },
    {
        let ghost m = self@;
        let ghost walk = m.unprobed();
        let ghost mut k: int = 0;
        proof {
            self.lemma_wf();
            assert(walk.skip(0) =~= walk);
        }
        while self.cursor_group.is_some()
            invariant
                self.wf(),
                m == old(self)@,
                m.shaped(),
                self@.at_rest() == m.at_rest(),
                walk == m.unprobed(),
                0 <= k <= walk.len(),
                self@.unprobed() == walk.skip(k),
                all_excluded(m, walk.take(k), excluded@),
            decreases
                    m.probe_groups.len() - place(self@),
                    self@.unprobed().len(),
        {
            let ghost now = self@;
            proof {
                self.lemma_wf();
            }
            let g: u32 = self.cursor_group.unwrap();
            match self.cursor_node {
                None => {
                    self.cursor_past(g);
                    proof {
                        lemma_moved(now, self@);
                        lemma_skip_group(now, self@, g as int);
                    }
                },
                Some(i) => {
                    proof {
                        assert(now.inflight[g as int].contains(i as int));
                        assert(now.all[g as int].contains(i as int));
                        assert(now.listed_sound(g as int, i as int));
                    }
                    let node = self.nodes.value(i);
                    let owner = self.groups.value(g).owner;
                    self.cursor_node = self.inflight.next(g, i);
                    let handle = Handle { index: i, generation: self.generation(i) };
                    proof {
                        lemma_moved(now, self@);
                        lemma_skip_node(now, self@, g as int, i as int);
                        assert(walk[k] == walk.skip(k)[0]);
                        assert(walk.skip(k).skip(1) =~= walk.skip(k + 1));
                        assert(walk.take(k + 1) =~= walk.take(k).push(walk[k]));
                    }
                    if !contains_handle(excluded, handle) {
                        assert(m.unprobed()[k] == i);
                        return Some((handle, owner, node.record));
                    }
                    proof {
                        k = k + 1;
                    }
                },
            }
        }
        assert(walk.skip(k).len() == 0);
        assert(walk.take(k) =~= walk);
        None
    }

    /// The sending side that a group belongs to.
    pub fn send_handle(&self, acknowledged: &Acknowledged) -> (owner: SendHandle)
        requires
            self.wf(),
            self@.names(acknowledged.group),
        ensures
            owner == self@.groups.at(acknowledged.group.index as int).owner,
    {
        self.groups.value(acknowledged.group.index).owner
    }

    /// The bytes of a group's first acknowledged records, from where to how
    /// many, whether the stream ends there, and how many records they are.
    #[verifier::rlimit(40)]
    pub fn span(&self, acknowledged: &Acknowledged) -> (result: Option<(u64, usize, bool, usize)>)
        requires
            self.wf(),
        ensures
            ({
                let g = acknowledged.group.index as int;
                match result {
                    Some((offset, bytes, fin, nodes)) => {
                        &&& self@.commits(acknowledged.group)
                        &&& nodes == self@.lead(g, 0)
                        &&& (offset as int, bytes as int, fin) == self@.prefix(g)
                    },
                    None => !self@.commits(acknowledged.group),
                }
            }),
    {
        let ghost m = self@;
        proof {
            self.lemma_wf();
        }
        if self.group(acknowledged.group).is_none() {
            return None;
        }
        let g: u32 = acknowledged.group.index;
        let ghost order = m.all[g as int];
        let ghost count = m.lead(g as int, 0);
        proof {
            self.lemma_lead(g as int, 0);
            self.lemma_counted(m);
            assert(m.groups.live(g as int));
            assert(m.group_sound(g as int));
        }
        let mut next: Option<u32> = self.all.head(g);
        let mut offset: u64 = 0;
        let mut expected: u64 = 0;
        let mut bytes: usize = 0;
        let mut fin = false;
        let mut nodes: usize = 0;
        while next.is_some()
            invariant_except_break
                number(next) == (if nodes < order.len() {
                    Some(order[nodes as int])
                } else {
                    None
                }),
            invariant
                self.wf(),
                m == self@,
                m.shaped(),
                m.names(acknowledged.group),
                g == acknowledged.group.index,
                order == m.all[g as int],
                count == m.lead(g as int, 0),
                0 <= count <= order.len() <= u32::MAX,
                0 <= nodes <= count,
                count == nodes + m.lead(g as int, nodes as int),
                m.contiguous(g as int, nodes as int),
                nodes > 0 ==> offset == m.record(g as int, 0).offset,
                nodes > 0 ==> expected == offset + m.bytes(g as int, nodes as int),
                bytes == m.bytes(g as int, nodes as int),
                nodes > 0 ==> fin == m.record(g as int, nodes - 1).fin,
                nodes == 0 ==> !fin,
            ensures
                nodes == count,
                next is None,
            decreases order.len() - nodes,
        {
            let i: u32 = next.unwrap();
            proof {
                assert(order.contains(i as int));
                assert(m.listed_sound(g as int, i as int));
                lemma_linked(m, i as int);
                lemma_bytes(m, g as int, nodes as int, count);
            }
            let node = self.nodes.value(i);
            let is_acknowledged = node.carriers == 0 && !self.retry.linked(i)
                && !self.inflight.linked(i);
            if !is_acknowledged {
                next = None;
                break ;
            }
            proof {
                self.lemma_lead(g as int, nodes + 1);
                lemma_bytes(m, g as int, nodes + 1, count);
                assert(m.record(g as int, nodes as int) == node.record);
            }
            if nodes == 0 {
                offset = node.record.offset;
                expected = offset;
            }
            if fin || node.record.offset != expected {
                proof {
                    if fin {
                        assert(m.record(g as int, nodes - 1).fin);
                    }
                }
                return None;
            }
            if node.record.len > usize::MAX as u64 {
                return None;
            }
            let len: usize = node.record.len as usize;
            bytes = match bytes.checked_add(len) {
                Some(bytes) => bytes,
                None => {
                    return None;
                },
            };
            expected = match expected.checked_add(node.record.len) {
                Some(expected) => expected,
                None => {
                    return None;
                },
            };
            fin = node.record.fin;
            next = self.all.next(g, i);
            proof {
                assert(order.index_of(i as int) == nodes);
            }
            if fin && next.is_some() {
                return None;
            }
            nodes = nodes + 1;
        }
        if nodes == 0 {
            return None;
        }
        Some((offset, bytes, fin, nodes))
    }

    /// Releases a group's first acknowledged records, once their bytes' owner
    /// has taken note of them. Where the records do not follow on one another, or
    /// the owner does not accept them, the group is cancelled.
    pub fn commit(&mut self, acknowledged: Acknowledged, accepted: bool) -> (result: Result<
        (),
        InvalidPrefix,
    >)
        requires
            old(self).wf(),
            old(self)@.names(acknowledged.group) ==> old(self)@.is_active(
                acknowledged.group.index as int,
            ),
        ensures
            final(self).wf(),
            ({
                let g = acknowledged.group.index as int;
                let released = accepted && old(self)@.commits(acknowledged.group);
                &&& result is Ok == released
                &&& final(self)@ == if released {
                    old(self)@.released(g, old(self)@.lead(g, 0))
                } else {
                    old(self)@.cancelled(acknowledged.group)
                }
            }),
    {
        let nodes: usize = match self.span(&acknowledged) {
            Some((offset, bytes, fin, nodes)) => nodes,
            None => {
                self.cancel(acknowledged.group);
                return Err(InvalidPrefix);
            },
        };
        if !accepted {
            self.cancel(acknowledged.group);
            return Err(InvalidPrefix);
        }
        self.release_first(acknowledged.group.index, nodes);
        Ok(())
    }

    /// Advances the sending side of a stream past a group's first acknowledged
    /// records, and then releases them. Tells whether the whole stream is
    /// acknowledged. Where the records do not follow on one another, or are not what
    /// the sending side is to release next, the group is cancelled.
    pub fn commit_prefix(&mut self, acknowledged: Acknowledged, sender: &mut Sender) -> (result:
        Result<bool, InvalidPrefix>)
        requires
            old(self).wf(),
            old(sender)@.sound(),
            old(self)@.names(acknowledged.group) ==> old(self)@.is_active(
                acknowledged.group.index as int,
            ),
        ensures
            final(self).wf(),
            final(sender)@.sound(),
            ({
                let m = old(self)@;
                let g = acknowledged.group.index as int;
                let (offset, bytes, fin) = m.prefix(g);
                let accepted = m.commits(acknowledged.group) && old(sender)@.releases(
                    offset,
                    bytes,
                    fin,
                );
                match result {
                    Ok(done) => {
                        &&& accepted
                        &&& final(sender)@ == old(sender)@.released(bytes, fin)
                        &&& final(self)@ == m.released(g, m.lead(g, 0))
                        &&& done == final(sender)@.fully_acked()
                    },
                    Err(_) => {
                        &&& !accepted
                        &&& final(sender)@ == old(sender)@
                        &&& final(self)@ == m.cancelled(acknowledged.group)
                    },
                }
            }),
    {
        let (offset, bytes, fin, nodes) = match self.span(&acknowledged) {
            Some(span) => span,
            None => {
                self.cancel(acknowledged.group);
                return Err(InvalidPrefix);
            },
        };
        if !sender.acknowledge_prefix(offset, bytes, fin) {
            self.cancel(acknowledged.group);
            return Err(InvalidPrefix);
        }
        self.release_first(acknowledged.group.index, nodes);
        Ok(sender.is_fully_acked())
    }

    /// Releases the first records of a group.
    fn release_first(&mut self, g: u32, nodes: usize)
        requires
            old(self).wf(),
            old(self)@.is_active(g as int),
            nodes == old(self)@.lead(g as int, 0),
        ensures
            final(self).wf(),
            final(self)@ == old(self)@.released(g as int, nodes as int),
    {
        let ghost m = self@;
        proof {
            self.lemma_lead(g as int, 0);
        }
        let mut left: usize = nodes;
        while left > 0
            invariant
                self.wf(),
                left > 0 ==> self@.is_active(g as int),
                left > 0 ==> left <= self@.all[g as int].len(),
                m.released(g as int, nodes as int) == self@.released(g as int, left as int),
            decreases left,
        {
            let ghost now = self@;
            proof {
                self.lemma_wf();
                let i = now.all[g as int][0];
                assert(now.all[g as int].contains(i));
                assert(now.listed_sound(g as int, i));
                lemma_discard_first(now, g as int);
            }
            match self.all.head(g) {
                Some(head) => {
                    self.discard_node(head, true);
                },
                None => {},
            }
            left = left - 1;
        }
    }

    /// Cancels a group whose stream is gone.
    pub fn cancel_acknowledged(&mut self, acknowledged: Acknowledged)
        requires
            old(self).wf(),
        ensures
            final(self).wf(),
            final(self)@ == old(self)@.cancelled(acknowledged.group),
    {
        self.cancel(acknowledged.group);
    }

    fn generation(&self, i: u32) -> (generation: u32)
        requires
            self.built(),
            i < self@.nodes.slots.len(),
        ensures
            generation == self@.nodes.slots[i as int].generation,
    {
        self.nodes.generation(i)
    }

    /// There are no more active records than slots.
    proof fn lemma_counted(&self, m: JournalModel)
        requires
            m.shaped(),
            m.sound(),
        ensures
            0 <= m.active < u32::MAX,
            forall|g: int| #[trigger] m.groups.live(g) ==> m.groups.at(g).len < u32::MAX,
    {
        lemma_total(m.all, m.nodes.slots.len() as int);
        lemma_active_bound(m, m.groups.slots.len() as int);
        assert forall|g: int| #[trigger] m.groups.live(g) implies m.groups.at(g).len
            < u32::MAX by {
            assert(m.group_sound(g));
            lemma_part(m.all, g, m.all.len() as int);
        }
    }
}

/// The active groups have no more records than all lists together.
proof fn lemma_active_bound(m: JournalModel, count: int)
    requires
        m.groups_sound(),
        m.all.len() == m.groups.slots.len(),
        0 <= count <= m.all.len(),
    ensures
        0 <= active_total(m.groups.slots, count) <= total(m.all, count),
    decreases count,
{
    if count > 0 {
        lemma_active_bound(m, count - 1);
        if m.groups.live(count - 1) {
            assert(m.group_sound(count - 1));
        }
    }
}

/// One list is no longer than all together.
proof fn lemma_part(orders: Seq<Seq<int>>, list: int, count: int)
    requires
        0 <= list < orders.len(),
        count <= orders.len(),
    ensures
        0 <= total(orders, count),
        list < count ==> orders[list].len() <= total(orders, count),
    decreases count,
{
    if count > 0 {
        lemma_part(orders, list, count - 1);
    }
}

/// A slot without a record is in no list.
proof fn lemma_unlinked(m: JournalModel, i: int)
    requires
        m.shaped(),
        m.sound(),
        !m.nodes.live(i),
    ensures
        !is_linked(m.all, i),
        !is_linked(m.retry, i),
        !is_linked(m.inflight, i),
{
    if is_linked(m.all, i) {
        let h = choose|h: int| 0 <= h < m.all.len() && (#[trigger] m.all[h]).contains(i);
        assert(m.listed_sound(h, i));
    }
    if is_linked(m.retry, i) {
        let h = choose|h: int| 0 <= h < m.retry.len() && (#[trigger] m.retry[h]).contains(i);
        assert(m.all[h].contains(i));
    }
    if is_linked(m.inflight, i) {
        let h = choose|h: int| 0 <= h < m.inflight.len() && (#[trigger] m.inflight[h]).contains(i);
        assert(m.all[h].contains(i));
    }
}

/// Whether all of these records are excluded.
pub open spec fn all_excluded(m: JournalModel, records: Seq<int>, excluded: Seq<Handle>) -> bool {
    forall|k: int|
        0 <= k < records.len() ==> excluded.contains(m.handle_at(#[trigger] records[k]))
}

/// Where in its queue the group stands that the walk is at.
spec fn place(m: JournalModel) -> int {
    match m.cursor_group {
        Some(g) => m.probe_groups.index_of(g),
        None => m.probe_groups.len() as int,
    }
}

/// Whether a handle is among others.
fn contains_handle(handles: &[Handle], handle: Handle) -> (found: bool)
    ensures
        found == handles@.contains(handle),
{
    let mut k: usize = 0;
    while k < handles.len()
        invariant
            k <= handles@.len(),
            forall|j: int| 0 <= j < k ==> handles@[j] != handle,
        decreases handles@.len() - k,
    {
        if handles[k] == handle {
            return true;
        }
        k = k + 1;
    }
    false
}

/// What comes later does not depend on where the walk stands.
proof fn lemma_same_later(one: JournalModel, other: JournalModel, place: int)
    requires
        one.at_rest() == other.at_rest(),
    ensures
        one.later(place) == other.later(place),
    decreases one.probe_groups.len() - place,
{
    assert(one.probe_groups == one.at_rest().probe_groups);
    assert(other.probe_groups == other.at_rest().probe_groups);
    assert(one.inflight == one.at_rest().inflight);
    assert(other.inflight == other.at_rest().inflight);
    if 0 <= place < one.probe_groups.len() {
        lemma_same_later(one, other, place + 1);
    }
}

proof fn lemma_same_walk(one: JournalModel, other: JournalModel)
    requires
        one.at_rest() == other.at_rest(),
    ensures
        one.later(0) == other.later(0),
        0 < one.probe_groups.len() ==> one.later(0) == one.inflight[one.probe_groups[0]]
            + one.later(1),
{
    lemma_same_later(one, other, 0);
}

/// Another place of the walk leaves the rest sound.
proof fn lemma_moved(one: JournalModel, other: JournalModel)
    requires
        one.sound(),
        one.at_rest() == other.at_rest(),
    ensures
        other.cursor_sound() ==> other.sound(),
{
    assert(other == (JournalModel {
        cursor_group: other.cursor_group,
        cursor_node: other.cursor_node,
        ..one.at_rest()
    }));
    assert forall|x: int| #[trigger] other.nodes.live(x) implies other.node_sound(x) by {
        assert(one.nodes.live(x));
        assert(one.node_sound(x));
    }
    assert forall|h: int, x: int|
        0 <= h < other.all.len() && #[trigger] other.all[h].contains(x) implies other.listed_sound(
        h,
        x,
    ) by {
        assert(one.all[h].contains(x));
        assert(one.listed_sound(h, x));
    }
    assert forall|h: int| #[trigger] other.groups.live(h) implies other.group_sound(h) by {
        assert(one.groups.live(h));
        assert(one.group_sound(h));
    }
}

proof fn lemma_skip_group(one: JournalModel, other: JournalModel, g: int)
    requires
        one.shaped(),
        one.sound(),
        other == one.cursor_past(g),
        one.cursor_group == Some(g),
        one.cursor_node is None,
    ensures
        other.cursor_sound(),
        other.unprobed() == one.unprobed(),
        place(other) > place(one),
        place(other) <= one.probe_groups.len(),
{
    let groups = one.probe_groups;
    let p = groups.index_of(g);
    assert(groups[p] == g);
    lemma_same_later(one, other, p + 1);
    match after(groups, g) {
        Some(next) => {
            assert(groups[p + 1] == next);
            assert(groups.contains(next));
            assert(groups.index_of(next) == p + 1);
            assert(one.group_sound(next));
            lemma_holds(one.inflight[next]);
            let order = one.inflight[next];
            assert(order.index_of(order[0]) == 0);
            assert(order.subrange(0, order.len() as int) =~= order);
            lemma_same_later(one, other, p + 2);
        },
        None => {
            assert(p + 1 == groups.len());
        },
    }
}

proof fn lemma_skip_node(one: JournalModel, other: JournalModel, g: int, i: int)
    requires
        one.shaped(),
        one.sound(),
        one.cursor_group == Some(g),
        one.cursor_node == Some(i),
        other == (JournalModel { cursor_node: after(one.inflight[g], i), ..one }),
    ensures
        other.cursor_sound(),
        one.unprobed().len() > 0,
        one.unprobed()[0] == i,
        other.unprobed() == one.unprobed().skip(1),
        place(other) == place(one),
{
    let order = one.inflight[g];
    let p = order.index_of(i);
    assert(one.probe_groups.contains(g));
    assert(one.group_sound(g));
    assert(order.contains(i));
    assert(order[p] == i);
    let rest = one.later(one.probe_groups.index_of(g) + 1);
    lemma_same_later(one, other, one.probe_groups.index_of(g) + 1);
    assert(one.unprobed() == order.subrange(p, order.len() as int) + rest);
    match after(order, i) {
        Some(next) => {
            assert(order[p + 1] == next);
            assert(order.contains(next));
            assert(order.index_of(next) == p + 1);
            assert(other.unprobed() =~= one.unprobed().skip(1));
        },
        None => {
            assert(other.unprobed() =~= one.unprobed().skip(1));
        },
    }
}

/// More records stand for more bytes.
proof fn lemma_bytes(m: JournalModel, g: int, some: int, count: int)
    requires
        0 <= some <= count,
    ensures
        m.bytes(g, some) <= m.bytes(g, count),
        0 <= m.bytes(g, some),
    decreases count,
{
    if some < count {
        lemma_bytes(m, g, some, count - 1);
    } else if count > 0 {
        lemma_bytes(m, g, count - 1, count - 1);
    }
}

/// Releasing the first of several records of an active group leaves the group.
proof fn lemma_discard_first(m: JournalModel, g: int)
    requires
        m.shaped(),
        m.sound(),
        m.is_active(g),
        m.all[g].len() > 0,
    ensures
        m.all[g].len() > 1 ==> m.discard(m.all[g][0], true).is_active(g),
        m.all[g].len() > 1 ==> m.discard(m.all[g][0], true).all[g].len() == m.all[g].len() - 1,
{
    let i = m.all[g][0];
    assert(m.all[g].contains(i));
    assert(m.listed_sound(g, i));
    assert(m.group_sound(g));
    lemma_settled_shape(m, i);
    crate::conn::stream_journal::sound::lemma_without(m.all[g], i);
}

/// In which list a record can be.
proof fn lemma_linked(m: JournalModel, i: int)
    requires
        m.shaped(),
        m.sound(),
        m.nodes.live(i),
    ensures
        is_linked(m.retry, i) == m.retry[m.group_of(i)].contains(i),
        is_linked(m.inflight, i) == m.inflight[m.group_of(i)].contains(i),
        is_linked(m.inflight, i) == (m.node(i).carriers > 0),
        m.all[m.group_of(i)].contains(i),
{
    let g = m.group_of(i);
    assert(m.node_sound(i));
    assert(m.all[g].contains(i));
    assert(m.listed_sound(g, i));
    if is_linked(m.retry, i) {
        let h = choose|h: int| 0 <= h < m.retry.len() && (#[trigger] m.retry[h]).contains(i);
        assert(m.all[h].contains(i));
    }
    if is_linked(m.inflight, i) {
        let h = choose|h: int| 0 <= h < m.inflight.len() && (#[trigger] m.inflight[h]).contains(i);
        assert(m.all[h].contains(i));
    }
}

} // verus!
