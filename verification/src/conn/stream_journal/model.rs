//! The abstract state of the journal, and what holds of it.
use vstd::prelude::*;

use crate::conn::links::{apart, without};
use crate::conn::arena::{ArenaModel, Slot};

verus! {

/// Which stream bytes a record stands for.
#[derive(Clone, Copy, Debug, PartialEq, Eq, Structural)]
pub struct Stream {
    pub stream_id: u64,
    pub offset: u64,
    pub len: u64,
    pub fin: bool,
}

/// Names one record of the journal.
#[derive(Clone, Copy, Debug, PartialEq, Eq, Structural)]
pub struct Handle {
    pub index: u32,
    pub generation: u32,
}

/// Names the sending side of a stream.
#[derive(Clone, Copy, Debug, PartialEq, Eq, Structural)]
pub struct SendHandle {
    pub index: u32,
    pub generation: u32,
}

/// Names the records of one stream.
#[derive(Clone, Copy, Debug, PartialEq, Eq, Structural)]
pub struct GroupId {
    pub index: u32,
    pub generation: u32,
}

/// One record.
#[derive(Clone, Copy)]
pub struct Node {
    pub group: GroupId,
    pub record: Stream,
    /// How many packets in flight carry it.
    pub carriers: u16,
}

/// The records of one stream.
#[derive(Clone, Copy)]
pub struct Group {
    pub owner: SendHandle,
    /// Whether the stream still wants its bytes delivered.
    pub active: bool,
    pub len: usize,
}

/// The state of the journal. Records and groups are named by their slots.
pub struct JournalModel {
    pub nodes: ArenaModel<Node>,
    pub groups: ArenaModel<Group>,
    /// The records of each group, in stream order.
    pub all: Seq<Seq<int>>,
    /// Those that have to be sent again, the longest waiting first.
    pub retry: Seq<Seq<int>>,
    /// Those that packets in flight carry.
    pub inflight: Seq<Seq<int>>,
    /// The groups with something to send again, the next one first.
    pub retry_groups: Seq<int>,
    /// The groups that were cancelled.
    pub reclaim_groups: Seq<int>,
    /// The groups with something in flight.
    pub probe_groups: Seq<int>,
    /// Where the walk over what is in flight stands.
    pub cursor_group: Option<int>,
    pub cursor_node: Option<int>,
    /// How many records active groups have.
    pub active: int,
    pub limit: int,
}

/// The first element.
pub open spec fn first(order: Seq<int>) -> Option<int> {
    if order.len() > 0 {
        Some(order[0])
    } else {
        None
    }
}

/// The element after another.
pub open spec fn after(order: Seq<int>, element: int) -> Option<int> {
    let position = order.index_of(element) + 1;
    if position < order.len() {
        Some(order[position])
    } else {
        None
    }
}

/// The order without its first element, which goes to the end.
pub open spec fn rotated(order: Seq<int>) -> Seq<int> {
    if order.len() > 1 {
        order.subrange(1, order.len() as int).push(order[0])
    } else {
        order
    }
}

/// How many records the active ones among the first groups have.
pub open spec fn active_total(groups: Seq<Slot<Group>>, count: int) -> int
    decreases count,
{
    if count <= 0 {
        0
    } else {
        active_total(groups, count - 1) + active_len(groups[count - 1].value)
    }
}

/// How many records a group holds capacity for.
pub open spec fn active_len(group: Option<Group>) -> int {
    match group {
        Some(group) => if group.active {
            group.len as int
        } else {
            0
        },
        None => 0,
    }
}

impl JournalModel {
    pub open spec fn node(self, i: int) -> Node {
        self.nodes.at(i)
    }

    pub open spec fn group_of(self, i: int) -> int {
        self.nodes.at(i).group.index as int
    }

    /// Whether a group is there and not cancelled.
    pub open spec fn is_active(self, g: int) -> bool {
        self.groups.live(g) && self.groups.at(g).active
    }

    /// Whether a group is named by its identity.
    pub open spec fn names(self, id: GroupId) -> bool {
        self.groups.live(id.index as int) && self.groups.slots[id.index as int].generation
            == id.generation
    }

    /// Whether a record is acknowledged, and waits for those before it.
    pub open spec fn acknowledged(self, i: int) -> bool {
        self.node(i).carriers == 0 && !self.retry[self.group_of(i)].contains(i)
    }

    /// Whether a handle names a record that is not acknowledged.
    pub open spec fn valid(self, handle: Handle) -> bool {
        self.nodes.live(handle.index as int) && self.nodes.slots[handle.index as int].generation
            == handle.generation && !self.acknowledged(handle.index as int)
    }

    pub open spec fn handle_at(self, i: int) -> Handle {
        Handle { index: i as u32, generation: self.nodes.slots[i].generation }
    }

    /// The state with another carrier count of a record.
    pub open spec fn with_carriers(self, i: int, carriers: u16) -> JournalModel {
        JournalModel {
            nodes: self.nodes.put(i, Some(Node { carriers, ..self.node(i) })),
            ..self
        }
    }

    pub open spec fn link_retry_group(self, g: int) -> JournalModel {
        if self.retry_groups.contains(g) {
            self
        } else {
            JournalModel { retry_groups: self.retry_groups.push(g), ..self }
        }
    }

    pub open spec fn unlink_retry_group(self, g: int) -> JournalModel {
        if self.retry_groups.contains(g) {
            JournalModel { retry_groups: without(self.retry_groups, g), ..self }
        } else {
            self
        }
    }

    pub open spec fn link_reclaim_group(self, g: int) -> JournalModel {
        if self.reclaim_groups.contains(g) {
            self
        } else {
            JournalModel { reclaim_groups: self.reclaim_groups.push(g), ..self }
        }
    }

    pub open spec fn unlink_reclaim_group(self, g: int) -> JournalModel {
        if self.reclaim_groups.contains(g) {
            JournalModel { reclaim_groups: without(self.reclaim_groups, g), ..self }
        } else {
            self
        }
    }

    pub open spec fn link_probe_group(self, g: int) -> JournalModel {
        if self.probe_groups.contains(g) {
            self
        } else {
            JournalModel { probe_groups: self.probe_groups.push(g), ..self }
        }
    }

    /// The walk goes on with the group after one.
    pub open spec fn cursor_past(self, g: int) -> JournalModel {
        let next = after(self.probe_groups, g);
        JournalModel {
            cursor_group: next,
            cursor_node: match next {
                Some(next) => first(self.inflight[next]),
                None => None,
            },
            ..self
        }
    }

    pub open spec fn unlink_probe_group(self, g: int) -> JournalModel {
        if self.probe_groups.contains(g) {
            let moved = if self.cursor_group == Some(g) {
                self.cursor_past(g)
            } else {
                self
            };
            JournalModel { probe_groups: without(self.probe_groups, g), ..moved }
        } else {
            self
        }
    }

    pub open spec fn link_retry(self, g: int, i: int) -> JournalModel {
        let linked = JournalModel {
            retry: self.retry.update(g, self.retry[g].push(i)),
            ..self
        };
        if self.retry[g].len() == 0 {
            linked.link_retry_group(g)
        } else {
            linked
        }
    }

    pub open spec fn unlink_retry(self, g: int, i: int) -> JournalModel {
        let unlinked = JournalModel {
            retry: self.retry.update(g, without(self.retry[g], i)),
            ..self
        };
        if unlinked.retry[g].len() == 0 {
            unlinked.unlink_retry_group(g)
        } else {
            unlinked
        }
    }

    pub open spec fn link_inflight(self, g: int, i: int) -> JournalModel {
        let linked = JournalModel {
            inflight: self.inflight.update(g, self.inflight[g].push(i)),
            ..self
        };
        if self.inflight[g].len() == 0 {
            linked.link_probe_group(g)
        } else {
            linked
        }
    }

    pub open spec fn unlink_inflight(self, g: int, i: int) -> JournalModel {
        let unlinked = JournalModel {
            inflight: self.inflight.update(g, without(self.inflight[g], i)),
            cursor_node: if self.cursor_group == Some(g) && self.cursor_node == Some(i) {
                after(self.inflight[g], i)
            } else {
                self.cursor_node
            },
            ..self
        };
        if unlinked.inflight[g].len() == 0 {
            unlinked.unlink_probe_group(g)
        } else {
            unlinked
        }
    }

    pub open spec fn resized(self, g: int, len: usize) -> JournalModel {
        JournalModel {
            groups: self.groups.put(g, Some(Group { len, ..self.groups.at(g) })),
            ..self
        }
    }

    pub open spec fn link_all(self, g: int, i: int) -> JournalModel {
        JournalModel { all: self.all.update(g, self.all[g].push(i)), ..self }.resized(
            g,
            (self.groups.at(g).len + 1) as usize,
        )
    }

    pub open spec fn unlink_all(self, g: int, i: int) -> JournalModel {
        JournalModel { all: self.all.update(g, without(self.all[g], i)), ..self }.resized(
            g,
            (self.groups.at(g).len - 1) as usize,
        )
    }

    /// The state without a group that has no records.
    pub open spec fn release_group(self, g: int) -> JournalModel {
        let out = self.unlink_retry_group(g).unlink_probe_group(g).unlink_reclaim_group(g);
        JournalModel { groups: out.groups.put(g, None).released(g), ..out }
    }

    /// The record in no list of what is to be delivered.
    pub open spec fn settled(self, i: int) -> JournalModel {
        let g = self.group_of(i);
        let unqueued = if self.retry[g].contains(i) {
            self.unlink_retry(g, i)
        } else {
            self
        };
        if self.inflight[g].contains(i) {
            unqueued.unlink_inflight(g, i)
        } else {
            unqueued
        }
    }

    /// The state without a record, and without its group if that was the last.
    pub open spec fn discard(self, i: int, active: bool) -> JournalModel {
        let g = self.group_of(i);
        let out = self.settled(i).unlink_all(g, i);
        let rest = JournalModel {
            nodes: out.nodes.put(i, None).released(i),
            active: if active {
                self.active - 1
            } else {
                self.active
            },
            ..out
        };
        if rest.groups.at(g).len == 0 {
            rest.release_group(g)
        } else {
            rest
        }
    }

    /// The state after the oldest record of a cancelled group was given up.
    pub open spec fn reclaimed(self) -> JournalModel {
        if self.reclaim_groups.len() == 0 {
            self
        } else {
            self.discard(self.all[self.reclaim_groups[0]][0], false)
        }
    }

    /// The state after a group was cancelled.
    pub open spec fn cancelled(self, id: GroupId) -> JournalModel {
        let g = id.index as int;
        if !self.names(id) || !self.groups.at(g).active {
            self
        } else {
            let out = self.unlink_retry_group(g).unlink_probe_group(g);
            let idle = JournalModel {
                groups: out.groups.put(g, Some(Group { active: false, ..out.groups.at(g) })),
                active: self.active - self.groups.at(g).len,
                ..out
            };
            if self.groups.at(g).len == 0 {
                idle.release_group(g)
            } else {
                idle.link_reclaim_group(g)
            }
        }
    }

    /// The state after a record was acknowledged.
    pub open spec fn with_acknowledged(self, handle: Handle) -> JournalModel {
        let i = handle.index as int;
        if !self.valid(handle) {
            self
        } else if !self.is_active(self.group_of(i)) {
            self.discard(i, false)
        } else {
            self.settled(i).with_carriers(i, 0)
        }
    }

    /// The state after a packet that carries a record was lost.
    pub open spec fn with_lost(self, handle: Handle) -> JournalModel {
        let i = handle.index as int;
        let g = self.group_of(i);
        if !self.valid(handle) {
            self
        } else if !self.is_active(g) {
            self.discard(i, false)
        } else if self.node(i).carriers > 1 {
            self.with_carriers(i, (self.node(i).carriers - 1) as u16)
        } else if self.inflight[g].contains(i) {
            self.with_carriers(i, 0).unlink_inflight(g, i).link_retry(g, i)
        } else {
            self
        }
    }

    /// Whether one more packet can carry a record.
    pub open spec fn carries(self, handle: Handle) -> bool {
        let i = handle.index as int;
        &&& self.valid(handle)
        &&& self.is_active(self.group_of(i))
        &&& self.retry[self.group_of(i)].contains(i) || self.node(i).carriers < u16::MAX
    }

    /// The state after one more packet carries a record.
    pub open spec fn with_carrier(self, handle: Handle) -> JournalModel {
        let i = handle.index as int;
        let g = self.group_of(i);
        if !self.valid(handle) {
            self
        } else if !self.is_active(g) {
            self.discard(i, false)
        } else if self.retry[g].contains(i) {
            self.unlink_retry(g, i).with_carriers(i, 1).link_inflight(g, i)
        } else if self.node(i).carriers < u16::MAX {
            self.with_carriers(i, (self.node(i).carriers + 1) as u16)
        } else {
            self
        }
    }

    /// The state after the stream of a record was given up.
    pub open spec fn without_group(self, handle: Handle) -> JournalModel {
        let i = handle.index as int;
        if !self.valid(handle) {
            self
        } else if self.is_active(self.group_of(i)) {
            self.cancelled(self.node(i).group)
        } else {
            self.discard(i, false)
        }
    }

    /// The state with a slot for one more group.
    pub open spec fn with_group_slot(self) -> JournalModel {
        let groups = self.groups.taken();
        if groups.slots.len() > self.groups.slots.len() {
            JournalModel {
                groups,
                all: self.all.push(Seq::empty()),
                retry: self.retry.push(Seq::empty()),
                inflight: self.inflight.push(Seq::empty()),
                ..self
            }
        } else {
            JournalModel { groups, ..self }
        }
    }

    /// The state with one more group, without records.
    pub open spec fn with_group(self, owner: SendHandle) -> JournalModel {
        let g = self.groups.next()->0;
        let slotted = self.with_group_slot();
        JournalModel {
            groups: slotted.groups.put(g, Some(Group { owner, active: true, len: 0 })),
            ..slotted
        }
    }

    /// Whether a group is that of a stream.
    pub open spec fn owned(self, id: GroupId, owner: SendHandle) -> bool {
        self.names(id) && self.groups.at(id.index as int).active && self.groups.at(
            id.index as int,
        ).owner == owner
    }

    /// The state with room for a group, where giving up one record of a
    /// cancelled group makes it.
    pub open spec fn group_room(self) -> JournalModel {
        if self.groups.next() is None {
            self.reclaimed()
        } else {
            self
        }
    }

    /// The state with room for a record, made in the same way.
    pub open spec fn node_room(self) -> JournalModel {
        if self.nodes.next() is None {
            self.reclaimed()
        } else {
            self
        }
    }

    /// The group of a stream, as far as there is one or there is room for it.
    pub open spec fn ensured(
        self,
        owner: SendHandle,
        known: Option<GroupId>,
    ) -> (JournalModel, Option<GroupId>) {
        match known {
            Some(id) if self.owned(id, owner) => (self, Some(id)),
            _ => {
                let roomy = self.group_room();
                match roomy.groups.next() {
                    Some(g) => (
                        roomy.with_group(owner),
                        Some(
                            GroupId {
                                index: g as u32,
                                generation: roomy.with_group(owner).groups.slots[g].generation,
                            },
                        ),
                    ),
                    None => (roomy, None),
                }
            },
        }
    }

    /// The state with one more record in flight.
    pub open spec fn with_record(self, group: GroupId, record: Stream) -> JournalModel {
        let i = self.nodes.next()->0;
        let g = group.index as int;
        let linked = JournalModel {
            nodes: self.nodes.taken().put(i, Some(Node { group, record, carriers: 1 })),
            ..self
        }.link_all(g, i).link_inflight(g, i);
        JournalModel { active: self.active + 1, ..linked }
    }

    /// What an insertion does: the new state, the stream's group, and the
    /// handle of the record.
    pub open spec fn inserted(
        self,
        owner: SendHandle,
        known: Option<GroupId>,
        record: Stream,
    ) -> (JournalModel, Option<GroupId>, Option<Handle>) {
        let (grouped, group) = self.ensured(owner, known);
        match group {
            Some(id) => {
                let roomy = grouped.node_room();
                match roomy.nodes.next() {
                    Some(i) => {
                        let done = roomy.with_record(id, record);
                        (done, Some(id), Some(done.handle_at(i)))
                    },
                    None => if roomy.groups.at(id.index as int).len == 0 {
                        (roomy.release_group(id.index as int), None, None)
                    } else {
                        (roomy, Some(id), None)
                    },
                }
            },
            None => (grouped, None, None),
        }
    }

    /// Looks for a record to send again: each one that is looked at takes one
    /// unit of work and goes to the end of its queue, whether it is chosen or not.
    pub open spec fn retransmit(
        self,
        room: int,
        work: int,
        excluded: Seq<Handle>,
    ) -> (JournalModel, int, Option<(Handle, SendHandle, Stream)>)
        decreases work,
    {
        if work <= 0 {
            (self, work, None)
        } else if self.retry_groups.len() == 0 {
            (self, work - 1, None)
        } else {
            let g = self.retry_groups[0];
            let i = self.retry[g][0];
            let handle = self.handle_at(i);
            if excluded.contains(handle) || self.node(i).record.len > room {
                self.turned().retransmit(room, work - 1, excluded)
            } else {
                (
                    self.turned(),
                    work - 1,
                    Some((handle, self.groups.at(g).owner, self.node(i).record)),
                )
            }
        }
    }

    /// The state after the next record to send again was looked at.
    pub open spec fn turned(self) -> JournalModel {
        let g = self.retry_groups[0];
        JournalModel {
            retry: self.retry.update(g, rotated(self.retry[g])),
            retry_groups: rotated(self.retry_groups),
            ..self
        }
    }

    /// What is in flight of the groups from a place of their queue on.
    pub open spec fn later(self, place: int) -> Seq<int>
        decreases self.probe_groups.len() - place,
    {
        if place < 0 || place >= self.probe_groups.len() {
            Seq::empty()
        } else {
            self.inflight[self.probe_groups[place]] + self.later(place + 1)
        }
    }

    /// What the walk over the records in flight has still before it.
    pub open spec fn unprobed(self) -> Seq<int> {
        match self.cursor_group {
            Some(g) => {
                let rest = self.later(self.probe_groups.index_of(g) + 1);
                match self.cursor_node {
                    Some(i) => self.inflight[g].subrange(
                        self.inflight[g].index_of(i),
                        self.inflight[g].len() as int,
                    ) + rest,
                    None => rest,
                }
            },
            None => Seq::empty(),
        }
    }

    /// The state but for where the walk stands.
    pub open spec fn at_rest(self) -> JournalModel {
        JournalModel { cursor_group: None, cursor_node: None, ..self }
    }

    /// How many of a group's first records are acknowledged, from a place on.
    pub open spec fn lead(self, g: int, from: int) -> int
        decreases self.all[g].len() - from,
    {
        if 0 <= from < self.all[g].len() && self.acknowledged(self.all[g][from]) {
            1 + self.lead(g, from + 1)
        } else {
            0
        }
    }

    /// The record at a place of a group.
    pub open spec fn record(self, g: int, place: int) -> Stream {
        self.node(self.all[g][place]).record
    }

    /// How many bytes the first records of a group stand for.
    pub open spec fn bytes(self, g: int, count: int) -> int
        decreases count,
    {
        if count <= 0 {
            0
        } else {
            self.bytes(g, count - 1) + self.record(g, count - 1).len
        }
    }

    /// Whether the first records of a group follow on one another, and the end
    /// of the stream comes at the end only.
    pub open spec fn contiguous(self, g: int, count: int) -> bool {
        &&& forall|k: int|
            0 <= k < count ==> (#[trigger] self.record(g, k)).offset == self.record(g, 0).offset
                + self.bytes(g, k)
        &&& forall|k: int|
            0 <= k < count && (#[trigger] self.record(g, k)).fin ==> k == self.all[g].len() - 1
        &&& self.record(g, 0).offset + self.bytes(g, count) <= u64::MAX
        &&& self.bytes(g, count) <= usize::MAX
    }

    /// Whether the first acknowledged records of a group can be released together.
    pub open spec fn commits(self, id: GroupId) -> bool {
        let g = id.index as int;
        &&& self.names(id)
        &&& self.lead(g, 0) > 0
        &&& self.contiguous(g, self.lead(g, 0))
    }

    /// The bytes of a group's first acknowledged records: from where, how many, and
    /// whether the stream ends there.
    pub open spec fn prefix(self, g: int) -> (int, int, bool) {
        let count = self.lead(g, 0);
        (
            self.record(g, 0).offset as int,
            self.bytes(g, count),
            self.record(g, count - 1).fin,
        )
    }

    /// The state after the first records of a group were released.
    pub open spec fn released(self, g: int, count: int) -> JournalModel
        decreases count,
    {
        if count <= 0 {
            self
        } else {
            self.discard(self.all[g][0], true).released(g, count - 1)
        }
    }

    // What holds of every state.

    pub open spec fn shaped(self) -> bool {
        &&& self.all.len() == self.groups.slots.len()
        &&& self.retry.len() == self.groups.slots.len()
        &&& self.inflight.len() == self.groups.slots.len()
        &&& apart(self.all, self.nodes.slots.len() as int)
        &&& apart(self.retry, self.nodes.slots.len() as int)
        &&& apart(self.inflight, self.nodes.slots.len() as int)
        &&& self.retry_groups.no_duplicates()
        &&& self.reclaim_groups.no_duplicates()
        &&& self.probe_groups.no_duplicates()
        &&& self.nodes.slots.len() <= self.nodes.limit < u32::MAX
        &&& self.groups.slots.len() <= self.groups.limit < u32::MAX
        &&& self.groups.limit == self.limit
        &&& self.nodes.limit == self.limit
        &&& forall|k: int|
            0 <= k < self.nodes.free.len() ==> 0 <= #[trigger] self.nodes.free[k]
                < self.nodes.slots.len() && self.nodes.slots[self.nodes.free[k]].value is None
        &&& forall|k: int|
            0 <= k < self.groups.free.len() ==> 0 <= #[trigger] self.groups.free[k]
                < self.groups.slots.len() && self.groups.slots[self.groups.free[k]].value is None
    }

    /// A record belongs to a group that is there, which lists it.
    pub open spec fn node_sound(self, i: int) -> bool {
        &&& self.names(self.node(i).group)
        &&& self.all[self.group_of(i)].contains(i)
    }

    /// What a group lists are records of its own; one of them is in flight if
    /// packets carry it, and otherwise waits to be sent again or is
    /// acknowledged.
    pub open spec fn listed_sound(self, g: int, i: int) -> bool {
        &&& self.nodes.live(i)
        &&& self.group_of(i) == g
        &&& self.groups.live(g)
        &&& self.inflight[g].contains(i) == (self.node(i).carriers > 0)
    }

    /// While a group is active it is queued for what it has to send; afterwards
    /// it is queued for reuse until it has no records.
    pub open spec fn group_sound(self, g: int) -> bool {
        let group = self.groups.at(g);
        &&& group.len == self.all[g].len()
        &&& !group.active ==> group.len > 0
        &&& self.retry_groups.contains(g) == (group.active && self.retry[g].len() > 0)
        &&& self.probe_groups.contains(g) == (group.active && self.inflight[g].len() > 0)
        &&& self.reclaim_groups.contains(g) == !group.active
    }

    pub open spec fn nodes_sound(self) -> bool {
        forall|i: int| #[trigger] self.nodes.live(i) ==> self.node_sound(i)
    }

    pub open spec fn lists_sound(self) -> bool {
        &&& forall|g: int, i: int|
            0 <= g < self.all.len() && #[trigger] self.all[g].contains(i) ==> self.listed_sound(
                g,
                i,
            )
        &&& forall|g: int, i: int|
            0 <= g < self.retry.len() && #[trigger] self.retry[g].contains(i)
                ==> self.all[g].contains(i) && self.node(i).carriers == 0
        &&& forall|g: int, i: int|
            0 <= g < self.inflight.len() && #[trigger] self.inflight[g].contains(i)
                ==> self.all[g].contains(i)
    }

    pub open spec fn groups_sound(self) -> bool {
        &&& forall|g: int| #[trigger] self.groups.live(g) ==> self.group_sound(g)
        &&& forall|g: int| #[trigger] self.retry_groups.contains(g) ==> self.groups.live(g)
        &&& forall|g: int| #[trigger] self.probe_groups.contains(g) ==> self.groups.live(g)
        &&& forall|g: int| #[trigger] self.reclaim_groups.contains(g) ==> self.groups.live(g)
    }

    pub open spec fn cursor_sound(self) -> bool {
        match self.cursor_group {
            Some(g) => {
                &&& self.probe_groups.contains(g)
                &&& self.cursor_node matches Some(i) ==> self.inflight[g].contains(i)
            },
            None => self.cursor_node is None,
        }
    }

    pub open spec fn counted(self) -> bool {
        self.active == active_total(self.groups.slots, self.groups.slots.len() as int)
    }

    pub open spec fn sound(self) -> bool {
        &&& self.nodes_sound()
        &&& self.lists_sound()
        &&& self.groups_sound()
        &&& self.cursor_sound()
        &&& self.counted()
    }
}

} // verus!
