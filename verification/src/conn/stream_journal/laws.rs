//! What holds of the journal as a whole.
use vstd::prelude::*;

use crate::conn::arena::{lemma_filled, lemma_given_back, lemma_put_over};
use crate::conn::links::without;
use crate::conn::stream_journal::model::{GroupId, Handle, JournalModel, Node, SendHandle, Stream};
use crate::conn::stream_journal::sound::{
    lemma_active_part, lemma_discard, lemma_holds, lemma_reclaimed, lemma_settled, lemma_without,
};

verus! {

/// A record is in flight, waits to be sent again, or is acknowledged: it is
/// never two of these, and never none.
pub proof fn law_one_state(m: JournalModel, i: int)
    requires
        m.shaped(),
        m.sound(),
        m.nodes.live(i),
    ensures
        ({
            let g = m.group_of(i);
            &&& m.inflight[g].contains(i) ==> !m.retry[g].contains(i) && !m.acknowledged(i)
            &&& m.retry[g].contains(i) ==> !m.inflight[g].contains(i) && !m.acknowledged(i)
            &&& m.inflight[g].contains(i) || m.retry[g].contains(i) || m.acknowledged(i)
        }),
{
    assert(m.node_sound(i));
    assert(m.listed_sound(m.group_of(i), i));
}

/// The next retransmission is found whenever a stream that is not cancelled has
/// something to send again, and only then.
pub proof fn law_retransmit_queue(m: JournalModel)
    requires
        m.shaped(),
        m.sound(),
    ensures
        m.retry_groups.len() > 0 <==> exists|i: int| #[trigger]
            m.nodes.live(i) && m.is_active(m.group_of(i)) && m.retry[m.group_of(i)].contains(i),
{
    if m.retry_groups.len() > 0 {
        let g = m.retry_groups[0];
        assert(m.retry_groups.contains(g));
        assert(m.group_sound(g));
        lemma_holds(m.retry[g]);
        let i = m.retry[g][0];
        assert(m.retry[g].contains(i));
        assert(m.all[g].contains(i));
        assert(m.listed_sound(g, i));
        assert(m.nodes.live(i));
    }
    if exists|i: int| #[trigger]
        m.nodes.live(i) && m.is_active(m.group_of(i)) && m.retry[m.group_of(i)].contains(i) {
        let i = choose|i: int| #[trigger]
            m.nodes.live(i) && m.is_active(m.group_of(i)) && m.retry[m.group_of(i)].contains(i);
        let g = m.group_of(i);
        assert(m.group_sound(g));
        assert(m.retry_groups.contains(g));
    }
}

/// Cancelling a stream gives back the capacity of all its records at once.
pub proof fn law_cancel_capacity(m: JournalModel, id: GroupId)
    requires
        m.shaped(),
        m.sound(),
        m.names(id),
        m.is_active(id.index as int),
    ensures
        m.cancelled(id).active == m.active - m.all[id.index as int].len(),
        0 <= m.cancelled(id).active,
        !m.cancelled(id).is_active(id.index as int),
{
    let g = id.index as int;
    assert(m.group_sound(g));
    lemma_active_part(m.groups.slots, g, m.groups.slots.len() as int);
}

/// A record that is given up is spent: its handle names it no more.
pub proof fn law_discarded_spent(m: JournalModel, i: int)
    requires
        m.shaped(),
        m.sound(),
        m.nodes.live(i),
    ensures
        ({
            let left = m.discard(i, m.is_active(m.group_of(i)));
            &&& left.nodes.spent(i, m.nodes.slots[i].generation)
            &&& !left.valid(m.handle_at(i))
        }),
{
    let active = m.is_active(m.group_of(i));
    lemma_discard(m, i, active);
    lemma_discarded_nodes(m, i, active);
    assert(!m.nodes.free.contains(i)) by {
        if m.nodes.free.contains(i) {
            let k = choose|k: int| 0 <= k < m.nodes.free.len() && m.nodes.free[k] == i;
            assert(m.nodes.slots[m.nodes.free[k]].value is None);
        }
    }
}

impl JournalModel {
    /// Whether one use of the journal leads to another state.
    pub open spec fn steps_to(self, next: JournalModel) -> bool {
        ||| next.at_rest() == self.at_rest()
        ||| exists|handle: Handle| next == #[trigger] self.with_acknowledged(handle)
        ||| exists|handle: Handle| next == #[trigger] self.with_lost(handle)
        ||| exists|handle: Handle| next == #[trigger] self.with_carrier(handle)
        ||| exists|handle: Handle| next == #[trigger] self.without_group(handle)
        ||| exists|id: GroupId| next == #[trigger] self.cancelled(id)
        ||| exists|owner: SendHandle, known: Option<GroupId>, record: Stream|
            next == (#[trigger] self.inserted(owner, known, record)).0
        ||| exists|room: int, work: int, excluded: Seq<Handle>|
            next == (#[trigger] self.retransmit(room, work, excluded)).0
        ||| exists|g: int|
            self.is_active(g) && next == #[trigger] self.released(g, self.lead(g, 0))
    }
}

/// A handle that names no record any more names none ever again, whatever is done with the
/// journal afterwards, also where its slot is used for another record.
pub proof fn law_handles_expire(states: Seq<JournalModel>, handle: Handle, last: int)
    requires
        forall|k: int|
            0 <= k < states.len() ==> (#[trigger] states[k]).shaped() && states[k].sound(),
        forall|k: int|
            0 <= k < states.len() - 1 ==> (#[trigger] states[k]).steps_to(states[k + 1]),
        0 <= last < states.len(),
        states[0].nodes.spent(handle.index as int, handle.generation),
    ensures
        states[last].nodes.spent(handle.index as int, handle.generation),
        !states[last].valid(handle),
    decreases last,
{
    if last > 0 {
        law_handles_expire(states, handle, last - 1);
        let m = states[last - 1];
        assert(m.steps_to(states[last - 1 + 1]));
        lemma_step(m, states[last]);
        assert(m.nodes.outlived_by(states[last].nodes));
    }
}

/// The records after one was given up.
proof fn lemma_discarded_nodes(m: JournalModel, i: int, active: bool)
    ensures
        m.discard(i, active).nodes == m.nodes.put(i, None).released(i),
        m.discard(i, active).all == m.all.update(
            m.group_of(i),
            without(m.all[m.group_of(i)], i),
        ),
{
}

proof fn lemma_discard_kept(m: JournalModel, i: int, active: bool)
    requires
        0 <= i < m.nodes.slots.len(),
    ensures
        m.nodes.outlived_by(m.discard(i, active).nodes),
        m.discard(i, active).nodes.slots.len() == m.nodes.slots.len(),
{
    lemma_discarded_nodes(m, i, active);
    lemma_given_back(m.nodes, i);
}

/// Whether the record that is given up next is there.
spec fn reclaims(m: JournalModel) -> bool {
    m.reclaim_groups.len() > 0 ==> {
        let g = m.reclaim_groups[0];
        &&& 0 <= g < m.all.len()
        &&& m.all[g].len() > 0
        &&& 0 <= m.all[g][0] < m.nodes.slots.len()
    }
}

proof fn lemma_reclaims(m: JournalModel)
    requires
        m.sound(),
        m.all.len() == m.groups.slots.len(),
    ensures
        reclaims(m),
{
    if m.reclaim_groups.len() > 0 {
        let g = m.reclaim_groups[0];
        assert(m.reclaim_groups.contains(g));
        assert(m.group_sound(g));
        let i = m.all[g][0];
        assert(m.all[g].contains(i));
        assert(m.listed_sound(g, i));
    }
}

proof fn lemma_reclaimed_kept(m: JournalModel)
    requires
        reclaims(m),
    ensures
        m.nodes.outlived_by(m.reclaimed().nodes),
{
    if m.reclaim_groups.len() > 0 {
        lemma_discard_kept(m, m.all[m.reclaim_groups[0]][0], false);
    }
}

/// One more group changes no record.
proof fn lemma_group_kept(m: JournalModel, owner: SendHandle)
    requires
        reclaims(m),
    ensures
        reclaims(m.with_group(owner)),
        m.with_group(owner).nodes == m.nodes,
{
}

/// A group that goes takes no record with it.
proof fn lemma_release_kept(m: JournalModel, g: int)
    ensures
        m.release_group(g).nodes == m.nodes,
{
}

proof fn lemma_free_after(m: JournalModel)
    requires
        reclaims(m),
        m.nodes.free.len() > 0 ==> 0 <= m.nodes.free[0] < m.nodes.slots.len(),
    ensures
        ({
            let after = m.reclaimed().nodes;
            after.free.len() > 0 ==> 0 <= after.free[0] < after.slots.len()
        }),
{
    if m.reclaim_groups.len() > 0 {
        lemma_discarded_nodes(m, m.all[m.reclaim_groups[0]][0], false);
    }
}

proof fn lemma_inserted_kept(
    m: JournalModel,
    owner: SendHandle,
    known: Option<GroupId>,
    record: Stream,
)
    requires
        m.shaped(),
        m.sound(),
    ensures
        m.nodes.outlived_by(m.inserted(owner, known, record).0.nodes),
{
    lemma_reclaims(m);
    lemma_reclaimed_kept(m);
    lemma_reclaimed(m);
    lemma_free_after(m);
    let roomy = m.group_room();
    assert(roomy.all.len() == roomy.groups.slots.len()) by {
        if m.reclaim_groups.len() > 0 {
            let g = m.reclaim_groups[0];
            let i = m.all[g][0];
            assert(m.reclaim_groups.contains(g));
            assert(m.all[g].contains(i));
            assert(m.listed_sound(g, i));
            lemma_discarded_nodes(m, i, false);
        }
    }
    lemma_reclaims(roomy);
    lemma_group_kept(roomy, owner);
    let (grouped, group) = m.ensured(owner, known);
    assert(reclaims(grouped));
    assert(m.nodes.outlived_by(grouped.nodes));
    lemma_reclaimed_kept(grouped);
    lemma_free_after(grouped);
    if group is Some {
        let id = group->0;
        let next = grouped.node_room();
        assert(m.nodes.outlived_by(next.nodes));
        if next.nodes.next() is Some {
            lemma_filled(next.nodes, Node { group: id, record, carriers: 1 });
        } else {
            lemma_release_kept(next, id.index as int);
        }
    }
}

proof fn lemma_retransmit_kept(m: JournalModel, room: int, work: int, excluded: Seq<Handle>)
    ensures
        m.retransmit(room, work, excluded).0.nodes == m.nodes,
    decreases work,
{
    if work > 0 && m.retry_groups.len() > 0 {
        lemma_retransmit_kept(m.turned(), room, work - 1, excluded);
    }
}

proof fn lemma_released_kept(m: JournalModel, g: int, count: int)
    requires
        0 <= g < m.all.len(),
        count <= m.all[g].len(),
        m.all[g].no_duplicates(),
        forall|k: int|
            0 <= k < m.all[g].len() ==> 0 <= #[trigger] m.all[g][k] < m.nodes.slots.len()
                && m.group_of(m.all[g][k]) == g,
    ensures
        m.nodes.outlived_by(m.released(g, count).nodes),
    decreases count,
{
    if count > 0 {
        let i = m.all[g][0];
        let next = m.discard(i, true);
        lemma_discard_kept(m, i, true);
        lemma_discarded_nodes(m, i, true);
        assert(m.all[g].index_of(i) == 0) by {
            assert(m.all[g].contains(i));
            assert(m.all[g][m.all[g].index_of(i)] == i);
        }
        assert(next.all[g] =~= m.all[g].subrange(1, m.all[g].len() as int));
        assert forall|k: int| 0 <= k < next.all[g].len() implies 0 <= #[trigger] next.all[g][k]
            < next.nodes.slots.len() && next.group_of(next.all[g][k]) == g by {
            let x = next.all[g][k];
            assert(x == m.all[g][k + 1]);
            assert(x != i);
            assert(next.nodes.slots[x] == m.nodes.slots[x]);
        }
        lemma_released_kept(next, g, count - 1);
    }
}

proof fn lemma_lead(m: JournalModel, g: int, from: int)
    requires
        0 <= from <= m.all[g].len(),
    ensures
        0 <= m.lead(g, from) <= m.all[g].len() - from,
    decreases m.all[g].len() - from,
{
    if from < m.all[g].len() {
        lemma_lead(m, g, from + 1);
    }
}

proof fn lemma_step(m: JournalModel, next: JournalModel)
    requires
        m.shaped(),
        m.sound(),
        m.steps_to(next),
    ensures
        m.nodes.outlived_by(next.nodes),
{
    if exists|handle: Handle| next == #[trigger] m.with_acknowledged(handle) {
        let handle = choose|handle: Handle| next == #[trigger] m.with_acknowledged(handle);
        lemma_handle_kept(m, handle);
    } else if exists|handle: Handle| next == #[trigger] m.with_lost(handle) {
        let handle = choose|handle: Handle| next == #[trigger] m.with_lost(handle);
        lemma_handle_kept(m, handle);
    } else if exists|handle: Handle| next == #[trigger] m.with_carrier(handle) {
        let handle = choose|handle: Handle| next == #[trigger] m.with_carrier(handle);
        lemma_handle_kept(m, handle);
    } else if exists|handle: Handle| next == #[trigger] m.without_group(handle) {
        let handle = choose|handle: Handle| next == #[trigger] m.without_group(handle);
        lemma_handle_kept(m, handle);
    } else if exists|owner: SendHandle, known: Option<GroupId>, record: Stream|
        next == (#[trigger] m.inserted(owner, known, record)).0 {
        let (owner, known, record) = choose|
            owner: SendHandle,
            known: Option<GroupId>,
            record: Stream,
        | next == (#[trigger] m.inserted(owner, known, record)).0;
        lemma_inserted_kept(m, owner, known, record);
    } else if exists|room: int, work: int, excluded: Seq<Handle>|
        next == (#[trigger] m.retransmit(room, work, excluded)).0 {
        let (room, work, excluded) = choose|room: int, work: int, excluded: Seq<Handle>|
            next == (#[trigger] m.retransmit(room, work, excluded)).0;
        lemma_retransmit_kept(m, room, work, excluded);
    } else if exists|g: int|
        m.is_active(g) && next == #[trigger] m.released(g, m.lead(g, 0)) {
        let g = choose|g: int|
            m.is_active(g) && next == #[trigger] m.released(g, m.lead(g, 0));
        lemma_lead(m, g, 0);
        assert forall|k: int| 0 <= k < m.all[g].len() implies 0 <= #[trigger] m.all[g][k]
            < m.nodes.slots.len() && m.group_of(m.all[g][k]) == g by {
            assert(m.all[g].contains(m.all[g][k]));
            assert(m.listed_sound(g, m.all[g][k]));
        }
        lemma_released_kept(m, g, m.lead(g, 0));
    }
}

/// What is done with a record that a handle names.
proof fn lemma_handle_kept(m: JournalModel, handle: Handle)
    ensures
        m.nodes.outlived_by(m.with_acknowledged(handle).nodes),
        m.nodes.outlived_by(m.with_lost(handle).nodes),
        m.nodes.outlived_by(m.with_carrier(handle).nodes),
        m.nodes.outlived_by(m.without_group(handle).nodes),
{
    let i = handle.index as int;
    if m.valid(handle) {
        assert(m.nodes.live(i));
        lemma_discard_kept(m, i, false);
        let node = m.node(i);
        lemma_put_over(m.nodes, i, Node { carriers: 0, ..node });
        lemma_put_over(m.nodes, i, Node { carriers: 1, ..node });
        lemma_put_over(m.nodes, i, Node { carriers: (node.carriers - 1) as u16, ..node });
        lemma_put_over(m.nodes, i, Node { carriers: (node.carriers + 1) as u16, ..node });
        assert(m.settled(i).nodes == m.nodes);
    }
}

/// A record whose only packet was lost waits to be sent again, behind those of its stream that
/// were lost before; one that other packets carry still is in flight with one packet less.
pub proof fn law_lost_waits_again(m: JournalModel, handle: Handle)
    requires
        m.shaped(),
        m.sound(),
        m.valid(handle),
        m.is_active(m.group_of(handle.index as int)),
        m.node(handle.index as int).carriers > 0,
    ensures
        ({
            let i = handle.index as int;
            let g = m.group_of(i);
            let after = m.with_lost(handle);
            &&& m.node(i).carriers == 1 ==> after.retry[g] == m.retry[g].push(i)
                && !after.inflight[g].contains(i) && after.node(i).carriers == 0
            &&& m.node(i).carriers > 1 ==> after.node(i).carriers == m.node(i).carriers - 1
                && after.inflight == m.inflight && after.retry == m.retry
            &&& after.node(i).record == m.node(i).record
            &&& after.active == m.active
        }),
{
    let i = handle.index as int;
    let g = m.group_of(i);
    assert(m.node_sound(i));
    assert(m.listed_sound(g, i));
    lemma_without(m.inflight[g], i);
}

/// A record that was acknowledged is neither in flight nor sent again; those of a stream that
/// is still wanted stay until all before them are acknowledged too.
pub proof fn law_acknowledged_settles(m: JournalModel, handle: Handle)
    requires
        m.shaped(),
        m.sound(),
        m.valid(handle),
        m.is_active(m.group_of(handle.index as int)),
    ensures
        ({
            let i = handle.index as int;
            let g = m.group_of(i);
            let after = m.with_acknowledged(handle);
            &&& after.acknowledged(i)
            &&& !after.retry[g].contains(i) && !after.inflight[g].contains(i)
            &&& after.node(i).record == m.node(i).record
            &&& after.all == m.all
            &&& after.active == m.active
            &&& !after.valid(handle)
        }),
{
    let i = handle.index as int;
    let g = m.group_of(i);
    assert(m.node_sound(i));
    assert(m.listed_sound(g, i));
    lemma_settled(m, i);
    if m.retry[g].contains(i) {
        lemma_without(m.retry[g], i);
    }
    if m.inflight[g].contains(i) {
        lemma_without(m.inflight[g], i);
    }
}

/// A record that is sent again is in flight and does not wait any more; one that is in flight
/// is carried by one packet more.
pub proof fn law_carried_again(m: JournalModel, handle: Handle)
    requires
        m.shaped(),
        m.sound(),
        m.carries(handle),
    ensures
        ({
            let i = handle.index as int;
            let g = m.group_of(i);
            let after = m.with_carrier(handle);
            &&& m.retry[g].contains(i) ==> after.node(i).carriers == 1
                && !after.retry[g].contains(i) && after.inflight[g] == m.inflight[g].push(i)
            &&& !m.retry[g].contains(i) ==> after.node(i).carriers == m.node(i).carriers + 1
                && after.inflight == m.inflight && after.retry == m.retry
            &&& after.node(i).record == m.node(i).record
            &&& after.active == m.active
        }),
{
    let i = handle.index as int;
    let g = m.group_of(i);
    assert(m.node_sound(i));
    assert(m.listed_sound(g, i));
    if m.retry[g].contains(i) {
        lemma_without(m.retry[g], i);
    }
}

/// What is sent again is what waits longest of the stream whose turn it is, where it fits and
/// is not to be left out; what is looked at goes to the end of its queue.
pub proof fn law_longest_waiting_first(
    m: JournalModel,
    room: int,
    work: int,
    excluded: Seq<Handle>,
)
    requires
        work > 0,
        m.retry_groups.len() > 0,
        !excluded.contains(m.handle_at(m.retry[m.retry_groups[0]][0])),
        m.node(m.retry[m.retry_groups[0]][0]).record.len <= room,
    ensures
        ({
            let g = m.retry_groups[0];
            let i = m.retry[g][0];
            let (after, left, found) = m.retransmit(room, work, excluded);
            &&& found == Some((m.handle_at(i), m.groups.at(g).owner, m.node(i).record))
            &&& left == work - 1
            &&& 0 <= g < m.retry.len() && m.retry[g].len() > 1 ==> after.retry[g].last() == i
                && after.retry[g].drop_last() == m.retry[g].skip(1)
            &&& m.retry_groups.len() > 1 ==> after.retry_groups.last() == g
                && after.retry_groups.drop_last() == m.retry_groups.skip(1)
            &&& after.nodes == m.nodes && after.inflight == m.inflight
        }),
{
    let g = m.retry_groups[0];
    let (after, left, found) = m.retransmit(room, work, excluded);
    if m.retry_groups.len() > 1 {
        assert(after.retry_groups.drop_last() =~= m.retry_groups.skip(1));
    }
    if 0 <= g < m.retry.len() && m.retry[g].len() > 1 {
        assert(after.retry[g].drop_last() =~= m.retry[g].skip(1));
    }
}

/// Whatever is sent again fits the room that there is, and is not to be left out.
pub proof fn law_sent_again_fits(m: JournalModel, room: int, work: int, excluded: Seq<Handle>)
    ensures
        m.retransmit(room, work, excluded).2 matches Some((handle, owner, record)) ==> record.len
            <= room && !excluded.contains(handle),
        m.retransmit(room, work, excluded).0.nodes == m.nodes,
    decreases work,
{
    if work > 0 && m.retry_groups.len() > 0 {
        let i = m.retry[m.retry_groups[0]][0];
        if excluded.contains(m.handle_at(i)) || m.node(i).record.len > room {
            law_sent_again_fits(m.turned(), room, work - 1, excluded);
        }
    }
}

/// What can be released of a stream are its first records, up to the first that is not
/// acknowledged: from where the first begins, as many bytes as they hold, and the end where
/// the last of them has it.
pub proof fn law_prefix_is_acknowledged(m: JournalModel, g: int, k: int)
    requires
        0 <= k < m.all[g].len(),
    ensures
        ({
            let count = m.lead(g, 0);
            &&& 0 <= count <= m.all[g].len()
            &&& k < count ==> m.acknowledged(m.all[g][k])
            &&& count < m.all[g].len() ==> !m.acknowledged(m.all[g][count])
            &&& count > 0 ==> m.prefix(g).0 == m.record(g, 0).offset && m.prefix(g).2 == m.record(
                g,
                count - 1,
            ).fin
            &&& m.prefix(g).1 == m.bytes(g, count)
            &&& m.bytes(g, k + 1) == m.bytes(g, k) + m.record(g, k).len
            &&& m.bytes(g, 0) == 0
        }),
{
    lemma_lead_extent(m, g, 0, k);
}

proof fn lemma_lead_extent(m: JournalModel, g: int, from: int, k: int)
    requires
        0 <= from <= m.all[g].len(),
        from <= k,
    ensures
        0 <= m.lead(g, from) <= m.all[g].len() - from,
        k < from + m.lead(g, from) ==> m.acknowledged(m.all[g][k]),
        from + m.lead(g, from) < m.all[g].len() ==> !m.acknowledged(
            m.all[g][from + m.lead(g, from)],
        ),
    decreases m.all[g].len() - from,
{
    if from < m.all[g].len() && m.acknowledged(m.all[g][from]) {
        lemma_lead_extent(m, g, from + 1, if k > from {
            k
        } else {
            from + 1
        });
    }
}

/// A record that was noted is the last of its stream, in flight, and carried by one packet.
pub proof fn law_noted_in_flight(m: JournalModel, group: GroupId, record: Stream)
    requires
        m.shaped(),
        m.sound(),
        m.nodes.next() is Some,
        m.owned(group, m.groups.at(group.index as int).owner),
        m.groups.at(group.index as int).len < usize::MAX,
    ensures
        ({
            let i = m.nodes.next()->0;
            let g = group.index as int;
            let after = m.with_record(group, record);
            &&& after.nodes.live(i) && after.node(i).record == record && after.node(i).carriers == 1
                && after.node(i).group == group
            &&& after.all[g] == m.all[g].push(i)
            &&& after.inflight[g] == m.inflight[g].push(i)
            &&& after.retry == m.retry
            &&& after.active == m.active + 1
        }),
{
}

} // verus!
