//! Every operation of the journal keeps its state sound.
use vstd::prelude::*;

use crate::conn::links::without;
use crate::conn::arena::Slot;
use crate::conn::stream_journal::model::{
    active_len, active_total, after, first, Group, GroupId, JournalModel, rotated, SendHandle,
    Stream,
};

verus! {

/// What is left without an element.
pub proof fn lemma_without(order: Seq<int>, element: int)
    requires
        order.no_duplicates(),
        order.contains(element),
    ensures
        without(order, element).len() == order.len() - 1,
        without(order, element).no_duplicates(),
        forall|x: int| #[trigger]
            without(order, element).contains(x) == (order.contains(x) && x != element),
{
    let at = order.index_of(element);
    let rest = without(order, element);
    assert forall|x: int| #[trigger]
        rest.contains(x) == (order.contains(x) && x != element) by {
        if rest.contains(x) {
            let p = rest.index_of(x);
            assert(rest[p] == if p < at {
                order[p]
            } else {
                order[p + 1]
            });
        }
        if order.contains(x) && x != element {
            let p = order.index_of(x);
            let q = if p < at {
                p
            } else {
                p - 1
            };
            assert(rest[q] == x);
        }
    }
}

/// What is there with one more element.
pub proof fn lemma_push(order: Seq<int>, element: int)
    ensures
        forall|x: int| #[trigger]
            order.push(element).contains(x) == (order.contains(x) || x == element),
{
    let longer = order.push(element);
    assert forall|x: int| #[trigger]
        longer.contains(x) == (order.contains(x) || x == element) by {
        if order.contains(x) {
            assert(longer[order.index_of(x)] == x);
        }
        assert(longer[order.len() as int] == element);
    }
}

/// A sequence that holds nothing is empty.
pub proof fn lemma_holds(order: Seq<int>)
    ensures
        order.len() > 0 ==> order.contains(order[0]),
        first(order) matches Some(x) ==> order.contains(x),
{
}

/// The element after another is another one.
pub proof fn lemma_after(order: Seq<int>, element: int)
    requires
        order.no_duplicates(),
        order.contains(element),
    ensures
        after(order, element) matches Some(x) ==> order.contains(x) && x != element,
{
}

/// How the total changes with one group.
pub proof fn lemma_active_update(groups: Seq<Slot<Group>>, g: int, slot: Slot<Group>, count: int)
    requires
        0 <= g < groups.len(),
        count <= groups.len(),
    ensures
        active_total(groups.update(g, slot), count) == active_total(groups, count) + if g < count {
            active_len(slot.value) - active_len(groups[g].value)
        } else {
            0
        },
    decreases count,
{
    if count > 0 {
        lemma_active_update(groups, g, slot, count - 1);
    }
}

/// The total does not depend on later groups.
pub proof fn lemma_active_push(groups: Seq<Slot<Group>>, slot: Slot<Group>, count: int)
    requires
        count <= groups.len(),
    ensures
        active_total(groups.push(slot), count) == active_total(groups, count),
    decreases count,
{
    if count > 0 {
        lemma_active_push(groups, slot, count - 1);
    }
}

/// A group's share is no more than the total.
pub proof fn lemma_active_part(groups: Seq<Slot<Group>>, g: int, count: int)
    requires
        0 <= g < count <= groups.len(),
    ensures
        0 <= active_len(groups[g].value) <= active_total(groups, count),
    decreases count,
{
    lemma_active_nonnegative(groups, count - 1);
    if g < count - 1 {
        lemma_active_part(groups, g, count - 1);
    }
}

pub proof fn lemma_active_nonnegative(groups: Seq<Slot<Group>>, count: int)
    requires
        count <= groups.len(),
    ensures
        0 <= active_total(groups, count),
    decreases count,
{
    if count > 0 {
        lemma_active_nonnegative(groups, count - 1);
    }
}

/// Taking a record out of the lists of what is to be delivered keeps the state
/// sound, once no packet carries it.
pub proof fn lemma_settled(m: JournalModel, i: int)
    requires
        m.shaped(),
        m.sound(),
        m.nodes.live(i),
    ensures
        m.settled(i).with_carriers(i, 0).sound(),
{
    let g = m.group_of(i);
    assert(m.node_sound(i));
    assert(m.all[g].contains(i));
    assert(m.listed_sound(g, i));
    assert(m.group_sound(g));
    let m1 = if m.retry[g].contains(i) {
        m.unlink_retry(g, i)
    } else {
        m
    };
    if m.retry[g].contains(i) {
        lemma_without(m.retry[g], i);
        lemma_holds(without(m.retry[g], i));
        if m.retry_groups.contains(g) {
            lemma_without(m.retry_groups, g);
        }
    }
    let m2 = m.settled(i);
    if m.inflight[g].contains(i) {
        lemma_without(m.inflight[g], i);
        lemma_after(m.inflight[g], i);
        lemma_holds(without(m.inflight[g], i));
        if m.probe_groups.contains(g) {
            lemma_without(m.probe_groups, g);
            lemma_after(m.probe_groups, g);
            match after(m.probe_groups, g) {
                Some(next) => {
                    lemma_holds(m.inflight[next]);
                },
                None => {},
            }
        }
    }
    let r = m2.with_carriers(i, 0);
    assert(r.all == m.all);
    assert(forall|x: int| r.nodes.live(x) == m.nodes.live(x));
    assert(forall|x: int| r.groups.live(x) == m.groups.live(x));
    assert forall|x: int| #[trigger] r.nodes.live(x) implies r.node_sound(x) by {
        assert(m.nodes.live(x));
        assert(m.node_sound(x));
    }
    assert(r.lists_sound()) by {
        assert forall|h: int, x: int|
            0 <= h < r.all.len() && #[trigger] r.all[h].contains(x) implies r.listed_sound(
            h,
            x,
        ) by {
            assert(m.listed_sound(h, x));
        }
        assert forall|h: int, x: int|
            0 <= h < r.retry.len() && #[trigger] r.retry[h].contains(x) implies r.all[h].contains(
            x,
        ) && r.node(x).carriers == 0 by {
            assert(m.retry[h].contains(x));
        }
        assert forall|h: int, x: int|
            0 <= h < r.inflight.len()
                && #[trigger] r.inflight[h].contains(x) implies r.all[h].contains(x) by {
            assert(m.inflight[h].contains(x));
        }
    }
    assert forall|h: int| #[trigger] r.groups.live(h) implies r.group_sound(h) by {
        assert(m.groups.live(h));
        assert(m.group_sound(h));
    }
    assert(r.groups_sound());
    assert(r.cursor_sound());
}

/// The lists of a state after one was settled.
pub proof fn lemma_settled_shape(m: JournalModel, i: int)
    requires
        m.shaped(),
        m.sound(),
        m.nodes.live(i),
    ensures
        m.settled(i).all == m.all,
        m.settled(i).nodes == m.nodes,
        m.settled(i).groups == m.groups,
        m.settled(i).reclaim_groups == m.reclaim_groups,
        m.settled(i).active == m.active,
        m.settled(i).limit == m.limit,
        m.settled(i).retry.len() == m.retry.len(),
        m.settled(i).inflight.len() == m.inflight.len(),
        forall|h: int|
            0 <= h < m.retry.len() ==> !(#[trigger] m.settled(i).retry[h]).contains(i),
        forall|h: int|
            0 <= h < m.inflight.len() ==> !(#[trigger] m.settled(i).inflight[h]).contains(i),
        m.settled(i).retry_groups.no_duplicates(),
        m.settled(i).probe_groups.no_duplicates(),
{
    let g = m.group_of(i);
    assert(m.node_sound(i));
    assert(m.all[g].contains(i));
    if m.retry[g].contains(i) {
        lemma_without(m.retry[g], i);
        if m.retry_groups.contains(g) {
            lemma_without(m.retry_groups, g);
        }
    }
    if m.inflight[g].contains(i) {
        lemma_without(m.inflight[g], i);
        if m.probe_groups.contains(g) {
            lemma_without(m.probe_groups, g);
        }
    }
    assert forall|h: int| 0 <= h < m.retry.len() implies !(
    #[trigger] m.settled(i).retry[h]).contains(i) by {
        if h != g && m.retry[h].contains(i) {
            assert(m.all[h].contains(i));
        }
    }
    assert forall|h: int| 0 <= h < m.inflight.len() implies !(
    #[trigger] m.settled(i).inflight[h]).contains(i) by {
        if h != g && m.inflight[h].contains(i) {
            assert(m.all[h].contains(i));
        }
    }
}

/// Giving a record up keeps the state sound.
pub proof fn lemma_discard(m: JournalModel, i: int, active: bool)
    requires
        m.shaped(),
        m.sound(),
        m.nodes.live(i),
        active == m.is_active(m.group_of(i)),
    ensures
        m.discard(i, active).sound(),
        !m.discard(i, active).nodes.live(i),
{
    let g = m.group_of(i);
    assert(m.node_sound(i));
    assert(m.all[g].contains(i));
    assert(m.group_sound(g));
    lemma_settled(m, i);
    lemma_settled_shape(m, i);
    let m2 = m.settled(i);
    let c = m2.with_carriers(i, 0);
    assert(c.group_sound(g));
    lemma_without(m.all[g], i);
    lemma_holds(without(m.all[g], i));
    let out = m2.unlink_all(g, i);
    let rest = JournalModel {
        nodes: out.nodes.put(i, None).released(i),
        active: if active {
            m.active - 1
        } else {
            m.active
        },
        ..out
    };
    lemma_active_update(
        m.groups.slots,
        g,
        out.groups.slots[g],
        m.groups.slots.len() as int,
    );
    assert(rest.groups.slots =~= m.groups.slots.update(g, out.groups.slots[g]));
    assert(rest.counted());
    assert(forall|x: int| rest.nodes.live(x) == (m.nodes.live(x) && x != i));
    assert(forall|x: int| rest.groups.live(x) == m.groups.live(x));
    assert(rest.nodes_sound()) by {
        assert forall|x: int| #[trigger] rest.nodes.live(x) implies rest.node_sound(x) by {
            assert(c.nodes.live(x));
            assert(c.node_sound(x));
        }
    }
    assert(rest.lists_sound()) by {
        assert forall|h: int, x: int|
            0 <= h < rest.all.len()
                && #[trigger] rest.all[h].contains(x) implies rest.listed_sound(h, x) by {
            assert(c.all[h].contains(x));
            assert(c.listed_sound(h, x));
            if x == i {
                assert(h == g);
            }
        }
        assert forall|h: int, x: int|
            0 <= h < rest.retry.len()
                && #[trigger] rest.retry[h].contains(x) implies rest.all[h].contains(x)
            && rest.node(x).carriers == 0 by {
            assert(c.retry[h].contains(x));
            assert(m2.retry[h].contains(x));
            assert(x != i);
        }
        assert forall|h: int, x: int|
            0 <= h < rest.inflight.len()
                && #[trigger] rest.inflight[h].contains(x) implies rest.all[h].contains(x) by {
            assert(c.inflight[h].contains(x));
            assert(m2.inflight[h].contains(x));
            assert(x != i);
        }
    }
    assert(rest.cursor_sound());
    if without(m.all[g], i).len() > 0 {
        assert forall|h: int| #[trigger] rest.groups.live(h) implies rest.group_sound(h) by {
            assert(c.groups.live(h));
            assert(c.group_sound(h));
        }
        assert(rest.groups_sound());
        assert(m.discard(i, active) == rest);
    } else {
        lemma_release_group(rest, g);
        assert(m.discard(i, active) == rest.release_group(g));
    }
}

/// Giving up a group without records keeps the state sound.
pub proof fn lemma_release_group(m: JournalModel, g: int)
    requires
        m.retry_groups.no_duplicates(),
        m.probe_groups.no_duplicates(),
        m.reclaim_groups.no_duplicates(),
        m.all.len() == m.groups.slots.len(),
        m.retry.len() == m.groups.slots.len(),
        m.inflight.len() == m.groups.slots.len(),
        m.nodes_sound(),
        m.lists_sound(),
        m.cursor_sound(),
        m.counted(),
        m.groups.live(g),
        m.all[g].len() == 0,
        m.groups.at(g).len == 0,
        forall|h: int| #[trigger] m.groups.live(h) && h != g ==> m.group_sound(h),
        forall|h: int| #[trigger] m.retry_groups.contains(h) ==> m.groups.live(h),
        forall|h: int| #[trigger] m.probe_groups.contains(h) ==> m.groups.live(h),
        forall|h: int| #[trigger] m.reclaim_groups.contains(h) ==> m.groups.live(h),
    ensures
        m.release_group(g).sound(),
{
    if m.retry_groups.contains(g) {
        lemma_without(m.retry_groups, g);
    }
    if m.probe_groups.contains(g) {
        lemma_without(m.probe_groups, g);
        lemma_after(m.probe_groups, g);
        match after(m.probe_groups, g) {
            Some(next) => {
                lemma_holds(m.inflight[next]);
            },
            None => {},
        }
    }
    if m.reclaim_groups.contains(g) {
        lemma_without(m.reclaim_groups, g);
    }
    let r = m.release_group(g);
    let slot = r.groups.slots[g];
    assert(r.groups.slots =~= m.groups.slots.update(g, slot));
    lemma_active_update(m.groups.slots, g, slot, m.groups.slots.len() as int);
    assert(r.counted());
    assert forall|x: int| #[trigger] r.nodes.live(x) implies r.node_sound(x) by {
        assert(m.nodes.live(x));
        assert(m.node_sound(x));
        assert(m.group_of(x) != g);
    }
    assert(r.lists_sound()) by {
        assert forall|h: int, x: int|
            0 <= h < r.all.len() && #[trigger] r.all[h].contains(x) implies r.listed_sound(
            h,
            x,
        ) by {
            assert(m.all[h].contains(x));
            assert(m.listed_sound(h, x));
            assert(h != g);
        }
    }
    assert forall|h: int| #[trigger] r.groups.live(h) implies r.group_sound(h) by {
        assert(m.groups.live(h) && h != g);
        assert(m.group_sound(h));
    }
    assert(r.groups_sound());
    assert(r.cursor_sound());
}

/// Another number of carriers, of a record in flight.
pub proof fn lemma_with_carriers(m: JournalModel, i: int, carriers: u16)
    requires
        m.shaped(),
        m.sound(),
        m.nodes.live(i),
        m.node(i).carriers > 0,
        carriers > 0,
    ensures
        m.with_carriers(i, carriers).sound(),
{
    let r = m.with_carriers(i, carriers);
    assert(forall|x: int| r.nodes.live(x) == m.nodes.live(x));
    assert forall|x: int| #[trigger] r.nodes.live(x) implies r.node_sound(x) by {
        assert(m.nodes.live(x));
        assert(m.node_sound(x));
    }
    assert forall|h: int, x: int|
        0 <= h < r.all.len() && #[trigger] r.all[h].contains(x) implies r.listed_sound(h, x) by {
        assert(m.listed_sound(h, x));
    }
    assert forall|h: int, x: int|
        0 <= h < r.retry.len() && #[trigger] r.retry[h].contains(x) implies r.all[h].contains(x)
        && r.node(x).carriers == 0 by {
        assert(m.retry[h].contains(x));
        if x == i {
            assert(m.node(x).carriers == 0);
        }
    }
    assert(r.lists_sound());
    assert forall|h: int| #[trigger] r.groups.live(h) implies r.group_sound(h) by {
        assert(m.groups.live(h));
        assert(m.group_sound(h));
    }
    assert(r.groups_sound());
}

/// A record that no packet carries any more waits to be sent again.
pub proof fn lemma_requeue(m: JournalModel, i: int)
    requires
        m.shaped(),
        m.sound(),
        m.nodes.live(i),
        m.is_active(m.group_of(i)),
        m.inflight[m.group_of(i)].contains(i),
    ensures
        m.with_carriers(i, 0).unlink_inflight(m.group_of(i), i).link_retry(
            m.group_of(i),
            i,
        ).sound(),
{
    let g = m.group_of(i);
    assert(m.node_sound(i));
    assert(m.all[g].contains(i));
    assert(m.listed_sound(g, i));
    assert(!m.retry[g].contains(i));
    lemma_settled(m, i);
    lemma_settled_shape(m, i);
    let c = m.settled(i).with_carriers(i, 0);
    assert(c == m.with_carriers(i, 0).unlink_inflight(g, i));
    assert(c.group_sound(g));
    lemma_push(c.retry[g], i);
    lemma_push(c.retry_groups, g);
    let r = c.link_retry(g, i);
    lemma_holds(c.retry[g]);
    assert forall|x: int| #[trigger] r.nodes.live(x) implies r.node_sound(x) by {
        assert(c.nodes.live(x));
        assert(c.node_sound(x));
    }
    assert forall|h: int, x: int|
        0 <= h < r.all.len() && #[trigger] r.all[h].contains(x) implies r.listed_sound(h, x) by {
        assert(c.all[h].contains(x));
        assert(c.listed_sound(h, x));
    }
    assert forall|h: int, x: int|
        0 <= h < r.retry.len() && #[trigger] r.retry[h].contains(x) implies r.all[h].contains(x)
        && r.node(x).carriers == 0 by {
        if !(h == g && x == i) {
            assert(c.retry[h].contains(x));
        }
    }
    assert forall|h: int, x: int|
        0 <= h < r.inflight.len() && #[trigger] r.inflight[h].contains(x) implies r.all[h].contains(
        x,
    ) by {
        assert(c.inflight[h].contains(x));
    }
    assert(r.lists_sound());
    assert forall|h: int| #[trigger] r.groups.live(h) implies r.group_sound(h) by {
        assert(c.groups.live(h));
        assert(c.group_sound(h));
    }
    assert(r.groups_sound());
}

/// A record that was to be sent again is in flight.
pub proof fn lemma_resend(m: JournalModel, i: int)
    requires
        m.shaped(),
        m.sound(),
        m.nodes.live(i),
        m.is_active(m.group_of(i)),
        m.retry[m.group_of(i)].contains(i),
    ensures
        m.unlink_retry(m.group_of(i), i).with_carriers(i, 1).link_inflight(
            m.group_of(i),
            i,
        ).sound(),
{
    let g = m.group_of(i);
    assert(m.node_sound(i));
    assert(m.all[g].contains(i));
    assert(m.listed_sound(g, i));
    assert(m.node(i).carriers == 0);
    lemma_settled(m, i);
    lemma_settled_shape(m, i);
    let c = m.settled(i).with_carriers(i, 0);
    assert(c.group_sound(g));
    let k = m.unlink_retry(g, i).with_carriers(i, 1);
    assert(m.settled(i) == m.unlink_retry(g, i));
    lemma_push(c.inflight[g], i);
    lemma_push(c.probe_groups, g);
    lemma_holds(c.inflight[g]);
    let r = k.link_inflight(g, i);
    assert(forall|x: int| r.nodes.live(x) == c.nodes.live(x));
    assert forall|x: int| #[trigger] r.nodes.live(x) implies r.node_sound(x) by {
        assert(c.nodes.live(x));
        assert(c.node_sound(x));
    }
    assert forall|h: int, x: int|
        0 <= h < r.all.len() && #[trigger] r.all[h].contains(x) implies r.listed_sound(h, x) by {
        assert(c.all[h].contains(x));
        assert(c.listed_sound(h, x));
    }
    assert forall|h: int, x: int|
        0 <= h < r.retry.len() && #[trigger] r.retry[h].contains(x) implies r.all[h].contains(x)
        && r.node(x).carriers == 0 by {
        assert(c.retry[h].contains(x));
        assert(m.settled(i).retry[h].contains(x));
    }
    assert forall|h: int, x: int|
        0 <= h < r.inflight.len() && #[trigger] r.inflight[h].contains(x) implies r.all[h].contains(
        x,
    ) by {
        if !(h == g && x == i) {
            assert(c.inflight[h].contains(x));
        }
    }
    assert(r.lists_sound());
    assert forall|h: int| #[trigger] r.groups.live(h) implies r.group_sound(h) by {
        assert(c.groups.live(h));
        assert(c.group_sound(h));
    }
    assert(r.groups_sound());
}

/// Cancelling a group keeps the state sound.
pub proof fn lemma_cancelled(m: JournalModel, id: GroupId)
    requires
        m.shaped(),
        m.sound(),
    ensures
        m.cancelled(id).sound(),
{
    let g = id.index as int;
    if m.names(id) && m.groups.at(g).active {
        assert(m.group_sound(g));
        if m.retry_groups.contains(g) {
            lemma_without(m.retry_groups, g);
        }
        if m.probe_groups.contains(g) {
            lemma_without(m.probe_groups, g);
            lemma_after(m.probe_groups, g);
            match after(m.probe_groups, g) {
                Some(next) => {
                    lemma_holds(m.inflight[next]);
                },
                None => {},
            }
        }
        lemma_push(m.reclaim_groups, g);
        let out = m.unlink_retry_group(g).unlink_probe_group(g);
        let idle = JournalModel {
            groups: out.groups.put(g, Some(Group { active: false, ..out.groups.at(g) })),
            active: m.active - m.groups.at(g).len,
            ..out
        };
        let slot = idle.groups.slots[g];
        assert(idle.groups.slots =~= m.groups.slots.update(g, slot));
        lemma_active_update(m.groups.slots, g, slot, m.groups.slots.len() as int);
        assert(idle.nodes_sound()) by {
            assert forall|x: int| #[trigger] idle.nodes.live(x) implies idle.node_sound(x) by {
                assert(m.nodes.live(x));
                assert(m.node_sound(x));
            }
        }
        assert(idle.lists_sound()) by {
            assert forall|h: int, x: int|
                0 <= h < idle.all.len()
                    && #[trigger] idle.all[h].contains(x) implies idle.listed_sound(h, x) by {
                assert(m.all[h].contains(x));
                assert(m.listed_sound(h, x));
            }
        }
        assert forall|h: int| #[trigger] idle.groups.live(h) && h != g implies idle.group_sound(
            h,
        ) by {
            assert(m.groups.live(h));
            assert(m.group_sound(h));
        }
        assert(idle.cursor_sound());
        if m.groups.at(g).len == 0 {
            lemma_release_group(idle, g);
        } else {
            let r = idle.link_reclaim_group(g);
            assert forall|h: int| #[trigger] r.groups.live(h) implies r.group_sound(h) by {
                assert(m.groups.live(h));
                if h != g {
                    assert(idle.group_sound(h));
                }
            }
            assert(r.groups_sound());
            assert(r.nodes_sound()) by {
                assert forall|x: int| #[trigger] r.nodes.live(x) implies r.node_sound(x) by {
                    assert(idle.nodes.live(x));
                    assert(idle.node_sound(x));
                }
            }
            assert(r.lists_sound()) by {
                assert forall|h: int, x: int|
                    0 <= h < r.all.len() && #[trigger] r.all[h].contains(
                        x,
                    ) implies r.listed_sound(h, x) by {
                    assert(idle.all[h].contains(x));
                    assert(idle.listed_sound(h, x));
                }
            }
        }
    }
}

/// The order after a turn holds the same.
pub proof fn lemma_rotated(order: Seq<int>)
    requires
        order.no_duplicates(),
    ensures
        rotated(order).len() == order.len(),
        rotated(order).no_duplicates(),
        forall|x: int| #[trigger] rotated(order).contains(x) == order.contains(x),
        order.len() > 1 ==> rotated(order) == without(order, order[0]).push(order[0]),
{
    if order.len() > 1 {
        let turned = rotated(order);
        assert(order.index_of(order[0]) == 0);
        assert(turned =~= without(order, order[0]).push(order[0]));
        assert forall|x: int| #[trigger] turned.contains(x) == order.contains(x) by {
            if turned.contains(x) {
                let p = turned.index_of(x);
                assert(turned[p] == if p < order.len() - 1 {
                    order[p + 1]
                } else {
                    order[0]
                });
            }
            if order.contains(x) {
                let p = order.index_of(x);
                let q = if p > 0 {
                    p - 1
                } else {
                    order.len() - 1
                };
                assert(turned[q] == x);
            }
        }
    }
}

/// A turn keeps the state sound.
pub proof fn lemma_turned(m: JournalModel)
    requires
        m.shaped(),
        m.sound(),
        m.retry_groups.len() > 0,
    ensures
        m.turned().sound(),
{
    let g = m.retry_groups[0];
    assert(m.retry_groups.contains(g));
    assert(m.group_sound(g));
    lemma_rotated(m.retry[g]);
    lemma_rotated(m.retry_groups);
    let r = m.turned();
    assert forall|x: int| #[trigger] r.nodes.live(x) implies r.node_sound(x) by {
        assert(m.nodes.live(x));
        assert(m.node_sound(x));
    }
    assert forall|h: int, x: int|
        0 <= h < r.all.len() && #[trigger] r.all[h].contains(x) implies r.listed_sound(h, x) by {
        assert(m.all[h].contains(x));
        assert(m.listed_sound(h, x));
    }
    assert forall|h: int, x: int|
        0 <= h < r.retry.len() && #[trigger] r.retry[h].contains(x) implies r.all[h].contains(x)
        && r.node(x).carriers == 0 by {
        assert(m.retry[h].contains(x));
    }
    assert(r.lists_sound());
    assert forall|h: int| #[trigger] r.groups.live(h) implies r.group_sound(h) by {
        assert(m.groups.live(h));
        assert(m.group_sound(h));
    }
    assert(r.groups_sound());
}

/// Giving up the oldest record of a cancelled group keeps the state sound.
pub proof fn lemma_reclaimed(m: JournalModel)
    requires
        m.shaped(),
        m.sound(),
    ensures
        m.reclaimed().sound(),
        forall|id: GroupId, owner|
            #![trigger m.reclaimed().owned(id, owner)]
            m.owned(id, owner) ==> m.reclaimed().owned(id, owner),
{
    if m.reclaim_groups.len() > 0 {
        let g = m.reclaim_groups[0];
        assert(m.reclaim_groups.contains(g));
        assert(m.group_sound(g));
        let i = m.all[g][0];
        assert(m.all[g].contains(i));
        assert(m.listed_sound(g, i));
        lemma_discard(m, i, false);
        lemma_settled_shape(m, i);
    }
}

/// One more group keeps the state sound.
pub proof fn lemma_with_group(m: JournalModel, owner: SendHandle)
    requires
        m.shaped(),
        m.sound(),
        m.groups.next() is Some,
    ensures
        m.with_group(owner).sound(),
{
    let g = m.groups.next()->0;
    let r = m.with_group(owner);
    if m.groups.free.len() > 0 {
        assert(m.groups.free[0] == g);
        lemma_holds(m.all[g]);
        lemma_holds(m.retry[g]);
        lemma_holds(m.inflight[g]);
        if m.all[g].len() > 0 {
            assert(m.listed_sound(g, m.all[g][0]));
        }
        if m.retry[g].len() > 0 {
            assert(m.all[g].contains(m.retry[g][0]));
        }
        if m.inflight[g].len() > 0 {
            assert(m.all[g].contains(m.inflight[g][0]));
        }
        assert(r.groups.slots =~= m.groups.slots.update(g, r.groups.slots[g]));
        lemma_active_update(m.groups.slots, g, r.groups.slots[g], m.groups.slots.len() as int);
    } else {
        assert(r.groups.slots =~= m.groups.slots.push(r.groups.slots[g]));
        lemma_active_push(m.groups.slots, r.groups.slots[g], m.groups.slots.len() as int);
    }
    assert(!m.groups.live(g));
    assert(r.counted());
    assert(forall|h: int| r.groups.live(h) == (m.groups.live(h) || h == g));
    assert(forall|h: int| 0 <= h < m.all.len() ==> r.all[h] == m.all[h]);
    assert(r.all[g].len() == 0 && r.retry[g].len() == 0 && r.inflight[g].len() == 0);
    assert forall|x: int| #[trigger] r.nodes.live(x) implies r.node_sound(x) by {
        assert(m.nodes.live(x));
        assert(m.node_sound(x));
    }
    assert forall|h: int, x: int|
        0 <= h < r.all.len() && #[trigger] r.all[h].contains(x) implies r.listed_sound(h, x) by {
        assert(h != g);
        assert(m.all[h].contains(x));
        assert(m.listed_sound(h, x));
    }
    assert forall|h: int, x: int|
        0 <= h < r.retry.len() && #[trigger] r.retry[h].contains(x) implies r.all[h].contains(x)
        && r.node(x).carriers == 0 by {
        assert(h != g);
        assert(m.retry[h].contains(x));
    }
    assert forall|h: int, x: int|
        0 <= h < r.inflight.len() && #[trigger] r.inflight[h].contains(x) implies r.all[h].contains(
        x,
    ) by {
        assert(h != g);
        assert(m.inflight[h].contains(x));
    }
    assert(r.lists_sound());
    assert forall|h: int| #[trigger] r.groups.live(h) implies r.group_sound(h) by {
        if h != g {
            assert(m.groups.live(h));
            assert(m.group_sound(h));
        } else {
            assert(!m.retry_groups.contains(g));
            assert(!m.probe_groups.contains(g));
            assert(!m.reclaim_groups.contains(g));
        }
    }
    assert(r.groups_sound());
    assert(r.cursor_sound());
}

/// One more record keeps the state sound.
pub proof fn lemma_with_record(m: JournalModel, id: GroupId, record: Stream)
    requires
        m.shaped(),
        m.sound(),
        m.nodes.next() is Some,
        m.names(id),
        m.groups.at(id.index as int).active,
        m.groups.at(id.index as int).len < usize::MAX,
    ensures
        m.with_record(id, record).sound(),
{
    let i = m.nodes.next()->0;
    let g = id.index as int;
    assert(m.group_sound(g));
    let r = m.with_record(id, record);
    if m.nodes.free.len() > 0 {
        assert(m.nodes.free[0] == i);
    }
    assert(!m.nodes.live(i));
    lemma_push(m.all[g], i);
    lemma_push(m.inflight[g], i);
    lemma_push(m.probe_groups, g);
    lemma_holds(m.inflight[g]);
    assert(r.groups.slots =~= m.groups.slots.update(g, r.groups.slots[g]));
    lemma_active_update(m.groups.slots, g, r.groups.slots[g], m.groups.slots.len() as int);
    assert(forall|x: int| r.nodes.live(x) == (m.nodes.live(x) || x == i));
    assert(forall|h: int| r.groups.live(h) == m.groups.live(h));
    assert(r.nodes_sound()) by {
        assert forall|x: int| #[trigger] r.nodes.live(x) implies r.node_sound(x) by {
            if x != i {
                assert(m.nodes.live(x));
                assert(m.node_sound(x));
            }
        }
    }
    assert(r.lists_sound()) by {
        assert forall|h: int, x: int|
            0 <= h < r.all.len() && #[trigger] r.all[h].contains(x) implies r.listed_sound(
            h,
            x,
        ) by {
            if x == i {
                if m.all[h].contains(i) {
                    assert(m.listed_sound(h, i));
                }
                assert(h == g);
            } else {
                assert(m.all[h].contains(x));
                assert(m.listed_sound(h, x));
            }
        }
        assert forall|h: int, x: int|
            0 <= h < r.retry.len() && #[trigger] r.retry[h].contains(x) implies r.all[h].contains(
            x,
        ) && r.node(x).carriers == 0 by {
            assert(m.retry[h].contains(x));
            assert(m.all[h].contains(x));
            assert(m.listed_sound(h, x));
        }
        assert forall|h: int, x: int|
            0 <= h < r.inflight.len()
                && #[trigger] r.inflight[h].contains(x) implies r.all[h].contains(x) by {
            if !(h == g && x == i) {
                assert(m.inflight[h].contains(x));
            }
        }
    }
    assert forall|h: int| #[trigger] r.groups.live(h) implies r.group_sound(h) by {
        assert(m.groups.live(h));
        assert(m.group_sound(h));
    }
    assert(r.groups_sound());
    assert(r.cursor_sound());
}

} // verus!
