//! What holds of the connection IDs that are made.
use vstd::prelude::*;

use crate::clock::Instant;
use crate::mux::cid_table::{CidModel, ORDINALS};
use crate::mux::registry::{lemma_live_bound, live_count, Entry};
use crate::mux::router::{cid_bytes, first_unused, next_counter, DrivePhase, RouterModel};
use crate::mux::{MAX_CIDS_PER_CONN, MAX_CONNECTIONS};
use crate::wire::{be_bytes, lemma_be_bytes_len, lemma_low_bytes, pow256};
use vstd::set_lib::{lemma_int_range, lemma_len_subset, set_int_range};

verus! {

/// The number that comes so many behind another.
spec fn after(counter: u64, steps: int) -> u64 {
    ((counter + steps) % 0x1_0000_0000_0000_0000) as u64
}

/// The places below one that lead anywhere.
spec fn taken_places(cids: CidModel, end: int) -> Set<int> {
    Set::new(|place: int| 0 <= place < end && cids.routes[place] is Some)
}

proof fn lemma_unmixed(a: u8, b: u8, m: u8)
    ensures
        a ^ m == b ^ m ==> a == b,
{
    assert(a ^ m == b ^ m ==> a == b) by (bit_vector);
}

/// A connection ID tells seven bytes of its number.
proof fn lemma_cid_tells(one: u64, other: u64, prefix: Option<u8>)
    requires
        cid_bytes(one, prefix) == cid_bytes(other, prefix),
    ensures
        one % 0x100_0000_0000_0000 == other % 0x100_0000_0000_0000,
{
    let a = be_bytes(one as nat, 8);
    let b = be_bytes(other as nat, 8);
    lemma_be_bytes_len(one as nat, 8);
    lemma_be_bytes_len(other as nat, 8);
    assert forall|k: int| 1 <= k < 8 implies a[k] == b[k] by {
        let i: int = match prefix {
            Some(_) => 8 - k,
            None => 7 - k,
        };
        assert(cid_bytes(one, prefix)[i] == a[k] ^ (i as u8));
        assert(cid_bytes(other, prefix)[i] == b[k] ^ (i as u8));
        lemma_unmixed(a[k], b[k], i as u8);
    }
    lemma_behind(one as nat, 7);
    lemma_behind(other as nat, 7);
    assert(be_bytes(one as nat, 7) =~= be_bytes(other as nat, 7));
    lemma_low_bytes(one as nat, 7);
    lemma_low_bytes(other as nat, 7);
    assert(pow256(7) == 0x100_0000_0000_0000) by {
        reveal_with_fuel(pow256, 8);
    }
}

/// The low bytes of a number stand behind its others.
proof fn lemma_behind(value: nat, n: nat)
    ensures
        be_bytes(value, n + 1).subrange(1, n as int + 1) == be_bytes(value, n),
    decreases n,
{
    lemma_be_bytes_len(value, n + 1);
    lemma_be_bytes_len(value, n);
    if n > 0 {
        lemma_behind(value / 256, (n - 1) as nat);
        lemma_be_bytes_len(value / 256, n);
        lemma_be_bytes_len(value / 256, (n - 1) as nat);
        assert(be_bytes(value, n + 1).subrange(1, n as int + 1) =~= be_bytes(value / 256, n).subrange(
            1,
            n as int,
        ).push((value % 256) as u8));
    }
}

/// Where no connection ID is found, all that were tried lead somewhere.
proof fn lemma_all_taken(cids: CidModel, counter: u64, prefix: Option<u8>, attempts: int)
    requires
        first_unused(cids, counter, prefix, attempts).0 is None,
    ensures
        forall|k: int|
            1 <= k <= attempts ==> cids.has(#[trigger] cid_bytes(after(counter, k), prefix)),
    decreases attempts,
{
    if attempts > 0 {
        let next = next_counter(counter);
        assert(next == after(counter, 1));
        lemma_all_taken(cids, next, prefix, attempts - 1);
        assert forall|k: int| 1 <= k <= attempts implies cids.has(
            #[trigger] cid_bytes(after(counter, k), prefix),
        ) by {
            if k > 1 {
                assert(after(next, k - 1) == after(counter, k));
                assert(cids.has(cid_bytes(after(next, k - 1), prefix)));
            }
        }
    }
}

/// There are no more connection IDs than the connections may have.
proof fn lemma_places_bound<T>(entries: Seq<Entry<T>>, cids: CidModel)
    requires
        entries.len() * ORDINALS <= cids.routes.len(),
        forall|place: int|
            0 <= place < entries.len() * ORDINALS && (#[trigger] cids.routes[place]) is Some
                ==> entries[place / ORDINALS as int].value is Some && (place % ORDINALS as int)
                < MAX_CIDS_PER_CONN,
    ensures
        taken_places(cids, entries.len() * ORDINALS).finite(),
        taken_places(cids, entries.len() * ORDINALS).len() <= live_count(entries)
            * MAX_CIDS_PER_CONN,
    decreases entries.len(),
{
    let end = entries.len() * ORDINALS;
    let all = taken_places(cids, end);
    if entries.len() == 0 {
        assert(all =~= Set::empty());
    } else {
        let front = entries.drop_last();
        let start = front.len() * ORDINALS;
        assert forall|place: int|
            0 <= place < start && (#[trigger] cids.routes[place]) is Some implies
            front[place / ORDINALS as int].value is Some && (place % ORDINALS as int)
            < MAX_CIDS_PER_CONN by {
            assert(place / ORDINALS as int <= front.len() - 1);
        }
        lemma_places_bound(front, cids);
        let before = taken_places(cids, start);
        let own = set_int_range(start, start + MAX_CIDS_PER_CONN);
        lemma_int_range(start, start + MAX_CIDS_PER_CONN);
        assert forall|place: int| start <= place < end && cids.routes[place] is Some implies
            entries.last().value is Some && own.contains(place) by {
            assert(place / ORDINALS as int == front.len());
            assert(place % ORDINALS as int == place - start);
        }
        if entries.last().value is Some {
            assert(all.subset_of(before.union(own)));
            vstd::set_lib::lemma_len_union(before, own);
            lemma_len_subset(all, before.union(own));
        } else {
            assert(all =~= before);
        }
    }
}

/// Connection IDs that are made of different numbers have places of their own.
proof fn lemma_apart(
    cids: CidModel,
    counter: u64,
    prefix: Option<u8>,
    one: int,
    other: int,
    here: int,
    there: int,
)
    requires
        1 <= one < other <= 10 * MAX_CONNECTIONS + 1,
        cids.is_at(here, cid_bytes(after(counter, one), prefix)),
        cids.is_at(there, cid_bytes(after(counter, other), prefix)),
    ensures
        here != there,
{
    if here == there {
        lemma_cid_tells(after(counter, one), after(counter, other), prefix);
    }
}

/// More connection IDs are tried than there are.
proof fn lemma_some_unused<T>(
    entries: Seq<Entry<T>>,
    cids: CidModel,
    counter: u64,
    prefix: Option<u8>,
)
    requires
        entries.len() <= MAX_CONNECTIONS,
        cids.routes.len() == entries.len() * ORDINALS,
        forall|place: int|
            0 <= place < entries.len() * ORDINALS && (#[trigger] cids.routes[place]) is Some
                ==> entries[place / ORDINALS as int].value is Some && (place % ORDINALS as int)
                < MAX_CIDS_PER_CONN,
    ensures
        first_unused(cids, counter, prefix, live_count(entries) * MAX_CIDS_PER_CONN + 1).0 is Some,
{
    let attempts = live_count(entries) * MAX_CIDS_PER_CONN + 1;
    lemma_live_bound(entries);
    if first_unused(cids, counter, prefix, attempts).0 is None {
        lemma_all_taken(cids, counter, prefix, attempts);
        lemma_places_bound(entries, cids);
        let taken = taken_places(cids, cids.routes.len() as int);
        let found = Seq::new(
            attempts as nat,
            |i: int| cids.place(cid_bytes(after(counter, i + 1), prefix)),
        );
        assert forall|i: int| 0 <= i < found.len() implies cids.is_at(
            #[trigger] found[i],
            cid_bytes(after(counter, i + 1), prefix),
        ) by {
            assert(cids.has(cid_bytes(after(counter, i + 1), prefix)));
        }
        assert forall|i: int, j: int|
            0 <= i < found.len() && 0 <= j < found.len() && i != j implies #[trigger] found[i]
            != #[trigger] found[j] by {
            if i < j {
                lemma_apart(cids, counter, prefix, i + 1, j + 1, found[i], found[j]);
            } else {
                lemma_apart(cids, counter, prefix, j + 1, i + 1, found[j], found[i]);
            }
        }
        found.unique_seq_to_set();
        assert forall|place: int| found.to_set().contains(place) implies taken.contains(place) by {
            let i = choose|i: int| 0 <= i < found.len() && found[i] == place;
            assert(cids.is_at(found[i], cid_bytes(after(counter, i + 1), prefix)));
        }
        lemma_len_subset(found.to_set(), taken);
    }
}

/// A connection ID can always be made: more are tried than there are.
pub proof fn law_cid_always_made<S>(m: RouterModel<S>, prefix: Option<u8>)
    requires
        m.sound(),
    ensures
        m.next_cid(prefix).0 is Some,
{
    assert forall|place: int|
        0 <= place < m.registry.entries.len() * ORDINALS && (
        #[trigger] m.cids.routes[place]) is Some implies m.registry.entries[place
        / ORDINALS as int].value is Some && (place % ORDINALS as int) < MAX_CIDS_PER_CONN by {
        assert(m.registry.live(place / ORDINALS as int));
    }
    lemma_some_unused(m.registry.entries, m.cids, m.cid_counter, prefix);
}

/// A connection ID that is made leads nowhere yet, is eight bytes long and begins with the
/// prefix, if there is one; and the next is made of a later number.
pub proof fn law_made_cid_is_unused(
    cids: CidModel,
    counter: u64,
    prefix: Option<u8>,
    attempts: int,
)
    ensures
        first_unused(cids, counter, prefix, attempts).0 matches Some(cid) ==> {
            &&& !cids.has(cid)
            &&& cid.len() == 8
            &&& prefix matches Some(first) ==> cid[0] == first
            &&& cid == cid_bytes(first_unused(cids, counter, prefix, attempts).1, prefix)
        },
        attempts > 0 && !cids.has(cid_bytes(next_counter(counter), prefix)) ==> first_unused(
            cids,
            counter,
            prefix,
            attempts,
        ) == (Some(cid_bytes(next_counter(counter), prefix)), next_counter(counter)),
        counter < u64::MAX ==> next_counter(counter) == counter + 1,
    decreases attempts,
{
    if attempts > 0 && cids.has(cid_bytes(next_counter(counter), prefix)) {
        law_made_cid_is_unused(cids, next_counter(counter), prefix, attempts - 1);
    }
}

/// Steps of four kinds take turns, in a fixed order.
pub proof fn law_phases_take_turns(phase: DrivePhase)
    ensures
        phase.after() != phase,
        phase.after().after() != phase,
        phase.after().after().after() != phase,
        phase.after().after().after().after() == phase,
        DrivePhase::Notify.after() == DrivePhase::Deadline,
        DrivePhase::COUNT == 4,
{
}

/// A connection is looked at again when its timer or the time for sending is due, whichever is
/// earlier; one that waits to send needs no time for that.
pub proof fn law_earlier_of_two_times<S>(m: RouterModel<S>, index: int, now: Instant)
    ensures
        ({
            let slot = m.registry.at(index);
            let send = slot.conn@.deadline(now, slot.timer);
            let time = m.slot_deadline(index, now);
            &&& slot.timer matches Some(timer) ==> time is Some && time->0 <= timer
            &&& !m.flush.contains(index) && send is Some ==> time is Some && time->0 <= send->0
            &&& time matches Some(at) ==> slot.timer == Some(at) || (!m.flush.contains(index)
                && send == Some(at))
            &&& m.flush.contains(index) ==> time == slot.timer
        }),
{
}

/// A connection that is closed waits to be taken away and has no time; one that is open has
/// the time at which it is looked at again, if it has one, and waits for nothing else.
pub proof fn law_closed_waits_to_go<S>(
    m: RouterModel<S>,
    handle: crate::mux::Handle,
    now: Instant,
    other: int,
)
    requires
        m.registry.index_of(handle) is Some,
        m.reap.no_duplicates(),
        other != m.registry.index_of(handle)->0,
    ensures
        ({
            let index = m.registry.index_of(handle)->0;
            let after = m.deadline_refreshed(handle, now);
            let closed = m.registry.at(index).conn@.egress.closed;
            &&& closed ==> after.reap.last() == index && !after.deadlines.dom().contains(index)
            &&& !closed ==> !after.reap.contains(index)
            &&& !closed && m.slot_deadline(index, now) is Some ==> after.deadlines.dom().contains(
                index,
            ) && after.deadlines[index] == m.slot_deadline(index, now)->0
            &&& !closed && m.slot_deadline(index, now) is None ==> !after.deadlines.dom().contains(
                index,
            )
            &&& after.deadlines.dom().contains(other) == m.deadlines.dom().contains(other)
            &&& m.deadlines.dom().contains(other) ==> after.deadlines[other] == m.deadlines[other]
            &&& after.flush == m.flush && after.notify == m.notify && after.registry == m.registry
        }),
{
    let index = m.registry.index_of(handle)->0;
    crate::mux::turns::law_waits_once(m.reap, index);
}

} // verus!
