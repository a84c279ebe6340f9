//! Connections that come and go, and the names that lead to them.
use vstd::prelude::*;

use crate::mux::cid_table::{law_registered_found, CidModel, LocalCidKey, ORDINALS};
use crate::mux::reset_index::{ResetModel, Token};
use crate::mux::router::{
    all_inserted, all_removed, all_taken, cid_bytes, first_unused, law_inserted_sound,
    lemma_all_inserted, lemma_all_removed, lemma_all_removed_sound, next_counter, offered,
    tokens_ok, Router, RouterModel, Slot,
};
use crate::mux::{Handle, MAX_ACTIVE_CONNECTION_IDS, MAX_CIDS_PER_CONN, ROUTED_CID_LEN};
use crate::packet::ConnectionId;
use crate::wire::{be_bytes, lemma_be_bytes_len, put_be, same_bytes};

verus! {

/// A connection ID that leads to a connection from now on, or no longer.
#[derive(Debug, Clone, Copy)]
pub enum RouteUpdate {
    Add { key: LocalCidKey, cid: ConnectionId },
    Remove { key: LocalCidKey },
}

/// The routes of a connection after one update, and whether it could be made.
pub open spec fn route_updated(cids: CidModel, index: int, update: RouteUpdate) -> (
    CidModel,
    bool,
) {
    match update {
        RouteUpdate::Add { key, cid } => if key.slot >= MAX_ACTIVE_CONNECTION_IDS {
            (cids, false)
        } else {
            (
                cids.registered(index, key.slot as int, cid@, Some(key)),
                cids.takes(index, key.slot as int, cid@, Some(key)),
            )
        },
        RouteUpdate::Remove { key } => (
            cids.unregistered(index, key.slot as int, Some(key)),
            cids.releases(index, key.slot as int, Some(key)),
        ),
    }
}

/// The routes of a connection after some updates, up to one that could not be made,
/// and whether all could.
pub open spec fn routes_updated(cids: CidModel, index: int, updates: Seq<RouteUpdate>) -> (
    CidModel,
    bool,
)
    decreases updates.len(),
{
    if updates.len() == 0 {
        (cids, true)
    } else {
        let (before, made) = routes_updated(cids, index, updates.drop_last());
        if made {
            route_updated(before, index, updates.last())
        } else {
            (before, false)
        }
    }
}

/// What failed once fails of more tokens too.
proof fn lemma_taken_prefix(m: ResetModel, tokens: Seq<Token>, handle: Handle, count: int)
    requires
        0 <= count < tokens.len(),
        all_taken(m, tokens.subrange(0, count + 1), handle) == count,
    ensures
        all_taken(m, tokens, handle) == count,
    decreases tokens.len(),
{
    if count == tokens.len() - 1 {
        assert(tokens.subrange(0, count + 1) =~= tokens);
    } else {
        let less = tokens.drop_last();
        assert(less.subrange(0, count + 1) =~= tokens.subrange(0, count + 1));
        lemma_taken_prefix(m, less, handle, count);
    }
}

proof fn lemma_synced_sound<S>(m: RouterModel<S>, handle: Handle, tokens: Vec<Token>)
    requires
        m.sound(),
        m.registry.index_of(handle) is Some,
        tokens_ok(tokens@),
    ensures
        m.synced(handle, tokens).sound(),
{
    let index = handle.index as int;
    let after = m.synced(handle, tokens);
    let slot = m.registry.at(index);
    let new = Slot { reset_tokens: tokens, ..slot };
    lemma_put_sound(m.registry, index, new);
    assert forall|i: int| #[trigger] m.registry.live(i) == after.registry.live(i) by {}
    assert(after.queue_sound(after.notify));
    assert(after.queue_sound(after.flush));
    assert(after.queue_sound(after.reap));
    assert forall|i: int| #[trigger] after.registry.live(i) implies after.registry.at(i).wf()
        && after.registry.entries[i].used by {
        assert(m.registry.live(i));
    }
    assert forall|place: int|
        0 <= place < after.cids.routes.len() && (
        #[trigger] after.cids.routes[place]) is Some implies after.registry.live(
        place / ORDINALS as int,
    ) && (place % ORDINALS as int) < MAX_CIDS_PER_CONN by {
        assert(m.registry.live(place / ORDINALS as int));
    }
    let cleared = all_removed(m.resets, slot.reset_tokens@, handle);
    lemma_all_removed_sound(m.resets, slot.reset_tokens@, handle);
    let given = offered(cleared, tokens@, handle);
    let taken = m.tokens_taken(handle, tokens@);
    lemma_inserted_sound(cleared, tokens@, handle);
    assert(0 <= all_taken(cleared, tokens@, handle) <= tokens@.len());
    lemma_inserted_sound(cleared, given, handle);
    lemma_all_removed_sound(all_inserted(cleared, given, handle), tokens@, handle);
    assert forall|t: Token| (#[trigger] after.resets.get(t)) is Some implies {
        let h = after.resets.get(t)->0;
        after.registry.index_of(h) is Some && after.registry.at(
            h.index as int,
        ).reset_tokens@.contains(t)
    } by {
        lemma_all_removed(m.resets, slot.reset_tokens@, handle, t);
        if m.resets.get(t) is Some {
            assert(m.registry.index_of(m.resets.get(t)->0) is Some);
        }
        assert(cleared.get(t) != Some(handle));
        if taken {
            lemma_all_inserted(cleared, tokens@, handle, t);
        } else {
            lemma_all_inserted(cleared, given, handle, t);
            lemma_all_removed(all_inserted(cleared, given, handle), tokens@, handle, t);
            if given.contains(t) {
                let i = given.index_of(t);
                assert(tokens@[i] == t);
            }
        }
        let h = after.resets.get(t)->0;
        if h != handle {
            assert(m.resets.get(t) == Some(h));
            if h.index == handle.index {
                assert(h == handle);
            }
        }
    }
    assert forall|i: int| #[trigger] after.deadlines.dom().contains(
        i,
    ) implies after.registry.live(i) by {
        assert(m.registry.live(i));
    }
}

proof fn lemma_inserted_sound(m: ResetModel, tokens: Seq<Token>, handle: Handle)
    requires
        m.sound(),
    ensures
        all_inserted(m, tokens, handle).sound(),
        0 <= all_taken(m, tokens, handle) <= tokens.len(),
    decreases tokens.len(),
{
    if tokens.len() > 0 {
        lemma_all_inserted(m, tokens, handle, tokens.last());
    }
}

/// Another content in a place that is in use leaves the places in order.
pub proof fn lemma_put_sound<T>(
    m: crate::mux::registry::RegistryModel<T>,
    index: int,
    value: T,
)
    requires
        m.sound(),
        m.live(index),
    ensures
        m.put(index, value).sound(),
{
    let after = m.put(index, value);
    assert forall|i: int| 0 <= i < after.free.len() implies 0 <= #[trigger] after.free[i]
        < after.entries.len() && after.entries[after.free[i]].value is None by {
        assert(m.entries[m.free[i]].value is None);
    }
}

/// Routes of a connection that is there, in the places for them, keep all in order.
proof fn lemma_cids_sound<S>(m: RouterModel<S>, cids: CidModel, index: int)
    requires
        m.sound(),
        m.registry.live(index),
        cids.unique(),
        cids.routes.len() == m.cids.routes.len(),
        forall|place: int|
            0 <= place < cids.routes.len() && (#[trigger] cids.routes[place]) is Some ==> (
            m.cids.routes[place] is Some || place / ORDINALS as int == index) && (place
                % ORDINALS as int) < MAX_CIDS_PER_CONN,
    ensures
        (RouterModel { cids, ..m }).sound(),
{
    let after = RouterModel { cids, ..m };
    assert forall|place: int|
        0 <= place < after.cids.routes.len() && (
        #[trigger] after.cids.routes[place]) is Some implies after.registry.live(
        place / ORDINALS as int,
    ) && (place % ORDINALS as int) < MAX_CIDS_PER_CONN by {
        if m.cids.routes[place] is Some {
            assert(m.registry.live(place / ORDINALS as int));
        }
    }
    assert(after.queue_sound(after.notify));
    assert(after.queue_sound(after.flush));
    assert(after.queue_sound(after.reap));
}

proof fn lemma_counter_sound<S>(m: RouterModel<S>, cid_counter: u64)
    requires
        m.sound(),
    ensures
        (RouterModel { cid_counter, ..m }).sound(),
{
    let after = RouterModel { cid_counter, ..m };
    assert(after.queue_sound(after.notify));
    assert(after.queue_sound(after.flush));
    assert(after.queue_sound(after.reap));
}

/// Whether each token is there once only.
fn distinct(tokens: &Vec<Token>) -> (result: bool)
    ensures
        result == tokens@.no_duplicates(),
{
    let mut next: usize = 0;
    while next < tokens.len()
        invariant
            next <= tokens@.len(),
            forall|i: int, j: int| 0 <= i < j < next ==> tokens@[i] != tokens@[j],
        decreases tokens@.len() - next,
    {
        let mut before: usize = 0;
        while before < next
            invariant
                before <= next < tokens@.len(),
                forall|i: int| 0 <= i < before ==> tokens@[i] != tokens@[next as int],
            decreases next - before,
        {
            if same_bytes(&tokens[before], &tokens[next]) {
                assert(tokens@[before as int] =~= tokens@[next as int]);
                return false;
            }
            before = before + 1;
        }
        next = next + 1;
    }
    true
}

impl<S> Router<S> {
    /// Gives a connection other tokens in place of those that it has. The result
    /// tells whether all can be kept.
    pub fn sync_reset_tokens(&mut self, handle: Handle, tokens: Vec<Token>) -> (kept: bool)
        requires
            old(self).wf(),
        ensures
            final(self).wf(),
            final(self)@ == old(self)@.synced(handle, tokens),
            kept == old(self)@.tokens_taken(handle, tokens@),
    {
        let index: usize = match self.registry.handle_index(handle) {
            Some(index) => index,
            None => {
                return false;
            },
        };
        if tokens.len() > MAX_ACTIVE_CONNECTION_IDS || !distinct(&tokens) {
            return false;
        }
        let ghost before = self@;
        let ghost given = tokens;
        proof {
            lemma_synced_sound(before, handle, tokens);
            lemma_all_removed_sound(
                before.resets,
                before.registry.at(index as int).reset_tokens@,
                handle,
            );
        }
        let mut previous: Vec<Token> = Vec::new();
        let mut current: Vec<Token> = Vec::new();
        let mut copied: usize = 0;
        while copied < tokens.len()
            invariant
                copied <= tokens@.len(),
                current@ == tokens@.subrange(0, copied as int),
            decreases tokens@.len() - copied,
        {
            current.push(tokens[copied]);
            assert(current@ =~= tokens@.subrange(0, copied + 1));
            copied = copied + 1;
        }
        assert(current@ =~= tokens@);
        let slot = self.registry.value_mut(index);
        std::mem::swap(&mut previous, &mut slot.reset_tokens);
        slot.reset_tokens = tokens;
        let ghost middle = self@;
        self.forget_tokens(&previous, handle);
        let ghost cleared = self.resets@;
        let mut next: usize = 0;
        while next < current.len()
            invariant
                next <= current@.len(),
                self.resets.wf(),
                cleared.sound(),
                self.resets@ == all_inserted(cleared, current@.subrange(0, next as int), handle),
                all_taken(cleared, current@.subrange(0, next as int), handle) == next,
                self@ == (RouterModel { resets: self.resets@, ..middle }),
                self.parts(),
                current@ == given@,
                given == tokens,
                before.registry.index_of(handle) == Some(index as int),
                tokens_ok(given@),
                cleared == all_removed(
                    before.resets,
                    before.registry.at(index as int).reset_tokens@,
                    handle,
                ),
                middle.registry == before.synced(handle, given).registry,
                middle == (RouterModel { registry: middle.registry, ..before }),
                before.synced(handle, given).sound(),
                before == old(self)@,
            decreases current@.len() - next,
        {
            let ghost prefix = current@.subrange(0, next + 1);
            assert(prefix.drop_last() =~= current@.subrange(0, next as int));
            let taken = self.resets.insert(current[next], handle);
            if !taken {
                proof {
                    lemma_taken_prefix(cleared, current@, handle, next as int);
                    lemma_inserted_sound(cleared, current@.subrange(0, next as int), handle);
                    crate::mux::reset_index::law_inserted_found(
                        all_inserted(cleared, current@.subrange(0, next as int), handle),
                        current@[next as int],
                        handle,
                        current@[next as int],
                    );
                }
                self.forget_tokens(&current, handle);
                assert(self@ =~= before.synced(handle, given));
                return false;
            }
            next = next + 1;
        }
        assert(current@.subrange(0, current@.len() as int) =~= current@);
        assert(self@ =~= before.synced(handle, given));
        true
    }

    /// Takes a connection in, with the tokens of its peer. Where there is no place for
    /// it, or the tokens cannot be kept, it is given back.
    pub fn insert_connection(&mut self, slot: Slot<S>, tokens: Vec<Token>) -> (result: Result<
        Handle,
        Slot<S>,
    >)
        requires
            old(self).wf(),
            slot.wf(),
        ensures
            final(self).wf(),
            match old(self)@.registry.next() {
                Some(index) => {
                    let there = old(self)@.inserted(slot);
                    let handle = there.registry.handle(index);
                    &&& final(self)@ == there.settled(handle, tokens)
                    &&& (result is Ok) == there.tokens_taken(handle, tokens@)
                    &&& result matches Ok(made) ==> made == handle
                        && final(self)@.registry.index_of(made) == Some(index)
                    &&& result matches Err(back) ==> back == there.synced(
                        handle,
                        tokens,
                    ).registry.at(index)
                },
                None => result == Err::<Handle, Slot<S>>(slot) && final(self)@ == old(self)@.inserted(slot),
            },
    {
        let ghost before = self@;
        let ghost came = slot;
        match self.registry.insert(slot) {
            Ok(handle) => {
                proof {
                    self.registry.lemma_model();
                    law_inserted_sound(before, came);
                    assert(self@ =~= before.inserted(came));
                }
                if self.sync_reset_tokens(handle, tokens) {
                    Ok(handle)
                } else {
                    Err(self.remove_slot(handle).unwrap())
                }
            },
            Err(slot) => {
                proof {
                    let after = self@;
                    assert(after =~= before.inserted(came));
                    self.registry.lemma_model();
                    assert(after.queue_sound(after.notify));
                    assert(after.queue_sound(after.flush));
                    assert(after.queue_sound(after.reap));
                    assert forall|i: int| #[trigger] after.registry.live(
                        i,
                    ) implies after.registry.at(i).wf() && after.registry.entries[i].used by {
                        assert(before.registry.live(i));
                    }
                    assert forall|place: int|
                        0 <= place < after.cids.routes.len() && (
                        #[trigger] after.cids.routes[place]) is Some implies after.registry.live(
                        place / ORDINALS as int,
                    ) && (place % ORDINALS as int) < MAX_CIDS_PER_CONN by {
                        assert(before.registry.live(place / ORDINALS as int));
                    }
                    assert forall|t: Token| (#[trigger] after.resets.get(t)) is Some implies {
                        let h = after.resets.get(t)->0;
                        after.registry.index_of(h) is Some && after.registry.at(
                            h.index as int,
                        ).reset_tokens@.contains(t)
                    } by {
                        assert(before.registry.index_of(before.resets.get(t)->0) is Some);
                    }
                    assert forall|i: int| #[trigger] after.deadlines.dom().contains(
                        i,
                    ) implies after.registry.live(i) by {
                        assert(before.registry.live(i));
                    }
                }
                Err(slot)
            },
        }
    }

    /// The connection that a connection ID leads to, and which of ours it is.
    pub fn find_cid(&self, value: &[u8]) -> (found: Option<(Handle, Option<LocalCidKey>)>)
        requires
            self.wf(),
            value@.len() <= 0xffff_ffff,
        ensures
            match found {
                Some((handle, local)) => self@.cids.find(value@) == Some(
                    (handle.index as int, local),
                ) && self@.registry.index_of(handle) == Some(handle.index as int),
                None => self@.cids.find(value@) is None,
            },
    {
        match self.cids.find(value) {
            Some((index, local)) => {
                proof {
                    let place = self@.cids.place(value@);
                    assert(self@.cids.is_at(place, value@));
                    assert(self@.cids.routes[place] is Some);
                    assert(self@.registry.live(index as int));
                }
                Some((self.registry.handle_for_index(index), local))
            },
            None => None,
        }
    }

    /// Lets one of our connection IDs lead to a connection. The result tells whether it
    /// does now.
    pub fn register_local_cid(
        &mut self,
        handle: Handle,
        key: LocalCidKey,
        value: ConnectionId,
    ) -> (taken: bool)
        requires
            old(self).wf(),
        ensures
            final(self).wf(),
            match old(self)@.registry.index_of(handle) {
                Some(index) => {
                    let (cids, made) = route_updated(
                        old(self)@.cids,
                        index,
                        RouteUpdate::Add { key, cid: value },
                    );
                    taken == made && final(self)@ == (RouterModel { cids, ..old(self)@ })
                },
                None => !taken && final(self)@ == old(self)@,
            },
    {
        let index: usize = match self.registry.handle_index(handle) {
            Some(index) => index,
            None => {
                return false;
            },
        };
        if key.slot >= MAX_ACTIVE_CONNECTION_IDS {
            return false;
        }
        self.register_at(index, key.slot, value, Some(key))
    }

    fn register_at(
        &mut self,
        index: usize,
        ordinal: usize,
        value: ConnectionId,
        local: Option<LocalCidKey>,
    ) -> (taken: bool)
        requires
            old(self).wf(),
            old(self)@.registry.live(index as int),
        ensures
            final(self).wf(),
            taken == old(self)@.cids.takes(index as int, ordinal as int, value@, local),
            final(self)@ == (RouterModel {
                cids: old(self)@.cids.registered(index as int, ordinal as int, value@, local),
                ..old(self)@
            }),
    {
        let ghost before = self@;
        proof {
            law_registered_found(
                before.cids,
                index as int,
                ordinal as int,
                value@,
                local,
                value@,
            );
        }
        let taken = self.cids.register(index, ordinal, value, local);
        proof {
            let cids = before.cids.registered(index as int, ordinal as int, value@, local);
            assert(self@ =~= (RouterModel { cids, ..before }));
            lemma_cids_sound(before, cids, index as int);
        }
        taken
    }

    /// Lets a connection ID that a client chose lead to a connection. The result tells
    /// whether it does now.
    pub fn register_cid_alias(&mut self, handle: Handle, value: ConnectionId) -> (taken: bool)
        requires
            old(self).wf(),
        ensures
            final(self).wf(),
            match old(self)@.registry.index_of(handle) {
                Some(index) => {
                    let ordinal = old(self)@.cids.alias_from(
                        index,
                        MAX_ACTIVE_CONNECTION_IDS as int,
                    );
                    if ordinal < MAX_CIDS_PER_CONN {
                        &&& taken == old(self)@.cids.takes(index, ordinal, value@, None)
                        &&& final(self)@ == (RouterModel {
                            cids: old(self)@.cids.registered(index, ordinal, value@, None),
                            ..old(self)@
                        })
                    } else {
                        !taken && final(self)@ == old(self)@
                    }
                },
                None => !taken && final(self)@ == old(self)@,
            },
    {
        let index: usize = match self.registry.handle_index(handle) {
            Some(index) => index,
            None => {
                return false;
            },
        };
        match self.cids.free_alias(index) {
            Some(ordinal) => self.register_at(index, ordinal, value, None),
            None => false,
        }
    }

    /// Lets one of our connection IDs lead nowhere. The result tells whether it led to
    /// the connection.
    pub fn unregister_local_cid(&mut self, handle: Handle, key: LocalCidKey) -> (gone: bool)
        requires
            old(self).wf(),
        ensures
            final(self).wf(),
            match old(self)@.registry.index_of(handle) {
                Some(index) => {
                    let (cids, made) = route_updated(
                        old(self)@.cids,
                        index,
                        RouteUpdate::Remove { key },
                    );
                    gone == made && final(self)@ == (RouterModel { cids, ..old(self)@ })
                },
                None => !gone && final(self)@ == old(self)@,
            },
    {
        let index: usize = match self.registry.handle_index(handle) {
            Some(index) => index,
            None => {
                return false;
            },
        };
        let ghost before = self@;
        let gone = self.cids.unregister(index, key.slot, Some(key));
        proof {
            let cids = before.cids.unregistered(index as int, key.slot as int, Some(key));
            self.cids.lemma_model();
            assert(self@ =~= (RouterModel { cids, ..before }));
            lemma_cids_sound(before, cids, index as int);
        }
        gone
    }

    /// Makes updates of the routes of a connection, up to one that cannot be made, and
    /// tells whether all could.
    pub fn apply_cid_routes(&mut self, handle: Handle, updates: &Vec<RouteUpdate>) -> (applied:
        bool)
        requires
            old(self).wf(),
        ensures
            final(self).wf(),
            match old(self)@.registry.index_of(handle) {
                Some(index) => {
                    let (cids, made) = routes_updated(old(self)@.cids, index, updates@);
                    applied == made && final(self)@ == (RouterModel { cids, ..old(self)@ })
                },
                None => applied == (updates@.len() == 0) && final(self)@ == old(self)@,
            },
    {
        let ghost before = self@;
        let mut next: usize = 0;
        while next < updates.len()
            invariant
                next <= updates@.len(),
                self.wf(),
                before == old(self)@,
                before.registry.index_of(handle) is None ==> next == 0 && self@ == before,
                before.registry.index_of(handle) is Some ==> {
                    let (cids, made) = routes_updated(
                        before.cids,
                        handle.index as int,
                        updates@.subrange(0, next as int),
                    );
                    made && self@ == (RouterModel { cids, ..before })
                },
            decreases updates@.len() - next,
        {
            let ghost prefix = updates@.subrange(0, next + 1);
            assert(prefix.drop_last() =~= updates@.subrange(0, next as int));
            assert(prefix.last() == updates@[next as int]);
            let made = match updates[next] {
                RouteUpdate::Add { key, cid } => self.register_local_cid(handle, key, cid),
                RouteUpdate::Remove { key } => self.unregister_local_cid(handle, key),
            };
            if !made {
                proof {
                    if before.registry.index_of(handle) is Some {
                        assert(self@.cids == routes_updated(
                            before.cids,
                            handle.index as int,
                            prefix,
                        ).0);
                        lemma_updates_stop(
                            before.cids,
                            handle.index as int,
                            updates@,
                            next as int,
                        );
                    }
                }
                return false;
            }
            next = next + 1;
        }
        assert(updates@.subrange(0, updates@.len() as int) =~= updates@);
        true
    }

    /// A connection ID that leads nowhere yet, with the given first byte.
    pub fn gen_cid(&mut self, prefix: Option<u8>) -> (cid: Option<ConnectionId>)
        requires
            old(self).wf(),
        ensures
            final(self).wf(),
            ({
                let (found, counter) = first_unused(
                    old(self)@.cids,
                    old(self)@.cid_counter,
                    prefix,
                    old(self)@.registry.active() * MAX_CIDS_PER_CONN + 1,
                );
                &&& final(self)@ == (RouterModel { cid_counter: counter, ..old(self)@ })
                &&& match cid {
                    Some(cid) => found == Some(cid@) && cid@.len() == ROUTED_CID_LEN,
                    None => found is None,
                }
            }),
    {
        let ghost before = self@;
        proof {
            self.registry.lemma_model();
        }
        let attempts: usize = self.registry.active() * MAX_CIDS_PER_CONN + 1;
        let mut left: usize = attempts;
        while left > 0
            invariant
                left <= attempts,
                self.wf(),
                before == old(self)@,
                attempts == before.registry.active() * MAX_CIDS_PER_CONN + 1,
                self@ == (RouterModel { cid_counter: self.cid_counter, ..before }),
                first_unused(before.cids, before.cid_counter, prefix, attempts as int)
                    == first_unused(before.cids, self.cid_counter, prefix, left as int),
            decreases left,
        {
            let ghost counter = self.cid_counter;
            proof {
                lemma_counter_sound(self@, next_counter(counter));
            }
            self.cid_counter = if self.cid_counter == u64::MAX {
                0
            } else {
                self.cid_counter + 1
            };
            assert(self@ =~= (RouterModel { cid_counter: self.cid_counter, ..before }));
            assert(self.cid_counter == next_counter(counter));
            let bytes = numbered_cid(self.cid_counter, prefix);
            let found = self.find_cid(bytes.as_slice());
            proof {
                if found is Some {
                    assert(before.cids.has(bytes@));
                }
            }
            if found.is_none() {
                return ConnectionId::new(bytes.as_slice());
            }
            left = left - 1;
        }
        None
    }
}

/// The bytes of the connection ID that is made of a number.
fn numbered_cid(counter: u64, prefix: Option<u8>) -> (bytes: Vec<u8>)
    ensures
        bytes@ == cid_bytes(counter, prefix),
        bytes@.len() == ROUTED_CID_LEN,
{
    let mut sequence: Vec<u8> = Vec::new();
    put_be(&mut sequence, counter, 8);
    proof {
        lemma_be_bytes_len(counter as nat, 8);
    }
    assert(sequence@ =~= be_bytes(counter as nat, 8));
    let shift: usize = if prefix.is_some() {
        1
    } else {
        0
    };
    let mut bytes: Vec<u8> = Vec::new();
    let mut index: usize = 0;
    while index < ROUTED_CID_LEN
        invariant
            index <= ROUTED_CID_LEN,
            bytes@.len() == index,
            sequence@ == be_bytes(counter as nat, 8),
            sequence@.len() == 8,
            shift == if prefix is Some {
                1int
            } else {
                0
            },
            forall|i: int| 0 <= i < index ==> #[trigger] bytes@[i] == cid_bytes(counter, prefix)[i],
        decreases ROUTED_CID_LEN - index,
    {
        let byte: u8 = match prefix {
            Some(first) if index == 0 => first,
            _ => sequence[7 - (index - shift)] ^ (index as u8),
        };
        bytes.push(byte);
        assert(bytes@[index as int] == cid_bytes(counter, prefix)[index as int]);
        index = index + 1;
    }
    assert(bytes@ =~= cid_bytes(counter, prefix));
    bytes
}

/// Behind an update that could not be made, none is.
proof fn lemma_updates_stop(cids: CidModel, index: int, updates: Seq<RouteUpdate>, count: int)
    requires
        0 <= count < updates.len(),
        !routes_updated(cids, index, updates.subrange(0, count + 1)).1,
    ensures
        routes_updated(cids, index, updates) == routes_updated(
            cids,
            index,
            updates.subrange(0, count + 1),
        ),
    decreases updates.len(),
{
    if count == updates.len() - 1 {
        assert(updates.subrange(0, count + 1) =~= updates);
    } else {
        let less = updates.drop_last();
        assert(less.subrange(0, count + 1) =~= updates.subrange(0, count + 1));
        lemma_updates_stop(cids, index, less, count);
    }
}

/// A connection ID of ours leads to its connection once it was added, under its own name; it is
/// refused where it leads elsewhere, or its name is none of eight. What other connection IDs
/// lead to stays.
pub proof fn law_added_leads(
    cids: CidModel,
    index: int,
    key: LocalCidKey,
    cid: ConnectionId,
    other: Seq<u8>,
)
    requires
        cids.unique(),
        0 <= index,
        (index + 1) * 16 <= cids.routes.len(),
        other != cid@,
    ensures
        ({
            let (after, made) = route_updated(cids, index, RouteUpdate::Add { key, cid });
            &&& made ==> after.find(cid@) == Some((index, Some(key))) && key.slot < 8
            &&& cids.find(cid@) is Some && cids.find(cid@) != Some((index, Some(key))) ==> !made
                && after == cids
            &&& after.find(other) == cids.find(other)
            &&& after.unique()
        }),
{
    if key.slot < MAX_ACTIVE_CONNECTION_IDS {
        crate::mux::cid_table::law_registered_found(
            cids,
            index,
            key.slot as int,
            cid@,
            Some(key),
            other,
        );
    }
}

} // verus!
