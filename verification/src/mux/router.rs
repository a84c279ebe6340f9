//! The connections of one socket, and what leads to them.
use vstd::prelude::*;

pub mod drive;
pub mod gate;
pub mod laws;
pub mod lifecycle;
pub mod protocol;
pub mod queue;
pub mod slots;
pub mod steps;
pub mod train;

use crate::clock::Instant;
use crate::conn::streams::state::Event;
use crate::conn::transmit::connection::Connection;
use crate::errors::ConnectError;
use crate::mux::cid_table::{law_without_rest, place_of, CidModel, CidTable, ORDINALS};
use crate::mux::deadlines::{no_times, Deadlines};
use crate::mux::output::{Storage, StorageModel};
use crate::mux::registry::{lemma_next, Registry, RegistryModel};
use crate::mux::reset_index::{
    law_inserted_found, law_removed_gone, ResetIndex, ResetModel, Token,
};
use crate::mux::setup::{Limits, ServerConfig};
use crate::mux::turns::{put_in, taken_out, Turns};
use crate::mux::{Handle, MAX_ACTIVE_CONNECTION_IDS, MAX_CIDS_PER_CONN, ROUTED_CID_LEN};
use crate::pmtud::BASE_PMTU;
use crate::secrets::PeerAddress;
use crate::wire::be_bytes;

verus! {

/// A connection, with what the socket knows of it.
pub struct Slot<S> {
    pub conn: Connection,
    /// What else belongs to the connection.
    pub session: S,
    pub peer_addr: PeerAddress,
    pub established: bool,
    /// Whether it was told that the connection is established.
    pub notified_established: bool,
    /// Datagrams that came in and were not told yet.
    pub inbox: Vec<Vec<u8>>,
    /// What happened to streams and was not told yet.
    pub events: Vec<Event>,
    /// When a timer of the connection is due.
    pub timer: Option<Instant>,
    pub max_packet_bytes: usize,
    /// Whether nothing was sent yet.
    pub first_flush: bool,
    /// The stateless reset tokens of the peer that lead to the connection.
    pub reset_tokens: Vec<Token>,
    /// The tokens that the peer has given out since the connection was lent out, if they
    /// are others.
    pub changed_tokens: Option<Vec<Token>>,
}

impl<S> Slot<S> {
    pub open spec fn wf(self) -> bool {
        &&& self.conn.wf()
        &&& self.max_packet_bytes >= BASE_PMTU
    }

    pub fn new(conn: Connection, session: S, peer_addr: PeerAddress, max_packet_bytes: usize) -> (slot:
        Slot<S>)
        ensures
            slot.conn == conn,
            slot.session == session,
            slot.peer_addr == peer_addr,
            slot.max_packet_bytes == max_packet_bytes,
            !slot.established,
            !slot.notified_established,
            slot.inbox@.len() == 0,
            slot.events@.len() == 0,
            slot.timer is None,
            slot.first_flush,
            slot.reset_tokens@.len() == 0,
            slot.changed_tokens is None,
    {
        Slot {
            conn,
            session,
            peer_addr,
            established: false,
            notified_established: false,
            inbox: Vec::new(),
            events: Vec::new(),
            timer: None,
            max_packet_bytes,
            first_flush: true,
            reset_tokens: Vec::new(),
            changed_tokens: None,
        }
    }
}

/// What is looked for next when a step is made.
#[derive(Debug, Clone, Copy, PartialEq, Eq, Structural)]
pub enum DrivePhase {
    Notify,
    Deadline,
    Reap,
    Flush,
}

impl DrivePhase {
    /// How many there are.
    pub const COUNT: usize = 4;

    pub open spec fn after(self) -> DrivePhase {
        match self {
            DrivePhase::Notify => DrivePhase::Deadline,
            DrivePhase::Deadline => DrivePhase::Reap,
            DrivePhase::Reap => DrivePhase::Flush,
            DrivePhase::Flush => DrivePhase::Notify,
        }
    }

    pub fn next(self) -> (next: DrivePhase)
        ensures
            next == self.after(),
    {
        match self {
            DrivePhase::Notify => DrivePhase::Deadline,
            DrivePhase::Deadline => DrivePhase::Reap,
            DrivePhase::Reap => DrivePhase::Flush,
            DrivePhase::Flush => DrivePhase::Notify,
        }
    }
}

/// All connections of a socket, over sequences and maps.
#[verifier::ext_equal]
pub struct RouterModel<S> {
    pub registry: RegistryModel<Slot<S>>,
    pub cids: CidModel,
    pub resets: ResetModel,
    pub cid_counter: u64,
    pub deadlines: Map<int, u64>,
    pub notify: Seq<int>,
    pub flush: Seq<int>,
    pub reap: Seq<int>,
    pub phase: DrivePhase,
    pub output: StorageModel,
    pub server: Option<ServerConfig>,
    pub shutting_down: bool,
    /// How far the shutdown is.
    pub cursor: int,
    /// The connection that was lent out and may have other tokens now.
    pub dirty: Option<Handle>,
}

/// An index without some tokens of a connection.
pub open spec fn all_removed(m: ResetModel, tokens: Seq<Token>, handle: Handle) -> ResetModel
    decreases tokens.len(),
{
    if tokens.len() == 0 {
        m
    } else {
        all_removed(m, tokens.drop_last(), handle).removed(tokens.last(), handle)
    }
}

/// How many of some tokens, from the first on, an index takes for a connection.
pub open spec fn all_taken(m: ResetModel, tokens: Seq<Token>, handle: Handle) -> int
    decreases tokens.len(),
{
    if tokens.len() == 0 {
        0
    } else {
        let before = all_taken(m, tokens.drop_last(), handle);
        if before == tokens.len() - 1 && all_inserted(m, tokens.drop_last(), handle).takes(
            tokens.last(),
            handle,
        ) {
            before + 1
        } else {
            before
        }
    }
}

/// An index after some tokens were offered for a connection, one after the other.
pub open spec fn all_inserted(m: ResetModel, tokens: Seq<Token>, handle: Handle) -> ResetModel
    decreases tokens.len(),
{
    if tokens.len() == 0 {
        m
    } else {
        all_inserted(m, tokens.drop_last(), handle).inserted(tokens.last(), handle)
    }
}

/// Whether tokens are few enough and each there once only.
pub open spec fn tokens_ok(tokens: Seq<Token>) -> bool {
    tokens.len() <= MAX_ACTIVE_CONNECTION_IDS && tokens.no_duplicates()
}

/// What is left of an index when some tokens of a connection are gone.
pub proof fn lemma_all_removed(m: ResetModel, tokens: Seq<Token>, handle: Handle, token: Token)
    requires
        m.sound(),
    ensures
        all_removed(m, tokens, handle).sound(),
        all_removed(m, tokens, handle).get(token) == if tokens.contains(token) && m.get(token)
            == Some(handle) {
            None
        } else {
            m.get(token)
        },
    decreases tokens.len(),
{
    if tokens.len() > 0 {
        let less = tokens.drop_last();
        lemma_all_removed(m, less, handle, token);
        lemma_all_removed(m, less, handle, tokens.last());
        let rest = all_removed(m, less, handle);
        law_removed_gone(rest, tokens.last(), handle, token);
        if less.contains(token) {
            let i = less.index_of(token);
            assert(tokens[i] == token);
        }
        if tokens.contains(token) && token != tokens.last() {
            let i = tokens.index_of(token);
            assert(less[i] == token);
        }
        assert(tokens[tokens.len() - 1] == tokens.last());
    }
}

/// What an index has after some tokens were offered for a connection: nothing of
/// others, and of the connection only what was there or was offered.
pub proof fn lemma_all_inserted(m: ResetModel, tokens: Seq<Token>, handle: Handle, token: Token)
    requires
        m.sound(),
    ensures
        all_inserted(m, tokens, handle).sound(),
        all_inserted(m, tokens, handle).get(token) == m.get(token) || (tokens.contains(token)
            && m.get(token) is None && all_inserted(m, tokens, handle).get(token) == Some(handle)),
        0 <= all_taken(m, tokens, handle) <= tokens.len(),
        all_taken(m, tokens, handle) == tokens.len() && tokens.contains(token) ==> all_inserted(
            m,
            tokens,
            handle,
        ).get(token) == Some(handle),
    decreases tokens.len(),
{
    if tokens.len() > 0 {
        let less = tokens.drop_last();
        let last = tokens.last();
        lemma_all_inserted(m, less, handle, token);
        lemma_all_inserted(m, less, handle, last);
        let rest = all_inserted(m, less, handle);
        law_inserted_found(rest, last, handle, token);
        assert(tokens[tokens.len() - 1] == last);
        if less.contains(token) {
            let i = less.index_of(token);
            assert(tokens[i] == token);
        }
        if tokens.contains(token) && token != last {
            let i = tokens.index_of(token);
            assert(less[i] == token);
        }
    }
}

/// A number of tokens, up to one that an index refuses.
pub open spec fn offered(m: ResetModel, tokens: Seq<Token>, handle: Handle) -> Seq<Token> {
    tokens.subrange(0, all_taken(m, tokens, handle))
}

/// The bytes of a connection ID that is made of a number.
pub open spec fn cid_bytes(counter: u64, prefix: Option<u8>) -> Seq<u8> {
    Seq::new(
        ROUTED_CID_LEN as nat,
        |i: int|
            match prefix {
                Some(first) => if i == 0 {
                    first
                } else {
                    be_bytes(counter as nat, 8)[7 - (i - 1)] ^ (i as u8)
                },
                None => be_bytes(counter as nat, 8)[7 - i] ^ (i as u8),
            },
    )
}

/// The number that follows another.
pub open spec fn next_counter(counter: u64) -> u64 {
    if counter == u64::MAX {
        0
    } else {
        (counter + 1) as u64
    }
}

/// The first of the connection IDs made of the numbers behind one that leads nowhere,
/// and the last number that was tried.
pub open spec fn first_unused(
    cids: CidModel,
    counter: u64,
    prefix: Option<u8>,
    attempts: int,
) -> (Option<Seq<u8>>, u64)
    decreases attempts,
{
    if attempts <= 0 {
        (None, counter)
    } else {
        let next = next_counter(counter);
        if !cids.has(cid_bytes(next, prefix)) {
            (Some(cid_bytes(next, prefix)), next)
        } else {
            first_unused(cids, next, prefix, attempts - 1)
        }
    }
}

impl<S> RouterModel<S> {
    /// The places in a queue are in use.
    pub open spec fn queue_sound(self, queue: Seq<int>) -> bool {
        &&& queue.no_duplicates()
        &&& forall|i: int| 0 <= i < queue.len() ==> self.registry.live(#[trigger] queue[i])
    }

    /// Whatever leads to a connection leads to one that is there.
    pub open spec fn sound(self) -> bool {
        &&& self.registry.sound()
        &&& forall|i: int| #[trigger]
            self.registry.live(i) ==> self.registry.at(i).wf() && self.registry.entries[i].used
        &&& self.cids.unique()
        &&& self.cids.routes.len() == self.registry.entries.len() * ORDINALS
        &&& forall|place: int|
            0 <= place < self.cids.routes.len() && (#[trigger] self.cids.routes[place]) is Some
                ==> self.registry.live(place / ORDINALS as int) && (place % ORDINALS as int) < MAX_CIDS_PER_CONN
        &&& self.resets.sound()
        &&& forall|token: Token|
            (#[trigger] self.resets.get(token)) is Some ==> {
                let handle = self.resets.get(token)->0;
                self.registry.index_of(handle) is Some && self.registry.at(
                    handle.index as int,
                ).reset_tokens@.contains(token)
            }
        &&& self.queue_sound(self.notify)
        &&& self.queue_sound(self.flush)
        &&& self.queue_sound(self.reap)
        &&& forall|i: int| #[trigger] self.deadlines.dom().contains(i) ==> self.registry.live(i)
        &&& self.output.within()
        &&& 0 <= self.cursor <= self.registry.entries.len()
    }

    /// After a connection is gone.
    pub open spec fn removed(self, handle: Handle) -> RouterModel<S> {
        match self.registry.index_of(handle) {
            Some(index) => RouterModel {
                registry: self.registry.removed(index),
                cids: self.cids.without(index),
                resets: all_removed(
                    self.resets,
                    self.registry.at(index).reset_tokens@,
                    handle,
                ),
                deadlines: self.deadlines.remove(index),
                notify: taken_out(self.notify, index),
                flush: taken_out(self.flush, index),
                reap: taken_out(self.reap, index),
                dirty: if self.dirty == Some(handle) {
                    None
                } else {
                    self.dirty
                },
                ..self
            },
            None => self,
        }
    }

    /// After a connection came in.
    pub open spec fn inserted(self, slot: Slot<S>) -> RouterModel<S> {
        RouterModel { registry: self.registry.inserted(slot), ..self }
    }

    /// Whether the index of tokens takes all tokens of a connection in place of those
    /// that it had.
    pub open spec fn tokens_taken(self, handle: Handle, tokens: Seq<Token>) -> bool {
        match self.registry.index_of(handle) {
            Some(index) => tokens_ok(tokens) && all_taken(
                all_removed(self.resets, self.registry.at(index).reset_tokens@, handle),
                tokens,
                handle,
            ) == tokens.len(),
            None => false,
        }
    }

    /// The index of tokens after a connection has other tokens.
    pub open spec fn resets_after(self, handle: Handle, tokens: Seq<Token>) -> ResetModel {
        match self.registry.index_of(handle) {
            Some(index) => if !tokens_ok(tokens) {
                self.resets
            } else {
                let cleared = all_removed(
                    self.resets,
                    self.registry.at(index).reset_tokens@,
                    handle,
                );
                if self.tokens_taken(handle, tokens) {
                    all_inserted(cleared, tokens, handle)
                } else {
                    all_removed(
                        all_inserted(cleared, offered(cleared, tokens, handle), handle),
                        tokens,
                        handle,
                    )
                }
            },
            None => self.resets,
        }
    }

    /// After a connection has other tokens, as far as they are few enough and each
    /// there once only.
    pub open spec fn synced(self, handle: Handle, tokens: Vec<Token>) -> RouterModel<S> {
        match self.registry.index_of(handle) {
            Some(index) => if tokens_ok(tokens@) {
                RouterModel {
                    registry: self.registry.put(
                        index,
                        Slot { reset_tokens: tokens, ..self.registry.at(index) },
                    ),
                    resets: self.resets_after(handle, tokens@),
                    ..self
                }
            } else {
                self
            },
            None => self,
        }
    }

    /// After a connection has other tokens, or is gone where they cannot be kept.
    pub open spec fn settled(self, handle: Handle, tokens: Vec<Token>) -> RouterModel<S> {
        if self.tokens_taken(handle, tokens@) {
            self.synced(handle, tokens)
        } else {
            self.synced(handle, tokens).removed(handle)
        }
    }

    /// After a connection is to send.
    pub open spec fn flush_scheduled(self, handle: Handle) -> RouterModel<S> {
        match self.registry.index_of(handle) {
            Some(index) => RouterModel { flush: put_in(self.flush, index), ..self },
            None => self,
        }
    }

    /// After a connection is to be told something.
    pub open spec fn notify_scheduled(self, handle: Handle) -> RouterModel<S> {
        match self.registry.index_of(handle) {
            Some(index) => RouterModel { notify: put_in(self.notify, index), ..self },
            None => self,
        }
    }

    /// When a connection has to be looked at again.
    pub open spec fn slot_deadline(self, index: int, now: Instant) -> Option<Instant> {
        let slot = self.registry.at(index);
        let send = if self.flush.contains(index) {
            None
        } else {
            slot.conn@.deadline(now, slot.timer)
        };
        match (slot.timer, send) {
            (Some(timer), Some(send)) => Some(
                if send < timer {
                    send
                } else {
                    timer
                },
            ),
            (Some(timer), None) => Some(timer),
            (None, send) => send,
        }
    }

    /// After it was settled when a connection has to be looked at again.
    pub open spec fn deadline_refreshed(self, handle: Handle, now: Instant) -> RouterModel<S> {
        match self.registry.index_of(handle) {
            Some(index) => {
                let reap = taken_out(self.reap, index);
                if self.registry.at(index).conn@.egress.closed {
                    RouterModel {
                        reap: reap.push(index),
                        deadlines: self.deadlines.remove(index),
                        ..self
                    }
                } else {
                    RouterModel {
                        reap,
                        deadlines: match self.slot_deadline(index, now) {
                            Some(time) => self.deadlines.insert(index, time),
                            None => self.deadlines.remove(index),
                        },
                        ..self
                    }
                }
            },
            None => self,
        }
    }
}

proof fn lemma_taken_out(queue: Seq<int>, index: int, other: int)
    requires
        queue.no_duplicates(),
    ensures
        taken_out(queue, index).no_duplicates(),
        taken_out(queue, index).contains(other) == (other != index && queue.contains(other)),
{
    if queue.contains(index) {
        let at = queue.index_of(index);
        let rest = taken_out(queue, index);
        assert(queue[at] == index);
        assert forall|i: int| 0 <= i < rest.len() implies rest[i] == queue[if i < at {
            i
        } else {
            i + 1
        }] by {}
        if rest.contains(other) {
            let i = rest.index_of(other);
            assert(rest[i] == queue[if i < at {
                i
            } else {
                i + 1
            }]);
            assert(queue.contains(other));
        }
        if other != index && queue.contains(other) {
            let i = queue.index_of(other);
            if i < at {
                assert(rest[i] == other);
            } else {
                assert(rest[i - 1] == other);
            }
        }
    }
}

proof fn lemma_put_in(queue: Seq<int>, index: int, other: int)
    requires
        queue.no_duplicates(),
    ensures
        put_in(queue, index).no_duplicates(),
        put_in(queue, index).contains(other) == (other == index || queue.contains(other)),
{
    let after = put_in(queue, index);
    if !queue.contains(index) {
        assert(after[queue.len() as int] == index);
        if queue.contains(other) {
            let i = queue.index_of(other);
            assert(after[i] == other);
        }
        if after.contains(other) && other != index {
            let i = after.index_of(other);
            assert(queue[i] == other);
        }
        assert forall|i: int, j: int| 0 <= i < after.len() && 0 <= j < after.len() && i
            != j implies after[i] != after[j] by {
            if i == queue.len() {
                assert(queue.contains(queue[j]));
            } else if j == queue.len() {
                assert(queue.contains(queue[i]));
            }
        }
    }
}

/// A queue that was sound is so still when other places are in use too.
proof fn lemma_queue_kept<S>(m: RouterModel<S>, after: RouterModel<S>, queue: Seq<int>)
    requires
        m.queue_sound(queue),
        forall|i: int| #[trigger] m.registry.live(i) ==> after.registry.live(i),
    ensures
        after.queue_sound(queue),
{
}

proof fn lemma_queue_without<S>(
    m: RouterModel<S>,
    after: RouterModel<S>,
    queue: Seq<int>,
    index: int,
)
    requires
        m.queue_sound(queue),
        forall|i: int| i != index && #[trigger] m.registry.live(i) ==> after.registry.live(i),
    ensures
        after.queue_sound(taken_out(queue, index)),
{
    let rest = taken_out(queue, index);
    lemma_taken_out(queue, index, index);
    assert forall|i: int| 0 <= i < rest.len() implies after.registry.live(#[trigger] rest[i]) by {
        let x = rest[i];
        assert(rest.contains(x));
        lemma_taken_out(queue, index, x);
        let j = queue.index_of(x);
        assert(m.registry.live(queue[j]));
    }
}

proof fn lemma_queue_with<S>(m: RouterModel<S>, queue: Seq<int>, index: int)
    requires
        m.queue_sound(queue),
        m.registry.live(index),
    ensures
        m.queue_sound(put_in(queue, index)),
{
    let more = put_in(queue, index);
    lemma_put_in(queue, index, index);
    assert forall|i: int| 0 <= i < more.len() implies m.registry.live(#[trigger] more[i]) by {
        if i < queue.len() {
            assert(more[i] == queue[i]);
        }
    }
}

/// When a connection is gone, nothing leads to it: no connection ID, no token, no
/// queue and no deadline; and every other connection ID leads where it did.
pub proof fn law_removed_forgotten<S>(
    m: RouterModel<S>,
    handle: Handle,
    value: Seq<u8>,
    token: Token,
)
    requires
        m.sound(),
        m.registry.index_of(handle) is Some,
    ensures
        m.removed(handle).sound(),
        m.removed(handle).registry.index_of(handle) is None,
        m.removed(handle).cids.find(value) == match m.cids.find(value) {
            Some((index, local)) if index != handle.index => Some((index, local)),
            _ => None,
        },
        m.removed(handle).resets.get(token) == if m.resets.get(token) == Some(handle) {
            None
        } else {
            m.resets.get(token)
        },
        !m.removed(handle).notify.contains(handle.index as int),
        !m.removed(handle).flush.contains(handle.index as int),
        !m.removed(handle).reap.contains(handle.index as int),
        !m.removed(handle).deadlines.dom().contains(handle.index as int),
{
    let index = handle.index as int;
    lemma_removed_sound(m, handle);
    law_without_rest(m.cids, index, value);
    lemma_all_removed(m.resets, m.registry.at(index).reset_tokens@, handle, token);
    lemma_taken_out(m.notify, index, index);
    lemma_taken_out(m.flush, index, index);
    lemma_taken_out(m.reap, index, index);
}

proof fn lemma_removed_sound<S>(m: RouterModel<S>, handle: Handle)
    requires
        m.sound(),
        m.registry.index_of(handle) is Some,
    ensures
        m.removed(handle).sound(),
{
    let index = handle.index as int;
    let after = m.removed(handle);
    let tokens = m.registry.at(index).reset_tokens@;
    law_without_rest(m.cids, index, Seq::empty());
    lemma_queue_without(m, after, m.notify, index);
    lemma_queue_without(m, after, m.flush, index);
    lemma_queue_without(m, after, m.reap, index);
    assert forall|i: int| #[trigger] after.registry.live(i) implies after.registry.at(i).wf()
        && after.registry.entries[i].used by {
        assert(m.registry.live(i));
    }
    lemma_removed_registry(m.registry, index);
    lemma_all_removed_sound(m.resets, tokens, handle);
    assert forall|place: int|
        0 <= place < after.cids.routes.len() && (
        #[trigger] after.cids.routes[place]) is Some implies after.registry.live(
        place / ORDINALS as int,
    ) && (place % ORDINALS as int) < MAX_CIDS_PER_CONN by {
        assert(m.cids.routes[place] is Some);
        assert(m.registry.live(place / ORDINALS as int));
    }
    assert forall|t: Token| (#[trigger] after.resets.get(t)) is Some implies {
        let h = after.resets.get(t)->0;
        after.registry.index_of(h) is Some && after.registry.at(
            h.index as int,
        ).reset_tokens@.contains(t)
    } by {
        lemma_all_removed(m.resets, tokens, handle, t);
        let h = m.resets.get(t)->0;
        assert(m.registry.index_of(h) is Some);
        if h.index == handle.index {
            assert(h == handle);
        }
    }
    assert forall|i: int| #[trigger] after.deadlines.dom().contains(
        i,
    ) implies after.registry.live(i) by {
        assert(m.deadlines.dom().contains(i));
    }
}

proof fn lemma_all_removed_sound(m: ResetModel, tokens: Seq<Token>, handle: Handle)
    requires
        m.sound(),
    ensures
        all_removed(m, tokens, handle).sound(),
    decreases tokens.len(),
{
    if tokens.len() > 0 {
        lemma_all_removed_sound(m, tokens.drop_last(), handle);
        law_removed_gone(
            all_removed(m, tokens.drop_last(), handle),
            tokens.last(),
            handle,
            tokens.last(),
        );
    }
}

proof fn lemma_removed_registry<T>(m: RegistryModel<T>, index: int)
    requires
        m.sound(),
        m.live(index),
    ensures
        m.removed(index).sound(),
{
    let after = m.removed(index);
    assert forall|i: int, j: int|
        0 <= i < after.free.len() && 0 <= j < after.free.len() && i != j implies after.free[i]
        != after.free[j] by {
        if i > 0 {
            assert(after.free[i] == m.free[i - 1]);
        }
        if j > 0 {
            assert(after.free[j] == m.free[j - 1]);
        }
    }
    assert forall|i: int| 0 <= i < after.free.len() implies 0 <= #[trigger] after.free[i]
        < after.entries.len() && after.entries[after.free[i]].value is None by {
        if i > 0 {
            assert(after.free[i] == m.free[i - 1]);
        }
    }
}

/// A connection that came in is led to by nothing yet, and what leads to the others
/// still does.
pub proof fn law_inserted_sound<S>(m: RouterModel<S>, slot: Slot<S>)
    requires
        m.sound(),
        slot.wf(),
        m.inserted(slot).registry.sound(),
        m.registry.next() is Some,
    ensures
        m.inserted(slot).sound(),
{
    let after = m.inserted(slot);
    lemma_next(m.registry);
    let index = m.registry.next()->0;
    assert forall|i: int| #[trigger] m.registry.live(i) implies after.registry.live(i) && i
        != index by {}
    lemma_queue_kept(m, after, m.notify);
    lemma_queue_kept(m, after, m.flush);
    lemma_queue_kept(m, after, m.reap);
    assert forall|i: int| #[trigger] after.registry.live(i) implies after.registry.at(i).wf()
        && after.registry.entries[i].used by {
        if i != index {
            assert(m.registry.live(i));
        }
    }
    assert forall|place: int|
        0 <= place < after.cids.routes.len() && (
        #[trigger] after.cids.routes[place]) is Some implies after.registry.live(
        place / ORDINALS as int,
    ) && (place % ORDINALS as int) < MAX_CIDS_PER_CONN by {
        assert(m.registry.live(place / ORDINALS as int));
    }
    assert forall|t: Token| (#[trigger] after.resets.get(t)) is Some implies {
        let h = after.resets.get(t)->0;
        after.registry.index_of(h) is Some && after.registry.at(
            h.index as int,
        ).reset_tokens@.contains(t)
    } by {
        let h = m.resets.get(t)->0;
        assert(m.registry.index_of(h) is Some);
        assert(m.registry.live(h.index as int));
    }
    assert forall|i: int| #[trigger] after.deadlines.dom().contains(
        i,
    ) implies after.registry.live(i) by {
        assert(m.registry.live(i));
    }
}

/// All connections of a socket. What a connection does beyond sending is up to its
/// session.
pub struct Router<S> {
    pub(crate) registry: Registry<Slot<S>>,
    pub(crate) cids: CidTable,
    pub(crate) resets: ResetIndex,
    pub(crate) cid_counter: u64,
    pub(crate) deadlines: Deadlines,
    pub(crate) notify: Turns,
    pub(crate) flush: Turns,
    pub(crate) reap: Turns,
    pub(crate) phase: DrivePhase,
    pub(crate) output: Storage,
    pub(crate) server: Option<ServerConfig>,
    pub(crate) shutting_down: bool,
    pub(crate) cursor: usize,
    pub(crate) dirty: Option<Handle>,
    pub(crate) seeds: [[u8; 32]; 3],
}

impl<S> View for Router<S> {
    type V = RouterModel<S>;

    closed spec fn view(&self) -> RouterModel<S> {
        RouterModel {
            registry: self.registry@,
            cids: self.cids@,
            resets: self.resets@,
            cid_counter: self.cid_counter,
            deadlines: self.deadlines@,
            notify: self.notify@,
            flush: self.flush@,
            reap: self.reap@,
            phase: self.phase,
            output: self.output@,
            server: self.server,
            shutting_down: self.shutting_down,
            cursor: self.cursor as int,
            dirty: self.dirty,
        }
    }
}

impl<S> Router<S> {
    /// Each part is well-formed and of the size of the others.
    pub closed spec fn parts(&self) -> bool {
        &&& self.registry.wf()
        &&& self.cids.wf()
        &&& self.resets.wf()
        &&& self.notify.wf()
        &&& self.flush.wf()
        &&& self.reap.wf()
        &&& self.output.wf()
        &&& self.notify.size() == self.registry@.entries.len()
        &&& self.flush.size() == self.registry@.entries.len()
        &&& self.reap.size() == self.registry@.entries.len()
        &&& self.deadlines.size() == self.registry@.entries.len()
        &&& self.cids@.routes.len() == self.registry@.entries.len() * ORDINALS
    }

    pub open spec fn wf(&self) -> bool {
        &&& self.parts()
        &&& self@.sound()
    }

    /// No connections yet. The seeds place connection IDs and tokens in their tables.
    pub fn new(limits: Limits, server: Option<ServerConfig>, seeds: [[u8; 32]; 3]) -> (result: Result<
        Router<S>,
        ConnectError,
    >)
        ensures
            match result {
                Ok(router) => {
                    &&& limits.valid()
                    &&& router.wf()
                    &&& router@.registry.max == limits.max_connections
                    &&& router@.registry.free == Seq::new(
                        limits.max_connections as nat,
                        |i: int| i,
                    )
                    &&& forall|i: int| !router@.registry.live(i)
                    &&& forall|i: int| 0 <= i < limits.max_connections ==> !(
                    #[trigger] router@.registry.entries[i]).used
                    &&& forall|value: Seq<u8>| !router@.cids.has(value)
                    &&& forall|token: Token| !router@.resets.has(token)
                    &&& router@.cid_counter == 0
                    &&& router@.deadlines == no_times()
                    &&& router@.notify.len() == 0
                    &&& router@.flush.len() == 0
                    &&& router@.reap.len() == 0
                    &&& router@.phase == DrivePhase::Notify
                    &&& router@.output == (StorageModel {
                        pending: Seq::empty(),
                        capacity: limits.outgoing_capacity as int,
                        bytes_capacity: limits.outgoing_bytes_capacity as int,
                        recycled: 0,
                        batch: None,
                    })
                    &&& router@.server == server
                    &&& !router@.shutting_down
                    &&& router@.cursor == 0
                    &&& router@.dirty is None
                },
                Err(error) => !limits.valid() && error == ConnectError::InvalidConfig,
            },
    {
        let limits = match limits.validate() {
            Ok(limits) => limits,
            Err(error) => {
                return Err(error);
            },
        };
        let max: usize = limits.max_connections;
        let router = Router {
            registry: Registry::new(max),
            cids: CidTable::new(max, max, seeds[0]),
            resets: ResetIndex::with_connection_capacity(max, seeds[1], seeds[2]),
            cid_counter: 0,
            deadlines: Deadlines::new(max),
            notify: Turns::new(max),
            flush: Turns::new(max),
            reap: Turns::new(max),
            phase: DrivePhase::Notify,
            output: Storage::new(limits.outgoing_capacity, limits.outgoing_bytes_capacity),
            server,
            shutting_down: false,
            cursor: 0,
            dirty: None,
            seeds,
        };
        proof {
            router.cids.lemma_model();
            router.resets.lemma_sound();
            router.registry.lemma_model();
            assert forall|value: Seq<u8>| !router@.cids.has(value) by {
                if router@.cids.has(value) {
                    let place = router@.cids.place(value);
                    assert(router@.cids.is_at(place, value));
                }
            }
            assert forall|token: Token| !router@.resets.has(token) by {
                if router@.resets.has(token) {
                    let cell = router@.resets.cell(token);
                    assert(router@.resets.is_at(cell, token));
                }
            }
        }
        Ok(router)
    }

    /// How many connections there are.
    pub fn active_conns(&self) -> (active: usize)
        requires
            self.wf(),
        ensures
            active == self@.registry.active(),
    {
        self.registry.active()
    }

    /// The place of a connection.
    pub fn handle_index(&self, handle: Handle) -> (index: Option<usize>)
        requires
            self.wf(),
        ensures
            match index {
                Some(index) => self@.registry.index_of(handle) == Some(index as int),
                None => self@.registry.index_of(handle) is None,
            },
    {
        self.registry.handle_index(handle)
    }

    /// A connection.
    pub fn conn(&self, handle: Handle) -> (slot: Option<&Slot<S>>)
        requires
            self.wf(),
        ensures
            match slot {
                Some(slot) => self@.registry.index_of(handle) is Some && *slot
                    == self@.registry.at(handle.index as int),
                None => self@.registry.index_of(handle) is None,
            },
    {
        match self.registry.handle_index(handle) {
            Some(index) => Some(self.registry.value_ref(index)),
            None => None,
        }
    }

    /// Takes a connection out, with all that leads to it.
    pub fn remove_slot(&mut self, handle: Handle) -> (slot: Option<Slot<S>>)
        requires
            old(self).wf(),
        ensures
            final(self).wf(),
            final(self)@ == old(self)@.removed(handle),
            match slot {
                Some(slot) => old(self)@.registry.index_of(handle) is Some && slot
                    == old(self)@.registry.at(handle.index as int),
                None => old(self)@.registry.index_of(handle) is None,
            },
    {
        let index: usize = match self.registry.handle_index(handle) {
            Some(index) => index,
            None => {
                return None;
            },
        };
        let ghost before = self@;
        proof {
            lemma_removed_sound(before, handle);
            assert forall|ordinal: int|
                MAX_CIDS_PER_CONN <= ordinal < ORDINALS implies #[trigger] self.cids@.routes[place_of(
                index as int,
                ordinal,
            )] is None by {
                let place = place_of(index as int, ordinal);
                assert(place % ORDINALS as int == ordinal);
            }
        }
        let same = match self.dirty {
            Some(dirty) => dirty == handle,
            None => false,
        };
        if same {
            self.dirty = None;
        }
        self.notify.remove(index);
        self.flush.remove(index);
        self.reap.remove(index);
        self.deadlines.remove(index);
        self.cids.unregister_all(index);
        let slot = self.registry.remove(index);
        self.forget_tokens(&slot.reset_tokens, handle);
        assert(self@ =~= before.removed(handle));
        Some(slot)
    }

    /// Takes tokens of a connection out of their index.
    fn forget_tokens(&mut self, tokens: &Vec<Token>, handle: Handle)
        requires
            old(self).resets.wf(),
        ensures
            final(self).resets.wf(),
            final(self).resets@ == all_removed(old(self).resets@, tokens@, handle),
            final(self).registry == old(self).registry,
            final(self).cids == old(self).cids,
            final(self).cid_counter == old(self).cid_counter,
            final(self).deadlines == old(self).deadlines,
            final(self).notify == old(self).notify,
            final(self).flush == old(self).flush,
            final(self).reap == old(self).reap,
            final(self).phase == old(self).phase,
            final(self).output == old(self).output,
            final(self).server == old(self).server,
            final(self).shutting_down == old(self).shutting_down,
            final(self).cursor == old(self).cursor,
            final(self).dirty == old(self).dirty,
            final(self).seeds == old(self).seeds,
    {
        let ghost start = self.resets@;
        let mut next: usize = 0;
        while next < tokens.len()
            invariant
                next <= tokens@.len(),
                self.resets.wf(),
                self.resets@ == all_removed(start, tokens@.subrange(0, next as int), handle),
                self.registry == old(self).registry,
                self.cids == old(self).cids,
                self.cid_counter == old(self).cid_counter,
                self.deadlines == old(self).deadlines,
                self.notify == old(self).notify,
                self.flush == old(self).flush,
                self.reap == old(self).reap,
                self.phase == old(self).phase,
                self.output == old(self).output,
                self.server == old(self).server,
                self.shutting_down == old(self).shutting_down,
                self.cursor == old(self).cursor,
                self.dirty == old(self).dirty,
                self.seeds == old(self).seeds,
            decreases tokens@.len() - next,
        {
            self.resets.remove(tokens[next], handle);
            assert(tokens@.subrange(0, next + 1).drop_last() =~= tokens@.subrange(0, next as int));
            next = next + 1;
        }
        assert(tokens@.subrange(0, tokens@.len() as int) =~= tokens@);
    }
}

} // verus!
