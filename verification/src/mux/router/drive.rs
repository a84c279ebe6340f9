//! Which connection has its turn.
use vstd::prelude::*;

use crate::clock::Instant;
use crate::conn::streams::state::Event;
use crate::conn::transmit::batch::{filled, sent_first, Emission};
use crate::conn::transmit::connection::Connection;
use crate::mux::cid_table::ORDINALS;
use crate::mux::deadlines::no_times;
use crate::mux::output::{bytes_in, gso_limit, packets_in, Outgoing, StorageModel};
use crate::mux::reset_index::Token;
use crate::mux::router::slots::lemma_put_sound;
use crate::mux::router::train::Train;
use crate::mux::router::{
    lemma_queue_with, lemma_queue_without, lemma_taken_out, Router, RouterModel, Slot,
};
use crate::mux::turns::{put_in, taken_out};
use crate::mux::{Handle, MAX_CIDS_PER_CONN};
use crate::pmtud::BASE_PMTU;
use crate::secrets::PeerAddress;

verus! {

/// How many packets a connection sends at a turn.
pub const FLUSH_PACKET_QUANTUM: usize = 8;

/// How many bytes a connection sends at a turn.
pub const FLUSH_BYTE_QUANTUM: usize = 65_536;

/// How a turn of a connection ended.
#[derive(Debug, Clone, Copy, PartialEq, Eq, Structural)]
pub enum FlushRound {
    /// There is nothing left to send.
    Idle,
    /// There is more to send.
    More,
    /// There is no room for what would be sent.
    Backpressure,
    /// There is something to send, but not now.
    Waiting,
    /// The connection is gone.
    Closed,
}

/// What a connection is told.
#[derive(Debug)]
pub enum Notice {
    Established,
    Datagram(Vec<u8>),
    Stream(Event),
    /// What happened to a stream before the connection was established.
    EarlyStream(Event),
    Nothing,
}

/// What comes of a step.
pub enum Step<S> {
    /// There was nothing to do.
    Idle,
    Done,
    /// A connection is to be told something.
    Notify(Handle, Notice),
    /// A connection is to look for lost packets.
    Reap(Handle),
    /// A connection is gone.
    Closed(Handle, Slot<S>),
}

/// How many packets of a length a connection may send at a turn.
pub open spec fn flush_limit(out: StorageModel, max_packet_bytes: int) -> int {
    let free = if out.capacity > packets_in(out.pending) {
        out.capacity - packets_in(out.pending)
    } else {
        0
    };
    let packet_room = if free < FLUSH_PACKET_QUANTUM {
        free
    } else {
        FLUSH_PACKET_QUANTUM as int
    };
    let bytes = if out.bytes_capacity > bytes_in(out.pending) {
        out.bytes_capacity - bytes_in(out.pending)
    } else {
        0
    };
    match out.batch {
        Some(limits) => gso_limit(
            packet_room,
            bytes,
            FLUSH_BYTE_QUANTUM as int,
            max_packet_bytes,
            limits,
        ),
        None => {
            let quantum = if max_packet_bytes > FLUSH_BYTE_QUANTUM {
                max_packet_bytes
            } else {
                FLUSH_BYTE_QUANTUM as int
            };
            let byte_room = if bytes < quantum {
                bytes
            } else {
                quantum
            };
            if byte_room / max_packet_bytes < packet_room {
                byte_room / max_packet_bytes
            } else {
                packet_room
            }
        },
    }
}

/// The length of the longest packet that a connection may send now.
pub open spec fn flush_bytes<S>(slot: Slot<S>) -> int {
    if slot.first_flush {
        BASE_PMTU as int
    } else {
        slot.max_packet_bytes as int
    }
}

/// Whether a connection sent a packet, or had none to send.
pub open spec fn sends(
    before: Connection,
    now: Instant,
    max_packet_bytes: int,
    after: Connection,
    packet: Option<Vec<u8>>,
) -> bool {
    exists|sent: Seq<Seq<u8>>|
        #![trigger sent_first(sent)]
        filled(
            before@,
            Seq::empty(),
            before.streams.names(),
            now,
            1,
            max_packet_bytes,
            after@,
            sent,
        ) && sent_first(sent) == match packet {
            Some(packet) => Some(packet@),
            None => None,
        }
}

/// How far a turn of a connection is.
pub struct Turn {
    pub conn: Connection,
    pub out: StorageModel,
    pub first_flush: bool,
    /// How many packets may still be sent.
    pub left: int,
}

impl Turn {
    /// After a packet that was sent was queued in a buffer that was handed out for it, if
    /// it has room.
    pub open spec fn queued(self, conn: Connection, addr: PeerAddress, packet: Vec<u8>) -> Turn {
        let item = Outgoing::Plain(addr, packet);
        Turn {
            conn,
            out: self.out.buffer_taken().pushed(item),
            first_flush: false,
            left: self.left - 1,
        }
    }

    /// After the buffer that was handed out for a packet was given back.
    pub open spec fn gave_up(self, conn: Connection) -> Turn {
        Turn { conn, out: self.out.buffer_taken().recycled(), ..self }
    }

    /// Whether one step of a turn leads to another state, after which more follow.
    pub open spec fn goes_on(
        self,
        now: Instant,
        max_packet_bytes: int,
        addr: PeerAddress,
        next: Turn,
    ) -> bool {
        exists|packet: Vec<u8>|
            #![trigger self.queued(next.conn, addr, packet)]
            sends(self.conn, now, max_packet_bytes, next.conn, Some(packet)) && self.out.takes(
                Outgoing::Plain(addr, packet),
            ) && next == self.queued(next.conn, addr, packet)
    }

    /// Whether one step of a turn ends it: nothing is sent, or what is sent has no
    /// room.
    pub open spec fn stops(
        self,
        now: Instant,
        max_packet_bytes: int,
        addr: PeerAddress,
        end: Turn,
    ) -> bool {
        ||| sends(self.conn, now, max_packet_bytes, end.conn, None) && end == self.gave_up(
            end.conn,
        )
        ||| exists|packet: Vec<u8>|
            #![trigger self.queued(end.conn, addr, packet)]
            sends(self.conn, now, max_packet_bytes, end.conn, Some(packet)) && !self.out.takes(
                Outgoing::Plain(addr, packet),
            ) && end == self.gave_up(end.conn)
    }

    /// Whether some states are those of a turn, each of which leads to the next.
    pub open spec fn steps(
        states: Seq<Turn>,
        now: Instant,
        max_packet_bytes: int,
        addr: PeerAddress,
    ) -> bool {
        &&& states.len() > 0
        &&& forall|i: int|
            0 <= i < states.len() - 1 ==> (#[trigger] states[i]).goes_on(
                now,
                max_packet_bytes,
                addr,
                states[i + 1],
            )
    }

    /// Whether a turn that began so ended so.
    pub open spec fn ran(
        self,
        now: Instant,
        max_packet_bytes: int,
        addr: PeerAddress,
        end: Turn,
    ) -> bool {
        exists|states: Seq<Turn>|
            {
                &&& #[trigger] Turn::steps(states, now, max_packet_bytes, addr)
                &&& states[0] == self
                &&& if states.last().left == 0 {
                    end == states.last()
                } else {
                    states.last().stops(now, max_packet_bytes, addr, end)
                }
            }
    }
}

impl<S> RouterModel<S> {
    /// Whether a connection has a time that is due and no later than any other.
    pub open spec fn due(self, index: int, now: Instant) -> bool {
        &&& self.deadlines.dom().contains(index)
        &&& self.deadlines[index] <= now
        &&& forall|i: int| #[trigger]
            self.deadlines.dom().contains(i) ==> self.deadlines[index] <= self.deadlines[i]
    }

    /// After a connection whose time is due is to be looked at.
    pub open spec fn promoted(self, index: int) -> RouterModel<S> {
        RouterModel {
            deadlines: self.deadlines.remove(index),
            reap: put_in(self.reap, index),
            ..self
        }
    }

    /// Whether a step can be made.
    pub open spec fn has_work(self, now: Instant) -> bool {
        ||| self.notify.len() != 0
        ||| self.reap.len() != 0
        ||| exists|i: int| #[trigger] self.due(i, now)
        ||| self.flush.len() != 0 && self.output.has_room()
    }

    /// Whether there is something to tell of a connection.
    pub open spec fn to_tell(self, index: int) -> bool {
        let slot = self.registry.at(index);
        (slot.established && !slot.notified_established) || slot.inbox@.len() > 0
            || slot.events@.len() > 0
    }

    /// Whether a turn of a connection led from one state to another.
    pub open spec fn flushed(
        self,
        handle: Handle,
        now: Instant,
        after: RouterModel<S>,
        outcome: FlushRound,
    ) -> bool {
        if packets_in(self.output.pending) >= self.output.capacity {
            outcome == FlushRound::Backpressure && after == self
        } else {
            match self.registry.index_of(handle) {
                None => outcome == FlushRound::Closed && after == self,
                Some(index) => {
                    let slot = self.registry.at(index);
                    let bytes = flush_bytes(slot);
                    let limit = flush_limit(self.output, bytes);
                    if bytes > self.output.bytes_capacity {
                        outcome == FlushRound::Closed && after == self.removed(handle)
                    } else if limit == 0 {
                        outcome == FlushRound::Backpressure && after == self
                    } else if self.output.batch is Some {
                        exists|end: Train, out: StorageModel, produced: bool|
                            {
                                &&& #[trigger] Train::begins(slot.conn, limit).ran(now, bytes, end)
                                &&& #[trigger] end.queued(
                                    self.output,
                                    slot.peer_addr,
                                    out,
                                    produced,
                                )
                                &&& after == self.train_taken(index, end.conn, out, produced)
                                &&& outcome == if !end.conn@.has_pending_output() {
                                    FlushRound::Idle
                                } else if produced {
                                    FlushRound::More
                                } else {
                                    FlushRound::Waiting
                                }
                            }
                    } else {
                        exists|end: Turn|
                            {
                                &&& #[trigger] self.turn_begins(index, limit).ran(
                                    now,
                                    bytes,
                                    slot.peer_addr,
                                    end,
                                )
                                &&& after == self.turn_taken(index, end)
                                &&& outcome == if !end.conn@.has_pending_output() {
                                    FlushRound::Idle
                                } else if end.left != limit {
                                    FlushRound::More
                                } else {
                                    FlushRound::Waiting
                                }
                            }
                    }
                },
            }
        }
    }

    /// Whether a turn of a connection takes it out: its packets can never have room.
    pub open spec fn flush_removes(self, handle: Handle) -> bool {
        &&& packets_in(self.output.pending) < self.output.capacity
        &&& self.registry.index_of(handle) matches Some(index) && flush_bytes(
            self.registry.at(index),
        ) > self.output.bytes_capacity
    }

    /// After a turn of a connection whose packets go out as one.
    pub open spec fn train_taken(
        self,
        index: int,
        conn: Connection,
        out: StorageModel,
        produced: bool,
    ) -> RouterModel<S> {
        let slot = self.registry.at(index);
        self.turn_taken(
            index,
            Turn { conn, out, first_flush: slot.first_flush && !produced, left: 0 },
        )
    }

    /// How a turn of a connection begins.
    pub open spec fn turn_begins(self, index: int, limit: int) -> Turn {
        Turn {
            conn: self.registry.at(index).conn,
            out: self.output,
            first_flush: self.registry.at(index).first_flush,
            left: limit,
        }
    }

    /// After a turn of a connection.
    pub open spec fn turn_taken(self, index: int, end: Turn) -> RouterModel<S> {
        RouterModel {
            registry: self.registry.put(
                index,
                Slot {
                    conn: end.conn,
                    first_flush: end.first_flush,
                    ..self.registry.at(index)
                },
            ),
            output: end.out,
            ..self
        }
    }

    /// The connections that are to send, without the first.
    pub open spec fn flush_popped(self) -> RouterModel<S> {
        RouterModel { flush: self.flush.subrange(1, self.flush.len() as int), ..self }
    }

    /// Whether the connection that waits longest to send had its turn.
    pub open spec fn flushed_one(self, now: Instant, after: RouterModel<S>) -> bool {
        let handle = self.registry.handle(self.flush[0]);
        exists|mid: RouterModel<S>, outcome: FlushRound|
            {
                &&& #[trigger] self.flush_popped().flushed(handle, now, mid, outcome)
                &&& after == (if outcome == FlushRound::More || outcome
                    == FlushRound::Backpressure {
                    mid.flush_scheduled(handle)
                } else {
                    mid
                }).deadline_refreshed(handle, now)
            }
    }
}

/// Another state of a connection, with the same tokens, keeps all in order.
pub proof fn lemma_slot_sound<S>(m: RouterModel<S>, index: int, slot: Slot<S>)
    requires
        m.sound(),
        m.registry.live(index),
        slot.wf(),
        slot.reset_tokens@ == m.registry.at(index).reset_tokens@,
    ensures
        (RouterModel { registry: m.registry.put(index, slot), ..m }).sound(),
{
    let after = RouterModel { registry: m.registry.put(index, slot), ..m };
    lemma_put_sound(m.registry, index, slot);
    assert forall|i: int| #[trigger] m.registry.live(i) == after.registry.live(i) by {}
    assert(after.queue_sound(after.notify));
    assert(after.queue_sound(after.flush));
    assert(after.queue_sound(after.reap));
    assert forall|i: int| #[trigger] after.registry.live(i) implies after.registry.at(i).wf()
        && after.registry.entries[i].used by {
        assert(m.registry.live(i));
    }
    assert forall|place: int|
        0 <= place < after.cids.routes.len() && (
        #[trigger] after.cids.routes[place]) is Some implies after.registry.live(
        place / ORDINALS as int,
    ) && (place % ORDINALS as int) < MAX_CIDS_PER_CONN by {
        assert(m.registry.live(place / ORDINALS as int));
    }
    assert forall|t: Token| (#[trigger] after.resets.get(t)) is Some implies {
        let h = after.resets.get(t)->0;
        after.registry.index_of(h) is Some && after.registry.at(
            h.index as int,
        ).reset_tokens@.contains(t)
    } by {
        let h = m.resets.get(t)->0;
        assert(m.registry.index_of(h) is Some);
    }
    assert forall|i: int| #[trigger] after.deadlines.dom().contains(
        i,
    ) implies after.registry.live(i) by {
        assert(m.registry.live(i));
    }
}

/// Other queues and times of connections that are there keep all in order.
pub proof fn lemma_turns_sound<S>(m: RouterModel<S>, after: RouterModel<S>)
    requires
        m.sound(),
        after.registry == m.registry,
        after.cids == m.cids,
        after.resets == m.resets,
        after.queue_sound(after.notify),
        after.queue_sound(after.flush),
        after.queue_sound(after.reap),
        forall|i: int| #[trigger]
            after.deadlines.dom().contains(i) ==> after.registry.live(i),
        after.output.within(),
        0 <= after.cursor <= after.registry.entries.len(),
    ensures
        after.sound(),
{
}

/// Sends a packet of a connection, if one is to be sent.
pub(crate) fn send_one(conn: &mut Connection, now: Instant, max_packet_bytes: usize) -> (packet: Option<
    Vec<u8>,
>)
    requires
        old(conn).wf(),
    ensures
        final(conn).wf(),
        sends(*old(conn), now, max_packet_bytes as int, *final(conn), packet),
{
    let mut emission = Emission::new(conn);
    emission.send_one(now, max_packet_bytes)
}

impl<S> Router<S> {
    /// Notes that a connection is to send.
    pub fn schedule_flush(&mut self, handle: Handle)
        requires
            old(self).wf(),
        ensures
            final(self).wf(),
            final(self)@ == old(self)@.flush_scheduled(handle),
    {
        let ghost before = self@;
        match self.registry.handle_index(handle) {
            Some(index) => {
                proof {
                    lemma_queue_with(before, before.flush, index as int);
                }
                self.flush.push_back(index);
                proof {
                    let after = before.flush_scheduled(handle);
                    assert(self@ =~= after);
                    assert(after.queue_sound(after.notify));
                    assert(after.queue_sound(after.flush));
                    assert(after.queue_sound(after.reap));
                    lemma_turns_sound(before, after);
                }
            },
            None => {},
        }
    }

    /// Notes that a connection is to be told something.
    pub fn schedule_notify(&mut self, handle: Handle)
        requires
            old(self).wf(),
        ensures
            final(self).wf(),
            final(self)@ == old(self)@.notify_scheduled(handle),
    {
        let ghost before = self@;
        match self.registry.handle_index(handle) {
            Some(index) => {
                proof {
                    lemma_queue_with(before, before.notify, index as int);
                }
                self.notify.push_back(index);
                proof {
                    let after = before.notify_scheduled(handle);
                    assert(self@ =~= after);
                    assert(after.queue_sound(after.notify));
                    assert(after.queue_sound(after.flush));
                    assert(after.queue_sound(after.reap));
                    lemma_turns_sound(before, after);
                }
            },
            None => {},
        }
    }

    /// When a connection has to be looked at again.
    fn slot_deadline(&self, index: usize, now: Instant) -> (deadline: Option<Instant>)
        requires
            self.wf(),
            self@.registry.live(index as int),
        ensures
            deadline == self@.slot_deadline(index as int, now),
    {
        let slot = self.registry.value_ref(index);
        let send = if self.flush.contains(index) {
            None
        } else {
            slot.conn.send_deadline(now, slot.timer)
        };
        match (slot.timer, send) {
            (Some(timer), Some(send)) => Some(
                if send < timer {
                    send
                } else {
                    timer
                },
            ),
            (Some(timer), None) => Some(timer),
            (None, send) => send,
        }
    }

    /// Settles when a connection has to be looked at again: at once if it is closed.
    pub fn refresh_deadline(&mut self, handle: Handle, now: Instant)
        requires
            old(self).wf(),
        ensures
            final(self).wf(),
            final(self)@ == old(self)@.deadline_refreshed(handle, now),
    {
        let ghost before = self@;
        let index: usize = match self.registry.handle_index(handle) {
            Some(index) => index,
            None => {
                return;
            },
        };
        proof {
            lemma_taken_out(before.reap, index as int, index as int);
            lemma_queue_without(before, before, before.reap, index as int);
        }
        let closed = self.registry.value_ref(index).conn.egress.closed;
        let deadline = self.slot_deadline(index, now);
        self.reap.remove(index);
        if closed {
            self.deadlines.remove(index);
            self.reap.push_back(index);
            proof {
                lemma_queue_with(before, taken_out(before.reap, index as int), index as int);
            }
        } else {
            match deadline {
                Some(deadline) => {
                    self.deadlines.set(index, deadline);
                },
                None => {
                    self.deadlines.remove(index);
                },
            }
        }
        proof {
            let after = before.deadline_refreshed(handle, now);
            assert(self@ =~= after);
            assert(after.queue_sound(after.notify));
            assert(after.queue_sound(after.flush));
            assert(after.queue_sound(after.reap));
            assert forall|i: int| #[trigger] after.deadlines.dom().contains(
                i,
            ) implies after.registry.live(i) by {
                if i != index {
                    assert(before.deadlines.dom().contains(i));
                }
            }
            lemma_turns_sound(before, after);
        }
    }

    /// When something has to be done next.
    pub fn next_deadline(&self, now: Instant) -> (deadline: Option<Instant>)
        requires
            self.wf(),
        ensures
            if self@.notify.len() != 0 || self@.reap.len() != 0 || (self@.flush.len() != 0
                && self@.output.has_room()) {
                deadline == Some(now)
            } else {
                match deadline {
                    Some(time) => exists|index: int|
                        {
                            &&& #[trigger] self@.deadlines.dom().contains(index)
                            &&& self@.deadlines[index] == time
                            &&& forall|i: int| #[trigger]
                                self@.deadlines.dom().contains(i) ==> time <= self@.deadlines[i]
                        },
                    None => self@.deadlines == no_times(),
                }
            },
    {
        if self.notify.len() != 0 || self.reap.len() != 0 || (self.flush.len() != 0
            && self.output.has_outgoing_room()) {
            return Some(now);
        }
        match self.deadlines.peek() {
            Some((index, deadline)) => {
                assert(self@.deadlines.dom().contains(index as int));
                Some(deadline)
            },
            None => None,
        }
    }

    /// Whether a step can be made.
    pub fn has_drive_work(&self, now: Instant) -> (work: bool)
        requires
            self.wf(),
        ensures
            work == self@.has_work(now),
    {
        if self.notify.len() != 0 || self.reap.len() != 0 {
            return true;
        }
        match self.deadlines.peek() {
            Some((index, deadline)) => {
                if deadline <= now {
                    assert(self@.due(index as int, now));
                    return true;
                }
                assert forall|i: int| !#[trigger] self@.due(i, now) by {
                    if self@.due(i, now) {
                        assert(self@.deadlines.dom().contains(index as int));
                    }
                }
            },
            None => {
                assert forall|i: int| !#[trigger] self@.due(i, now) by {}
            },
        }
        self.flush.len() != 0 && self.output.has_outgoing_room()
    }

    /// Lets the connection whose time came first be looked at, if its time is due.
    pub fn promote_deadline_one(&mut self, now: Instant) -> (promoted: bool)
        requires
            old(self).wf(),
        ensures
            final(self).wf(),
            if promoted {
                exists|index: int| #[trigger]
                    old(self)@.due(index, now) && final(self)@ == old(self)@.promoted(index)
            } else {
                final(self)@ == old(self)@ && forall|index: int| !#[trigger] old(self)@.due(
                    index,
                    now,
                )
            },
    {
        let ghost before = self@;
        let (index, deadline) = match self.deadlines.peek() {
            Some(least) => least,
            None => {
                assert forall|i: int| !#[trigger] self@.due(i, now) by {}
                return false;
            },
        };
        if deadline > now {
            assert forall|i: int| !#[trigger] self@.due(i, now) by {
                if self@.due(i, now) {
                    assert(self@.deadlines.dom().contains(index as int));
                }
            }
            return false;
        }
        assert(before.due(index as int, now));
        assert(before.registry.live(index as int));
        self.deadlines.remove(index);
        if self.registry.is_live(index) {
            self.reap.push_back(index);
        }
        proof {
            let after = before.promoted(index as int);
            lemma_queue_with(before, before.reap, index as int);
            assert(self@ =~= after);
            assert(after.queue_sound(after.notify));
            assert(after.queue_sound(after.flush));
            assert(after.queue_sound(after.reap));
            assert forall|i: int| #[trigger] after.deadlines.dom().contains(
                i,
            ) implies after.registry.live(i) by {
                assert(before.deadlines.dom().contains(i));
            }
            lemma_turns_sound(before, after);
        }
        true
    }
}

/// A connection sends at most eight packets at a turn, and no more than have room.
pub proof fn law_turn_is_bounded(out: StorageModel, max_packet_bytes: int)
    requires
        max_packet_bytes > 0,
        out.within(),
        out.batch matches Some(limits) ==> limits.max_segments >= 1,
        bytes_in(out.pending) >= 0,
    ensures
        ({
            let limit = flush_limit(out, max_packet_bytes);
            &&& 0 <= limit <= 8
            &&& packets_in(out.pending) + limit <= out.capacity
            &&& bytes_in(out.pending) + limit * max_packet_bytes <= out.bytes_capacity
        }),
{
    let free = out.capacity - packets_in(out.pending);
    let room = if free < 8 {
        free
    } else {
        8
    };
    let bytes = out.bytes_capacity - bytes_in(out.pending);
    match out.batch {
        Some(limits) => {
            crate::mux::output::law_batch_limit(room, bytes, 65_536, max_packet_bytes, limits);
        },
        None => {
            let d = max_packet_bytes;
            let quantum = if d > 65_536 {
                d
            } else {
                65_536
            };
            let byte_room = if bytes < quantum {
                bytes
            } else {
                quantum
            };
            vstd::arithmetic::div_mod::lemma_fundamental_div_mod(byte_room, d);
            vstd::arithmetic::div_mod::lemma_div_pos_is_pos(byte_room, d);
            let q = byte_room / d;
            let limit = flush_limit(out, max_packet_bytes);
            assert(q * d == d * q) by (nonlinear_arith);
            if limit <= q {
                assert(limit * d <= q * d) by (nonlinear_arith)
                    requires
                        limit <= q,
                        d > 0,
                ;
            }
        },
    }
}

/// The first packets of a connection are at most 1200 bytes long; later ones as long as its
/// packets may be.
pub proof fn law_first_packets_are_short<S>(slot: Slot<S>)
    ensures
        slot.first_flush ==> flush_bytes(slot) == 1200,
        !slot.first_flush ==> flush_bytes(slot) == slot.max_packet_bytes,
{
}

/// A connection whose time is due is looked at, and has no time until it was.
pub proof fn law_due_is_looked_at<S>(m: RouterModel<S>, index: int, now: Instant)
    requires
        m.due(index, now),
        m.reap.no_duplicates(),
    ensures
        m.deadlines[index] <= now,
        m.promoted(index).reap.contains(index),
        !m.promoted(index).deadlines.dom().contains(index),
        m.has_work(now),
        m.promoted(index).flush == m.flush,
{
    crate::mux::turns::law_waits_once(m.reap, index);
}

} // verus!
