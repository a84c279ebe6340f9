//! One step after the other.
use vstd::prelude::*;

use crate::clock::Instant;
use crate::conn::transmit::connection::ConnModel;
use crate::frame::put_bytes;
use crate::mux::output::{
    coalesce_gso, gso_is_usable, gso_packet_limit, GsoLimits, Outgoing, StorageModel,
};
use crate::mux::reset_index::Token;
use crate::mux::router::drive::{
    flush_limit, lemma_slot_sound, lemma_turns_sound, send_one, sends, FlushRound, Notice, Step,
    Turn, FLUSH_BYTE_QUANTUM, FLUSH_PACKET_QUANTUM,
};
use crate::mux::router::train::{couple, joined, lemma_joined_some, law_train_is_even, Train};
use crate::mux::router::{DrivePhase, Router, RouterModel, Slot};
use crate::mux::Handle;
use crate::pmtud::BASE_PMTU;

verus! {

/// How many steps are made at a time.
pub const DIRECT_DRIVE_BUDGET: usize = 256;

/// Whether the first thing that a connection has to be told was taken from it: that
/// it is established, then the first datagram, then what happened first to a
/// stream.
pub open spec fn told<S>(slot: Slot<S>, after: Slot<S>, notice: Notice) -> bool {
    if slot.established && !slot.notified_established {
        notice == Notice::Established && after == (Slot { notified_established: true, ..slot })
    } else if slot.inbox@.len() > 0 {
        &&& notice == Notice::Datagram(slot.inbox@[0])
        &&& after.inbox@ == slot.inbox@.subrange(1, slot.inbox@.len() as int)
        &&& after == (Slot { inbox: after.inbox, ..slot })
    } else if slot.events@.len() > 0 {
        let event = slot.events@[0];
        &&& notice == if slot.notified_established {
            Notice::Stream(event)
        } else {
            Notice::EarlyStream(event)
        }
        &&& after.events@ == slot.events@.subrange(1, slot.events@.len() as int)
        &&& after.conn@ == (ConnModel { streams: slot.conn@.streams.told(event), ..slot.conn@ })
        &&& after == (Slot { events: after.events, conn: after.conn, ..slot })
    } else {
        notice == Notice::Nothing && after == slot
    }
}

impl<S> RouterModel<S> {
    /// The connections that are to be looked at, without the first.
    pub open spec fn reap_popped(self) -> RouterModel<S> {
        RouterModel { reap: self.reap.subrange(1, self.reap.len() as int), ..self }
    }

    /// After a connection looked for lost packets: gone if it is closed, and otherwise
    /// to be told, to send and to be looked at again.
    pub open spec fn reaped(self, handle: Handle, now: Instant) -> RouterModel<S> {
        match self.registry.index_of(handle) {
            Some(index) => if self.registry.at(index).conn@.egress.closed {
                self.removed(handle)
            } else {
                self.notify_scheduled(handle).flush_scheduled(handle).deadline_refreshed(
                    handle,
                    now,
                )
            },
            None => self,
        }
    }

    /// The connections that are to be told something, without the first.
    pub open spec fn notify_popped(self) -> RouterModel<S> {
        RouterModel { notify: self.notify.subrange(1, self.notify.len() as int), ..self }
    }

    /// Whether the connection that waits longest to be told something was.
    pub open spec fn notified(self, after: RouterModel<S>, notice: Notice) -> bool {
        let index = self.notify[0];
        let slot = after.registry.at(index);
        &&& after.registry.live(index)
        &&& told(self.registry.at(index), slot, notice)
        &&& after == (RouterModel {
            registry: self.registry.put(index, slot),
            ..self.notify_popped()
        })
    }

    /// After a connection was told something and has those tokens now: gone if they
    /// cannot be kept, and otherwise to send, and to be told more if there is more.
    pub open spec fn heard(self, handle: Handle, tokens: Vec<Token>) -> RouterModel<S> {
        if self.registry.index_of(handle) is None {
            self
        } else if !self.tokens_taken(handle, tokens@) {
            self.synced(handle, tokens).removed(handle)
        } else {
            let kept = self.synced(handle, tokens);
            (if self.to_tell(handle.index as int) {
                kept.notify_scheduled(handle)
            } else {
                kept
            }).flush_scheduled(handle)
        }
    }

    /// The next phase comes.
    pub open spec fn phase_passed(self) -> RouterModel<S> {
        RouterModel { phase: self.phase.after(), ..self }
    }

    /// Whether a step was made in one of so many phases from the present one on, and
    /// what came of it.
    pub open spec fn driven(
        self,
        now: Instant,
        phases: nat,
        after: RouterModel<S>,
        step: Step<S>,
    ) -> bool
        decreases phases,
    {
        let m = self.phase_passed();
        if phases == 0 {
            after == self && step is Idle
        } else {
            match self.phase {
                DrivePhase::Notify => if self.notify.len() > 0 {
                    step matches Step::Notify(handle, notice) && handle == self.registry.handle(
                        self.notify[0],
                    ) && m.notified(after, notice)
                } else {
                    m.driven(now, (phases - 1) as nat, after, step)
                },
                DrivePhase::Deadline => if exists|index: int| #[trigger] self.due(index, now) {
                    step is Done && exists|index: int| #[trigger]
                        self.due(index, now) && after == m.promoted(index)
                } else {
                    m.driven(now, (phases - 1) as nat, after, step)
                },
                DrivePhase::Reap => if self.reap.len() > 0 {
                    step == Step::<S>::Reap(self.registry.handle(self.reap[0])) && after
                        == m.reap_popped()
                } else {
                    m.driven(now, (phases - 1) as nat, after, step)
                },
                DrivePhase::Flush => if self.flush.len() > 0 && self.output.has_room() {
                    let handle = self.registry.handle(self.flush[0]);
                    &&& m.flushed_one(now, after)
                    &&& match step {
                        Step::Done => !m.flush_popped().flush_removes(handle),
                        Step::Closed(gone, slot) => m.flush_popped().flush_removes(handle) && gone
                            == handle && slot == self.registry.at(self.flush[0]),
                        _ => false,
                    }
                } else {
                    m.driven(now, (phases - 1) as nat, after, step)
                },
            }
        }
    }
}

proof fn lemma_queue_rest<S>(m: RouterModel<S>, queue: Seq<int>)
    requires
        m.queue_sound(queue),
        queue.len() > 0,
    ensures
        m.queue_sound(queue.subrange(1, queue.len() as int)),
        m.registry.live(queue[0]),
{
    let rest = queue.subrange(1, queue.len() as int);
    assert forall|i: int| 0 <= i < rest.len() implies m.registry.live(#[trigger] rest[i]) by {
        assert(rest[i] == queue[i + 1]);
    }
    assert forall|i: int, j: int| 0 <= i < rest.len() && 0 <= j < rest.len() && i
        != j implies rest[i] != rest[j] by {
        assert(rest[i] == queue[i + 1]);
        assert(rest[j] == queue[j + 1]);
    }
}

proof fn lemma_phase_sound<S>(m: RouterModel<S>)
    requires
        m.sound(),
    ensures
        m.phase_passed().sound(),
{
    let after = m.phase_passed();
    assert(after.queue_sound(after.notify));
    assert(after.queue_sound(after.flush));
    assert(after.queue_sound(after.reap));
}

impl<S> Router<S> {
    /// The connection that waits longest to be looked at.
    pub fn next_reap(&mut self) -> (handle: Option<Handle>)
        requires
            old(self).wf(),
        ensures
            final(self).wf(),
            match handle {
                Some(handle) => old(self)@.reap.len() > 0 && handle == old(self)@.registry.handle(
                    old(self)@.reap[0],
                ) && old(self)@.registry.index_of(handle) is Some && final(self)@ == old(self)@.reap_popped(),
                None => old(self)@.reap.len() == 0 && final(self)@ == old(self)@,
            },
    {
        let ghost before = self@;
        proof {
            if before.reap.len() > 0 {
                lemma_queue_rest(before, before.reap);
            }
        }
        match self.reap.pop_front() {
            Some(index) => {
                proof {
                    let after = before.reap_popped();
                    assert(self@ =~= after);
                    assert(after.queue_sound(after.notify));
                    assert(after.queue_sound(after.flush));
                    assert(after.queue_sound(after.reap));
                    lemma_turns_sound(before, after);
                }
                Some(self.registry.handle_for_index(index))
            },
            None => {
                assert(self@ =~= before);
                None
            },
        }
    }

    /// Goes on after a connection looked for lost packets. A connection that is closed
    /// is taken out.
    pub fn reaped(&mut self, handle: Handle, now: Instant) -> (gone: Option<Slot<S>>)
        requires
            old(self).wf(),
        ensures
            final(self).wf(),
            final(self)@ == old(self)@.reaped(handle, now),
            match gone {
                Some(slot) => old(self)@.registry.index_of(handle) is Some && slot
                    == old(self)@.registry.at(handle.index as int) && slot.conn@.egress.closed,
                None => old(self)@.registry.index_of(handle) is None || !old(self)@.registry.at(
                    handle.index as int,
                ).conn@.egress.closed,
            },
    {
        let index: usize = match self.registry.handle_index(handle) {
            Some(index) => index,
            None => {
                return None;
            },
        };
        if self.registry.value_ref(index).conn.egress.closed {
            return self.remove_slot(handle);
        }
        self.schedule_notify(handle);
        self.schedule_flush(handle);
        self.refresh_deadline(handle, now);
        None
    }

    /// Takes the first thing from the connection that waits longest to be told
    /// something.
    pub fn next_notice(&mut self) -> (told: Option<(Handle, Notice)>)
        requires
            old(self).wf(),
        ensures
            final(self).wf(),
            match told {
                Some((handle, notice)) => old(self)@.notify.len() > 0 && handle == old(self)@.registry.handle(old(self)@.notify[0]) && old(self)@.registry.index_of(
                    handle,
                ) is Some && old(self)@.notified(final(self)@, notice),
                None => old(self)@.notify.len() == 0 && final(self)@ == old(self)@,
            },
    {
        let ghost before = self@;
        proof {
            if before.notify.len() > 0 {
                lemma_queue_rest(before, before.notify);
            }
        }
        let index: usize = match self.notify.pop_front() {
            Some(index) => index,
            None => {
                assert(self@ =~= before);
                return None;
            },
        };
        let ghost popped = before.notify_popped();
        proof {
            assert(self@ =~= popped);
            assert(popped.queue_sound(popped.notify));
            assert(popped.queue_sound(popped.flush));
            assert(popped.queue_sound(popped.reap));
            lemma_turns_sound(before, popped);
        }
        let handle = self.registry.handle_for_index(index);
        let slot = self.registry.value_mut(index);
        let ghost was = *slot;
        let notice = first_notice(slot);
        let ghost is = *slot;
        proof {
            lemma_slot_sound(popped, index as int, is);
            assert(self@ =~= (RouterModel {
                registry: before.registry.put(index as int, is),
                ..before.notify_popped()
            }));
        }
        Some((handle, notice))
    }

    /// Goes on after a connection was told something, and has those tokens now. A
    /// connection whose tokens cannot be kept is taken out.
    pub fn heard(&mut self, handle: Handle, tokens: Vec<Token>) -> (gone: Option<Slot<S>>)
        requires
            old(self).wf(),
        ensures
            final(self).wf(),
            final(self)@ == old(self)@.heard(handle, tokens),
            (gone is Some) == (old(self)@.registry.index_of(handle) is Some && !old(self)@.tokens_taken(handle, tokens@)),
            gone matches Some(slot) ==> slot == old(self)@.synced(handle, tokens).registry.at(
                handle.index as int,
            ),
    {
        let index: usize = match self.registry.handle_index(handle) {
            Some(index) => index,
            None => {
                return None;
            },
        };
        let slot = self.registry.value_ref(index);
        let pending = (slot.established && !slot.notified_established) || slot.inbox.len() > 0
            || slot.events.len() > 0;
        if !self.sync_reset_tokens(handle, tokens) {
            return self.remove_slot(handle);
        }
        if pending {
            self.schedule_notify(handle);
        }
        self.schedule_flush(handle);
        None
    }

    /// Lets a connection send, as far as there is room. One whose packets can never have
    /// room is taken out.
    pub fn flush_conn_round(&mut self, handle: Handle, now: Instant) -> (result: (
        FlushRound,
        Option<Slot<S>>,
    ))
        requires
            old(self).wf(),
        ensures
            final(self).wf(),
            old(self)@.flushed(handle, now, final(self)@, result.0),
            (result.1 is Some) == old(self)@.flush_removes(handle),
            result.1 matches Some(slot) ==> slot == old(self)@.registry.at(handle.index as int)
                && final(self)@ == old(self)@.removed(handle),
    {
        let ghost before = self@;
        proof {
            self.output.lemma_model();
        }
        let packet_room: usize = {
            let free: usize = self.output.capacity().saturating_sub(self.output.len());
            if free < FLUSH_PACKET_QUANTUM {
                free
            } else {
                FLUSH_PACKET_QUANTUM
            }
        };
        if packet_room == 0 {
            return (FlushRound::Backpressure, None);
        }
        let index: usize = match self.registry.handle_index(handle) {
            Some(index) => index,
            None => {
                return (FlushRound::Closed, None);
            },
        };
        let slot = self.registry.value_ref(index);
        let addr = slot.peer_addr;
        let max_packet_bytes: usize = if slot.first_flush {
            BASE_PMTU as usize
        } else {
            slot.max_packet_bytes
        };
        assert(before.registry.live(index as int));
        if max_packet_bytes > self.output.bytes_capacity() {
            let slot = self.remove_slot(handle);
            return (FlushRound::Closed, slot);
        }
        let global_byte_room: usize = self.output.bytes_capacity().saturating_sub(
            self.output.bytes(),
        );
        let batch = self.output.batch();
        let packet_limit: usize = match batch {
            Some(limits) => gso_packet_limit(
                packet_room,
                global_byte_room,
                FLUSH_BYTE_QUANTUM,
                max_packet_bytes,
                limits,
            ),
            None => {
                let quantum: usize = if max_packet_bytes > FLUSH_BYTE_QUANTUM {
                    max_packet_bytes
                } else {
                    FLUSH_BYTE_QUANTUM
                };
                let byte_room: usize = if global_byte_room < quantum {
                    global_byte_room
                } else {
                    quantum
                };
                if byte_room / max_packet_bytes < packet_room {
                    byte_room / max_packet_bytes
                } else {
                    packet_room
                }
            },
        };
        assert(packet_limit == flush_limit(before.output, max_packet_bytes as int));
        if packet_limit == 0 {
            return (FlushRound::Backpressure, None);
        }
        let produced = if batch.is_some() {
            self.run_train(index, now, max_packet_bytes, packet_limit)
        } else {
            self.run_turn(index, now, max_packet_bytes, packet_limit) != packet_limit
        };
        assert(self@.registry.live(index as int));
        let pending = self.registry.value_ref(index).conn.has_pending_output();
        if !pending {
            (FlushRound::Idle, None)
        } else if produced {
            (FlushRound::More, None)
        } else {
            (FlushRound::Waiting, None)
        }
    }

    /// Sends one more packet of a connection at its turn, and tells whether the turn goes
    /// on.
    fn turn_step(&mut self, index: usize, now: Instant, max_packet_bytes: usize, left: usize) -> (
        goes_on: bool)
        requires
            old(self).wf(),
            old(self)@.registry.live(index as int),
        ensures
            final(self).wf(),
            ({
                let slot = old(self)@.registry.at(index as int);
                let begin = old(self)@.turn_begins(index as int, left as int);
                exists|end: Turn|
                    {
                        &&& final(self)@ == #[trigger] old(self)@.turn_taken(index as int, end)
                        &&& if goes_on {
                            begin.goes_on(now, max_packet_bytes as int, slot.peer_addr, end)
                        } else {
                            begin.stops(now, max_packet_bytes as int, slot.peer_addr, end)
                        }
                    }
            }),
    {
        let ghost m = self@;
        let ghost here = m.registry.at(index as int);
        let ghost at = m.turn_begins(index as int, left as int);
        let mut buffer = self.output.take_buffer();
        let addr = self.registry.value_ref(index).peer_addr;
        let place = self.registry.value_mut(index);
        let sent = send_one(&mut place.conn, now, max_packet_bytes);
        let ghost conn = place.conn;
        let ghost kept = RouterModel {
            registry: m.registry.put(index as int, Slot { conn, ..here }),
            ..m
        };
        proof {
            lemma_slot_sound(m, index as int, Slot { conn, ..here });
            assert(self@ =~= (RouterModel { output: m.output.buffer_taken(), ..kept }));
        }
        let packet = match sent {
            Some(packet) => packet,
            None => {
                self.output.recycle_packet(buffer);
                proof {
                    let end = at.gave_up(conn);
                    assert(at.stops(now, max_packet_bytes as int, addr, end));
                    assert(self@ =~= m.turn_taken(index as int, end));
                    self.keep_turns(kept);
                }
                return false;
            },
        };
        put_bytes(&mut buffer, packet.as_slice());
        assert(buffer@ =~= packet@);
        let ghost sealed = buffer;
        assert(sends(here.conn, now, max_packet_bytes as int, conn, Some(sealed)));
        if !self.output.push_or_recycle(Outgoing::Plain(addr, buffer)) {
            proof {
                let end = at.gave_up(conn);
                assert(at.queued(end.conn, addr, sealed).left == at.left - 1);
                assert(at.stops(now, max_packet_bytes as int, addr, end));
                assert(self@ =~= m.turn_taken(index as int, end));
                self.keep_turns(kept);
            }
            return false;
        }
        let ghost pushed = self@;
        let place = self.registry.value_mut(index);
        place.first_flush = false;
        proof {
            let next = at.queued(conn, addr, sealed);
            assert(at.goes_on(now, max_packet_bytes as int, addr, next));
            let fresh = Slot { conn, first_flush: false, ..here };
            lemma_slot_sound(m, index as int, fresh);
            let base = RouterModel { registry: m.registry.put(index as int, fresh), ..m };
            assert(self@.registry.entries =~= base.registry.entries);
            assert(self@.registry =~= base.registry);
            assert(self@ =~= (RouterModel { output: self@.output, ..base }));
            assert(self@ =~= m.turn_taken(index as int, next));
            self.keep_turns(base);
        }
        true
    }

    /// Sends packets of a connection until so many are sent or none follows, and tells
    /// how many are missing.
    fn run_turn(
        &mut self,
        index: usize,
        now: Instant,
        max_packet_bytes: usize,
        limit: usize,
    ) -> (left: usize)
        requires
            old(self).wf(),
            old(self)@.registry.live(index as int),
        ensures
            final(self).wf(),
            exists|end: Turn|
                {
                    &&& #[trigger] old(self)@.turn_begins(index as int, limit as int).ran(
                        now,
                        max_packet_bytes as int,
                        old(self)@.registry.at(index as int).peer_addr,
                        end,
                    )
                    &&& final(self)@ == old(self)@.turn_taken(index as int, end)
                    &&& left == end.left
                },
    {
        let ghost before = self@;
        let ghost addr = before.registry.at(index as int).peer_addr;
        let mut left: usize = limit;
        let ghost begin = before.turn_begins(index as int, limit as int);
        let ghost mut states: Seq<Turn> = seq![begin];
        assert(Turn::steps(states, now, max_packet_bytes as int, addr));
        assert(before.registry.entries.update(
            index as int,
            before.registry.entries[index as int],
        ) =~= before.registry.entries);
        assert(self@ =~= before.turn_taken(index as int, begin));
        while left > 0
            invariant
                self.wf(),
                before == old(self)@,
                before.registry.live(index as int),
                addr == before.registry.at(index as int).peer_addr,
                Turn::steps(states, now, max_packet_bytes as int, addr),
                states[0] == begin,
                begin == before.turn_begins(index as int, limit as int),
                states.last().left == left,
                self@ == before.turn_taken(index as int, states.last()),
            decreases left,
        {
            let ghost at = states.last();
            let ghost m = self@;
            let goes_on = self.turn_step(index, now, max_packet_bytes, left);
            let ghost end = choose|end: Turn|
                {
                    &&& self@ == #[trigger] m.turn_taken(index as int, end)
                    &&& if goes_on {
                        m.turn_begins(index as int, left as int).goes_on(
                            now,
                            max_packet_bytes as int,
                            addr,
                            end,
                        )
                    } else {
                        m.turn_begins(index as int, left as int).stops(
                            now,
                            max_packet_bytes as int,
                            addr,
                            end,
                        )
                    }
                };
            proof {
                assert(m.turn_begins(index as int, left as int) == at);
                lemma_turns_join(before, index as int, at, end);
            }
            if !goes_on {
                assert(begin.ran(now, max_packet_bytes as int, addr, end));
                return left;
            }
            left = left - 1;
            proof {
                lemma_steps_push(states, now, max_packet_bytes as int, addr, end);
                states = states.push(end);
            }
        }
        assert(begin.ran(now, max_packet_bytes as int, addr, states.last()));
        left
    }

    /// Sends packets of a connection that go out as one, and tells whether they did.
    fn run_train(
        &mut self,
        index: usize,
        now: Instant,
        max_packet_bytes: usize,
        limit: usize,
    ) -> (produced: bool)
        requires
            old(self).wf(),
            old(self)@.registry.live(index as int),
        ensures
            final(self).wf(),
            ({
                let slot = old(self)@.registry.at(index as int);
                exists|end: Train, out: StorageModel|
                    {
                        &&& #[trigger] Train::begins(slot.conn, limit as int).ran(
                            now,
                            max_packet_bytes as int,
                            end,
                        )
                        &&& #[trigger] end.queued(
                            old(self)@.output,
                            slot.peer_addr,
                            out,
                            produced,
                        )
                        &&& final(self)@ == old(self)@.train_taken(
                            index as int,
                            end.conn,
                            out,
                            produced,
                        )
                    }
            }),
    {
        let ghost m = self@;
        let ghost here = m.registry.at(index as int);
        let mut buffer = self.output.take_buffer();
        let addr = self.registry.value_ref(index).peer_addr;
        let place = self.registry.value_mut(index);
        let (count, segment) = couple(&mut place.conn, now, max_packet_bytes, limit, &mut buffer);
        let ghost conn = place.conn;
        let ghost end = choose|end: Train|
            {
                &&& #[trigger] Train::begins(here.conn, limit as int).ran(
                    now,
                    max_packet_bytes as int,
                    end,
                )
                &&& end.conn == conn
                &&& buffer@ == joined(end.packets)
                &&& count == end.packets.len()
                &&& end.packets.len() > 0 ==> segment == end.segment()
            };
        let ghost taken = m.output.buffer_taken();
        let ghost kept = RouterModel {
            registry: m.registry.put(index as int, Slot { conn, ..here }),
            ..m
        };
        proof {
            lemma_slot_sound(m, index as int, Slot { conn, ..here });
            assert(self@ =~= (RouterModel { output: taken, ..kept }));
            law_train_is_even(here.conn, limit as int, now, max_packet_bytes as int, end);
        }
        if count == 0 {
            self.output.recycle_packet(buffer);
            proof {
                assert(end.queued(m.output, addr, taken.recycled(), false));
                assert(self@ =~= m.train_taken(index as int, conn, taken.recycled(), false));
                self.keep_turns(kept);
            }
            return false;
        }
        let item = if count == 1 {
            Outgoing::Plain(addr, buffer)
        } else {
            proof {
                lemma_joined_some(end.packets);
            }
            coalesce_gso(addr, buffer, segment as u16, count)
        };
        assert(end.goes_as(addr, item));
        let ghost there = item;
        let produced = self.output.push_or_recycle(item);
        let ghost out = self.output@;
        assert(end.queued(m.output, addr, out, produced));
        if produced {
            let place = self.registry.value_mut(index);
            place.first_flush = false;
        }
        proof {
            let fresh = Slot { conn, first_flush: here.first_flush && !produced, ..here };
            lemma_slot_sound(m, index as int, fresh);
            let base = RouterModel { registry: m.registry.put(index as int, fresh), ..m };
            assert(self@.registry.entries =~= base.registry.entries);
            assert(self@.registry =~= base.registry);
            assert(self@ =~= (RouterModel { output: out, ..base }));
            assert(self@ =~= m.train_taken(index as int, conn, out, produced));
            self.keep_turns(base);
        }
        produced
    }

    /// Lets the socket cut packets, where what it takes at a time is of use. The result
    /// tells whether it is.
    pub fn enable_gso(&mut self, limits: GsoLimits) -> (enabled: bool)
        requires
            old(self).wf(),
        ensures
            final(self).wf(),
            enabled == (1 < limits.max_segments <= u8::MAX && limits.max_bytes != 0),
            final(self)@ == if enabled {
                old(self)@.with_output(
                    StorageModel { batch: Some(limits), ..old(self)@.output },
                )
            } else {
                old(self)@
            },
    {
        if !gso_is_usable(limits) {
            return false;
        }
        let ghost m = self@;
        self.output.set_batch(Some(limits));
        proof {
            assert(self@ =~= m.with_output(self@.output));
            self.keep_turns(m);
        }
        true
    }

    /// Lets each packet go out alone.
    pub fn disable_gso(&mut self)
        requires
            old(self).wf(),
        ensures
            final(self).wf(),
            final(self)@ == old(self)@.with_output(
                StorageModel { batch: None, ..old(self)@.output },
            ),
    {
        let ghost m = self@;
        self.output.set_batch(None);
        proof {
            assert(self@ =~= m.with_output(self@.output));
            self.keep_turns(m);
        }
    }

    /// Lets the connection that waits longest send, if there is room.
    pub fn flush_one(&mut self, now: Instant) -> (step: Step<S>)
        requires
            old(self).wf(),
        ensures
            final(self).wf(),
            ({
                let able = old(self)@.output.has_room() && old(self)@.flush.len() > 0;
                match step {
                    Step::Idle => !able && final(self)@ == old(self)@,
                    Step::Done => able && old(self)@.flushed_one(now, final(self)@)
                        && !old(self)@.flush_popped().flush_removes(
                        old(self)@.registry.handle(old(self)@.flush[0]),
                    ),
                    Step::Closed(handle, slot) => able && old(self)@.flushed_one(
                        now,
                        final(self)@,
                    ) && old(self)@.flush_popped().flush_removes(handle) && handle == old(self)@.registry.handle(old(self)@.flush[0]) && slot == old(self)@.registry.at(old(self)@.flush[0]),
                    _ => false,
                }
            }),
    {
        let ghost before = self@;
        if !self.output.has_outgoing_room() {
            return Step::Idle;
        }
        proof {
            if before.flush.len() > 0 {
                lemma_queue_rest(before, before.flush);
            }
        }
        let index: usize = match self.flush.pop_front() {
            Some(index) => index,
            None => {
                assert(self@ =~= before);
                return Step::Idle;
            },
        };
        let ghost popped = before.flush_popped();
        proof {
            assert(self@ =~= popped);
            assert(popped.queue_sound(popped.notify));
            assert(popped.queue_sound(popped.flush));
            assert(popped.queue_sound(popped.reap));
            lemma_turns_sound(before, popped);
        }
        let handle = self.registry.handle_for_index(index);
        let (outcome, gone) = self.flush_conn_round(handle, now);
        let ghost mid = self@;
        match outcome {
            FlushRound::More | FlushRound::Backpressure => {
                self.schedule_flush(handle);
            },
            _ => {},
        }
        self.refresh_deadline(handle, now);
        assert(popped.flushed(handle, now, mid, outcome));
        match gone {
            Some(slot) => Step::Closed(handle, slot),
            None => Step::Done,
        }
    }

    /// Makes the step that comes next: what is looked for first goes round.
    pub fn drive_one(&mut self, now: Instant) -> (step: Step<S>)
        requires
            old(self).wf(),
        ensures
            final(self).wf(),
            old(self)@.driven(now, DrivePhase::COUNT as nat, final(self)@, step),
    {
        let ghost before = self@;
        let mut left: usize = DrivePhase::COUNT;
        while left > 0
            invariant
                self.wf(),
                left <= DrivePhase::COUNT,
                before == old(self)@,
                forall|after: RouterModel<S>, step: Step<S>| #[trigger]
                    self@.driven(now, left as nat, after, step) ==> before.driven(
                        now,
                        DrivePhase::COUNT as nat,
                        after,
                        step,
                    ),
            decreases left,
        {
            let ghost m = self@;
            let ghost passed = m.phase_passed();
            let phase = self.phase;
            self.phase = phase.next();
            proof {
                assert(self@ =~= passed);
                lemma_phase_sound(m);
            }
            match phase {
                DrivePhase::Notify => {
                    match self.next_notice() {
                        Some((handle, notice)) => {
                            let step = Step::Notify(handle, notice);
                            assert(m.driven(now, left as nat, self@, step));
                            return step;
                        },
                        None => {},
                    }
                },
                DrivePhase::Deadline => {
                    if self.promote_deadline_one(now) {
                        let step = Step::Done;
                        proof {
                            let index = choose|index: int| #[trigger]
                                passed.due(index, now) && self@ == passed.promoted(index);
                            assert(m.due(index, now));
                            assert(m.driven(now, left as nat, self@, step));
                        }
                        return step;
                    }
                    assert forall|index: int| !#[trigger] m.due(index, now) by {
                        assert(!passed.due(index, now));
                    }
                },
                DrivePhase::Reap => {
                    match self.next_reap() {
                        Some(handle) => {
                            let step = Step::Reap(handle);
                            assert(m.driven(now, left as nat, self@, step));
                            return step;
                        },
                        None => {},
                    }
                },
                DrivePhase::Flush => {
                    match self.flush_one(now) {
                        Step::Idle => {},
                        step => {
                            assert(m.driven(now, left as nat, self@, step));
                            return step;
                        },
                    }
                },
            }
            assert(self@ == passed);
            let ghost phases = left as nat;
            left = left - 1;
            assert forall|after: RouterModel<S>, step: Step<S>| #[trigger]
                self@.driven(now, left as nat, after, step) implies before.driven(
                now,
                DrivePhase::COUNT as nat,
                after,
                step,
            ) by {
                assert((phases - 1) as nat == left as nat);
                assert(m.driven(now, phases, after, step));
            }
        }
        assert(self@.driven(now, left as nat, self@, Step::Idle));
        Step::Idle
    }

    /// What differs from a state in order by what waits to go out only is in order.
    proof fn keep_turns(&self, m: RouterModel<S>)
        requires
            m.sound(),
            self@ == (RouterModel { output: self@.output, ..m }),
            self@.output.within(),
        ensures
            self@.sound(),
    {
        let after = self@;
        assert(after.queue_sound(after.notify));
        assert(after.queue_sound(after.flush));
        assert(after.queue_sound(after.reap));
        lemma_turns_sound(m, after);
    }
}

/// Of two steps of a turn the last one stays.
proof fn lemma_turns_join<S>(m: RouterModel<S>, index: int, at: Turn, end: Turn)
    requires
        m.registry.live(index),
    ensures
        m.turn_taken(index, at).turn_taken(index, end) == m.turn_taken(index, end),
{
    let one = m.turn_taken(index, at).turn_taken(index, end);
    let other = m.turn_taken(index, end);
    assert(one.registry.entries =~= other.registry.entries);
    assert(one =~= other);
}

proof fn lemma_steps_push(
    states: Seq<Turn>,
    now: Instant,
    max_packet_bytes: int,
    addr: crate::secrets::PeerAddress,
    next: Turn,
)
    requires
        Turn::steps(states, now, max_packet_bytes, addr),
        states.last().goes_on(now, max_packet_bytes, addr, next),
    ensures
        Turn::steps(states.push(next), now, max_packet_bytes, addr),
{
    let more = states.push(next);
    assert forall|i: int| 0 <= i < more.len() - 1 implies (#[trigger] more[i]).goes_on(
        now,
        max_packet_bytes,
        addr,
        more[i + 1],
    ) by {
        assert(more[i] == states[i]);
        if i < states.len() - 1 {
            assert(more[i + 1] == states[i + 1]);
        }
    }
}

/// Takes the first thing that a connection has to be told.
fn first_notice<S>(slot: &mut Slot<S>) -> (notice: Notice)
    requires
        old(slot).wf(),
    ensures
        final(slot).wf(),
        final(slot).reset_tokens == old(slot).reset_tokens,
        told(*old(slot), *final(slot), notice),
{
    if slot.established && !slot.notified_established {
        slot.notified_established = true;
        return Notice::Established;
    }
    if slot.inbox.len() > 0 {
        let datagram = slot.inbox.remove(0);
        assert(slot.inbox@ =~= old(slot).inbox@.subrange(1, old(slot).inbox@.len() as int));
        return Notice::Datagram(datagram);
    }
    if slot.events.len() == 0 {
        return Notice::Nothing;
    }
    match slot.conn.streams.poll_event(&mut slot.events) {
        Some(event) => {
            assert(slot.conn@ =~= (ConnModel {
                streams: old(slot).conn@.streams.told(event),
                ..old(slot).conn@
            }));
            if slot.notified_established {
                Notice::Stream(event)
            } else {
                Notice::EarlyStream(event)
            }
        },
        None => Notice::Nothing,
    }
}

/// A connection is told first that it is established, then of datagrams, then of what happened
/// to its streams, each in the order in which it came; what was told is not told again.
pub proof fn law_told_in_order<S>(slot: Slot<S>, after: Slot<S>, notice: Notice)
    requires
        told(slot, after, notice),
    ensures
        slot.established && !slot.notified_established ==> notice == Notice::Established
            && after.notified_established && after.inbox@ == slot.inbox@ && after.events@
            == slot.events@,
        !(slot.established && !slot.notified_established) && slot.inbox@.len() > 0 ==> notice
            == Notice::Datagram(slot.inbox@[0]) && after.inbox@ == slot.inbox@.skip(1)
            && after.events@ == slot.events@ && after.notified_established
            == slot.notified_established,
        !(slot.established && !slot.notified_established) && slot.inbox@.len() == 0
            && slot.events@.len() > 0 ==> after.events@ == slot.events@.skip(1) && (
        slot.notified_established ==> notice == Notice::Stream(slot.events@[0])) && (
        !slot.notified_established ==> notice == Notice::EarlyStream(slot.events@[0])),
        notice == Notice::Nothing ==> after == slot,
        after.peer_addr == slot.peer_addr,
        after.reset_tokens == slot.reset_tokens,
{
    assert(slot.inbox@.len() > 0 ==> slot.inbox@.skip(1) =~= slot.inbox@.subrange(
        1,
        slot.inbox@.len() as int,
    ));
    assert(slot.events@.len() > 0 ==> slot.events@.skip(1) =~= slot.events@.subrange(
        1,
        slot.events@.len() as int,
    ));
}

/// A connection that was looked at is gone where it is closed, and otherwise is to be told, to
/// send and to be looked at again.
pub proof fn law_looked_at<S>(m: RouterModel<S>, handle: Handle, now: Instant)
    requires
        m.sound(),
        m.registry.index_of(handle) is Some,
    ensures
        ({
            let index = m.registry.index_of(handle)->0;
            let after = m.reaped(handle, now);
            let closed = m.registry.at(index).conn@.egress.closed;
            &&& closed ==> after.registry.index_of(handle) is None
            &&& !closed ==> after.registry == m.registry && after.notify.contains(index)
                && after.flush.contains(index)
        }),
{
    let index = m.registry.index_of(handle)->0;
    crate::mux::turns::law_waits_once(m.notify, index);
    crate::mux::turns::law_waits_once(m.flush, index);
}

} // verus!
