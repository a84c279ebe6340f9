//! How many connections there may be, and how all of them end.
use vstd::prelude::*;

use crate::math::is_next_power_of_two;
use crate::mux::cid_table::CidTable;
use crate::mux::registry::lemma_live_bound;
use crate::mux::reset_index::{
    filled_cells, lemma_none_filled, ResetIndex, Token, BUCKETS_PER_CONNECTION,
};
use crate::mux::router::drive::{lemma_turns_sound, Step};
use crate::mux::router::steps::DIRECT_DRIVE_BUDGET;
use crate::mux::router::{Router, RouterModel, Slot};
use crate::mux::{Handle, MAX_CONNECTIONS};

verus! {

impl<S> RouterModel<S> {
    /// After the shutdown began.
    pub open spec fn shutdown_begun(self) -> RouterModel<S> {
        if self.shutting_down {
            self
        } else {
            RouterModel { shutting_down: true, cursor: 0, ..self }
        }
    }

    /// The next place in the shutdown.
    pub open spec fn cursor_moved(self) -> RouterModel<S> {
        RouterModel { cursor: self.cursor + 1, ..self }
    }

    /// After a step of the shutdown: connections go one after the other, then what waits
    /// to go out, then the buffers that can be used again.
    pub open spec fn shutdown_stepped(self) -> RouterModel<S> {
        if self.cursor < self.registry.entries.len() {
            if self.registry.live(self.cursor) {
                self.cursor_moved().removed(self.registry.handle(self.cursor))
            } else {
                self.cursor_moved()
            }
        } else if self.output.pending.len() > 0 {
            self.output_popped()
        } else {
            RouterModel { output: self.output.buffer_taken(), ..self }
        }
    }

    /// How many steps the shutdown still takes.
    pub open spec fn shutdown_left(self) -> int {
        self.registry.entries.len() - self.cursor + self.output.pending.len()
            + self.output.recycled
    }

    /// The connection that goes at the next step of the shutdown, if one does.
    pub open spec fn shutdown_closes(self) -> Option<(Handle, Slot<S>)> {
        if self.cursor < self.registry.entries.len() && self.registry.live(self.cursor) {
            Some((self.registry.handle(self.cursor), self.registry.at(self.cursor)))
        } else {
            None
        }
    }

    /// After so many steps of the shutdown, or fewer where there is nothing left.
    pub open spec fn shutdown_after(self, steps: nat) -> RouterModel<S>
        decreases steps,
    {
        if steps == 0 || self.shutdown_left() <= 0 {
            self
        } else {
            self.shutdown_stepped().shutdown_after((steps - 1) as nat)
        }
    }

    /// Whether the shutdown is over.
    pub open spec fn shutdown_complete(self) -> bool {
        &&& self.shutting_down
        &&& self.cursor == self.registry.entries.len()
        &&& self.output.pending.len() == 0
        &&& self.output.recycled == 0
        &&& filled_cells(self.resets.cells) == 0
    }

    /// The shutdown went past each place that it left behind.
    pub open spec fn swept(self) -> bool {
        forall|i: int| 0 <= i < self.cursor ==> !#[trigger] self.registry.live(i)
    }
}

/// The shutdown leaves no connection behind it.
pub proof fn law_shutdown_sweeps<S>(m: RouterModel<S>)
    requires
        m.sound(),
        m.swept(),
    ensures
        m.shutdown_stepped().swept(),
{
    let after = m.shutdown_stepped();
    assert forall|i: int| 0 <= i < after.cursor implies !#[trigger] after.registry.live(i) by {
        assert(!m.registry.live(i) || i == m.cursor);
    }
}

/// Each step brings the end of the shutdown nearer by one.
pub proof fn law_shutdown_ends<S>(m: RouterModel<S>)
    requires
        m.sound(),
        m.output.recycled >= 0,
        m.shutdown_left() > 0,
    ensures
        m.shutdown_stepped().shutdown_left() == m.shutdown_left() - 1,
{
}

/// When no step is left, the shutdown is over, and no connection is there.
pub proof fn law_shutdown_completes<S>(m: RouterModel<S>)
    requires
        m.sound(),
        m.swept(),
        m.shutting_down,
        m.output.recycled >= 0,
        m.shutdown_left() == 0,
    ensures
        m.shutdown_complete(),
        forall|i: int| !m.registry.live(i),
{
    assert forall|cell: int| 0 <= cell < m.resets.cells.len() implies (
    #[trigger] m.resets.cells[cell]) is None by {
        if m.resets.cells[cell] is Some {
            let token = m.resets.cells[cell]->0.token;
            assert(m.resets.is_at(cell, token));
            assert(m.resets.get(token) is Some);
            assert(m.registry.live((m.resets.get(token)->0).index as int));
        }
    }
    lemma_none_filled(m.resets.cells);
}

impl<S> Router<S> {
    /// Begins to end all connections.
    pub fn shutdown_begin(&mut self)
        requires
            old(self).wf(),
        ensures
            final(self).wf(),
            final(self)@ == old(self)@.shutdown_begun(),
    {
        let ghost before = self@;
        if self.shutting_down {
            return;
        }
        self.shutting_down = true;
        self.cursor = 0;
        proof {
            let after = before.shutdown_begun();
            assert(self@ =~= after);
            assert(after.queue_sound(after.notify));
            assert(after.queue_sound(after.flush));
            assert(after.queue_sound(after.reap));
            lemma_turns_sound(before, after);
        }
    }

    /// Makes a step of the shutdown, and tells what comes of it.
    pub fn shutdown_step(&mut self) -> (step: Step<S>)
        requires
            old(self).wf(),
        ensures
            final(self).wf(),
            if old(self)@.shutdown_left() <= 0 {
                step is Idle && final(self)@ == old(self)@
            } else {
                &&& final(self)@ == old(self)@.shutdown_stepped()
                &&& match old(self)@.shutdown_closes() {
                    Some((handle, slot)) => step == Step::Closed(handle, slot),
                    None => step is Done,
                }
            },
    {
        let ghost before = self@;
        proof {
            self.output.lemma_model();
        }
        if self.cursor < self.registry.len() {
            let index: usize = self.cursor;
            self.cursor = self.cursor + 1;
            proof {
                let after = before.cursor_moved();
                assert(self@ =~= after);
                assert(after.queue_sound(after.notify));
                assert(after.queue_sound(after.flush));
                assert(after.queue_sound(after.reap));
                lemma_turns_sound(before, after);
            }
            if self.registry.is_live(index) {
                let handle = self.registry.handle_for_index(index);
                let slot = self.remove_slot(handle);
                return Step::Closed(handle, slot.unwrap());
            }
            return Step::Done;
        }
        if self.pop_outgoing().is_some() {
            return Step::Done;
        }
        if self.output.drop_recycled() {
            proof {
                let after = before.shutdown_stepped();
                assert(self@ =~= after);
                assert(after.queue_sound(after.notify));
                assert(after.queue_sound(after.flush));
                assert(after.queue_sound(after.reap));
                lemma_turns_sound(before, after);
            }
            return Step::Done;
        }
        assert(self@ =~= before);
        Step::Idle
    }

    /// Whether the shutdown is over.
    pub fn shutdown_complete(&self) -> (complete: bool)
        requires
            self.wf(),
        ensures
            complete == self@.shutdown_complete(),
    {
        proof {
            self.output.lemma_model();
        }
        self.shutting_down && self.cursor == self.registry.len() && self.output.is_empty()
            && !self.output.has_recycled() && self.resets.len() == 0
    }

    /// Begins the shutdown and makes a number of steps of it, handing out the connections
    /// that go. The result tells whether the shutdown is over.
    pub fn shutdown_bounded(&mut self, closed: &mut Vec<(Handle, Slot<S>)>) -> (complete: bool)
        requires
            old(self).wf(),
        ensures
            final(self).wf(),
            final(self)@ == old(self)@.shutdown_begun().shutdown_after(
                DIRECT_DRIVE_BUDGET as nat,
            ),
            complete == final(self)@.shutdown_complete(),
            final(closed)@ == old(closed)@ + closed_by(
                old(self)@.shutdown_begun(),
                DIRECT_DRIVE_BUDGET as nat,
            ),
    {
        self.shutdown_begin();
        let ghost start = self@;
        let mut left: usize = DIRECT_DRIVE_BUDGET;
        let ghost all = closed@ + closed_by(start, DIRECT_DRIVE_BUDGET as nat);
        while left > 0
            invariant_except_break
                self.wf(),
                left <= DIRECT_DRIVE_BUDGET,
                start.shutdown_after(DIRECT_DRIVE_BUDGET as nat) == self@.shutdown_after(
                    left as nat,
                ),
                all == closed@ + closed_by(self@, left as nat),
            ensures
                self.wf(),
                start.shutdown_after(DIRECT_DRIVE_BUDGET as nat) == self@,
                all =~= closed@,
            decreases left,
        {
            let ghost m = self@;
            let ghost steps = left as nat;
            let ghost so_far = closed@;
            left = left - 1;
            match self.shutdown_step() {
                Step::Idle => {
                    assert(closed_by(m, steps) =~= Seq::empty());
                    break;
                },
                Step::Closed(handle, slot) => {
                    closed.push((handle, slot));
                    assert((steps - 1) as nat == left as nat);
                    assert(closed@ + closed_by(self@, left as nat) =~= so_far + closed_by(
                        m,
                        steps,
                    ));
                },
                _ => {
                    assert((steps - 1) as nat == left as nat);
                    assert(closed_by(m, steps) == closed_by(self@, left as nat));
                },
            }
        }
        self.shutdown_complete()
    }

    /// Sets how many connections there may be, while there are none. The result tells
    /// whether that could be done.
    pub fn set_max_connections(&mut self, max: usize) -> (done: bool)
        requires
            old(self).wf(),
        ensures
            final(self).wf(),
            done == (!old(self)@.shutting_down && old(self)@.registry.active() == 0 && 0 < max
                <= MAX_CONNECTIONS),
            if done {
                let after = final(self)@;
                let before = old(self)@;
                &&& after.registry == before.registry.resized(max as int)
                &&& forall|value: Seq<u8>| !after.cids.has(value)
                &&& forall|token: Token| !after.resets.has(token)
                &&& is_next_power_of_two(BUCKETS_PER_CONNECTION * max, after.resets.buckets())
                &&& after == (RouterModel {
                    registry: after.registry,
                    cids: after.cids,
                    resets: after.resets,
                    ..before
                })
            } else {
                final(self)@ == old(self)@
            },
    {
        let ghost before = self@;
        if self.shutting_down || self.registry.active() != 0 || max == 0 || max
            > MAX_CONNECTIONS {
            return false;
        }
        proof {
            lemma_live_bound(before.registry.entries);
            assert(forall|i: int| !before.registry.live(i));
            if before.notify.len() > 0 {
                assert(before.registry.live(before.notify[0]));
            }
            if before.flush.len() > 0 {
                assert(before.registry.live(before.flush[0]));
            }
            if before.reap.len() > 0 {
                assert(before.registry.live(before.reap[0]));
            }
        }
        self.registry.resize(max);
        let size: usize = self.registry.len();
        proof {
            self.registry.lemma_model();
        }
        self.notify.grow_to(size);
        self.flush.grow_to(size);
        self.reap.grow_to(size);
        self.deadlines.grow_to(size);
        self.cids = CidTable::new(size, max, self.seeds[0]);
        self.resets = ResetIndex::with_connection_capacity(max, self.seeds[1], self.seeds[2]);
        proof {
            let after = self@;
            lemma_live_bound(after.registry.entries);
            assert(forall|i: int| !after.registry.live(i));
            self.cids.lemma_model();
            self.resets.lemma_sound();
            assert forall|value: Seq<u8>| !after.cids.has(value) by {
                if after.cids.has(value) {
                    let place = after.cids.place(value);
                    assert(after.cids.is_at(place, value));
                }
            }
            assert forall|token: Token| !after.resets.has(token) by {
                if after.resets.has(token) {
                    let cell = after.resets.cell(token);
                    assert(after.resets.is_at(cell, token));
                }
            }
            assert forall|i: int| !#[trigger] after.deadlines.dom().contains(i) by {
                if after.deadlines.dom().contains(i) {
                    assert(before.registry.live(i));
                }
            }
        }
        true
    }
}

/// The connections that go in so many steps of the shutdown.
pub open spec fn closed_by<S>(m: RouterModel<S>, steps: nat) -> Seq<(Handle, Slot<S>)>
    decreases steps,
{
    if steps == 0 || m.shutdown_left() <= 0 {
        Seq::empty()
    } else {
        let rest = closed_by(m.shutdown_stepped(), (steps - 1) as nat);
        match m.shutdown_closes() {
            Some(closed) => seq![closed] + rest,
            None => rest,
        }
    }
}

} // verus!
