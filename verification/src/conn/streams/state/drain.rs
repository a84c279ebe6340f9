//! Control frames that the receiving side owes the peer.
use vstd::prelude::*;

use crate::conn::control::{Control, Pending, PendingModel};
use crate::conn::recv::ReceiverModel;
use crate::conn::streams::limits::Limits;
use crate::conn::streams::state::{State, StateModel};

verus! {

/// How far control frames were queued.
#[verifier::ext_equal]
pub struct Draining {
    pub state: StateModel,
    pub control: PendingModel,
    /// How many more may be queued.
    pub remaining: int,
    /// Whether nothing stood in the way.
    pub open: bool,
}

impl Draining {
    /// Whether one more record can be queued.
    pub open spec fn takes(self) -> bool {
        self.remaining > 0 && self.control.has_room()
    }

    /// After a record was queued.
    pub open spec fn queued(self, state: StateModel, record: Control) -> Draining {
        Draining {
            state,
            control: self.control.queued(record),
            remaining: self.remaining - 1,
            open: self.open,
        }
    }

    pub open spec fn stopped(self) -> Draining {
        Draining { open: false, ..self }
    }

    /// After the peer was told how many bytes we take, if that is owed.
    pub open spec fn data(self) -> Draining {
        if !self.open || !self.state.limits.data_dirty {
            self
        } else if !self.takes() {
            self.stopped()
        } else {
            self.queued(
                StateModel {
                    limits: Limits { data_dirty: false, ..self.state.limits },
                    ..self.state
                },
                Control::MaxData { limit: self.state.limits.local_max_data },
            )
        }
    }

    /// After the peer was told how many streams we take, if that is owed.
    pub open spec fn streams(self, is_uni: bool) -> Draining {
        if !self.open || !self.state.limits.streams_dirty(is_uni) {
            self
        } else if !self.takes() {
            self.stopped()
        } else {
            self.queued(
                StateModel {
                    limits: self.state.limits.with_streams_dirty(is_uni, false),
                    ..self.state
                },
                Control::MaxStreams { is_uni, max: self.state.limits.peer.max.of(is_uni) },
            )
        }
    }

    /// After the peer was told how many bytes we take on a stream, if that is
    /// owed.
    pub open spec fn credit(self, stream_id: u64) -> Draining {
        let receiver = self.state.receivers[stream_id];
        if !receiver.credit_dirty {
            self
        } else if !self.takes() {
            self.stopped()
        } else {
            self.queued(
                StateModel {
                    receivers: self.state.receivers.insert(
                        stream_id,
                        ReceiverModel { credit_dirty: false, ..receiver },
                    ),
                    ..self.state
                },
                Control::MaxStreamData { stream_id, limit: receiver.limit },
            )
        }
    }

    /// After the peer was asked to stop sending on a stream, if that is owed.
    pub open spec fn stop(self, stream_id: u64) -> Draining {
        let receiver = self.state.receivers[stream_id];
        if !self.open || receiver.deferred_stop is None {
            self
        } else if !self.takes() {
            self.stopped()
        } else {
            self.queued(
                StateModel {
                    receivers: self.state.receivers.insert(
                        stream_id,
                        ReceiverModel { deferred_stop: None, ..receiver },
                    ),
                    ..self.state
                },
                Control::StopSending { stream_id, error_code: receiver.deferred_stop->0 },
            )
        }
    }

    /// After what is owed on a stream was queued. The stream keeps its turn as
    /// long as something is owed.
    pub open spec fn turn(self) -> Draining {
        let stream_id = self.state.control_schedule[0];
        let after = self.credit(stream_id).stop(stream_id);
        if !after.open || after.state.receivers[stream_id].has_deferred_control() {
            after.stopped()
        } else {
            Draining {
                state: StateModel {
                    control_schedule: after.state.control_schedule.remove(0),
                    ..after.state
                },
                ..after
            }
        }
    }

    /// After what is owed on the streams was queued, one stream after the other.
    pub open spec fn turns(self) -> Draining
        decreases
            if self.open {
                1 + self.state.control_schedule.len()
            } else {
                0
            },
    {
        if !self.open || self.remaining <= 0 || self.state.control_schedule.len() == 0 {
            self
        } else {
            self.turn().turns()
        }
    }

    /// After what is owed was queued: the limits of the connection first, then
    /// those of the streams.
    pub open spec fn drained(self) -> Draining {
        self.data().streams(false).streams(true).turns()
    }
}

impl State {
    /// Whether control frames are owed.
    pub fn receive_controls_pending(&self) -> (pending: bool)
        ensures
            pending == (self@.limits.any_dirty() || self@.control_schedule.len() > 0),
    {
        self.limits.data_dirty || self.limits.bidi_dirty || self.limits.uni_dirty
            || self.control_schedule.len() > 0
    }

    /// Whether control frames are owed that can be queued.
    pub fn receive_controls_sendable(&self, control: &Pending) -> (sendable: bool)
        ensures
            sendable == ((self@.limits.any_dirty() || self@.control_schedule.len() > 0)
                && control@.has_room()),
    {
        self.receive_controls_pending() && control.has_room()
    }

    /// Queues what is owed on the stream whose turn it is. Gives how many more
    /// records may be queued, and whether nothing stood in the way.
    fn drain_turn(&mut self, control: &mut Pending, remaining: usize) -> (result: (usize, bool))
        requires
            old(self).wf(),
            old(self)@.control_schedule.len() > 0,
            remaining > 0,
        ensures
            final(self).wf(),
            final(self).names() == old(self).names(),
            final(self).can_send() == old(self).can_send(),
            final(self).can_receive() == old(self).can_receive(),
            final(self).range_room() == old(self).range_room(),
            (Draining {
                state: final(self)@,
                control: final(control)@,
                remaining: result.0 as int,
                open: result.1,
            }) == (Draining {
                state: old(self)@,
                control: old(control)@,
                remaining: remaining as int,
                open: true,
            }).turn(),
            result.1 ==> final(self)@.control_schedule.len() < old(self)@.control_schedule.len(),
    {
        let ghost m = self@;
        let ghost start = Draining {
            state: m,
            control: control@,
            remaining: remaining as int,
            open: true,
        };
        let stream_id: u64 = self.control_schedule[0];
        assert(m.control_schedule.contains(stream_id));
        let mut left: usize = remaining;
        let (dirty, limit) = match self.receivers.get(stream_id) {
            Some(receiver) => (receiver.credit_dirty(), receiver.limit()),
            None => (false, 0),
        };
        if dirty {
            if !control.has_room() {
                return (left, false);
            }
            control.queue(Control::MaxStreamData { stream_id, limit });
            self.receivers.set_credit_dirty(stream_id, false);
            left = left - 1;
        }
        let ghost middle = start.credit(stream_id);
        assert(self@.receivers =~= middle.state.receivers);
        assert(self@ == middle.state);
        assert(self@.receivers.dom() =~= m.receivers.dom());
        let deferred: Option<u64> = match self.receivers.get(stream_id) {
            Some(receiver) => receiver.deferred_stop(),
            None => None,
        };
        match deferred {
            Some(error_code) => {
                if left == 0 || !control.has_room() {
                    return (left, false);
                }
                control.queue(Control::StopSending { stream_id, error_code });
                self.receivers.set_deferred_stop(stream_id, None);
                left = left - 1;
            },
            None => {},
        }
        assert(self@.receivers =~= middle.stop(stream_id).state.receivers);
        assert(self@.receivers.dom() =~= m.receivers.dom());
        let owed = match self.receivers.get(stream_id) {
            Some(receiver) => receiver.has_deferred_control(),
            None => false,
        };
        if owed {
            return (left, false);
        }
        let ghost schedule = self.control_schedule@;
        self.control_schedule.remove(0);
        proof {
            assert forall|id: u64| #[trigger] self@.control_schedule.contains(id) implies m
                .receivers.dom().contains(id) by {
                let at = self@.control_schedule.index_of(id);
                assert(schedule[at + 1] == id);
                assert(schedule.contains(id));
                assert(schedule == m.control_schedule);
            }
            assert(self@.control_schedule.no_duplicates());
        }
        (left, true)
    }

    /// Queues the control frames that are owed, as far as there is room, and no
    /// more than so many.
    pub fn reconcile_receive_controls(&mut self, control: &mut Pending, work: usize)
        requires
            old(self).wf(),
        ensures
            final(self).wf(),
            final(self).names() == old(self).names(),
            final(self).can_send() == old(self).can_send(),
            final(self).can_receive() == old(self).can_receive(),
            final(self).range_room() == old(self).range_room(),
            ({
                let after = Draining {
                    state: old(self)@,
                    control: old(control)@,
                    remaining: work as int,
                    open: true,
                }.drained();
                final(self)@ == after.state && final(control)@ == after.control
            }),
    {
        let ghost start = Draining {
            state: self@,
            control: control@,
            remaining: work as int,
            open: true,
        };
        let mut remaining: usize = work;
        if self.limits.data_dirty {
            if remaining == 0 || !control.has_room() {
                return;
            }
            control.queue(Control::MaxData { limit: self.limits.local_max_data });
            self.limits.data_dirty = false;
            remaining = remaining - 1;
        }
        assert(self@ == start.data().state);
        if self.limits.bidi_dirty {
            if remaining == 0 || !control.has_room() {
                return;
            }
            control.queue(Control::MaxStreams { is_uni: false, max: self.limits.peer.max.bidi });
            self.limits.bidi_dirty = false;
            remaining = remaining - 1;
        }
        assert(self@ == start.data().streams(false).state);
        if self.limits.uni_dirty {
            if remaining == 0 || !control.has_room() {
                return;
            }
            control.queue(Control::MaxStreams { is_uni: true, max: self.limits.peer.max.uni });
            self.limits.uni_dirty = false;
            remaining = remaining - 1;
        }
        let ghost middle = start.data().streams(false).streams(true);
        let mut open = true;
        assert((Draining {
            state: self@,
            control: control@,
            remaining: remaining as int,
            open,
        }) == middle);
        while open && remaining > 0 && self.control_schedule.len() > 0
            invariant
                self.wf(),
                self.names() == old(self).names(),
                self.can_send() == old(self).can_send(),
                self.can_receive() == old(self).can_receive(),
                self.range_room() == old(self).range_room(),
                (Draining {
                    state: self@,
                    control: control@,
                    remaining: remaining as int,
                    open,
                }).turns() == middle.turns(),
            decreases
                if open {
                    1 + self@.control_schedule.len()
                } else {
                    0
                },
        {
            let (left, more) = self.drain_turn(control, remaining);
            remaining = left;
            open = more;
        }
    }
}

} // verus!
