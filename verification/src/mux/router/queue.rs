//! What goes out, with the steps that bring it.
use vstd::prelude::*;

use crate::clock::Instant;
use crate::mux::output::{bytes_in, packets_in, Outgoing, StorageModel};
use crate::mux::router::drive::{lemma_turns_sound, Step};
use crate::mux::router::steps::DIRECT_DRIVE_BUDGET;
use crate::mux::router::{DrivePhase, Router, RouterModel};

verus! {

impl<S> RouterModel<S> {
    /// Whether steps were made, at most so many and up to one that is not done yet, and
    /// how many.
    pub open spec fn drove(
        self,
        now: Instant,
        budget: nat,
        after: RouterModel<S>,
        count: int,
        step: Step<S>,
    ) -> bool
        decreases budget,
    {
        if budget == 0 {
            after == self && count == 0 && step is Idle
        } else {
            exists|mid: RouterModel<S>, made: Step<S>|
                {
                    &&& #[trigger] self.driven(now, DrivePhase::COUNT as nat, mid, made)
                    &&& match made {
                        Step::Idle => after == mid && count == 0 && step is Idle,
                        Step::Done => mid.drove(now, (budget - 1) as nat, after, count - 1, step),
                        _ => after == mid && count == 1 && step == made,
                    }
                }
        }
    }

    /// What waits to go out, without the first.
    pub open spec fn output_popped(self) -> RouterModel<S> {
        RouterModel {
            output: StorageModel {
                pending: self.output.pending.subrange(1, self.output.pending.len() as int),
                ..self.output
            },
            ..self
        }
    }

    /// Whether the next thing to go out was found, where steps may be made until there is
    /// one, at most so many and up to one that is not done yet.
    pub open spec fn drew(
        self,
        now: Instant,
        work: nat,
        after: RouterModel<S>,
        left: int,
        drawn: Drawn<S>,
    ) -> bool
        decreases work,
    {
        if self.output.pending.len() > 0 {
            drawn == Drawn::<S>::Outgoing(self.output.pending[0]) && after == self.output_popped()
                && left == work
        } else if work == 0 {
            drawn is End && after == self && left == 0
        } else {
            exists|mid: RouterModel<S>, made: Step<S>|
                {
                    &&& #[trigger] self.driven(now, DrivePhase::COUNT as nat, mid, made)
                    &&& match made {
                        Step::Idle => after == mid && left == work && drawn is End,
                        Step::Done => mid.drew(now, (work - 1) as nat, after, left, drawn),
                        _ => after == mid && left == work - 1 && drawn == Drawn::Step(made),
                    }
                }
        }
    }
}

/// What comes next when all that can go out is taken.
pub enum Drawn<S> {
    End,
    Outgoing(Outgoing),
    /// A step that is not done yet.
    Step(Step<S>),
}

/// How much may still be taken, and how many steps may be made for it.
#[derive(Debug, Clone, Copy)]
pub struct Drain {
    pub work_remaining: usize,
    pub output_remaining: usize,
}

/// What goes out, for as long as the connections are borrowed.
pub struct Queue<'a, S> {
    pub router: &'a mut Router<S>,
}

impl<S> Router<S> {
    /// Whether something waits to go out.
    pub fn has_buffered_output(&self) -> (has: bool)
        ensures
            has == (self@.output.pending.len() > 0),
    {
        !self.output.is_empty()
    }

    /// Changes of what waits to go out keep all in order.
    proof fn keep_output(&self, m: RouterModel<S>)
        requires
            m.sound(),
            self@ == (RouterModel { output: self@.output, ..m }),
            self@.output.within(),
        ensures
            self@.sound(),
    {
        let after = self@;
        assert(after.queue_sound(after.notify));
        assert(after.queue_sound(after.flush));
        assert(after.queue_sound(after.reap));
        lemma_turns_sound(m, after);
    }

    /// Takes out what waits longest to go out.
    pub fn pop_outgoing(&mut self) -> (outgoing: Option<Outgoing>)
        requires
            old(self).wf(),
        ensures
            final(self).wf(),
            match outgoing {
                Some(outgoing) => old(self)@.output.pending.len() > 0 && outgoing == old(self)@.output.pending[0] && outgoing.wf() && final(self)@ == old(self)@.output_popped(),
                None => old(self)@.output.pending.len() == 0 && final(self)@ == old(self)@,
            },
    {
        let ghost before = self@;
        let outgoing = self.output.pop();
        proof {
            self.output.lemma_model();
            if outgoing is Some {
                crate::mux::output::lemma_count_nonneg(outgoing->0);
                assert(self@ =~= before.output_popped());
                self.keep_output(before);
            } else {
                assert(self@ =~= before);
            }
        }
        outgoing
    }

    /// Puts something back that was taken out, before all others. Where there is no
    /// room for it, it is given back.
    pub fn push_outgoing_front(&mut self, outgoing: Outgoing) -> (result: Result<(), Outgoing>)
        requires
            old(self).wf(),
            outgoing.wf(),
            packets_in(old(self)@.output.pending) + outgoing.count()
                <= old(self)@.output.capacity,
            bytes_in(old(self)@.output.pending) + outgoing.content().len()
                <= old(self)@.output.bytes_capacity,
        ensures
            final(self).wf(),
            match result {
                Ok(_) => old(self)@.output.pending.len() != old(self)@.output.capacity && final(self)@ == (RouterModel {
                    output: StorageModel {
                        pending: seq![outgoing] + old(self)@.output.pending,
                        ..old(self)@.output
                    },
                    ..old(self)@
                }),
                Err(back) => old(self)@.output.pending.len() == old(self)@.output.capacity && final(self)@ == old(self)@ && back == outgoing,
            },
    {
        let ghost before = self@;
        proof {
            self.output.lemma_model();
            crate::mux::output::lemma_counts_front(outgoing, before.output.pending);
        }
        let result = self.output.push_front(outgoing);
        proof {
            self.keep_output(before);
        }
        result
    }
}

impl<'a, S> Queue<'a, S> {
    /// The connections as they are now.
    pub open spec fn state(&self) -> RouterModel<S> {
        self.router@
    }

    /// What goes out of some connections.
    pub fn new(router: &'a mut Router<S>) -> (queue: Queue<'a, S>)
        ensures
            *queue.router == *old(router),
            *final(queue.router) == *final(router),
    {
        Queue { router }
    }

    /// How many packets can wait.
    pub fn capacity(&self) -> (capacity: usize)
        ensures
            capacity == self.state().output.capacity,
    {
        self.router.output.capacity()
    }

    /// How many packets wait.
    pub fn len(&self) -> (len: usize)
        requires
            self.router.wf(),
        ensures
            len == packets_in(self.state().output.pending),
    {
        self.router.output.len()
    }

    pub fn is_empty(&self) -> (empty: bool)
        ensures
            empty == (self.state().output.pending.len() == 0),
    {
        self.router.output.is_empty()
    }

    /// How many bytes wait.
    pub fn bytes(&self) -> (bytes: usize)
        requires
            self.router.wf(),
        ensures
            bytes == bytes_in(self.state().output.pending),
    {
        self.router.output.bytes()
    }

    /// How many bytes can wait.
    pub fn bytes_capacity(&self) -> (capacity: usize)
        ensures
            capacity == self.state().output.bytes_capacity,
    {
        self.router.output.bytes_capacity()
    }

    /// Gives back the buffer of what went out.
    pub fn recycle(&mut self, outgoing: Outgoing)
        requires
            old(self).router.wf(),
        ensures
            final(self).router.wf(),
            *final(final(self).router) == *final(old(self).router),
            final(self).router@ == (RouterModel {
                output: old(self).router@.output.recycled(),
                ..old(self).router@
            }),
    {
        let ghost before = self.router@;
        self.router.output.recycle(outgoing);
        proof {
            assert(self.router@ =~= (RouterModel { output: before.output.recycled(), ..before }));
            self.router.keep_output(before);
        }
    }

    /// Makes steps, up to a number of them and up to one that is not done yet, and tells
    /// how many.
    pub fn drive_bounded(&mut self, now: Instant) -> (result: (usize, Step<S>))
        requires
            old(self).router.wf(),
        ensures
            final(self).router.wf(),
            *final(final(self).router) == *final(old(self).router),
            old(self).router@.drove(
                now,
                if old(self).router@.shutting_down {
                    0
                } else {
                    DIRECT_DRIVE_BUDGET as nat
                },
                final(self).router@,
                result.0 as int,
                result.1,
            ),
    {
        let ghost before = self.router@;
        if self.router.shutting_down {
            return (0, Step::Idle);
        }
        let mut driven: usize = 0;
        while driven < DIRECT_DRIVE_BUDGET
            invariant
                self.router.wf(),
                *final(self.router) == *final(old(self).router),
                driven <= DIRECT_DRIVE_BUDGET,
                before == old(self).router@,
                !before.shutting_down,
                forall|after: RouterModel<S>, count: int, step: Step<S>| #[trigger]
                    self.router@.drove(
                        now,
                        (DIRECT_DRIVE_BUDGET - driven) as nat,
                        after,
                        count,
                        step,
                    ) ==> before.drove(
                        now,
                        DIRECT_DRIVE_BUDGET as nat,
                        after,
                        count + driven,
                        step,
                    ),
            decreases DIRECT_DRIVE_BUDGET - driven,
        {
            let ghost m = self.router@;
            let ghost left = (DIRECT_DRIVE_BUDGET - driven) as nat;
            let step = self.router.drive_one(now);
            assert(m.driven(now, DrivePhase::COUNT as nat, self.router@, step));
            match step {
                Step::Idle => {
                    assert(m.drove(now, left, self.router@, 0, Step::Idle));
                    return (driven, Step::Idle);
                },
                Step::Done => {
                    assert forall|after: RouterModel<S>, count: int, s: Step<S>| #[trigger]
                        self.router@.drove(
                            now,
                            (left - 1) as nat,
                            after,
                            count,
                            s,
                        ) implies before.drove(
                        now,
                        DIRECT_DRIVE_BUDGET as nat,
                        after,
                        count + driven + 1,
                        s,
                    ) by {
                        assert(m.drove(now, left, after, count + 1, s));
                    }
                    driven = driven + 1;
                },
                step => {
                    assert(m.drove(now, left, self.router@, 1, step));
                    return (driven + 1, step);
                },
            }
        }
        assert(self.router@.drove(
            now,
            (DIRECT_DRIVE_BUDGET - driven) as nat,
            self.router@,
            0,
            Step::Idle,
        ));
        (driven, Step::Idle)
    }

    /// How much may be taken at a time, and how many steps may be made for it: nothing
    /// and none during a shutdown.
    pub fn drain(&self) -> (drain: Drain)
        ensures
            drain.work_remaining == drain.output_remaining,
            drain.work_remaining == if self.state().shutting_down {
                0
            } else {
                DIRECT_DRIVE_BUDGET as int
            },
    {
        let budget: usize = if self.router.shutting_down {
            0
        } else {
            DIRECT_DRIVE_BUDGET
        };
        Drain { work_remaining: budget, output_remaining: budget }
    }

    /// The next thing that goes out, with the steps that bring it.
    pub fn draw(&mut self, drain: &mut Drain, now: Instant) -> (drawn: Drawn<S>)
        requires
            old(self).router.wf(),
        ensures
            final(self).router.wf(),
            *final(final(self).router) == *final(old(self).router),
            if old(drain).output_remaining == 0 {
                drawn is End && final(self).router@ == old(self).router@ && *final(drain) == *old(drain)
            } else {
                &&& old(self).router@.drew(
                    now,
                    old(drain).work_remaining as nat,
                    final(self).router@,
                    final(drain).work_remaining as int,
                    drawn,
                )
                &&& final(drain).output_remaining == if drawn is Outgoing {
                    old(drain).output_remaining - 1
                } else {
                    old(drain).output_remaining as int
                }
            },
    {
        let ghost before = self.router@;
        if drain.output_remaining == 0 {
            return Drawn::End;
        }
        let ghost work = drain.work_remaining as nat;
        loop
            invariant
                self.router.wf(),
                *final(self.router) == *final(old(self).router),
                before == old(self).router@,
                work == old(drain).work_remaining,
                drain.work_remaining <= work,
                drain.output_remaining == old(drain).output_remaining,
                drain.output_remaining > 0,
                forall|after: RouterModel<S>, left: int, drawn: Drawn<S>| #[trigger]
                    self.router@.drew(
                        now,
                        drain.work_remaining as nat,
                        after,
                        left,
                        drawn,
                    ) ==> before.drew(now, work, after, left, drawn),
            decreases drain.work_remaining,
        {
            let ghost m = self.router@;
            let ghost left = drain.work_remaining as nat;
            match self.router.pop_outgoing() {
                Some(outgoing) => {
                    drain.output_remaining = drain.output_remaining - 1;
                    assert(m.drew(
                        now,
                        left,
                        self.router@,
                        left as int,
                        Drawn::<S>::Outgoing(outgoing),
                    ));
                    return Drawn::Outgoing(outgoing);
                },
                None => {},
            }
            if drain.work_remaining == 0 {
                assert(m.drew(now, left, self.router@, 0, Drawn::<S>::End));
                return Drawn::End;
            }
            let step = self.router.drive_one(now);
            assert(m.driven(now, DrivePhase::COUNT as nat, self.router@, step));
            match step {
                Step::Idle => {
                    assert(m.drew(now, left, self.router@, left as int, Drawn::<S>::End));
                    return Drawn::End;
                },
                Step::Done => {
                    assert forall|after: RouterModel<S>, rest: int, drawn: Drawn<S>| #[trigger]
                        self.router@.drew(
                            now,
                            (left - 1) as nat,
                            after,
                            rest,
                            drawn,
                        ) implies before.drew(now, work, after, rest, drawn) by {
                        assert(m.drew(now, left, after, rest, drawn));
                    }
                    drain.work_remaining = drain.work_remaining - 1;
                },
                step => {
                    drain.work_remaining = drain.work_remaining - 1;
                    assert(m.drew(now, left, self.router@, left - 1, Drawn::Step(step)));
                    return Drawn::Step(step);
                },
            }
        }
    }
}

} // verus!
