//! The streams of a connection and the rules by which they change.
pub mod drain;
pub mod emit;
pub mod laws;
pub mod plan;
pub mod receive;
pub mod transmit;

use std::collections::HashSet;

use vstd::prelude::*;

use crate::conn::control::{Control, Pending, PendingModel, Subject};
use crate::conn::recv::ReceiverModel;
use crate::conn::send::SenderModel;
use crate::conn::stream_journal::journal::Journal;
use crate::conn::stream_journal::model::{JournalModel, SendHandle};
use crate::conn::streams::limits::{
    bounded_sum, check_stream, is_uni, ours, reset_verdict, stream_verdict, uni, we_initiated,
    Access, Error, InitialCredit, Limits, LocalInitiated, Pair, PeerInitiated,
};
use crate::conn::streams::receivers::Receivers;
use crate::conn::streams::senders::Senders;

verus! {

broadcast use vstd::std_specs::hash::group_hash_axioms;

/// What an application is told.
#[derive(Debug, Clone, Copy, PartialEq, Eq, Structural)]
pub enum Event {
    Readable { stream_id: u64 },
    Reset { stream_id: u64, error_code: u64 },
    Stopped { stream_id: u64, error_code: u64 },
}

/// The streams of a connection.
pub struct State {
    receivers: Receivers,
    senders: Senders,
    journal: Journal,
    send_schedule: Vec<u64>,
    control_schedule: Vec<u64>,
    opened: HashSet<u64>,
    recv_retired: HashSet<u64>,
    send_retired: HashSet<u64>,
    limits: Limits,
    peer_data_limit: u64,
    peer_total_sent: u64,
}

/// The state of a connection's streams.
#[verifier::ext_equal]
pub struct StateModel {
    pub receivers: Map<u64, ReceiverModel>,
    pub senders: Map<u64, SenderModel>,
    pub journal: JournalModel,
    /// The streams with something to send, the next one first.
    pub send_schedule: Seq<u64>,
    /// The streams with control frames to queue, the next one first.
    pub control_schedule: Seq<u64>,
    /// The streams that the peer opened.
    pub opened: Set<u64>,
    /// The streams whose receiving side came to an end.
    pub recv_retired: Set<u64>,
    /// The streams of the peer whose sending side came to an end.
    pub send_retired: Set<u64>,
    pub limits: Limits,
    /// How many bytes the peer takes on all streams together.
    pub peer_data_limit: u64,
    pub peer_total_sent: u64,
}

/// A schedule with a stream, at the end if it was not there.
pub open spec fn with_turn(schedule: Seq<u64>, stream_id: u64) -> Seq<u64> {
    if schedule.contains(stream_id) {
        schedule
    } else {
        schedule.push(stream_id)
    }
}

/// A schedule without a stream.
pub open spec fn without_turn(schedule: Seq<u64>, stream_id: u64) -> Seq<u64> {
    if schedule.contains(stream_id) {
        schedule.remove(schedule.index_of(stream_id))
    } else {
        schedule
    }
}

/// Events without those that tell of something to read on a stream.
pub open spec fn without_readable(events: Seq<Event>, stream_id: u64) -> Seq<Event>
    decreases events.len(),
{
    if events.len() == 0 {
        events
    } else {
        let rest = without_readable(events.drop_last(), stream_id);
        if events.last() == (Event::Readable { stream_id }) {
            rest
        } else {
            rest.push(events.last())
        }
    }
}

pub(crate) fn activate(schedule: &mut Vec<u64>, stream_id: u64)
    ensures
        final(schedule)@ == with_turn(old(schedule)@, stream_id),
{
    let mut i: usize = 0;
    while i < schedule.len()
        invariant
            i <= schedule@.len(),
            schedule@ == old(schedule)@,
            forall|j: int| 0 <= j < i ==> schedule@[j] != stream_id,
        decreases schedule@.len() - i,
    {
        if schedule[i] == stream_id {
            return;
        }
        i = i + 1;
    }
    schedule.push(stream_id);
}

pub(crate) fn deactivate(schedule: &mut Vec<u64>, stream_id: u64)
    requires
        old(schedule)@.no_duplicates(),
    ensures
        final(schedule)@ == without_turn(old(schedule)@, stream_id),
{
    let mut i: usize = 0;
    while i < schedule.len()
        invariant
            i <= schedule@.len(),
            schedule@ == old(schedule)@,
            schedule@.no_duplicates(),
            forall|j: int| 0 <= j < i ==> schedule@[j] != stream_id,
        decreases schedule@.len() - i,
    {
        if schedule[i] == stream_id {
            assert(schedule@.index_of(stream_id) == i);
            schedule.remove(i);
            return;
        }
        i = i + 1;
    }
}

/// A turn more leaves each stream with one.
pub proof fn lemma_with_turn(schedule: Seq<u64>, stream_id: u64)
    requires
        schedule.no_duplicates(),
    ensures
        with_turn(schedule, stream_id).no_duplicates(),
        forall|id: u64| #[trigger]
            with_turn(schedule, stream_id).contains(id) == (schedule.contains(id) || id
                == stream_id),
{
    let more = with_turn(schedule, stream_id);
    assert forall|id: u64| #[trigger] more.contains(id) == (schedule.contains(id) || id
        == stream_id) by {
        if schedule.contains(id) {
            assert(more[schedule.index_of(id)] == id);
        }
        if id == stream_id && !schedule.contains(stream_id) {
            assert(more[schedule.len() as int] == id);
        }
    }
}

/// A turn less leaves the others.
pub proof fn lemma_without_turn(schedule: Seq<u64>, stream_id: u64)
    requires
        schedule.no_duplicates(),
    ensures
        without_turn(schedule, stream_id).no_duplicates(),
        forall|id: u64| #[trigger]
            without_turn(schedule, stream_id).contains(id) == (schedule.contains(id) && id
                != stream_id),
{
    let rest = without_turn(schedule, stream_id);
    if schedule.contains(stream_id) {
        let at = schedule.index_of(stream_id);
        assert forall|id: u64| #[trigger] rest.contains(id) == (schedule.contains(id) && id
            != stream_id) by {
            if rest.contains(id) {
                let p = rest.index_of(id);
                assert(rest[p] == if p < at {
                    schedule[p]
                } else {
                    schedule[p + 1]
                });
            }
            if schedule.contains(id) && id != stream_id {
                let p = schedule.index_of(id);
                assert(rest[if p < at {
                    p
                } else {
                    p - 1
                }] == id);
            }
        }
    }
}

/// Where the first event is that tells of something to read on a stream, or how
/// many events there are.
pub open spec fn readable_at(events: Seq<Event>, stream_id: u64) -> int
    decreases events.len(),
{
    if events.len() == 0 || events[0] == (Event::Readable { stream_id }) {
        0
    } else {
        1 + readable_at(events.subrange(1, events.len() as int), stream_id)
    }
}

/// Events with one that tells of a reset, in place of one that tells of something
/// to read.
pub open spec fn with_reset(events: Seq<Event>, stream_id: u64, error_code: u64) -> Seq<Event> {
    let at = readable_at(events, stream_id);
    if at < events.len() {
        events.update(at, Event::Reset { stream_id, error_code })
    } else {
        events.push(Event::Reset { stream_id, error_code })
    }
}

proof fn lemma_readable_at(events: Seq<Event>, stream_id: u64, at: int)
    requires
        0 <= at <= events.len(),
        forall|i: int| 0 <= i < at ==> #[trigger] events[i] != (Event::Readable { stream_id }),
        at < events.len() ==> events[at] == (Event::Readable { stream_id }),
    ensures
        readable_at(events, stream_id) == at,
    decreases events.len(),
{
    if at > 0 {
        let rest = events.subrange(1, events.len() as int);
        assert(events[0] != (Event::Readable { stream_id }));
        assert forall|i: int| 0 <= i < at - 1 implies #[trigger] rest[i] != (Event::Readable {
            stream_id,
        }) by {
            assert(rest[i] == events[i + 1]);
        }
        lemma_readable_at(rest, stream_id, at - 1);
    }
}

/// Tells of a reset.
pub(crate) fn push_reset(events: &mut Vec<Event>, stream_id: u64, error_code: u64)
    ensures
        final(events)@ == with_reset(old(events)@, stream_id, error_code),
{
    let sought = Event::Readable { stream_id };
    let mut at: usize = 0;
    while at < events.len() && events[at] != sought
        invariant
            sought == (Event::Readable { stream_id }),
            at <= events@.len(),
            events@ == old(events)@,
            forall|i: int|
                0 <= i < at ==> #[trigger] events@[i] != (Event::Readable { stream_id }),
        decreases events@.len() - at,
    {
        at = at + 1;
    }
    proof {
        lemma_readable_at(events@, stream_id, at as int);
    }
    if at < events.len() {
        events.set(at, Event::Reset { stream_id, error_code });
    } else {
        events.push(Event::Reset { stream_id, error_code });
    }
}

/// Drops the events that tell of something to read on a stream.
pub(crate) fn cancel_readable(events: &mut Vec<Event>, stream_id: u64)
    ensures
        final(events)@ == without_readable(old(events)@, stream_id),
{
    let mut kept: Vec<Event> = Vec::new();
    let mut i: usize = 0;
    while i < events.len()
        invariant
            i <= events@.len(),
            events@ == old(events)@,
            kept@ == without_readable(events@.subrange(0, i as int), stream_id),
        decreases events@.len() - i,
    {
        let event = events[i];
        proof {
            let more = events@.subrange(0, i + 1);
            assert(more.drop_last() =~= events@.subrange(0, i as int));
            assert(more.last() == event);
        }
        if event != (Event::Readable { stream_id }) {
            kept.push(event);
        }
        i = i + 1;
    }
    assert(events@.subrange(0, i as int) =~= events@);
    *events = kept;
}

impl StateModel {
    /// Whether the sending side of a stream came to an end.
    pub open spec fn send_closed(self, stream_id: u64, is_client: bool) -> bool {
        if ours(stream_id, is_client) {
            stream_id < self.limits.local.next.of(uni(stream_id)) && !self.senders.dom().contains(
                stream_id,
            )
        } else {
            !uni(stream_id) && self.send_retired.contains(stream_id)
        }
    }

    /// After the peer allowed so many streams of a kind.
    pub open spec fn streams_allowed(self, one_way: bool, maximum: u64) -> StateModel {
        let before = self.limits.local.peer_max.of(one_way);
        StateModel {
            limits: Limits {
                local: LocalInitiated {
                    peer_max: self.limits.local.peer_max.with(
                        one_way,
                        if maximum > before {
                            maximum
                        } else {
                            before
                        },
                    ),
                    ..self.limits.local
                },
                ..self.limits
            },
            ..self
        }
    }

    /// After the peer allowed so many bytes on all streams together.
    pub open spec fn data_allowed(self, maximum: u64, control: PendingModel) -> (
        StateModel,
        PendingModel,
    ) {
        if maximum > self.peer_data_limit {
            (
                StateModel { peer_data_limit: maximum, ..self },
                control.without(Subject::DataBlocked),
            )
        } else {
            (self, control)
        }
    }

    /// After a frame of the peer used a stream in a way, which opens one of its own, or
    /// nothing where it must not.
    pub open spec fn used_by_peer(self, stream_id: u64, access: Access, is_client: bool) -> Option<
        StateModel,
    > {
        if ours(stream_id, is_client) {
            if self.limits.accessible(
                self.opened.contains(stream_id),
                stream_id,
                access,
                is_client,
            ) {
                Some(self)
            } else {
                None
            }
        } else if !(uni(stream_id) && access == Access::Send) && self.limits.peer_may_open(
            stream_id,
        ) {
            Some(StateModel { opened: self.opened.insert(stream_id), ..self })
        } else {
            None
        }
    }

    /// The receiving side of a stream, which is there or would be put there.
    pub open spec fn receiver(self, stream_id: u64, is_client: bool) -> ReceiverModel {
        if self.receivers.dom().contains(stream_id) {
            self.receivers[stream_id]
        } else {
            ReceiverModel::initial(self.limits.receive_credit(stream_id, is_client))
        }
    }

    /// After the application looked at an event.
    pub open spec fn told(self, event: Event) -> StateModel {
        match event {
            Event::Readable { stream_id } => if self.receivers.dom().contains(stream_id) {
                StateModel {
                    receivers: self.receivers.insert(
                        stream_id,
                        ReceiverModel { event_pending: false, ..self.receivers[stream_id] },
                    ),
                    ..self
                }
            } else {
                self
            },
            Event::Stopped { stream_id, .. } => if self.senders.dom().contains(stream_id) {
                StateModel {
                    senders: self.senders.insert(
                        stream_id,
                        SenderModel { stop_event_pending: false, ..self.senders[stream_id] },
                    ),
                    ..self
                }
            } else {
                self
            },
            Event::Reset { .. } => self,
        }
    }

    /// What bytes up to an offset mean to the limits.
    pub open spec fn verdict(self, stream_id: u64, is_client: bool, end: int, fin: bool) -> Result<
        u64,
        Error,
    > {
        let receiver = self.receiver(stream_id, is_client);
        if end > u64::MAX {
            Err(Error::StreamBufferExceeded)
        } else {
            stream_verdict(
                receiver.limit,
                receiver.highest,
                receiver.final_size,
                self.limits.total,
                self.limits.local_max_data,
                end,
                fin,
            )
        }
    }

    /// What a final size means to the limits.
    pub open spec fn reset_verdict(
        self,
        stream_id: u64,
        is_client: bool,
        final_size: u64,
    ) -> Result<u64, Error> {
        let receiver = self.receiver(stream_id, is_client);
        reset_verdict(
            receiver.limit,
            receiver.highest,
            receiver.final_size,
            self.limits.total,
            self.limits.local_max_data,
            final_size,
        )
    }

    /// The state with another receiving side of a stream and another total.
    pub open spec fn with_receiver(
        self,
        stream_id: u64,
        receiver: ReceiverModel,
        total: u64,
    ) -> StateModel {
        StateModel {
            receivers: self.receivers.insert(stream_id, receiver),
            limits: Limits { total, ..self.limits },
            ..self
        }
    }

    /// The state without the receiving side of a stream.
    pub open spec fn without_receiver(self, stream_id: u64) -> StateModel {
        StateModel {
            receivers: self.receivers.remove(stream_id),
            control_schedule: without_turn(self.control_schedule, stream_id),
            ..self
        }
    }

    /// How many ranges wait on a stream.
    pub open spec fn ranges_held(self, stream_id: u64) -> int {
        if self.receivers.dom().contains(stream_id) {
            self.receivers[stream_id].store.spans.len() as int
        } else {
            0
        }
    }

    /// After the receiving side of a stream came to an end: once both sides of a
    /// stream have, its place is given free.
    pub open spec fn recv_finished(
        self,
        stream_id: u64,
        is_client: bool,
        control: PendingModel,
    ) -> (StateModel, PendingModel) {
        if self.recv_retired.contains(stream_id) {
            (self, control)
        } else {
            let retired = StateModel {
                recv_retired: self.recv_retired.insert(stream_id),
                ..self
            };
            let is_ours = ours(stream_id, is_client);
            if !is_ours && (uni(stream_id) || self.send_closed(stream_id, is_client)) {
                let (limits, control) = self.limits.stream_released(uni(stream_id), control);
                (StateModel { limits, ..retired }, control)
            } else if is_ours && !uni(stream_id) && self.send_closed(stream_id, is_client) {
                (StateModel { limits: self.limits.local_released(false), ..retired }, control)
            } else {
                (retired, control)
            }
        }
    }

    /// After a stream was reset by the peer.
    pub open spec fn recv_reset(
        self,
        stream_id: u64,
        is_client: bool,
        total: u64,
        control: PendingModel,
    ) -> (StateModel, PendingModel) {
        let counted = StateModel { limits: Limits { total, ..self.limits }, ..self };
        if self.receivers.dom().contains(stream_id) {
            counted.without_receiver(stream_id).recv_finished(
                stream_id,
                is_client,
                control.without(Subject::StreamData { stream_id }).without(
                    Subject::Stop { stream_id },
                ),
            )
        } else {
            counted.recv_finished(stream_id, is_client, control)
        }
    }

    /// After the application has read a stream to its end.
    pub open spec fn recv_ended(
        self,
        stream_id: u64,
        is_client: bool,
        control: PendingModel,
    ) -> (StateModel, PendingModel) {
        if self.recv_retired.contains(stream_id) {
            (self, control)
        } else {
            self.recv_reset(stream_id, is_client, self.limits.total, control)
        }
    }

    /// After something was read on a stream: as much more is taken, and the peer
    /// is told; at the end of the stream its receiving side comes to an end.
    pub open spec fn recv_read(
        self,
        stream_id: u64,
        is_client: bool,
        control: PendingModel,
    ) -> (StateModel, PendingModel) {
        let receiver = self.receivers[stream_id];
        let released = receiver.ready.len() as u64;
        let empty = ReceiverModel { ready: Seq::empty(), ..receiver };
        if empty.is_eof() {
            let rest = self.without_receiver(stream_id);
            let cleared = control.without(Subject::StreamData { stream_id }).without(
                Subject::Stop { stream_id },
            );
            let (limits, control) = if released == 0 {
                (self.limits, cleared)
            } else {
                self.limits.data_released(released, cleared)
            };
            StateModel { limits, ..rest }.recv_finished(stream_id, is_client, control)
        } else if released == 0 {
            (
                StateModel { receivers: self.receivers.insert(stream_id, empty), ..self },
                control,
            )
        } else {
            let limit = bounded_sum(receiver.limit, released);
            let waits = control.has(Subject::StreamData { stream_id });
            let told = if waits {
                control.queued(Control::MaxStreamData { stream_id, limit })
            } else {
                control
            };
            let (limits, control) = self.limits.data_released(released, told);
            (
                StateModel {
                    receivers: self.receivers.insert(
                        stream_id,
                        ReceiverModel {
                            limit,
                            credit_dirty: receiver.credit_dirty || !waits,
                            ..empty
                        },
                    ),
                    control_schedule: if waits {
                        self.control_schedule
                    } else {
                        with_turn(self.control_schedule, stream_id)
                    },
                    limits,
                    ..self
                },
                control,
            )
        }
    }

    /// After the sending side of a stream came to an end: its records are given
    /// up, and once both sides have come to an end, the place of the stream is
    /// given free.
    pub open spec fn send_ended(
        self,
        stream_id: u64,
        is_client: bool,
        control: PendingModel,
    ) -> (StateModel, PendingModel) {
        let sender = self.senders[stream_id];
        let gone = StateModel {
            senders: self.senders.remove(stream_id),
            send_schedule: without_turn(self.send_schedule, stream_id),
            journal: match sender.delivery_group {
                Some(group) => self.journal.cancelled(group),
                None => self.journal,
            },
            ..self
        };
        let cleared = control.without(Subject::Reset { stream_id }).without(
            Subject::StreamDataBlocked { stream_id },
        );
        let closed = self.recv_retired.contains(stream_id);
        if ours(stream_id, is_client) {
            (
                StateModel {
                    limits: if uni(stream_id) || closed {
                        self.limits.local_released(uni(stream_id))
                    } else {
                        self.limits
                    },
                    ..gone
                },
                cleared,
            )
        } else if !uni(stream_id) {
            let (limits, control) = if closed {
                self.limits.stream_released(false, cleared)
            } else {
                (self.limits, cleared)
            };
            (
                StateModel { send_retired: self.send_retired.insert(stream_id), limits, ..gone },
                control,
            )
        } else {
            (gone, cleared)
        }
    }

    pub open spec fn sound(self) -> bool {
        &&& self.control_schedule.no_duplicates()
        &&& self.send_schedule.no_duplicates()
        &&& forall|id: u64| #[trigger]
            self.control_schedule.contains(id) ==> self.receivers.dom().contains(id)
        &&& forall|id: u64| #[trigger]
            self.send_schedule.contains(id) ==> self.senders.dom().contains(id)
    }
}

impl View for State {
    type V = StateModel;

    closed spec fn view(&self) -> StateModel {
        StateModel {
            receivers: self.receivers@,
            senders: self.senders@,
            journal: self.journal@,
            send_schedule: self.send_schedule@,
            control_schedule: self.control_schedule@,
            opened: self.opened@,
            recv_retired: self.recv_retired@,
            send_retired: self.send_retired@,
            limits: self.limits,
            peer_data_limit: self.peer_data_limit,
            peer_total_sent: self.peer_total_sent,
        }
    }
}

/// What the streams of a connection start from.
#[derive(Debug, Clone, Copy)]
pub struct Setup {
    pub is_client: bool,
    /// How many streams of each kind we can have open at once.
    pub local_bidi_capacity: usize,
    pub local_uni_capacity: usize,
    /// How many streams of each kind the peer may open.
    pub initial_max_bidi: usize,
    pub initial_max_uni: usize,
    pub local_max_data: u64,
    pub local_initial_stream_data: InitialCredit,
    pub stream_journal_capacity: usize,
    pub receive_segment_capacity: usize,
}

/// The limits that streams start from.
pub open spec fn initial_limits(setup: Setup) -> Limits {
    let allowed = Pair { bidi: setup.initial_max_bidi as u64, uni: setup.initial_max_uni as u64 };
    let none = Pair { bidi: 0, uni: 0 };
    Limits {
        local: LocalInitiated {
            next: if setup.is_client {
                Pair { bidi: 0, uni: 2 }
            } else {
                Pair { bidi: 1, uni: 3 }
            },
            peer_max: none,
            opened: none,
            active: none,
            capacity: Pair {
                bidi: setup.local_bidi_capacity as u64,
                uni: setup.local_uni_capacity as u64,
            },
        },
        peer: PeerInitiated { max: allowed, initial_max: allowed, closed: none },
        initial: setup.local_initial_stream_data,
        local_max_data: setup.local_max_data,
        total: 0,
        data_dirty: false,
        bidi_dirty: false,
        uni_dirty: false,
    }
}

impl State {
    /// No streams.
    pub fn new(setup: Setup) -> (state: State)
        requires
            setup.local_bidi_capacity + setup.local_uni_capacity + setup.initial_max_bidi
                < u32::MAX / 4,
            setup.local_bidi_capacity + setup.initial_max_bidi + setup.initial_max_uni < u32::MAX
                / 4,
            setup.stream_journal_capacity < u32::MAX,
        ensures
            state.wf(),
            state@.receivers == Map::<u64, ReceiverModel>::empty(),
            state@.senders == Map::<u64, SenderModel>::empty(),
            state@.journal.limit == setup.stream_journal_capacity,
            state@.journal.active == 0,
            state@.send_schedule.len() == 0,
            state@.control_schedule.len() == 0,
            state@.opened == Set::<u64>::empty(),
            state@.recv_retired == Set::<u64>::empty(),
            state@.send_retired == Set::<u64>::empty(),
            state@.limits == initial_limits(setup),
            state@.peer_data_limit == 0,
            state@.peer_total_sent == 0,
            state.range_room() == setup.receive_segment_capacity,
            setup.local_bidi_capacity + setup.local_uni_capacity + setup.initial_max_bidi > 0
                ==> state.can_send(),
            setup.local_bidi_capacity + setup.initial_max_bidi + setup.initial_max_uni > 0
                ==> state.can_receive(),
    {
        let send_capacity: usize = setup.local_bidi_capacity + setup.local_uni_capacity
            + setup.initial_max_bidi;
        let recv_capacity: usize = setup.local_bidi_capacity + setup.initial_max_bidi
            + setup.initial_max_uni;
        let allowed = Pair {
            bidi: setup.initial_max_bidi as u64,
            uni: setup.initial_max_uni as u64,
        };
        let none = Pair { bidi: 0, uni: 0 };
        let state = State {
            receivers: Receivers::new(recv_capacity, setup.receive_segment_capacity),
            senders: Senders::new(send_capacity),
            journal: Journal::new(setup.stream_journal_capacity),
            send_schedule: Vec::new(),
            control_schedule: Vec::new(),
            opened: HashSet::new(),
            recv_retired: HashSet::new(),
            send_retired: HashSet::new(),
            limits: Limits {
                local: LocalInitiated {
                    next: if setup.is_client {
                        Pair { bidi: 0, uni: 2 }
                    } else {
                        Pair { bidi: 1, uni: 3 }
                    },
                    peer_max: none,
                    opened: none,
                    active: none,
                    capacity: Pair {
                        bidi: setup.local_bidi_capacity as u64,
                        uni: setup.local_uni_capacity as u64,
                    },
                },
                peer: PeerInitiated { max: allowed, initial_max: allowed, closed: none },
                initial: setup.local_initial_stream_data,
                local_max_data: setup.local_max_data,
                total: 0,
                data_dirty: false,
                bidi_dirty: false,
                uni_dirty: false,
            },
            peer_data_limit: 0,
            peer_total_sent: 0,
        };
        assert(state@.sound());
        state
    }

    /// Takes how many streams the peer allows at first.
    pub fn set_peer_max_streams(&mut self, one_way: bool, maximum: u64)
        requires
            old(self).wf(),
        ensures
            final(self).wf(),
            final(self).can_send() == old(self).can_send(),
            final(self)@ == old(self)@.streams_allowed(one_way, maximum),
    {
        if maximum > self.limits.local.peer_max.get(one_way) {
            self.limits.local.peer_max.set(one_way, maximum);
        }
    }

    /// Takes a higher limit of the peer for all streams together.
    pub fn raise_data_credit(&mut self, maximum: u64, control: &mut Pending)
        requires
            old(self).wf(),
        ensures
            final(self).wf(),
            final(self).can_send() == old(self).can_send(),
            (final(self)@, final(control)@) == old(self)@.data_allowed(maximum, old(control)@),
    {
        if maximum > self.peer_data_limit {
            self.peer_data_limit = maximum;
            control.remove(Subject::DataBlocked);
        }
    }

    pub closed spec fn wf(&self) -> bool {
        &&& self.receivers.wf()
        &&& self.senders.wf()
        &&& self.journal.wf()
        &&& self@.sound()
    }

    /// What holds of the sending sides of all streams.
    pub proof fn lemma_senders(&self)
        requires
            self.wf(),
        ensures
            forall|id: u64| #[trigger]
                self@.senders.dom().contains(id) ==> self@.senders[id].sound(),
    {
        self.senders.lemma_sound();
    }

    /// The stream whose sending side a handle names.
    pub closed spec fn named(&self, handle: SendHandle) -> Option<u64> {
        self.senders.named(handle)
    }

    /// Which streams handles name.
    pub open spec fn names(&self) -> spec_fn(SendHandle) -> Option<u64> {
        |handle: SendHandle| self.named(handle)
    }

    /// Whether the receiving side of one more stream fits.
    pub closed spec fn can_receive(&self) -> bool {
        self.receivers.has_room()
    }

    /// Whether the sending side of one more stream fits.
    pub closed spec fn can_send(&self) -> bool {
        self.senders.has_room()
    }

    /// How many more ranges can wait on all streams together.
    pub closed spec fn range_room(&self) -> int {
        self.receivers.remaining()
    }

    /// Whether the receiving side of a stream came to an end.
    pub fn receive_side_closed(&self, stream_id: u64) -> (closed: bool)
        ensures
            closed == self@.recv_retired.contains(stream_id),
    {
        self.recv_retired.contains(&stream_id)
    }

    /// Whether the sending side of a stream came to an end.
    pub fn send_side_closed(&self, stream_id: u64, is_client: bool) -> (closed: bool)
        requires
            self.wf(),
        ensures
            closed == self@.send_closed(stream_id, is_client),
    {
        let one_way = is_uni(stream_id);
        if we_initiated(stream_id, is_client) {
            stream_id < self.limits.local.next.get(one_way) && self.senders.get(
                stream_id,
            ).is_none()
        } else {
            !one_way && self.send_retired.contains(&stream_id)
        }
    }

    /// Checks that a stream is there and can be used in a way.
    pub fn validate_access(&self, stream_id: u64, access: Access, is_client: bool) -> (result:
        Result<(), Error>)
        ensures
            result == (if self@.limits.accessible(
                self@.opened.contains(stream_id),
                stream_id,
                access,
                is_client,
            ) {
                Ok::<(), Error>(())
            } else {
                Err(Error::ProtocolViolation)
            }),
    {
        self.limits.validate_access(
            self.opened.contains(&stream_id),
            stream_id,
            access,
            is_client,
        )
    }

    /// Checks that a stream is there and can be used in a way, or lets the peer
    /// open it.
    pub fn validate_or_open_peer(&mut self, stream_id: u64, access: Access, is_client: bool) -> (
        result: Result<(), Error>)
        requires
            old(self).wf(),
        ensures
            final(self).wf(),
            ({
                let used = old(self)@.used_by_peer(stream_id, access, is_client);
                &&& result == (if used is Some {
                    Ok::<(), Error>(())
                } else {
                    Err(Error::ProtocolViolation)
                })
                &&& final(self)@ == if used is Some {
                    used->0
                } else {
                    old(self)@
                }
            }),
    {
        if we_initiated(stream_id, is_client) {
            return self.validate_access(stream_id, access, is_client);
        }
        if (is_uni(stream_id) && access == Access::Send) || !self.limits.peer_opens(stream_id) {
            return Err(Error::ProtocolViolation);
        }
        self.opened.insert(stream_id);
        Ok(())
    }

    /// Tells the application that there is something to read, unless it was told
    /// and has not looked.
    fn push_readable(&mut self, stream_id: u64, events: &mut Vec<Event>)
        requires
            old(self).wf(),
            old(self)@.receivers.dom().contains(stream_id),
        ensures
            final(self).wf(),
            final(self)@ == (StateModel {
                receivers: old(self)@.receivers.insert(
                    stream_id,
                    ReceiverModel { event_pending: true, ..old(self)@.receivers[stream_id] },
                ),
                ..old(self)@
            }),
            final(self).range_room() == old(self).range_room(),
            final(events)@ == if old(self)@.receivers[stream_id].event_pending {
                old(events)@
            } else {
                old(events)@.push(Event::Readable { stream_id })
            },
    {
        let pending = match self.receivers.get(stream_id) {
            Some(receiver) => receiver.event_pending(),
            None => false,
        };
        if !pending {
            events.push(Event::Readable { stream_id });
        }
        let ghost m = self@;
        self.receivers.set_event_pending(stream_id, true);
        assert(self@.receivers.dom() =~= m.receivers.dom());
    }

    /// The next event. What it tells of is told again when it comes again.
    pub fn poll_event(&mut self, events: &mut Vec<Event>) -> (event: Option<Event>)
        requires
            old(self).wf(),
        ensures
            final(self).wf(),
            match event {
                Some(event) => {
                    &&& old(events)@.len() > 0
                    &&& event == old(events)@[0]
                    &&& final(events)@ == old(events)@.subrange(1, old(events)@.len() as int)
                    &&& final(self)@ == old(self)@.told(event)
                },
                None => {
                    &&& old(events)@.len() == 0
                    &&& final(events)@ == old(events)@
                    &&& final(self)@ == old(self)@
                },
            },
    {
        if events.len() == 0 {
            return None;
        }
        let event = events.remove(0);
        assert(events@ =~= old(events)@.subrange(1, old(events)@.len() as int));
        let ghost m = self@;
        match event {
            Event::Readable { stream_id } => {
                if self.receivers.get(stream_id).is_some() {
                    self.receivers.set_event_pending(stream_id, false);
                    assert(self@.receivers.dom() =~= m.receivers.dom());
                }
            },
            Event::Stopped { stream_id, error_code } => {
                if self.senders.get(stream_id).is_some() {
                    self.senders.set_stop_event_pending(stream_id, false);
                    assert(self@.senders.dom() =~= m.senders.dom());
                }
            },
            Event::Reset { stream_id, error_code } => {},
        }
        Some(event)
    }

    /// What the receiving side of a stream says of its limits.
    fn receiver_limits(&self, stream_id: u64, is_client: bool) -> (result: (
        u64,
        u64,
        Option<u64>,
        bool,
    ))
        requires
            self.wf(),
        ensures
            ({
                let receiver = self@.receiver(stream_id, is_client);
                &&& result.0 == receiver.limit
                &&& result.1 == receiver.highest
                &&& result.2 == receiver.final_size
                &&& result.3 == self@.receivers.dom().contains(stream_id)
            }),
    {
        match self.receivers.get(stream_id) {
            Some(receiver) => (
                receiver.limit(),
                receiver.highest_offset(),
                receiver.final_size(),
                true,
            ),
            None => (self.limits.initial_receive_credit(stream_id, is_client), 0, None, false),
        }
    }

    /// Whether the sending side of one more stream fits.
    pub fn fits_sender(&self) -> (fits: bool)
        requires
            self.wf(),
        ensures
            fits == self.can_send(),
    {
        self.senders.fits_one()
    }

    /// Whether the receiving side of one more stream fits.
    pub fn fits_receiver(&self) -> (fits: bool)
        requires
            self.wf(),
        ensures
            fits == self.can_receive(),
    {
        self.receivers.fits_one()
    }

    /// Takes bytes that arrived on a stream.
    pub fn ingest_stream(
        &mut self,
        stream_id: u64,
        offset: u64,
        data: &[u8],
        fin: bool,
        is_client: bool,
        events: &mut Vec<Event>,
    ) -> (result: Result<(), Error>)
        requires
            old(self).wf(),
            !old(self)@.recv_retired.contains(stream_id) && old(self)@.verdict(
                stream_id,
                is_client,
                offset + data@.len(),
                fin,
            ) is Ok ==> old(self)@.receivers.dom().contains(stream_id) || old(self).can_receive(),
        ensures
            final(self).wf(),
            final(self).range_room() + final(self)@.ranges_held(stream_id) == old(
                self,
            ).range_room() + old(self)@.ranges_held(stream_id),
            ({
                let m = old(self)@;
                let receiver = m.receiver(stream_id, is_client);
                let verdict = m.verdict(stream_id, is_client, offset + data@.len(), fin);
                let refusal = receiver.refusal(
                    offset as int,
                    data@.len() as int,
                    old(self).range_room(),
                );
                if m.recv_retired.contains(stream_id) {
                    &&& result is Ok
                    &&& final(self)@ == m
                    &&& final(events)@ == old(events)@
                } else if verdict is Err || refusal is Some {
                    &&& result == Err::<(), Error>(
                        if verdict is Err {
                            verdict->Err_0
                        } else {
                            Error::StreamBufferExceeded
                        },
                    )
                    &&& final(self)@ == m
                    &&& final(events)@ == old(events)@
                } else {
                    let told = data@.len() != 0 || fin;
                    &&& result is Ok
                    &&& exists|after: ReceiverModel| #[trigger]
                        receiver.took(offset as int, data@, fin, after) && final(self)@
                            == m.with_receiver(
                            stream_id,
                            ReceiverModel {
                                event_pending: receiver.event_pending || told,
                                ..after
                            },
                            verdict->Ok_0,
                        )
                    &&& final(events)@ == if told && !receiver.event_pending {
                        old(events)@.push(Event::Readable { stream_id })
                    } else {
                        old(events)@
                    }
                }
            }),
    {
        let ghost m = self@;
        if self.receive_side_closed(stream_id) {
            return Ok(());
        }
        let (limit, highest, final_size, present) = self.receiver_limits(stream_id, is_client);
        if data.len() as u64 > u64::MAX - offset {
            return Err(Error::StreamBufferExceeded);
        }
        let end: u64 = offset + data.len() as u64;
        let total: u64 = match check_stream(
            limit,
            highest,
            final_size,
            self.limits.total,
            self.limits.local_max_data,
            end,
            fin,
        ) {
            Ok(total) => total,
            Err(error) => {
                return Err(error);
            },
        };
        let ghost receiver = m.receiver(stream_id, is_client);
        self.receivers.ensure(stream_id, limit);
        assert(self.receivers@[stream_id] == receiver);
        let ghost middle = self.receivers@;
        if self.receivers.insert(stream_id, offset, data, fin).is_err() {
            if !present {
                self.receivers.remove(stream_id);
                assert(self@.receivers =~= m.receivers);
            }
            return Err(Error::StreamBufferExceeded);
        }
        self.limits.total = total;
        let ghost after = self.receivers@[stream_id];
        assert(receiver.took(offset as int, data@, fin, after));
        assert(self@.sound());
        if data.len() != 0 || fin {
            self.push_readable(stream_id, events);
        }
        assert(self@.receivers =~= m.with_receiver(
            stream_id,
            ReceiverModel {
                event_pending: receiver.event_pending || data@.len() != 0 || fin,
                ..after
            },
            total,
        ).receivers);
        Ok(())
    }

    /// Takes note of bytes of a stream that is reset later in the same packet.
    pub fn ingest_stream_transient(
        &mut self,
        stream_id: u64,
        offset: u64,
        data_len: usize,
        fin: bool,
        is_client: bool,
        events: &mut Vec<Event>,
    ) -> (result: Result<(), Error>)
        requires
            old(self).wf(),
            !old(self)@.recv_retired.contains(stream_id) && old(self)@.verdict(
                stream_id,
                is_client,
                offset + data_len,
                fin,
            ) is Ok ==> old(self)@.receivers.dom().contains(stream_id) || old(self).can_receive(),
        ensures
            final(self).wf(),
            ({
                let m = old(self)@;
                let receiver = m.receiver(stream_id, is_client);
                let verdict = m.verdict(stream_id, is_client, offset + data_len, fin);
                if m.recv_retired.contains(stream_id) {
                    &&& result is Ok
                    &&& final(self)@ == m
                    &&& final(events)@ == old(events)@
                } else if verdict is Err {
                    &&& result == Err::<(), Error>(verdict->Err_0)
                    &&& final(self)@ == m
                    &&& final(events)@ == old(events)@
                } else {
                    let told = data_len != 0 || fin;
                    &&& result is Ok
                    &&& final(self)@ == m.with_receiver(
                        stream_id,
                        ReceiverModel {
                            event_pending: receiver.event_pending || told,
                            ..receiver.observed(offset + data_len, fin)
                        },
                        verdict->Ok_0,
                    )
                    &&& final(events)@ == if told && !receiver.event_pending {
                        old(events)@.push(Event::Readable { stream_id })
                    } else {
                        old(events)@
                    }
                }
            }),
    {
        let ghost m = self@;
        if self.receive_side_closed(stream_id) {
            return Ok(());
        }
        let (limit, highest, final_size, present) = self.receiver_limits(stream_id, is_client);
        if data_len as u64 > u64::MAX - offset {
            return Err(Error::StreamBufferExceeded);
        }
        let end: u64 = offset + data_len as u64;
        let total: u64 = match check_stream(
            limit,
            highest,
            final_size,
            self.limits.total,
            self.limits.local_max_data,
            end,
            fin,
        ) {
            Ok(total) => total,
            Err(error) => {
                return Err(error);
            },
        };
        let ghost receiver = m.receiver(stream_id, is_client);
        self.receivers.ensure(stream_id, limit);
        assert(self.receivers@[stream_id] == receiver);
        self.receivers.observe(stream_id, end, fin);
        self.limits.total = total;
        assert(self@.sound());
        if data_len != 0 || fin {
            self.push_readable(stream_id, events);
        }
        assert(self@.receivers =~= m.with_receiver(
            stream_id,
            ReceiverModel {
                event_pending: receiver.event_pending || data_len != 0 || fin,
                ..receiver.observed(offset + data_len, fin)
            },
            total,
        ).receivers);
        Ok(())
    }
}

} // verus!
