//! What is written on streams.
use vstd::prelude::*;

use crate::conn::control::{
    law_has, law_latest_record_waits, Control, Pending, PendingModel, Subject,
};
use crate::conn::recv::ReceiverModel;
use crate::conn::send::SenderModel;
use crate::conn::stream_journal::model::SendHandle;
use crate::conn::streams::limits::{
    is_uni, ours, peer_credit, peer_initial_credit, reset_verdict, uni, we_initiated, Access,
    Error, Params, StreamError,
};
use crate::conn::streams::state::{
    activate, deactivate, lemma_with_turn, lemma_without_turn, with_turn, without_turn, Event,
    State, StateModel,
};
use crate::varint::MAX_VARINT;

verus! {

broadcast use vstd::std_specs::hash::group_hash_axioms;

/// What a request to stop would take.
#[derive(Debug, Clone, Copy, PartialEq, Eq, Structural)]
pub struct StopImpact {
    pub active: bool,
    pub event_slots: usize,
    pub stream_slots: usize,
}

impl StateModel {
    /// Whether a stream of the peer can no longer be sent on.
    pub open spec fn peer_send_retired(self, stream_id: u64, is_client: bool) -> bool {
        !ours(stream_id, is_client) && !uni(stream_id) && self.send_retired.contains(stream_id)
    }

    /// Why an operation on a stream is refused, if it is.
    pub open spec fn operation_error(
        self,
        stream_id: u64,
        access: Access,
        is_client: bool,
        available: bool,
    ) -> Option<StreamError> {
        if stream_id > MAX_VARINT {
            Some(StreamError::IdOverflow)
        } else if !available {
            Some(StreamError::NotEstablished)
        } else if !self.limits.accessible(
            self.opened.contains(stream_id),
            stream_id,
            access,
            is_client,
        ) {
            Some(StreamError::InvalidStream)
        } else {
            None
        }
    }

    /// The state with another sending side of a stream, which has a turn if there
    /// is something to send.
    pub open spec fn with_sender(self, stream_id: u64, sender: SenderModel) -> StateModel {
        let active = sender.deferred_reset is Some || (sender.has_pending() && !sender.blocked());
        StateModel {
            senders: self.senders.insert(stream_id, sender),
            send_schedule: if active {
                with_turn(self.send_schedule, stream_id)
            } else {
                without_turn(self.send_schedule, stream_id)
            },
            ..self
        }
    }

    /// The sending side of a stream: one that is there, or one of a stream of the
    /// peer that fits.
    pub open spec fn sender_for(
        self,
        stream_id: u64,
        is_client: bool,
        params: Option<Params>,
        room: bool,
    ) -> Option<SenderModel> {
        if self.senders.dom().contains(stream_id) {
            Some(self.senders[stream_id])
        } else if !ours(stream_id, is_client) && room {
            Some(SenderModel::initial(peer_credit(params, is_client, stream_id)))
        } else {
            None
        }
    }

    /// After the application asked that the peer stop: it is asked, or will be where there
    /// is no room.
    pub open spec fn stop_asked(
        self,
        stream_id: u64,
        error_code: u64,
        is_client: bool,
        control: PendingModel,
    ) -> (StateModel, PendingModel) {
        let fits = control.has(Subject::Stop { stream_id }) || control.has_room();
        (
            StateModel {
                receivers: self.receivers.insert(
                    stream_id,
                    ReceiverModel {
                        deferred_stop: if fits {
                            None
                        } else {
                            Some(error_code)
                        },
                        ..self.receiver(stream_id, is_client)
                    },
                ),
                control_schedule: with_turn(self.control_schedule, stream_id),
                ..self
            },
            if fits {
                control.queued(Control::StopSending { stream_id, error_code })
            } else {
                control
            },
        )
    }

    /// What a request to stop would take, or why it breaks the rules.
    pub open spec fn stop_impact(self, stream_id: u64, is_client: bool) -> Result<
        StopImpact,
        Error,
    > {
        let allowed = if ours(stream_id, is_client) {
            self.limits.accessible(
                self.opened.contains(stream_id),
                stream_id,
                Access::Send,
                is_client,
            )
        } else {
            !uni(stream_id) && self.limits.peer_may_open(stream_id)
        };
        if !allowed {
            Err(Error::ProtocolViolation)
        } else if self.peer_send_retired(stream_id, is_client) {
            Ok(StopImpact { active: false, event_slots: 0, stream_slots: 0 })
        } else if self.senders.dom().contains(stream_id) {
            Ok(
                StopImpact {
                    active: true,
                    event_slots: if self.senders[stream_id].stop_event_pending {
                        0
                    } else {
                        1
                    },
                    stream_slots: 0,
                },
            )
        } else if !ours(stream_id, is_client) {
            Ok(StopImpact { active: true, event_slots: 1, stream_slots: 1 })
        } else {
            Ok(StopImpact { active: false, event_slots: 0, stream_slots: 0 })
        }
    }
}

/// Queues a reset, or keeps it for later where there is no room.
pub open spec fn reset_queued(
    sender: SenderModel,
    stream_id: u64,
    error_code: u64,
    control: PendingModel,
) -> (SenderModel, PendingModel) {
    let record = Control::ResetStream { stream_id, error_code, final_size: sender.next as u64 };
    if control.has(Subject::Reset { stream_id }) || control.has_room() {
        (SenderModel { deferred_reset: None, ..sender }, control.queued(record))
    } else {
        (SenderModel { deferred_reset: Some(error_code), ..sender }, control)
    }
}

/// After a stream was ended behind what was written.
pub open spec fn sender_ended(sender: SenderModel) -> SenderModel {
    if sender.blocked() {
        sender
    } else {
        SenderModel { fin: true, ..sender }
    }
}

/// After the peer allowed bytes up to an offset: a lower limit than the one that is known
/// counts for nothing.
pub open spec fn credit_raised(
    sender: SenderModel,
    stream_id: u64,
    maximum: u64,
    control: PendingModel,
) -> (SenderModel, PendingModel) {
    if maximum > sender.credit {
        (
            SenderModel { credit: maximum, ..sender },
            control.without(Subject::StreamDataBlocked { stream_id }),
        )
    } else {
        (sender, control)
    }
}

/// After the peer asked to stop: the stream is reset, unless it was.
pub open spec fn stopped(
    sender: SenderModel,
    stream_id: u64,
    error_code: u64,
    control: PendingModel,
) -> (SenderModel, PendingModel) {
    let stop = SenderModel {
        stopped: Some(error_code),
        delivery_group: None,
        stop_event_pending: true,
        ..sender
    };
    let cleared = control.without(Subject::StreamDataBlocked { stream_id });
    match sender.deferred_reset {
        Some(error) => reset_queued(stop, stream_id, error, cleared),
        None => if sender.reset_sent {
            (stop, cleared)
        } else {
            reset_queued(
                SenderModel { reset_sent: true, ..stop },
                stream_id,
                error_code,
                cleared,
            )
        },
    }
}

/// After the application reset a stream.
pub open spec fn reset_by_us(
    sender: SenderModel,
    stream_id: u64,
    error_code: u64,
    control: PendingModel,
) -> (SenderModel, PendingModel) {
    if sender.reset_sent {
        (sender, control)
    } else {
        reset_queued(
            SenderModel { reset_sent: true, delivery_group: None, ..sender },
            stream_id,
            error_code,
            control.without(Subject::StreamDataBlocked { stream_id }),
        )
    }
}

impl State {
    /// Gives a stream a turn if there is something to send.
    pub(crate) fn update_schedule(&mut self, stream_id: u64)
        requires
            old(self).wf(),
            old(self)@.senders.dom().contains(stream_id),
        ensures
            final(self).wf(),
            final(self)@ == old(self)@.with_sender(stream_id, old(self)@.senders[stream_id]),
            final(self).can_send() == old(self).can_send(),
            final(self).names() == old(self).names(),
    {
        let active = match self.senders.get(stream_id) {
            Some(sender) => sender.deferred_reset().is_some() || (sender.has_pending()
                && !sender.blocked()),
            None => false,
        };
        proof {
            lemma_with_turn(self.send_schedule@, stream_id);
            lemma_without_turn(self.send_schedule@, stream_id);
            assert(self@.senders =~= self@.senders.insert(stream_id, self@.senders[stream_id]));
        }
        if active {
            activate(&mut self.send_schedule, stream_id);
        } else {
            deactivate(&mut self.send_schedule, stream_id);
        }
    }

    /// Puts the sending side of a stream there, if it can be.
    fn ensure_sender(&mut self, stream_id: u64, is_client: bool, params: Option<Params>) -> (there:
        bool)
        requires
            old(self).wf(),
        ensures
            final(self).wf(),
            ({
                let sender = old(self)@.sender_for(
                    stream_id,
                    is_client,
                    params,
                    old(self).can_send(),
                );
                &&& there == (sender is Some)
                &&& final(self)@ == match sender {
                    Some(sender) => (StateModel {
                        senders: old(self)@.senders.insert(stream_id, sender),
                        ..old(self)@
                    }),
                    None => old(self)@,
                }
            }),
    {
        let ghost m = self@;
        if self.senders.get(stream_id).is_some() {
            assert(m.senders =~= m.senders.insert(stream_id, m.senders[stream_id]));
            return true;
        }
        if we_initiated(stream_id, is_client) {
            return false;
        }
        let credit: u64 = peer_initial_credit(params, is_client, stream_id);
        self.senders.ensure(stream_id, credit)
    }

    /// Whether a stream of the peer can no longer be sent on.
    fn peer_send_retired(&self, stream_id: u64, is_client: bool) -> (retired: bool)
        ensures
            retired == self@.peer_send_retired(stream_id, is_client),
    {
        !we_initiated(stream_id, is_client) && !is_uni(stream_id) && self.send_retired.contains(
            &stream_id,
        )
    }

    /// Checks that an operation on a stream is possible.
    pub fn validate_operation(
        &self,
        stream_id: u64,
        access: Access,
        is_client: bool,
        available: bool,
    ) -> (result: Result<(), StreamError>)
        ensures
            result == (match self@.operation_error(stream_id, access, is_client, available) {
                Some(error) => Err(error),
                None => Ok::<(), StreamError>(()),
            }),
    {
        self.limits.validate_operation(
            self.opened.contains(&stream_id),
            stream_id,
            access,
            is_client,
            available,
        )
    }

    /// Writes bytes on a stream.
    pub fn send_bytes(
        &mut self,
        stream_id: u64,
        data: &[u8],
        params: Option<Params>,
        is_client: bool,
        available: bool,
    ) -> (result: Result<(), StreamError>)
        requires
            old(self).wf(),
        ensures
            final(self).wf(),
            ({
                let m = old(self)@;
                let refused = m.operation_error(stream_id, Access::Send, is_client, available);
                let found = m.sender_for(stream_id, is_client, params, old(self).can_send());
                if refused is Some {
                    result == Err::<(), StreamError>(refused->0) && final(self)@ == m
                } else if m.peer_send_retired(stream_id, is_client) || found is None {
                    result is Ok && final(self)@ == m
                } else {
                    let sender = found->0;
                    let (after, written) = parts_written(sender, data@, None, false);
                    &&& result == (if written {
                        Ok::<(), StreamError>(())
                    } else {
                        Err(StreamError::ValueOutOfRange)
                    })
                    &&& final(self)@ == m.with_sender(stream_id, after)
                }
            }),
    {
        match self.validate_operation(stream_id, Access::Send, is_client, available) {
            Ok(()) => {},
            Err(error) => {
                return Err(error);
            },
        }
        if self.peer_send_retired(stream_id, is_client) {
            return Ok(());
        }
        let ghost m = self@;
        if !self.ensure_sender(stream_id, is_client, params) {
            return Ok(());
        }
        let blocked = match self.senders.get(stream_id) {
            Some(sender) => sender.blocked(),
            None => false,
        };
        let written = blocked || self.senders.write(stream_id, data);
        let ghost after = self@.senders[stream_id];
        assert(self@.senders =~= m.senders.insert(stream_id, after));
        self.update_schedule(stream_id);
        assert(self@.senders =~= m.senders.insert(stream_id, after));
        if written {
            Ok(())
        } else {
            Err(StreamError::ValueOutOfRange)
        }
    }

    /// Writes up to two buffers on a stream, and ends it if wanted.
    pub fn send_parts(
        &mut self,
        stream_id: u64,
        first: &[u8],
        second: Option<&[u8]>,
        fin: bool,
        params: Option<Params>,
        is_client: bool,
        available: bool,
    ) -> (result: Result<(), StreamError>)
        requires
            old(self).wf(),
        ensures
            final(self).wf(),
            ({
                let m = old(self)@;
                let refused = m.operation_error(stream_id, Access::Send, is_client, available);
                let found = m.sender_for(stream_id, is_client, params, old(self).can_send());
                if refused is Some {
                    result == Err::<(), StreamError>(refused->0) && final(self)@ == m
                } else if m.peer_send_retired(stream_id, is_client) || found is None {
                    result is Ok && final(self)@ == m
                } else {
                    let sender = found->0;
                    let (after, written) = parts_written(
                        sender,
                        first@,
                        match second {
                            Some(bytes) => Some(bytes@),
                            None => None,
                        },
                        fin,
                    );
                    &&& result == (if written {
                        Ok::<(), StreamError>(())
                    } else {
                        Err(StreamError::ValueOutOfRange)
                    })
                    &&& final(self)@ == m.with_sender(stream_id, after)
                }
            }),
    {
        match self.validate_operation(stream_id, Access::Send, is_client, available) {
            Ok(()) => {},
            Err(error) => {
                return Err(error);
            },
        }
        if self.peer_send_retired(stream_id, is_client) {
            return Ok(());
        }
        let ghost m = self@;
        if !self.ensure_sender(stream_id, is_client, params) {
            return Ok(());
        }
        let blocked = match self.senders.get(stream_id) {
            Some(sender) => sender.blocked(),
            None => false,
        };
        let mut written = true;
        if !blocked {
            written = self.senders.write(stream_id, first);
            if written {
                match second {
                    Some(bytes) => {
                        written = self.senders.write(stream_id, bytes);
                    },
                    None => {},
                }
            }
            if written && fin {
                self.senders.mark_fin(stream_id);
            }
        }
        let ghost after = self@.senders[stream_id];
        assert(self@.senders =~= m.senders.insert(stream_id, after));
        self.update_schedule(stream_id);
        assert(self@.senders =~= m.senders.insert(stream_id, after));
        if written {
            Ok(())
        } else {
            Err(StreamError::ValueOutOfRange)
        }
    }

    /// Ends a stream after what was written.
    pub fn send_fin(
        &mut self,
        stream_id: u64,
        params: Option<Params>,
        is_client: bool,
        available: bool,
    ) -> (result: Result<(), StreamError>)
        requires
            old(self).wf(),
        ensures
            final(self).wf(),
            ({
                let m = old(self)@;
                let refused = m.operation_error(stream_id, Access::Send, is_client, available);
                let found = m.sender_for(stream_id, is_client, params, old(self).can_send());
                if refused is Some {
                    result == Err::<(), StreamError>(refused->0) && final(self)@ == m
                } else if m.peer_send_retired(stream_id, is_client) || found is None {
                    result is Ok && final(self)@ == m
                } else {
                    let sender = found->0;
                    &&& result is Ok
                    &&& final(self)@ == m.with_sender(stream_id, sender_ended(sender))
                }
            }),
    {
        match self.validate_operation(stream_id, Access::Send, is_client, available) {
            Ok(()) => {},
            Err(error) => {
                return Err(error);
            },
        }
        if self.peer_send_retired(stream_id, is_client) {
            return Ok(());
        }
        let ghost m = self@;
        if !self.ensure_sender(stream_id, is_client, params) {
            return Ok(());
        }
        let blocked = match self.senders.get(stream_id) {
            Some(sender) => sender.blocked(),
            None => false,
        };
        if !blocked {
            self.senders.mark_fin(stream_id);
        }
        let ghost after = self@.senders[stream_id];
        assert(self@.senders =~= m.senders.insert(stream_id, after));
        self.update_schedule(stream_id);
        assert(self@.senders =~= m.senders.insert(stream_id, after));
        Ok(())
    }

    /// Queues a reset, or keeps it for later where there is no room.
    pub(crate) fn queue_reset(&mut self, stream_id: u64, error_code: u64, control: &mut Pending)
        requires
            old(self).wf(),
            old(self)@.senders.dom().contains(stream_id),
        ensures
            final(self).wf(),
            final(self).names() == old(self).names(),
            ({
                let (sender, queued) = reset_queued(
                    old(self)@.senders[stream_id],
                    stream_id,
                    error_code,
                    old(control)@,
                );
                &&& final(self)@ == (StateModel {
                    senders: old(self)@.senders.insert(stream_id, sender),
                    ..old(self)@
                })
                &&& final(control)@ == queued
            }),
    {
        let ghost m = self@;
        let final_size: u64 = match self.senders.get(stream_id) {
            Some(sender) => sender.next_offset(),
            None => 0,
        };
        if control.has(Subject::Reset { stream_id }) || control.has_room() {
            control.queue(Control::ResetStream { stream_id, error_code, final_size });
            self.senders.set_deferred_reset(stream_id, None);
        } else {
            self.senders.set_deferred_reset(stream_id, Some(error_code));
        }
        assert(self@.senders.dom() =~= m.senders.dom());
        assert forall|handle: SendHandle| #[trigger] self.named(handle) == old(self).named(
            handle,
        ) by {}
        assert(self.names() =~= old(self).names());
    }

    /// Resets a stream.
    pub fn reset(
        &mut self,
        stream_id: u64,
        error_code: u64,
        params: Option<Params>,
        is_client: bool,
        available: bool,
        control: &mut Pending,
    ) -> (result: Result<(), StreamError>)
        requires
            old(self).wf(),
        ensures
            final(self).wf(),
            ({
                let m = old(self)@;
                let refused = m.operation_error(stream_id, Access::Send, is_client, available);
                let found = m.sender_for(stream_id, is_client, params, old(self).can_send());
                if refused is Some {
                    &&& result == Err::<(), StreamError>(refused->0)
                    &&& final(self)@ == m
                    &&& final(control)@ == old(control)@
                } else if error_code > MAX_VARINT {
                    &&& result == Err::<(), StreamError>(StreamError::ValueOutOfRange)
                    &&& final(self)@ == m
                    &&& final(control)@ == old(control)@
                } else if m.peer_send_retired(stream_id, is_client) || found is None {
                    &&& result is Ok
                    &&& final(self)@ == m
                    &&& final(control)@ == old(control)@
                } else {
                    let sender = found->0;
                    let (after, queued) = reset_by_us(
                        sender,
                        stream_id,
                        error_code,
                        old(control)@,
                    );
                    &&& result is Ok
                    &&& final(control)@ == queued
                    &&& final(self)@ == (StateModel {
                        journal: if !sender.reset_sent && sender.delivery_group is Some {
                            m.journal.cancelled(sender.delivery_group->0)
                        } else {
                            m.journal
                        },
                        ..m.with_sender(stream_id, after)
                    })
                }
            }),
    {
        match self.validate_operation(stream_id, Access::Send, is_client, available) {
            Ok(()) => {},
            Err(error) => {
                return Err(error);
            },
        }
        if error_code > MAX_VARINT {
            return Err(StreamError::ValueOutOfRange);
        }
        if self.peer_send_retired(stream_id, is_client) {
            return Ok(());
        }
        let ghost m = self@;
        if !self.ensure_sender(stream_id, is_client, params) {
            return Ok(());
        }
        let ghost sender = self@.senders[stream_id];
        let (sent, group) = match self.senders.get(stream_id) {
            Some(sender) => (sender.reset_sent(), sender.delivery_group()),
            None => (true, None),
        };
        if !sent {
            self.senders.set_delivery_group(stream_id, None);
            self.senders.mark_reset_sent(stream_id);
            control.remove(Subject::StreamDataBlocked { stream_id });
            assert(self@.senders.dom() =~= m.senders.insert(stream_id, sender).dom());
            self.queue_reset(stream_id, error_code, control);
            match group {
                Some(group) => {
                    self.journal.cancel(group);
                },
                None => {},
            }
        }
        let ghost after = self@.senders[stream_id];
        assert(self@.senders =~= m.senders.insert(stream_id, after));
        self.update_schedule(stream_id);
        assert(self@.senders =~= m.senders.insert(stream_id, after));
        Ok(())
    }

    /// Asks the peer to stop.
    pub fn stop_sending(
        &mut self,
        stream_id: u64,
        error_code: u64,
        is_client: bool,
        available: bool,
        control: &mut Pending,
    ) -> (result: Result<(), StreamError>)
        requires
            old(self).wf(),
            old(self)@.operation_error(stream_id, Access::Receive, is_client, available) is None
                && error_code <= MAX_VARINT && !old(self)@.recv_retired.contains(stream_id)
                ==> old(self)@.receivers.dom().contains(stream_id) || old(self).can_receive(),
        ensures
            final(self).wf(),
            final(self).range_room() + final(self)@.ranges_held(stream_id) == old(
                self,
            ).range_room() + old(self)@.ranges_held(stream_id),
            ({
                let m = old(self)@;
                let refused = m.operation_error(stream_id, Access::Receive, is_client, available);
                if refused is Some {
                    &&& result == Err::<(), StreamError>(refused->0)
                    &&& final(self)@ == m
                    &&& final(control)@ == old(control)@
                } else if error_code > MAX_VARINT {
                    &&& result == Err::<(), StreamError>(StreamError::ValueOutOfRange)
                    &&& final(self)@ == m
                    &&& final(control)@ == old(control)@
                } else if m.recv_retired.contains(stream_id) {
                    &&& result is Ok
                    &&& final(self)@ == m
                    &&& final(control)@ == old(control)@
                } else {
                    &&& result is Ok
                    &&& (final(self)@, final(control)@) == m.stop_asked(
                        stream_id,
                        error_code,
                        is_client,
                        old(control)@,
                    )
                }
            }),
    {
        match self.validate_operation(stream_id, Access::Receive, is_client, available) {
            Ok(()) => {},
            Err(error) => {
                return Err(error);
            },
        }
        if error_code > MAX_VARINT {
            return Err(StreamError::ValueOutOfRange);
        }
        if self.receive_side_closed(stream_id) {
            return Ok(());
        }
        let ghost m = self@;
        let limit: u64 = self.limits.initial_receive_credit(stream_id, is_client);
        self.receivers.ensure(stream_id, limit);
        assert(self.receivers@[stream_id] == m.receiver(stream_id, is_client));
        if control.has(Subject::Stop { stream_id }) || control.has_room() {
            control.queue(Control::StopSending { stream_id, error_code });
            self.receivers.set_deferred_stop(stream_id, None);
        } else {
            self.receivers.set_deferred_stop(stream_id, Some(error_code));
        }
        proof {
            lemma_with_turn(self.control_schedule@, stream_id);
        }
        activate(&mut self.control_schedule, stream_id);
        assert(self@.receivers =~= m.receivers.insert(stream_id, self@.receivers[stream_id]));
        Ok(())
    }

    /// Why the peer asked to stop, if it did.
    pub fn send_stopped(&self, stream_id: u64) -> (error: Option<u64>)
        requires
            self.wf(),
        ensures
            error == (if self@.senders.dom().contains(stream_id) {
                self@.senders[stream_id].stopped
            } else {
                None
            }),
    {
        match self.senders.get(stream_id) {
            Some(sender) => sender.stop_sending_error(),
            None => None,
        }
    }

    /// Opens one of our streams.
    pub fn open_local(
        &mut self,
        one_way: bool,
        params: Option<Params>,
        is_client: bool,
        available: bool,
    ) -> (result: Result<u64, StreamError>)
        requires
            old(self).wf(),
            old(self)@.limits.next_local(one_way, available && params is Some) matches Ok(id)
                ==> old(self)@.senders.dom().contains(id) || old(self).can_send(),
        ensures
            final(self).wf(),
            result == old(self)@.limits.next_local(one_way, available && params is Some),
            match result {
                Ok(stream_id) => {
                    let m = StateModel {
                        limits: old(self)@.limits.local_opened(one_way),
                        ..old(self)@
                    };
                    final(self)@ == m.with_sender(
                        stream_id,
                        if m.senders.dom().contains(stream_id) {
                            m.senders[stream_id]
                        } else {
                            SenderModel::initial(peer_credit(params, is_client, stream_id))
                        },
                    )
                },
                Err(error) => final(self)@ == old(self)@,
            },
    {
        let stream_id: u64 = match self.limits.open_local(one_way, available && params.is_some()) {
            Ok(stream_id) => stream_id,
            Err(error) => {
                return Err(error);
            },
        };
        let ghost m = self@;
        let credit: u64 = peer_initial_credit(params, is_client, stream_id);
        let there = self.senders.ensure(stream_id, credit);
        let ghost after = self@.senders[stream_id];
        assert(self@.senders =~= m.senders.insert(stream_id, after));
        self.update_schedule(stream_id);
        assert(self@.senders =~= m.senders.insert(stream_id, after));
        Ok(stream_id)
    }

    /// Takes a higher limit of the peer for a stream.
    pub fn raise_stream_credit(
        &mut self,
        stream_id: u64,
        maximum: u64,
        params: Option<Params>,
        is_client: bool,
        control: &mut Pending,
    )
        requires
            old(self).wf(),
        ensures
            final(self).wf(),
            ({
                let m = old(self)@;
                let found = m.sender_for(stream_id, is_client, params, old(self).can_send());
                if m.peer_send_retired(stream_id, is_client) || found is None {
                    final(self)@ == m && final(control)@ == old(control)@
                } else {
                    let sender = found->0;
                    let (after, told) = credit_raised(
                        sender,
                        stream_id,
                        maximum,
                        old(control)@,
                    );
                    &&& final(self)@ == m.with_sender(stream_id, after)
                    &&& final(control)@ == told
                }
            }),
    {
        if self.peer_send_retired(stream_id, is_client) {
            return;
        }
        let ghost m = self@;
        if !self.ensure_sender(stream_id, is_client, params) {
            return;
        }
        let credit: u64 = match self.senders.get(stream_id) {
            Some(sender) => sender.credit(),
            None => maximum,
        };
        if maximum > credit {
            control.remove(Subject::StreamDataBlocked { stream_id });
        }
        self.senders.raise_credit(stream_id, maximum);
        let ghost after = self@.senders[stream_id];
        assert(self@.senders =~= m.senders.insert(stream_id, after));
        self.update_schedule(stream_id);
        assert(self@.senders =~= m.senders.insert(stream_id, after));
    }

    /// Tells what a request to stop would take.
    pub fn plan_stop(&self, stream_id: u64, is_client: bool) -> (result: Result<StopImpact, Error>)
        requires
            self.wf(),
        ensures
            result == self@.stop_impact(stream_id, is_client),
    {
        let none = StopImpact { active: false, event_slots: 0, stream_slots: 0 };
        let local = we_initiated(stream_id, is_client);
        if local {
            match self.validate_access(stream_id, Access::Send, is_client) {
                Ok(()) => {},
                Err(error) => {
                    return Err(error);
                },
            }
        } else if is_uni(stream_id) || !self.limits.peer_opens(stream_id) {
            return Err(Error::ProtocolViolation);
        }
        if self.peer_send_retired(stream_id, is_client) {
            return Ok(none);
        }
        match self.senders.get(stream_id) {
            Some(sender) => Ok(
                StopImpact {
                    active: true,
                    event_slots: if sender.stop_event_pending() {
                        0
                    } else {
                        1
                    },
                    stream_slots: 0,
                },
            ),
            None => if !local {
                Ok(StopImpact { active: true, event_slots: 1, stream_slots: 1 })
            } else {
                Ok(none)
            },
        }
    }

    /// Takes note that the peer asked to stop: the stream is reset.
    pub fn ingest_stop(
        &mut self,
        stream_id: u64,
        error_code: u64,
        params: Option<Params>,
        is_client: bool,
        control: &mut Pending,
        events: &mut Vec<Event>,
    )
        requires
            old(self).wf(),
        ensures
            final(self).wf(),
            ({
                let m = old(self)@;
                let found = m.sender_for(stream_id, is_client, params, old(self).can_send());
                if m.peer_send_retired(stream_id, is_client) || found is None {
                    &&& final(self)@ == m
                    &&& final(control)@ == old(control)@
                    &&& final(events)@ == old(events)@
                } else {
                    let sender = found->0;
                    let (after, queued) = stopped(sender, stream_id, error_code, old(control)@);
                    &&& final(control)@ == queued
                    &&& final(self)@ == (StateModel {
                        journal: match sender.delivery_group {
                            Some(group) => m.journal.cancelled(group),
                            None => m.journal,
                        },
                        ..m.with_sender(stream_id, after)
                    })
                    &&& final(events)@ == if sender.stop_event_pending {
                        old(events)@
                    } else {
                        old(events)@.push(Event::Stopped { stream_id, error_code })
                    }
                }
            }),
    {
        if self.peer_send_retired(stream_id, is_client) {
            return;
        }
        let ghost m = self@;
        if !self.ensure_sender(stream_id, is_client, params) {
            return;
        }
        let ghost sender = self@.senders[stream_id];
        let (sent, deferred, group, pending) = match self.senders.get(stream_id) {
            Some(sender) => (
                sender.reset_sent(),
                sender.deferred_reset(),
                sender.delivery_group(),
                sender.stop_event_pending(),
            ),
            None => (true, None, None, true),
        };
        self.senders.set_delivery_group(stream_id, None);
        self.senders.stop(stream_id, error_code);
        self.senders.set_stop_event_pending(stream_id, true);
        control.remove(Subject::StreamDataBlocked { stream_id });
        assert(self@.senders.dom() =~= m.senders.insert(stream_id, sender).dom());
        match deferred {
            Some(error) => {
                self.queue_reset(stream_id, error, control);
            },
            None => {
                if !sent {
                    self.senders.mark_reset_sent(stream_id);
                    assert(self@.senders.dom() =~= m.senders.insert(stream_id, sender).dom());
                    self.queue_reset(stream_id, error_code, control);
                }
            },
        }
        if !pending {
            events.push(Event::Stopped { stream_id, error_code });
        }
        match group {
            Some(group) => {
                self.journal.cancel(group);
            },
            None => {},
        }
        let ghost after = self@.senders[stream_id];
        assert(self@.senders =~= m.senders.insert(stream_id, after));
        self.update_schedule(stream_id);
        assert(self@.senders =~= m.senders.insert(stream_id, after));
    }
}

/// After buffers were written one after the other, and the stream ended if
/// wanted; and whether all of that was possible.
pub open spec fn parts_written(
    sender: SenderModel,
    first: Seq<u8>,
    second: Option<Seq<u8>>,
    fin: bool,
) -> (SenderModel, bool) {
    if sender.blocked() {
        (sender, true)
    } else if !sender.can_write(first.len() as int) {
        (sender, false)
    } else {
        let one = sender.written(first);
        match second {
            Some(bytes) => if !one.can_write(bytes.len() as int) {
                (one, false)
            } else {
                let both = one.written(bytes);
                (
                    if fin {
                        SenderModel { fin: true, ..both }
                    } else {
                        both
                    },
                    true,
                )
            },
            None => (
                if fin {
                    SenderModel { fin: true, ..one }
                } else {
                    one
                },
                true,
            ),
        }
    }
}

/// A reset tells as the final size how far the stream was sent: a receiver that got all of it
/// accepts that and counts nothing more, one that got less never finds it too small, and one
/// to which more came finds it wrong.
pub proof fn law_reset_tells_what_was_sent(
    sender: SenderModel,
    stream_id: u64,
    error_code: u64,
    control: PendingModel,
    limit: u64,
    highest: u64,
    total: u64,
    local_max_data: u64,
)
    requires
        sender.sound(),
        sender.next <= limit,
        total <= local_max_data,
        control.has(Subject::Reset { stream_id }) || control.has_room(),
    ensures
        ({
            let (after, told) = reset_queued(sender, stream_id, error_code, control);
            let size = sender.next as u64;
            &&& told.records.contains(
                Control::ResetStream { stream_id, error_code, final_size: size },
            )
            &&& reset_verdict(limit, size, None, total, local_max_data, size) == Ok::<u64, Error>(
                total,
            )
            &&& highest <= sender.next ==> reset_verdict(
                limit,
                highest,
                None,
                total,
                local_max_data,
                size,
            ) != Err::<u64, Error>(Error::FinalSize)
            &&& highest > sender.next ==> reset_verdict(
                limit,
                highest,
                None,
                total,
                local_max_data,
                size,
            ) == Err::<u64, Error>(Error::FinalSize)
            &&& after.deferred_reset is None
            &&& after.next == sender.next && after.bytes == sender.bytes
        }),
{
    law_latest_record_waits(
        control,
        Control::ResetStream { stream_id, error_code, final_size: sender.next as u64 },
    );
}

/// A reset that finds no room is kept with its error code, and tells the same once there is
/// room.
pub proof fn law_reset_kept_for_later(
    sender: SenderModel,
    stream_id: u64,
    error_code: u64,
    control: PendingModel,
    later: PendingModel,
)
    requires
        sender.sound(),
        !control.has(Subject::Reset { stream_id }),
        !control.has_room(),
        later.has_room(),
    ensures
        ({
            let (after, told) = reset_queued(sender, stream_id, error_code, control);
            &&& told == control
            &&& after.deferred_reset == Some(error_code)
            &&& reset_queued(after, stream_id, after.deferred_reset->0, later).1.records.contains(
                Control::ResetStream { stream_id, error_code, final_size: sender.next as u64 },
            )
        }),
{
    law_latest_record_waits(
        later,
        Control::ResetStream { stream_id, error_code, final_size: sender.next as u64 },
    );
}

/// A stream is reset once: by us, or where the peer asks to stop, with the error code of the
/// one who was first. Nothing is sent on it from then on.
pub proof fn law_reset_once(
    sender: SenderModel,
    stream_id: u64,
    ours_code: u64,
    peer_code: u64,
    control: PendingModel,
)
    requires
        sender.sound(),
        !sender.blocked(),
        sender.deferred_reset is None,
        control.has_room(),
    ensures
        ({
            let (reset, told) = reset_by_us(sender, stream_id, ours_code, control);
            let (stop, answered) = stopped(sender, stream_id, peer_code, control);
            &&& reset.blocked() && stop.blocked()
            &&& reset.reset_sent && stop.reset_sent
            &&& reset.stopped is None && stop.stopped == Some(peer_code)
            &&& stop.stop_event_pending
            &&& told.records.contains(
                Control::ResetStream {
                    stream_id,
                    error_code: ours_code,
                    final_size: sender.next as u64,
                },
            )
            &&& answered.records.contains(
                Control::ResetStream {
                    stream_id,
                    error_code: peer_code,
                    final_size: sender.next as u64,
                },
            )
            &&& reset_by_us(reset, stream_id, peer_code, told) == (reset, told)
            &&& reset_by_us(stop, stream_id, ours_code, answered) == (stop, answered)
            &&& stopped(reset, stream_id, peer_code, told).1 == told.without(
                Subject::StreamDataBlocked { stream_id },
            )
            &&& reset.next == sender.next && stop.next == sender.next
        }),
{
    let cleared = control.without(Subject::StreamDataBlocked { stream_id });
    law_has(control, Subject::StreamDataBlocked { stream_id });
    law_latest_record_waits(
        cleared,
        Control::ResetStream {
            stream_id,
            error_code: ours_code,
            final_size: sender.next as u64,
        },
    );
    law_latest_record_waits(
        cleared,
        Control::ResetStream {
            stream_id,
            error_code: peer_code,
            final_size: sender.next as u64,
        },
    );
}

} // verus!
