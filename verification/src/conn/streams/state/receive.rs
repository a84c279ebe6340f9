//! What arrives on streams, and what is read.
use vstd::prelude::*;

use crate::conn::control::{Control, Pending, Subject};
use crate::conn::recv::ReceiverModel;
use crate::conn::streams::limits::{check_reset, is_uni, we_initiated, Error};
use crate::conn::streams::state::{
    activate, cancel_readable, deactivate, lemma_with_turn, lemma_without_turn, push_reset,
    with_reset, without_readable, Event, State,
};

verus! {

broadcast use vstd::std_specs::hash::group_hash_axioms;

impl State {
    /// Notes that the receiving side of a stream came to an end.
    pub fn finish_recv_retirement(
        &mut self,
        stream_id: u64,
        is_client: bool,
        control: &mut Pending,
    )
        requires
            old(self).wf(),
        ensures
            final(self).wf(),
            final(self).range_room() + final(self)@.ranges_held(stream_id) == old(
                self,
            ).range_room() + old(self)@.ranges_held(stream_id),
            (final(self)@, final(control)@) == old(self)@.recv_finished(
                stream_id,
                is_client,
                old(control)@,
            ),
    {
        let closed = self.send_side_closed(stream_id, is_client);
        if self.recv_retired.contains(&stream_id) {
            return;
        }
        self.recv_retired.insert(stream_id);
        let one_way = is_uni(stream_id);
        let local = we_initiated(stream_id, is_client);
        if !local && (one_way || closed) {
            self.limits.release_peer_receive_credit(one_way, control);
        } else if local && !one_way && closed {
            self.limits.release_local_capacity(false);
        }
    }

    /// Removes the receiving side of a stream, and what waits to be sent for it.
    fn drop_receiver(&mut self, stream_id: u64, control: &mut Pending)
        requires
            old(self).wf(),
        ensures
            final(self).wf(),
            final(self).range_room() + final(self)@.ranges_held(stream_id) == old(
                self,
            ).range_room() + old(self)@.ranges_held(stream_id),
            final(self)@ == old(self)@.without_receiver(stream_id),
            final(control)@ == old(control)@.without(Subject::StreamData { stream_id }).without(
                Subject::Stop { stream_id },
            ),
    {
        control.remove(Subject::StreamData { stream_id });
        control.remove(Subject::Stop { stream_id });
        proof {
            lemma_without_turn(self.control_schedule@, stream_id);
        }
        self.receivers.remove(stream_id);
        deactivate(&mut self.control_schedule, stream_id);
    }

    /// Takes note that the peer reset a stream.
    pub fn ingest_reset(
        &mut self,
        stream_id: u64,
        error_code: u64,
        final_size: u64,
        is_client: bool,
        control: &mut Pending,
        events: &mut Vec<Event>,
    ) -> (result: Result<(), Error>)
        requires
            old(self).wf(),
        ensures
            final(self).wf(),
            final(self).range_room() + final(self)@.ranges_held(stream_id) == old(
                self,
            ).range_room() + old(self)@.ranges_held(stream_id),
            ({
                let m = old(self)@;
                let verdict = m.reset_verdict(stream_id, is_client, final_size);
                if m.recv_retired.contains(stream_id) {
                    &&& result is Ok
                    &&& final(self)@ == m
                    &&& final(control)@ == old(control)@
                    &&& final(events)@ == old(events)@
                } else if verdict is Err {
                    &&& result == Err::<(), Error>(verdict->Err_0)
                    &&& final(self)@ == m
                    &&& final(control)@ == old(control)@
                    &&& final(events)@ == old(events)@
                } else {
                    &&& result is Ok
                    &&& (final(self)@, final(control)@) == m.recv_reset(
                        stream_id,
                        is_client,
                        verdict->Ok_0,
                        old(control)@,
                    )
                    &&& final(events)@ == with_reset(old(events)@, stream_id, error_code)
                }
            }),
    {
        if self.receive_side_closed(stream_id) {
            return Ok(());
        }
        let (limit, highest, known, present) = self.receiver_limits(stream_id, is_client);
        let total: u64 = match check_reset(
            limit,
            highest,
            known,
            self.limits.total,
            self.limits.local_max_data,
            final_size,
        ) {
            Ok(total) => total,
            Err(error) => {
                return Err(error);
            },
        };
        push_reset(events, stream_id, error_code);
        self.limits.total = total;
        if present {
            self.drop_receiver(stream_id, control);
        }
        self.finish_recv_retirement(stream_id, is_client, control);
        Ok(())
    }

    /// Ends the receiving side of a stream.
    pub fn retire_recv(
        &mut self,
        events: &mut Vec<Event>,
        stream_id: u64,
        is_client: bool,
        control: &mut Pending,
    )
        requires
            old(self).wf(),
        ensures
            final(self).wf(),
            final(self).range_room() + final(self)@.ranges_held(stream_id) == old(
                self,
            ).range_room() + old(self)@.ranges_held(stream_id),
            (final(self)@, final(control)@) == old(self)@.recv_ended(
                stream_id,
                is_client,
                old(control)@,
            ),
            final(events)@ == if !old(self)@.recv_retired.contains(stream_id) && old(
                self,
            )@.receivers.dom().contains(stream_id) {
                without_readable(old(events)@, stream_id)
            } else {
                old(events)@
            },
    {
        if self.receive_side_closed(stream_id) {
            return;
        }
        if self.receivers.get(stream_id).is_some() {
            self.drop_receiver(stream_id, control);
            cancel_readable(events, stream_id);
        }
        self.finish_recv_retirement(stream_id, is_client, control);
    }

    /// Ends the sending side of a stream.
    pub fn retire_send(
        &mut self,
        events: &mut Vec<Event>,
        stream_id: u64,
        is_client: bool,
        control: &mut Pending,
    )
        requires
            old(self).wf(),
        ensures
            final(self).wf(),
            final(self).range_room() + final(self)@.ranges_held(stream_id) == old(
                self,
            ).range_room() + old(self)@.ranges_held(stream_id),
            ({
                let m = old(self)@;
                let (ended, cleared) = m.send_ended(stream_id, is_client, old(control)@);
                let eof = m.receivers.dom().contains(stream_id) && m.receivers[stream_id].is_eof();
                if !m.senders.dom().contains(stream_id) {
                    &&& final(self)@ == m
                    &&& final(control)@ == old(control)@
                    &&& final(events)@ == old(events)@
                } else if !eof {
                    &&& (final(self)@, final(control)@) == (ended, cleared)
                    &&& final(events)@ == old(events)@
                } else {
                    &&& (final(self)@, final(control)@) == ended.recv_ended(
                        stream_id,
                        is_client,
                        cleared,
                    )
                    &&& final(events)@ == if m.recv_retired.contains(stream_id) {
                        old(events)@
                    } else {
                        without_readable(old(events)@, stream_id)
                    }
                }
            }),
    {
        let group = match self.senders.get(stream_id) {
            Some(sender) => sender.delivery_group(),
            None => {
                return;
            },
        };
        let ghost m = self@;
        control.remove(Subject::Reset { stream_id });
        control.remove(Subject::StreamDataBlocked { stream_id });
        match group {
            Some(group) => {
                self.journal.cancel(group);
            },
            None => {},
        }
        proof {
            lemma_without_turn(self.send_schedule@, stream_id);
        }
        self.senders.remove(stream_id);
        deactivate(&mut self.send_schedule, stream_id);
        let one_way = is_uni(stream_id);
        let closed = self.receive_side_closed(stream_id);
        if we_initiated(stream_id, is_client) {
            if one_way || closed {
                self.limits.release_local_capacity(one_way);
            }
        } else if !one_way {
            self.send_retired.insert(stream_id);
            if closed {
                self.limits.release_peer_receive_credit(false, control);
            }
        }
        assert(self@ == m.send_ended(stream_id, is_client, old(control)@).0);
        let eof = match self.receivers.get(stream_id) {
            Some(receiver) => receiver.is_eof(),
            None => false,
        };
        if eof {
            self.retire_recv(events, stream_id, is_client, control);
        }
    }

    /// Hands out what can be read on a stream.
    pub fn read(
        &mut self,
        stream_id: u64,
        destination: &mut Vec<u8>,
        is_client: bool,
        control: &mut Pending,
        events: &mut Vec<Event>,
    ) -> (count: usize)
        requires
            old(self).wf(),
        ensures
            final(self).wf(),
            final(self).range_room() + final(self)@.ranges_held(stream_id) == old(
                self,
            ).range_room() + old(self)@.ranges_held(stream_id),
            ({
                let m = old(self)@;
                if !m.receivers.dom().contains(stream_id) {
                    &&& count == 0
                    &&& final(self)@ == m
                    &&& final(control)@ == old(control)@
                    &&& final(events)@ == old(events)@
                    &&& final(destination)@ == old(destination)@
                } else {
                    let receiver = m.receivers[stream_id];
                    let empty = ReceiverModel { ready: Seq::empty(), ..receiver };
                    &&& count == receiver.ready.len()
                    &&& final(destination)@ == old(destination)@ + receiver.ready
                    &&& (final(self)@, final(control)@) == m.recv_read(
                        stream_id,
                        is_client,
                        old(control)@,
                    )
                    &&& final(events)@ == if empty.is_eof() {
                        without_readable(old(events)@, stream_id)
                    } else {
                        old(events)@
                    }
                }
            }),
    {
        if self.receivers.get(stream_id).is_none() {
            return 0;
        }
        let ghost m = self@;
        let ghost receiver = m.receivers[stream_id];
        let count: usize = self.receivers.read(stream_id, destination);
        let released: u64 = count as u64;
        assert(self@.receivers.dom() =~= m.receivers.dom());
        let ghost empty = self@.receivers[stream_id];
        assert(empty == (ReceiverModel { ready: Seq::empty(), ..receiver }));
        let eof = match self.receivers.get(stream_id) {
            Some(receiver) => receiver.is_eof(),
            None => false,
        };
        if eof {
            self.drop_receiver(stream_id, control);
            cancel_readable(events, stream_id);
            assert(self@.receivers =~= m.receivers.remove(stream_id));
        } else if released != 0 {
            let limit: u64 = self.receivers.release_credit(stream_id, released);
            if control.has(Subject::StreamData { stream_id }) {
                control.queue(Control::MaxStreamData { stream_id, limit });
            } else {
                self.receivers.set_credit_dirty(stream_id, true);
                proof {
                    lemma_with_turn(self.control_schedule@, stream_id);
                }
                activate(&mut self.control_schedule, stream_id);
            }
            proof {
                assert(self@.receivers =~= m.receivers.insert(
                    stream_id,
                    self@.receivers[stream_id],
                ));
            }
        }
        if released != 0 {
            self.limits.release_connection_receive_credit(released, control);
        }
        if eof {
            self.finish_recv_retirement(stream_id, is_client, control);
        }
        assert(self@.receivers =~= m.recv_read(stream_id, is_client, old(control)@).0.receivers);
        count
    }

    /// What can be read on a stream, if there is anything.
    pub fn read_owned(
        &mut self,
        stream_id: u64,
        is_client: bool,
        control: &mut Pending,
        events: &mut Vec<Event>,
    ) -> (bytes: Option<Vec<u8>>)
        requires
            old(self).wf(),
        ensures
            final(self).wf(),
            final(self).range_room() + final(self)@.ranges_held(stream_id) == old(
                self,
            ).range_room() + old(self)@.ranges_held(stream_id),
            ({
                let m = old(self)@;
                if !m.receivers.dom().contains(stream_id) {
                    &&& bytes is None
                    &&& final(self)@ == m
                    &&& final(control)@ == old(control)@
                    &&& final(events)@ == old(events)@
                } else {
                    let receiver = m.receivers[stream_id];
                    let empty = ReceiverModel { ready: Seq::empty(), ..receiver };
                    &&& match bytes {
                        Some(bytes) => bytes@.len() > 0 && bytes@ == receiver.ready,
                        None => receiver.ready.len() == 0,
                    }
                    &&& (final(self)@, final(control)@) == m.recv_read(
                        stream_id,
                        is_client,
                        old(control)@,
                    )
                    &&& final(events)@ == if empty.is_eof() {
                        without_readable(old(events)@, stream_id)
                    } else {
                        old(events)@
                    }
                }
            }),
    {
        let mut bytes: Vec<u8> = Vec::new();
        let count: usize = self.read(stream_id, &mut bytes, is_client, control, events);
        if count == 0 {
            return None;
        }
        assert(bytes@ =~= old(self)@.receivers[stream_id].ready);
        Some(bytes)
    }

    /// Whether everything of a stream was read.
    pub fn recv_eof(&self, stream_id: u64) -> (eof: bool)
        requires
            self.wf(),
        ensures
            eof == ((self@.receivers.dom().contains(stream_id)
                && self@.receivers[stream_id].is_eof()) || self@.recv_retired.contains(stream_id)),
    {
        let eof = match self.receivers.get(stream_id) {
            Some(receiver) => receiver.is_eof(),
            None => false,
        };
        eof || self.receive_side_closed(stream_id)
    }

    /// Whether it is known where a stream ends.
    pub fn recv_fin_received(&self, stream_id: u64) -> (received: bool)
        requires
            self.wf(),
        ensures
            received == ((self@.receivers.dom().contains(stream_id)
                && self@.receivers[stream_id].final_size is Some) || self@.recv_retired.contains(
                stream_id,
            )),
    {
        let received = match self.receivers.get(stream_id) {
            Some(receiver) => receiver.final_size().is_some(),
            None => false,
        };
        received || self.receive_side_closed(stream_id)
    }
}

} // verus!
