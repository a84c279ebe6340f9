//! What is noted when a packet was sent.
use vstd::prelude::*;

use crate::clock::{Duration, Instant};
use crate::conn::control::{about, Control};
use crate::conn::stream_journal::model::SendHandle;
use crate::conn::transmit::builder::{Commit, CommitModel};
use crate::conn::transmit::connection::{
    ConnModel, Connection, Egress, EgressModel, PathModel,
};
use crate::conn::transmit::crypto::Epoch;
use crate::conn::transmit::draft::Delivery;
use crate::conn::transmit::packets::PacketMeta;
use crate::conn::transmit::path::{cid_place, LocalCid};
use crate::math::capped;
use crate::pacer::pacing_interval;
use crate::pmtud::SearchModel;
use crate::pn_space::{PnSpace, ReceiveModel};
use crate::rtt::INITIAL_RTT;

verus! {

/// The state of a pacer after a packet was sent.
#[verifier::opaque]
pub open spec fn paced(
    release: Instant,
    burst: nat,
    bytes: u64,
    now: Instant,
    cwnd: u64,
    srtt: Duration,
) -> (Instant, nat) {
    if burst > 0 {
        (now, (burst - 1) as nat)
    } else if now + pacing_interval(bytes, cwnd, srtt) <= u64::MAX {
        ((now + pacing_interval(bytes, cwnd, srtt)) as u64, 0)
    } else {
        (now, 0)
    }
}

impl CommitModel {
    /// Whether a packet is noted.
    pub open spec fn noted(self) -> bool {
        self.in_flight || self.controls.len() > 0 || self.streams.len() > 0 || self.early_data
            || self.crypto is Some || self.pmtud_probe is Some
    }
}

/// The path after a control record was sent.
pub open spec fn path_after(path: PathModel, record: Control) -> PathModel {
    match record {
        Control::NewConnectionId { sequence_number } => {
            let at = cid_place(path.local_cids, sequence_number);
            if at < path.local_cids.len() {
                PathModel {
                    local_cids: path.local_cids.update(
                        at,
                        LocalCid { sent: true, ..path.local_cids[at] },
                    ),
                    ..path
                }
            } else {
                path
            }
        },
        Control::PathChallenge { data } => PathModel { challenge: Some(data), ..path },
        _ => path,
    }
}

impl EgressModel {
    /// After the congestion window and the pacer took note of a packet.
    pub open spec fn paced(self, bytes: u64, in_flight: bool, now: Instant) -> EgressModel {
        let cc = self.cc.sent(bytes, in_flight);
        let srtt = match self.rtt.smoothed_rtt {
            Some(srtt) => srtt,
            None => INITIAL_RTT,
        };
        let (release, burst) = if in_flight {
            paced(self.release, self.burst, bytes, now, cc.cwnd, srtt)
        } else {
            (self.release, self.burst)
        };
        EgressModel { cc, release, burst, ..self }
    }

    /// After a packet was counted that asks for an acknowledgement.
    pub open spec fn counted(self, commit: CommitModel, now: Instant) -> EgressModel {
        let space = self.spaces.of(commit.epoch);
        if commit.noted() && commit.ack_eliciting {
            EgressModel {
                spaces: self.spaces.with(
                    commit.epoch,
                    PnSpace {
                        time_of_last_ack_eliciting: Some(now),
                        ack_eliciting_in_flight: if space.ack_eliciting_in_flight < usize::MAX {
                            (space.ack_eliciting_in_flight + 1) as usize
                        } else {
                            usize::MAX
                        },
                        ..space
                    },
                ),
                ..self
            }
        } else {
            self
        }
    }

    /// After a datagram left.
    pub open spec fn popped(self, datagram: bool) -> EgressModel {
        if datagram && self.datagrams.len() > 0 {
            EgressModel {
                datagrams: self.datagrams.subrange(1, self.datagrams.len() as int),
                ..self
            }
        } else {
            self
        }
    }

    /// After bytes went to the peer.
    pub open spec fn amplified(self, bytes: u64) -> EgressModel {
        EgressModel { amplification_sent: capped(self.amplification_sent + bytes), ..self }
    }

    /// After a packet was sent to learn how long packets can be, or whether the
    /// peer is there.
    pub open spec fn probing(self, commit: CommitModel) -> EgressModel {
        let allowance = if commit.pto_probe && self.pto_probe_allowance > 0 {
            (self.pto_probe_allowance - 1) as u32
        } else {
            self.pto_probe_allowance
        };
        EgressModel {
            pmtud: match commit.pmtud_probe {
                Some(size) => SearchModel { in_flight: Some(size), ..self.pmtud },
                None => self.pmtud,
            },
            pmtud_probe_pn: if commit.pmtud_probe is Some {
                Some(commit.pn)
            } else {
                self.pmtud_probe_pn
            },
            pto_probe_allowance: allowance,
            pto_probe_epoch: if commit.pto_probe && allowance == 0 {
                None
            } else {
                self.pto_probe_epoch
            },
            ..self
        }
    }

    /// After the first packet since something arrived that asks for an
    /// acknowledgement.
    pub open spec fn active(self, ack_eliciting: bool, now: Instant) -> EgressModel {
        if ack_eliciting && !self.ack_eliciting_sent_since_last_receive {
            EgressModel {
                last_activity: now,
                ack_eliciting_sent_since_last_receive: true,
                ..self
            }
        } else {
            self
        }
    }

    /// After a packet that closes the connection.
    pub open spec fn closing(self, close: bool) -> EgressModel {
        if close {
            EgressModel { pending_close: None, closed: true, ..self }
        } else {
            self
        }
    }

    /// After a packet went out: what it means to the timers, the limits on what
    /// may go to the peer, the congestion window and the pacer.
    #[verifier::opaque]
    pub open spec fn went_out(self, commit: CommitModel, now: Instant) -> EgressModel {
        let bytes = commit.bytes as u64;
        self.counted(commit, now).popped(commit.datagram).amplified(bytes).paced(
            bytes,
            commit.in_flight,
            now,
        ).probing(commit).active(commit.ack_eliciting, now).closing(commit.close)
    }
}

impl ConnModel {
    /// The connection, closed.
    pub open spec fn shut(self) -> ConnModel {
        ConnModel { egress: EgressModel { closed: true, ..self.egress }, ..self }
    }

    /// After the number of a packet was used, and an acknowledgement sent.
    pub open spec fn numbered(self, epoch: Epoch, pn: u64, ack_included: bool) -> ConnModel {
        ConnModel {
            received: if ack_included {
                self.received.with(
                    epoch,
                    ReceiveModel { ack_pending: false, ..self.received.of(epoch) },
                )
            } else {
                self.received
            },
            egress: EgressModel {
                spaces: self.egress.spaces.with(
                    epoch,
                    PnSpace { next_pn: capped(pn + 1), ..self.egress.spaces.of(epoch) },
                ),
                ..self.egress
            },
            ..self
        }
    }

    /// After handshake bytes and the packet itself were noted, and whether they
    /// could be.
    #[verifier::opaque]
    pub open spec fn packet_noted(self, commit: CommitModel, now: Instant) -> (ConnModel, bool) {
        let crypto = self.crypto.of(commit.epoch);
        if commit.crypto is Some && !crypto.commits(commit.crypto->0) {
            (self, false)
        } else {
            let with_crypto = match commit.crypto {
                Some(delivery) => ConnModel {
                    crypto: self.crypto.with(commit.epoch, crypto.committed(delivery)),
                    ..self
                },
                None => self,
            };
            if !commit.noted() {
                (with_crypto, true)
            } else if !self.egress.packets.has_room(1) {
                (with_crypto, false)
            } else {
                let meta = PacketMeta {
                    epoch: commit.epoch,
                    pn: commit.pn,
                    sent_time: now,
                    bytes: commit.bytes as usize,
                    early_data: commit.early_data,
                    ack_eliciting: commit.ack_eliciting,
                    in_flight: commit.in_flight,
                    crypto: match commit.crypto {
                        Some(delivery) => Some(
                            match delivery.known {
                                Some(at) => at,
                                None => crypto.records.len() as usize,
                            },
                        ),
                        None => None,
                    },
                };
                (
                    ConnModel {
                        egress: EgressModel {
                            packets: self.egress.packets.inserted(meta),
                            ..self.egress
                        },
                        ..with_crypto
                    },
                    true,
                )
            }
        }
    }

    /// After the pieces of streams, from a place on, were noted, and whether they
    /// could be.
    pub open spec fn streams_noted(
        self,
        streams: Seq<Delivery>,
        names: spec_fn(SendHandle) -> Option<u64>,
        at: int,
    ) -> (ConnModel, bool)
        decreases streams.len() - at,
    {
        if at >= streams.len() {
            (self, true)
        } else {
            let (state, handle) = self.streams.delivered(streams[at], names);
            let sent = ConnModel { streams: state, ..self };
            if handle is None {
                (sent, false)
            } else if self.egress.packets.packets.len() == 0 || self.egress.packets.stream_room
                <= 0 {
                (sent, false)
            } else {
                ConnModel {
                    egress: EgressModel {
                        packets: self.egress.packets.with_stream(handle->0),
                        ..self.egress
                    },
                    ..sent
                }.streams_noted(streams, names, at + 1)
            }
        }
    }

    /// After a control record was noted, and whether it could be. What was sent
    /// does not wait any more.
    pub open spec fn control_noted(self, record: Control, again: bool) -> (ConnModel, bool) {
        let sent = ConnModel {
            control: if again {
                self.control
            } else {
                self.control.without(about(record))
            },
            path: path_after(self.path, record),
            ..self
        };
        if self.egress.packets.packets.len() == 0 || self.egress.packets.control_room <= 0 {
            (sent, false)
        } else {
            (
                ConnModel {
                    egress: EgressModel {
                        packets: self.egress.packets.with_control(record),
                        ..self.egress
                    },
                    ..sent
                },
                true,
            )
        }
    }

    /// After the control records, from a place on, were noted, and whether they
    /// could be.
    pub open spec fn controls_noted(
        self,
        controls: Seq<Control>,
        again: bool,
        at: int,
    ) -> (ConnModel, bool)
        decreases controls.len() - at,
    {
        if at >= controls.len() {
            (self, true)
        } else {
            let (next, noted) = self.control_noted(controls[at], again);
            if noted {
                next.controls_noted(controls, again, at + 1)
            } else {
                (next, false)
            }
        }
    }

    /// After a packet was sent, and whether it could be noted. Where it could not,
    /// the connection is closed.
    pub open spec fn sent(
        self,
        commit: CommitModel,
        names: spec_fn(SendHandle) -> Option<u64>,
        now: Instant,
    ) -> (ConnModel, bool) {
        let numbered = self.numbered(commit.epoch, commit.pn, commit.ack_included);
        let (noted, one) = numbered.packet_noted(commit, now);
        let (carried, two) = noted.streams_noted(commit.streams, names, 0);
        let (told, three) = carried.controls_noted(commit.controls, commit.pto_probe, 0);
        if !one {
            (noted.shut(), false)
        } else if !two {
            (carried.shut(), false)
        } else if !three {
            (told.shut(), false)
        } else {
            (ConnModel { egress: told.egress.went_out(commit, now), ..told }, true)
        }
    }

    /// After a packet with a datagram that is not in flight was sent.
    pub open spec fn datagram_sent(self, commit: CommitModel, now: Instant) -> ConnModel {
        let numbered = self.numbered(Epoch::Application, commit.pn, commit.ack_included);
        ConnModel {
            egress: numbered.egress.popped(commit.datagram).amplified(commit.bytes as u64).active(
                commit.datagram,
                now,
            ),
            ..numbered
        }
    }
}

impl Egress {
    fn pop_datagram(&mut self, datagram: bool)
        ensures
            final(self)@ == old(self)@.popped(datagram),
    {
        let ghost m = self@;
        assert(m.datagrams.len() == self.pending_datagrams@.len());
        if datagram && self.pending_datagrams.len() > 0 {
            self.pending_datagrams.remove(0);
            assert(self@.datagrams =~= m.datagrams.subrange(1, m.datagrams.len() as int));
        }
    }

    fn count(&mut self, commit: &Commit, now: Instant)
        ensures
            final(self)@ == old(self)@.counted(commit@, now),
    {
        let noted = commit.in_flight || commit.controls.len() > 0 || commit.streams.len() > 0
            || commit.early_data || commit.crypto.is_some() || commit.pmtud_probe.is_some();
        if noted && commit.ack_eliciting {
            let space = self.spaces.get_mut(commit.epoch);
            space.time_of_last_ack_eliciting = Some(now);
            space.ack_eliciting_in_flight = space.ack_eliciting_in_flight.saturating_add(1);
        }
    }

    fn amplify(&mut self, bytes: u64)
        ensures
            final(self)@ == old(self)@.amplified(bytes),
    {
        self.amplification_sent = self.amplification_sent.saturating_add(bytes);
    }

    fn probe(&mut self, commit: &Commit)
        ensures
            final(self)@ == old(self)@.probing(commit@),
    {
        match commit.pmtud_probe {
            Some(size) => {
                self.pmtud.arm_probe(size);
                self.pmtud_probe_pn = Some(commit.pn);
            },
            None => {},
        }
        if commit.pto_probe {
            self.pto_probe_allowance = self.pto_probe_allowance.saturating_sub(1);
            if self.pto_probe_allowance == 0 {
                self.pto_probe_epoch = None;
            }
        }
    }

    fn note_activity(&mut self, ack_eliciting: bool, now: Instant)
        ensures
            final(self)@ == old(self)@.active(ack_eliciting, now),
    {
        if ack_eliciting && !self.ack_eliciting_sent_since_last_receive {
            self.last_activity = now;
            self.ack_eliciting_sent_since_last_receive = true;
        }
    }

    fn note_close(&mut self, close: bool)
        ensures
            final(self)@ == old(self)@.closing(close),
    {
        if close {
            self.pending_close = None;
            self.closed = true;
        }
    }

    /// Notes in the congestion window and the pacer that a packet was sent.
    fn pace(&mut self, bytes: u64, in_flight: bool, now: Instant)
        ensures
            final(self)@ == old(self)@.paced(bytes, in_flight, now),
    {
        reveal(paced);
        self.cc.on_packet_sent(bytes, in_flight);
        if in_flight {
            let smoothed: Duration = match self.rtt.smoothed_rtt {
                Some(smoothed) => smoothed,
                None => INITIAL_RTT,
            };
            self.pacer.packet_sent(bytes, now, self.cc.cwnd, smoothed);
        }
    }

    /// Notes that a packet went out.
    fn go_out(&mut self, commit: &Commit, now: Instant)
        ensures
            final(self)@ == old(self)@.went_out(commit@, now),
            final(self).pmtud@.current == old(self).pmtud@.current,
            final(self).pmtud@.upper_bound == old(self).pmtud@.upper_bound,
    {
        reveal(EgressModel::went_out);
        let bytes: u64 = commit.bytes as u64;
        self.count(commit, now);
        self.pop_datagram(commit.datagram);
        self.amplify(bytes);
        self.pace(bytes, commit.in_flight, now);
        self.probe(commit);
        self.note_activity(commit.ack_eliciting, now);
        self.note_close(commit.close);
    }
}

impl Connection {
    /// Notes that the number of a packet was used, and an acknowledgement sent.
    fn use_number(&mut self, epoch: Epoch, pn: u64, ack_included: bool)
        requires
            old(self).wf(),
        ensures
            final(self).wf(),
            final(self).streams == old(self).streams,
            final(self)@ == old(self)@.numbered(epoch, pn, ack_included),
    {
        let ghost m = self@;
        let space = self.egress.spaces.get_mut(epoch);
        space.next_pn = pn.saturating_add(1);
        if ack_included {
            match epoch {
                Epoch::Initial => {
                    self.received.initial.ack_sent();
                },
                Epoch::Handshake => {
                    self.received.handshake.ack_sent();
                },
                Epoch::Application => {
                    self.received.application.ack_sent();
                },
            }
        }
        assert(self@.egress.spaces == m.numbered(epoch, pn, ack_included).egress.spaces);
        assert(self@.egress =~= m.numbered(epoch, pn, ack_included).egress);
        assert(self@.received == m.numbered(epoch, pn, ack_included).received);
    }

    /// Notes handshake bytes that were sent.
    fn commit_crypto(&mut self, commit: &Commit) -> (result: Result<Option<usize>, ()>)
        requires
            old(self).wf(),
        ensures
            final(self).wf(),
            final(self).streams == old(self).streams,
            ({
                let crypto = old(self)@.crypto.of(commit.epoch);
                match commit.crypto {
                    Some(delivery) => if crypto.commits(delivery) {
                        &&& result == Ok::<Option<usize>, ()>(
                            Some(
                                match delivery.known {
                                    Some(at) => at,
                                    None => crypto.records.len() as usize,
                                },
                            ),
                        )
                        &&& final(self)@ == (ConnModel {
                            crypto: old(self)@.crypto.with(
                                commit.epoch,
                                crypto.committed(delivery),
                            ),
                            ..old(self)@
                        })
                    } else {
                        result is Err && final(self)@ == old(self)@
                    },
                    None => result == Ok::<Option<usize>, ()>(None) && final(self)@ == old(self)@,
                }
            }),
    {
        match commit.crypto {
            Some(delivery) => {
                let ghost m = self@;
                let committed = match commit.epoch {
                    Epoch::Initial => self.crypto.initial.commit(delivery),
                    Epoch::Handshake => self.crypto.handshake.commit(delivery),
                    Epoch::Application => self.crypto.application.commit(delivery),
                };
                match committed {
                    Some(at) => {
                        assert(self@.crypto == m.crypto.with(
                            commit.epoch,
                            m.crypto.of(commit.epoch).committed(delivery),
                        ));
                        Ok(Some(at))
                    },
                    None => {
                        assert(self@.crypto == m.crypto);
                        Err(())
                    },
                }
            },
            None => Ok(None),
        }
    }

    #[verifier::rlimit(40)]
    fn note_packet(&mut self, commit: &Commit, now: Instant) -> (noted: bool)
        requires
            old(self).wf(),
        ensures
            final(self).wf(),
            final(self).streams == old(self).streams,
            (final(self)@, noted) == old(self)@.packet_noted(commit@, now),
    {
        reveal(ConnModel::packet_noted);
        let crypto = match self.commit_crypto(commit) {
            Ok(crypto) => crypto,
            Err(error) => {
                return false;
            },
        };
        let ghost m = self@;
        if commit.in_flight || commit.controls.len() > 0 || commit.streams.len() > 0
            || commit.early_data || commit.crypto.is_some() || commit.pmtud_probe.is_some() {
            let meta = PacketMeta {
                epoch: commit.epoch,
                pn: commit.pn,
                sent_time: now,
                bytes: commit.bytes,
                early_data: commit.early_data,
                ack_eliciting: commit.ack_eliciting,
                in_flight: commit.in_flight,
                crypto,
            };
            let noted = self.egress.packets.insert(meta);
            assert(self@.egress =~= (EgressModel { packets: self@.egress.packets, ..m.egress }));
            noted
        } else {
            true
        }
    }

    fn note_streams(&mut self, streams: &Vec<Delivery>) -> (noted: bool)
        requires
            old(self).wf(),
        ensures
            final(self).wf(),
            final(self).streams.names() == old(self).streams.names(),
            (final(self)@, noted) == old(self)@.streams_noted(
                streams@,
                old(self).streams.names(),
                0,
            ),
    {
        let ghost names = self.streams.names();
        let ghost whole = self@.streams_noted(streams@, names, 0);
        let mut at: usize = 0;
        while at < streams.len()
            invariant
                self.wf(),
                at <= streams@.len(),
                names == self.streams.names(),
                names == old(self).streams.names(),
                whole == old(self)@.streams_noted(streams@, names, 0),
                self@.streams_noted(streams@, names, at as int) == whole,
            decreases streams@.len() - at,
        {
            let ghost m = self@;
            let handle = match self.streams.commit_delivery(streams[at]) {
                Some(handle) => handle,
                None => {
                    return false;
                },
            };
            if !self.egress.packets.push_stream(handle) {
                assert(self@.egress =~= m.egress);
                return false;
            }
            assert(self@.egress =~= (EgressModel {
                packets: m.egress.packets.with_stream(handle),
                ..m.egress
            }));
            at = at + 1;
        }
        true
    }

    fn note_control(&mut self, record: Control, again: bool) -> (noted: bool)
        requires
            old(self).wf(),
        ensures
            final(self).wf(),
            final(self).streams == old(self).streams,
            (final(self)@, noted) == old(self)@.control_noted(record, again),
    {
        let ghost m = self@;
        if !again {
            self.control.remove(record.subject());
        }
        match record {
            Control::NewConnectionId { sequence_number } => {
                self.path.local_cid_sent(sequence_number);
            },
            Control::PathChallenge { data } => {
                self.path.challenge_sent(data);
            },
            _ => {},
        }
        assert(self@.path =~= path_after(m.path, record));
        let noted = self.egress.packets.push_control(record);
        assert(self@.egress =~= (EgressModel { packets: self@.egress.packets, ..m.egress }));
        noted
    }

    fn note_controls(&mut self, controls: &Vec<Control>, again: bool) -> (noted: bool)
        requires
            old(self).wf(),
        ensures
            final(self).wf(),
            final(self).streams == old(self).streams,
            (final(self)@, noted) == old(self)@.controls_noted(controls@, again, 0),
    {
        let ghost whole = self@.controls_noted(controls@, again, 0);
        let mut at: usize = 0;
        while at < controls.len()
            invariant
                self.wf(),
                self.streams == old(self).streams,
                at <= controls@.len(),
                whole == old(self)@.controls_noted(controls@, again, 0),
                self@.controls_noted(controls@, again, at as int) == whole,
            decreases controls@.len() - at,
        {
            if !self.note_control(controls[at], again) {
                return false;
            }
            at = at + 1;
        }
        true
    }

    fn shut_down(&mut self)
        requires
            old(self).wf(),
        ensures
            final(self).wf(),
            final(self).streams == old(self).streams,
            final(self)@ == old(self)@.shut(),
    {
        self.egress.closed = true;
    }

    /// Notes that a packet was sent. Where that is not possible, the connection is
    /// closed.
    pub fn commit_packet(&mut self, commit: &Commit, now: Instant) -> (noted: bool)
        requires
            old(self).wf(),
        ensures
            final(self).wf(),
            final(self).streams.names() == old(self).streams.names(),
            (final(self)@, noted) == old(self)@.sent(commit@, old(self).streams.names(), now),
    {
        let ghost m = self@;
        let ghost names = self.streams.names();
        let ghost c = commit@;
        self.use_number(commit.epoch, commit.pn, commit.ack_included);
        let ghost numbered = m.numbered(c.epoch, c.pn, c.ack_included);
        if !self.note_packet(commit, now) {
            self.shut_down();
            return false;
        }
        let ghost noted = numbered.packet_noted(c, now).0;
        if !self.note_streams(&commit.streams) {
            self.shut_down();
            return false;
        }
        let ghost carried = noted.streams_noted(c.streams, names, 0).0;
        if !self.note_controls(&commit.controls, commit.pto_probe) {
            self.shut_down();
            return false;
        }
        let ghost told = carried.controls_noted(c.controls, c.pto_probe, 0).0;
        assert(self@ == told);
        self.egress.go_out(commit, now);
        assert(self@ == (ConnModel { egress: told.egress.went_out(c, now), ..told }));
        true
    }

    /// Notes that a packet with a datagram was sent.
    pub fn commit_datagram(&mut self, commit: &Commit, now: Instant) -> (noted: bool)
        requires
            old(self).wf(),
            commit.epoch == Epoch::Application,
        ensures
            final(self).wf(),
            final(self).streams.names() == old(self).streams.names(),
            (final(self)@, noted) == if commit.in_flight {
                old(self)@.sent(commit@, old(self).streams.names(), now)
            } else {
                (old(self)@.datagram_sent(commit@, now), true)
            },
    {
        if commit.in_flight {
            return self.commit_packet(commit, now);
        }
        self.use_number(Epoch::Application, commit.pn, commit.ack_included);
        self.egress.pop_datagram(commit.datagram);
        self.egress.amplify(commit.bytes as u64);
        self.egress.note_activity(commit.datagram, now);
        true
    }
}

/// A packet number is used once: the next is the one behind it. An acknowledgement that was
/// sent is owed no longer. Other epochs are as they were.
pub proof fn law_number_used_once(
    connection: ConnModel,
    epoch: Epoch,
    pn: u64,
    ack_included: bool,
    other: Epoch,
)
    requires
        pn < u64::MAX,
        other != epoch,
    ensures
        ({
            let after = connection.numbered(epoch, pn, ack_included);
            &&& after.next_pn(epoch) == pn + 1
            &&& after.egress.spaces.of(epoch).largest_acked == connection.egress.spaces.of(
                epoch,
            ).largest_acked
            &&& after.egress.spaces.of(other) == connection.egress.spaces.of(other)
            &&& ack_included ==> !after.received.of(epoch).ack_pending
            &&& !ack_included ==> after.received == connection.received
            &&& after.received.of(other) == connection.received.of(other)
            &&& after.received.of(epoch).packets == connection.received.of(epoch).packets
            &&& after.streams == connection.streams && after.control == connection.control
        }),
{
}

/// A packet that went out counts: its bytes against what the peer may be sent, and, where it
/// is in flight, against the congestion window; one that asks for an acknowledgement arms the
/// timer of its epoch; a probe is one of those that are owed; a datagram leaves its queue; and
/// a packet that closes the connection is the last.
pub proof fn law_packet_counts(egress: EgressModel, commit: CommitModel, now: Instant, other: Epoch)
    requires
        0 <= commit.bytes <= u64::MAX,
        egress.amplification_sent + commit.bytes <= u64::MAX,
        egress.cc.bytes_in_flight + commit.bytes <= u64::MAX,
        egress.spaces.of(commit.epoch).ack_eliciting_in_flight < usize::MAX,
        other != commit.epoch,
    ensures
        ({
            let after = egress.went_out(commit, now);
            let space = after.spaces.of(commit.epoch);
            let before = egress.spaces.of(commit.epoch);
            &&& after.amplification_sent == egress.amplification_sent + commit.bytes
            &&& after.amplification_received == egress.amplification_received
            &&& after.cc.bytes_in_flight == egress.cc.bytes_in_flight + if commit.in_flight {
                commit.bytes
            } else {
                0
            }
            &&& after.cc.cwnd == egress.cc.cwnd
            &&& commit.in_flight && commit.ack_eliciting ==> space.time_of_last_ack_eliciting
                == Some(now) && space.ack_eliciting_in_flight == before.ack_eliciting_in_flight
                + 1
            &&& !commit.ack_eliciting ==> space == before
            &&& space.next_pn == before.next_pn
            &&& after.spaces.of(other) == egress.spaces.of(other)
            &&& after.pto_probe_allowance == if commit.pto_probe && egress.pto_probe_allowance
                > 0 {
                (egress.pto_probe_allowance - 1) as u32
            } else {
                egress.pto_probe_allowance
            }
            &&& commit.pmtud_probe matches Some(size) ==> after.pmtud.in_flight == Some(size)
                && after.pmtud_probe_pn == Some(commit.pn)
            &&& commit.pmtud_probe is None ==> after.pmtud == egress.pmtud && after.pmtud_probe_pn
                == egress.pmtud_probe_pn
            &&& commit.datagram && egress.datagrams.len() > 0 ==> after.datagrams
                == egress.datagrams.skip(1)
            &&& !commit.datagram ==> after.datagrams == egress.datagrams
            &&& commit.close ==> after.closed && after.pending_close is None
            &&& !commit.close ==> after.closed == egress.closed && after.pending_close
                == egress.pending_close
            &&& commit.ack_eliciting ==> after.ack_eliciting_sent_since_last_receive
            &&& commit.ack_eliciting && !egress.ack_eliciting_sent_since_last_receive
                ==> after.last_activity == now
            &&& !commit.ack_eliciting || egress.ack_eliciting_sent_since_last_receive
                ==> after.last_activity == egress.last_activity
            &&& !commit.in_flight ==> after.release == egress.release && after.burst
                == egress.burst
            &&& commit.in_flight && egress.burst > 0 ==> after.burst == egress.burst - 1
                && after.release == now
            &&& commit.in_flight && egress.burst == 0 ==> after.burst == 0 && after.release >= now
        }),
{
    reveal(EgressModel::went_out);
    reveal(paced);
    if egress.datagrams.len() > 0 {
        assert(egress.datagrams.subrange(1, egress.datagrams.len() as int)
            =~= egress.datagrams.skip(1));
    }
}

/// What is noted of a packet is what it was: number, time, length, and whether it is in
/// flight and acknowledged. It comes behind those that were sent before.
pub proof fn law_packet_noted(connection: ConnModel, commit: CommitModel, now: Instant)
    requires
        connection.packet_noted(commit, now).1,
        0 <= commit.bytes <= usize::MAX,
    ensures
        ({
            let (after, _) = connection.packet_noted(commit, now);
            let packets = after.egress.packets.packets;
            let meta = packets.last().meta;
            let keep = commit.in_flight || commit.controls.len() > 0 || commit.streams.len() > 0
                || commit.early_data || commit.crypto is Some || commit.pmtud_probe is Some;
            &&& !keep ==> after.egress.packets == connection.egress.packets
            &&& keep ==> packets.drop_last() == connection.egress.packets.packets && packets.len()
                == connection.egress.packets.packets.len() + 1
            &&& keep ==> meta.pn == commit.pn && meta.epoch == commit.epoch && meta.sent_time == now
                && meta.bytes == commit.bytes && meta.in_flight == commit.in_flight
                && meta.ack_eliciting == commit.ack_eliciting && meta.early_data
                == commit.early_data
            &&& commit.crypto matches Some(delivery) ==> after.crypto.of(commit.epoch)
                == connection.crypto.of(commit.epoch).committed(delivery)
            &&& commit.crypto is None ==> after.crypto == connection.crypto
            &&& keep && commit.crypto is Some && commit.crypto->0.known is None
                && connection.crypto.of(commit.epoch).records.len() <= usize::MAX ==> meta.crypto
                == Some(connection.crypto.of(commit.epoch).records.len() as usize)
            &&& keep && commit.crypto is None ==> meta.crypto is None
            &&& after.streams == connection.streams && after.control == connection.control
        }),
{
    reveal(ConnModel::packet_noted);
    let (after, _) = connection.packet_noted(commit, now);
    if commit.noted() {
        assert(after.egress.packets.packets.drop_last()
            =~= connection.egress.packets.packets);
    }
}

/// A control record that was sent for the first time does not wait any more; one that was
/// sent again leaves what waits alone. Either way the packet carries it.
pub proof fn law_control_noted(connection: ConnModel, record: Control, again: bool)
    requires
        connection.control_noted(record, again).1,
    ensures
        ({
            let (after, _) = connection.control_noted(record, again);
            &&& after.control == if again {
                connection.control
            } else {
                connection.control.without(about(record))
            }
            &&& after.egress.packets.packets.last().controls.last() == record
            &&& after.egress.packets.packets.last().meta
                == connection.egress.packets.packets.last().meta
            &&& after.egress.packets.packets.len() == connection.egress.packets.packets.len()
            &&& record matches Control::PathChallenge { data } ==> after.path.challenge == Some(
                data,
            )
            &&& !(record is PathChallenge) ==> after.path.challenge == connection.path.challenge
            &&& after.path.peer_cid == connection.path.peer_cid && after.path.local_cid
                == connection.path.local_cid
            &&& after.streams == connection.streams
        }),
{
}

} // verus!
