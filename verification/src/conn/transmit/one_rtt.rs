//! Packets with pieces of streams.
use vstd::prelude::*;

use crate::conn::control::Control;
use crate::conn::stream_journal::model::{Handle, SendHandle, Stream};
use crate::conn::streams::state::emit::{
    probed, resent, sent_early, sent_fresh, Fresh, Look, Probing,
};
use crate::conn::streams::state::StateModel;
use crate::conn::transmit::ack::acks;
use crate::conn::transmit::builder::{built, Commit, CommitModel};
use crate::conn::transmit::connection::{ConnModel, Connection};
use crate::conn::transmit::crypto::Epoch;
use crate::conn::transmit::draft::{Draft, DraftModel, PACKET_STREAM_CAPACITY};
use crate::conn::transmit::laws::{
    law_ack_fits, law_again_fits, law_early_fits, law_long_fits, law_one_rtt_fits, law_probed_fits,
    law_short_fits,
};
use crate::conn::transmit::packets::sent_controls;
use crate::conn::transmit::room::{handshake_payload_limit, long_fixed, long_room};
use crate::frame::model::frame_bytes;
use crate::frame::Frame;
use crate::packet::LongType;

verus! {

impl ConnModel {
    /// The draft with handshake bytes, if some fit.
    pub open spec fn with_handshake(self, draft: DraftModel) -> DraftModel {
        let crypto = self.crypto.application;
        match crypto.selected(draft.room()) {
            Some(delivery) => draft.with_crypto(
                delivery,
                crypto.data(delivery.offset as int, delivery.len as int),
            ),
            None => draft,
        }
    }

    /// The draft with handshake bytes that are in flight, if they fit.
    pub open spec fn with_handshake_probe(self, draft: DraftModel) -> DraftModel {
        let crypto = self.crypto.application;
        match crypto.probe(draft.room()) {
            Some(delivery) => draft.with_crypto(
                delivery,
                crypto.data(delivery.offset as int, delivery.len as int),
            ),
            None => draft,
        }
    }

    /// The control records that are in flight.
    pub open spec fn controls_in_flight(self) -> Seq<Control> {
        sent_controls(self.egress.packets.packets, Epoch::Application)
    }

    /// What comes behind the acknowledgement of a packet, in front of the pieces
    /// of streams: control records that lead, handshake bytes, and the other
    /// control records.
    pub open spec fn led(self, draft: DraftModel) -> DraftModel {
        let records = self.control.records;
        let cids = self.path.local_cids;
        let handshake = self.with_handshake(draft.with_controls(records, cids, true, 0));
        handshake.with_controls(records, cids, false, 0)
    }

    /// The connection, and the frames of a packet, behind the acknowledgement:
    /// what leads, then what was lost, then what was not sent yet.
    #[verifier::opaque]
    pub open spec fn one_rtt(
        self,
        draft: DraftModel,
        names: spec_fn(SendHandle) -> Option<u64>,
        pending: Seq<u64>,
    ) -> (ConnModel, DraftModel) {
        if !self.can_track_packet() {
            (self, draft)
        } else {
            let (journal, again) = resent(
                self.streams.journal,
                self.led(draft),
                self.streams.senders,
                names,
                PACKET_STREAM_CAPACITY as int,
            );
            let streams = StateModel { journal, ..self.streams };
            let fresh = sent_fresh(
                streams,
                Fresh { control: self.control, draft: again },
                self.controls_in_flight(),
                self.path.local_cids,
                pending,
                0,
            );
            (ConnModel { streams, control: fresh.control, ..self }, fresh.draft)
        }
    }

    /// The packet of some frames.
    #[verifier::opaque]
    pub open spec fn short_built(self, draft: DraftModel) -> Option<(Seq<u8>, CommitModel)> {
        if draft.frames.len() == 0 {
            None
        } else {
            match self.short_packet(draft.frames) {
                Some(packet) => Some(
                    (
                        packet,
                        CommitModel::of(
                            draft,
                            Epoch::Application,
                            self.next_pn(Epoch::Application),
                            packet.len() as int,
                        ),
                    ),
                ),
                None => None,
            }
        }
    }

    /// The packet of some frames that is to learn whether the peer is there: at
    /// least a sign of life, if that fits.
    #[verifier::opaque]
    pub open spec fn short_probe(self, draft: DraftModel) -> Option<(Seq<u8>, CommitModel)> {
        let done = alive(draft);
        if !done.ack_eliciting {
            None
        } else {
            match self.short_built(done) {
                Some((packet, commit)) => Some((packet, CommitModel { pto_probe: true, ..commit })),
                None => None,
            }
        }
    }

    /// The packet of some frames before the handshake is complete.
    #[verifier::opaque]
    pub open spec fn early_built(self, draft: DraftModel, probe: bool) -> Option<
        (Seq<u8>, CommitModel),
    > {
        let pn = self.next_pn(Epoch::Application);
        if draft.frames.len() == 0 {
            None
        } else {
            match self.long_packet(self.keys.zero_rtt, LongType::ZeroRtt, pn, draft.frames) {
                Some(packet) => Some(
                    (
                        packet,
                        CommitModel {
                            in_flight: true,
                            early_data: true,
                            pto_probe: probe,
                            ..CommitModel::of(
                                draft,
                                Epoch::Application,
                                pn,
                                packet.len() as int,
                            )
                        },
                    ),
                ),
                None => None,
            }
        }
    }

    /// How many bytes of frames fit a packet before the handshake is complete.
    pub open spec fn early_room(self, capacity: int) -> int {
        long_room(
            long_fixed(self.path.peer_cid.len() as int, self.path.local_cid.len() as int),
            capacity,
        )
    }
}

/// The draft with a sign of life, if nothing in it asks for an acknowledgement
/// and it fits.
pub open spec fn alive(draft: DraftModel) -> DraftModel {
    let ping: crate::frame::model::FrameModel = Frame::Ping;
    if !draft.ack_eliciting && draft.fits(ping) {
        DraftModel { ack_eliciting: true, ..draft.with(frame_bytes(ping)) }
    } else {
        draft
    }
}

impl Draft {
    /// Adds a sign of life, if nothing asks for an acknowledgement and it fits.
    fn keep_alive(&mut self)
        ensures
            final(self)@ == alive(old(self)@),
    {
        if !self.ack_eliciting {
            let ping: Frame = Frame::Ping;
            let ghost model: crate::frame::model::FrameModel = Frame::Ping;
            assert(ping@ == model);
            if self.append_frame(&ping) {
                self.ack_eliciting = true;
            }
        }
    }
}

impl Connection {
    /// Adds what comes in front of the pieces of streams.
    fn append_led(&self, draft: &mut Draft)
        requires
            self.wf(),
        ensures
            final(draft)@ == self@.led(old(draft)@),
    {
        draft.append_pending_controls(&self.control, &self.path, true);
        match self.crypto.application.peek_crypto_chunk(draft.room()) {
            Some(delivery) => {
                draft.encode_crypto(delivery, self.crypto.application.data(&delivery));
            },
            None => {},
        }
        draft.append_pending_controls(&self.control, &self.path, false);
    }

    /// Builds a packet with what waits to be sent, for a round of streams.
    pub fn build_one_rtt(
        &mut self,
        dst: &mut Vec<u8>,
        max_packet_bytes: usize,
        pending: &Vec<u64>,
    ) -> (result: Option<Commit>)
        requires
            old(self).wf(),
        ensures
            final(self).wf(),
            final(self).streams.names() == old(self).streams.names(),
            exists|draft: DraftModel|
                #![trigger old(self)@.one_rtt(draft, old(self).streams.names(), pending@)]
                {
                    let (after, done) = old(self)@.one_rtt(
                        draft,
                        old(self).streams.names(),
                        pending@,
                    );
                    &&& acks(
                        DraftModel::empty(
                            old(self)@.room(Epoch::Application, max_packet_bytes as int),
                        ),
                        old(self)@.received.application,
                        draft,
                    )
                    &&& final(self)@ == after
                    &&& built(old(dst)@, final(dst)@, result, old(self)@.short_built(done))
                },
            result matches Some(commit) ==> commit.bytes <= max_packet_bytes && final(dst)@.len()
                == old(dst)@.len() + commit.bytes,
    {
        reveal(ConnModel::one_rtt);
        reveal(ConnModel::short_built);
        let ghost m = self@;
        let ghost names = self.streams.names();
        let pn: u64 = self.egress.spaces.application.next_pn;
        let mut draft = Draft::new(self.short_limit(max_packet_bytes));
        draft.append_ack_frame(&self.received.application);
        let ghost acked = draft@;
        let ghost (after, done) = m.one_rtt(acked, names, pending@);
        if self.can_track_packet() {
            self.append_led(&mut draft);
            self.streams.append_retransmits(&mut draft, PACKET_STREAM_CAPACITY);
            let in_flight = self.egress.packets.sent_controls(Epoch::Application);
            self.streams.append_fresh(
                &mut draft,
                &mut self.control,
                &in_flight,
                &self.path,
                pending,
            );
        }
        assert(draft@ == done);
        assert(self@ == after);
        assert(m.short_packet(done.frames) == self@.short_packet(done.frames));
        if draft.frames.len() == 0 {
            return None;
        }
        let bytes: usize = match self.seal_short(dst, &draft.frames) {
            Some(bytes) => bytes,
            None => {
                return None;
            },
        };
        proof {
            law_ack_fits(
                DraftModel::empty(m.room(Epoch::Application, max_packet_bytes as int)),
                m.received.application,
                acked,
            );
            law_one_rtt_fits(m, acked, names, pending@);
            law_short_fits(m, draft@.frames.len() as int, max_packet_bytes as int);
        }
        let commit = Commit::of(draft, Epoch::Application, pn, bytes);
        let ghost expected = m.short_built(done)->0;
        assert(commit@ =~= expected.1);
        Some(commit)
    }

    /// Builds a packet with what is in flight, to learn whether the peer is there.
    pub fn build_one_rtt_again(&mut self, dst: &mut Vec<u8>, max_packet_bytes: usize) -> (result:
        Option<Commit>)
        requires
            old(self).wf(),
        ensures
            final(self).wf(),
            final(self).streams.names() == old(self).streams.names(),
            exists|draft: DraftModel, after: Probing|
                #![trigger resent_as(old(self)@, draft, old(self).streams.names(), after)]
                {
                    &&& acks(
                        DraftModel::empty(
                            old(self)@.room(Epoch::Application, max_packet_bytes as int),
                        ),
                        old(self)@.received.application,
                        draft,
                    )
                    &&& resent_as(old(self)@, draft, old(self).streams.names(), after)
                    &&& final(self)@ == (ConnModel {
                        streams: StateModel { journal: after.journal, ..old(self)@.streams },
                        ..old(self)@
                    })
                    &&& built(old(dst)@, final(dst)@, result, old(self)@.short_probe(after.draft))
                },
            result matches Some(commit) ==> commit.bytes <= max_packet_bytes && final(dst)@.len()
                == old(dst)@.len() + commit.bytes,
    {
        reveal(probed_as);
        reveal(resent_as);
        reveal(ConnModel::short_probe);
        reveal(ConnModel::short_built);
        let ghost m = self@;
        let ghost names = self.streams.names();
        let pn: u64 = self.egress.spaces.application.next_pn;
        let mut draft = Draft::new(self.short_limit(max_packet_bytes));
        draft.append_ack_frame(&self.received.application);
        let ghost acked = draft@;
        match self.crypto.application.crypto_probe(draft.room()) {
            Some(delivery) => {
                draft.encode_crypto(delivery, self.crypto.application.data(&delivery));
            },
            None => {},
        }
        let in_flight = self.egress.packets.sent_controls(Epoch::Application);
        draft.append_control_probes(&in_flight, &self.path);
        self.streams.append_probes(&mut draft);
        let ghost after = Probing { journal: self@.streams.journal, draft: draft@ };
        assert(resent_as(m, acked, names, after));
        assert(m.short_packet(alive(after.draft).frames) == self@.short_packet(
            alive(after.draft).frames,
        ));
        draft.keep_alive();
        if !draft.ack_eliciting || draft.frames.len() == 0 {
            return None;
        }
        let bytes: usize = match self.seal_short(dst, &draft.frames) {
            Some(bytes) => bytes,
            None => {
                return None;
            },
        };
        proof {
            law_ack_fits(
                DraftModel::empty(m.room(Epoch::Application, max_packet_bytes as int)),
                m.received.application,
                acked,
            );
            law_again_fits(m, acked, names, after);
            law_short_fits(m, draft@.frames.len() as int, max_packet_bytes as int);
        }
        let mut commit = Commit::of(draft, Epoch::Application, pn, bytes);
        commit.pto_probe = true;
        let ghost expected = m.short_probe(after.draft)->0;
        assert(commit@ =~= expected.1);
        Some(commit)
    }

    /// Builds a packet before the handshake is complete, for a round of streams.
    pub fn build_zero_rtt(
        &self,
        dst: &mut Vec<u8>,
        max_packet_bytes: usize,
        pending: &Vec<u64>,
    ) -> (result: Option<Commit>)
        requires
            self.wf(),
        ensures
            built(
                old(dst)@,
                final(dst)@,
                result,
                if self@.keys.zero_rtt is None || !self@.can_track_packet() {
                    None
                } else {
                    self@.early_built(
                        sent_early(
                            self@.streams,
                            DraftModel::empty(self@.early_room(max_packet_bytes as int)),
                            self@.peer_params_known,
                            pending@,
                            0,
                        ),
                        false,
                    )
                },
            ),
            result matches Some(commit) ==> commit.bytes <= max_packet_bytes && final(dst)@.len()
                == old(dst)@.len() + commit.bytes,
    {
        let ghost m = self@;
        if self.keys.zero_rtt.is_none() || !self.can_track_packet() {
            return None;
        }
        let peer = self.path.peer_cid.as_slice();
        let local = self.path.local_cid.as_slice();
        let limit: usize = handshake_payload_limit(peer.len(), local.len(), max_packet_bytes);
        let mut draft = Draft::new(limit);
        let ghost start = draft@;
        self.streams.append_early(&mut draft, self.peer_params_known, pending);
        proof {
            law_early_fits(m.streams, start, m.peer_params_known, pending@, 0);
            if draft@.frames.len() > 0 {
                law_long_fits(
                    m,
                    LongType::ZeroRtt,
                    draft@.frames.len() as int,
                    max_packet_bytes as int,
                );
            }
        }
        self.finish_early(dst, draft, false)
    }

    fn finish_early(&self, dst: &mut Vec<u8>, draft: Draft, probe: bool) -> (result: Option<Commit>)
        ensures
            built(old(dst)@, final(dst)@, result, self@.early_built(draft@, probe)),
            result matches Some(commit) ==> draft@.frames.len() > 0 && commit.bytes
                == self@.long_size(LongType::ZeroRtt, draft@.frames.len() as int)
                && final(dst)@.len() == old(dst)@.len() + commit.bytes,
    {
        reveal(ConnModel::early_built);
        let ghost m = self@;
        let ghost done = draft@;
        let pn: u64 = self.egress.spaces.application.next_pn;
        if draft.frames.len() == 0 {
            return None;
        }
        let bytes: usize = match self.seal_long(
            dst,
            &self.keys.zero_rtt,
            LongType::ZeroRtt,
            pn,
            &draft.frames,
        ) {
            Some(bytes) => bytes,
            None => {
                return None;
            },
        };
        let mut commit = Commit::of(draft, Epoch::Application, pn, bytes);
        commit.in_flight = true;
        commit.early_data = true;
        commit.pto_probe = probe;
        let ghost expected = m.early_built(done, probe)->0;
        assert(commit@ =~= expected.1);
        Some(commit)
    }

    /// Builds a packet with early data that is in flight, to learn whether the
    /// peer is there.
    pub fn build_zero_rtt_again(&mut self, dst: &mut Vec<u8>, max_packet_bytes: usize) -> (result:
        Option<Commit>)
        requires
            old(self).wf(),
        ensures
            final(self).wf(),
            final(self).streams.names() == old(self).streams.names(),
            if old(self)@.keys.zero_rtt is None || !old(self)@.can_track_probe(Epoch::Application) {
                result is None && final(dst)@ == old(dst)@ && final(self)@ == old(self)@
            } else {
                exists|after: Probing|
                    #![trigger probed_as(old(self)@, DraftModel::empty(
                        old(self)@.early_room(max_packet_bytes as int),
                    ), old(self).streams.names(), after)]
                    {
                        &&& probed_as(
                            old(self)@,
                            DraftModel::empty(old(self)@.early_room(max_packet_bytes as int)),
                            old(self).streams.names(),
                            after,
                        )
                        &&& final(self)@ == (ConnModel {
                            streams: StateModel { journal: after.journal, ..old(self)@.streams },
                            ..old(self)@
                        })
                        &&& built(
                            old(dst)@,
                            final(dst)@,
                            result,
                            if alive(after.draft).ack_eliciting {
                                old(self)@.early_built(alive(after.draft), true)
                            } else {
                                None
                            },
                        )
                    }
            },
            result matches Some(commit) ==> commit.bytes <= max_packet_bytes && final(dst)@.len()
                == old(dst)@.len() + commit.bytes,
    {
        reveal(probed_as);
        reveal(resent_as);
        reveal(ConnModel::early_built);
        let ghost m = self@;
        let ghost names = self.streams.names();
        if self.keys.zero_rtt.is_none() || !self.can_track_probe(Epoch::Application) {
            return None;
        }
        let peer = self.path.peer_cid.as_slice();
        let local = self.path.local_cid.as_slice();
        let limit: usize = handshake_payload_limit(peer.len(), local.len(), max_packet_bytes);
        let mut draft = Draft::new(limit);
        let ghost start = draft@;
        self.streams.append_probes(&mut draft);
        let ghost after = Probing { journal: self@.streams.journal, draft: draft@ };
        assert(probed_as(m, start, names, after));
        draft.keep_alive();
        assert(m.early_built(draft@, true) == self@.early_built(draft@, true));
        if !draft.ack_eliciting {
            return None;
        }
        proof {
            law_probed_fits(m, start, names, after);
            if draft@.frames.len() > 0 {
                law_long_fits(
                    m,
                    LongType::ZeroRtt,
                    draft@.frames.len() as int,
                    max_packet_bytes as int,
                );
            }
        }
        self.finish_early(dst, draft, true)
    }
}

/// Whether pieces of streams that are in flight were added.
#[verifier::opaque]
pub open spec fn probed_as(
    m: ConnModel,
    draft: DraftModel,
    names: spec_fn(SendHandle) -> Option<u64>,
    after: Probing,
) -> bool {
    exists|trace: Seq<Probing>, looks: Seq<Look>, last: Option<(Handle, SendHandle, Stream)>|
        #[trigger] probed(trace, looks, m.streams.senders, names, last, after) && trace[0] == (
        Probing { journal: m.streams.journal, draft })
}

/// Whether what is in flight was added, behind the acknowledgement: handshake
/// bytes, control records and pieces of streams.
#[verifier::opaque]
pub open spec fn resent_as(
    m: ConnModel,
    draft: DraftModel,
    names: spec_fn(SendHandle) -> Option<u64>,
    after: Probing,
) -> bool {
    probed_as(
        m,
        m.with_handshake_probe(draft).with_control_probes(
            m.controls_in_flight(),
            m.path.local_cids,
            0,
        ),
        names,
        after,
    )
}

/// Of the records that a packet carries, that the handshake is complete comes first.
pub proof fn law_handshake_done_leads(connection: ConnModel, draft: DraftModel, i: int, j: int)
    requires
        draft.controls.len() <= 32,
        draft.controls.len() <= i < j < connection.led(draft).controls.len(),
        connection.led(draft).controls[j] is HandshakeDone,
    ensures
        connection.led(draft).controls[i] is HandshakeDone,
{
    let records = connection.control.records;
    let cids = connection.path.local_cids;
    let leading = draft.with_controls(records, cids, true, 0);
    let handshake = connection.with_handshake(leading);
    let after = handshake.with_controls(records, cids, false, 0);
    crate::conn::transmit::draft::law_controls_of_a_kind(draft, records, cids, true, 0);
    crate::conn::transmit::draft::law_controls_of_a_kind(handshake, records, cids, false, 0);
    assert(handshake.controls == leading.controls);
    assert(j < handshake.controls.len());
    assert(after.controls.take(handshake.controls.len() as int)[i] == after.controls[i]);
    assert(after.controls.take(handshake.controls.len() as int)[j] == after.controls[j]);
}

/// A sign of life is one byte, and makes its receiver acknowledge a packet that nothing else
/// makes it acknowledge.
pub proof fn law_sign_of_life(draft: DraftModel)
    ensures
        draft.ack_eliciting ==> alive(draft) == draft,
        !draft.ack_eliciting && draft.frames.len() < draft.limit ==> alive(draft).ack_eliciting
            && alive(draft).frames == draft.frames.push(0x01),
        !draft.ack_eliciting && draft.frames.len() >= draft.limit ==> alive(draft) == draft,
{
    let ping: crate::frame::model::FrameModel = Frame::Ping;
    crate::frame::laws::law_frame_on_the_wire(ping);
    assert(draft.frames + seq![0x01u8] =~= draft.frames.push(0x01));
}

/// What is noted of a packet of frames is what they are: under which number it goes, what it
/// carries, and that it is in flight exactly where it is acknowledged.
pub proof fn law_short_noted(
    connection: ConnModel,
    draft: DraftModel,
    packet: Seq<u8>,
    commit: CommitModel,
)
    requires
        connection.short_built(draft) == Some((packet, commit)),
    ensures
        connection.short_packet(draft.frames) == Some(packet),
        draft.frames.len() > 0,
        commit.epoch == Epoch::Application,
        commit.pn == connection.egress.spaces.application.next_pn,
        commit.bytes == packet.len(),
        commit.controls == draft.controls,
        commit.streams == draft.streams,
        commit.crypto == draft.crypto,
        commit.ack_included == draft.ack_included,
        commit.ack_eliciting == draft.ack_eliciting,
        commit.in_flight == draft.ack_eliciting,
        !commit.early_data && !commit.pto_probe && !commit.close && !commit.datagram
            && commit.pmtud_probe is None,
{
    reveal(ConnModel::short_built);
}

/// A packet that is to learn whether the peer is there is always acknowledged; early data
/// goes under its own keys and counts as in flight.
pub proof fn law_probes_noted(
    connection: ConnModel,
    draft: DraftModel,
    probe: bool,
    packet: Seq<u8>,
    commit: CommitModel,
)
    ensures
        connection.short_probe(draft) == Some((packet, commit)) ==> commit.pto_probe
            && commit.ack_eliciting && connection.short_packet(alive(draft).frames) == Some(
            packet,
        ),
        connection.early_built(draft, probe) == Some((packet, commit)) ==> {
            &&& commit.early_data && commit.in_flight && commit.pto_probe == probe
            &&& commit.ack_eliciting == draft.ack_eliciting
            &&& commit.epoch == Epoch::Application
            &&& commit.pn == connection.egress.spaces.application.next_pn
            &&& connection.long_packet(
                connection.keys.zero_rtt,
                LongType::ZeroRtt,
                commit.pn,
                draft.frames,
            ) == Some(packet)
        },
{
    reveal(ConnModel::short_built);
    reveal(ConnModel::short_probe);
    reveal(ConnModel::early_built);
}

} // verus!
