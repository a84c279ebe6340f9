//! The packets that a connection sends at a time.
use vstd::prelude::*;

use crate::clock::Instant;
use crate::conn::control::Control;
use crate::conn::stream_journal::model::SendHandle;
use crate::conn::streams::state::emit::{sent_early, Probing};
use crate::conn::streams::state::StateModel;
use crate::conn::transmit::ack::acks;
use crate::conn::transmit::builder::{built, Commit, CommitModel};
use crate::conn::transmit::connection::{CongestionControl, ConnModel, Connection, EgressModel};
use crate::conn::transmit::crypto::Epoch;
use crate::conn::transmit::draft::DraftModel;
use crate::conn::transmit::eligibility::Cargo;
use crate::conn::transmit::laws::lemma_sent_allowance;
use crate::conn::transmit::one_rtt::{alive, probed_as, resent_as};

verus! {

/// How many packets are sent at a time at most.
pub const MAX_BATCH_PACKETS: usize = 64;

/// How many packets with what waits are tried at a time.
pub const ONE_RTT_ROUNDS: usize = 4096;

/// What kind of packet is built.
#[derive(Debug, Clone, Copy, PartialEq, Eq, Structural)]
pub enum Kind {
    /// To learn whether the peer is there.
    Pto,
    Initial,
    Early,
    Handshake,
    OneRtt,
    Datagram,
}

/// What packets are built from besides the connection.
pub struct Round {
    pub now: Instant,
    /// How long packets may be.
    pub capacity: int,
    /// The streams that take part.
    pub pending: Seq<u64>,
    pub names: spec_fn(SendHandle) -> Option<u64>,
}

impl ConnModel {
    /// Whether something is to be sent besides pieces of streams.
    pub open spec fn one_shot(self) -> bool {
        self.control.records.len() > 0 || self.crypto.application.has_sendable()
            || self.streams.journal.retry_groups.len() > 0 || (
        self.received.application.ack_pending && self.egress.datagrams.len() == 0)
    }

    /// Whether a packet of a kind is to be sent.
    pub open spec fn wants(self, kind: Kind, round: Round) -> bool {
        match kind {
            Kind::Pto => self.egress.pto_probe_allowance != 0,
            Kind::Initial => self.epoch_pending(Epoch::Initial) && self.allows(
                Cargo::CryptoOrAck,
                round.now,
            ),
            Kind::Early => self.early() && self.allows(Cargo::CryptoOrAck, round.now),
            Kind::Handshake => self.epoch_pending(Epoch::Handshake) && self.allows(
                Cargo::CryptoOrAck,
                round.now,
            ),
            Kind::OneRtt => self.keys.epochs.application is Some && (self.one_shot()
                || round.pending.len() > 0) && self.allows(Cargo::CryptoOrAck, round.now),
            Kind::Datagram => self.egress.datagrams.len() > 0 && self.allows(
                Cargo::DatagramOnly,
                round.now,
            ),
        }
    }
}

/// Whether a packet with handshake bytes was made, or none.
pub open spec fn crypto_made(
    m: ConnModel,
    epoch: Epoch,
    capacity: int,
    probe: bool,
    result: Option<(Seq<u8>, CommitModel)>,
) -> bool {
    if !m.crypto_ready(epoch, capacity) {
        result is None
    } else {
        exists|draft: DraftModel|
            #![trigger m.crypto_packet(draft, epoch, probe)]
            acks(DraftModel::empty(m.room(epoch, capacity)), m.received.of(epoch), draft)
                && result == m.crypto_packet(draft, epoch, probe)
    }
}

/// Whether a packet of application data was made once more, or none.
pub open spec fn again_made(
    m: ConnModel,
    round: Round,
    capacity: int,
    after: ConnModel,
    result: Option<(Seq<u8>, CommitModel)>,
) -> bool {
    if m.keys.epochs.application is Some {
        exists|draft: DraftModel, probing: Probing|
            #![trigger resent_as(m, draft, round.names, probing)]
            {
                &&& acks(
                    DraftModel::empty(m.room(Epoch::Application, capacity)),
                    m.received.application,
                    draft,
                )
                &&& resent_as(m, draft, round.names, probing)
                &&& after == with_journal(m, probing)
                &&& result == m.short_probe(probing.draft)
            }
    } else if m.keys.zero_rtt is None {
        result is None && after == m
    } else {
        exists|probing: Probing|
            #![trigger probed_as(m, DraftModel::empty(m.early_room(capacity)), round.names, probing)]
            {
                &&& probed_as(m, DraftModel::empty(m.early_room(capacity)), round.names, probing)
                &&& after == with_journal(m, probing)
                &&& result == early_again(m, probing)
            }
    }
}

/// The connection after a round over what is in flight.
pub open spec fn with_journal(m: ConnModel, probing: Probing) -> ConnModel {
    ConnModel { streams: StateModel { journal: probing.journal, ..m.streams }, ..m }
}

/// Whether a packet of a kind is no probe with handshake bytes. Such a probe carries at
/// least a sign of life, whatever its limit.
pub open spec fn bounded(m: ConnModel, kind: Kind) -> bool {
    ||| kind != Kind::Pto
    ||| m.egress.pto_probe_epoch is None
    ||| m.egress.pto_probe_epoch == Some(Epoch::Application)
}

/// Whether no probes with handshake bytes are owed.
pub open spec fn all_bounded(m: ConnModel) -> bool {
    m.egress.pto_probe_allowance == 0 || bounded(m, Kind::Pto)
}

/// Whether a packet of a kind was made, or none, and what became of the
/// connection.
#[verifier::opaque]
pub open spec fn made(
    m: ConnModel,
    kind: Kind,
    round: Round,
    capacity: int,
    after: ConnModel,
    result: Option<(Seq<u8>, CommitModel)>,
) -> bool {
    match kind {
        Kind::Pto => match m.egress.pto_probe_epoch {
            Some(epoch) => if !m.can_track_probe(epoch) {
                result is None && after == m
            } else if epoch != Epoch::Application {
                after == m && crypto_made(m, epoch, capacity, true, result)
            } else {
                again_made(m, round, capacity, after, result)
            },
            None => result is None && after == m,
        },
        Kind::Initial => after == m && crypto_made(m, Epoch::Initial, capacity, false, result),
        Kind::Handshake => after == m && crypto_made(m, Epoch::Handshake, capacity, false, result),
        Kind::Early => {
            &&& after == m
            &&& result == if m.keys.zero_rtt is None || !m.can_track_packet() {
                None
            } else {
                m.early_built(
                    sent_early(
                        m.streams,
                        DraftModel::empty(m.early_room(capacity)),
                        m.peer_params_known,
                        round.pending,
                        0,
                    ),
                    false,
                )
            }
        },
        Kind::OneRtt => exists|draft: DraftModel|
            #![trigger m.one_rtt(draft, round.names, round.pending)]
            {
                let (next, done) = m.one_rtt(draft, round.names, round.pending);
                &&& acks(
                    DraftModel::empty(m.room(Epoch::Application, capacity)),
                    m.received.application,
                    draft,
                )
                &&& after == next
                &&& result == m.short_built(done)
            },
        Kind::Datagram => {
            &&& after == m
            &&& if (m.egress.datagram_congestion_control == CongestionControl::Standard
                && !m.can_track_packet()) || m.egress.datagrams.len() == 0 {
                result is None
            } else {
                exists|draft: DraftModel|
                    #![trigger m.datagram_packet(draft)]
                    acks(
                        DraftModel::empty(m.room(Epoch::Application, capacity)),
                        m.received.application,
                        draft,
                    ) && result == m.datagram_packet(draft)
            }
        },
    }
}

/// The connection after a packet of a kind was sent, and whether it could be
/// noted.
pub open spec fn committed(
    m: ConnModel,
    kind: Kind,
    round: Round,
    commit: CommitModel,
) -> (ConnModel, bool) {
    if kind == Kind::Datagram && !commit.in_flight {
        (m.datagram_sent(commit, round.now), true)
    } else {
        m.sent(commit, round.names, round.now)
    }
}

/// The connection, once a first Initial packet was sent.
pub open spec fn marked(m: ConnModel, kind: Kind) -> ConnModel {
    if kind == Kind::Initial {
        ConnModel { egress: EgressModel { sent_initial: true, ..m.egress }, ..m }
    } else {
        m
    }
}

/// Packets of a kind that were sent one after the other.
#[verifier::ext_equal]
pub struct Emitted {
    /// The connection before the first and after each packet.
    pub states: Seq<ConnModel>,
    /// The connection when each packet was built.
    pub built: Seq<ConnModel>,
    pub packets: Seq<Seq<u8>>,
    pub commits: Seq<CommitModel>,
}

/// Whether a packet with what waits got nothing into flight, and no other is
/// tried.
pub open spec fn idle(kind: Kind, before: ConnModel, after: ConnModel) -> bool {
    kind == Kind::OneRtt && !before.one_shot() && before.egress.cc.bytes_in_flight
        == after.egress.cc.bytes_in_flight
}

impl Emitted {
    /// Whether a packet was wanted, built and noted.
    #[verifier::opaque]
    pub open spec fn went(self, i: int, kind: Kind, round: Round) -> bool {
        let m = self.states[i];
        let ceiling = m.ceiling(round.capacity);
        let (after, noted) = committed(self.built[i], kind, round, self.commits[i]);
        &&& m.wants(kind, round)
        &&& ceiling is Some
        &&& made(
            m,
            kind,
            round,
            ceiling->0,
            self.built[i],
            Some((self.packets[i], self.commits[i])),
        )
        &&& noted
        &&& self.states[i + 1] == marked(after, kind)
    }

    pub open spec fn count(self) -> int {
        self.packets.len() as int
    }

    /// Whether these packets were sent, as many as fit.
    pub open spec fn ran(self, kind: Kind, round: Round, before: ConnModel, remaining: int) -> bool {
        &&& self.states.len() == self.count() + 1
        &&& self.built.len() == self.count()
        &&& self.commits.len() == self.count()
        &&& self.count() <= remaining
        &&& self.states[0] == before
        &&& forall|i: int| 0 <= i < self.count() ==> #[trigger] self.went(i, kind, round)
        &&& forall|i: int|
            0 <= i < self.count() - 1 ==> !idle(kind, #[trigger] self.states[i], self.states[i + 1])
    }

    /// Whether no other packet of the kind was sent: none is wanted, there is no
    /// room for one, or none could be built.
    pub open spec fn stopped(
        self,
        kind: Kind,
        round: Round,
        remaining: int,
        after: ConnModel,
    ) -> bool {
        let m = self.states.last();
        let ceiling = m.ceiling(round.capacity);
        ||| after == m && (self.count() == remaining || !m.wants(kind, round) || ceiling is None)
        ||| after == m && kind == Kind::OneRtt && self.count() == ONE_RTT_ROUNDS
        ||| after == m && self.count() > 0 && idle(kind, self.states[self.count() - 1], m)
        ||| self.count() < remaining && m.wants(kind, round) && ceiling is Some && made(
            m,
            kind,
            round,
            ceiling->0,
            after,
            None,
        )
    }

    /// Whether a packet was sent that could not be noted: the connection is
    /// closed.
    pub open spec fn failed(
        self,
        kind: Kind,
        round: Round,
        middle: ConnModel,
        packet: Seq<u8>,
        commit: CommitModel,
        after: ConnModel,
    ) -> bool {
        let m = self.states.last();
        let ceiling = m.ceiling(round.capacity);
        &&& m.wants(kind, round)
        &&& ceiling is Some
        &&& made(m, kind, round, ceiling->0, middle, Some((packet, commit)))
        &&& (after, false) == committed(middle, kind, round, commit)
    }
}

/// Packets as sequences.
pub open spec fn packets_of(packets: Seq<Vec<u8>>) -> Seq<Seq<u8>> {
    packets.map_values(|packet: Vec<u8>| packet@)
}

/// Whether packets of a kind were sent as long as they are wanted and possible.
pub open spec fn ran_out(
    kind: Kind,
    round: Round,
    before: ConnModel,
    remaining: int,
    emitted: Emitted,
    after: ConnModel,
) -> bool {
    emitted.ran(kind, round, before, remaining) && emitted.stopped(kind, round, remaining, after)
}

/// Whether a packet could not be noted after others were sent.
pub open spec fn ran_into(
    kind: Kind,
    round: Round,
    before: ConnModel,
    remaining: int,
    emitted: Emitted,
    packet: Seq<u8>,
    after: ConnModel,
) -> bool {
    &&& emitted.ran(kind, round, before, remaining)
    &&& emitted.count() < remaining
    &&& exists|middle: ConnModel, commit: CommitModel| #[trigger]
        emitted.failed(kind, round, middle, packet, commit, after)
}

/// How many bytes packets have together.
pub open spec fn total(packets: Seq<Seq<u8>>) -> int
    decreases packets.len(),
{
    if packets.len() == 0 {
        0
    } else {
        total(packets.drop_last()) + packets.last().len()
    }
}

/// Whether packets keep to what they may be: none is longer than asked for, and before the
/// address of the peer is validated they are together, with what may follow them, no more
/// than what it may be sent.
#[verifier::opaque]
pub open spec fn keeps(
    before: ConnModel,
    after: ConnModel,
    packets: Seq<Seq<u8>>,
    capacity: int,
    open: bool,
) -> bool {
    &&& forall|i: int| 0 <= i < packets.len() ==> (#[trigger] packets[i]).len() <= capacity
    &&& after.egress.peer_address_validated == before.egress.peer_address_validated
    &&& !before.egress.peer_address_validated ==> total(packets) + (if open {
        after.amplification_left() as int
    } else {
        0
    }) <= before.amplification_left()
}

pub proof fn lemma_total(one: Seq<Seq<u8>>, two: Seq<Seq<u8>>)
    ensures
        total(one + two) == total(one) + total(two),
    decreases two.len(),
{
    if two.len() == 0 {
        assert(one + two =~= one);
    } else {
        lemma_total(one, two.drop_last());
        assert((one + two).drop_last() =~= one + two.drop_last());
    }
}

/// Whether packets are within what they may be: none is longer than asked for, and before
/// the address of the peer is validated they are together no more than what it may be sent.
pub open spec fn within(m: ConnModel, packets: Seq<Seq<u8>>, capacity: int) -> bool {
    &&& forall|i: int| 0 <= i < packets.len() ==> (#[trigger] packets[i]).len() <= capacity
    &&& !m.egress.peer_address_validated ==> total(packets) <= m.amplification_left()
}

pub proof fn lemma_total_bound(packets: Seq<Seq<u8>>)
    ensures
        total(packets) >= 0,
    decreases packets.len(),
{
    if packets.len() > 0 {
        lemma_total_bound(packets.drop_last());
    }
}

/// Where nothing is sent, everything keeps to what it may be.
pub proof fn lemma_keeps_none(m: ConnModel, after: ConnModel, capacity: int, open: bool)
    requires
        after.egress.peer_address_validated == m.egress.peer_address_validated,
        after.egress.amplification_received == m.egress.amplification_received,
        after.egress.amplification_sent == m.egress.amplification_sent,
    ensures
        keeps(m, after, Seq::empty(), capacity, open),
{
    reveal(keeps);
}

/// What keeps to its limits, one behind the other, does so together.
pub proof fn lemma_keeps_on(
    before: ConnModel,
    middle: ConnModel,
    after: ConnModel,
    one: Seq<Seq<u8>>,
    two: Seq<Seq<u8>>,
    capacity: int,
    open: bool,
)
    requires
        keeps(before, middle, one, capacity, true),
        keeps(middle, after, two, capacity, open),
    ensures
        keeps(before, after, one + two, capacity, open),
{
    reveal(keeps);
    lemma_total(one, two);
    assert forall|i: int| 0 <= i < (one + two).len() implies (#[trigger] (one + two)[i]).len()
        <= capacity by {
        if i >= one.len() {
            assert((one + two)[i] == two[i - one.len()]);
        }
    }
}

/// A packet that is no longer than it may be keeps to its limits.
pub proof fn lemma_keeps_one(
    m: ConnModel,
    middle: ConnModel,
    kind: Kind,
    round: Round,
    packet: Seq<u8>,
    commit: CommitModel,
)
    requires
        m.ceiling(round.capacity) is Some,
        packet.len() == commit.bytes,
        commit.bytes <= m.ceiling(round.capacity)->0,
        commit.bytes <= u64::MAX,
        middle.egress == m.egress,
    ensures
        keeps(
            m,
            marked(committed(middle, kind, round, commit).0, kind),
            seq![packet],
            round.capacity,
            committed(middle, kind, round, commit).1,
        ),
{
    reveal(keeps);
    lemma_sent_allowance(middle, commit, round.names, round.now);
    assert(seq![packet].drop_last() =~= Seq::empty());
    assert(total(Seq::<Seq<u8>>::empty()) == 0);
    assert(total(seq![packet]) == packet.len());
}

/// Whether one of some packets tells that the handshake is complete.
pub open spec fn tells_done(commits: Seq<CommitModel>) -> bool {
    exists|i: int|
        0 <= i < commits.len() && (#[trigger] commits[i]).controls.contains(Control::HandshakeDone)
}

fn has_done(controls: &Vec<Control>) -> (has: bool)
    ensures
        has == controls@.contains(Control::HandshakeDone),
{
    let mut i: usize = 0;
    while i < controls.len()
        invariant
            i <= controls@.len(),
            forall|j: int| 0 <= j < i ==> controls@[j] != Control::HandshakeDone,
        decreases controls@.len() - i,
    {
        match controls[i] {
            Control::HandshakeDone => {
                assert(controls@[i as int] == Control::HandshakeDone);
                return true;
            },
            _ => {},
        }
        i = i + 1;
    }
    false
}

impl Connection {
    fn one_shot(&self) -> (one: bool)
        requires
            self.wf(),
        ensures
            one == self@.one_shot(),
    {
        assert(self@.egress.datagrams.len() == self.egress.pending_datagrams@.len());
        !self.control.is_empty() || self.has_crypto(Epoch::Application)
            || self.streams.has_retransmit() || (self.ack_pending(Epoch::Application)
            && self.egress.pending_datagrams.len() == 0)
    }

    fn wants(&self, kind: Kind, now: Instant, pending: &Vec<u64>, round: Ghost<Round>) -> (wants:
        bool)
        requires
            self.wf(),
            round@.now == now,
            round@.pending == pending@,
        ensures
            wants == self@.wants(kind, round@),
    {
        assert(self@.egress.datagrams.len() == self.egress.pending_datagrams@.len());
        match kind {
            Kind::Pto => self.egress.pto_probe_allowance != 0,
            Kind::Initial => self.has_write_key(Epoch::Initial) && (self.has_crypto(
                Epoch::Initial,
            ) || self.ack_pending(Epoch::Initial)) && self.allows_emit_for(
                Cargo::CryptoOrAck,
                now,
            ),
            Kind::Early => self.keys.zero_rtt.is_some() && !self.has_write_key(Epoch::Application)
                && self.allows_emit_for(Cargo::CryptoOrAck, now),
            Kind::Handshake => self.has_write_key(Epoch::Handshake) && (self.has_crypto(
                Epoch::Handshake,
            ) || self.ack_pending(Epoch::Handshake)) && self.allows_emit_for(
                Cargo::CryptoOrAck,
                now,
            ),
            Kind::OneRtt => self.has_write_key(Epoch::Application) && (self.one_shot()
                || pending.len() > 0) && self.allows_emit_for(Cargo::CryptoOrAck, now),
            Kind::Datagram => self.egress.pending_datagrams.len() > 0 && self.allows_emit_for(
                Cargo::DatagramOnly,
                now,
            ),
        }
    }

    /// Builds a packet of application data once more.
    fn build_again(&mut self, dst: &mut Vec<u8>, max_packet_bytes: usize, round: Ghost<Round>) -> (
        result: Option<Commit>)
        requires
            old(self).wf(),
            old(dst)@ == Seq::<u8>::empty(),
            old(self)@.can_track_probe(Epoch::Application),
            round@.names == old(self).streams.names(),
        ensures
            final(self).wf(),
            final(self).streams.names() == old(self).streams.names(),
            final(self)@.path == old(self)@.path,
            again_made(
                old(self)@,
                round@,
                max_packet_bytes as int,
                final(self)@,
                match result {
                    Some(commit) => Some((final(dst)@, commit@)),
                    None => None,
                },
            ),
            final(self)@.egress == old(self)@.egress,
            result matches Some(commit) ==> commit.bytes <= max_packet_bytes && final(dst)@.len()
                == commit.bytes,
    {
        let ghost m = self@;
        let ghost capacity = max_packet_bytes as int;
        if self.has_write_key(Epoch::Application) {
            let result = self.build_one_rtt_again(dst, max_packet_bytes);
            proof {
                let (draft, probing) = choose|draft: DraftModel, probing: Probing|
                    #![trigger resent_as(m, draft, round@.names, probing)]
                    {
                        &&& acks(
                            DraftModel::empty(m.room(Epoch::Application, capacity)),
                            m.received.application,
                            draft,
                        )
                        &&& resent_as(m, draft, round@.names, probing)
                        &&& self@ == with_journal(m, probing)
                        &&& built(Seq::empty(), dst@, result, m.short_probe(probing.draft))
                    };
                lemma_built(dst@, result, m.short_probe(probing.draft));
                assert(resent_as(m, draft, round@.names, probing));
            }
            return result;
        }
        let result = self.build_zero_rtt_again(dst, max_packet_bytes);
        proof {
            if m.keys.zero_rtt is Some {
                let start = DraftModel::empty(m.early_room(capacity));
                let probing = choose|probing: Probing|
                    #![trigger probed_as(m, start, round@.names, probing)]
                    {
                        &&& probed_as(m, start, round@.names, probing)
                        &&& self@ == with_journal(m, probing)
                        &&& built(Seq::empty(), dst@, result, early_again(m, probing))
                    };
                lemma_built(dst@, result, early_again(m, probing));
                assert(probed_as(m, start, round@.names, probing));
            }
        }
        result
    }

    /// Builds a packet to learn whether the peer is there.
    fn build_pto_probe(&mut self, dst: &mut Vec<u8>, max_packet_bytes: usize, round: Ghost<Round>)
        -> (result: Option<Commit>)
        requires
            old(self).wf(),
            old(dst)@ == Seq::<u8>::empty(),
            round@.names == old(self).streams.names(),
        ensures
            final(self).wf(),
            final(self).streams.names() == old(self).streams.names(),
            final(self)@.path == old(self)@.path,
            made(
                old(self)@,
                Kind::Pto,
                round@,
                max_packet_bytes as int,
                final(self)@,
                match result {
                    Some(commit) => Some((final(dst)@, commit@)),
                    None => None,
                },
            ),
            bounded(old(self)@, Kind::Pto) ==> final(self)@.egress == old(self)@.egress && (
            result matches Some(commit) ==> commit.bytes <= max_packet_bytes && final(dst)@.len()
                == commit.bytes),
    {
        reveal(made);
        let epoch = match self.egress.pto_probe_epoch {
            Some(epoch) => epoch,
            None => {
                return None;
            },
        };
        if !self.can_track_probe(epoch) {
            return None;
        }
        if epoch == Epoch::Application {
            return self.build_again(dst, max_packet_bytes, round);
        }
        let ghost m = self@;
        let result = self.build_crypto_packet(dst, max_packet_bytes, epoch, true);
        proof {
            lemma_crypto_made(m, epoch, max_packet_bytes as int, true, dst@, result);
        }
        result
    }
}

impl Connection {
    /// Builds a packet of a kind.
    fn build(
        &mut self,
        kind: Kind,
        dst: &mut Vec<u8>,
        max_packet_bytes: usize,
        pending: &Vec<u64>,
        round: Ghost<Round>,
    ) -> (result: Option<Commit>)
        requires
            old(self).wf(),
            old(dst)@ == Seq::<u8>::empty(),
            round@.names == old(self).streams.names(),
            round@.pending == pending@,
        ensures
            final(self).wf(),
            final(self).streams.names() == old(self).streams.names(),
            made(
                old(self)@,
                kind,
                round@,
                max_packet_bytes as int,
                final(self)@,
                match result {
                    Some(commit) => Some((final(dst)@, commit@)),
                    None => None,
                },
            ),
            kind == Kind::Datagram ==> (result matches Some(commit) ==> commit.epoch
                == Epoch::Application),
            bounded(old(self)@, kind) ==> final(self)@.egress == old(self)@.egress && (
            result matches Some(commit) ==> commit.bytes <= max_packet_bytes && final(dst)@.len()
                == commit.bytes),
    {
        reveal(made);
        let ghost m = self@;
        let ghost capacity = max_packet_bytes as int;
        match kind {
            Kind::Pto => self.build_pto_probe(dst, max_packet_bytes, round),
            Kind::Initial => {
                let result = self.build_crypto_packet(dst, max_packet_bytes, Epoch::Initial, false);
                proof {
                    lemma_crypto_made(m, Epoch::Initial, capacity, false, dst@, result);
                }
                result
            },
            Kind::Handshake => {
                let result = self.build_crypto_packet(
                    dst,
                    max_packet_bytes,
                    Epoch::Handshake,
                    false,
                );
                proof {
                    lemma_crypto_made(m, Epoch::Handshake, capacity, false, dst@, result);
                }
                result
            },
            Kind::Early => {
                let result = self.build_zero_rtt(dst, max_packet_bytes, pending);
                proof {
                    lemma_built(
                        dst@,
                        result,
                        if m.keys.zero_rtt is None || !m.can_track_packet() {
                            None
                        } else {
                            m.early_built(
                                sent_early(
                                    m.streams,
                                    DraftModel::empty(m.early_room(capacity)),
                                    m.peer_params_known,
                                    pending@,
                                    0,
                                ),
                                false,
                            )
                        },
                    );
                }
                result
            },
            Kind::OneRtt => {
                let result = self.build_one_rtt(dst, max_packet_bytes, pending);
                proof {
                    let draft = choose|draft: DraftModel|
                        #![trigger m.one_rtt(draft, round@.names, pending@)]
                        {
                            let (after, done) = m.one_rtt(draft, round@.names, pending@);
                            &&& acks(
                                DraftModel::empty(m.room(Epoch::Application, capacity)),
                                m.received.application,
                                draft,
                            )
                            &&& self@ == after
                            &&& built(Seq::empty(), dst@, result, m.short_built(done))
                        };
                    let (after, done) = m.one_rtt(draft, round@.names, pending@);
                    lemma_built(dst@, result, m.short_built(done));
                    reveal(ConnModel::one_rtt);
                }
                result
            },
            Kind::Datagram => {
                let result = self.build_datagram(dst, max_packet_bytes);
                proof {
                    if !((m.egress.datagram_congestion_control == CongestionControl::Standard
                        && !m.can_track_packet()) || m.egress.datagrams.len() == 0) {
                        let draft = choose|draft: DraftModel|
                            #![trigger m.datagram_packet(draft)]
                            acks(
                                DraftModel::empty(m.room(Epoch::Application, capacity)),
                                m.received.application,
                                draft,
                            ) && built(Seq::empty(), dst@, result, m.datagram_packet(draft));
                        lemma_built(dst@, result, m.datagram_packet(draft));
                        reveal(ConnModel::datagram_packet);
                    }
                }
                result
            },
        }
    }

    /// Sends packets of a kind as long as they are wanted and possible. Gives how
    /// many more may be sent, whether all could be noted, and whether one tells
    /// that the handshake is complete.
    pub(crate) fn run(
        &mut self,
        kind: Kind,
        out: &mut Vec<Vec<u8>>,
        now: Instant,
        remaining: usize,
        max_packet_bytes: usize,
        pending: &Vec<u64>,
        round: Ghost<Round>,
    ) -> (result: (usize, bool, bool))
        requires
            old(self).wf(),
            round@.names == old(self).streams.names(),
            round@.pending == pending@,
            round@.now == now,
            round@.capacity == max_packet_bytes,
        ensures
            final(self).wf(),
            final(self).streams.names() == old(self).streams.names(),
            old(out)@.len() <= final(out)@.len(),
            packets_of(final(out)@).subrange(0, old(out)@.len() as int) == packets_of(old(out)@),
            kind == Kind::Pto && old(self)@.egress.pto_probe_allowance == 0 ==> final(self)@ == old(
                self,
            )@ && final(out)@ == old(out)@ && result.1,
            bounded(old(self)@, kind) ==> keeps(
                old(self)@,
                final(self)@,
                packets_of(final(out)@).subrange(
                    old(out)@.len() as int,
                    final(out)@.len() as int,
                ),
                max_packet_bytes as int,
                result.1,
            ),
            if result.1 {
                exists|emitted: Emitted|
                    #![trigger ran_out(kind, round@, old(self)@, remaining as int, emitted, final(self)@)]
                    {
                        &&& ran_out(
                            kind,
                            round@,
                            old(self)@,
                            remaining as int,
                            emitted,
                            final(self)@,
                        )
                        &&& packets_of(final(out)@) == packets_of(old(out)@) + emitted.packets
                        &&& result.0 == remaining - emitted.count()
                        &&& result.2 == tells_done(emitted.commits)
                    }
            } else {
                exists|emitted: Emitted, packet: Seq<u8>|
                    #![trigger ran_into(kind, round@, old(self)@, remaining as int, emitted, packet, final(self)@)]
                    {
                        &&& ran_into(
                            kind,
                            round@,
                            old(self)@,
                            remaining as int,
                            emitted,
                            packet,
                            final(self)@,
                        )
                        &&& packets_of(final(out)@) == packets_of(old(out)@) + emitted.packets.push(
                            packet,
                        )
                    }
            },
    {
        let ghost start = self@;
        let ghost mut e = Emitted {
            states: seq![self@],
            built: Seq::empty(),
            packets: Seq::empty(),
            commits: Seq::empty(),
        };
        let mut left: usize = remaining;
        let mut done = false;
        let mut rounds: usize = 0;
        assert(packets_of(out@) =~= packets_of(old(out)@) + e.packets);
        proof {
            lemma_keeps_none(start, self@, max_packet_bytes as int, true);
        }
        loop
            invariant
                self.wf(),
                self.streams.names() == old(self).streams.names(),
                round@.names == self.streams.names(),
                round@.pending == pending@,
                round@.now == now,
                round@.capacity == max_packet_bytes,
                start == old(self)@,
                left == remaining - e.count(),
                rounds == e.count(),
                e.ran(kind, round@, start, remaining as int),
                e.states.last() == self@,
                e.count() > 0 ==> !idle(kind, e.states[e.count() - 1], e.states[e.count()]),
                packets_of(out@) == packets_of(old(out)@) + e.packets,
                done == tells_done(e.commits),
                kind == Kind::Pto && start.egress.pto_probe_allowance == 0 ==> self@ == start && out@
                    == old(out)@,
                bounded(start, kind) ==> bounded(self@, kind),
                bounded(start, kind) ==> keeps(
                    start,
                    self@,
                    e.packets,
                    max_packet_bytes as int,
                    true,
                ),
            decreases left,
        {
            let ghost m = self@;
            if left == 0 || (kind == Kind::OneRtt && rounds == ONE_RTT_ROUNDS) || !self.wants(
                kind,
                now,
                pending,
                round,
            ) {
                assert(ran_out(kind, round@, start, remaining as int, e, self@));
                proof {
                    lemma_added(old(out)@, out@, e.packets);
                }
                return (left, true, done);
            }
            let one_shot = self.one_shot();
            let before: u64 = self.egress.cc.bytes_in_flight;
            let ceiling: usize = match self.emission_ceiling(max_packet_bytes) {
                Some(ceiling) => ceiling,
                None => {
                    assert(ran_out(kind, round@, start, remaining as int, e, self@));
                    proof {
                        lemma_added(old(out)@, out@, e.packets);
                    }
                    return (left, true, done);
                },
            };
            let mut packet: Vec<u8> = Vec::new();
            assert(packet@ =~= Seq::<u8>::empty());
            let commit = match self.build(kind, &mut packet, ceiling, pending, round) {
                Some(commit) => commit,
                None => {
                    assert(ran_out(kind, round@, start, remaining as int, e, self@));
                    proof {
                        lemma_added(old(out)@, out@, e.packets);
                        if bounded(start, kind) {
                            lemma_keeps_none(m, self@, max_packet_bytes as int, true);
                            lemma_keeps_on(
                                start,
                                m,
                                self@,
                                e.packets,
                                Seq::empty(),
                                max_packet_bytes as int,
                                true,
                            );
                            assert(e.packets + Seq::empty() =~= e.packets);
                        }
                    }
                    return (left, true, done);
                },
            };
            let ghost middle = self@;
            let ghost bytes = packet@;
            let ghost c = commit@;
            let tells = has_done(&commit.controls);
            let ghost earlier = out@;
            out.push(packet);
            assert(packets_of(out@) =~= packets_of(earlier).push(bytes));
            let noted = if kind == Kind::Datagram {
                self.commit_datagram(&commit, now)
            } else {
                self.commit_packet(&commit, now)
            };
            if !noted {
                proof {
                    assert(e.failed(kind, round@, middle, bytes, c, self@));
                    assert(ran_into(
                        kind,
                        round@,
                        start,
                        remaining as int,
                        e,
                        bytes,
                        self@,
                    ));
                    assert(packets_of(out@) =~= packets_of(old(out)@) + e.packets.push(bytes));
                    lemma_added(old(out)@, out@, e.packets.push(bytes));
                    if bounded(start, kind) {
                        lemma_keeps_one(m, middle, kind, round@, bytes, c);
                        lemma_keeps_on(
                            start,
                            m,
                            marked(self@, kind),
                            e.packets,
                            seq![bytes],
                            max_packet_bytes as int,
                            false,
                        );
                        assert(e.packets + seq![bytes] =~= e.packets.push(bytes));
                        lemma_keeps_marked(
                            start,
                            self@,
                            kind,
                            e.packets.push(bytes),
                            max_packet_bytes as int,
                            false,
                        );
                    }
                }
                return (left, false, done);
            }
            if kind == Kind::Initial {
                self.egress.sent_initial = true;
            }
            left = left - 1;
            if rounds < usize::MAX {
                rounds = rounds + 1;
            }
            let ghost next = Emitted {
                states: e.states.push(self@),
                built: e.built.push(middle),
                packets: e.packets.push(bytes),
                commits: e.commits.push(c),
            };
            proof {
                assert(self@ == marked(committed(middle, kind, round@, c).0, kind));
                lemma_went(e, next, kind, round@, start, remaining as int, middle, bytes, c, self@);
                lemma_tells(e.commits, c);
                assert(packets_of(out@) =~= packets_of(old(out)@) + next.packets);
                if bounded(start, kind) {
                    lemma_keeps_one(m, middle, kind, round@, bytes, c);
                    lemma_sent_allowance(middle, c, round@.names, now);
                    lemma_keeps_on(
                        start,
                        m,
                        self@,
                        e.packets,
                        seq![bytes],
                        max_packet_bytes as int,
                        true,
                    );
                    assert(e.packets + seq![bytes] =~= next.packets);
                }
            }
            let stuck = kind == Kind::OneRtt && !one_shot && self.egress.cc.bytes_in_flight
                == before;
            proof {
                assert(stuck == idle(kind, m, self@));
                e = next;
                assert(e.states[e.count() - 1] == m);
                assert(e.states[e.count()] == self@);
            }
            done = done || tells;
            if stuck {
                assert(ran_out(kind, round@, start, remaining as int, e, self@));
                proof {
                    lemma_added(old(out)@, out@, e.packets);
                }
                return (left, true, done);
            }
        }
    }
}

/// The packets behind those that were there are those that were added.
proof fn lemma_added(before: Seq<Vec<u8>>, after: Seq<Vec<u8>>, more: Seq<Seq<u8>>)
    requires
        packets_of(after) == packets_of(before) + more,
    ensures
        before.len() <= after.len(),
        packets_of(after).subrange(0, before.len() as int) == packets_of(before),
        packets_of(after).subrange(before.len() as int, after.len() as int) == more,
{
    assert(packets_of(after).len() == after.len());
    assert(packets_of(before).len() == before.len());
    assert(packets_of(after).subrange(0, before.len() as int) =~= packets_of(before));
    assert(packets_of(after).subrange(before.len() as int, after.len() as int) =~= more);
}

/// That a first packet was sent changes nothing.
proof fn lemma_keeps_marked(
    before: ConnModel,
    after: ConnModel,
    kind: Kind,
    packets: Seq<Seq<u8>>,
    capacity: int,
    open: bool,
)
    requires
        keeps(before, marked(after, kind), packets, capacity, open),
    ensures
        keeps(before, after, packets, capacity, open),
{
    reveal(keeps);
}

proof fn lemma_tells(commits: Seq<CommitModel>, c: CommitModel)
    ensures
        tells_done(commits.push(c)) == (tells_done(commits) || c.controls.contains(
            Control::HandshakeDone,
        )),
{
    let more = commits.push(c);
    if tells_done(commits) {
        let i = choose|i: int|
            0 <= i < commits.len() && (#[trigger] commits[i]).controls.contains(
                Control::HandshakeDone,
            );
        assert(more[i].controls.contains(Control::HandshakeDone));
    }
    if c.controls.contains(Control::HandshakeDone) {
        assert(more[commits.len() as int].controls.contains(Control::HandshakeDone));
    }
    if tells_done(more) {
        let i = choose|i: int|
            0 <= i < more.len() && (#[trigger] more[i]).controls.contains(Control::HandshakeDone);
        if i < commits.len() {
            assert(commits[i].controls.contains(Control::HandshakeDone));
        }
    }
}

/// One more packet was sent.
proof fn lemma_went(
    e: Emitted,
    next: Emitted,
    kind: Kind,
    round: Round,
    start: ConnModel,
    remaining: int,
    middle: ConnModel,
    bytes: Seq<u8>,
    c: CommitModel,
    after: ConnModel,
)
    requires
        e.ran(kind, round, start, remaining),
        e.count() < remaining,
        e.count() > 0 ==> !idle(kind, e.states[e.count() - 1], e.states[e.count()]),
        next == (Emitted {
            states: e.states.push(after),
            built: e.built.push(middle),
            packets: e.packets.push(bytes),
            commits: e.commits.push(c),
        }),
        e.states.last().wants(kind, round),
        e.states.last().ceiling(round.capacity) is Some,
        made(
            e.states.last(),
            kind,
            round,
            e.states.last().ceiling(round.capacity)->0,
            middle,
            Some((bytes, c)),
        ),
        committed(middle, kind, round, c).1,
        after == marked(committed(middle, kind, round, c).0, kind),
    ensures
        next.ran(kind, round, start, remaining),
{
    reveal(Emitted::went);
    assert forall|i: int| 0 <= i < next.count() implies #[trigger] next.went(i, kind, round) by {
        if i < e.count() {
            assert(e.went(i, kind, round));
            assert(next.states[i] == e.states[i]);
            assert(next.states[i + 1] == e.states[i + 1]);
            assert(next.built[i] == e.built[i]);
            assert(next.packets[i] == e.packets[i]);
            assert(next.commits[i] == e.commits[i]);
        } else {
            assert(next.states[i] == e.states.last());
        }
    }
    assert forall|i: int| 0 <= i < next.count() - 1 implies !idle(
        kind,
        #[trigger] next.states[i],
        next.states[i + 1],
    ) by {
        assert(next.states[i] == e.states[i]);
        assert(next.states[i + 1] == e.states[i + 1]);
    }
}

/// The packet of early data that was in flight.
pub open spec fn early_again(m: ConnModel, probing: Probing) -> Option<(Seq<u8>, CommitModel)> {
    if alive(probing.draft).ack_eliciting {
        m.early_built(alive(probing.draft), true)
    } else {
        None
    }
}

/// What was built into an empty buffer is what the buffer holds.
pub proof fn lemma_built(
    dst: Seq<u8>,
    result: Option<Commit>,
    packet: Option<(Seq<u8>, CommitModel)>,
)
    requires
        built(Seq::empty(), dst, result, packet),
    ensures
        packet == match result {
            Some(commit) => Some((dst, commit@)),
            None => None,
        },
{
    if packet is Some {
        let (bytes, commit) = packet->0;
        assert(Seq::<u8>::empty() + bytes =~= bytes);
    }
}

proof fn lemma_crypto_made(
    m: ConnModel,
    epoch: Epoch,
    capacity: int,
    probe: bool,
    dst: Seq<u8>,
    result: Option<Commit>,
)
    requires
        if !m.crypto_ready(epoch, capacity) {
            result is None
        } else {
            exists|draft: DraftModel|
                #![trigger m.crypto_packet(draft, epoch, probe)]
                acks(DraftModel::empty(m.room(epoch, capacity)), m.received.of(epoch), draft)
                    && built(
                    Seq::empty(),
                    dst,
                    result,
                    m.crypto_packet(draft, epoch, probe),
                )
        },
    ensures
        crypto_made(
            m,
            epoch,
            capacity,
            probe,
            match result {
                Some(commit) => Some((dst, commit@)),
                None => None,
            },
        ),
{
    if m.crypto_ready(epoch, capacity) {
        let draft = choose|draft: DraftModel|
            #![trigger m.crypto_packet(draft, epoch, probe)]
            acks(DraftModel::empty(m.room(epoch, capacity)), m.received.of(epoch), draft)
                && built(
                Seq::empty(),
                dst,
                result,
                m.crypto_packet(draft, epoch, probe),
            );
        lemma_built(dst, result, m.crypto_packet(draft, epoch, probe));
    }
}

/// Packets are sent only where the peer's address, the congestion window and the pacer let
/// them; but for those that are to learn whether the peer is there, and for datagrams that
/// wait for no window.
pub proof fn law_wanted_where_allowed(connection: ConnModel, kind: Kind, round: Round)
    requires
        connection.wants(kind, round),
    ensures
        kind == Kind::Pto ==> connection.egress.pto_probe_allowance > 0,
        kind != Kind::Pto ==> connection.amplification_left() > 0,
        kind != Kind::Pto && kind != Kind::Datagram ==> connection.egress.cc.bytes_in_flight
            < connection.egress.cc.cwnd && (connection.egress.burst > 0
            || connection.egress.release <= round.now),
        kind == Kind::Datagram ==> connection.egress.datagrams.len() > 0,
        kind == Kind::Initial ==> connection.keys.epochs.initial is Some && (
        connection.crypto.initial.has_sendable() || connection.received.initial.ack_pending),
        kind == Kind::Handshake ==> connection.keys.epochs.handshake is Some && (
        connection.crypto.handshake.has_sendable() || connection.received.handshake.ack_pending),
        kind == Kind::Early ==> connection.keys.zero_rtt is Some
            && connection.keys.epochs.application is None,
        kind == Kind::OneRtt ==> connection.keys.epochs.application is Some,
{
}

/// A connection remembers that it sent an Initial packet, and forgets nothing.
pub proof fn law_initial_remembered(connection: ConnModel, kind: Kind)
    ensures
        marked(connection, kind).egress.sent_initial == (connection.egress.sent_initial || kind
            == Kind::Initial),
        marked(connection, kind).egress.cc == connection.egress.cc,
        marked(connection, kind).streams == connection.streams,
{
}

} // verus!
