//! All that a connection sends at a time.
use vstd::prelude::*;

use crate::clock::Instant;
use crate::conn::control::{Control, PendingModel};
use crate::conn::stream_journal::model::SendHandle;
use crate::conn::streams::state::drain::Draining;
use crate::conn::streams::state::emit::{snapshot, Snapshot};
use crate::conn::transmit::builder::CommitModel;
use crate::conn::transmit::connection::{
    CloseModel, CongestionControl, ConnModel, Connection, EgressModel, Epochs, PendingClose,
    WriteKeys,
};
use crate::conn::transmit::crypto::Epoch;
use crate::conn::transmit::draft::PACKET_CONTROL_CAPACITY;
use crate::conn::transmit::eligibility::Cargo;
use crate::conn::transmit::emission::{
    all_bounded, bounded, keeps, lemma_built, lemma_keeps_none, lemma_keeps_on, lemma_keeps_one,
    lemma_total, lemma_total_bound, packets_of, ran_into, ran_out, tells_done, within, Emitted, Kind, Round,
    MAX_BATCH_PACKETS,
};
use crate::pmtud::MAX_PMTU;

verus! {

/// The error with which a connection is closed that has no room for a control
/// record.
pub const INTERNAL_ERROR: u64 = 1;

/// The reason that the peer is told then.
pub const CONTROL_CAPACITY_REASON: [u8; 16] = [
    0x63, 0x6f, 0x6e, 0x74, 0x72, 0x6f, 0x6c, 0x20, 0x63, 0x61, 0x70, 0x61, 0x63, 0x69, 0x74, 0x79,
];

/// Packets as they are sent at a time.
#[verifier::ext_equal]
pub struct BatchModel {
    pub conn: ConnModel,
    pub out: Seq<Seq<u8>>,
    /// How many more may be sent.
    pub left: int,
    /// Whether others may follow.
    pub open: bool,
    /// Whether the peer was told that the handshake is complete.
    pub done: bool,
}

/// Control records that are owed, after as many were queued as fit.
pub open spec fn reconciled(owed: Seq<Control>, control: PendingModel, work: int) -> (
    Seq<Control>,
    PendingModel,
)
    decreases owed.len(),
{
    if owed.len() == 0 || work <= 0 || !control.has_room() {
        (owed, control)
    } else {
        reconciled(owed.subrange(1, owed.len() as int), control.queued(owed[0]), work - 1)
    }
}

impl ConnModel {
    /// The connection, to be closed if a control record was lost for want of
    /// room.
    #[verifier::opaque]
    pub open spec fn overflow_closed(self) -> ConnModel {
        ConnModel {
            control: PendingModel { overflowed: false, ..self.control },
            egress: EgressModel {
                pending_close: if self.control.overflowed && self.egress.pending_close is None {
                    Some(
                        CloseModel {
                            is_application: false,
                            error_code: INTERNAL_ERROR,
                            frame_type: 0,
                            reason: CONTROL_CAPACITY_REASON@,
                        },
                    )
                } else {
                    self.egress.pending_close
                },
                ..self.egress
            },
            ..self
        }
    }

    /// After control records that are owed were queued.
    #[verifier::opaque]
    pub open spec fn controls_queued(self, work: int) -> ConnModel {
        let (owed, control) = reconciled(self.egress.owed, self.control, work);
        let drained = Draining {
            state: self.streams,
            control,
            remaining: work,
            open: true,
        }.drained();
        ConnModel {
            streams: drained.state,
            control: drained.control,
            egress: EgressModel { owed, ..self.egress },
            ..self
        }
    }

    /// Whether there is nothing to send but datagrams, which wait for nothing.
    #[verifier::opaque]
    pub open spec fn only_datagrams(self) -> bool {
        &&& self.keys.epochs.application is Some
        &&& self.egress.datagram_congestion_control == CongestionControl::Uncongested
        &&& self.egress.datagrams.len() > 0
        &&& self.egress.pto_probe_allowance == 0
        &&& self.egress.pending_close is None
        &&& !self.crypto.initial.has_sendable() && !self.received.initial.ack_pending
        &&& !self.crypto.handshake.has_sendable() && !self.received.handshake.ack_pending
        &&& self.control.records.len() == 0
        &&& self.egress.owed.len() == 0
        &&& !self.crypto.application.has_sendable()
        &&& self.streams.journal.retry_groups.len() == 0
        &&& self.streams.send_schedule.len() == 0
        &&& self.probe_size() is None
    }

    /// After the keys of earlier epochs were given up: those of the first once a
    /// Handshake packet was sent, and a server those of the second once it told
    /// that the handshake is complete.
    pub open spec fn keys_discarded(self, handshake_sent: bool, done: bool) -> ConnModel {
        ConnModel {
            keys: WriteKeys {
                epochs: Epochs {
                    initial: if handshake_sent {
                        None
                    } else {
                        self.keys.epochs.initial
                    },
                    handshake: if done && !self.is_client {
                        None
                    } else {
                        self.keys.epochs.handshake
                    },
                    ..self.keys.epochs
                },
                ..self.keys
            },
            ..self
        }
    }
}

impl BatchModel {
    /// Whether packets of a kind were sent.
    #[verifier::opaque]
    pub open spec fn phase(self, kind: Kind, round: Round, after: BatchModel) -> bool {
        if !self.open {
            after == self
        } else if after.open {
            exists|emitted: Emitted|
                #![trigger ran_out(kind, round, self.conn, self.left, emitted, after.conn)]
                {
                    &&& ran_out(kind, round, self.conn, self.left, emitted, after.conn)
                    &&& after == (BatchModel {
                        conn: after.conn,
                        out: self.out + emitted.packets,
                        left: self.left - emitted.count(),
                        open: true,
                        done: self.done || (kind == Kind::OneRtt && tells_done(emitted.commits)),
                    })
                }
        } else {
            exists|emitted: Emitted, packet: Seq<u8>|
                #![trigger ran_into(kind, round, self.conn, self.left, emitted, packet, after.conn)]
                {
                    &&& ran_into(kind, round, self.conn, self.left, emitted, packet, after.conn)
                    &&& after.out == self.out + emitted.packets.push(packet)
                }
        }
    }

    /// Whether the packet that closes the connection was sent, if it is to be and
    /// can be. Nothing follows it.
    #[verifier::opaque]
    pub open spec fn closing(self, round: Round, after: BatchModel) -> bool {
        let m = self.conn;
        let ceiling = m.ceiling(round.capacity);
        if !self.open || m.keys.epochs.application is None || self.left == 0
            || m.egress.pending_close is None || ceiling is None || m.close_packet(ceiling->0)
            is None {
            after == self
        } else {
            let (packet, commit) = m.close_packet(ceiling->0)->0;
            after == (BatchModel {
                conn: m.sent(commit, round.names, round.now).0,
                out: self.out.push(packet),
                open: false,
                ..self
            })
        }
    }

    /// Whether a packet that tells how long packets can be was sent, if it is to
    /// be and can be.
    #[verifier::opaque]
    pub open spec fn sizing(self, round: Round, after: BatchModel) -> bool {
        let m = self.conn;
        let size = m.probe_size();
        let ceiling = m.ceiling(round.capacity);
        if !self.open || m.keys.epochs.application is None || self.left == 0 || size is None
            || !m.allows(Cargo::CryptoOrAck, round.now) || ceiling is None || m.size_probe(
            size->0,
            ceiling->0,
        ) is None {
            after == self
        } else {
            let (packet, commit) = m.size_probe(size->0, ceiling->0)->0;
            let (conn, noted) = m.sent(commit, round.names, round.now);
            after == (BatchModel { conn, out: self.out.push(packet), open: noted, ..self })
        }
    }
}

/// The stages of a batch.
pub struct Stages {
    pub pto: BatchModel,
    pub initial: BatchModel,
    pub early: BatchModel,
    pub handshake: BatchModel,
    pub close: BatchModel,
    pub one_rtt: BatchModel,
    pub datagram: BatchModel,
    pub size: BatchModel,
}

/// Whether a batch went through its stages up to the packet that closes the connection.
pub open spec fn fronted(start: BatchModel, round: Round, s: Stages) -> bool {
    &&& start.phase(Kind::Pto, round, s.pto)
    &&& s.pto.phase(Kind::Initial, round, s.initial)
    &&& s.initial.phase(Kind::Early, round, s.early)
    &&& s.early.phase(Kind::Handshake, round, s.handshake)
    &&& s.handshake.closing(round, s.close)
}

/// Whether a batch went through the stages with application data.
pub open spec fn backed(
    close: BatchModel,
    round: Round,
    wide: Round,
    one_rtt: BatchModel,
    datagram: BatchModel,
    size: BatchModel,
) -> bool {
    if close.conn.keys.epochs.application is None {
        size == close
    } else {
        &&& close.phase(Kind::OneRtt, round, one_rtt)
        &&& one_rtt.phase(Kind::Datagram, round, datagram)
        &&& datagram.sizing(wide, size)
    }
}

/// Whether a batch went through its stages, one after the other.
pub open spec fn staged(
    start: BatchModel,
    round: Round,
    wide: Round,
    s: Stages,
) -> bool {
    fronted(start, round, s) && backed(s.close, round, wide, s.one_rtt, s.datagram, s.size)
}

/// What a connection is like after a batch, given the stages.
pub open spec fn batch_end(s: Stages) -> ConnModel {
    if s.size.open {
        s.size.conn.keys_discarded(s.handshake.left < s.early.left, s.size.done)
    } else {
        s.size.conn
    }
}

/// The least of two numbers.
pub open spec fn least(a: int, b: int) -> int {
    if a < b {
        a
    } else {
        b
    }
}

/// Whether a batch of packets was sent.
pub open spec fn filled(
    before: ConnModel,
    out: Seq<Seq<u8>>,
    names: spec_fn(SendHandle) -> Option<u64>,
    now: Instant,
    max_packets: int,
    max_packet_bytes: int,
    after: ConnModel,
    sent: Seq<Seq<u8>>,
) -> bool {
    let work = least(max_packets, MAX_BATCH_PACKETS as int) * PACKET_CONTROL_CAPACITY;
    let checked = before.overflow_closed();
    if checked.egress.closed {
        after == checked && sent == out
    } else {
        let queued = checked.controls_queued(work);
        let normal = least(max_packet_bytes, queued.egress.pmtud.current as int);
        let start = BatchModel {
            conn: queued,
            out,
            left: max_packets,
            open: true,
            done: false,
        };
        if queued.only_datagrams() {
            let round = Round { now, capacity: normal, pending: Seq::empty(), names };
            exists|end: BatchModel|
                #![trigger start.phase(Kind::Datagram, round, end)]
                start.phase(Kind::Datagram, round, end) && after == end.conn && sent == end.out
        } else {
            let snap = snapshot(
                Snapshot {
                    state: queued.streams,
                    control: queued.control,
                    found: Seq::empty(),
                },
                work,
                queued.streams.send_schedule,
            );
            let ready = BatchModel {
                conn: ConnModel { streams: snap.state, control: snap.control, ..queued },
                ..start
            };
            let round = Round { now, capacity: normal, pending: snap.found, names };
            let wide = Round { capacity: max_packet_bytes, ..round };
            exists|s: Stages| #[trigger]
                staged(ready, round, wide, s) && after == batch_end(s) && sent == s.size.out
        }
    }
}

/// Whether no more packets went out than may.
spec fn counted(batch: BatchModel, most: int) -> bool {
    if batch.open {
        batch.left >= 0 && batch.out.len() + batch.left == most
    } else {
        batch.out.len() <= most
    }
}

/// Packets of a kind are no more than may go out.
proof fn lemma_phase_counted(
    before: BatchModel,
    kind: Kind,
    round: Round,
    after: BatchModel,
    most: int,
)
    requires
        counted(before, most),
        before.phase(kind, round, after),
    ensures
        counted(after, most),
        before.out.is_prefix_of(after.out),
{
    reveal(BatchModel::phase);
    if before.open {
        if after.open {
            let emitted = choose|emitted: Emitted|
                #![trigger ran_out(kind, round, before.conn, before.left, emitted, after.conn)]
                {
                    &&& ran_out(kind, round, before.conn, before.left, emitted, after.conn)
                    &&& after == (BatchModel {
                        conn: after.conn,
                        out: before.out + emitted.packets,
                        left: before.left - emitted.count(),
                        open: true,
                        done: before.done || (kind == Kind::OneRtt && tells_done(emitted.commits)),
                    })
                };
            assert(after.out == before.out + emitted.packets);
        } else {
            let (emitted, packet) = choose|emitted: Emitted, packet: Seq<u8>|
                #![trigger ran_into(kind, round, before.conn, before.left, emitted, packet, after.conn)]
                {
                    &&& ran_into(kind, round, before.conn, before.left, emitted, packet, after.conn)
                    &&& after.out == before.out + emitted.packets.push(packet)
                };
            assert(after.out == before.out + emitted.packets.push(packet));
        }
    }
}

/// No more packets go out at a time than may, and they go behind those that are there.
pub proof fn law_batch_counted(
    before: ConnModel,
    out: Seq<Seq<u8>>,
    names: spec_fn(SendHandle) -> Option<u64>,
    now: Instant,
    max_packets: int,
    max_packet_bytes: int,
    after: ConnModel,
    sent: Seq<Seq<u8>>,
)
    requires
        max_packets >= 0,
        filled(before, out, names, now, max_packets, max_packet_bytes, after, sent),
    ensures
        out.is_prefix_of(sent),
        sent.len() <= out.len() + max_packets,
{
    let work = least(max_packets, MAX_BATCH_PACKETS as int) * PACKET_CONTROL_CAPACITY;
    let checked = before.overflow_closed();
    let most = out.len() + max_packets;
    if !checked.egress.closed {
        let queued = checked.controls_queued(work);
        let normal = least(max_packet_bytes, queued.egress.pmtud.current as int);
        let start = BatchModel { conn: queued, out, left: max_packets, open: true, done: false };
        if queued.only_datagrams() {
            let round = Round { now, capacity: normal, pending: Seq::empty(), names };
            let end = choose|end: BatchModel|
                #![trigger start.phase(Kind::Datagram, round, end)]
                start.phase(Kind::Datagram, round, end) && after == end.conn && sent == end.out;
            lemma_phase_counted(start, Kind::Datagram, round, end, most);
        } else {
            let snap = snapshot(
                Snapshot {
                    state: queued.streams,
                    control: queued.control,
                    found: Seq::empty(),
                },
                work,
                queued.streams.send_schedule,
            );
            let ready = BatchModel {
                conn: ConnModel { streams: snap.state, control: snap.control, ..queued },
                ..start
            };
            let round = Round { now, capacity: normal, pending: snap.found, names };
            let wide = Round { capacity: max_packet_bytes, ..round };
            let s = choose|s: Stages| #[trigger]
                staged(ready, round, wide, s) && after == batch_end(s) && sent == s.size.out;
            lemma_stages_counted(ready, round, wide, s, most);
        }
    }
}

proof fn lemma_stages_counted(
    start: BatchModel,
    round: Round,
    wide: Round,
    s: Stages,
    most: int,
)
    requires
        counted(start, most),
        staged(start, round, wide, s),
    ensures
        start.out.is_prefix_of(s.size.out),
        s.size.out.len() <= most,
{
    lemma_phase_counted(start, Kind::Pto, round, s.pto, most);
    lemma_phase_counted(s.pto, Kind::Initial, round, s.initial, most);
    lemma_phase_counted(s.initial, Kind::Early, round, s.early, most);
    lemma_phase_counted(s.early, Kind::Handshake, round, s.handshake, most);
    reveal(BatchModel::closing);
    assert(counted(s.close, most) && s.handshake.out.is_prefix_of(s.close.out));
    if s.close.conn.keys.epochs.application is Some {
        lemma_phase_counted(s.close, Kind::OneRtt, round, s.one_rtt, most);
        lemma_phase_counted(s.one_rtt, Kind::Datagram, round, s.datagram, most);
        reveal(BatchModel::sizing);
        assert(s.datagram.out.is_prefix_of(s.size.out));
    }
}

/// The packets behind those that were there.
spec fn added(before: Seq<Vec<u8>>, after: Seq<Vec<u8>>) -> Seq<Seq<u8>> {
    packets_of(after).subrange(before.len() as int, after.len() as int)
}

/// Whether packets went out behind others, and keep to what they may be.
#[verifier::opaque]
spec fn went_on(
    before: ConnModel,
    after: ConnModel,
    there: Seq<Vec<u8>>,
    out: Seq<Vec<u8>>,
    capacity: int,
    open: bool,
) -> bool {
    &&& there.len() <= out.len()
    &&& packets_of(out).subrange(0, there.len() as int) == packets_of(there)
    &&& keeps(before, after, added(there, out), capacity, open)
}

/// Where nothing went out, nothing is against the limits.
proof fn lemma_went_none(
    m: ConnModel,
    after: ConnModel,
    there: Seq<Vec<u8>>,
    capacity: int,
    open: bool,
)
    requires
        after.egress.peer_address_validated == m.egress.peer_address_validated,
        after.egress.amplification_received == m.egress.amplification_received,
        after.egress.amplification_sent == m.egress.amplification_sent,
    ensures
        went_on(m, after, there, there, capacity, open),
{
    reveal(went_on);
    lemma_keeps_none(m, after, capacity, open);
    assert(packets_of(there).subrange(0, there.len() as int) =~= packets_of(there));
    assert(added(there, there) =~= Seq::empty());
}

/// One packet more keeps to its limits.
proof fn lemma_went_one(
    m: ConnModel,
    kind: Kind,
    round: Round,
    there: Seq<Vec<u8>>,
    packet: Vec<u8>,
    commit: CommitModel,
)
    requires
        kind != Kind::Datagram && kind != Kind::Initial,
        m.ceiling(round.capacity) is Some,
        packet@.len() == commit.bytes,
        commit.bytes <= m.ceiling(round.capacity)->0,
        commit.bytes <= u64::MAX,
    ensures
        went_on(
            m,
            m.sent(commit, round.names, round.now).0,
            there,
            there.push(packet),
            round.capacity,
            m.sent(commit, round.names, round.now).1,
        ),
{
    reveal(went_on);
    let out = there.push(packet);
    lemma_keeps_one(m, m, kind, round, packet@, commit);
    assert(packets_of(out).subrange(0, there.len() as int) =~= packets_of(there));
    assert(added(there, out) =~= seq![packet@]);
}

/// What keeps to its limits is within them.
proof fn lemma_went_within(
    before: ConnModel,
    after: ConnModel,
    there: Seq<Vec<u8>>,
    out: Seq<Vec<u8>>,
    capacity: int,
    open: bool,
)
    requires
        went_on(before, after, there, out, capacity, open),
    ensures
        there.len() <= out.len(),
        within(before, added(there, out), capacity),
{
    reveal(went_on);
    reveal(keeps);
}

/// What keeps to narrow limits keeps to wide ones.
proof fn lemma_went_narrow(
    before: ConnModel,
    after: ConnModel,
    there: Seq<Vec<u8>>,
    out: Seq<Vec<u8>>,
    narrow: int,
    capacity: int,
    open: bool,
)
    requires
        went_on(before, after, there, out, narrow, open),
        narrow <= capacity,
    ensures
        went_on(before, after, there, out, capacity, open),
{
    reveal(went_on);
    reveal(keeps);
}

/// Control records that are queued change nothing about what may be sent.
proof fn lemma_same_allowance(m: ConnModel, work: int)
    ensures
        ({
            let queued = m.overflow_closed().controls_queued(work);
            &&& queued.egress.peer_address_validated == m.egress.peer_address_validated
            &&& queued.amplification_left() == m.amplification_left()
            &&& all_bounded(queued) == all_bounded(m)
        }),
{
    reveal(ConnModel::overflow_closed);
    reveal(ConnModel::controls_queued);
}

/// What a stage of a batch did: nothing, where nothing may follow or no probe is owed;
/// else it kept to its limits, unless it sent probes.
#[verifier::opaque]
spec fn followed(
    kind: Kind,
    before: ConnModel,
    after: ConnModel,
    there: Seq<Vec<u8>>,
    out: Seq<Vec<u8>>,
    capacity: int,
    first: bool,
    open: bool,
) -> bool {
    if !first || (kind == Kind::Pto && before.egress.pto_probe_allowance == 0) {
        after == before && out == there && open == first
    } else {
        bounded(before, kind) ==> went_on(before, after, there, out, capacity, open)
    }
}

/// Whether a batch kept to its limits so far, where it owes no probes.
#[verifier::opaque]
spec fn so_far(
    quiet: bool,
    before: ConnModel,
    after: ConnModel,
    there: Seq<Vec<u8>>,
    out: Seq<Vec<u8>>,
    capacity: int,
    open: bool,
) -> bool {
    quiet ==> went_on(before, after, there, out, capacity, open)
}

/// A batch that owes no probes begins within its limits.
proof fn lemma_so_far_first(
    quiet: bool,
    before: ConnModel,
    after: ConnModel,
    there: Seq<Vec<u8>>,
    out: Seq<Vec<u8>>,
    narrow: int,
    capacity: int,
    open: bool,
)
    requires
        quiet ==> all_bounded(before) && narrow <= capacity,
        followed(Kind::Pto, before, after, there, out, narrow, true, open),
    ensures
        so_far(quiet, before, after, there, out, capacity, open),
{
    reveal(followed);
    reveal(so_far);
    reveal(went_on);
    reveal(keeps);
    lemma_went_none(before, before, there, capacity, true);
}

/// Where a stage follows what kept to its limits, all of it keeps to them.
proof fn lemma_so_far(
    quiet: bool,
    kind: Kind,
    before: ConnModel,
    middle: ConnModel,
    after: ConnModel,
    there: Seq<Vec<u8>>,
    some: Seq<Vec<u8>>,
    out: Seq<Vec<u8>>,
    narrow: int,
    capacity: int,
    first: bool,
    open: bool,
)
    requires
        kind != Kind::Pto,
        so_far(quiet, before, middle, there, some, capacity, first),
        quiet ==> narrow <= capacity,
        followed(kind, middle, after, some, out, narrow, first, open),
    ensures
        so_far(quiet, before, after, there, out, capacity, open),
{
    reveal(went_on);
    reveal(followed);
    reveal(so_far);
    if quiet && first {
        assert(keeps(middle, after, added(some, out), capacity, open)) by {
            reveal(keeps);
        }
        lemma_keeps_on(
            before,
            middle,
            after,
            added(there, some),
            added(some, out),
            capacity,
            open,
        );
        assert(packets_of(out).len() == out.len());
        assert(packets_of(some).len() == some.len());
        assert(added(there, some) + added(some, out) =~= added(there, out)) by {
            assert forall|i: int| there.len() <= i < some.len() implies packets_of(some)[i]
                == packets_of(out)[i] by {
                assert(packets_of(out).subrange(0, some.len() as int)[i] == packets_of(out)[i]);
            }
        }
        assert(packets_of(out).subrange(0, there.len() as int) =~= packets_of(there)) by {
            assert forall|i: int| 0 <= i < there.len() implies packets_of(out)[i] == packets_of(
                there,
            )[i] by {
                assert(packets_of(out).subrange(0, some.len() as int)[i] == packets_of(out)[i]);
                assert(packets_of(some).subrange(0, there.len() as int)[i] == packets_of(
                    some,
                )[i]);
            }
        }
    }
}

/// How far a batch is.
struct Progress {
    left: usize,
    open: bool,
    done: bool,
}

impl Connection {
    spec fn stands(&self, batch: Progress, out: Seq<Vec<u8>>) -> BatchModel {
        BatchModel {
            conn: self@,
            out: packets_of(out),
            left: batch.left as int,
            open: batch.open,
            done: batch.done,
        }
    }

    /// Sends packets of a kind, unless nothing may follow.
    fn run_phase(
        &mut self,
        kind: Kind,
        batch: &mut Progress,
        out: &mut Vec<Vec<u8>>,
        now: Instant,
        max_packet_bytes: usize,
        pending: &Vec<u64>,
        round: Ghost<Round>,
    )
        requires
            old(self).wf(),
            round@.names == old(self).streams.names(),
            round@.pending == pending@,
            round@.now == now,
            round@.capacity == max_packet_bytes,
        ensures
            final(self).wf(),
            final(self).streams.names() == old(self).streams.names(),
            old(self).stands(*old(batch), old(out)@).phase(
                kind,
                round@,
                final(self).stands(*final(batch), final(out)@),
            ),
            followed(
                kind,
                old(self)@,
                final(self)@,
                old(out)@,
                final(out)@,
                max_packet_bytes as int,
                old(batch).open,
                final(batch).open,
            ),
            old(batch).open ==> old(out)@.len() <= final(out)@.len() <= old(out)@.len() + old(
                batch,
            ).left,
    {
        reveal(BatchModel::phase);
        reveal(went_on);
        reveal(followed);
        if !batch.open {
            return;
        }
        let ghost before = self.stands(*batch, out@);
        let (left, noted, done) = self.run(
            kind,
            out,
            now,
            batch.left,
            max_packet_bytes,
            pending,
            round,
        );
        batch.left = left;
        batch.open = noted;
        if kind == Kind::OneRtt && done {
            batch.done = true;
        }
        proof {
            lemma_phase_counted(
                before,
                kind,
                round@,
                self.stands(*batch, out@),
                before.out.len() + before.left,
            );
        }
    }

    /// Sends the packet that closes the connection, if it is to be sent.
    fn run_close(
        &mut self,
        batch: &mut Progress,
        out: &mut Vec<Vec<u8>>,
        now: Instant,
        max_packet_bytes: usize,
        round: Ghost<Round>,
    )
        requires
            old(self).wf(),
            round@.names == old(self).streams.names(),
            round@.now == now,
            round@.capacity == max_packet_bytes,
        ensures
            final(self).wf(),
            final(self).streams.names() == old(self).streams.names(),
            old(self).stands(*old(batch), old(out)@).closing(
                round@,
                final(self).stands(*final(batch), final(out)@),
            ),
            followed(
                Kind::OneRtt,
                old(self)@,
                final(self)@,
                old(out)@,
                final(out)@,
                max_packet_bytes as int,
                old(batch).open,
                final(batch).open,
            ),
    {
        reveal(BatchModel::closing);
        reveal(followed);
        let ghost m = self@;
        proof {
            lemma_went_none(m, m, out@, max_packet_bytes as int, batch.open);
        }
        if !batch.open || !self.has_write_key(Epoch::Application) || batch.left == 0
            || self.egress.pending_close.is_none() {
            return;
        }
        let ceiling: usize = match self.emission_ceiling(max_packet_bytes) {
            Some(ceiling) => ceiling,
            None => {
                return;
            },
        };
        let mut packet: Vec<u8> = Vec::new();
        assert(packet@ =~= Seq::<u8>::empty());
        let result = self.build_one_rtt_close(&mut packet, ceiling);
        proof {
            lemma_built(packet@, result, m.close_packet(ceiling as int));
        }
        match result {
            Some(commit) => {
                let ghost earlier = out@;
                let ghost bytes = packet@;
                out.push(packet);
                assert(packets_of(out@) =~= packets_of(earlier).push(bytes));
                let ghost c = commit@;
                self.commit_packet(&commit, now);
                batch.open = false;
                proof {
                    lemma_went_one(m, Kind::OneRtt, round@, earlier, out@.last(), c);
                    assert(out@ =~= earlier.push(out@.last()));
                    reveal(keeps);
                    reveal(went_on);
                }
            },
            None => {},
        }
    }

    /// Sends a packet that tells how long packets can be, if one is to be sent.
    fn run_size(
        &mut self,
        batch: &mut Progress,
        out: &mut Vec<Vec<u8>>,
        now: Instant,
        max_packet_bytes: usize,
        round: Ghost<Round>,
    )
        requires
            old(self).wf(),
            round@.names == old(self).streams.names(),
            round@.now == now,
            round@.capacity == max_packet_bytes,
        ensures
            final(self).wf(),
            final(self).streams.names() == old(self).streams.names(),
            old(self).stands(*old(batch), old(out)@).sizing(
                round@,
                final(self).stands(*final(batch), final(out)@),
            ),
            followed(
                Kind::OneRtt,
                old(self)@,
                final(self)@,
                old(out)@,
                final(out)@,
                max_packet_bytes as int,
                old(batch).open,
                final(batch).open,
            ),
    {
        reveal(BatchModel::sizing);
        reveal(followed);
        let ghost m = self@;
        proof {
            lemma_went_none(m, m, out@, max_packet_bytes as int, batch.open);
        }
        if !batch.open || !self.has_write_key(Epoch::Application) || batch.left == 0 {
            return;
        }
        let size: u64 = match self.next_probe() {
            Some(size) => size,
            None => {
                return;
            },
        };
        if !self.allows_emit_for(Cargo::CryptoOrAck, now) {
            return;
        }
        let ceiling: usize = match self.emission_ceiling(max_packet_bytes) {
            Some(ceiling) => ceiling,
            None => {
                return;
            },
        };
        let mut packet: Vec<u8> = Vec::new();
        assert(packet@ =~= Seq::<u8>::empty());
        let result = self.build_one_rtt_probe(&mut packet, size, ceiling);
        proof {
            lemma_built(packet@, result, m.size_probe(size, ceiling as int));
        }
        match result {
            Some(commit) => {
                let ghost earlier = out@;
                let ghost bytes = packet@;
                out.push(packet);
                assert(packets_of(out@) =~= packets_of(earlier).push(bytes));
                let ghost c = commit@;
                batch.open = self.commit_packet(&commit, now);
                proof {
                    lemma_went_one(m, Kind::OneRtt, round@, earlier, out@.last(), c);
                    assert(out@ =~= earlier.push(out@.last()));
                }
            },
            None => {},
        }
    }

    /// Plans to close the connection if a control record was lost for want of
    /// room.
    fn check_overflow(&mut self)
        requires
            old(self).wf(),
        ensures
            final(self).wf(),
            final(self).streams == old(self).streams,
            final(self)@ == old(self)@.overflow_closed(),
    {
        reveal(ConnModel::overflow_closed);
        let ghost m = self@;
        if self.control.take_overflowed() && self.egress.pending_close.is_none() {
            let mut reason: Vec<u8> = Vec::new();
            crate::frame::put_bytes(&mut reason, CONTROL_CAPACITY_REASON.as_slice());
            assert(reason@ =~= CONTROL_CAPACITY_REASON@);
            self.egress.pending_close = Some(
                PendingClose {
                    is_application: false,
                    error_code: INTERNAL_ERROR,
                    frame_type: 0,
                    reason,
                },
            );
        }
        assert(self@.egress =~= m.overflow_closed().egress);
    }

    /// Queues control records that are owed.
    fn queue_controls(&mut self, work: usize)
        requires
            old(self).wf(),
        ensures
            final(self).wf(),
            final(self).streams.names() == old(self).streams.names(),
            final(self)@ == old(self)@.controls_queued(work as int),
    {
        reveal(ConnModel::controls_queued);
        let ghost m = self@;
        let ghost whole = reconciled(m.egress.owed, m.control, work as int);
        let mut left: usize = work;
        while self.egress.owed.len() > 0 && left > 0 && self.control.has_room()
            invariant
                self.wf(),
                self.streams == old(self).streams,
                m == old(self)@,
                self@ == (ConnModel {
                    control: self@.control,
                    egress: EgressModel { owed: self@.egress.owed, ..m.egress },
                    ..m
                }),
                reconciled(self@.egress.owed, self@.control, left as int) == whole,
            decreases self@.egress.owed.len(),
        {
            let ghost owed = self.egress.owed@;
            let record = self.egress.owed.remove(0);
            assert(self.egress.owed@ =~= owed.subrange(1, owed.len() as int));
            self.control.queue(record);
            left = left - 1;
        }
        let ghost middle = self@;
        self.streams.reconcile_receive_controls(&mut self.control, work);
        assert(self@.egress =~= middle.egress);
    }

    fn only_datagrams(&self) -> (only: bool)
        requires
            self.wf(),
        ensures
            only == self@.only_datagrams(),
    {
        reveal(ConnModel::only_datagrams);
        assert(self@.egress.datagrams.len() == self.egress.pending_datagrams@.len());
        self.has_write_key(Epoch::Application) && self.egress.datagram_congestion_control
            == CongestionControl::Uncongested && self.egress.pending_datagrams.len() > 0
            && self.egress.pto_probe_allowance == 0 && self.egress.pending_close.is_none()
            && !self.has_crypto(Epoch::Initial) && !self.ack_pending(Epoch::Initial)
            && !self.has_crypto(Epoch::Handshake) && !self.ack_pending(Epoch::Handshake)
            && self.control.is_empty() && self.egress.owed.len() == 0 && !self.has_crypto(
            Epoch::Application,
        ) && !self.streams.has_retransmit() && !self.streams.has_scheduled()
            && self.next_probe().is_none()
    }

    fn discard_keys(&mut self, handshake_sent: bool, done: bool)
        requires
            old(self).wf(),
        ensures
            final(self).wf(),
            final(self).streams == old(self).streams,
            final(self)@ == old(self)@.keys_discarded(handshake_sent, done),
    {
        if handshake_sent {
            self.keys.epochs.initial = None;
        }
        if done && !self.is_client {
            self.keys.epochs.handshake = None;
        }
    }

    /// Sends packets of all kinds up to the one that closes the connection, and tells
    /// whether packets of the second epoch were among them.
    fn run_front(
        &mut self,
        batch: &mut Progress,
        out: &mut Vec<Vec<u8>>,
        now: Instant,
        normal: usize,
        pending: &Vec<u64>,
        round: Ghost<Round>,
        quiet: Ghost<bool>,
        most: Ghost<int>,
    ) -> (handshake_sent: bool)
        requires
            old(self).wf(),
            old(batch).open,
            round@.names == old(self).streams.names(),
            round@.pending == pending@,
            round@.now == now,
            round@.capacity == normal,
            quiet@ ==> normal <= most@ && all_bounded(old(self)@),
        ensures
            final(self).wf(),
            final(self).streams.names() == old(self).streams.names(),
            exists|s: Stages| #[trigger]
                fronted(old(self).stands(*old(batch), old(out)@), round@, s) && s.close
                    == final(self).stands(*final(batch), final(out)@) && handshake_sent
                    == (s.handshake.left < s.early.left),
            so_far(
                quiet@,
                old(self)@,
                final(self)@,
                old(out)@,
                final(out)@,
                most@,
                final(batch).open,
            ),
    {
        let ghost ready = self.stands(*batch, out@);
        let m: Ghost<ConnModel> = Ghost(self@);
        let there: Ghost<Seq<Vec<u8>>> = Ghost(out@);
        self.run_phase(Kind::Pto, batch, out, now, normal, pending, round);
        let ghost pto = self.stands(*batch, out@);
        let ghost at_pto = out@;
        proof {
            lemma_so_far_first(
                quiet@,
                m@,
                self@,
                there@,
                out@,
                normal as int,
                most@,
                batch.open,
            );
        }
        self.run_phase(Kind::Initial, batch, out, now, normal, pending, round);
        let ghost initial = self.stands(*batch, out@);
        let ghost at_initial = out@;
        proof {
            lemma_so_far(
                quiet@,
                Kind::Initial,
                m@,
                pto.conn,
                self@,
                there@,
                at_pto,
                out@,
                normal as int,
                most@,
                pto.open,
                batch.open,
            );
        }
        self.run_phase(Kind::Early, batch, out, now, normal, pending, round);
        let ghost early = self.stands(*batch, out@);
        let ghost at_early = out@;
        proof {
            lemma_so_far(
                quiet@,
                Kind::Early,
                m@,
                initial.conn,
                self@,
                there@,
                at_initial,
                out@,
                normal as int,
                most@,
                initial.open,
                batch.open,
            );
        }
        let before: usize = batch.left;
        self.run_phase(Kind::Handshake, batch, out, now, normal, pending, round);
        let ghost handshake = self.stands(*batch, out@);
        let ghost at_handshake = out@;
        proof {
            lemma_so_far(
                quiet@,
                Kind::Handshake,
                m@,
                early.conn,
                self@,
                there@,
                at_early,
                out@,
                normal as int,
                most@,
                early.open,
                batch.open,
            );
        }
        let handshake_sent = batch.left < before;
        self.run_close(batch, out, now, normal, round);
        let ghost close = self.stands(*batch, out@);
        proof {
            lemma_so_far(
                quiet@,
                Kind::OneRtt,
                m@,
                handshake.conn,
                self@,
                there@,
                at_handshake,
                out@,
                normal as int,
                most@,
                handshake.open,
                batch.open,
            );
        }
        proof {
            let s = Stages {
                pto,
                initial,
                early,
                handshake,
                close,
                one_rtt: close,
                datagram: close,
                size: close,
            };
            assert(fronted(ready, round@, s));
        }
        handshake_sent
    }

    /// Sends packets of application data.
    fn run_back(
        &mut self,
        batch: &mut Progress,
        out: &mut Vec<Vec<u8>>,
        now: Instant,
        normal: usize,
        max_packet_bytes: usize,
        pending: &Vec<u64>,
        round: Ghost<Round>,
        wide: Ghost<Round>,
        quiet: Ghost<bool>,
        m: Ghost<ConnModel>,
        there: Ghost<Seq<Vec<u8>>>,
    )
        requires
            old(self).wf(),
            round@.names == old(self).streams.names(),
            round@.pending == pending@,
            round@.now == now,
            round@.capacity == normal,
            wide@ == (Round { capacity: max_packet_bytes as int, ..round@ }),
            quiet@ ==> normal <= max_packet_bytes,
            so_far(
                quiet@,
                m@,
                old(self)@,
                there@,
                old(out)@,
                max_packet_bytes as int,
                old(batch).open,
            ),
        ensures
            final(self).wf(),
            final(self).streams.names() == old(self).streams.names(),
            exists|one_rtt: BatchModel, datagram: BatchModel| #[trigger]
                backed(
                    old(self).stands(*old(batch), old(out)@),
                    round@,
                    wide@,
                    one_rtt,
                    datagram,
                    final(self).stands(*final(batch), final(out)@),
                ),
            so_far(
                quiet@,
                m@,
                final(self)@,
                there@,
                final(out)@,
                max_packet_bytes as int,
                final(batch).open,
            ),
    {
        let ghost close = self.stands(*batch, out@);
        let ghost at_close = out@;
        let most: Ghost<int> = Ghost(max_packet_bytes as int);
        if !self.has_write_key(Epoch::Application) {
            assert(backed(close, round@, wide@, close, close, close));
            return;
        }
        self.run_phase(Kind::OneRtt, batch, out, now, normal, pending, round);
        let ghost one_rtt = self.stands(*batch, out@);
        let ghost at_one_rtt = out@;
        proof {
            lemma_so_far(
                quiet@,
                Kind::OneRtt,
                m@,
                close.conn,
                self@,
                there@,
                at_close,
                out@,
                normal as int,
                most@,
                close.open,
                batch.open,
            );
        }
        self.run_phase(Kind::Datagram, batch, out, now, normal, pending, round);
        let ghost datagram = self.stands(*batch, out@);
        let ghost at_datagram = out@;
        proof {
            lemma_so_far(
                quiet@,
                Kind::Datagram,
                m@,
                one_rtt.conn,
                self@,
                there@,
                at_one_rtt,
                out@,
                normal as int,
                most@,
                one_rtt.open,
                batch.open,
            );
        }
        self.run_size(batch, out, now, max_packet_bytes, wide);
        proof {
            lemma_so_far(
                quiet@,
                Kind::OneRtt,
                m@,
                datagram.conn,
                self@,
                there@,
                at_datagram,
                out@,
                most@,
                most@,
                datagram.open,
                batch.open,
            );
        }
        assert(backed(
            close,
            round@,
            wide@,
            one_rtt,
            datagram,
            self.stands(*batch, out@),
        ));
    }

    /// Sends packets of all kinds, one kind after the other.
    fn run_stages(
        &mut self,
        out: &mut Vec<Vec<u8>>,
        now: Instant,
        max_packets: usize,
        normal: usize,
        max_packet_bytes: usize,
        pending: &Vec<u64>,
        round: Ghost<Round>,
        wide: Ghost<Round>,
    )
        requires
            old(self).wf(),
            round@.names == old(self).streams.names(),
            round@.pending == pending@,
            round@.now == now,
            round@.capacity == normal,
            wide@ == (Round { capacity: max_packet_bytes as int, ..round@ }),
        ensures
            final(self).wf(),
            final(self).streams.names() == old(self).streams.names(),
            exists|s: Stages| #[trigger]
                staged(
                    BatchModel {
                        conn: old(self)@,
                        out: packets_of(old(out)@),
                        left: max_packets as int,
                        open: true,
                        done: false,
                    },
                    round@,
                    wide@,
                    s,
                ) && final(self)@ == batch_end(s) && packets_of(final(out)@) == s.size.out,
            old(out)@.len() <= final(out)@.len() <= old(out)@.len() + max_packets,
            all_bounded(old(self)@) && normal <= max_packet_bytes ==> within(
                old(self)@,
                added(old(out)@, final(out)@),
                max_packet_bytes as int,
            ),
    {
        let mut batch = Progress { left: max_packets, open: true, done: false };
        let ghost ready = self.stands(batch, out@);
        let ghost m = self@;
        let ghost there = out@;
        let ghost quiet = all_bounded(m) && normal <= max_packet_bytes;
        let handshake_sent = self.run_front(
            &mut batch,
            out,
            now,
            normal,
            pending,
            round,
            Ghost(quiet),
            Ghost(max_packet_bytes as int),
        );
        let ghost close = self.stands(batch, out@);
        let ghost front = choose|s: Stages| #[trigger]
            fronted(ready, round@, s) && s.close == close && handshake_sent == (s.handshake.left
                < s.early.left);
        self.run_back(
            &mut batch,
            out,
            now,
            normal,
            max_packet_bytes,
            pending,
            round,
            wide,
            Ghost(quiet),
            Ghost(m),
            Ghost(there),
        );
        let ghost size = self.stands(batch, out@);
        proof {
            let (one_rtt, datagram) = choose|one_rtt: BatchModel, datagram: BatchModel| #[trigger]
                backed(close, round@, wide@, one_rtt, datagram, size);
            let s = Stages { one_rtt, datagram, size, ..front };
            assert(staged(ready, round@, wide@, s));
            lemma_stages_counted(ready, round@, wide@, s, there.len() + max_packets);
            reveal(so_far);
            if quiet {
                lemma_went_within(m, self@, there, out@, max_packet_bytes as int, batch.open);
            }
        }
        if batch.open {
            self.discard_keys(handshake_sent, batch.done);
        }
    }

    /// Sends what waits to be sent, so many packets of such a length at most. Only a
    /// probe that repeats handshake bytes may be longer.
    pub fn fill_batch(
        &mut self,
        out: &mut Vec<Vec<u8>>,
        now: Instant,
        max_packets: usize,
        max_packet_bytes: usize,
    )
        requires
            old(self).wf(),
        ensures
            final(self).wf(),
            final(self).streams.names() == old(self).streams.names(),
            filled(
                old(self)@,
                packets_of(old(out)@),
                old(self).streams.names(),
                now,
                max_packets as int,
                max_packet_bytes as int,
                final(self)@,
                packets_of(final(out)@),
            ),
            old(out)@.len() <= final(out)@.len() <= old(out)@.len() + max_packets,
            all_bounded(old(self)@) ==> within(
                old(self)@,
                packets_of(final(out)@).subrange(old(out)@.len() as int, final(out)@.len() as int),
                max_packet_bytes as int,
            ),
    {
        let ghost names = self.streams.names();
        let ghost m = self@;
        let ghost there = out@;
        self.check_overflow();
        if self.egress.closed {
            proof {
                lemma_went_none(m, m, out@, max_packet_bytes as int, true);
                lemma_went_within(m, m, out@, out@, max_packet_bytes as int, true);
            }
            return;
        }
        let work: usize = if max_packets < MAX_BATCH_PACKETS {
            max_packets * PACKET_CONTROL_CAPACITY
        } else {
            MAX_BATCH_PACKETS * PACKET_CONTROL_CAPACITY
        };
        self.queue_controls(work);
        let ghost queued = self@;
        proof {
            lemma_same_allowance(m, work as int);
        }
        let current: u64 = self.egress.pmtud.current();
        let normal: usize = if (max_packet_bytes as u64) < current {
            max_packet_bytes
        } else {
            current as usize
        };
        let mut batch = Progress { left: max_packets, open: true, done: false };
        let ghost start = self.stands(batch, out@);
        if self.only_datagrams() {
            let none: Vec<u64> = Vec::new();
            let ghost round = Round { now, capacity: normal as int, pending: none@, names };
            assert(none@ =~= Seq::empty());
            self.run_phase(Kind::Datagram, &mut batch, out, now, normal, &none, Ghost(round));
            assert(start.phase(Kind::Datagram, round, self.stands(batch, out@)));
            proof {
                reveal(followed);
                lemma_went_narrow(
                    queued,
                    self@,
                    there,
                    out@,
                    normal as int,
                    max_packet_bytes as int,
                    batch.open,
                );
                lemma_went_within(
                    queued,
                    self@,
                    there,
                    out@,
                    max_packet_bytes as int,
                    batch.open,
                );
            }
            return;
        }
        let pending = self.streams.snapshot_pending_streams(&mut self.control, work);
        let ghost round = Round { now, capacity: normal as int, pending: pending@, names };
        let ghost wide = Round { capacity: max_packet_bytes as int, ..round };
        self.run_stages(
            out,
            now,
            max_packets,
            normal,
            max_packet_bytes,
            &pending,
            Ghost(round),
            Ghost(wide),
        );
    }
}

/// The first of some packets.
pub open spec fn sent_first(sent: Seq<Seq<u8>>) -> Option<Seq<u8>> {
    if sent.len() > 0 {
        Some(sent[0])
    } else {
        None
    }
}

/// The first of some packets is within what they may be together.
proof fn lemma_within_first(m: ConnModel, packets: Seq<Seq<u8>>, capacity: int)
    requires
        packets.len() > 0,
        within(m, packets, capacity),
    ensures
        within(m, seq![packets[0]], capacity),
{
    let rest = packets.subrange(1, packets.len() as int);
    assert(packets =~= seq![packets[0]] + rest);
    lemma_total(seq![packets[0]], rest);
    lemma_total_bound(rest);
}

/// What a connection sends, for as long as it is borrowed.
pub struct Emission<'a> {
    pub connection: &'a mut Connection,
}

/// Packets that are sent at a time.
#[derive(Debug, Default)]
pub struct Batch {
    pub packets: Vec<Vec<u8>>,
}

impl<'a> Emission<'a> {
    /// Sends for a connection.
    pub fn new(connection: &'a mut Connection) -> (emission: Emission<'a>)
        ensures
            *emission.connection == *old(connection),
            *final(emission.connection) == *final(connection),
    {
        Emission { connection }
    }

    /// Sends what waits to be sent, so many packets of such a length at most, in
    /// place of what was in the batch.
    pub fn send_batch(
        &mut self,
        batch: &mut Batch,
        now: Instant,
        max_packets: usize,
        max_packet_bytes: usize,
    )
        requires
            old(self).connection.wf(),
        ensures
            final(self).connection.wf(),
            *final(final(self).connection) == *final(old(self).connection),
            filled(
                old(self).connection@,
                Seq::empty(),
                old(self).connection.streams.names(),
                now,
                least(max_packets as int, MAX_BATCH_PACKETS as int),
                max_packet_bytes as int,
                final(self).connection@,
                packets_of(final(batch).packets@),
            ),
            final(batch).packets@.len() <= least(max_packets as int, MAX_BATCH_PACKETS as int),
            all_bounded(old(self).connection@) ==> within(
                old(self).connection@,
                packets_of(final(batch).packets@),
                max_packet_bytes as int,
            ),
    {
        let slots: usize = if max_packets < MAX_BATCH_PACKETS {
            max_packets
        } else {
            MAX_BATCH_PACKETS
        };
        batch.packets.clear();
        assert(packets_of(batch.packets@) =~= Seq::empty());
        self.connection.fill_batch(&mut batch.packets, now, slots, max_packet_bytes);
        let ghost sent = packets_of(batch.packets@);
        assert(sent.subrange(0, batch.packets@.len() as int) =~= sent);
    }

    /// Sends one packet, if one is to be sent.
    pub fn send_one(&mut self, now: Instant, max_packet_bytes: usize) -> (packet: Option<Vec<u8>>)
        requires
            old(self).connection.wf(),
        ensures
            final(self).connection.wf(),
            *final(final(self).connection) == *final(old(self).connection),
            exists|sent: Seq<Seq<u8>>|
                #![trigger sent_first(sent)]
                filled(
                    old(self).connection@,
                    Seq::empty(),
                    old(self).connection.streams.names(),
                    now,
                    1,
                    max_packet_bytes as int,
                    final(self).connection@,
                    sent,
                ) && sent_first(sent) == match packet {
                    Some(packet) => Some(packet@),
                    None => None,
                },
            all_bounded(old(self).connection@) ==> (packet matches Some(packet)
                ==> within(old(self).connection@, seq![packet@], max_packet_bytes as int)),
    {
        let ghost m = self.connection@;
        let mut out: Vec<Vec<u8>> = Vec::new();
        assert(packets_of(out@) =~= Seq::empty());
        self.connection.fill_batch(&mut out, now, 1, max_packet_bytes);
        let ghost sent = packets_of(out@);
        assert(sent.len() == out@.len());
        if out.len() == 0 {
            assert(sent_first(sent) is None);
            return None;
        }
        let packet = out.remove(0);
        assert(sent_first(sent) == Some(packet@));
        proof {
            assert(sent.subrange(0, sent.len() as int) =~= sent);
            if all_bounded(m) {
                lemma_within_first(m, sent, max_packet_bytes as int);
            }
        }
        Some(packet)
    }

    /// Sends what waits to be sent, at full length.
    pub fn send(&mut self, now: Instant) -> (out: Vec<Vec<u8>>)
        requires
            old(self).connection.wf(),
        ensures
            final(self).connection.wf(),
            *final(final(self).connection) == *final(old(self).connection),
            filled(
                old(self).connection@,
                Seq::empty(),
                old(self).connection.streams.names(),
                now,
                MAX_BATCH_PACKETS as int,
                MAX_PMTU as int,
                final(self).connection@,
                packets_of(out@),
            ),
            out@.len() <= MAX_BATCH_PACKETS,
            all_bounded(old(self).connection@) ==> within(
                old(self).connection@,
                packets_of(out@),
                MAX_PMTU as int,
            ),
    {
        let mut out: Vec<Vec<u8>> = Vec::new();
        assert(packets_of(out@) =~= Seq::empty());
        self.connection.fill_batch(&mut out, now, MAX_BATCH_PACKETS, MAX_PMTU as usize);
        let ghost sent = packets_of(out@);
        assert(sent.subrange(0, out@.len() as int) =~= sent);
        out
    }
}

/// Control records that are owed are queued in the order in which they are owed, as many as
/// may be and as there is room for.
pub proof fn law_owed_in_order(owed: Seq<Control>, control: PendingModel, work: int)
    requires
        work >= 0,
    ensures
        ({
            let (rest, after) = reconciled(owed, control, work);
            let n = owed.len() - rest.len();
            &&& 0 <= n <= work && n <= owed.len()
            &&& rest == owed.skip(n)
            &&& after.capacity == control.capacity
            &&& owed.len() > 0 && work > 0 && control.records.len() < control.capacity ==> n > 0
            &&& n < owed.len() && n < work ==> after.records.len() >= after.capacity
            &&& !control.overflowed ==> !after.overflowed
        }),
    decreases owed.len(),
{
    if owed.len() == 0 || work <= 0 || !control.has_room() {
        assert(owed.skip(0) =~= owed);
    } else {
        let next = control.queued(owed[0]);
        let tail = owed.subrange(1, owed.len() as int);
        crate::conn::control::law_latest_record_waits(control, owed[0]);
        law_owed_in_order(tail, next, work - 1);
        let (rest, after) = reconciled(owed, control, work);
        let n = owed.len() - rest.len();
        assert(tail.skip(n - 1) =~= owed.skip(n));
    }
}

/// A connection that lost a control record for want of room is to be closed, with an internal
/// error, unless it is to be closed already. That is noted once.
pub proof fn law_lost_record_closes(connection: ConnModel)
    ensures
        ({
            let after = connection.overflow_closed();
            &&& !after.control.overflowed
            &&& after.control.records == connection.control.records
            &&& connection.egress.pending_close is Some ==> after.egress.pending_close
                == connection.egress.pending_close
            &&& connection.egress.pending_close is None && !connection.control.overflowed
                ==> after.egress.pending_close is None
            &&& connection.egress.pending_close is None && connection.control.overflowed
                ==> after.egress.pending_close is Some && !after.egress.pending_close->0.is_application
                && after.egress.pending_close->0.error_code == 0x01
                && after.egress.pending_close->0.frame_type == 0
            &&& after.overflow_closed() == after
            &&& after.streams == connection.streams && after.egress.closed
                == connection.egress.closed
        }),
{
    reveal(ConnModel::overflow_closed);
}

/// The keys of the first epoch are given up once a Handshake packet was sent; those of the
/// second only by a server, once it told that the handshake is complete; those of the
/// application never.
pub proof fn law_keys_given_up(connection: ConnModel, handshake_sent: bool, done: bool)
    ensures
        ({
            let after = connection.keys_discarded(handshake_sent, done);
            &&& after.keys.epochs.initial == if handshake_sent {
                None
            } else {
                connection.keys.epochs.initial
            }
            &&& connection.is_client ==> after.keys.epochs.handshake
                == connection.keys.epochs.handshake
            &&& !connection.is_client && done ==> after.keys.epochs.handshake is None
            &&& !done ==> after.keys.epochs.handshake == connection.keys.epochs.handshake
            &&& after.keys.epochs.application == connection.keys.epochs.application
            &&& after.keys.zero_rtt == connection.keys.zero_rtt
            &&& after.egress == connection.egress && after.streams == connection.streams
        }),
{
}

/// Nothing follows the packet that closes the connection.
pub proof fn law_nothing_after_closing(
    close: BatchModel,
    round: Round,
    wide: Round,
    one_rtt: BatchModel,
    datagram: BatchModel,
    size: BatchModel,
)
    requires
        backed(close, round, wide, one_rtt, datagram, size),
        !close.open,
    ensures
        size == close,
{
    reveal(BatchModel::phase);
    reveal(BatchModel::sizing);
}

} // verus!
