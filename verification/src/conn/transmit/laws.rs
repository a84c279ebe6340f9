//! What holds of everything that a connection sends.
use vstd::prelude::*;

use crate::clock::Instant;
use crate::conn::control::Control;
use crate::conn::send::SenderModel;
use crate::conn::stream_journal::model::{Handle, JournalModel, SendHandle, Stream};
use crate::conn::streams::state::emit::{
    fresh_bytes, fresh_piece, known_handles, lemma_work, lesser, next_piece, probed, resent,
    sent_early, sent_fresh, Fresh, Look, Probing,
};
use crate::conn::streams::state::StateModel;
use crate::conn::transmit::ack::{acks, acks_with};
use crate::conn::transmit::application::{close_fixed, close_frame, law_trimmed_fits, trimmed};
use crate::conn::transmit::builder::CommitModel;
use crate::conn::transmit::connection::{CloseModel, ConnModel};
use crate::conn::transmit::crypto::{lemma_first_bound, CryptoModel, Epoch, Fate};
use crate::conn::transmit::draft::{crypto_frame, Delivery, DraftModel, PACKET_STREAM_CAPACITY};
use crate::conn::transmit::one_rtt::{probed_as, resent_as};
use crate::conn::transmit::path::LocalCid;
use crate::conn::transmit::room::{
    law_crypto_room_fits, law_long_room_fits, law_short_room_fits, long_fixed, long_room, PN_LEN,
    TAG_LEN,
};
use crate::frame::model::{encodable, frame_bytes};
use crate::math::capped;
use crate::packet::LongType;
use crate::pn_space::ReceiveModel;
use crate::varint::{law_varint_round_trip, varint_len, MAX_VARINT};

verus! {

/// Whether what is sent for the first time is within the limits of the peer.
pub open spec fn within_credit(m: StateModel, streams: Seq<Delivery>) -> bool {
    &&& fresh_bytes(streams) == 0 || m.peer_total_sent + fresh_bytes(streams) <= m.peer_data_limit
    &&& forall|i: int|
        0 <= i < streams.len() && (#[trigger] streams[i]).known is None && streams[i].record.len > 0
            ==> streams[i].record.offset + streams[i].record.len
            <= m.senders[streams[i].record.stream_id].credit
}

/// What is sent for the first time stays within the limits of the peer: that of
/// each stream, and that of all streams together.
pub proof fn law_credit_respected(
    m: StateModel,
    before: Fresh,
    in_flight: Seq<Control>,
    cids: Seq<LocalCid>,
    pending: Seq<u64>,
    at: int,
)
    requires
        forall|id: u64| #[trigger] m.senders.dom().contains(id) ==> m.senders[id].sound(),
        within_credit(m, before.draft.streams),
        0 <= at,
    ensures
        within_credit(m, sent_fresh(m, before, in_flight, cids, pending, at).draft.streams),
    decreases pending.len() - at,
{
    let draft = before.draft;
    if at < pending.len() && !draft.full() {
        let stream_id = pending[at];
        let sender = m.senders[stream_id];
        let (stream_budget, conn_budget, fin_only) = next_piece(m, draft, stream_id, true);
        let flow = lesser(stream_budget, conn_budget);
        let take = lesser(flow, draft.piece_room());
        let count = lesser(take, sender.unsent());
        let piece = fresh_piece(stream_id, sender, count);
        let delivery = Delivery { record: piece, known: None };
        let next = draft.with_piece(delivery, sender);
        if m.senders.dom().contains(stream_id) {
            assert(sender.sound());
            assert(0 <= count <= sender.unsent() <= MAX_VARINT);
            assert(next.streams.drop_last() =~= draft.streams);
            assert(fresh_bytes(next.streams) == fresh_bytes(draft.streams) + count);
            lemma_fresh_nonnegative(draft.streams);
            assert forall|i: int|
                0 <= i < next.streams.len() && (#[trigger] next.streams[i]).known is None
                    && next.streams[i].record.len > 0 implies next.streams[i].record.offset
                + next.streams[i].record.len
                <= m.senders[next.streams[i].record.stream_id].credit by {
                if i < draft.streams.len() {
                    assert(next.streams[i] == draft.streams[i]);
                } else {
                    assert(next.streams[i] == delivery);
                }
            }
            assert(within_credit(m, next.streams));
            law_credit_respected(
                m,
                Fresh { draft: next, ..before },
                in_flight,
                cids,
                pending,
                at + 1,
            );
            let one = if conn_budget == 0 {
                before.told(
                    in_flight,
                    cids,
                    Control::DataBlocked { limit: m.peer_data_limit },
                    crate::conn::control::Subject::DataBlocked,
                )
            } else {
                before
            };
            let two = if stream_budget == 0 && sender.has_pending() {
                one.told(
                    in_flight,
                    cids,
                    Control::StreamDataBlocked { stream_id, limit: sender.credit },
                    crate::conn::control::Subject::StreamDataBlocked { stream_id },
                )
            } else {
                one
            };
            assert(two.draft.streams == draft.streams);
            law_credit_respected(m, two, in_flight, cids, pending, at + 1);
        }
        law_credit_respected(m, before, in_flight, cids, pending, at + 1);
    }
}

proof fn lemma_fresh_nonnegative(streams: Seq<Delivery>)
    ensures
        fresh_bytes(streams) >= 0,
    decreases streams.len(),
{
    if streams.len() > 0 {
        lemma_fresh_nonnegative(streams.drop_last());
    }
}

/// Control records leave a packet within its limit.
pub proof fn law_controls_fit(
    draft: DraftModel,
    records: Seq<Control>,
    cids: Seq<LocalCid>,
    leading: bool,
    at: int,
)
    requires
        draft.frames.len() <= draft.limit,
        0 <= at,
    ensures
        draft.with_controls(records, cids, leading, at).frames.len() <= draft.limit,
        draft.with_controls(records, cids, leading, at).limit == draft.limit,
    decreases records.len() - at,
{
    if at < records.len() {
        law_controls_fit(draft, records, cids, leading, at + 1);
        if draft.fits_control(records[at], cids) {
            law_controls_fit(
                draft.with_control(records[at], cids),
                records,
                cids,
                leading,
                at + 1,
            );
        }
    }
}

/// What is sent again leaves a packet within its limit.
pub proof fn law_resent_fits(
    journal: JournalModel,
    draft: DraftModel,
    senders: Map<u64, SenderModel>,
    names: spec_fn(SendHandle) -> Option<u64>,
    work: int,
)
    requires
        draft.frames.len() <= draft.limit,
    ensures
        resent(journal, draft, senders, names, work).1.frames.len() <= draft.limit,
        resent(journal, draft, senders, names, work).1.limit == draft.limit,
    decreases work,
{
    if !draft.full() {
        let excluded = known_handles(draft.streams);
        let (turned, rest, found) = journal.retransmit(draft.piece_room(), work, excluded);
        lemma_work(journal, draft.piece_room(), work, excluded);
        match found {
            Some((handle, owner, record)) => {
                law_resent_fits(turned.without_group(handle), draft, senders, names, rest);
                let sender = senders[record.stream_id];
                if draft.fits_piece(record, sender) {
                    law_resent_fits(
                        turned,
                        draft.with_piece(Delivery { record, known: Some(handle) }, sender),
                        senders,
                        names,
                        rest,
                    );
                }
            },
            None => {},
        }
    }
}

/// What is sent for the first time leaves a packet within its limit.
pub proof fn law_fresh_fits(
    m: StateModel,
    before: Fresh,
    in_flight: Seq<Control>,
    cids: Seq<LocalCid>,
    pending: Seq<u64>,
    at: int,
)
    requires
        before.draft.frames.len() <= before.draft.limit,
        0 <= at,
    ensures
        sent_fresh(m, before, in_flight, cids, pending, at).draft.frames.len()
            <= before.draft.limit,
        sent_fresh(m, before, in_flight, cids, pending, at).draft.limit == before.draft.limit,
    decreases pending.len() - at,
{
    let draft = before.draft;
    if at < pending.len() {
        let stream_id = pending[at];
        let sender = m.senders[stream_id];
        let (stream_budget, conn_budget, fin_only) = next_piece(m, draft, stream_id, true);
        let flow = lesser(stream_budget, conn_budget);
        let take = lesser(flow, draft.piece_room());
        let count = lesser(take, sender.unsent());
        let piece = fresh_piece(stream_id, sender, count);
        law_fresh_fits(m, before, in_flight, cids, pending, at + 1);
        if draft.fits_piece(piece, sender) {
            law_fresh_fits(
                m,
                Fresh {
                    draft: draft.with_piece(Delivery { record: piece, known: None }, sender),
                    ..before
                },
                in_flight,
                cids,
                pending,
                at + 1,
            );
        }
        let one = if conn_budget == 0 {
            before.told(
                in_flight,
                cids,
                Control::DataBlocked { limit: m.peer_data_limit },
                crate::conn::control::Subject::DataBlocked,
            )
        } else {
            before
        };
        let two = if stream_budget == 0 && sender.has_pending() {
            one.told(
                in_flight,
                cids,
                Control::StreamDataBlocked { stream_id, limit: sender.credit },
                crate::conn::control::Subject::StreamDataBlocked { stream_id },
            )
        } else {
            one
        };
        law_fresh_fits(m, two, in_flight, cids, pending, at + 1);
    }
}

proof fn lemma_streams_spaces(
    m: ConnModel,
    streams: Seq<Delivery>,
    names: spec_fn(SendHandle) -> Option<u64>,
    at: int,
)
    requires
        0 <= at,
    ensures
        m.streams_noted(streams, names, at).0.egress.spaces == m.egress.spaces,
        m.streams_noted(streams, names, at).0.egress.amplification_sent
            == m.egress.amplification_sent,
        m.streams_noted(streams, names, at).0.egress.amplification_received
            == m.egress.amplification_received,
        m.streams_noted(streams, names, at).0.egress.peer_address_validated
            == m.egress.peer_address_validated,
        m.streams_noted(streams, names, at).0.egress.pto_probe_epoch == m.egress.pto_probe_epoch,
    decreases streams.len() - at,
{
    if at < streams.len() {
        let (state, handle) = m.streams.delivered(streams[at], names);
        if handle is Some && m.egress.packets.packets.len() > 0 && m.egress.packets.stream_room > 0 {
            let next = ConnModel {
                egress: crate::conn::transmit::connection::EgressModel {
                    packets: m.egress.packets.with_stream(handle->0),
                    ..m.egress
                },
                streams: state,
                ..m
            };
            lemma_streams_spaces(next, streams, names, at + 1);
        }
    }
}

proof fn lemma_controls_spaces(m: ConnModel, controls: Seq<Control>, again: bool, at: int)
    requires
        0 <= at,
    ensures
        m.controls_noted(controls, again, at).0.egress.spaces == m.egress.spaces,
        m.controls_noted(controls, again, at).0.egress.amplification_sent
            == m.egress.amplification_sent,
        m.controls_noted(controls, again, at).0.egress.amplification_received
            == m.egress.amplification_received,
        m.controls_noted(controls, again, at).0.egress.peer_address_validated
            == m.egress.peer_address_validated,
        m.controls_noted(controls, again, at).0.egress.pto_probe_epoch == m.egress.pto_probe_epoch,
    decreases controls.len() - at,
{
    if at < controls.len() {
        let (next, noted) = m.control_noted(controls[at], again);
        if noted {
            lemma_controls_spaces(next, controls, again, at + 1);
        }
    }
}

/// No packet number is used twice: each packet that is noted takes the next
/// number up. And every byte that went out counts against what an address that
/// is not validated may be sent.
pub proof fn law_packet_accounted(
    m: ConnModel,
    commit: CommitModel,
    names: spec_fn(SendHandle) -> Option<u64>,
    now: Instant,
)
    requires
        m.sent(commit, names, now).1,
        0 <= commit.bytes <= u64::MAX,
    ensures
        m.sent(commit, names, now).0.next_pn(commit.epoch) == capped(commit.pn + 1),
        m.sent(commit, names, now).0.egress.amplification_sent == capped(
            m.egress.amplification_sent + commit.bytes,
        ),
{
    reveal(ConnModel::packet_noted);
    reveal(crate::conn::transmit::connection::EgressModel::went_out);
    let numbered = m.numbered(commit.epoch, commit.pn, commit.ack_included);
    let noted = numbered.packet_noted(commit, now).0;
    let carried = noted.streams_noted(commit.streams, names, 0).0;
    lemma_streams_spaces(noted, commit.streams, names, 0);
    lemma_controls_spaces(carried, commit.controls, commit.pto_probe, 0);
}

/// An acknowledgement leaves a packet within its limit.
pub proof fn law_ack_fits(before: DraftModel, receive: ReceiveModel, after: DraftModel)
    requires
        acks(before, receive, after),
        before.frames.len() <= before.limit,
    ensures
        after.frames.len() <= after.limit,
        after.limit == before.limit,
{
    reveal(acks);
    if after != before {
        let (first_range, pairs, count) = choose|
            first_range: u64,
            pairs: Seq<(int, int)>,
            count: int,
        | #[trigger]
            acks_with(before, receive, after, first_range, pairs, count);
        assert(acks_with(before, receive, after, first_range, pairs, count));
    }
}

/// How long a frame with handshake bytes is.
proof fn lemma_crypto_size(offset: u64, data: Seq<u8>)
    requires
        offset <= MAX_VARINT,
        data.len() <= MAX_VARINT,
    ensures
        frame_bytes(crypto_frame(offset, data)).len() == 1 + varint_len(offset) + varint_len(
            data.len() as u64,
        ) + data.len(),
{
    broadcast use crate::varint::lemma_of_view;

    law_varint_round_trip(offset, Seq::empty());
    law_varint_round_trip(data.len() as u64, Seq::empty());
}

/// Handshake bytes leave a packet within its limit.
pub proof fn law_crypto_fits(crypto: CryptoModel, draft: DraftModel)
    requires
        crypto.sound(),
        draft.frames.len() <= draft.limit,
        crypto.selected(draft.room()) is Some,
    ensures
        ({
            let delivery = crypto.selected(draft.room())->0;
            let more = draft.with_crypto(
                delivery,
                crypto.data(delivery.offset as int, delivery.len as int),
            );
            more.frames.len() <= more.limit && more.limit == draft.limit
        }),
{
    let delivery = crypto.selected(draft.room())->0;
    let data = crypto.data(delivery.offset as int, delivery.len as int);
    lemma_first_bound(crypto.records, Fate::Lost);
    law_crypto_room_fits(delivery.offset, draft.room());
    if delivery.offset <= MAX_VARINT && data.len() <= MAX_VARINT {
        lemma_crypto_size(delivery.offset, data);
    }
}

/// Handshake bytes that are in flight leave a packet within its limit.
pub proof fn law_crypto_probe_fits(crypto: CryptoModel, draft: DraftModel)
    requires
        crypto.sound(),
        draft.frames.len() <= draft.limit,
        crypto.probe(draft.room()) is Some,
    ensures
        ({
            let delivery = crypto.probe(draft.room())->0;
            let more = draft.with_crypto(
                delivery,
                crypto.data(delivery.offset as int, delivery.len as int),
            );
            more.frames.len() <= more.limit && more.limit == draft.limit
        }),
{
    let delivery = crypto.probe(draft.room())->0;
    let data = crypto.data(delivery.offset as int, delivery.len as int);
    lemma_first_bound(crypto.records, Fate::InFlight);
    law_crypto_room_fits(delivery.offset, draft.room());
    if delivery.offset <= MAX_VARINT && data.len() <= MAX_VARINT {
        lemma_crypto_size(delivery.offset, data);
    }
}

/// Control records that are in flight leave a packet within its limit.
pub proof fn law_control_probes_fit(
    draft: DraftModel,
    records: Seq<Control>,
    cids: Seq<LocalCid>,
    at: int,
)
    requires
        draft.frames.len() <= draft.limit,
        0 <= at,
    ensures
        draft.with_control_probes(records, cids, at).frames.len() <= draft.limit,
        draft.with_control_probes(records, cids, at).limit == draft.limit,
    decreases records.len() - at,
{
    if at < records.len() {
        law_control_probes_fit(draft, records, cids, at + 1);
        if draft.fits_control(records[at], cids) {
            law_control_probes_fit(draft.with_control(records[at], cids), records, cids, at + 1);
        }
    }
}

proof fn lemma_trace_fits(
    trace: Seq<Probing>,
    looks: Seq<Look>,
    senders: Map<u64, SenderModel>,
    names: spec_fn(SendHandle) -> Option<u64>,
    i: int,
)
    requires
        trace.len() == looks.len() + 1,
        0 <= i <= looks.len(),
        forall|i: int|
            0 <= i < looks.len() ==> (#[trigger] trace[i]).follows(
                trace[i + 1],
                senders,
                names,
                looks[i].middle,
                looks[i].found,
            ),
        trace[0].draft.frames.len() <= trace[0].draft.limit,
    ensures
        trace[i].draft.frames.len() <= trace[i].draft.limit,
        trace[i].draft.limit == trace[0].draft.limit,
    decreases i,
{
    if i > 0 {
        lemma_trace_fits(trace, looks, senders, names, i - 1);
        let was = trace[i - 1];
        assert(was.follows(
            trace[i - 1 + 1],
            senders,
            names,
            looks[i - 1].middle,
            looks[i - 1].found,
        ));
    }
}

/// Pieces of streams that are in flight leave a packet within its limit.
pub proof fn law_probed_fits(
    m: ConnModel,
    draft: DraftModel,
    names: spec_fn(SendHandle) -> Option<u64>,
    after: Probing,
)
    requires
        probed_as(m, draft, names, after),
        draft.frames.len() <= draft.limit,
    ensures
        after.draft.frames.len() <= draft.limit,
        after.draft.limit == draft.limit,
{
    reveal(probed_as);
    let (trace, looks, last) = choose|
        trace: Seq<Probing>,
        looks: Seq<Look>,
        last: Option<(Handle, SendHandle, Stream)>,
    |
        #[trigger] probed(trace, looks, m.streams.senders, names, last, after) && trace[0] == (
        Probing { journal: m.streams.journal, draft });
    lemma_trace_fits(trace, looks, m.streams.senders, names, looks.len() as int);
}

/// What is in flight and is sent again leaves a packet within its limit.
pub proof fn law_again_fits(
    m: ConnModel,
    draft: DraftModel,
    names: spec_fn(SendHandle) -> Option<u64>,
    after: Probing,
)
    requires
        resent_as(m, draft, names, after),
        m.crypto.application.sound(),
        draft.frames.len() <= draft.limit,
    ensures
        after.draft.frames.len() <= draft.limit,
        after.draft.limit == draft.limit,
{
    reveal(resent_as);
    if m.crypto.application.probe(draft.room()) is Some {
        law_crypto_probe_fits(m.crypto.application, draft);
    }
    let more = m.with_handshake_probe(draft);
    law_control_probes_fit(more, m.controls_in_flight(), m.path.local_cids, 0);
    law_probed_fits(
        m,
        more.with_control_probes(m.controls_in_flight(), m.path.local_cids, 0),
        names,
        after,
    );
}

/// What is sent before the handshake is complete leaves a packet within its limit.
pub proof fn law_early_fits(
    m: StateModel,
    draft: DraftModel,
    limited: bool,
    pending: Seq<u64>,
    at: int,
)
    requires
        draft.frames.len() <= draft.limit,
        0 <= at,
    ensures
        sent_early(m, draft, limited, pending, at).frames.len() <= draft.limit,
        sent_early(m, draft, limited, pending, at).limit == draft.limit,
    decreases pending.len() - at,
{
    if at < pending.len() {
        let stream_id = pending[at];
        let sender = m.senders[stream_id];
        let (stream_budget, conn_budget, fin_only) = next_piece(m, draft, stream_id, limited);
        let take = lesser(lesser(stream_budget, conn_budget), draft.piece_room());
        let count = lesser(take, sender.unsent());
        let piece = fresh_piece(stream_id, sender, count);
        law_early_fits(m, draft, limited, pending, at + 1);
        if draft.fits_piece(piece, sender) {
            law_early_fits(
                m,
                draft.with_piece(Delivery { record: piece, known: None }, sender),
                limited,
                pending,
                at + 1,
            );
        }
    }
}

/// All that a packet of application data carries leaves it within its limit.
pub proof fn law_one_rtt_fits(
    m: ConnModel,
    draft: DraftModel,
    names: spec_fn(SendHandle) -> Option<u64>,
    pending: Seq<u64>,
)
    requires
        m.crypto.application.sound(),
        draft.frames.len() <= draft.limit,
    ensures
        m.one_rtt(draft, names, pending).1.frames.len() <= draft.limit,
        m.one_rtt(draft, names, pending).1.limit == draft.limit,
{
    reveal(ConnModel::one_rtt);
    if m.can_track_packet() {
        let records = m.control.records;
        let cids = m.path.local_cids;
        let first = draft.with_controls(records, cids, true, 0);
        law_controls_fit(draft, records, cids, true, 0);
        if m.crypto.application.selected(first.room()) is Some {
            law_crypto_fits(m.crypto.application, first);
        }
        law_controls_fit(m.with_handshake(first), records, cids, false, 0);
        let (journal, again) = resent(
            m.streams.journal,
            m.led(draft),
            m.streams.senders,
            names,
            PACKET_STREAM_CAPACITY as int,
        );
        law_resent_fits(
            m.streams.journal,
            m.led(draft),
            m.streams.senders,
            names,
            PACKET_STREAM_CAPACITY as int,
        );
        law_fresh_fits(
            StateModel { journal, ..m.streams },
            Fresh { control: m.control, draft: again },
            m.controls_in_flight(),
            cids,
            pending,
            0,
        );
    }
}

/// A datagram leaves a packet within its limit.
pub proof fn law_datagram_fits(m: ConnModel, draft: DraftModel)
    requires
        draft.frames.len() <= draft.limit,
    ensures
        m.datagram_draft(draft).0.frames.len() <= draft.limit,
        m.datagram_draft(draft).0.limit == draft.limit,
{
}

/// The frame that closes a connection fits its packet.
pub proof fn law_close_fits(close: CloseModel, limit: int)
    requires
        close_fixed(close) + 1 <= limit,
        close.error_code <= MAX_VARINT,
        close.is_application || close.frame_type <= MAX_VARINT,
        encodable(close_frame(close, trimmed(close_fixed(close), limit, close.reason.len() as int))),
    ensures
        frame_bytes(
            close_frame(close, trimmed(close_fixed(close), limit, close.reason.len() as int)),
        ).len() <= limit,
{
    broadcast use crate::varint::lemma_of_view;

    let len = trimmed(close_fixed(close), limit, close.reason.len() as int);
    law_trimmed_fits(close_fixed(close), limit, close.reason.len() as int);
    law_varint_round_trip(close.error_code, Seq::empty());
    law_varint_round_trip(len as u64, Seq::empty());
    if !close.is_application {
        law_varint_round_trip(close.frame_type, Seq::empty());
    }
    assert(close.reason.take(len).len() == len);
}

/// A packet with a short header is no longer than asked for, where its frames are within
/// their limit.
pub proof fn law_short_fits(m: ConnModel, frames: int, capacity: int)
    requires
        0 < frames <= m.room(Epoch::Application, capacity),
    ensures
        1 + m.path.peer_cid.len() + PN_LEN + frames + TAG_LEN <= capacity,
{
    law_short_room_fits(m.path.peer_cid.len() as int, capacity);
}

/// A packet with a long header is no longer than asked for, where its frames are within
/// their limit.
pub proof fn law_long_fits(m: ConnModel, kind: LongType, frames: int, capacity: int)
    requires
        capacity <= usize::MAX,
        0 < frames <= if kind == LongType::Initial {
            m.room(Epoch::Initial, capacity)
        } else {
            m.early_room(capacity)
        },
    ensures
        m.long_size(kind, frames) <= capacity,
{
    let token = m.path.retry_token.len() as int;
    let fixed = long_fixed(m.path.peer_cid.len() as int, m.path.local_cid.len() as int)
        + if kind == LongType::Initial {
        varint_len(token as u64) + token
    } else {
        0
    };
    law_long_room_fits(fixed, capacity);
    assert(varint_len((PN_LEN + frames + TAG_LEN) as u64) <= varint_len(
        (PN_LEN + long_room(fixed, capacity) + TAG_LEN) as u64,
    ));
}

/// A packet that is sent leaves what came from the peer, and whether its address is
/// validated, as they are; and where it is noted, its bytes count.
pub proof fn lemma_sent_allowance(
    m: ConnModel,
    commit: CommitModel,
    names: spec_fn(SendHandle) -> Option<u64>,
    now: Instant,
)
    requires
        0 <= commit.bytes <= u64::MAX,
    ensures
        m.sent(commit, names, now).0.egress.peer_address_validated
            == m.egress.peer_address_validated,
        m.sent(commit, names, now).0.egress.amplification_received
            == m.egress.amplification_received,
        m.sent(commit, names, now).1 ==> m.sent(commit, names, now).0.egress.amplification_sent
            == capped(m.egress.amplification_sent + commit.bytes),
        m.sent(commit, names, now).0.egress.pto_probe_epoch == m.egress.pto_probe_epoch || m.sent(
            commit,
            names,
            now,
        ).0.egress.pto_probe_epoch is None,
{
    reveal(ConnModel::packet_noted);
    reveal(crate::conn::transmit::connection::EgressModel::went_out);
    let numbered = m.numbered(commit.epoch, commit.pn, commit.ack_included);
    let noted = numbered.packet_noted(commit, now).0;
    let carried = noted.streams_noted(commit.streams, names, 0).0;
    lemma_streams_spaces(noted, commit.streams, names, 0);
    lemma_controls_spaces(carried, commit.controls, commit.pto_probe, 0);
}

} // verus!
