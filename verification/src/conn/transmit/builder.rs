//! Packets as they are built.
use vstd::prelude::*;

use crate::conn::control::Control;
use crate::conn::transmit::ack::acks;
use crate::conn::transmit::connection::{ConnModel, Connection};
use crate::conn::transmit::crypto::Epoch;
use crate::conn::transmit::draft::{
    CryptoDelivery, Delivery, Draft, DraftModel, PACKET_CONTROL_CAPACITY, PACKET_STREAM_CAPACITY,
};
use crate::conn::transmit::laws::{law_ack_fits, law_crypto_fits, law_long_fits};
use crate::conn::transmit::room::{
    handshake_payload_limit, initial_payload_limit_for, initial_room, long_fixed, long_room,
    short_payload_limit, short_room, MIN_INITIAL_LEN, PN_LEN, TAG_LEN,
};
use crate::frame::{TYPE_PADDING, TYPE_PING};
use crate::packet::long::{long_error, LongHeader};
use crate::packet::model::{long_bytes, long_front, short_bytes, LongModel};
use crate::packet::{LongType, ShortHeaderRef, QUIC_V1};
use crate::packet_protection::{CryptoFailure, PacketProtection, LONG_HEADER_MASK, SHORT_HEADER_MASK};
use crate::varint::{law_varint_round_trip, varint_bytes, varint_len};
use crate::wire::{be_bytes, lemma_be_bytes_len};

verus! {

/// What is to be noted of a packet once it is sent.
pub struct Commit {
    pub epoch: Epoch,
    pub pn: u64,
    pub bytes: usize,
    pub controls: Vec<Control>,
    pub streams: Vec<Delivery>,
    pub crypto: Option<CryptoDelivery>,
    pub ack_included: bool,
    pub ack_eliciting: bool,
    pub in_flight: bool,
    pub early_data: bool,
    pub pto_probe: bool,
    pub pmtud_probe: Option<u64>,
    pub close: bool,
    pub datagram: bool,
}

/// What is to be noted of a packet once it is sent, over sequences.
#[verifier::ext_equal]
pub struct CommitModel {
    pub epoch: Epoch,
    pub pn: u64,
    pub bytes: int,
    pub controls: Seq<Control>,
    pub streams: Seq<Delivery>,
    pub crypto: Option<CryptoDelivery>,
    pub ack_included: bool,
    pub ack_eliciting: bool,
    pub in_flight: bool,
    pub early_data: bool,
    pub pto_probe: bool,
    pub pmtud_probe: Option<u64>,
    pub close: bool,
    pub datagram: bool,
}

impl View for Commit {
    type V = CommitModel;

    open spec fn view(&self) -> CommitModel {
        CommitModel {
            epoch: self.epoch,
            pn: self.pn,
            bytes: self.bytes as int,
            controls: self.controls@,
            streams: self.streams@,
            crypto: self.crypto,
            ack_included: self.ack_included,
            ack_eliciting: self.ack_eliciting,
            in_flight: self.in_flight,
            early_data: self.early_data,
            pto_probe: self.pto_probe,
            pmtud_probe: self.pmtud_probe,
            close: self.close,
            datagram: self.datagram,
        }
    }
}

impl CommitModel {
    /// What is to be noted of a packet with so many bytes.
    pub open spec fn of(draft: DraftModel, epoch: Epoch, pn: u64, bytes: int) -> CommitModel {
        CommitModel {
            epoch,
            pn,
            bytes,
            controls: draft.controls,
            streams: draft.streams,
            crypto: draft.crypto,
            ack_included: draft.ack_included,
            ack_eliciting: draft.ack_eliciting,
            in_flight: draft.ack_eliciting,
            early_data: false,
            pto_probe: false,
            pmtud_probe: None,
            close: false,
            datagram: false,
        }
    }
}

impl Commit {
    pub(crate) fn of(draft: Draft, epoch: Epoch, pn: u64, bytes: usize) -> (commit: Commit)
        ensures
            commit@ == CommitModel::of(draft@, epoch, pn, bytes as int),
    {
        Commit {
            epoch,
            pn,
            bytes,
            controls: draft.controls,
            streams: draft.streams,
            crypto: draft.crypto,
            ack_included: draft.ack_included,
            ack_eliciting: draft.ack_eliciting,
            in_flight: draft.ack_eliciting,
            early_data: false,
            pto_probe: false,
            pmtud_probe: None,
            close: false,
            datagram: false,
        }
    }
}

/// The protected form of a header and frames, if there is one.
pub open spec fn protected(
    key: Option<PacketProtection>,
    header: Seq<u8>,
    frames: Seq<u8>,
    pn: u64,
    pn_at: int,
    bits: u8,
) -> Option<Seq<u8>> {
    match key {
        Some(key) => if pn_at + PN_LEN > header.len() {
            None
        } else {
            match key.seals(header, frames, pn, pn_at, PN_LEN as int, bits) {
                Ok(packet) => Some(packet),
                Err(error) => None,
            }
        },
        None => None,
    }
}

impl ConnModel {
    /// The number of the next packet.
    pub open spec fn next_pn(self, epoch: Epoch) -> u64 {
        self.egress.spaces.of(epoch).next_pn
    }

    /// How many bytes of frames fit a packet.
    pub open spec fn room(self, epoch: Epoch, capacity: int) -> int {
        let peer = self.path.peer_cid.len() as int;
        let local = self.path.local_cid.len() as int;
        match epoch {
            Epoch::Initial => initial_room(
                peer,
                local,
                self.path.retry_token.len() as int,
                capacity,
            ),
            Epoch::Handshake => long_room(long_fixed(peer, local), capacity),
            Epoch::Application => short_room(peer, capacity),
        }
    }

    /// A packet with a short header.
    pub open spec fn short_packet(self, frames: Seq<u8>) -> Option<Seq<u8>> {
        let pn = self.next_pn(Epoch::Application);
        protected(
            self.keys.epochs.application,
            short_bytes(self.path.peer_cid, pn, PN_LEN),
            frames,
            pn,
            1 + self.path.peer_cid.len() as int,
            SHORT_HEADER_MASK,
        )
    }

    /// A packet with a long header.
    pub open spec fn long_packet(
        self,
        key: Option<PacketProtection>,
        kind: LongType,
        pn: u64,
        frames: Seq<u8>,
    ) -> Option<Seq<u8>> {
        let body = (frames.len() + TAG_LEN) as nat;
        let header = LongModel {
            version: QUIC_V1,
            kind,
            dcid: self.path.peer_cid,
            scid: self.path.local_cid,
            token: if kind == LongType::Initial {
                Some(self.path.retry_token)
            } else {
                None
            },
            packet_number: pn,
            packet_number_len: PN_LEN,
        };
        if body > usize::MAX || long_error(header, body) is Some {
            None
        } else {
            protected(
                key,
                long_bytes(header, body),
                frames,
                pn,
                long_front(header, body).len() as int,
                LONG_HEADER_MASK,
            )
        }
    }

    /// The length of a packet with a long header and so many bytes of frames.
    pub open spec fn long_size(self, kind: LongType, frames: int) -> int {
        let token = self.path.retry_token.len() as int;
        let fixed = long_fixed(self.path.peer_cid.len() as int, self.path.local_cid.len() as int)
            + if kind == LongType::Initial {
            varint_len(token as u64) + token
        } else {
            0
        };
        fixed + varint_len((PN_LEN + frames + TAG_LEN) as u64) + frames + TAG_LEN
    }

    /// Whether what packets carry can be noted.
    pub open spec fn can_track_packet(self) -> bool {
        &&& self.egress.packets.has_room(2)
        &&& self.egress.packets.has_carrier_room(
            PACKET_CONTROL_CAPACITY * 2,
            PACKET_STREAM_CAPACITY * 2,
        )
        &&& self.crypto.application.records.len() + 2 <= self.crypto.application.capacity
        &&& self.streams.journal.retry_groups.len() > 0 || self.streams.journal.active
            + PACKET_STREAM_CAPACITY * 2 <= self.streams.journal.limit
    }

    /// Whether a packet that is to learn whether the peer is there can be noted.
    pub open spec fn can_track_probe(self, epoch: Epoch) -> bool {
        &&& self.egress.packets.has_room(1)
        &&& epoch == Epoch::Application ==> self.egress.packets.has_carrier_room(
            PACKET_CONTROL_CAPACITY as int,
            PACKET_STREAM_CAPACITY as int,
        )
    }

    /// Whether a packet with handshake bytes can be built at all.
    pub open spec fn crypto_ready(self, epoch: Epoch, capacity: int) -> bool {
        &&& epoch != Epoch::Application
        &&& !(epoch == Epoch::Initial && self.is_client && capacity < MIN_INITIAL_LEN)
        &&& self.keys.epochs.of(epoch) is Some
    }

    /// The frames of a packet with handshake bytes, behind the acknowledgement.
    pub open spec fn crypto_draft(self, draft: DraftModel, epoch: Epoch, probe: bool) -> DraftModel {
        let crypto = self.crypto.of(epoch);
        if probe {
            let more = match crypto.probe(draft.room()) {
                Some(delivery) => draft.with_crypto(
                    delivery,
                    crypto.data(delivery.offset as int, delivery.len as int),
                ),
                None => draft,
            };
            if more.crypto is Some {
                more
            } else {
                more.with(seq![TYPE_PING])
            }
        } else if self.egress.packets.has_room(2) && crypto.records.len() + 2 <= crypto.capacity {
            match crypto.selected(draft.room()) {
                Some(delivery) => draft.with_crypto(
                    delivery,
                    crypto.data(delivery.offset as int, delivery.len as int),
                ),
                None => draft,
            }
        } else {
            draft
        }
    }

    /// A packet with handshake bytes, and what is to be noted of it. An Initial
    /// packet of a client is filled up.
    #[verifier::opaque]
    pub open spec fn crypto_packet(self, draft: DraftModel, epoch: Epoch, probe: bool) -> Option<
        (Seq<u8>, CommitModel),
    > {
        let done = self.crypto_draft(draft, epoch, probe);
        let pn = self.next_pn(epoch);
        let frames = if epoch == Epoch::Initial && self.is_client && done.frames.len()
            < done.limit {
            done.frames + Seq::new((done.limit - done.frames.len()) as nat, |i: int| TYPE_PADDING)
        } else {
            done.frames
        };
        if !probe && done.frames.len() == 0 {
            None
        } else {
            match self.long_packet(
                self.keys.epochs.of(epoch),
                if epoch == Epoch::Initial {
                    LongType::Initial
                } else {
                    LongType::Handshake
                },
                pn,
                frames,
            ) {
                Some(packet) => Some(
                    (
                        packet,
                        CommitModel {
                            ack_eliciting: probe || done.crypto is Some,
                            in_flight: probe || done.crypto is Some,
                            pto_probe: probe,
                            ..CommitModel::of(done, epoch, pn, packet.len() as int)
                        },
                    ),
                ),
                None => None,
            }
        }
    }
}

/// How long a long header is.
proof fn lemma_long_size(h: LongModel, body: nat)
    requires
        long_error(h, body) is None,
    ensures
        long_bytes(h, body).len() == 7 + h.dcid.len() + h.scid.len() + (match h.token {
            Some(token) => varint_len(token.len() as u64) + token.len(),
            None => 0,
        }) + varint_len((h.packet_number_len + body) as u64) + h.packet_number_len,
{
    lemma_be_bytes_len(h.packet_number as nat, h.packet_number_len as nat);
    lemma_be_bytes_len(h.version as nat, 4);
    law_varint_round_trip((h.packet_number_len + body) as u64, Seq::empty());
    match h.token {
        Some(token) => {
            law_varint_round_trip(token.len() as u64, Seq::empty());
        },
        None => {},
    }
}

/// Whether a packet was built: it was added to what was there, or nothing was.
pub open spec fn built(
    before: Seq<u8>,
    after: Seq<u8>,
    result: Option<Commit>,
    packet: Option<(Seq<u8>, CommitModel)>,
) -> bool {
    match packet {
        Some((bytes, commit)) => {
            &&& after == before + bytes
            &&& result matches Some(made) && made@ == commit
        },
        None => after == before && result is None,
    }
}

impl Connection {
    pub(crate) fn short_limit(&self, max_packet_bytes: usize) -> (limit: usize)
        ensures
            limit == self@.room(Epoch::Application, max_packet_bytes as int),
    {
        let cid = self.path.peer_cid.as_slice();
        short_payload_limit(cid.len(), max_packet_bytes)
    }

    pub(crate) fn can_track_packet(&self) -> (can: bool)
        requires
            self.wf(),
        ensures
            can == self@.can_track_packet(),
    {
        self.egress.packets.has_room_for(2) && self.egress.packets.has_carrier_room(
            PACKET_CONTROL_CAPACITY * 2,
            PACKET_STREAM_CAPACITY * 2,
        ) && self.crypto.application.has_room(2) && self.streams.can_track(
            PACKET_STREAM_CAPACITY * 2,
        )
    }

    pub(crate) fn can_track_probe(&self, epoch: Epoch) -> (can: bool)
        ensures
            can == self@.can_track_probe(epoch),
    {
        self.egress.packets.has_room_for(1) && (epoch != Epoch::Application
            || self.egress.packets.has_carrier_room(
            PACKET_CONTROL_CAPACITY,
            PACKET_STREAM_CAPACITY,
        ))
    }

    /// Appends a packet with a short header, if it can be protected.
    pub(crate) fn seal_short(&self, dst: &mut Vec<u8>, frames: &Vec<u8>) -> (result: Option<usize>)
        ensures
            match self@.short_packet(frames@) {
                Some(packet) => {
                    &&& final(dst)@ == old(dst)@ + packet
                    &&& result matches Some(n) && n == packet.len() && n == 1 + self@.path.peer_cid.len()
                        + PN_LEN + frames@.len() + TAG_LEN
                },
                None => final(dst)@ == old(dst)@ && result is None,
            },
    {
        let key = match &self.keys.epochs.application {
            Some(key) => key,
            None => {
                return None;
            },
        };
        let pn: u64 = self.egress.spaces.application.next_pn;
        let mut header: Vec<u8> = Vec::new();
        let cid = self.path.peer_cid.as_slice();
        let pn_offset: usize = match (ShortHeaderRef {
            dcid: cid,
            packet_number: pn,
            pn_len: PN_LEN,
        }).encode_into(&mut header) {
            Ok(pn_offset) => pn_offset,
            Err(error) => {
                return None;
            },
        };
        assert(header@ =~= short_bytes(self@.path.peer_cid, pn, PN_LEN));
        proof {
            lemma_be_bytes_len(pn as nat, PN_LEN as nat);
        }
        let start: usize = dst.len();
        let ghost before = dst@;
        match key.encrypt_short_into(
            dst,
            header.as_slice(),
            frames.as_slice(),
            pn,
            pn_offset,
            PN_LEN as usize,
        ) {
            Ok(n) => {
                assert(dst@ =~= before + dst@.subrange(start as int, dst@.len() as int));
                Some(n)
            },
            Err(error) => {
                dst.truncate(start);
                assert(dst@ =~= before);
                None
            },
        }
    }

    /// Appends a packet with a long header, if it can be protected.
    pub(crate) fn seal_long(
        &self,
        dst: &mut Vec<u8>,
        key: &Option<PacketProtection>,
        kind: LongType,
        pn: u64,
        frames: &Vec<u8>,
    ) -> (result: Option<usize>)
        ensures
            match self@.long_packet(*key, kind, pn, frames@) {
                Some(packet) => {
                    &&& final(dst)@ == old(dst)@ + packet
                    &&& result matches Some(n) && n == packet.len() && n == self@.long_size(
                        kind,
                        frames@.len() as int,
                    )
                },
                None => final(dst)@ == old(dst)@ && result is None,
            },
    {
        let key = match key {
            Some(key) => key,
            None => {
                return None;
            },
        };
        let body: usize = match frames.len().checked_add(TAG_LEN) {
            Some(body) => body,
            None => {
                return None;
            },
        };
        let mut header: Vec<u8> = Vec::new();
        let long = LongHeader {
            version: QUIC_V1,
            kind,
            dcid: self.path.peer_cid.as_slice(),
            scid: self.path.local_cid.as_slice(),
            token: if kind == LongType::Initial {
                Some(self.path.retry_token.as_slice())
            } else {
                None
            },
            packet_number: pn,
            packet_number_len: PN_LEN,
        };
        let ghost model = long@;
        let pn_offset: usize = match long.encode_into(&mut header, body) {
            Ok(pn_offset) => pn_offset,
            Err(error) => {
                return None;
            },
        };
        assert(header@ =~= long_bytes(model, body as nat));
        proof {
            lemma_long_size(model, body as nat);
        }
        let start: usize = dst.len();
        let ghost before = dst@;
        match key.encrypt_long_into(
            dst,
            header.as_slice(),
            frames.as_slice(),
            pn,
            pn_offset,
            PN_LEN as usize,
        ) {
            Ok(n) => {
                assert(dst@ =~= before + dst@.subrange(start as int, dst@.len() as int));
                Some(n)
            },
            Err(error) => {
                dst.truncate(start);
                assert(dst@ =~= before);
                None
            },
        }
    }

    /// Adds handshake bytes, or a sign of life where there are none.
    pub(crate) fn append_crypto(&self, draft: &mut Draft, epoch: Epoch, probe: bool)
        requires
            self.wf(),
            old(draft)@.crypto is None,
        ensures
            final(draft)@ == self@.crypto_draft(old(draft)@, epoch, probe),
    {
        let ghost acked = draft@;
        let ghost m = self@;
        let crypto = self.crypto.get(epoch);
        if probe {
            match crypto.crypto_probe(draft.room()) {
                Some(delivery) => {
                    draft.encode_crypto(delivery, crypto.data(&delivery));
                },
                None => {},
            }
            if draft.crypto.is_none() {
                draft.frames.push(TYPE_PING);
                assert(draft@.frames =~= m.crypto_draft(acked, epoch, probe).frames);
            }
        } else if self.egress.packets.has_room_for(2) && crypto.has_room(2) {
            match crypto.peek_crypto_chunk(draft.room()) {
                Some(delivery) => {
                    draft.encode_crypto(delivery, crypto.data(&delivery));
                },
                None => {},
            }
        }
    }

    /// Builds a packet with handshake bytes, or with an acknowledgement alone.
    pub fn build_crypto_packet(
        &self,
        dst: &mut Vec<u8>,
        max_packet_bytes: usize,
        epoch: Epoch,
        probe: bool,
    ) -> (result: Option<Commit>)
        requires
            self.wf(),
        ensures
            if !self@.crypto_ready(epoch, max_packet_bytes as int) {
                result is None && final(dst)@ == old(dst)@
            } else {
                exists|draft: DraftModel|
                    #![trigger self@.crypto_packet(draft, epoch, probe)]
                    {
                        &&& acks(
                            DraftModel::empty(self@.room(epoch, max_packet_bytes as int)),
                            self@.received.of(epoch),
                            draft,
                        )
                        &&& built(
                            old(dst)@,
                            final(dst)@,
                            result,
                            self@.crypto_packet(draft, epoch, probe),
                        )
                    }
            },
            !probe ==> (result matches Some(commit) ==> commit.bytes <= max_packet_bytes
                && final(dst)@.len() == old(dst)@.len() + commit.bytes),
    {
        reveal(ConnModel::crypto_packet);
        if epoch == Epoch::Application || (epoch == Epoch::Initial && self.is_client
            && max_packet_bytes < MIN_INITIAL_LEN) || !self.has_write_key(epoch) {
            return None;
        }
        let peer = self.path.peer_cid.as_slice();
        let local = self.path.local_cid.as_slice();
        let limit: usize = if epoch == Epoch::Initial {
            initial_payload_limit_for(
                peer.len(),
                local.len(),
                self.path.retry_token.len(),
                max_packet_bytes,
            )
        } else {
            handshake_payload_limit(peer.len(), local.len(), max_packet_bytes)
        };
        let pn: u64 = self.egress.spaces.get(epoch).next_pn;
        let mut draft = Draft::new(limit);
        draft.append_ack_frame(self.received.get(epoch));
        let ghost acked = draft@;
        let ghost m = self@;
        self.append_crypto(&mut draft, epoch, probe);
        let ghost done = draft@;
        if !probe && draft.frames.len() == 0 {
            assert(m.crypto_packet(acked, epoch, probe) is None);
            return None;
        }
        if epoch == Epoch::Initial && self.is_client {
            fill(&mut draft.frames, limit);
        }
        let kind = if epoch == Epoch::Initial {
            LongType::Initial
        } else {
            LongType::Handshake
        };
        let bytes: usize = match self.seal_long(
            dst,
            self.keys.epochs.get(epoch),
            kind,
            pn,
            &draft.frames,
        ) {
            Some(bytes) => bytes,
            None => {
                assert(m.crypto_packet(acked, epoch, probe) is None);
                return None;
            },
        };
        proof {
            if !probe {
                law_ack_fits(DraftModel::empty(limit as int), m.received.of(epoch), acked);
                if m.crypto.of(epoch).selected(acked.room()) is Some {
                    law_crypto_fits(m.crypto.of(epoch), acked);
                }
                law_long_fits(m, kind, draft.frames@.len() as int, max_packet_bytes as int);
            }
        }
        let eliciting = probe || draft.crypto.is_some();
        let mut commit = Commit::of(draft, epoch, pn, bytes);
        commit.ack_eliciting = eliciting;
        commit.in_flight = eliciting;
        commit.pto_probe = probe;
        let ghost expected = m.crypto_packet(acked, epoch, probe)->0;
        assert(commit@ =~= expected.1);
        Some(commit)
    }
}

/// Fills frames up to a length.
pub(crate) fn fill(frames: &mut Vec<u8>, len: usize)
    ensures
        final(frames)@ == if old(frames)@.len() < len {
            old(frames)@ + Seq::new((len - old(frames)@.len()) as nat, |i: int| TYPE_PADDING)
        } else {
            old(frames)@
        },
{
    let ghost before = frames@;
    while frames.len() < len
        invariant
            before.len() <= frames@.len(),
            before.len() < len ==> frames@.len() <= len,
            before.len() >= len ==> frames@ == before,
            frames@ == before + Seq::new((frames@.len() - before.len()) as nat, |i: int| TYPE_PADDING),
        decreases len - frames@.len(),
    {
        let ghost now = frames@;
        frames.push(TYPE_PADDING);
        assert(frames@ =~= before + Seq::new(
            (frames@.len() - before.len()) as nat,
            |i: int| TYPE_PADDING,
        ));
    }
}

/// A packet with a short header is sealed with the keys of the application, and shows where
/// it goes.
pub proof fn law_short_packet(connection: ConnModel, frames: Seq<u8>, packet: Seq<u8>)
    requires
        connection.short_packet(frames) == Some(packet),
    ensures
        ({
            let pn = connection.egress.spaces.application.next_pn;
            let d = connection.path.peer_cid.len() as int;
            let header = short_bytes(connection.path.peer_cid, pn, 4);
            &&& connection.keys.epochs.application matches Some(key) && key.seals(
                header,
                frames,
                pn,
                1 + d,
                4,
                0x1f,
            ) == Ok::<Seq<u8>, CryptoFailure>(packet)
            &&& header[0] == 0x43
            &&& packet.subrange(1, 1 + d) == connection.path.peer_cid
        }),
{
    let pn = connection.egress.spaces.application.next_pn;
    let d = connection.path.peer_cid.len() as int;
    let header = short_bytes(connection.path.peer_cid, pn, 4);
    let key = connection.keys.epochs.application->0;
    crate::packet::laws::law_short_header_on_the_wire(connection.path.peer_cid, pn, 4);
    key.law_header_protected(header, frames, pn, 1 + d, 4, 0x1f, packet);
    assert forall|i: int| 1 <= i < 1 + d implies packet[i] == header[i] by {}
    assert(packet.subrange(1, 1 + d) =~= header.subrange(1, 1 + d));
}

/// A packet with a long header is of version 1, goes to the peer's connection ID, comes from
/// ours, and carries a token only where it is an Initial packet.
pub proof fn law_long_packet(
    connection: ConnModel,
    key: Option<PacketProtection>,
    kind: LongType,
    pn: u64,
    frames: Seq<u8>,
    packet: Seq<u8>,
)
    requires
        connection.long_packet(key, kind, pn, frames) == Some(packet),
    ensures
        ({
            let peer = connection.path.peer_cid;
            let local = connection.path.local_cid;
            let d = peer.len() as int;
            let s = local.len() as int;
            let length = varint_bytes((4 + frames.len() + 16) as u64);
            let token = varint_bytes(connection.path.retry_token.len() as u64)
                + connection.path.retry_token;
            let front = 7 + d + s;
            &&& key is Some
            &&& packet.subrange(1, 5) == be_bytes(1, 4)
            &&& packet[5] == d && packet.subrange(6, 6 + d) == peer
            &&& packet[6 + d] == s && packet.subrange(7 + d, 7 + d + s) == local
            &&& packet[0] / 16 == match kind {
                LongType::Initial => 0xcu8,
                LongType::ZeroRtt => 0xd,
                LongType::Handshake => 0xe,
                LongType::Retry => 0xf,
            }
            &&& kind == LongType::Initial ==> packet.subrange(
                front,
                front + token.len() + length.len(),
            ) == token + length
            &&& kind != LongType::Initial ==> packet.subrange(front, front + length.len())
                == length
        }),
{
    let peer = connection.path.peer_cid;
    let local = connection.path.local_cid;
    let d = peer.len() as int;
    let s = local.len() as int;
    let body = (frames.len() + TAG_LEN) as nat;
    let h = LongModel {
        version: QUIC_V1,
        kind,
        dcid: peer,
        scid: local,
        token: if kind == LongType::Initial {
            Some(connection.path.retry_token)
        } else {
            None
        },
        packet_number: pn,
        packet_number_len: PN_LEN,
    };
    let header = long_bytes(h, body);
    let at = long_front(h, body).len() as int;
    let number = be_bytes(pn as nat, 4);
    crate::packet::laws::law_long_header_on_the_wire(h, body);
    assert(number.len() == 4);
    assert(header.len() == at + 4);
    key->0.law_header_protected(header, frames, pn, at, 4, LONG_HEADER_MASK, packet);
    assert forall|i: int| 1 <= i < at implies packet[i] == header[i] by {}
    assert(packet.subrange(1, 5) =~= header.subrange(1, 5));
    assert(packet.subrange(6, 6 + d) =~= header.subrange(6, 6 + d));
    assert(packet.subrange(7 + d, 7 + d + s) =~= header.subrange(7 + d, 7 + d + s));
    let (ciphertext, tag) = crate::primitives::aead_sealed(
        key->0.key(),
        key->0.iv(),
        pn,
        header,
        frames,
    )->0;
    let mask = crate::primitives::hp_mask(
        key->0.hp_key(),
        (header + ciphertext + tag@).subrange(at + 4, at + 20),
    )->0;
    PacketProtection::law_protected_bits(header[0], mask[0]);
    let length = varint_bytes((4 + frames.len() + 16) as u64);
    let front = 7 + d + s;
    let rest = header.skip(front);
    assert((PN_LEN + body) as u64 == (4 + frames.len() + 16) as u64);
    if kind == LongType::Initial {
        let token = varint_bytes(connection.path.retry_token.len() as u64)
            + connection.path.retry_token;
        assert(rest =~= token + length + number);
        assert(packet.subrange(front, front + token.len() + length.len()) =~= token + length);
    } else {
        assert(rest =~= length + number);
        assert(packet.subrange(front, front + length.len()) =~= length);
    }
}

/// An Initial packet of a client is filled up with zeros to the room that it has, and is not
/// built where packets are shorter than 1200 bytes. What carries handshake bytes, or is to
/// learn whether the peer is there, is acknowledged.
pub proof fn law_crypto_packet(
    connection: ConnModel,
    draft: DraftModel,
    epoch: Epoch,
    probe: bool,
    packet: Seq<u8>,
    commit: CommitModel,
)
    requires
        connection.crypto_packet(draft, epoch, probe) == Some((packet, commit)),
        epoch != Epoch::Application,
    ensures
        ({
            let done = connection.crypto_draft(draft, epoch, probe);
            let kind = if epoch == Epoch::Initial {
                LongType::Initial
            } else {
                LongType::Handshake
            };
            let pn = connection.egress.spaces.of(epoch).next_pn;
            &&& commit.epoch == epoch && commit.pn == pn && commit.bytes == packet.len()
            &&& commit.ack_eliciting == (probe || done.crypto is Some)
            &&& commit.in_flight == commit.ack_eliciting
            &&& commit.pto_probe == probe
            &&& commit.crypto == done.crypto && commit.ack_included == done.ack_included
            &&& connection.long_packet(
                connection.keys.epochs.of(epoch),
                kind,
                pn,
                done.frames + zeros(
                    if epoch == Epoch::Initial && connection.is_client && done.frames.len()
                        < done.limit {
                        (done.limit - done.frames.len()) as nat
                    } else {
                        0
                    },
                ),
            ) == Some(packet)
        }),
        forall|capacity: int| #[trigger]
            connection.crypto_ready(Epoch::Initial, capacity) && connection.is_client ==> capacity
                >= 1200,
{
    reveal(ConnModel::crypto_packet);
    let done = connection.crypto_draft(draft, epoch, probe);
    let kind = if epoch == Epoch::Initial {
        LongType::Initial
    } else {
        LongType::Handshake
    };
    let pn = connection.next_pn(epoch);
    let frames = if epoch == Epoch::Initial && connection.is_client && done.frames.len()
        < done.limit {
        done.frames + Seq::new((done.limit - done.frames.len()) as nat, |i: int| TYPE_PADDING)
    } else {
        done.frames
    };
    assert(frames =~= done.frames + zeros((frames.len() - done.frames.len()) as nat));
}

/// So many zeros.
pub open spec fn zeros(count: nat) -> Seq<u8> {
    Seq::new(count, |i: int| 0x00u8)
}

} // verus!
