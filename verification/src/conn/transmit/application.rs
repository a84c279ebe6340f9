//! Packets with application data.
use vstd::prelude::*;

use crate::conn::transmit::ack::acks;
use crate::conn::transmit::builder::{built, fill, Commit, CommitModel};
use crate::conn::transmit::connection::{CloseModel, CongestionControl, ConnModel, Connection};
use crate::conn::transmit::crypto::Epoch;
use crate::conn::transmit::draft::{Draft, DraftModel};
use crate::conn::transmit::laws::{
    law_ack_fits, law_close_fits, law_datagram_fits, law_short_fits,
};
use crate::conn::transmit::room::{left, number_len, PN_LEN, TAG_LEN};
use crate::frame::model::{encodable, frame_bytes, parse_frame, FrameModel};
use crate::frame::{put_bytes, Frame, FrameError, TYPE_DATAGRAM, TYPE_PADDING, TYPE_PING};
use crate::varint::{varint_len, VarInt, MAX_VARINT};

verus! {

/// The frame of a datagram, which goes up to the end of its packet.
pub open spec fn datagram_frame(data: Seq<u8>) -> FrameModel {
    Frame::Datagram { length_prefixed: false, data }
}

/// The length that a reason for closing is cut to.
pub open spec fn trimmed(fixed: int, limit: int, len: int) -> int
    decreases len,
{
    let encoded = fixed + varint_len(len as u64) + len;
    if encoded <= limit || len <= 0 {
        len
    } else {
        trimmed(fixed, limit, left(len, encoded - limit))
    }
}

/// The frame that closes a connection, with as much of the reason.
pub open spec fn close_frame(close: CloseModel, len: int) -> FrameModel {
    Frame::ConnectionClose {
        is_application: close.is_application,
        error_code: VarInt::of(close.error_code),
        frame_type: VarInt::of(
            if close.is_application {
                0
            } else {
                close.frame_type
            },
        ),
        reason: close.reason.take(len),
    }
}

/// How many bytes a closing frame takes in front of the reason and its length.
pub open spec fn close_fixed(close: CloseModel) -> int {
    1 + varint_len(close.error_code) + if close.is_application {
        0
    } else {
        varint_len(close.frame_type)
    }
}

/// What is left of a reason fits, where anything does.
pub proof fn law_trimmed_fits(fixed: int, limit: int, len: int)
    requires
        len >= 0,
        fixed + 1 <= limit,
    ensures
        0 <= trimmed(fixed, limit, len) <= len,
        fixed + varint_len(trimmed(fixed, limit, len) as u64) + trimmed(fixed, limit, len) <= limit,
    decreases len,
{
    let encoded = fixed + varint_len(len as u64) + len;
    if encoded > limit && len > 0 {
        law_trimmed_fits(fixed, limit, left(len, encoded - limit));
    }
}

impl ConnModel {
    /// The frames of a packet with a datagram, behind the acknowledgement.
    pub open spec fn datagram_draft(self, draft: DraftModel) -> (DraftModel, bool) {
        let data = self.egress.datagrams[0];
        if data.len() + 1 <= draft.room() {
            (draft.with(frame_bytes(datagram_frame(data))), true)
        } else {
            (draft, false)
        }
    }

    /// A packet with a datagram. What is in flight waits for the congestion
    /// window.
    #[verifier::opaque]
    pub open spec fn datagram_packet(self, draft: DraftModel) -> Option<(Seq<u8>, CommitModel)> {
        let (done, added) = self.datagram_draft(draft);
        if done.frames.len() == 0 {
            None
        } else {
            match self.short_packet(done.frames) {
                Some(packet) => Some(
                    (
                        packet,
                        CommitModel {
                            ack_eliciting: added,
                            in_flight: added && self.egress.datagram_congestion_control
                                == CongestionControl::Standard,
                            datagram: added,
                            ..CommitModel::of(
                                done,
                                Epoch::Application,
                                self.next_pn(Epoch::Application),
                                packet.len() as int,
                            )
                        },
                    ),
                ),
                None => None,
            }
        }
    }

    /// A packet of a size, to learn whether such packets pass.
    #[verifier::opaque]
    pub open spec fn size_probe(self, target: u64, capacity: int) -> Option<(Seq<u8>, CommitModel)> {
        let size = if target < capacity {
            target as int
        } else {
            capacity
        };
        let payload = left(size, 1 + self.path.peer_cid.len() + PN_LEN + TAG_LEN);
        let frames = seq![TYPE_PING] + Seq::new(left(payload, 1) as nat, |i: int| TYPE_PADDING);
        if !self.can_track_packet() || payload == 0 {
            None
        } else {
            match self.short_packet(frames) {
                Some(packet) => Some(
                    (
                        packet,
                        CommitModel {
                            ack_eliciting: true,
                            in_flight: true,
                            pmtud_probe: Some(size as u64),
                            ..CommitModel::of(
                                DraftModel::empty(0),
                                Epoch::Application,
                                self.next_pn(Epoch::Application),
                                packet.len() as int,
                            )
                        },
                    ),
                ),
                None => None,
            }
        }
    }

    /// A packet that closes the connection.
    #[verifier::opaque]
    pub open spec fn close_packet(self, capacity: int) -> Option<(Seq<u8>, CommitModel)> {
        let close = self.egress.pending_close->0;
        let limit = self.room(Epoch::Application, capacity);
        let fixed = close_fixed(close);
        let frame = close_frame(close, trimmed(fixed, limit, close.reason.len() as int));
        if self.egress.pending_close is None || fixed + 1 > limit || close.error_code > MAX_VARINT
            || (!close.is_application && close.frame_type > MAX_VARINT) || !encodable(frame) {
            None
        } else {
            match self.short_packet(frame_bytes(frame)) {
                Some(packet) => Some(
                    (
                        packet,
                        CommitModel {
                            close: true,
                            ..CommitModel::of(
                                DraftModel::empty(0),
                                Epoch::Application,
                                self.next_pn(Epoch::Application),
                                packet.len() as int,
                            )
                        },
                    ),
                ),
                None => None,
            }
        }
    }
}

impl Connection {
    /// Builds a packet with a datagram.
    pub fn build_datagram(&self, dst: &mut Vec<u8>, max_packet_bytes: usize) -> (result: Option<
        Commit,
    >)
        requires
            self.wf(),
        ensures
            if (self@.egress.datagram_congestion_control == CongestionControl::Standard
                && !self@.can_track_packet()) || self@.egress.datagrams.len() == 0 {
                result is None && final(dst)@ == old(dst)@
            } else {
                exists|draft: DraftModel|
                    #![trigger self@.datagram_packet(draft)]
                    {
                        &&& acks(
                            DraftModel::empty(
                                self@.room(Epoch::Application, max_packet_bytes as int),
                            ),
                            self@.received.application,
                            draft,
                        )
                        &&& built(old(dst)@, final(dst)@, result, self@.datagram_packet(draft))
                    }
            },
            result matches Some(commit) ==> commit.bytes <= max_packet_bytes && final(dst)@.len()
                == old(dst)@.len() + commit.bytes,
    {
        reveal(ConnModel::datagram_packet);
        let ghost m = self@;
        let standard = self.egress.datagram_congestion_control == CongestionControl::Standard;
        if standard && !self.can_track_packet() {
            return None;
        }
        assert(m.egress.datagrams.len() == self.egress.pending_datagrams@.len());
        if self.egress.pending_datagrams.len() == 0 {
            return None;
        }
        let pn: u64 = self.egress.spaces.application.next_pn;
        let mut draft = Draft::new(self.short_limit(max_packet_bytes));
        draft.append_ack_frame(&self.received.application);
        let ghost acked = draft@;
        let data = &self.egress.pending_datagrams[0];
        assert(m.egress.datagrams[0] == data@);
        let room: usize = draft.room();
        let added = data.len() < room;
        if added {
            draft.frames.push(TYPE_DATAGRAM);
            put_bytes(&mut draft.frames, data.as_slice());
            assert(draft@.frames =~= acked.frames + frame_bytes(datagram_frame(data@)));
        }
        assert(draft@ == m.datagram_draft(acked).0);
        if draft.frames.len() == 0 {
            assert(m.datagram_packet(acked) is None);
            return None;
        }
        let bytes: usize = match self.seal_short(dst, &draft.frames) {
            Some(bytes) => bytes,
            None => {
                assert(m.datagram_packet(acked) is None);
                return None;
            },
        };
        proof {
            law_ack_fits(
                DraftModel::empty(m.room(Epoch::Application, max_packet_bytes as int)),
                m.received.application,
                acked,
            );
            law_datagram_fits(m, acked);
            law_short_fits(m, draft@.frames.len() as int, max_packet_bytes as int);
        }
        let mut commit = Commit::of(draft, Epoch::Application, pn, bytes);
        commit.ack_eliciting = added;
        commit.in_flight = added && standard;
        commit.datagram = added;
        let ghost expected = m.datagram_packet(acked)->0;
        assert(commit@ =~= expected.1);
        Some(commit)
    }

    /// Builds a packet of a size, to learn whether such packets pass.
    pub fn build_one_rtt_probe(
        &self,
        dst: &mut Vec<u8>,
        target_size: u64,
        max_packet_bytes: usize,
    ) -> (result: Option<Commit>)
        requires
            self.wf(),
        ensures
            built(
                old(dst)@,
                final(dst)@,
                result,
                self@.size_probe(target_size, max_packet_bytes as int),
            ),
            result matches Some(commit) ==> commit.bytes <= max_packet_bytes && final(dst)@.len()
                == old(dst)@.len() + commit.bytes,
    {
        reveal(ConnModel::size_probe);
        let ghost m = self@;
        if !self.can_track_packet() {
            return None;
        }
        let size: usize = if target_size < max_packet_bytes as u64 {
            target_size as usize
        } else {
            max_packet_bytes
        };
        let pn: u64 = self.egress.spaces.application.next_pn;
        let cid = self.path.peer_cid.as_slice();
        let payload: usize = size.saturating_sub(1 + cid.len() + PN_LEN as usize + TAG_LEN);
        if payload == 0 {
            return None;
        }
        let mut frames: Vec<u8> = Vec::new();
        frames.push(TYPE_PING);
        fill(&mut frames, payload);
        assert(frames@ =~= seq![TYPE_PING] + Seq::new(
            left(payload as int, 1) as nat,
            |i: int| TYPE_PADDING,
        ));
        let bytes: usize = match self.seal_short(dst, &frames) {
            Some(bytes) => bytes,
            None => {
                return None;
            },
        };
        let mut commit = Commit::of(Draft::new(0), Epoch::Application, pn, bytes);
        commit.ack_eliciting = true;
        commit.in_flight = true;
        commit.pmtud_probe = Some(size as u64);
        let ghost expected = m.size_probe(target_size, max_packet_bytes as int)->0;
        assert(commit@ =~= expected.1);
        Some(commit)
    }

    /// Builds a packet that closes the connection.
    pub fn build_one_rtt_close(&self, dst: &mut Vec<u8>, max_packet_bytes: usize) -> (result:
        Option<Commit>)
        requires
            self.wf(),
        ensures
            built(old(dst)@, final(dst)@, result, self@.close_packet(max_packet_bytes as int)),
            result matches Some(commit) ==> commit.bytes <= max_packet_bytes && final(dst)@.len()
                == old(dst)@.len() + commit.bytes,
    {
        reveal(ConnModel::close_packet);
        broadcast use {crate::varint::lemma_of_view, crate::varint::lemma_view_of};

        let ghost m = self@;
        let close = match &self.egress.pending_close {
            Some(close) => close,
            None => {
                return None;
            },
        };
        let limit: usize = self.short_limit(max_packet_bytes);
        let pn: u64 = self.egress.spaces.application.next_pn;
        let fixed: usize = 1 + number_len(close.error_code) + if close.is_application {
            0
        } else {
            number_len(close.frame_type)
        };
        if fixed >= limit {
            return None;
        }
        let total: usize = close.reason.len();
        let mut len: usize = total;
        proof {
            law_trimmed_fits(fixed as int, limit as int, len as int);
        }
        while number_len(len as u64) > limit - fixed || len > limit - fixed - number_len(len as u64)
            invariant
                fixed < limit,
                fixed <= 17,
                len <= total,
                trimmed(fixed as int, limit as int, len as int) == trimmed(
                    fixed as int,
                    limit as int,
                    total as int,
                ),
            decreases len,
        {
            let size: usize = number_len(len as u64);
            if len == 0 {
                return None;
            }
            let room: usize = limit - fixed;
            let ghost encoded = fixed + size + len;
            if room <= size {
                len = 0;
            } else {
                let kept: usize = room - size;
                assert(len > kept);
                len = kept;
            }
        }
        let error_code = match VarInt::new(close.error_code) {
            Some(error_code) => error_code,
            None => {
                return None;
            },
        };
        let frame_type = if close.is_application {
            VarInt::zero()
        } else {
            match VarInt::new(close.frame_type) {
                Some(frame_type) => frame_type,
                None => {
                    return None;
                },
            }
        };
        let mut reason: Vec<u8> = Vec::new();
        put_bytes(
            &mut reason,
            vstd::slice::slice_subrange(close.reason.as_slice(), 0, len),
        );
        assert(reason@ =~= close@.reason.take(len as int));
        let frame = Frame::ConnectionClose {
            is_application: close.is_application,
            error_code,
            frame_type,
            reason,
        };
        assert(frame@ == close_frame(close@, len as int));
        let mut frames: Vec<u8> = Vec::new();
        if frame.encode(&mut frames).is_err() {
            return None;
        }
        assert(frames@ =~= frame_bytes(frame@));
        let bytes: usize = match self.seal_short(dst, &frames) {
            Some(bytes) => bytes,
            None => {
                return None;
            },
        };
        proof {
            law_close_fits(close@, limit as int);
            law_short_fits(m, frames@.len() as int, max_packet_bytes as int);
        }
        let mut commit = Commit::of(Draft::new(0), Epoch::Application, pn, bytes);
        commit.close = true;
        let ghost expected = m.close_packet(max_packet_bytes as int)->0;
        assert(commit@ =~= expected.1);
        Some(commit)
    }
}

/// A datagram is read back from the end of its packet, where it fits; otherwise the packet
/// carries none.
pub proof fn law_datagram_read_back(connection: ConnModel, draft: DraftModel)
    requires
        connection.egress.datagrams.len() > 0,
    ensures
        ({
            let data = connection.egress.datagrams[0];
            let (after, added) = connection.datagram_draft(draft);
            &&& added == (draft.frames.len() + 1 + data.len() <= draft.limit)
            &&& !added ==> after == draft
            &&& added ==> after.frames == draft.frames + seq![0x30u8] + data
            &&& added ==> parse_frame(after.frames.skip(draft.frames.len() as int)) == Ok::<
                (FrameModel, int),
                FrameError,
            >((Frame::Datagram { length_prefixed: false, data }, (1 + data.len()) as int))
        }),
{
    let data = connection.egress.datagrams[0];
    let (after, added) = connection.datagram_draft(draft);
    if added {
        let frame = datagram_frame(data);
        crate::frame::laws::law_frame_on_the_wire(frame);
        assert(frame_bytes(frame) == seq![0x30u8] + data);
        assert(after.frames =~= draft.frames + seq![0x30u8] + data);
        assert(after.frames.skip(draft.frames.len() as int) =~= frame_bytes(frame) + Seq::empty());
        crate::frame::laws::law_frame_round_trip(frame, Seq::empty());
    }
}

/// A packet with a datagram counts as in flight where the congestion window holds datagrams
/// back, and its receiver acknowledges it where it carries one.
pub proof fn law_datagram_noted(
    connection: ConnModel,
    draft: DraftModel,
    packet: Seq<u8>,
    commit: CommitModel,
)
    requires
        connection.datagram_packet(draft) == Some((packet, commit)),
    ensures
        ({
            let (done, added) = connection.datagram_draft(draft);
            &&& connection.short_packet(done.frames) == Some(packet)
            &&& commit.datagram == added && commit.ack_eliciting == added
            &&& commit.in_flight == (added && connection.egress.datagram_congestion_control
                != CongestionControl::Uncongested)
            &&& commit.epoch == Epoch::Application
            &&& commit.pn == connection.egress.spaces.application.next_pn
            &&& commit.bytes == packet.len()
            &&& commit.ack_included == draft.ack_included
            &&& !commit.close && commit.pmtud_probe is None && !commit.early_data
        }),
{
    reveal(ConnModel::datagram_packet);
}

/// A packet that is to learn whether packets of a size pass is one byte that asks for an
/// acknowledgement and as many zeros as make it that long, or as long as packets may be.
pub proof fn law_size_probe(
    connection: ConnModel,
    target: u64,
    capacity: int,
    packet: Seq<u8>,
    commit: CommitModel,
)
    requires
        connection.size_probe(target, capacity) == Some((packet, commit)),
    ensures
        ({
            let size = if target < capacity {
                target as int
            } else {
                capacity
            };
            exists|frames: Seq<u8>| #[trigger]
                connection.short_packet(frames) == Some(packet) && frames.len() + 1
                    + connection.path.peer_cid.len() + 4 + 16 == size && frames[0] == 0x01 && (
                forall|i: int| 0 < i < frames.len() ==> #[trigger] frames[i] == 0x00)
        }),
        commit.pmtud_probe == Some(
            if target < capacity {
                target
            } else {
                capacity as u64
            },
        ),
        commit.ack_eliciting,
        commit.in_flight,
        commit.streams.len() == 0 && commit.controls.len() == 0 && commit.crypto is None,
{
    reveal(ConnModel::size_probe);
    let size = if target < capacity {
        target as int
    } else {
        capacity
    };
    let payload = left(size, 1 + connection.path.peer_cid.len() + PN_LEN + TAG_LEN);
    let frames = seq![TYPE_PING] + Seq::new(left(payload, 1) as nat, |i: int| TYPE_PADDING);
    assert(connection.short_packet(frames) == Some(packet));
    assert(frames.len() == payload);
}

/// A connection is closed with its own error code and as much of the reason as fits; an
/// application names no frame type.
pub proof fn law_close_says(close: CloseModel, len: int)
    requires
        close.error_code <= 0x3fff_ffff_ffff_ffff,
        close.frame_type <= 0x3fff_ffff_ffff_ffff,
        0 <= len <= close.reason.len() <= 0x3fff_ffff_ffff_ffff,
    ensures
        close_frame(close, len) matches Frame::ConnectionClose {
            is_application,
            error_code,
            frame_type,
            reason,
        } && is_application == close.is_application && error_code@ == close.error_code
            && frame_type@ == (if is_application {
            0u64
        } else {
            close.frame_type
        }) && reason == close.reason.take(len),
        close_fixed(close) + varint_len(len as u64) + len == frame_bytes(
            close_frame(close, len),
        ).len(),
{
    broadcast use {crate::varint::lemma_of_view, crate::varint::lemma_view_of};

    crate::varint::lemma_of_view(0);
    crate::varint::law_varint_round_trip(close.error_code, Seq::empty());
    crate::varint::law_varint_round_trip(close.frame_type, Seq::empty());
    crate::varint::law_varint_round_trip(len as u64, Seq::empty());
}

/// A reason that fits is not cut, and one that is cut leaves at most eight bytes unused.
pub proof fn law_reason_is_kept(fixed: int, limit: int, len: int)
    requires
        len >= 0,
    ensures
        fixed + varint_len(len as u64) + len <= limit ==> trimmed(fixed, limit, len) == len,
        trimmed(fixed, limit, len) == len || trimmed(fixed, limit, len) + 8 >= limit - fixed,
    decreases len,
{
    let encoded = fixed + varint_len(len as u64) + len;
    if encoded > limit && len > 0 {
        let next = left(len, encoded - limit);
        law_reason_is_kept(fixed, limit, next);
    }
}

} // verus!
