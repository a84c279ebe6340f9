//! Where a connection sends to, and under which names.
use vstd::prelude::*;

use crate::conn::control::{frame_of, Control};
use crate::frame::model::FrameModel;
use crate::frame::Frame;
use crate::packet::ConnectionId;
use crate::varint::{VarInt, MAX_VARINT};

verus! {

/// One of our connection IDs that the peer is told of.
#[derive(Debug, Clone, Copy)]
pub struct LocalCid {
    pub sequence_number: u64,
    pub cid: ConnectionId,
    pub token: [u8; 16],
    /// Whether a packet told the peer.
    pub sent: bool,
}

/// The path of a connection.
#[derive(Debug)]
pub struct Path {
    pub peer_cid: ConnectionId,
    pub local_cid: ConnectionId,
    /// What a Retry packet gave us to send.
    pub retry_token: Vec<u8>,
    pub local_cids: Vec<LocalCid>,
    /// The challenge that waits for its response.
    pub challenge: Option<[u8; 8]>,
}

/// Where our connection ID with a number is, or how many there are.
pub open spec fn cid_place(cids: Seq<LocalCid>, sequence_number: u64) -> int
    decreases cids.len(),
{
    if cids.len() == 0 || cids[0].sequence_number == sequence_number {
        0
    } else {
        1 + cid_place(cids.subrange(1, cids.len() as int), sequence_number)
    }
}

proof fn lemma_cid_place(cids: Seq<LocalCid>, sequence_number: u64, at: int)
    requires
        0 <= at <= cids.len(),
        forall|i: int| 0 <= i < at ==> (#[trigger] cids[i]).sequence_number != sequence_number,
        at < cids.len() ==> cids[at].sequence_number == sequence_number,
    ensures
        cid_place(cids, sequence_number) == at,
    decreases cids.len(),
{
    if at > 0 {
        let rest = cids.subrange(1, cids.len() as int);
        assert(cids[0].sequence_number != sequence_number);
        assert forall|i: int| 0 <= i < at - 1 implies (#[trigger] rest[i]).sequence_number
            != sequence_number by {
            assert(rest[i] == cids[i + 1]);
        }
        lemma_cid_place(rest, sequence_number, at - 1);
    }
}

/// The frame that tells one of our connection IDs.
pub open spec fn cid_frame(cid: LocalCid) -> FrameModel {
    Frame::NewConnectionId {
        sequence_number: VarInt::of(cid.sequence_number),
        retire_prior_to: VarInt::of(0),
        connection_id: cid.cid@,
        stateless_reset_token: cid.token,
    }
}

/// The frame of a record, if it has one.
pub open spec fn record_frame(record: Control, cids: Seq<LocalCid>) -> Option<FrameModel> {
    match record {
        Control::NewConnectionId { sequence_number } => {
            let at = cid_place(cids, sequence_number);
            if at < cids.len() && sequence_number <= MAX_VARINT {
                Some(cid_frame(cids[at]))
            } else {
                None
            }
        },
        _ => frame_of(record),
    }
}

impl Path {
    fn find(&self, sequence_number: u64) -> (at: usize)
        ensures
            at == cid_place(self.local_cids@, sequence_number),
            at <= self.local_cids@.len(),
            at < self.local_cids@.len() ==> self.local_cids@[at as int].sequence_number
                == sequence_number,
    {
        let mut at: usize = 0;
        while at < self.local_cids.len() && self.local_cids[at].sequence_number != sequence_number
            invariant
                at <= self.local_cids@.len(),
                forall|i: int|
                    0 <= i < at ==> (#[trigger] self.local_cids@[i]).sequence_number
                        != sequence_number,
            decreases self.local_cids@.len() - at,
        {
            at = at + 1;
        }
        proof {
            lemma_cid_place(self.local_cids@, sequence_number, at as int);
        }
        at
    }

    /// The frame of a record, if it has one.
    pub fn frame(&self, record: &Control) -> (frame: Option<Frame>)
        ensures
            match frame {
                Some(frame) => record_frame(*record, self.local_cids@) == Some(frame@),
                None => record_frame(*record, self.local_cids@) is None,
            },
    {
        broadcast use {crate::varint::lemma_of_view, crate::varint::lemma_view_of};

        match *record {
            Control::NewConnectionId { sequence_number } => {
                let at: usize = self.find(sequence_number);
                if at >= self.local_cids.len() {
                    return None;
                }
                let cid = self.local_cids[at];
                match VarInt::new(sequence_number) {
                    Some(sequence_number) => {
                        let frame = Frame::NewConnectionId {
                            sequence_number,
                            retire_prior_to: VarInt::zero(),
                            connection_id: cid.cid.to_vec(),
                            stateless_reset_token: cid.token,
                        };
                        assert(frame@ == cid_frame(self.local_cids@[at as int]));
                        Some(frame)
                    },
                    None => None,
                }
            },
            _ => record.frame(),
        }
    }

    /// Notes that the peer was told one of our connection IDs.
    pub fn local_cid_sent(&mut self, sequence_number: u64)
        ensures
            ({
                let at = cid_place(old(self).local_cids@, sequence_number);
                final(self).local_cids@ == if at < old(self).local_cids@.len() {
                    old(self).local_cids@.update(
                        at,
                        LocalCid { sent: true, ..old(self).local_cids@[at] },
                    )
                } else {
                    old(self).local_cids@
                }
            }),
            final(self).peer_cid == old(self).peer_cid,
            final(self).local_cid == old(self).local_cid,
            final(self).retry_token == old(self).retry_token,
            final(self).challenge == old(self).challenge,
    {
        let at: usize = self.find(sequence_number);
        if at < self.local_cids.len() {
            let mut cid = self.local_cids[at];
            cid.sent = true;
            self.local_cids.set(at, cid);
        }
    }

    /// Notes which challenge was sent.
    pub fn challenge_sent(&mut self, data: [u8; 8])
        ensures
            *final(self) == (Path { challenge: Some(data), ..*old(self) }),
    {
        self.challenge = Some(data);
    }
}

/// A connection ID is told with its own number, bytes and reset token, and asks the peer to
/// give none up. It is told exactly where we have one with that number.
pub proof fn law_connection_id_told(cids: Seq<LocalCid>, sequence_number: u64)
    requires
        sequence_number <= 0x3fff_ffff_ffff_ffff,
    ensures
        match record_frame(Control::NewConnectionId { sequence_number }, cids) {
            Some(frame) => exists|i: int|
                0 <= i < cids.len() && (#[trigger] cids[i]).sequence_number == sequence_number && (
                frame matches Frame::NewConnectionId {
                    sequence_number: number,
                    retire_prior_to,
                    connection_id,
                    stateless_reset_token,
                } && number@ == sequence_number && retire_prior_to@ == 0 && connection_id
                    == cids[i].cid@ && stateless_reset_token == cids[i].token),
            None => forall|i: int|
                0 <= i < cids.len() ==> (#[trigger] cids[i]).sequence_number != sequence_number,
        },
    decreases cids.len(),
{
    broadcast use {crate::varint::lemma_of_view, crate::varint::lemma_view_of};

    if cids.len() > 0 {
        if cids[0].sequence_number == sequence_number {
            assert(cids[0].sequence_number == sequence_number);
        } else {
            let rest = cids.subrange(1, cids.len() as int);
            law_connection_id_told(rest, sequence_number);
            let at = cid_place(rest, sequence_number);
            lemma_cid_place_bounds(rest, sequence_number);
            if at < rest.len() {
                assert(rest[at] == cids[at + 1]);
                assert(cids[at + 1].sequence_number == sequence_number);
            } else {
                assert forall|i: int| 0 <= i < cids.len() implies (
                #[trigger] cids[i]).sequence_number != sequence_number by {
                    if i > 0 {
                        assert(rest[i - 1] == cids[i]);
                    }
                }
            }
        }
    }
}

proof fn lemma_cid_place_bounds(cids: Seq<LocalCid>, sequence_number: u64)
    ensures
        0 <= cid_place(cids, sequence_number) <= cids.len(),
        cid_place(cids, sequence_number) < cids.len() ==> cids[cid_place(
            cids,
            sequence_number,
        )].sequence_number == sequence_number,
    decreases cids.len(),
{
    if cids.len() > 0 && cids[0].sequence_number != sequence_number {
        let rest = cids.subrange(1, cids.len() as int);
        lemma_cid_place_bounds(rest, sequence_number);
        let at = cid_place(rest, sequence_number);
        if at < rest.len() {
            assert(rest[at] == cids[at + 1]);
        }
    }
}

} // verus!
