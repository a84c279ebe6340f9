//! The frames of a packet while it is built.
use vstd::prelude::*;

use crate::conn::control::{Control, Pending};
use crate::conn::send::{Sender, SenderModel};
use crate::conn::stream_journal::model::{Handle, Stream};
use crate::conn::transmit::path::{record_frame, LocalCid, Path};
use crate::conn::transmit::room::left;
use crate::frame::laws::law_frame_round_trip;
use crate::frame::model::{encodable, frame_bytes, parse_frame, stream_head, FrameModel};
use crate::frame::{put_bytes, Frame};
use crate::varint::{varint_bytes, VarInt, MAX_VARINT};

verus! {

/// How many control records one packet carries at most.
pub const PACKET_CONTROL_CAPACITY: usize = 32;

/// How many pieces of streams one packet carries at most.
pub const PACKET_STREAM_CAPACITY: usize = 16;

/// A piece of a stream that a packet carries, and the record of it where it was
/// sent before.
#[derive(Debug, Clone, Copy, PartialEq, Eq, Structural)]
pub struct Delivery {
    pub record: Stream,
    pub known: Option<Handle>,
}

/// A piece of a handshake that a packet carries, and the number of its record
/// where it was sent before.
#[derive(Debug, Clone, Copy, PartialEq, Eq, Structural)]
pub struct CryptoDelivery {
    pub offset: u64,
    pub len: usize,
    pub known: Option<usize>,
}

/// A packet while it is built.
pub struct Draft {
    pub frames: Vec<u8>,
    /// How many bytes of frames fit.
    pub limit: usize,
    pub controls: Vec<Control>,
    pub streams: Vec<Delivery>,
    pub crypto: Option<CryptoDelivery>,
    pub ack_included: bool,
    pub ack_eliciting: bool,
}

/// The state of a packet while it is built.
#[verifier::ext_equal]
pub struct DraftModel {
    pub frames: Seq<u8>,
    pub limit: int,
    pub controls: Seq<Control>,
    pub streams: Seq<Delivery>,
    pub crypto: Option<CryptoDelivery>,
    pub ack_included: bool,
    pub ack_eliciting: bool,
}

impl View for Draft {
    type V = DraftModel;

    open spec fn view(&self) -> DraftModel {
        DraftModel {
            frames: self.frames@,
            limit: self.limit as int,
            controls: self.controls@,
            streams: self.streams@,
            crypto: self.crypto,
            ack_included: self.ack_included,
            ack_eliciting: self.ack_eliciting,
        }
    }
}

/// The frame of a piece of a stream.
pub open spec fn piece_frame(record: Stream, data: Seq<u8>) -> FrameModel {
    Frame::Stream {
        stream_id: VarInt::of(record.stream_id),
        offset: VarInt::of(record.offset),
        fin: record.fin,
        length_prefixed: true,
        data,
    }
}

/// The frame of a piece of a handshake.
pub open spec fn crypto_frame(offset: u64, data: Seq<u8>) -> FrameModel {
    Frame::Crypto { offset: VarInt::of(offset), data }
}

/// Whether a record comes in front of the handshake.
pub open spec fn leads(record: Control) -> bool {
    record is HandshakeDone
}

impl DraftModel {
    pub open spec fn empty(limit: int) -> DraftModel {
        DraftModel {
            frames: Seq::empty(),
            limit,
            controls: Seq::empty(),
            streams: Seq::empty(),
            crypto: None,
            ack_included: false,
            ack_eliciting: false,
        }
    }

    /// How many more bytes fit.
    pub open spec fn room(self) -> int {
        left(self.limit, self.frames.len() as int)
    }

    pub open spec fn with(self, bytes: Seq<u8>) -> DraftModel {
        DraftModel { frames: self.frames + bytes, ..self }
    }

    /// Whether a frame fits.
    pub open spec fn fits(self, frame: FrameModel) -> bool {
        encodable(frame) && self.frames.len() + frame_bytes(frame).len() <= self.limit
    }

    /// Whether a piece of a stream fits.
    pub open spec fn fits_piece(self, record: Stream, sender: SenderModel) -> bool {
        &&& record.stream_id <= MAX_VARINT
        &&& record.offset <= MAX_VARINT
        &&& sender.available(record.offset as int, record.len as int)
        &&& self.fits(
            piece_frame(record, sender.range(record.offset as int, record.len as int)),
        )
    }

    /// The draft with a piece of a stream.
    pub open spec fn with_piece(self, delivery: Delivery, sender: SenderModel) -> DraftModel {
        let record = delivery.record;
        let bytes = frame_bytes(
            piece_frame(record, sender.range(record.offset as int, record.len as int)),
        );
        DraftModel {
            frames: self.frames + bytes,
            streams: self.streams.push(delivery),
            ack_eliciting: true,
            ..self
        }
    }

    /// The draft with a piece of a handshake, where its numbers have a wire
    /// form.
    pub open spec fn with_crypto(self, delivery: CryptoDelivery, data: Seq<u8>) -> DraftModel {
        if delivery.offset <= MAX_VARINT && data.len() <= MAX_VARINT {
            DraftModel {
                frames: self.frames + frame_bytes(crypto_frame(delivery.offset, data)),
                crypto: Some(delivery),
                ack_eliciting: true,
                ..self
            }
        } else {
            self
        }
    }

    /// Whether a control record can be added.
    pub open spec fn fits_control(self, record: Control, cids: Seq<LocalCid>) -> bool {
        record_frame(record, cids) matches Some(frame) && self.fits(frame)
    }

    pub open spec fn with_control(self, record: Control, cids: Seq<LocalCid>) -> DraftModel {
        DraftModel {
            frames: self.frames + frame_bytes(record_frame(record, cids)->0),
            controls: self.controls.push(record),
            ack_eliciting: true,
            ..self
        }
    }

    /// The draft with the records, from a place on, that lead or do not, until
    /// one does not fit.
    pub open spec fn with_controls(
        self,
        records: Seq<Control>,
        cids: Seq<LocalCid>,
        leading: bool,
        at: int,
    ) -> DraftModel
        decreases records.len() - at,
    {
        if at >= records.len() || self.controls.len() >= PACKET_CONTROL_CAPACITY {
            self
        } else if leads(records[at]) != leading {
            self.with_controls(records, cids, leading, at + 1)
        } else if !self.fits_control(records[at], cids) {
            self
        } else {
            self.with_control(records[at], cids).with_controls(records, cids, leading, at + 1)
        }
    }
}

impl Draft {
    /// A packet without frames.
    pub fn new(limit: usize) -> (draft: Draft)
        ensures
            draft@ == DraftModel::empty(limit as int),
    {
        Draft {
            frames: Vec::new(),
            limit,
            controls: Vec::new(),
            streams: Vec::new(),
            crypto: None,
            ack_included: false,
            ack_eliciting: false,
        }
    }

    /// How many more bytes fit.
    pub fn room(&self) -> (room: usize)
        ensures
            room == self@.room(),
    {
        self.limit.saturating_sub(self.frames.len())
    }

    /// Adds a frame, if it fits.
    pub fn append_frame(&mut self, frame: &Frame) -> (added: bool)
        ensures
            added == old(self)@.fits(frame@),
            final(self)@ == if added {
                old(self)@.with(frame_bytes(frame@))
            } else {
                old(self)@
            },
    {
        let start: usize = self.frames.len();
        let ghost before = self.frames@;
        let encoded = frame.encode(&mut self.frames).is_ok();
        if encoded && self.frames.len() <= self.limit {
            true
        } else {
            self.frames.truncate(start);
            assert(self.frames@ =~= before);
            false
        }
    }

    /// Adds a piece of a stream, if it fits.
    pub fn append_stream_frame(&mut self, delivery: Delivery, sender: &Sender) -> (added: bool)
        requires
            sender@.sound(),
        ensures
            added == old(self)@.fits_piece(delivery.record, sender@),
            final(self)@ == if added {
                old(self)@.with_piece(delivery, sender@)
            } else {
                old(self)@
            },
    {
        broadcast use {crate::varint::lemma_of_view, crate::varint::lemma_view_of};

        let record = delivery.record;
        let start: usize = self.frames.len();
        let ghost before = self.frames@;
        let (stream_id, offset) = match (VarInt::new(record.stream_id), VarInt::new(record.offset)) {
            (Some(stream_id), Some(offset)) => (stream_id, offset),
            _ => {
                return false;
            },
        };
        if !sender.range_available(record.offset, record.len) {
            return false;
        }
        let ghost data = sender@.range(record.offset as int, record.len as int);
        let ghost frame = piece_frame(record, data);
        let len: usize = record.len as usize;
        assert(data.len() == record.len);
        assert(frame_bytes(frame) =~= stream_head(stream_id, offset, record.fin, true)
            + varint_bytes(len as u64) + data);
        let headed = Frame::encode_stream_header(
            &mut self.frames,
            stream_id,
            offset,
            record.fin,
            Some(len),
        ).is_ok();
        if headed && self.frames.len() <= self.limit && len <= self.limit - self.frames.len() {
            sender.append_range(&mut self.frames, record.offset, len);
            assert(self.frames@ =~= before + frame_bytes(frame));
            self.streams.push(delivery);
            self.ack_eliciting = true;
            true
        } else {
            proof {
                if headed {
                    assert(self.frames@ + data =~= before + frame_bytes(frame));
                }
            }
            self.frames.truncate(start);
            assert(self.frames@ =~= before);
            false
        }
    }

    /// Adds a piece of a handshake.
    pub fn encode_crypto(&mut self, delivery: CryptoDelivery, data: &[u8])
        ensures
            final(self)@ == old(self)@.with_crypto(delivery, data@),
    {
        broadcast use {crate::varint::lemma_of_view, crate::varint::lemma_view_of};

        let ghost before = self.frames@;
        let (offset, len) = match (VarInt::new(delivery.offset), VarInt::from_usize(data.len())) {
            (Some(offset), Some(len)) => (offset, len),
            _ => {
                return;
            },
        };
        self.frames.push(crate::frame::TYPE_CRYPTO);
        offset.encode(&mut self.frames);
        len.encode(&mut self.frames);
        put_bytes(&mut self.frames, data);
        assert(self.frames@ =~= before + frame_bytes(crypto_frame(delivery.offset, data@)));
        self.crypto = Some(delivery);
        self.ack_eliciting = true;
    }

    /// Adds a control record, if it fits.
    pub fn append_control(&mut self, record: Control, path: &Path) -> (added: bool)
        ensures
            added == old(self)@.fits_control(record, path.local_cids@),
            final(self)@ == if added {
                old(self)@.with_control(record, path.local_cids@)
            } else {
                old(self)@
            },
    {
        match path.frame(&record) {
            Some(frame) => {
                if self.append_frame(&frame) {
                    self.controls.push(record);
                    self.ack_eliciting = true;
                    true
                } else {
                    false
                }
            },
            None => false,
        }
    }

    /// Adds the records that wait and lead, or do not, until one does not fit.
    pub fn append_pending_controls(&mut self, pending: &Pending, path: &Path, leading: bool)
        ensures
            final(self)@ == old(self)@.with_controls(
                pending@.records,
                path.local_cids@,
                leading,
                0,
            ),
    {
        let count: usize = pending.len();
        let mut at: usize = 0;
        while at < count && self.controls.len() < PACKET_CONTROL_CAPACITY
            invariant
                at <= count,
                count == pending@.records.len(),
                self@.with_controls(pending@.records, path.local_cids@, leading, at as int) == old(
                    self,
                )@.with_controls(pending@.records, path.local_cids@, leading, 0),
            ensures
                self@ == old(self)@.with_controls(
                    pending@.records,
                    path.local_cids@,
                    leading,
                    0,
                ),
            decreases count - at,
        {
            let record = pending.get(at);
            let first = match record {
                Control::HandshakeDone => true,
                _ => false,
            };
            if first == leading {
                if !self.append_control(record, path) {
                    break;
                }
            }
            at = at + 1;
        }
    }
}

/// A piece of a stream is read back from the packet as what the stream holds at its place.
pub proof fn law_piece_read_back(
    draft: DraftModel,
    delivery: Delivery,
    sender: SenderModel,
    rest: Seq<u8>,
)
    requires
        draft.fits_piece(delivery.record, sender),
    ensures
        ({
            let after = draft.with_piece(delivery, sender);
            let record = delivery.record;
            let n = after.frames.len() - draft.frames.len();
            &&& after.frames.len() <= draft.limit && after.limit == draft.limit
            &&& after.frames.take(draft.frames.len() as int) == draft.frames
            &&& after.streams == draft.streams.push(delivery)
            &&& after.ack_eliciting
            &&& parse_frame(
                after.frames.skip(draft.frames.len() as int) + rest,
            ) matches Ok((frame, len)) && len == n && (frame matches Frame::Stream {
                stream_id,
                offset,
                fin,
                data,
                ..
            } && stream_id@ == record.stream_id && offset@ == record.offset && fin == record.fin
                && data == sender.range(record.offset as int, record.len as int))
        }),
{
    broadcast use {crate::varint::lemma_of_view, crate::varint::lemma_view_of};

    let record = delivery.record;
    let frame = piece_frame(record, sender.range(record.offset as int, record.len as int));
    let after = draft.with_piece(delivery, sender);
    assert(after.frames.take(draft.frames.len() as int) =~= draft.frames);
    assert(after.frames.skip(draft.frames.len() as int) =~= frame_bytes(frame));
    law_frame_round_trip(frame, rest);
}

/// A piece of a handshake is read back from the packet at its offset.
pub proof fn law_crypto_read_back(
    draft: DraftModel,
    delivery: CryptoDelivery,
    data: Seq<u8>,
    rest: Seq<u8>,
)
    requires
        delivery.offset <= MAX_VARINT,
        data.len() <= MAX_VARINT,
    ensures
        ({
            let after = draft.with_crypto(delivery, data);
            &&& after.frames.take(draft.frames.len() as int) == draft.frames
            &&& after.crypto == Some(delivery)
            &&& after.ack_eliciting
            &&& parse_frame(
                after.frames.skip(draft.frames.len() as int) + rest,
            ) matches Ok((frame, len)) && len == after.frames.len() - draft.frames.len() && (
            frame matches Frame::Crypto { offset, data: read } && offset@ == delivery.offset
                && read == data)
        }),
{
    broadcast use {crate::varint::lemma_of_view, crate::varint::lemma_view_of};

    let frame = crypto_frame(delivery.offset, data);
    let after = draft.with_crypto(delivery, data);
    assert(after.frames.take(draft.frames.len() as int) =~= draft.frames);
    assert(after.frames.skip(draft.frames.len() as int) =~= frame_bytes(frame));
    law_frame_round_trip(frame, rest);
}

/// A control record that a packet carries is in its frames, and the packet is one that its
/// receiver acknowledges.
pub proof fn law_control_carried(draft: DraftModel, record: Control, cids: Seq<LocalCid>)
    requires
        draft.fits_control(record, cids),
    ensures
        ({
            let after = draft.with_control(record, cids);
            &&& after.frames == draft.frames + frame_bytes(record_frame(record, cids)->0)
            &&& after.frames.len() <= draft.limit
            &&& after.controls.last() == record && after.controls.drop_last() == draft.controls
            &&& after.ack_eliciting
            &&& after.streams == draft.streams && after.crypto == draft.crypto
        }),
{
    assert(draft.with_control(record, cids).controls.drop_last() =~= draft.controls);
}

/// The records that a packet takes are some of those that wait, of the kind that is asked
/// for: that the handshake is complete comes in front of the handshake bytes, and nothing
/// else does. A packet takes at most 32.
pub proof fn law_controls_of_a_kind(
    draft: DraftModel,
    records: Seq<Control>,
    cids: Seq<LocalCid>,
    leading: bool,
    at: int,
)
    requires
        0 <= at,
        draft.controls.len() <= 32,
    ensures
        ({
            let after = draft.with_controls(records, cids, leading, at);
            &&& draft.controls.len() <= after.controls.len() <= 32
            &&& after.controls.take(draft.controls.len() as int) == draft.controls
            &&& forall|i: int|
                draft.controls.len() <= i < after.controls.len() ==> records.contains(
                    #[trigger] after.controls[i],
                ) && (after.controls[i] is HandshakeDone) == leading
            &&& after.streams == draft.streams && after.crypto == draft.crypto
                && after.ack_included == draft.ack_included
        }),
    decreases records.len() - at,
{
    let after = draft.with_controls(records, cids, leading, at);
    if at >= records.len() || draft.controls.len() >= PACKET_CONTROL_CAPACITY {
        assert(after.controls.take(draft.controls.len() as int) =~= draft.controls);
    } else if leads(records[at]) != leading {
        law_controls_of_a_kind(draft, records, cids, leading, at + 1);
    } else if !draft.fits_control(records[at], cids) {
        assert(after.controls.take(draft.controls.len() as int) =~= draft.controls);
    } else {
        let one = draft.with_control(records[at], cids);
        law_controls_of_a_kind(one, records, cids, leading, at + 1);
        let taken = after.controls.take(one.controls.len() as int);
        assert(taken == one.controls);
        assert(after.controls.take(draft.controls.len() as int) =~= taken.take(
            draft.controls.len() as int,
        ));
        assert(one.controls.take(draft.controls.len() as int) =~= draft.controls);
        assert forall|i: int| draft.controls.len() <= i < after.controls.len() implies records.contains(
            #[trigger] after.controls[i],
        ) && (after.controls[i] is HandshakeDone) == leading by {
            if i == draft.controls.len() {
                assert(taken[i] == after.controls[i]);
                assert(after.controls[i] == records[at]);
            }
        }
    }
}

} // verus!
