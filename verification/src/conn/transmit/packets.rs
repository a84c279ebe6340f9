//! The packets that were sent and not settled.
use vstd::prelude::*;

use crate::clock::Instant;
use crate::conn::control::{about, Control};
use crate::conn::stream_journal::model::Handle;
use crate::conn::transmit::crypto::Epoch;
use crate::conn::transmit::draft::{Draft, DraftModel, PACKET_CONTROL_CAPACITY};
use crate::conn::transmit::path::{LocalCid, Path};

verus! {

/// What is noted of a packet.
#[derive(Debug, Clone, Copy, PartialEq, Eq, Structural)]
pub struct PacketMeta {
    pub epoch: Epoch,
    pub pn: u64,
    pub sent_time: Instant,
    pub bytes: usize,
    pub early_data: bool,
    pub ack_eliciting: bool,
    pub in_flight: bool,
    /// The number of the record of the handshake bytes that it carries.
    pub crypto: Option<usize>,
}

/// A packet that was sent.
pub struct PacketRecord {
    pub meta: PacketMeta,
    pub controls: Vec<Control>,
    pub streams: Vec<Handle>,
}

/// A packet that was sent, over sequences.
#[verifier::ext_equal]
pub struct PacketModel {
    pub meta: PacketMeta,
    pub controls: Seq<Control>,
    pub streams: Seq<Handle>,
}

impl View for PacketRecord {
    type V = PacketModel;

    open spec fn view(&self) -> PacketModel {
        PacketModel { meta: self.meta, controls: self.controls@, streams: self.streams@ }
    }
}

/// The packets that were sent and not settled.
pub struct Packets {
    records: Vec<PacketRecord>,
    capacity: usize,
    control_room: usize,
    stream_room: usize,
}

/// The state of the packets that were sent and not settled.
#[verifier::ext_equal]
pub struct PacketsModel {
    pub packets: Seq<PacketModel>,
    /// How many there can be.
    pub capacity: int,
    /// How many more control records they can carry.
    pub control_room: int,
    /// How many more pieces of streams they can carry.
    pub stream_room: int,
}

/// The control records that packets of an epoch carry, the oldest first.
pub open spec fn sent_controls(packets: Seq<PacketModel>, epoch: Epoch) -> Seq<Control>
    decreases packets.len(),
{
    if packets.len() == 0 {
        Seq::empty()
    } else {
        let rest = sent_controls(packets.drop_last(), epoch);
        if packets.last().meta.epoch == epoch {
            rest + packets.last().controls
        } else {
            rest
        }
    }
}

impl PacketsModel {
    pub open spec fn has_room(self, count: int) -> bool {
        self.packets.len() + count <= self.capacity
    }

    pub open spec fn has_carrier_room(self, controls: int, streams: int) -> bool {
        controls <= self.control_room && streams <= self.stream_room
    }

    pub open spec fn inserted(self, meta: PacketMeta) -> PacketsModel {
        PacketsModel {
            packets: self.packets.push(
                PacketModel { meta, controls: Seq::empty(), streams: Seq::empty() },
            ),
            ..self
        }
    }

    /// After the last packet was noted to carry one more piece of a stream.
    pub open spec fn with_stream(self, handle: Handle) -> PacketsModel {
        let last = self.packets.last();
        PacketsModel {
            packets: self.packets.drop_last().push(
                PacketModel { streams: last.streams.push(handle), ..last },
            ),
            stream_room: self.stream_room - 1,
            ..self
        }
    }

    /// After the last packet was noted to carry one more control record.
    pub open spec fn with_control(self, record: Control) -> PacketsModel {
        let last = self.packets.last();
        PacketsModel {
            packets: self.packets.drop_last().push(
                PacketModel { controls: last.controls.push(record), ..last },
            ),
            control_room: self.control_room - 1,
            ..self
        }
    }
}

/// The packets as a sequence.
pub open spec fn packets_of(records: Seq<PacketRecord>) -> Seq<PacketModel> {
    records.map_values(|record: PacketRecord| record@)
}

impl View for Packets {
    type V = PacketsModel;

    closed spec fn view(&self) -> PacketsModel {
        PacketsModel {
            packets: packets_of(self.records@),
            capacity: self.capacity as int,
            control_room: self.control_room as int,
            stream_room: self.stream_room as int,
        }
    }
}

impl Packets {
    pub fn new(capacity: usize, control_capacity: usize, stream_capacity: usize) -> (packets:
        Packets)
        ensures
            packets@ == (PacketsModel {
                packets: Seq::empty(),
                capacity: capacity as int,
                control_room: control_capacity as int,
                stream_room: stream_capacity as int,
            }),
    {
        Packets {
            records: Vec::new(),
            capacity,
            control_room: control_capacity,
            stream_room: stream_capacity,
        }
    }

    /// Whether so many more packets can be noted.
    pub fn has_room_for(&self, count: usize) -> (room: bool)
        ensures
            room == self@.has_room(count as int),
    {
        self.records.len() <= self.capacity && count <= self.capacity - self.records.len()
    }

    /// Whether packets can carry so much more.
    pub fn has_carrier_room(&self, controls: usize, streams: usize) -> (room: bool)
        ensures
            room == self@.has_carrier_room(controls as int, streams as int),
    {
        controls <= self.control_room && streams <= self.stream_room
    }

    /// Notes a packet, if there is room.
    pub fn insert(&mut self, meta: PacketMeta) -> (noted: bool)
        ensures
            noted == old(self)@.has_room(1),
            final(self)@ == if noted {
                old(self)@.inserted(meta)
            } else {
                old(self)@
            },
    {
        if !self.has_room_for(1) {
            return false;
        }
        self.records.push(PacketRecord { meta, controls: Vec::new(), streams: Vec::new() });
        assert(packets_of(self.records@) =~= old(self)@.inserted(meta).packets);
        true
    }

    /// Notes that the last packet carries one more piece of a stream.
    pub fn push_stream(&mut self, handle: Handle) -> (noted: bool)
        ensures
            noted == (old(self)@.packets.len() > 0 && old(self)@.stream_room > 0),
            final(self)@ == if noted {
                old(self)@.with_stream(handle)
            } else {
                old(self)@
            },
    {
        assert(self@.packets.len() == self.records@.len());
        if self.stream_room == 0 || self.records.len() == 0 {
            return false;
        }
        match self.records.pop() {
            Some(mut record) => {
                record.streams.push(handle);
                self.records.push(record);
                self.stream_room = self.stream_room - 1;
                assert(packets_of(self.records@) =~= old(self)@.with_stream(handle).packets);
                true
            },
            None => false,
        }
    }

    /// Notes that the last packet carries one more control record.
    pub fn push_control(&mut self, control: Control) -> (noted: bool)
        ensures
            noted == (old(self)@.packets.len() > 0 && old(self)@.control_room > 0),
            final(self)@ == if noted {
                old(self)@.with_control(control)
            } else {
                old(self)@
            },
    {
        assert(self@.packets.len() == self.records@.len());
        if self.control_room == 0 || self.records.len() == 0 {
            return false;
        }
        match self.records.pop() {
            Some(mut record) => {
                record.controls.push(control);
                self.records.push(record);
                self.control_room = self.control_room - 1;
                assert(packets_of(self.records@) =~= old(self)@.with_control(control).packets);
                true
            },
            None => false,
        }
    }

    /// The control records that packets of an epoch carry, the oldest first.
    pub fn sent_controls(&self, epoch: Epoch) -> (controls: Vec<Control>)
        ensures
            controls@ == sent_controls(self@.packets, epoch),
    {
        let mut controls: Vec<Control> = Vec::new();
        let mut i: usize = 0;
        assert(packets_of(self.records@).take(0) =~= Seq::empty());
        while i < self.records.len()
            invariant
                i <= self.records@.len(),
                controls@ == sent_controls(packets_of(self.records@).take(i as int), epoch),
            decreases self.records@.len() - i,
        {
            let ghost all = packets_of(self.records@);
            assert(all.take(i + 1).drop_last() =~= all.take(i as int));
            assert(all.take(i + 1).last() == self.records@[i as int]@);
            if self.records[i].meta.epoch == epoch {
                let ghost before = controls@;
                controls.extend_from_slice(self.records[i].controls.as_slice());
                assert(controls@ =~= before + self.records@[i as int].controls@);
            }
            i = i + 1;
        }
        assert(packets_of(self.records@).take(i as int) =~= packets_of(self.records@));
        controls
    }
}

/// Whether a record is about the same as one of others.
pub open spec fn covered_by(records: Seq<Control>, record: Control) -> bool {
    exists|i: int| 0 <= i < records.len() && about(#[trigger] records[i]) == about(record)
}

impl DraftModel {
    /// The draft with records that are in flight, from a place on, each once,
    /// until one does not fit.
    pub open spec fn with_control_probes(
        self,
        records: Seq<Control>,
        cids: Seq<LocalCid>,
        at: int,
    ) -> DraftModel
        decreases records.len() - at,
    {
        if at >= records.len() || self.controls.len() >= PACKET_CONTROL_CAPACITY {
            self
        } else if covered_by(self.controls, records[at]) {
            self.with_control_probes(records, cids, at + 1)
        } else if !self.fits_control(records[at], cids) {
            self
        } else {
            self.with_control(records[at], cids).with_control_probes(records, cids, at + 1)
        }
    }
}

/// Whether a record is about the same as one of others.
pub(crate) fn covers(records: &Vec<Control>, record: &Control) -> (covered: bool)
    ensures
        covered == covered_by(records@, *record),
{
    let subject = record.subject();
    let mut i: usize = 0;
    while i < records.len()
        invariant
            i <= records@.len(),
            subject == about(*record),
            forall|j: int| 0 <= j < i ==> about(#[trigger] records@[j]) != subject,
        decreases records@.len() - i,
    {
        if records[i].subject() == subject {
            assert(about(records@[i as int]) == about(*record));
            return true;
        }
        i = i + 1;
    }
    false
}

impl Draft {
    /// Adds records that are in flight once more, until one does not fit.
    pub fn append_control_probes(&mut self, records: &Vec<Control>, path: &Path)
        ensures
            final(self)@ == old(self)@.with_control_probes(records@, path.local_cids@, 0),
    {
        let count: usize = records.len();
        let mut at: usize = 0;
        while at < count && self.controls.len() < PACKET_CONTROL_CAPACITY
            invariant
                at <= count,
                count == records@.len(),
                self@.with_control_probes(records@, path.local_cids@, at as int) == old(
                    self,
                )@.with_control_probes(records@, path.local_cids@, 0),
            ensures
                self@ == old(self)@.with_control_probes(records@, path.local_cids@, 0),
            decreases count - at,
        {
            let record = records[at];
            if !covers(&self.controls, &record) {
                if !self.append_control(record, path) {
                    break;
                }
            }
            at = at + 1;
        }
    }
}

/// What packets of an epoch carry is what each of them does, one after the other; packets of
/// other epochs do not count.
pub proof fn law_carried_one_after_the_other(
    first: Seq<PacketModel>,
    second: Seq<PacketModel>,
    packet: PacketModel,
    epoch: Epoch,
)
    ensures
        sent_controls(first + second, epoch) == sent_controls(first, epoch) + sent_controls(
            second,
            epoch,
        ),
        sent_controls(seq![packet], epoch) == if packet.meta.epoch == epoch {
            packet.controls
        } else {
            Seq::empty()
        },
    decreases second.len(),
{
    let all = first + second;
    reveal_with_fuel(sent_controls, 2);
    assert(seq![packet].drop_last() =~= Seq::empty());
    assert(Seq::<Control>::empty() + packet.controls =~= packet.controls);
    if second.len() == 0 {
        assert(all =~= first);
    } else {
        assert(all.drop_last() =~= first + second.drop_last());
        law_carried_one_after_the_other(first, second.drop_last(), packet, epoch);
        assert(sent_controls(all, epoch) =~= sent_controls(first, epoch) + sent_controls(
            second,
            epoch,
        ));
    }
}

/// What a packet is noted to carry is added to the last packet, and takes one from the room
/// for it; the other packets stay as they are.
pub proof fn law_carriers_counted(m: PacketsModel, meta: PacketMeta, handle: Handle, record: Control)
    ensures
        ({
            let one = m.inserted(meta);
            let streams = one.with_stream(handle);
            let controls = streams.with_control(record);
            &&& one.packets.len() == m.packets.len() + 1
            &&& controls.packets.last().meta == meta
            &&& controls.packets.last().streams == seq![handle]
            &&& controls.packets.last().controls == seq![record]
            &&& controls.packets.drop_last() == m.packets
            &&& controls.stream_room == m.stream_room - 1
            &&& controls.control_room == m.control_room - 1
            &&& controls.capacity == m.capacity
            &&& one.has_room(0) == m.has_room(1)
        }),
{
    let one = m.inserted(meta);
    let streams = one.with_stream(handle);
    let controls = streams.with_control(record);
    assert(controls.packets.drop_last() =~= m.packets);
    assert(controls.packets.last().streams =~= seq![handle]);
    assert(controls.packets.last().controls =~= seq![record]);
}

} // verus!
