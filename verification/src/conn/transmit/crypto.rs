//! The handshake bytes that a connection sends.
use vstd::prelude::*;

use crate::conn::transmit::draft::CryptoDelivery;
use crate::conn::transmit::room::{
    crypto_data_limit, crypto_room, law_crypto_room_fits, left,
};
use crate::varint::varint_len;

verus! {

/// Under which keys a packet is sent.
#[derive(Debug, Clone, Copy, PartialEq, Eq, Structural)]
pub enum Epoch {
    Initial,
    Handshake,
    Application,
}

/// What became of a piece of a handshake.
#[derive(Debug, Clone, Copy, PartialEq, Eq, Structural)]
pub enum Fate {
    InFlight,
    Lost,
    Acknowledged,
}

/// A piece of a handshake that was sent.
#[derive(Debug, Clone, Copy, PartialEq, Eq, Structural)]
pub struct CryptoRecord {
    pub offset: usize,
    pub len: usize,
    pub fate: Fate,
}

/// The handshake bytes of one epoch.
#[derive(Debug)]
pub struct CryptoStream {
    bytes: Vec<u8>,
    sent: usize,
    records: Vec<CryptoRecord>,
    capacity: usize,
}

/// The state of the handshake bytes of one epoch.
#[verifier::ext_equal]
pub struct CryptoModel {
    pub bytes: Seq<u8>,
    /// How many were sent at least once.
    pub sent: int,
    /// The pieces that were sent, one after the other.
    pub records: Seq<CryptoRecord>,
    /// How many pieces there can be.
    pub capacity: int,
}

/// Where the first piece with a fate is, or how many there are.
pub open spec fn first_with(records: Seq<CryptoRecord>, fate: Fate) -> int
    decreases records.len(),
{
    if records.len() == 0 || records[0].fate == fate {
        0
    } else {
        1 + first_with(records.subrange(1, records.len() as int), fate)
    }
}

/// The first record with a fate is there, if one is.
pub proof fn lemma_first_bound(records: Seq<CryptoRecord>, fate: Fate)
    ensures
        0 <= first_with(records, fate) <= records.len(),
    decreases records.len(),
{
    if records.len() > 0 {
        lemma_first_bound(records.subrange(1, records.len() as int), fate);
    }
}

proof fn lemma_first_with(records: Seq<CryptoRecord>, fate: Fate, at: int)
    requires
        0 <= at <= records.len(),
        forall|i: int| 0 <= i < at ==> (#[trigger] records[i]).fate != fate,
        at < records.len() ==> records[at].fate == fate,
    ensures
        first_with(records, fate) == at,
    decreases records.len(),
{
    if at > 0 {
        let rest = records.subrange(1, records.len() as int);
        assert(records[0].fate != fate);
        assert forall|i: int| 0 <= i < at - 1 implies (#[trigger] rest[i]).fate != fate by {
            assert(rest[i] == records[i + 1]);
        }
        lemma_first_with(rest, fate, at - 1);
    }
}

/// How many bytes the first pieces hold.
pub open spec fn extent(records: Seq<CryptoRecord>, count: int) -> int
    decreases count,
{
    if count <= 0 {
        0
    } else {
        extent(records, count - 1) + records[count - 1].len
    }
}

proof fn lemma_extent(a: Seq<CryptoRecord>, b: Seq<CryptoRecord>, count: int)
    requires
        count <= a.len(),
        count <= b.len(),
        forall|i: int| 0 <= i < count ==> (#[trigger] a[i]).len == b[i].len,
    ensures
        extent(a, count) == extent(b, count),
    decreases count,
{
    if count > 0 {
        lemma_extent(a, b, count - 1);
        assert(a[count - 1].len == b[count - 1].len);
    }
}

impl CryptoModel {
    /// The pieces follow on one another, and are all that was sent.
    pub open spec fn sound(self) -> bool {
        &&& 0 <= self.sent <= self.bytes.len() <= usize::MAX
        &&& self.sent == extent(self.records, self.records.len() as int)
        &&& forall|i: int|
            0 <= i < self.records.len() ==> (#[trigger] self.records[i]).offset == extent(
                self.records,
                i,
            )
        &&& forall|i: int|
            0 <= i < self.records.len() ==> (#[trigger] self.records[i]).offset
                + self.records[i].len <= self.sent
        &&& forall|i: int| 0 <= i < self.records.len() ==> (#[trigger] self.records[i]).len > 0
    }

    /// Which piece was lost and is next, if one was.
    pub open spec fn lost(self) -> Option<int> {
        let at = first_with(self.records, Fate::Lost);
        if at < self.records.len() {
            Some(at)
        } else {
            None
        }
    }

    /// Whether there is something to send.
    pub open spec fn has_sendable(self) -> bool {
        self.lost() is Some || self.sent < self.bytes.len()
    }

    /// The bytes of a piece.
    pub open spec fn data(self, offset: int, len: int) -> Seq<u8> {
        self.bytes.subrange(offset, offset + len)
    }

    /// A piece that was sent before, to be sent again.
    pub open spec fn again(self, at: int) -> CryptoDelivery {
        CryptoDelivery {
            offset: self.records[at].offset as u64,
            len: self.records[at].len,
            known: Some(at as usize),
        }
    }

    /// The piece to send next, given how many bytes fit a frame: one that was
    /// lost as a whole, or as much as fits of what was not sent.
    pub open spec fn selected(self, room: int) -> Option<CryptoDelivery> {
        match self.lost() {
            Some(at) => if crypto_room(self.records[at].offset as u64, room)
                >= self.records[at].len && self.records[at].len > 0 {
                Some(self.again(at))
            } else {
                None
            },
            None => {
                let most = crypto_room(self.sent as u64, room);
                let rest = self.bytes.len() - self.sent;
                let take = if most < rest {
                    most
                } else {
                    rest
                };
                if take > 0 {
                    Some(
                        CryptoDelivery {
                            offset: self.sent as u64,
                            len: take as usize,
                            known: None,
                        },
                    )
                } else {
                    None
                }
            },
        }
    }

    /// The piece to send once more to learn whether the peer is there, if it fits.
    pub open spec fn probe(self, room: int) -> Option<CryptoDelivery> {
        let at = first_with(self.records, Fate::InFlight);
        if at < self.records.len() && crypto_room(self.records[at].offset as u64, room)
            >= self.records[at].len {
            Some(self.again(at))
        } else {
            None
        }
    }

    /// Whether a piece can be noted as sent.
    pub open spec fn commits(self, delivery: CryptoDelivery) -> bool {
        match delivery.known {
            Some(at) => {
                &&& at < self.records.len()
                &&& self.records[at as int].offset == delivery.offset
                &&& self.records[at as int].len == delivery.len
            },
            None => {
                &&& delivery.len > 0
                &&& delivery.offset == self.sent
                &&& self.sent + delivery.len <= self.bytes.len()
                &&& self.records.len() < self.capacity
            },
        }
    }

    /// After a piece was sent.
    pub open spec fn committed(self, delivery: CryptoDelivery) -> CryptoModel {
        match delivery.known {
            Some(at) => self.with_fate(
                at as int,
                if self.records[at as int].fate == Fate::Acknowledged {
                    Fate::Acknowledged
                } else {
                    Fate::InFlight
                },
            ),
            None => CryptoModel {
                sent: self.sent + delivery.len,
                records: self.records.push(
                    CryptoRecord {
                        offset: self.sent as usize,
                        len: delivery.len,
                        fate: Fate::InFlight,
                    },
                ),
                ..self
            },
        }
    }

    /// After it was learned what became of a piece.
    pub open spec fn settled_as(self, at: int, fate: Fate) -> CryptoModel {
        if at < self.records.len() && self.records[at].fate != Fate::Acknowledged {
            self.with_fate(at, fate)
        } else {
            self
        }
    }

    pub open spec fn with_fate(self, at: int, fate: Fate) -> CryptoModel {
        CryptoModel {
            records: self.records.update(at, CryptoRecord { fate, ..self.records[at] }),
            ..self
        }
    }
}

impl View for CryptoStream {
    type V = CryptoModel;

    closed spec fn view(&self) -> CryptoModel {
        CryptoModel {
            bytes: self.bytes@,
            sent: self.sent as int,
            records: self.records@,
            capacity: self.capacity as int,
        }
    }
}

impl CryptoStream {
    pub open spec fn wf(&self) -> bool {
        self@.sound()
    }

    pub fn new(capacity: usize) -> (stream: CryptoStream)
        ensures
            stream.wf(),
            stream@ == (CryptoModel {
                bytes: Seq::empty(),
                sent: 0,
                records: Seq::empty(),
                capacity: capacity as int,
            }),
    {
        CryptoStream { bytes: Vec::new(), sent: 0, records: Vec::new(), capacity }
    }

    /// Queues more bytes.
    pub fn queue(&mut self, data: &[u8])
        requires
            old(self).wf(),
            old(self)@.bytes.len() + data@.len() <= usize::MAX,
        ensures
            final(self).wf(),
            final(self)@ == (CryptoModel { bytes: old(self)@.bytes + data@, ..old(self)@ }),
    {
        crate::frame::put_bytes(&mut self.bytes, data);
    }

    fn find(&self, fate: Fate) -> (at: usize)
        ensures
            at == first_with(self@.records, fate),
            at <= self@.records.len(),
            at < self@.records.len() ==> self@.records[at as int].fate == fate,
    {
        let mut at: usize = 0;
        while at < self.records.len() && self.records[at].fate != fate
            invariant
                at <= self.records@.len(),
                forall|i: int| 0 <= i < at ==> (#[trigger] self.records@[i]).fate != fate,
            decreases self.records@.len() - at,
        {
            at = at + 1;
        }
        proof {
            lemma_first_with(self.records@, fate, at as int);
        }
        at
    }

    /// Whether there is something to send.
    pub fn has_sendable(&self) -> (sendable: bool)
        ensures
            sendable == self@.has_sendable(),
    {
        self.find(Fate::Lost) < self.records.len() || self.sent < self.bytes.len()
    }

    /// Whether so many more pieces can be sent.
    pub fn has_room(&self, count: usize) -> (room: bool)
        ensures
            room == (self@.records.len() + count <= self@.capacity),
    {
        self.records.len() <= self.capacity && count <= self.capacity - self.records.len()
    }

    /// The bytes of a piece.
    pub fn data(&self, delivery: &CryptoDelivery) -> (data: &[u8])
        requires
            delivery.offset + delivery.len <= self@.bytes.len(),
        ensures
            data@ == self@.data(delivery.offset as int, delivery.len as int),
    {
        let size: usize = self.bytes.len();
        let from: usize = delivery.offset as usize;
        vstd::slice::slice_subrange(self.bytes.as_slice(), from, from + delivery.len)
    }

    /// Chooses what to send next.
    pub fn peek_crypto_chunk(&self, frame_room: usize) -> (selected: Option<CryptoDelivery>)
        requires
            self.wf(),
        ensures
            selected == self@.selected(frame_room as int),
            selected matches Some(delivery) ==> delivery.offset + delivery.len
                <= self@.bytes.len(),
    {
        let at: usize = self.find(Fate::Lost);
        if at < self.records.len() {
            let record = self.records[at];
            if record.len > 0 && crypto_data_limit(record.offset as u64, frame_room)
                >= record.len {
                assert(self@.records[at as int].offset + self@.records[at as int].len
                    <= self@.sent);
                Some(
                    CryptoDelivery {
                        offset: record.offset as u64,
                        len: record.len,
                        known: Some(at),
                    },
                )
            } else {
                None
            }
        } else {
            let most: usize = crypto_data_limit(self.sent as u64, frame_room);
            let rest: usize = self.bytes.len() - self.sent;
            let take: usize = if most < rest {
                most
            } else {
                rest
            };
            if take > 0 {
                Some(CryptoDelivery { offset: self.sent as u64, len: take, known: None })
            } else {
                None
            }
        }
    }

    /// Chooses what to send once more to learn whether the peer is there.
    pub fn crypto_probe(&self, frame_room: usize) -> (selected: Option<CryptoDelivery>)
        requires
            self.wf(),
        ensures
            selected == self@.probe(frame_room as int),
            selected matches Some(delivery) ==> delivery.offset + delivery.len
                <= self@.bytes.len(),
    {
        let at: usize = self.find(Fate::InFlight);
        if at >= self.records.len() {
            return None;
        }
        let record = self.records[at];
        if crypto_data_limit(record.offset as u64, frame_room) >= record.len {
            assert(self@.records[at as int].offset + self@.records[at as int].len <= self@.sent);
            Some(
                CryptoDelivery {
                    offset: record.offset as u64,
                    len: record.len,
                    known: Some(at),
                },
            )
        } else {
            None
        }
    }

    /// Notes that a piece was sent. Gives the number of its record.
    pub fn commit(&mut self, delivery: CryptoDelivery) -> (result: Option<usize>)
        requires
            old(self).wf(),
        ensures
            final(self).wf(),
            result is Some == old(self)@.commits(delivery),
            final(self)@ == if result is Some {
                old(self)@.committed(delivery)
            } else {
                old(self)@
            },
            result matches Some(at) ==> at == match delivery.known {
                Some(at) => at as int,
                None => old(self)@.records.len() as int,
            },
    {
        let ghost m = self@;
        match delivery.known {
            Some(at) => {
                if at >= self.records.len() {
                    return None;
                }
                let mut record = self.records[at];
                if record.offset as u64 != delivery.offset || record.len != delivery.len {
                    return None;
                }
                if record.fate != Fate::Acknowledged {
                    record.fate = Fate::InFlight;
                }
                self.records.set(at, record);
                proof {
                    self.lemma_same(m);
                }
                Some(at)
            },
            None => {
                if delivery.len == 0 || delivery.offset != self.sent as u64 || delivery.len > self.bytes.len()
                    - self.sent || self.records.len() >= self.capacity {
                    return None;
                }
                let at: usize = self.records.len();
                self.records.push(
                    CryptoRecord { offset: self.sent, len: delivery.len, fate: Fate::InFlight },
                );
                self.sent = self.sent + delivery.len;
                proof {
                    let count = m.records.len() as int;
                    lemma_extent(self@.records, m.records, count);
                    assert forall|i: int| 0 <= i < self@.records.len() implies (
                    #[trigger] self@.records[i]).offset == extent(self@.records, i) by {
                        lemma_extent(self@.records, m.records, i);
                        if i < count {
                            assert(self@.records[i] == m.records[i]);
                        }
                    }
                    assert forall|i: int| 0 <= i < self@.records.len() implies (
                    #[trigger] self@.records[i]).offset + self@.records[i].len <= self@.sent by {
                        if i < count {
                            assert(self@.records[i] == m.records[i]);
                        }
                    }
                }
                Some(at)
            },
        }
    }

    /// Only what became of pieces changed.
    proof fn lemma_same(&self, m: CryptoModel)
        requires
            m.sound(),
            self@.bytes == m.bytes,
            self@.sent == m.sent,
            self@.records.len() == m.records.len(),
            forall|i: int|
                0 <= i < m.records.len() ==> (#[trigger] self@.records[i]).offset
                    == m.records[i].offset && self@.records[i].len == m.records[i].len,
        ensures
            self.wf(),
    {
        lemma_extent(self@.records, m.records, m.records.len() as int);
        assert forall|i: int| 0 <= i < self@.records.len() implies (
        #[trigger] self@.records[i]).offset == extent(self@.records, i) && self@.records[i].offset
            + self@.records[i].len <= self@.sent by {
            lemma_extent(self@.records, m.records, i);
            let known = m.records[i];
        }
    }

    /// Notes what became of a piece. What was acknowledged stays so.
    pub fn settle(&mut self, at: usize, fate: Fate)
        requires
            old(self).wf(),
        ensures
            final(self).wf(),
            final(self)@ == old(self)@.settled_as(at as int, fate),
    {
        let ghost m = self@;
        if at < self.records.len() && self.records[at].fate != Fate::Acknowledged {
            let mut record = self.records[at];
            record.fate = fate;
            self.records.set(at, record);
            proof {
                self.lemma_same(m);
            }
        }
    }
}

/// Where a piece with a fate is looked for, the first is found.
pub proof fn law_first_found(records: Seq<CryptoRecord>, fate: Fate)
    ensures
        ({
            let at = first_with(records, fate);
            &&& 0 <= at <= records.len()
            &&& forall|i: int| 0 <= i < at ==> (#[trigger] records[i]).fate != fate
            &&& at < records.len() ==> records[at].fate == fate
        }),
    decreases records.len(),
{
    if records.len() > 0 && records[0].fate != fate {
        let rest = records.subrange(1, records.len() as int);
        law_first_found(rest, fate);
        let at = first_with(records, fate);
        assert forall|i: int| 0 <= i < at implies (#[trigger] records[i]).fate != fate by {
            if i > 0 {
                assert(rest[i - 1] == records[i]);
            }
        }
        if at < records.len() {
            assert(rest[at - 1] == records[at]);
        }
    }
}

/// What is sent of a handshake is first what was lost, from the front, each piece as it was;
/// then what was not sent, in order, as much as fits. All that is sent fits its frame.
pub proof fn law_handshake_in_order(m: CryptoModel, room: int)
    requires
        m.sound(),
        m.records.len() <= usize::MAX,
        0 <= room <= usize::MAX,
    ensures
        ({
            let lost = exists|i: int|
                0 <= i < m.records.len() && (#[trigger] m.records[i]).fate == Fate::Lost;
            match m.selected(room) {
                Some(d) => {
                    &&& d.len > 0
                    &&& d.offset + d.len <= m.bytes.len()
                    &&& 1 + varint_len(d.offset) + varint_len(d.len as u64) + d.len <= room
                    &&& m.data(d.offset as int, d.len as int).len() == d.len
                    &&& d.known matches Some(at) ==> {
                        &&& lost && at < m.records.len()
                        &&& m.records[at as int].fate == Fate::Lost
                        &&& m.records[at as int].offset == d.offset && m.records[at as int].len
                            == d.len
                        &&& forall|i: int|
                            0 <= i < at ==> (#[trigger] m.records[i]).fate != Fate::Lost
                    }
                    &&& d.known is None ==> !lost && d.offset == m.sent && d.offset + d.len
                        <= m.bytes.len()
                },
                None => true,
            }
        }),
        m.has_sendable() == ((exists|i: int|
            0 <= i < m.records.len() && (#[trigger] m.records[i]).fate == Fate::Lost) || m.sent
            < m.bytes.len()),
{
    law_first_found(m.records, Fate::Lost);
    let at = first_with(m.records, Fate::Lost);
    if at < m.records.len() {
        assert(m.records[at].fate == Fate::Lost);
        assert(m.records[at].offset + m.records[at].len <= m.sent);
        law_crypto_room_fits(m.records[at].offset as u64, room);
        if crypto_room(m.records[at].offset as u64, room) >= m.records[at].len {
            lemma_smaller_fits(m.records[at].offset as u64, room, m.records[at].len as int);
        }
    } else {
        law_crypto_room_fits(m.sent as u64, room);
        let most = crypto_room(m.sent as u64, room);
        let rest = m.bytes.len() - m.sent;
        let take = if most < rest {
            most
        } else {
            rest
        };
        if take > 0 {
            lemma_smaller_fits(m.sent as u64, room, take);
        }
    }
}

/// Fewer bytes fit where more do.
proof fn lemma_smaller_fits(offset: u64, room: int, len: int)
    requires
        0 < len <= crypto_room(offset, room),
        0 <= room <= u64::MAX,
    ensures
        1 + varint_len(offset) + varint_len(len as u64) + len <= room,
{
    law_crypto_room_fits(offset, room);
    let most = crypto_room(offset, room);
    crate::conn::transmit::room::law_settled_fits(
        room - 1 - varint_len(offset),
        0,
        left(room, 2 + varint_len(offset)),
    );
    assert(varint_len(len as u64) <= varint_len(most as u64));
}

/// What was sent goes on record where it follows what was sent before; what was sent again is
/// in flight again. What was acknowledged stays so, whatever is learned later.
pub proof fn law_handshake_recorded(
    m: CryptoModel,
    delivery: CryptoDelivery,
    at: int,
    fate: Fate,
    later: Fate,
)
    requires
        m.sound(),
        m.commits(delivery),
        0 <= at < m.records.len(),
    ensures
        ({
            let after = m.committed(delivery);
            &&& after.bytes == m.bytes
            &&& delivery.known is None ==> {
                &&& delivery.offset == m.sent
                &&& after.sent == m.sent + delivery.len
                &&& after.records.len() == m.records.len() + 1
                &&& after.records.last().offset == delivery.offset
                &&& after.records.last().len == delivery.len
                &&& after.records.last().fate == Fate::InFlight
                &&& after.records.drop_last() == m.records
            }
            &&& delivery.known matches Some(known) ==> {
                &&& after.sent == m.sent
                &&& after.records[known as int].fate != Fate::Lost
                &&& m.records[known as int].fate == Fate::Lost ==> after.records[known as int].fate
                    == Fate::InFlight
                &&& forall|i: int|
                    0 <= i < m.records.len() && i != known ==> #[trigger] after.records[i]
                        == m.records[i]
            }
            &&& m.records[at].fate == Fate::Acknowledged ==> after.records[at].fate
                == Fate::Acknowledged && m.settled_as(at, fate) == m
            &&& m.records[at].fate != Fate::Acknowledged ==> m.settled_as(at, fate).records[at].fate
                == fate
            &&& m.settled_as(at, Fate::Acknowledged).settled_as(at, later).records[at].fate
                == Fate::Acknowledged
            &&& m.settled_as(at, fate).sent == m.sent && m.settled_as(at, fate).bytes == m.bytes
        }),
{
    let after = m.committed(delivery);
    if delivery.known is None {
        assert(after.records.drop_last() =~= m.records);
    }
}

} // verus!
