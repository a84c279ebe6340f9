//! What waits to go out.
use vstd::prelude::*;

use crate::mux::MAX_OUTGOING_CAPACITY;
use crate::secrets::PeerAddress;
use o3::collections::queue::fixed::Fifo;

verus! {

/// What goes out at a time, and where to.
#[derive(Debug)]
pub enum Outgoing {
    /// One packet.
    Plain(PeerAddress, Vec<u8>),
    /// One packet, behind so many other bytes.
    Suffix(PeerAddress, Vec<u8>, usize),
    /// Packets of one length, but for the last, which may be shorter.
    Batch(PeerAddress, Vec<u8>, u16),
}

impl Outgoing {
    /// A suffix begins in its bytes, and a batch has packets, which have a length.
    pub open spec fn wf(self) -> bool {
        match self {
            Outgoing::Plain(_, _) => true,
            Outgoing::Suffix(_, storage, start) => start <= storage@.len(),
            Outgoing::Batch(_, payload, segment) => segment > 0 && payload@.len() > 0,
        }
    }

    /// Where it goes.
    pub open spec fn to(self) -> PeerAddress {
        match self {
            Outgoing::Plain(addr, _) => addr,
            Outgoing::Suffix(addr, _, _) => addr,
            Outgoing::Batch(addr, _, _) => addr,
        }
    }

    /// The bytes that go out.
    pub open spec fn content(self) -> Seq<u8> {
        match self {
            Outgoing::Plain(_, payload) => payload@,
            Outgoing::Suffix(_, storage, start) => storage@.subrange(
                start as int,
                storage@.len() as int,
            ),
            Outgoing::Batch(_, payload, _) => payload@,
        }
    }

    /// How many packets go out.
    pub open spec fn count(self) -> int {
        match self {
            Outgoing::Plain(_, _) => 1,
            Outgoing::Suffix(_, _, _) => 1,
            Outgoing::Batch(_, payload, segment) => (payload@.len() + segment - 1) / segment as int,
        }
    }

    pub fn addr(&self) -> (addr: PeerAddress)
        ensures
            addr == self.to(),
    {
        match self {
            Outgoing::Plain(addr, _) => *addr,
            Outgoing::Suffix(addr, _, _) => *addr,
            Outgoing::Batch(addr, _, _) => *addr,
        }
    }

    /// The bytes of the packets, to be changed in place.
    pub fn payload_mut(&mut self) -> (payload: &mut [u8])
        requires
            old(self).wf(),
        ensures
            payload@ == old(self).content(),
            final(self).to() == old(self).to(),
            final(payload)@.len() == payload@.len() ==> {
                &&& final(self).wf()
                &&& final(self).content() == final(payload)@
                &&& final(self).count() == old(self).count()
            },
    {
        match self {
            Outgoing::Plain(_, payload) => payload.as_mut_slice(),
            Outgoing::Suffix(_, storage, start) => {
                let (_, tail) = storage.as_mut_slice().split_at_mut(*start);
                tail
            },
            Outgoing::Batch(_, payload, _) => payload.as_mut_slice(),
        }
    }

    pub fn payload(&self) -> (payload: &[u8])
        requires
            self.wf(),
        ensures
            payload@ == self.content(),
    {
        match self {
            Outgoing::Plain(_, payload) => payload.as_slice(),
            Outgoing::Suffix(_, storage, start) => vstd::slice::slice_subrange(
                storage.as_slice(),
                *start,
                storage.len(),
            ),
            Outgoing::Batch(_, payload, _) => payload.as_slice(),
        }
    }

    pub fn packets(&self) -> (packets: usize)
        requires
            self.wf(),
        ensures
            packets == self.count(),
    {
        match self {
            Outgoing::Plain(_, _) => 1,
            Outgoing::Suffix(_, _, _) => 1,
            Outgoing::Batch(_, payload, segment) => {
                let segment: usize = *segment as usize;
                let whole: usize = payload.len() / segment;
                let rest: usize = payload.len() % segment;
                proof {
                    lemma_ceiling(payload@.len() as int, segment as int);
                }
                if rest == 0 {
                    whole
                } else {
                    whole + 1
                }
            },
        }
    }

    pub fn bytes(&self) -> (bytes: usize)
        requires
            self.wf(),
        ensures
            bytes == self.content().len(),
    {
        self.payload().len()
    }

    /// The bytes that hold it.
    pub fn into_storage(self) -> (storage: Vec<u8>)
        ensures
            storage == match self {
                Outgoing::Plain(_, payload) => payload,
                Outgoing::Suffix(_, storage, _) => storage,
                Outgoing::Batch(_, payload, _) => payload,
            },
    {
        match self {
            Outgoing::Plain(_, payload) => payload,
            Outgoing::Suffix(_, storage, _) => storage,
            Outgoing::Batch(_, payload, _) => payload,
        }
    }
}

/// A quotient that is rounded up is the whole one, or one more.
proof fn lemma_ceiling(n: int, d: int)
    requires
        n >= 0,
        d > 0,
    ensures
        (n + d - 1) / d == if n % d == 0 {
            n / d
        } else {
            n / d + 1
        },
        n % d != 0 ==> n / d < n,
{
    let q = n / d;
    let r = n % d;
    vstd::arithmetic::div_mod::lemma_fundamental_div_mod(n, d);
    vstd::arithmetic::div_mod::lemma_mod_bound(n, d);
    if r == 0 {
        assert(n + d - 1 == q * d + (d - 1)) by (nonlinear_arith)
            requires
                n == d * q + r,
                r == 0,
        ;
        vstd::arithmetic::div_mod::lemma_fundamental_div_mod_converse(n + d - 1, d, q, d - 1);
    } else {
        assert(n + d - 1 == (q + 1) * d + (r - 1)) by (nonlinear_arith)
            requires
                n == d * q + r,
        ;
        vstd::arithmetic::div_mod::lemma_fundamental_div_mod_converse(n + d - 1, d, q + 1, r - 1);
        assert(q < n) by (nonlinear_arith)
            requires
                n == d * q + r,
                d >= 1,
                r > 0,
                n >= 0,
                r < d,
        ;
    }
}

/// The queue of fixed size of `o3`.
#[verifier::external_type_specification]
#[verifier::external_body]
#[verifier::reject_recursive_types(T)]
pub struct ExFifo<T>(Fifo<T>);

/// What a queue holds, the oldest first.
pub uninterp spec fn queued(queue: Fifo<Outgoing>) -> Seq<Outgoing>;

/// How much a queue can hold.
pub uninterp spec fn queue_size(queue: Fifo<Outgoing>) -> nat;

/// Calls `o3::collections::queue::fixed::Fifo::with_capacity`: a queue that is
/// empty and can hold so much. It aborts where there is no memory for that.
#[verifier::external_body]
fn fifo_with_capacity(capacity: usize) -> (made: Fifo<Outgoing>)
    requires
        capacity <= MAX_OUTGOING_CAPACITY,
    ensures
        queued(made).len() == 0,
        queue_size(made) == capacity,
{
    Fifo::with_capacity(capacity)
}

/// Calls `o3::collections::queue::fixed::Fifo::capacity`: how much the queue can
/// hold.
#[verifier::external_body]
fn fifo_capacity(queue: &Fifo<Outgoing>) -> (capacity: usize)
    ensures
        capacity == queue_size(*queue),
{
    queue.capacity()
}

/// Calls `o3::collections::queue::fixed::Fifo::is_empty`: whether the queue holds
/// nothing.
#[verifier::external_body]
fn fifo_is_empty(queue: &Fifo<Outgoing>) -> (empty: bool)
    ensures
        empty == (queued(*queue).len() == 0),
{
    queue.is_empty()
}

/// Calls `o3::collections::queue::fixed::Fifo::push_back`: puts an item in behind
/// all others, or gives it back where the queue is full.
#[verifier::external_body]
fn fifo_push_back(queue: &mut Fifo<Outgoing>, item: Outgoing) -> (result: Result<(), Outgoing>)
    ensures
        queue_size(*final(queue)) == queue_size(*old(queue)),
        match result {
            Ok(_) => queued(*old(queue)).len() != queue_size(*old(queue)) && queued(*final(queue))
                == queued(*old(queue)).push(item),
            Err(back) => queued(*old(queue)).len() == queue_size(*old(queue)) && queued(
                *final(queue),
            ) == queued(*old(queue)) && back == item,
        },
{
    queue.push_back(item)
}

/// Calls `o3::collections::queue::fixed::Fifo::push_front`: puts an item in before
/// all others, or gives it back where the queue is full.
#[verifier::external_body]
fn fifo_push_front(queue: &mut Fifo<Outgoing>, item: Outgoing) -> (result: Result<(), Outgoing>)
    ensures
        queue_size(*final(queue)) == queue_size(*old(queue)),
        match result {
            Ok(_) => queued(*old(queue)).len() != queue_size(*old(queue)) && queued(*final(queue))
                == seq![item] + queued(*old(queue)),
            Err(back) => queued(*old(queue)).len() == queue_size(*old(queue)) && queued(
                *final(queue),
            ) == queued(*old(queue)) && back == item,
        },
{
    queue.push_front(item)
}

/// Calls `o3::collections::queue::fixed::Fifo::pop_front`: takes the oldest item
/// out, if there is one.
#[verifier::external_body]
fn fifo_pop_front(queue: &mut Fifo<Outgoing>) -> (item: Option<Outgoing>)
    ensures
        queue_size(*final(queue)) == queue_size(*old(queue)),
        match item {
            Some(item) => queued(*old(queue)).len() > 0 && item == queued(*old(queue))[0] && queued(
                *final(queue),
            ) == queued(*old(queue)).subrange(1, queued(*old(queue)).len() as int),
            None => queued(*old(queue)).len() == 0 && queued(*final(queue)) == queued(*old(queue)),
        },
{
    queue.pop_front()
}

/// Calls `Vec::try_reserve_exact`: asks for room for so many more bytes. Whether
/// there is rests on the machine; the content stays.
#[verifier::external_body]
pub(crate) fn reserve(buffer: &mut Vec<u8>, additional: usize) -> (done: bool)
    ensures
        final(buffer)@ == old(buffer)@,
{
    buffer.try_reserve_exact(additional).is_ok()
}

/// How many packets wait.
pub open spec fn packets_in(items: Seq<Outgoing>) -> int
    decreases items.len(),
{
    if items.len() == 0 {
        0
    } else {
        packets_in(items.drop_last()) + items.last().count()
    }
}

/// How many bytes wait.
pub open spec fn bytes_in(items: Seq<Outgoing>) -> int
    decreases items.len(),
{
    if items.len() == 0 {
        0
    } else {
        bytes_in(items.drop_last()) + items.last().content().len()
    }
}

/// The counts of a queue with an item before all others.
pub proof fn lemma_counts_front(item: Outgoing, items: Seq<Outgoing>)
    ensures
        packets_in(seq![item] + items) == item.count() + packets_in(items),
        bytes_in(seq![item] + items) == item.content().len() + bytes_in(items),
    decreases items.len(),
{
    let all = seq![item] + items;
    if items.len() == 0 {
        assert(all.drop_last() =~= Seq::empty());
        assert(packets_in(Seq::<Outgoing>::empty()) == 0);
        assert(bytes_in(Seq::<Outgoing>::empty()) == 0);
        assert(all.last() == item);
    } else {
        assert(all.drop_last() =~= seq![item] + items.drop_last());
        lemma_counts_front(item, items.drop_last());
    }
}

/// Everything that goes out is one packet at least.
pub proof fn lemma_count_nonneg(item: Outgoing)
    requires
        item.wf(),
    ensures
        item.count() >= 1,
{
    match item {
        Outgoing::Batch(_, payload, segment) => {
            let n = payload@.len() as int;
            let d = segment as int;
            lemma_ceiling(n, d);
            vstd::arithmetic::div_mod::lemma_div_pos_is_pos(n, d);
            vstd::arithmetic::div_mod::lemma_fundamental_div_mod(n, d);
            if n % d == 0 {
                assert(n / d >= 1) by (nonlinear_arith)
                    requires
                        n == d * (n / d) + n % d,
                        n % d == 0,
                        n > 0,
                        d > 0,
                ;
            }
        },
        _ => {},
    }
}

proof fn lemma_counts_nonneg(items: Seq<Outgoing>)
    requires
        forall|i: int| 0 <= i < items.len() ==> (#[trigger] items[i]).wf(),
    ensures
        packets_in(items) >= items.len(),
        bytes_in(items) >= 0,
    decreases items.len(),
{
    if items.len() > 0 {
        lemma_counts_nonneg(items.drop_last());
        lemma_count_nonneg(items.last());
    }
}

/// What waits to go out, and the buffers that can be used again.
#[verifier::ext_equal]
pub struct StorageModel {
    pub pending: Seq<Outgoing>,
    pub capacity: int,
    pub bytes_capacity: int,
    /// How many buffers can be used again.
    pub recycled: int,
    /// How much the socket takes at a time, where it cuts the bytes into packets.
    pub batch: Option<GsoLimits>,
}

impl StorageModel {
    /// Whether something can still go out.
    pub open spec fn has_room(self) -> bool {
        packets_in(self.pending) < self.capacity && bytes_in(self.pending) < self.bytes_capacity
    }

    /// Whether a packet of that length is within a ceiling and has room.
    pub open spec fn packet_fits(self, bytes: int, ceiling: int) -> bool {
        &&& bytes != 0
        &&& bytes <= ceiling
        &&& packets_in(self.pending) < self.capacity
        &&& bytes <= if self.bytes_capacity > bytes_in(self.pending) {
            self.bytes_capacity - bytes_in(self.pending)
        } else {
            0
        }
    }

    /// Whether an item has room.
    pub open spec fn takes(self, item: Outgoing) -> bool {
        &&& packets_in(self.pending) + item.count() <= self.capacity
        &&& bytes_in(self.pending) + item.content().len() <= self.bytes_capacity
        &&& self.pending.len() != self.capacity
    }

    /// After an item was put in behind all others, where it has room.
    pub open spec fn pushed(self, item: Outgoing) -> StorageModel {
        if self.takes(item) {
            StorageModel { pending: self.pending.push(item), ..self }
        } else {
            self
        }
    }

    /// After a buffer was given back.
    pub open spec fn recycled(self) -> StorageModel {
        StorageModel {
            recycled: if self.recycled < self.capacity {
                self.recycled + 1
            } else {
                self.recycled
            },
            ..self
        }
    }

    /// After a buffer was handed out.
    pub open spec fn buffer_taken(self) -> StorageModel {
        StorageModel {
            recycled: if self.recycled > 0 {
                self.recycled - 1
            } else {
                0
            },
            ..self
        }
    }

    /// Whether one packet of a length has room.
    pub open spec fn has_room_for(self, bytes: int) -> bool {
        packets_in(self.pending) < self.capacity && bytes_in(self.pending) + bytes
            <= self.bytes_capacity
    }

    /// No more waits than is allowed to.
    pub open spec fn within(self) -> bool {
        packets_in(self.pending) <= self.capacity && bytes_in(self.pending) <= self.bytes_capacity
    }
}

/// What is asked of memory: room in a buffer for so many more bytes.
pub struct PacketRequest {
    pub buffer: Vec<u8>,
    pub additional: usize,
}

/// What waits to go out, with the buffers that can be used again.
pub struct Storage {
    pending: Fifo<Outgoing>,
    packets: usize,
    bytes: usize,
    bytes_capacity: usize,
    recycled: Vec<Vec<u8>>,
    batch: Option<GsoLimits>,
}

impl View for Storage {
    type V = StorageModel;

    closed spec fn view(&self) -> StorageModel {
        StorageModel {
            pending: queued(self.pending),
            capacity: queue_size(self.pending) as int,
            bytes_capacity: self.bytes_capacity as int,
            recycled: self.recycled@.len() as int,
            batch: self.batch,
        }
    }
}

impl Storage {
    pub closed spec fn wf(&self) -> bool {
        &&& self.packets == packets_in(queued(self.pending))
        &&& self.bytes == bytes_in(queued(self.pending))
        &&& queue_size(self.pending) <= usize::MAX
        &&& self.recycled@.len() <= queue_size(self.pending)
        &&& forall|i: int|
            0 <= i < queued(self.pending).len() ==> (#[trigger] queued(self.pending)[i]).wf()
        &&& forall|i: int|
            0 <= i < self.recycled@.len() ==> (#[trigger] self.recycled@[i])@.len() == 0
    }

    /// What holds of every storage.
    pub proof fn lemma_model(&self)
        requires
            self.wf(),
        ensures
            0 <= packets_in(self@.pending) <= usize::MAX,
            0 <= bytes_in(self@.pending) <= usize::MAX,
            0 <= self@.capacity <= usize::MAX,
            0 <= self@.bytes_capacity <= usize::MAX,
            0 <= self@.recycled <= self@.capacity,
            self@.pending.len() <= packets_in(self@.pending),
            forall|i: int| 0 <= i < self@.pending.len() ==> (#[trigger] self@.pending[i]).wf(),
    {
        lemma_counts_nonneg(queued(self.pending));
    }

    /// Room for so many packets and bytes.
    pub fn new(capacity: usize, bytes_capacity: usize) -> (storage: Storage)
        requires
            capacity <= MAX_OUTGOING_CAPACITY,
        ensures
            storage.wf(),
            storage@ == (StorageModel {
                pending: Seq::empty(),
                capacity: capacity as int,
                bytes_capacity: bytes_capacity as int,
                recycled: 0,
                batch: None,
            }),
    {
        Storage {
            pending: fifo_with_capacity(capacity),
            packets: 0,
            bytes: 0,
            bytes_capacity,
            recycled: Vec::new(),
            batch: None,
        }
    }

    /// How much the socket takes at a time, where it cuts the bytes into packets.
    pub fn batch(&self) -> (limits: Option<GsoLimits>)
        ensures
            limits == self@.batch,
    {
        self.batch
    }

    /// Sets how much the socket takes at a time.
    pub fn set_batch(&mut self, limits: Option<GsoLimits>)
        requires
            old(self).wf(),
        ensures
            final(self).wf(),
            final(self)@ == (StorageModel { batch: limits, ..old(self)@ }),
    {
        self.batch = limits;
    }

    pub fn capacity(&self) -> (capacity: usize)
        ensures
            capacity == self@.capacity,
    {
        fifo_capacity(&self.pending)
    }

    /// How many packets wait.
    pub fn len(&self) -> (len: usize)
        requires
            self.wf(),
        ensures
            len == packets_in(self@.pending),
    {
        self.packets
    }

    pub fn is_empty(&self) -> (empty: bool)
        ensures
            empty == (self@.pending.len() == 0),
    {
        fifo_is_empty(&self.pending)
    }

    /// How many bytes wait.
    pub fn bytes(&self) -> (bytes: usize)
        requires
            self.wf(),
        ensures
            bytes == bytes_in(self@.pending),
    {
        self.bytes
    }

    pub fn bytes_capacity(&self) -> (capacity: usize)
        ensures
            capacity == self@.bytes_capacity,
    {
        self.bytes_capacity
    }

    /// Whether there are buffers that can be used again.
    pub fn has_recycled(&self) -> (has: bool)
        ensures
            has == (self@.recycled > 0),
    {
        self.recycled.len() > 0
    }

    /// Lets a buffer that can be used again go, and tells whether there was one.
    pub fn drop_recycled(&mut self) -> (dropped: bool)
        requires
            old(self).wf(),
        ensures
            final(self).wf(),
            dropped == (old(self)@.recycled > 0),
            final(self)@ == old(self)@.buffer_taken(),
    {
        match self.recycled.pop() {
            Some(_) => true,
            None => false,
        }
    }

    /// An empty buffer, one that can be used again if there is one.
    pub fn take_buffer(&mut self) -> (buffer: Vec<u8>)
        requires
            old(self).wf(),
        ensures
            final(self).wf(),
            buffer@ == Seq::<u8>::empty(),
            final(self)@ == old(self)@.buffer_taken(),
    {
        let mut packet = match self.recycled.pop() {
            Some(packet) => packet,
            None => Vec::new(),
        };
        packet.clear();
        assert(packet@ =~= Seq::<u8>::empty());
        packet
    }

    /// An empty buffer, and how much memory it is to have.
    pub fn request_packet(&mut self, required: usize) -> (request: PacketRequest)
        requires
            old(self).wf(),
        ensures
            final(self).wf(),
            request.buffer@ == Seq::<u8>::empty(),
            request.additional == required,
            final(self)@ == old(self)@.buffer_taken(),
    {
        PacketRequest { buffer: self.take_buffer(), additional: required }
    }

    /// The buffer, if memory for it was had; else it is given back.
    pub fn packet_granted(&mut self, buffer: Vec<u8>, done: bool) -> (packet: Option<Vec<u8>>)
        requires
            old(self).wf(),
        ensures
            final(self).wf(),
            packet == (if done {
                Some(buffer)
            } else {
                None
            }),
            final(self)@ == if done {
                old(self)@
            } else {
                old(self)@.recycled()
            },
    {
        if !done {
            self.recycle_packet(buffer);
            return None;
        }
        Some(buffer)
    }

    /// An empty buffer, if there is memory for so many bytes. Whether there is rests on the
    /// machine.
    pub fn take_packet(&mut self, required: usize) -> (packet: Option<Vec<u8>>)
        requires
            old(self).wf(),
        ensures
            final(self).wf(),
            match packet {
                Some(packet) => packet@.len() == 0 && final(self)@ == old(self)@.buffer_taken(),
                None => final(self)@ == old(self)@.buffer_taken().recycled(),
            },
    {
        let request = self.request_packet(required);
        let mut buffer = request.buffer;
        let done = reserve(&mut buffer, request.additional);
        self.packet_granted(buffer, done)
    }

    /// Gives a buffer back.
    pub fn recycle_packet(&mut self, packet: Vec<u8>)
        requires
            old(self).wf(),
        ensures
            final(self).wf(),
            final(self)@ == old(self)@.recycled(),
    {
        let mut packet = packet;
        packet.clear();
        if self.recycled.len() < fifo_capacity(&self.pending) {
            self.recycled.push(packet);
        }
    }

    /// Gives back the buffer of what went out.
    pub fn recycle(&mut self, outgoing: Outgoing)
        requires
            old(self).wf(),
        ensures
            final(self).wf(),
            final(self)@ == old(self)@.recycled(),
    {
        self.recycle_packet(outgoing.into_storage());
    }

    pub fn has_outgoing_room(&self) -> (room: bool)
        requires
            self.wf(),
        ensures
            room == self@.has_room(),
    {
        self.packets < fifo_capacity(&self.pending) && self.bytes < self.bytes_capacity
    }

    pub fn packet_fits(&self, bytes: usize, packet_ceiling: usize) -> (fits: bool)
        requires
            self.wf(),
        ensures
            fits == self@.packet_fits(bytes as int, packet_ceiling as int),
    {
        bytes != 0 && bytes <= packet_ceiling && self.packets < fifo_capacity(&self.pending)
            && bytes <= self.bytes_capacity.saturating_sub(self.bytes)
    }

    /// Puts one packet in, behind all others, or gives its buffer back where there is no
    /// room for it.
    pub fn push_packet(&mut self, item: Outgoing) -> (pushed: bool)
        requires
            old(self).wf(),
            old(self)@.within(),
            item.wf(),
            item.count() == 1,
        ensures
            final(self).wf(),
            final(self)@.within(),
            pushed == old(self)@.has_room_for(item.content().len() as int),
            pushed == old(self)@.takes(item),
            final(self)@ == if pushed {
                old(self)@.pushed(item)
            } else {
                old(self)@.recycled()
            },
    {
        proof {
            self.lemma_model();
        }
        self.push_or_recycle(item)
    }

    /// Takes out what waits longest.
    pub fn pop(&mut self) -> (outgoing: Option<Outgoing>)
        requires
            old(self).wf(),
        ensures
            final(self).wf(),
            match outgoing {
                Some(outgoing) => old(self)@.pending.len() > 0 && outgoing == old(self)@.pending[0]
                    && outgoing.wf() && final(self)@ == (StorageModel {
                    pending: old(self)@.pending.subrange(1, old(self)@.pending.len() as int),
                    ..old(self)@
                }) && packets_in(old(self)@.pending) == outgoing.count() + packets_in(
                    final(self)@.pending,
                ) && bytes_in(old(self)@.pending) == outgoing.content().len() + bytes_in(
                    final(self)@.pending,
                ),
                None => old(self)@.pending.len() == 0 && final(self)@ == old(self)@,
            },
    {
        let ghost items = queued(self.pending);
        match fifo_pop_front(&mut self.pending) {
            Some(outgoing) => {
                proof {
                    let rest = queued(self.pending);
                    assert(items =~= seq![outgoing] + rest);
                    lemma_counts_front(outgoing, rest);
                    assert forall|i: int| 0 <= i < rest.len() implies (#[trigger] rest[i]).wf() by {
                        assert(rest[i] == items[i + 1]);
                    }
                    lemma_counts_nonneg(rest);
                    assert(items[0].wf());
                }
                self.packets = self.packets - outgoing.packets();
                self.bytes = self.bytes - outgoing.bytes();
                Some(outgoing)
            },
            None => None,
        }
    }

    /// Puts something back in, before all others, or gives it back where the queue
    /// is full.
    pub fn push_front(&mut self, outgoing: Outgoing) -> (result: Result<(), Outgoing>)
        requires
            old(self).wf(),
            outgoing.wf(),
            packets_in(old(self)@.pending) + outgoing.count() <= usize::MAX,
            bytes_in(old(self)@.pending) + outgoing.content().len() <= usize::MAX,
        ensures
            final(self).wf(),
            match result {
                Ok(_) => old(self)@.pending.len() != old(self)@.capacity && final(self)@
                    == (StorageModel { pending: seq![outgoing] + old(self)@.pending, ..old(self)@ }),
                Err(back) => old(self)@.pending.len() == old(self)@.capacity && final(self)@
                    == old(self)@ && back == outgoing,
            },
    {
        let packets: usize = outgoing.packets();
        let bytes: usize = outgoing.bytes();
        let ghost items = queued(self.pending);
        let ghost item = outgoing;
        match fifo_push_front(&mut self.pending, outgoing) {
            Ok(_) => {
                proof {
                    lemma_counts_front(item, items);
                    let all = queued(self.pending);
                    assert forall|i: int| 0 <= i < all.len() implies (#[trigger] all[i]).wf() by {
                        if i > 0 {
                            assert(all[i] == items[i - 1]);
                        }
                    }
                }
                self.packets = self.packets + packets;
                self.bytes = self.bytes + bytes;
                Ok(())
            },
            Err(outgoing) => Err(outgoing),
        }
    }

    /// Puts something in, behind all others, or gives it back where there is no
    /// room for it.
    pub fn push_outgoing(&mut self, outgoing: Outgoing) -> (result: Result<(), Outgoing>)
        requires
            old(self).wf(),
            old(self)@.within(),
            outgoing.wf(),
        ensures
            final(self).wf(),
            final(self)@.within(),
            final(self)@ == old(self)@.pushed(outgoing),
            match result {
                Ok(_) => old(self)@.takes(outgoing),
                Err(back) => !old(self)@.takes(outgoing) && back == outgoing,
            },
    {
        let packets: usize = outgoing.packets();
        let bytes: usize = outgoing.bytes();
        if packets > fifo_capacity(&self.pending) - self.packets || bytes > self.bytes_capacity
            - self.bytes {
            return Err(outgoing);
        }
        let ghost items = queued(self.pending);
        let ghost item = outgoing;
        match fifo_push_back(&mut self.pending, outgoing) {
            Ok(_) => {
                proof {
                    let all = queued(self.pending);
                    assert(all.drop_last() =~= items);
                }
                self.packets = self.packets + packets;
                self.bytes = self.bytes + bytes;
                Ok(())
            },
            Err(outgoing) => Err(outgoing),
        }
    }

    /// Puts something in, behind all others, or gives its buffer back where there is
    /// no room for it. The result tells whether it was put in.
    pub fn push_or_recycle(&mut self, outgoing: Outgoing) -> (pushed: bool)
        requires
            old(self).wf(),
            old(self)@.within(),
            outgoing.wf(),
        ensures
            final(self).wf(),
            final(self)@.within(),
            pushed == old(self)@.takes(outgoing),
            final(self)@ == if old(self)@.takes(outgoing) {
                old(self)@.pushed(outgoing)
            } else {
                old(self)@.recycled()
            },
    {
        match self.push_outgoing(outgoing) {
            Ok(_) => true,
            Err(outgoing) => {
                self.recycle(outgoing);
                false
            },
        }
    }
}

/// What is put in last comes out after all that was there, and the counts are those
/// of what waits.
pub proof fn law_first_in_first_out(s: StorageModel, item: Outgoing)
    requires
        s.takes(item),
    ensures
        s.pushed(item).pending.subrange(0, s.pending.len() as int) == s.pending,
        s.pushed(item).pending[s.pending.len() as int] == item,
        packets_in(s.pushed(item).pending) == packets_in(s.pending) + item.count(),
        bytes_in(s.pushed(item).pending) == bytes_in(s.pending) + item.content().len(),
{
    assert(s.pushed(item).pending.drop_last() =~= s.pending);
    assert(s.pushed(item).pending.subrange(0, s.pending.len() as int) =~= s.pending);
}

/// How much a socket takes at a time where it cuts the bytes into packets itself.
#[derive(Debug, Clone, Copy, PartialEq, Eq, Structural)]
pub struct GsoLimits {
    pub max_segments: usize,
    pub max_bytes: usize,
}

/// Whether those limits are of use: there is more than one packet at a time, a byte
/// holds how many, and they hold something.
pub fn gso_is_usable(limits: GsoLimits) -> (usable: bool)
    ensures
        usable == (1 < limits.max_segments <= u8::MAX && limits.max_bytes != 0),
{
    limits.max_segments > 1 && limits.max_segments <= 255 && limits.max_bytes != 0
}

/// How many packets of a length a connection may send at a turn where the socket cuts
/// them, given how many packets and bytes have room.
pub open spec fn gso_limit(
    packet_room: int,
    byte_room: int,
    quantum: int,
    max_packet_bytes: int,
    limits: GsoLimits,
) -> int {
    let capped = if quantum < limits.max_bytes {
        quantum
    } else {
        limits.max_bytes as int
    };
    let widened = if capped > max_packet_bytes {
        capped
    } else {
        max_packet_bytes
    };
    let bytes = if byte_room < widened {
        byte_room
    } else {
        widened
    };
    let packets = if bytes / max_packet_bytes < packet_room {
        bytes / max_packet_bytes
    } else {
        packet_room
    };
    if packets < limits.max_segments {
        packets
    } else {
        limits.max_segments as int
    }
}

/// How many packets of a length a connection may send at a turn where the socket cuts
/// them.
pub fn gso_packet_limit(
    packet_room: usize,
    byte_room: usize,
    quantum: usize,
    max_packet_bytes: usize,
    limits: GsoLimits,
) -> (limit: usize)
    requires
        max_packet_bytes > 0,
    ensures
        limit == gso_limit(
            packet_room as int,
            byte_room as int,
            quantum as int,
            max_packet_bytes as int,
            limits,
        ),
{
    let mut bytes: usize = if quantum < limits.max_bytes {
        quantum
    } else {
        limits.max_bytes
    };
    if bytes < max_packet_bytes {
        bytes = max_packet_bytes;
    }
    if byte_room < bytes {
        bytes = byte_room;
    }
    let mut packets: usize = bytes / max_packet_bytes;
    if packet_room < packets {
        packets = packet_room;
    }
    if limits.max_segments < packets {
        packets = limits.max_segments;
    }
    packets
}

/// What goes out of packets that were written one behind the other: one alone goes
/// plain, and several go as a batch.
pub fn coalesce_gso(addr: PeerAddress, payload: Vec<u8>, segment_size: u16, packets: usize) -> (
    item: Outgoing)
    requires
        segment_size > 0,
        payload@.len() > 0,
    ensures
        item.wf(),
        item == if packets == 1 {
            Outgoing::Plain(addr, payload)
        } else {
            Outgoing::Batch(addr, payload, segment_size)
        },
{
    if packets == 1 {
        Outgoing::Plain(addr, payload)
    } else {
        Outgoing::Batch(addr, payload, segment_size)
    }
}

/// A batch goes out as the packets that its bytes are cut into: as many as hold them all, and
/// no more.
pub proof fn law_batch_is_cut(item: Outgoing)
    requires
        item.wf(),
    ensures
        item.count() >= 1,
        item matches Outgoing::Batch(_, payload, segment) ==> (item.count() - 1) * segment
            < payload@.len() <= item.count() * segment,
{
    if let Outgoing::Batch(_, payload, segment) = item {
        let n = payload@.len() as int;
        let s = segment as int;
        vstd::arithmetic::div_mod::lemma_fundamental_div_mod(n + s - 1, s);
        let q = (n + s - 1) / s;
        assert(s * q <= n + s - 1 < s * q + s);
        assert(s * q == q * s) by (nonlinear_arith);
        assert((q - 1) * s == q * s - s) by (nonlinear_arith);
        if q < 1 {
            assert(q * s <= 0) by (nonlinear_arith)
                requires
                    q < 1,
                    s > 0,
            ;
        }
    }
}

/// What waits is counted: an item that is put in adds its packets and its bytes, and is put in
/// exactly where both have room. Nothing that has no room is lost but the item itself.
pub proof fn law_room_is_kept(s: StorageModel, item: Outgoing)
    requires
        s.within(),
        item.count() >= 1,
        s.pending.len() <= packets_in(s.pending),
    ensures
        s.pushed(item).within(),
        s.takes(item) == (packets_in(s.pending) + item.count() <= s.capacity && bytes_in(s.pending)
            + item.content().len() <= s.bytes_capacity),
        !s.takes(item) ==> s.pushed(item) == s,
        s.pushed(item).capacity == s.capacity,
        s.pushed(item).bytes_capacity == s.bytes_capacity,
{
    if s.takes(item) {
        assert(s.pushed(item).pending.drop_last() =~= s.pending);
    }
}

/// Buffers that were given back are handed out again, one for one, and no more are kept than
/// packets can wait.
pub proof fn law_buffers_come_back(s: StorageModel)
    requires
        0 <= s.recycled <= s.capacity,
    ensures
        s.recycled < s.capacity ==> s.recycled().recycled == s.recycled + 1
            && s.recycled().buffer_taken() == s,
        s.recycled == s.capacity ==> s.recycled() == s,
        s.recycled > 0 ==> s.buffer_taken().recycled == s.recycled - 1
            && s.buffer_taken().recycled() == s,
        s.recycled().pending == s.pending,
        s.buffer_taken().pending == s.pending,
{
}

/// As many packets go out in one batch as have room, as a socket cuts, and as the turn allows:
/// at least one where there is room for one.
pub proof fn law_batch_limit(
    packet_room: int,
    byte_room: int,
    quantum: int,
    max_packet_bytes: int,
    limits: GsoLimits,
)
    requires
        max_packet_bytes > 0,
        packet_room >= 0,
        byte_room >= 0,
        quantum >= 0,
        limits.max_segments >= 1,
    ensures
        ({
            let n = gso_limit(packet_room, byte_room, quantum, max_packet_bytes, limits);
            &&& 0 <= n <= packet_room
            &&& n <= limits.max_segments
            &&& n * max_packet_bytes <= byte_room
            &&& packet_room >= 1 && byte_room >= max_packet_bytes ==> n >= 1
            &&& n > 1 ==> n * max_packet_bytes <= quantum && n * max_packet_bytes
                <= limits.max_bytes
        }),
{
    let capped = if quantum < limits.max_bytes {
        quantum
    } else {
        limits.max_bytes as int
    };
    let widened = if capped > max_packet_bytes {
        capped
    } else {
        max_packet_bytes
    };
    let bytes = if byte_room < widened {
        byte_room
    } else {
        widened
    };
    let d = max_packet_bytes;
    let n = gso_limit(packet_room, byte_room, quantum, max_packet_bytes, limits);
    vstd::arithmetic::div_mod::lemma_fundamental_div_mod(bytes, d);
    vstd::arithmetic::div_mod::lemma_div_pos_is_pos(bytes, d);
    let q = bytes / d;
    assert(q * d == d * q) by (nonlinear_arith);
    assert(q * d <= bytes);
    assert(n <= q);
    assert(n * d <= q * d) by (nonlinear_arith)
        requires
            n <= q,
            d > 0,
    ;
    if bytes >= d {
        assert(q >= 1) by (nonlinear_arith)
            requires
                bytes == d * q + bytes % d,
                bytes % d < d,
                bytes >= d,
                d > 0,
        ;
    }
    if n > 1 {
        assert(n * d >= 2 * d) by (nonlinear_arith)
            requires
                n > 1,
                d > 0,
        ;
    }
}

} // verus!
