//! What is written on a stream is what the peer reads.
use vstd::prelude::*;

use crate::conn::recv::ReceiverModel;
use crate::conn::send::SenderModel;
use crate::range_buffer::{agrees, law_reassembly, stretch};

verus! {

/// Whether the sending side of a stream keeps, of all that was written, what is not
/// acknowledged.
pub open spec fn keeps_rest(sender: SenderModel, written: Seq<u8>) -> bool {
    &&& 0 <= sender.start <= written.len()
    &&& sender.bytes == written.subrange(sender.start, written.len() as int)
}

/// Nothing is written on a new stream.
pub proof fn law_begins_empty(credit: u64)
    ensures
        keeps_rest(SenderModel::initial(credit), Seq::empty()),
{
    assert(Seq::<u8>::empty().subrange(0, 0) =~= Seq::empty());
}

/// Writing adds to what was written.
pub proof fn law_written_added(sender: SenderModel, written: Seq<u8>, data: Seq<u8>)
    requires
        keeps_rest(sender, written),
    ensures
        keeps_rest(sender.written(data), written + data),
{
    assert(sender.bytes + data =~= (written + data).subrange(
        sender.start,
        (written + data).len() as int,
    ));
}

/// Sending forgets nothing.
pub proof fn law_sent_kept(sender: SenderModel, written: Seq<u8>, len: int, fin: bool)
    requires
        keeps_rest(sender, written),
    ensures
        keeps_rest(sender.advanced(len, fin), written),
{
}

/// What is acknowledged is given up, and nothing else.
pub proof fn law_released_given_up(
    sender: SenderModel,
    written: Seq<u8>,
    bytes: int,
    fin: bool,
)
    requires
        keeps_rest(sender, written),
        0 <= bytes <= sender.bytes.len(),
    ensures
        keeps_rest(sender.released(bytes, fin), written),
{
    assert(sender.bytes.subrange(bytes, sender.bytes.len() as int) =~= written.subrange(
        sender.start + bytes,
        written.len() as int,
    ));
}

/// A piece that is sent is what was written at its place, whatever was written since.
pub proof fn law_piece_of_written(
    sender: SenderModel,
    so_far: Seq<u8>,
    written: Seq<u8>,
    offset: int,
    len: int,
)
    requires
        keeps_rest(sender, so_far),
        so_far.is_prefix_of(written),
        sender.available(offset, len),
        len >= 0,
    ensures
        offset + len <= written.len(),
        sender.range(offset, len) == written.subrange(offset, offset + len),
{
    let piece = sender.range(offset, len);
    let wanted = written.subrange(offset, offset + len);
    assert forall|i: int| 0 <= i < len implies piece[i] == wanted[i] by {
        assert(so_far[offset + i] == written[offset + i]);
    }
    assert(piece =~= wanted);
}

/// Whether the receiving side of a stream handed out the first bytes of what was written,
/// has the bytes that follow them ready, and keeps nothing that was not written.
pub open spec fn reads(receiver: ReceiverModel, handed: Seq<u8>, written: Seq<u8>) -> bool {
    &&& 0 <= receiver.store.next <= written.len()
    &&& handed + receiver.ready == written.subrange(0, receiver.store.next)
    &&& agrees(receiver.store.held, |x: int| written[x])
    &&& forall|x: int| #[trigger]
        receiver.store.held.dom().contains(x) ==> 0 <= x < written.len()
}

/// A new stream handed nothing out.
pub proof fn law_reads_nothing(limit: u64, written: Seq<u8>)
    ensures
        reads(ReceiverModel::initial(limit), Seq::empty(), written),
{
    let empty = Seq::<u8>::empty();
    assert(empty + empty =~= written.subrange(0, 0));
}

/// Writing more changes nothing about what was read.
pub proof fn law_reads_on(
    receiver: ReceiverModel,
    handed: Seq<u8>,
    written: Seq<u8>,
    more: Seq<u8>,
)
    requires
        reads(receiver, handed, written),
    ensures
        reads(receiver, handed, written + more),
{
    let next = receiver.store.next;
    assert(written.subrange(0, next) =~= (written + more).subrange(0, next));
}

/// What was written is what is read: a piece of it, whenever and however often it arrives,
/// leaves what is handed out and ready the first bytes of what was written.
pub proof fn law_stream_delivered(
    receiver: ReceiverModel,
    handed: Seq<u8>,
    written: Seq<u8>,
    offset: int,
    len: int,
    fin: bool,
    after: ReceiverModel,
)
    requires
        reads(receiver, handed, written),
        0 <= offset,
        0 <= len,
        offset + len <= written.len(),
        receiver.took(offset, written.subrange(offset, offset + len), fin, after),
    ensures
        reads(after, handed, written),
{
    let data = written.subrange(offset, offset + len);
    let stream = |x: int| written[x];
    let bytes = receiver.store.taken(offset, data);
    let from = receiver.store.next;
    let to = after.store.next;
    assert(forall|i: int| 0 <= i < data.len() ==> #[trigger] data[i] == stream(offset + i));
    law_reassembly(receiver.store, offset, data, to, stream);
    if to > written.len() {
        assert(bytes.dom().contains(written.len() as int));
    }
    assert(stretch(bytes, from, to) =~= written.subrange(from, to));
    assert(written.subrange(0, from) + written.subrange(from, to) =~= written.subrange(0, to));
    assert(handed + after.ready =~= (handed + receiver.ready) + stretch(bytes, from, to));
}

/// Reading hands out what is ready, and loses nothing.
pub proof fn law_read_hands_out(receiver: ReceiverModel, handed: Seq<u8>, written: Seq<u8>)
    requires
        reads(receiver, handed, written),
    ensures
        reads(
            (ReceiverModel { ready: Seq::empty(), ..receiver }),
            handed + receiver.ready,
            written,
        ),
{
    assert(handed + receiver.ready + Seq::<u8>::empty() =~= handed + receiver.ready);
}

/// Once a stream was read to its end, all that was written was handed out.
pub proof fn law_read_to_the_end(receiver: ReceiverModel, handed: Seq<u8>, written: Seq<u8>)
    requires
        reads(receiver, handed, written),
        receiver.is_eof(),
        receiver.final_size == Some(written.len() as u64),
        written.len() <= u64::MAX,
    ensures
        handed == written,
{
    assert(handed + receiver.ready =~= handed);
    assert(written.subrange(0, written.len() as int) =~= written);
}

} // verus!
