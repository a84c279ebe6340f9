//! Acknowledgements in a packet.
use vstd::prelude::*;

use crate::conn::transmit::draft::{Draft, DraftModel};
use crate::conn::transmit::room::number_len;
use crate::frame::laws::{descends, unambiguous};
use crate::frame::model::{frame_bytes, range_bytes, FrameModel};
use crate::frame::Frame;
use crate::pn_space::{acknowledged, wire_pairs, Receive, ReceiveModel, MAX_ACK_INTERVALS};
use crate::varint::{law_varint_round_trip, varint_bytes, varint_len, VarInt, MAX_VARINT};

verus! {

/// The frame with the highest of some intervals.
pub open spec fn ack_frame(
    largest: u64,
    first_range: u64,
    pairs: Seq<(int, int)>,
    count: int,
) -> FrameModel {
    Frame::Ack {
        largest: VarInt::of(largest),
        delay: VarInt::of(0),
        first_range: VarInt::of(first_range),
        additional_ranges: wire_pairs(pairs.take(count)),
    }
}

/// Whether a packet got an acknowledgement: of all the intervals of received
/// packets, the highest that fit.
pub open spec fn acks_with(
    before: DraftModel,
    receive: ReceiveModel,
    after: DraftModel,
    first_range: u64,
    pairs: Seq<(int, int)>,
    count: int,
) -> bool {
    let largest = receive.largest->0;
    let frame = ack_frame(largest, first_range, pairs, count);
    let above = largest - first_range;
    &&& first_range <= largest
    &&& pairs.len() < MAX_ACK_INTERVALS
    &&& forall|i: int|
        0 <= i < pairs.len() ==> {
            let pair = #[trigger] pairs[i];
            0 <= pair.0 <= largest && 0 <= pair.1 <= largest
        }
    &&& descends(wire_pairs(pairs), above)
    &&& forall|pn: int| #[trigger]
        receive.packets.contains(pn) == (above <= pn <= largest || acknowledged(pairs, above, pn))
    &&& 0 <= count <= pairs.len()
    &&& if !before.fits(ack_frame(largest, first_range, pairs, 0)) {
        after == before
    } else {
        &&& before.fits(frame)
        &&& count < pairs.len() ==> !before.fits(
            ack_frame(largest, first_range, pairs, count + 1),
        )
        &&& after == (DraftModel { ack_included: true, ..before.with(frame_bytes(frame)) })
    }
}

/// Whether a packet got the acknowledgement that is owed, if one is.
#[verifier::opaque]
pub open spec fn acks(before: DraftModel, receive: ReceiveModel, after: DraftModel) -> bool {
    if !receive.ack_pending || receive.largest is None || receive.largest->0 > MAX_VARINT {
        after == before
    } else {
        exists|first_range: u64, pairs: Seq<(int, int)>, count: int| #[trigger]
            acks_with(before, receive, after, first_range, pairs, count)
    }
}

proof fn lemma_fewer(pairs: Seq<(int, int)>, above: int, pn: int, count: int)
    requires
        0 <= count <= pairs.len(),
        acknowledged(pairs.take(count), above, pn),
    ensures
        acknowledged(pairs, above, pn),
    decreases pairs.len(),
{
    let few = pairs.take(count);
    if count > 0 {
        let rest = pairs.subrange(1, pairs.len() as int);
        assert(few.subrange(1, few.len() as int) =~= rest.take(count - 1));
        let smallest = above - pairs[0].0 - 2 - pairs[0].1;
        if acknowledged(few.subrange(1, few.len() as int), smallest, pn) {
            lemma_fewer(rest, smallest, pn, count - 1);
        }
    }
}

/// A packet acknowledges only what was received.
pub proof fn law_only_received_acknowledged(
    before: DraftModel,
    receive: ReceiveModel,
    after: DraftModel,
    first_range: u64,
    pairs: Seq<(int, int)>,
    count: int,
    pn: int,
)
    requires
        acks_with(before, receive, after, first_range, pairs, count),
        receive.largest->0 - first_range <= pn <= receive.largest->0 || acknowledged(
            pairs.take(count),
            receive.largest->0 - first_range,
            pn,
        ),
    ensures
        receive.packets.contains(pn),
{
    let above = receive.largest->0 - first_range;
    if acknowledged(pairs.take(count), above, pn) {
        lemma_fewer(pairs, above, pn, count);
    }
    assert(receive.packets.contains(pn) == (above <= pn <= receive.largest->0 || acknowledged(
        pairs,
        above,
        pn,
    )));
}

/// Fewer ranges walk down too.
proof fn lemma_fewer_descend(ranges: Seq<(VarInt, VarInt)>, smallest: int, count: int)
    requires
        0 <= count <= ranges.len(),
        descends(ranges, smallest),
    ensures
        descends(ranges.take(count), smallest),
    decreases ranges.len(),
{
    let few = ranges.take(count);
    if count > 0 {
        let rest = ranges.subrange(1, ranges.len() as int);
        assert(few.subrange(1, few.len() as int) =~= rest.take(count - 1));
        lemma_fewer_descend(rest, smallest - ranges[0].0@ - 2 - ranges[0].1@, count - 1);
    }
}

/// The acknowledgement in a packet is one that its receiver reads as it was written.
pub proof fn law_ack_is_unambiguous(
    before: DraftModel,
    receive: ReceiveModel,
    after: DraftModel,
    first_range: u64,
    pairs: Seq<(int, int)>,
    count: int,
)
    requires
        acks_with(before, receive, after, first_range, pairs, count),
        receive.largest->0 <= MAX_VARINT,
    ensures
        unambiguous(ack_frame(receive.largest->0, first_range, pairs, count)),
{
    broadcast use crate::varint::lemma_of_view;

    let above = receive.largest->0 - first_range;
    lemma_fewer_descend(wire_pairs(pairs), above, count);
    assert(wire_pairs(pairs).take(count) =~= wire_pairs(pairs.take(count)));
    crate::varint::lemma_of_view(receive.largest->0);
    crate::varint::lemma_of_view(first_range);
}

/// How many bytes a frame takes.
spec fn size(frame: FrameModel) -> int {
    frame_bytes(frame).len() as int
}

/// How much one more interval takes.
proof fn lemma_next_size(
    largest: u64,
    first_range: u64,
    pairs: Seq<(int, int)>,
    count: int,
)
    requires
        largest <= MAX_VARINT,
        first_range <= largest,
        0 <= count < pairs.len() <= MAX_ACK_INTERVALS,
        0 <= pairs[count].0 <= largest,
        0 <= pairs[count].1 <= largest,
    ensures
        size(ack_frame(largest, first_range, pairs, count + 1)) == size(
            ack_frame(largest, first_range, pairs, count),
        ) - varint_len(count as u64) + varint_len((count + 1) as u64) + varint_len(
            pairs[count].0 as u64,
        ) + varint_len(pairs[count].1 as u64),
{
    broadcast use crate::varint::lemma_of_view;

    let few = wire_pairs(pairs.take(count));
    let more = wire_pairs(pairs.take(count + 1));
    assert(more.drop_last() =~= few);
    assert(more.last() == (
        VarInt::of(pairs[count].0 as u64),
        VarInt::of(pairs[count].1 as u64),
    ));
    assert(range_bytes(more) == range_bytes(few) + varint_bytes(pairs[count].0 as u64)
        + varint_bytes(pairs[count].1 as u64));
    law_varint_round_trip(pairs[count].0 as u64, Seq::empty());
    law_varint_round_trip(pairs[count].1 as u64, Seq::empty());
    law_varint_round_trip(count as u64, Seq::empty());
    law_varint_round_trip((count + 1) as u64, Seq::empty());
    assert(few.len() == count);
    assert(more.len() == count + 1);
}

/// How much a frame with the first interval takes.
proof fn lemma_first_size(largest: u64, first_range: u64, pairs: Seq<(int, int)>)
    requires
        largest <= MAX_VARINT,
        first_range <= largest,
    ensures
        size(ack_frame(largest, first_range, pairs, 0)) == 1 + varint_len(largest) + 1 + 1
            + varint_len(first_range),
{
    broadcast use crate::varint::lemma_of_view;

    law_varint_round_trip(largest, Seq::empty());
    law_varint_round_trip(first_range, Seq::empty());
    law_varint_round_trip(0, Seq::empty());
    assert(wire_pairs(pairs.take(0)) =~= Seq::empty());
    assert(range_bytes(Seq::empty()) =~= Seq::empty());
}

impl Draft {
    /// Adds the acknowledgement that is owed, if one is and it fits. Tells
    /// whether it was added.
    pub fn append_ack_frame(&mut self, receive: &Receive) -> (included: bool)
        requires
            receive.wf(),
            !old(self)@.ack_included,
        ensures
            acks(old(self)@, receive@, final(self)@),
            included == final(self)@.ack_included,
            final(self)@ == (DraftModel {
                frames: final(self)@.frames,
                ack_included: included,
                ..old(self)@
            }),
    {
        reveal(acks);
        broadcast use {crate::varint::lemma_of_view, crate::varint::lemma_view_of};

        if !receive.ack_pending() {
            return false;
        }
        let ranges = match receive.build_ack_ranges() {
            Some(ranges) => ranges,
            None => {
                return false;
            },
        };
        let (largest, first_range) = match (
            VarInt::new(ranges.largest),
            VarInt::new(ranges.first_range),
        ) {
            (Some(largest), Some(first_range)) => (largest, first_range),
            _ => {
                return false;
            },
        };
        let ghost before = self@;
        let ghost pairs = ranges.additional@;
        let ghost above = ranges.largest - ranges.first_range;
        proof {
            lemma_first_size(ranges.largest, ranges.first_range, pairs);
            assert forall|pn: int| #[trigger]
                receive@.packets.contains(pn) == (above <= pn <= ranges.largest || acknowledged(
                    pairs,
                    above,
                    pn,
                )) by {
                assert(ranges.acknowledges(pn) == receive@.packets.contains(pn));
            }
        }
        let available: usize = self.room();
        let base: usize = 1 + largest.encoded_len() + 1 + 1 + first_range.encoded_len();
        if base > available {
            assert(acks_with(before, receive@, self@, ranges.first_range, pairs, 0));
            return false;
        }
        let mut rest = ranges.additional;
        let total: usize = rest.len();
        let mut encoded: usize = base;
        let mut selected: Vec<(VarInt, VarInt)> = Vec::new();
        assert(wire_pairs(pairs.take(0)) =~= selected@);
        assert(pairs.subrange(0, pairs.len() as int) =~= pairs);
        loop
            invariant_except_break
                rest@ == pairs.subrange(selected@.len() as int, pairs.len() as int),
            invariant
                pairs == ranges.additional@,
                total == pairs.len() <= MAX_ACK_INTERVALS,
                selected@.len() <= pairs.len(),
                selected@ == wire_pairs(pairs.take(selected@.len() as int)),
                encoded == size(
                    ack_frame(
                        ranges.largest,
                        ranges.first_range,
                        pairs,
                        selected@.len() as int,
                    ),
                ),
                encoded <= available,
                encoded >= varint_len(selected@.len() as u64),
                ranges.largest <= MAX_VARINT,
                ranges.first_range <= ranges.largest,
                forall|i: int|
                    0 <= i < pairs.len() ==> {
                        let pair = #[trigger] pairs[i];
                        0 <= pair.0 <= ranges.largest && 0 <= pair.1 <= ranges.largest
                    },
            ensures
                selected@.len() < pairs.len() ==> size(
                    ack_frame(
                        ranges.largest,
                        ranges.first_range,
                        pairs,
                        selected@.len() as int + 1,
                    ),
                ) > available,
            decreases pairs.len() - selected@.len(),
        {
            let count: usize = selected.len();
            let ghost k = count as int;
            let (gap, length) = match rest.next() {
                Some(pair) => pair,
                None => {
                    break;
                },
            };
            proof {
                assert(pairs.subrange(k, pairs.len() as int)[0] == pairs[k]);
                lemma_next_size(ranges.largest, ranges.first_range, pairs, k);
            }
            let (gap, length) = match (VarInt::new(gap), VarInt::new(length)) {
                (Some(gap), Some(length)) => (gap, length),
                _ => {
                    break;
                },
            };
            let was: usize = number_len(count as u64);
            let now: usize = number_len((count + 1) as u64);
            let taken: usize = now + gap.encoded_len() + length.encoded_len();
            if taken > available || encoded - was > available - taken {
                break;
            }
            encoded = encoded - was + taken;
            selected.push((gap, length));
            proof {
                assert(rest@ =~= pairs.subrange(k + 1, pairs.len() as int));
                assert(pairs.take(k + 1).take(k) =~= pairs.take(k));
                let wire = wire_pairs(pairs.take(k + 1));
                assert(wire[k] == (VarInt::of(gap@), VarInt::of(length@)));
                assert forall|j: int| 0 <= j < k implies selected@[j] == #[trigger] wire[j] by {
                    assert(wire_pairs(pairs.take(k))[j] == wire[j]);
                }
                assert(selected@[k] == (gap, length));
                crate::varint::lemma_view_of(gap);
                crate::varint::lemma_view_of(length);
                assert(wire.len() == k + 1);
                assert(selected@ =~= wire);
            }
        }
        let ghost count = selected@.len() as int;
        let frame = Frame::Ack {
            largest,
            delay: VarInt::zero(),
            first_range,
            additional_ranges: selected,
        };
        proof {
            assert(frame@ == ack_frame(ranges.largest, ranges.first_range, pairs, count));
        }
        let added = self.append_frame(&frame);
        self.ack_included = added;
        assert(acks_with(before, receive@, self@, ranges.first_range, pairs, count));
        added
    }
}

} // verus!
