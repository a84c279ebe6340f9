//! The additional ranges of an ACK frame, read where they lie.

use vstd::prelude::*;

use crate::frame::laws::{lemma_int_at_bounds, lemma_range_front};
use crate::frame::model::{int_at, range_bytes};
use crate::varint::{law_varint_round_trip, varint_bytes, VarInt, MAX_VARINT};

verus! {

/// The gap and length pairs at position `at`: at most `count`, fewer where the
/// input ends early.
pub open spec fn pairs_at(input: Seq<u8>, at: int, count: nat) -> Seq<(VarInt, VarInt)>
    decreases count,
{
    if count == 0 {
        seq![]
    } else {
        match int_at(input, at) {
            None => seq![],
            Some((gap, at)) => match int_at(input, at) {
                None => seq![],
                Some((len, at)) => seq![(gap, len)] + pairs_at(input, at, (count - 1) as nat),
            },
        }
    }
}

/// The pairs that are still to come.
#[derive(Debug, Clone)]
pub struct AckRanges<'a> {
    input: &'a [u8],
    remaining: usize,
}

/// The additional ranges of an ACK frame.
pub type Ranges<'a> = AckRanges<'a>;

impl<'a> View for AckRanges<'a> {
    type V = Seq<(VarInt, VarInt)>;

    closed spec fn view(&self) -> Seq<(VarInt, VarInt)> {
        pairs_at(self.input@, 0, self.remaining as nat)
    }
}

impl<'a> AckRanges<'a> {
    /// The number of pairs that the frame announced and that were not taken.
    pub closed spec fn announced(&self) -> nat {
        self.remaining as nat
    }

    pub(crate) fn new(input: &'a [u8], remaining: usize) -> (result: Self)
        ensures
            result@ == pairs_at(input@, 0, remaining as nat),
            result.announced() == remaining,
    {
        AckRanges { input, remaining }
    }

    /// Takes the next pair.
    pub fn next(&mut self) -> (result: Option<(VarInt, VarInt)>)
        ensures
            match result {
                Some(pair) => {
                    &&& old(self)@.len() > 0
                    &&& pair == old(self)@[0]
                    &&& final(self)@ == old(self)@.subrange(1, old(self)@.len() as int)
                    &&& final(self).announced() == old(self).announced() - 1
                },
                None => {
                    &&& old(self)@.len() == 0
                    &&& final(self)@.len() == 0
                    &&& final(self).announced() == 0
                },
            },
    {
        broadcast use crate::varint::lemma_view_of;

        if self.remaining == 0 {
            return None;
        }
        let whole = self.input;
        assert(whole@.subrange(0, whole@.len() as int) =~= whole@);
        let (gap, gap_len) = match VarInt::decode(whole) {
            Ok(found) => found,
            Err(_) => {
                self.remaining = 0;
                return None;
            },
        };
        let input = vstd::slice::slice_subrange(whole, gap_len, whole.len());
        let (range, range_len) = match VarInt::decode(input) {
            Ok(found) => found,
            Err(_) => {
                self.remaining = 0;
                return None;
            },
        };
        let rest = vstd::slice::slice_subrange(input, range_len, input.len());
        proof {
            let at = gap_len as int + range_len as int;
            assert(rest@ =~= whole@.subrange(at, whole@.len() as int));
            lemma_pairs_shift(whole@, at, 0, (self.remaining - 1) as nat);
            assert(rest@.subrange(0, rest@.len() as int) =~= rest@);
            let tail = pairs_at(rest@, 0, (self.remaining - 1) as nat);
            assert(self@ =~= seq![(gap, range)] + tail);
            assert((seq![(gap, range)] + tail).subrange(1, self@.len() as int) =~= tail);
        }
        self.input = rest;
        self.remaining = self.remaining - 1;
        Some((gap, range))
    }

    /// The pairs that are still to come, as owned values.
    pub fn to_vec(self) -> (result: Vec<(VarInt, VarInt)>)
        ensures
            result@ == self@,
    {
        let mut iter = self;
        let mut out: Vec<(VarInt, VarInt)> = Vec::new();
        loop
            invariant
                self@ == out@ + iter@,
            ensures
                self@ == out@,
            decreases iter.announced(),
        {
            let ghost before = iter@;
            let ghost had = out@;
            match iter.next() {
                Some(pair) => {
                    out.push(pair);
                    assert(had + before =~= out@ + iter@);
                },
                None => {
                    assert(had + before =~= had);
                    break;
                },
            }
        }
        out
    }
}

/// Reading pairs from the rest of an input is reading them further on in it.
pub proof fn lemma_pairs_shift(input: Seq<u8>, base: int, at: int, count: nat)
    requires
        0 <= base,
        0 <= at,
        base + at <= input.len(),
    ensures
        pairs_at(input.subrange(base, input.len() as int), at, count) == pairs_at(
            input,
            base + at,
            count,
        ),
    decreases count,
{
    let rest = input.subrange(base, input.len() as int);
    if count > 0 {
        assert(rest.subrange(at, rest.len() as int) =~= input.subrange(
            base + at,
            input.len() as int,
        ));
        lemma_int_at_bounds(rest, at);
        if let Some((_, a1)) = int_at(rest, at) {
            lemma_int_at_bounds(rest, a1);
            assert(rest.subrange(a1, rest.len() as int) =~= input.subrange(
                base + a1,
                input.len() as int,
            ));
            if let Some((_, a2)) = int_at(rest, a1) {
                lemma_pairs_shift(input, base, a2, (count - 1) as nat);
            }
        }
    }
}

/// The pairs of an ACK frame are read in the order in which they were written.
pub proof fn law_pairs_in_order(ranges: Seq<(VarInt, VarInt)>, front: Seq<u8>, rest: Seq<u8>)
    requires
        forall|i: int|
            0 <= i < ranges.len() ==> (#[trigger] ranges[i]).0@ <= MAX_VARINT && ranges[i].1@
                <= MAX_VARINT,
    ensures
        pairs_at(front + range_bytes(ranges) + rest, front.len() as int, ranges.len())
            == ranges,
    decreases ranges.len(),
{
    broadcast use {crate::varint::lemma_of_view, crate::varint::lemma_view_of};

    let s = front + range_bytes(ranges) + rest;
    let at = front.len() as int;
    if ranges.len() > 0 {
        lemma_range_front(ranges);
        let tail = ranges.subrange(1, ranges.len() as int);
        let gap = varint_bytes(ranges[0].0@);
        let len = varint_bytes(ranges[0].1@);
        let behind = range_bytes(tail) + rest;
        law_varint_round_trip(ranges[0].0@, len + behind);
        law_varint_round_trip(ranges[0].1@, behind);
        assert(s.subrange(at, s.len() as int) =~= gap + (len + behind));
        assert(s.subrange(at + gap.len(), s.len() as int) =~= len + behind);
        assert(s =~= front + gap + len + range_bytes(tail) + rest);
        assert forall|i: int| 0 <= i < tail.len() implies (#[trigger] tail[i]).0@ <= MAX_VARINT
            && tail[i].1@ <= MAX_VARINT by {
            assert(tail[i] == ranges[i + 1]);
        }
        law_pairs_in_order(tail, front + gap + len, rest);
        assert(seq![ranges[0]] + tail =~= ranges);
    } else {
        assert(ranges =~= seq![]);
    }
}

} // verus!
