//! Reassembly of stream bytes that arrive out of order.
use std::collections::VecDeque;

use vstd::prelude::*;

verus! {

/// How many separate ranges a stream keeps.
pub const MAX_RANGES: usize = 256;

/// Why bytes were not taken.
#[derive(Debug, Clone, Copy, PartialEq, Eq, Structural)]
pub enum InsertError {
    BufferFull,
    TooManyRanges,
    OffsetOverflow,
}

/// How much may be kept.
#[derive(Clone, Copy)]
pub struct InsertLimits {
    pub max_bytes: usize,
    pub max_ranges: usize,
}

impl InsertLimits {
    pub fn new(max_bytes: usize, max_ranges: usize) -> (limits: InsertLimits)
        ensures
            limits.max_bytes == max_bytes,
            limits.max_ranges == max_ranges,
    {
        InsertLimits { max_bytes, max_ranges }
    }
}

/// Ranges that are not empty, in order, none of them overlapping another.
pub open spec fn in_order(spans: Seq<(int, int)>) -> bool {
    &&& forall|i: int| 0 <= i < spans.len() ==> (#[trigger] spans[i]).0 < spans[i].1
    &&& forall|i: int, j: int|
        0 <= i < j < spans.len() ==> (#[trigger] spans[i]).1 <= (#[trigger] spans[j]).0
}

/// Whether an offset is in one of the ranges.
pub open spec fn covered(spans: Seq<(int, int)>, x: int) -> bool {
    exists|i: int| 0 <= i < spans.len() && (#[trigger] spans[i]).0 <= x < spans[i].1
}

/// Whether ranges are those, old and new, that begin at an offset or after it.
pub open spec fn left_from(
    spans: Seq<(int, int)>,
    parts: Seq<(int, int)>,
    next: int,
    rest: Seq<(int, int)>,
) -> bool {
    forall|range: (int, int)| #[trigger]
        rest.contains(range) == ((spans.contains(range) || parts.contains(range)) && range.0
            >= next)
}

/// The greater of two numbers.
pub open spec fn greater(a: int, b: int) -> int {
    if a >= b {
        a
    } else {
        b
    }
}

/// The ranges from `cursor` to `end` that are not among these.
pub open spec fn missing(spans: Seq<(int, int)>, cursor: int, end: int) -> Seq<(int, int)>
    decreases spans.len(),
{
    if cursor >= end {
        Seq::empty()
    } else if spans.len() == 0 || spans[0].0 >= end {
        seq![(cursor, end)]
    } else {
        let rest = missing(
            spans.subrange(1, spans.len() as int),
            greater(cursor, spans[0].1),
            end,
        );
        if spans[0].0 > cursor {
            seq![(cursor, spans[0].0)] + rest
        } else {
            rest
        }
    }
}

/// The total length of ranges.
pub open spec fn measure(spans: Seq<(int, int)>) -> int
    decreases spans.len(),
{
    if spans.len() == 0 {
        0
    } else {
        measure(spans.drop_last()) + (spans.last().1 - spans.last().0)
    }
}

/// The missing ranges are in order, and hold exactly what is not covered.
pub proof fn lemma_missing(spans: Seq<(int, int)>, cursor: int, end: int)
    requires
        in_order(spans),
    ensures
        in_order(missing(spans, cursor, end)),
        forall|i: int|
            0 <= i < missing(spans, cursor, end).len() ==> cursor <= (#[trigger] missing(
                spans,
                cursor,
                end,
            )[i]).0 && missing(spans, cursor, end)[i].1 <= end,
        forall|x: int| #[trigger]
            covered(missing(spans, cursor, end), x) == (cursor <= x < end && !covered(spans, x)),
    decreases spans.len(),
{
    let found = missing(spans, cursor, end);
    if cursor >= end {
        assert forall|x: int| #[trigger] covered(found, x) == (cursor <= x < end && !covered(
            spans,
            x,
        )) by {}
    } else if spans.len() == 0 || spans[0].0 >= end {
        assert forall|x: int| #[trigger] covered(found, x) == (cursor <= x < end && !covered(
            spans,
            x,
        )) by {
            if cursor <= x < end {
                assert(found[0].0 <= x < found[0].1);
                if covered(spans, x) {
                    let i = choose|i: int|
                        0 <= i < spans.len() && (#[trigger] spans[i]).0 <= x < spans[i].1;
                    assert(i == 0 || spans[0].1 <= spans[i].0);
                }
            }
        }
    } else {
        let tail = spans.subrange(1, spans.len() as int);
        let from = greater(cursor, spans[0].1);
        let rest = missing(tail, from, end);
        assert forall|i: int| 0 <= i < tail.len() implies (#[trigger] tail[i]).0 < tail[i].1 by {
            assert(tail[i] == spans[i + 1]);
        }
        assert forall|i: int, j: int| 0 <= i < j < tail.len() implies (#[trigger] tail[i]).1 <= (
        #[trigger] tail[j]).0 by {
            assert(tail[i] == spans[i + 1] && tail[j] == spans[j + 1]);
        }
        lemma_missing(tail, from, end);
        let head = if spans[0].0 > cursor {
            seq![(cursor, spans[0].0)]
        } else {
            Seq::<(int, int)>::empty()
        };
        assert(found =~= head + rest);
        let n = head.len() as int;
        assert forall|i: int| 0 <= i < found.len() implies {
            &&& (#[trigger] found[i]).0 < found[i].1
            &&& cursor <= found[i].0
            &&& found[i].1 <= end
        } by {
            if i >= n {
                assert(found[i] == rest[i - n]);
            }
        }
        assert forall|i: int, j: int| 0 <= i < j < found.len() implies (#[trigger] found[i]).1 <= (
        #[trigger] found[j]).0 by {
            assert(found[j] == rest[j - n]);
            if i >= n {
                assert(found[i] == rest[i - n]);
            }
        }
        assert forall|x: int| #[trigger] covered(found, x) == (cursor <= x < end && !covered(
            spans,
            x,
        )) by {
            assert(covered(rest, x) == (from <= x < end && !covered(tail, x)));
            if covered(found, x) {
                let i = choose|i: int|
                    0 <= i < found.len() && (#[trigger] found[i]).0 <= x < found[i].1;
                if i >= n {
                    assert(found[i] == rest[i - n]);
                    assert(covered(rest, x));
                    if covered(spans, x) {
                        let k = choose|k: int|
                            0 <= k < spans.len() && (#[trigger] spans[k]).0 <= x < spans[k].1;
                        if k > 0 {
                            assert(tail[k - 1] == spans[k]);
                        }
                    }
                } else if covered(spans, x) {
                    let k = choose|k: int|
                        0 <= k < spans.len() && (#[trigger] spans[k]).0 <= x < spans[k].1;
                    assert(k == 0 || spans[0].1 <= spans[k].0);
                }
            }
            if cursor <= x < end && !covered(spans, x) {
                if covered(tail, x) {
                    let k = choose|k: int|
                        0 <= k < tail.len() && (#[trigger] tail[k]).0 <= x < tail[k].1;
                    assert(spans[k + 1] == tail[k]);
                }
                if x >= from {
                    assert(covered(rest, x));
                    let i = choose|i: int|
                        0 <= i < rest.len() && (#[trigger] rest[i]).0 <= x < rest[i].1;
                    assert(found[i + n] == rest[i]);
                } else {
                    assert(!(spans[0].0 <= x < spans[0].1));
                    assert(found[0].0 <= x < found[0].1);
                }
            }
        }
    }
}

/// A pair of machine numbers as a range.
pub open spec fn span(pair: (u64, u64)) -> (int, int) {
    (pair.0 as int, pair.1 as int)
}

/// Pairs of machine numbers as ranges.
pub open spec fn spans_of(pairs: Seq<(u64, u64)>) -> Seq<(int, int)> {
    pairs.map_values(|pair: (u64, u64)| span(pair))
}

/// Finds the ranges from `from` to `end` that are not among these, unless
/// there are too many.
pub fn collect_missing(segments: &Vec<(u64, u64)>, from: u64, end: u64, part_capacity: usize) -> (
    result: Result<Vec<(u64, u64)>, InsertError>)
    requires
        in_order(spans_of(segments@)),
    ensures
        ({
            let wanted = missing(spans_of(segments@), from as int, end as int);
            match result {
                Ok(parts) => spans_of(parts@) == wanted && wanted.len() <= part_capacity,
                Err(error) => error == InsertError::TooManyRanges && wanted.len() > part_capacity,
            }
        }),
{
    let ghost spans = spans_of(segments@);
    let ghost wanted = missing(spans, from as int, end as int);
    let mut parts: Vec<(u64, u64)> = Vec::new();
    let mut cursor: u64 = from;
    let mut i: usize = 0;
    proof {
        assert(spans.subrange(0, spans.len() as int) =~= spans);
        assert(spans_of(parts@) + wanted =~= wanted);
    }
    while i < segments.len() && cursor < end && segments[i].0 < end
        invariant
            i <= segments@.len(),
            spans == spans_of(segments@),
            in_order(spans),
            parts@.len() <= part_capacity,
            wanted == missing(spans, from as int, end as int),
            wanted == spans_of(parts@) + missing(
                spans.subrange(i as int, spans.len() as int),
                cursor as int,
                end as int,
            ),
        decreases segments@.len() - i,
    {
        let segment = segments[i];
        let ghost left = spans.subrange(i as int, spans.len() as int);
        proof {
            assert(left[0] == span(segment));
            assert(left.subrange(1, left.len() as int) =~= spans.subrange(
                i + 1,
                spans.len() as int,
            ));
        }
        let ghost before = parts@;
        if segment.0 > cursor {
            if parts.len() == part_capacity {
                return Err(InsertError::TooManyRanges);
            }
            parts.push((cursor, segment.0));
            assert(spans_of(parts@) =~= spans_of(before).push((cursor as int, segment.0 as int)));
        }
        if segment.1 > cursor {
            cursor = segment.1;
        }
        i = i + 1;
        assert(wanted =~= spans_of(parts@) + missing(
            spans.subrange(i as int, spans.len() as int),
            cursor as int,
            end as int,
        ));
    }
    let ghost left = spans.subrange(i as int, spans.len() as int);
    if cursor < end {
        proof {
            if i < segments@.len() {
                assert(left[0] == span(segments@[i as int]));
            }
            assert(missing(left, cursor as int, end as int) == seq![(cursor as int, end as int)]);
        }
        if parts.len() == part_capacity {
            return Err(InsertError::TooManyRanges);
        }
        let ghost before = parts@;
        parts.push((cursor, end));
        assert(spans_of(parts@) =~= spans_of(before).push((cursor as int, end as int)));
        assert(wanted =~= spans_of(parts@));
    } else {
        assert(wanted =~= spans_of(parts@));
    }
    Ok(parts)
}

/// Bytes that wait for those before them.
pub struct Segment {
    pub start: u64,
    pub bytes: Vec<u8>,
}

impl Segment {
    pub open spec fn span(self) -> (int, int) {
        (self.start as int, self.start + self.bytes@.len())
    }
}

/// The ranges of segments.
pub open spec fn ranges_of(segments: Seq<Segment>) -> Seq<(int, int)> {
    segments.map_values(|segment: Segment| segment.span())
}

/// Whether a byte is at an offset of one of the segments.
pub open spec fn has(segments: Seq<Segment>, x: int, byte: u8) -> bool {
    exists|i: int|
        0 <= i < segments.len() && (#[trigger] segments[i]).start <= x < segments[i].start
            + segments[i].bytes@.len() && segments[i].bytes@[x - segments[i].start] == byte
}

/// The bytes of segments, by offset.
pub open spec fn held_in(segments: Seq<Segment>) -> Map<int, u8> {
    Map::new(
        |x: int| covered(ranges_of(segments), x),
        |x: int| choose|byte: u8| has(segments, x, byte),
    )
}

/// What a stream has received and not delivered.
#[verifier::ext_equal]
pub struct StoreModel {
    /// The offset of the next byte to deliver.
    pub next: int,
    /// The bytes after it that are here.
    pub held: Map<int, u8>,
    /// The ranges in which they came.
    pub spans: Seq<(int, int)>,
}

/// The budget of ranges that the streams of a connection share.
pub struct Arena {
    live: usize,
    limit: usize,
}

impl Arena {
    pub closed spec fn live(self) -> int {
        self.live as int
    }

    pub closed spec fn limit(self) -> int {
        self.limit as int
    }

    #[verifier::type_invariant]
    spec fn bounded(self) -> bool {
        self.live <= self.limit
    }

    pub fn with_capacity(capacity: usize) -> (arena: Arena)
        ensures
            arena.live() == 0,
            arena.limit() == capacity,
    {
        Arena { live: 0, limit: capacity }
    }

    pub fn remaining_capacity(&self) -> (remaining: usize)
        ensures
            remaining == self.limit() - self.live(),
    {
        proof {
            use_type_invariant(self);
        }
        self.limit - self.live
    }

    /// Takes so many ranges from the budget.
    fn allocate(&mut self, count: usize)
        requires
            old(self).live() + count <= old(self).limit(),
        ensures
            final(self).live() == old(self).live() + count,
            final(self).limit() == old(self).limit(),
    {
        self.live = self.live + count;
    }

    /// Gives so many ranges back.
    fn release(&mut self, count: usize)
        requires
            count <= old(self).live(),
        ensures
            final(self).live() == old(self).live() - count,
            final(self).limit() == old(self).limit(),
    {
        proof {
            use_type_invariant(&*self);
        }
        self.live = self.live - count;
    }
}

/// What a stream has received and not delivered.
pub struct Store {
    next: u64,
    buffered: usize,
    segments: Vec<Segment>,
}

impl View for Store {
    type V = StoreModel;

    closed spec fn view(&self) -> StoreModel {
        StoreModel {
            next: self.next as int,
            held: held_in(self.segments@),
            spans: ranges_of(self.segments@),
        }
    }
}

impl StoreModel {
    /// The ranges of new bytes that are not here yet.
    pub open spec fn wanted(self, offset: int, len: int) -> Seq<(int, int)> {
        missing(self.spans, greater(offset, self.next), offset + len)
    }

    /// Whether new bytes go on where the delivered ones end, and overlap
    /// nothing that is here.
    pub open spec fn continues(self, offset: int, len: int) -> bool {
        &&& offset <= self.next < offset + len
        &&& forall|i: int|
            0 <= i < self.spans.len() ==> !(self.next <= (#[trigger] self.spans[i]).0 < offset
                + len)
    }

    /// The bytes that are here once new ones were taken: what was here stays.
    pub open spec fn taken(self, offset: int, data: Seq<u8>) -> Map<int, u8> {
        Map::new(
            |x: int|
                self.held.dom().contains(x) || greater(offset, self.next) <= x < offset
                    + data.len(),
            |x: int|
                if self.held.dom().contains(x) {
                    self.held[x]
                } else {
                    data[x - offset]
                },
        )
    }

    /// Why new bytes are not taken, if they are not. Bytes that can be
    /// delivered at once are not limited.
    pub open spec fn refusal(
        self,
        offset: int,
        len: int,
        limits: InsertLimits,
        remaining: int,
    ) -> Option<InsertError> {
        let parts = self.wanted(offset, len);
        if offset + len > u64::MAX {
            Some(InsertError::OffsetOverflow)
        } else if parts.len() > remaining || (parts.len() > 0 && self.spans.len() + parts.len()
            > limits.max_ranges) {
            Some(InsertError::TooManyRanges)
        } else if parts.len() > 0 && measure(self.spans) + measure(parts) > limits.max_bytes {
            Some(InsertError::BufferFull)
        } else {
            None
        }
    }

    /// Whether bytes are delivered up to an offset: all of them are here, and
    /// the one after is not.
    pub open spec fn delivers(bytes: Map<int, u8>, from: int, to: int) -> bool {
        &&& from <= to
        &&& forall|x: int| from <= x < to ==> #[trigger] bytes.dom().contains(x)
        &&& !bytes.dom().contains(to)
    }

    /// Nothing is here that was delivered; ranges are in order and hold what is
    /// here.
    pub open spec fn sound(self) -> bool {
        &&& 0 <= self.next <= u64::MAX
        &&& in_order(self.spans)
        &&& forall|i: int|
            0 <= i < self.spans.len() ==> self.next <= (#[trigger] self.spans[i]).0
                && self.spans[i].1 <= u64::MAX
        &&& forall|x: int| #[trigger] self.held.dom().contains(x) == covered(self.spans, x)
    }
}

/// Where ranges are in order, a byte of the segments is what is held there.
proof fn lemma_held(segments: Seq<Segment>, i: int, x: int)
    requires
        in_order(ranges_of(segments)),
        0 <= i < segments.len(),
        segments[i].start <= x < segments[i].start + segments[i].bytes@.len(),
    ensures
        held_in(segments).dom().contains(x),
        held_in(segments)[x] == segments[i].bytes@[x - segments[i].start],
{
    let spans = ranges_of(segments);
    let byte = segments[i].bytes@[x - segments[i].start];
    assert(spans[i] == segments[i].span());
    assert(covered(spans, x));
    assert(has(segments, x, byte));
    let other = held_in(segments)[x];
    assert(has(segments, x, other));
    let j = choose|j: int|
        0 <= j < segments.len() && (#[trigger] segments[j]).start <= x < segments[j].start
            + segments[j].bytes@.len() && segments[j].bytes@[x - segments[j].start] == other;
    assert(spans[j] == segments[j].span());
    assert(i == j);
}

/// What one more segment adds.
proof fn lemma_inserted(segments: Seq<Segment>, at: int, segment: Segment)
    requires
        in_order(ranges_of(segments)),
        0 <= at <= segments.len(),
        segment.bytes@.len() > 0,
        forall|i: int| 0 <= i < at ==> (#[trigger] segments[i]).start < segment.start,
        forall|i: int| at <= i < segments.len() ==> (#[trigger] segments[i]).start >= segment.start,
        forall|x: int|
            segment.span().0 <= x < segment.span().1 ==> !#[trigger] covered(
                ranges_of(segments),
                x,
            ),
    ensures
        ({
            let more = segments.insert(at, segment);
            &&& in_order(ranges_of(more))
            &&& forall|x: int| #[trigger]
                held_in(more).dom().contains(x) == (held_in(segments).dom().contains(x)
                    || segment.span().0 <= x < segment.span().1)
            &&& forall|x: int| #[trigger]
                held_in(more).dom().contains(x) ==> held_in(more)[x] == if segment.span().0 <= x
                    < segment.span().1 {
                    segment.bytes@[x - segment.start]
                } else {
                    held_in(segments)[x]
                }
        }),
{
    let spans = ranges_of(segments);
    let more = segments.insert(at, segment);
    let longer = ranges_of(more);
    let lo = segment.span().0;
    let hi = segment.span().1;
    assert forall|i: int| 0 <= i < segments.len() implies #[trigger] spans[i]
        == segments[i].span() by {}
    assert forall|i: int| 0 <= i < more.len() implies #[trigger] longer[i] == if i < at {
        spans[i]
    } else if i == at {
        segment.span()
    } else {
        spans[i - 1]
    } by {}
    assert forall|i: int| 0 <= i < at implies (#[trigger] spans[i]).1 <= lo by {
        assert(segments[i].start < segment.start);
        assert(!covered(spans, lo));
        if spans[i].1 > lo {
            assert(spans[i].0 <= lo < spans[i].1);
        }
    }
    assert forall|i: int| at <= i < spans.len() implies hi <= (#[trigger] spans[i]).0 by {
        assert(segments[i].start >= segment.start);
        if spans[i].0 < hi {
            assert(spans[i].0 <= spans[i].0 < spans[i].1);
            assert(covered(spans, spans[i].0));
        }
    }
    assert(in_order(longer)) by {
        assert forall|i: int, j: int| 0 <= i < j < longer.len() implies (#[trigger] longer[i]).1
            <= (#[trigger] longer[j]).0 by {
            if i < at && j > at {
                assert(spans[i].1 <= spans[j - 1].0);
            }
        }
    }
    assert forall|x: int| #[trigger]
        held_in(more).dom().contains(x) == (held_in(segments).dom().contains(x) || lo <= x
            < hi) by {
        if covered(longer, x) {
            let i = choose|i: int| 0 <= i < longer.len() && (#[trigger] longer[i]).0 <= x
                < longer[i].1;
            if i < at {
                assert(spans[i].0 <= x < spans[i].1);
            } else if i > at {
                assert(spans[i - 1].0 <= x < spans[i - 1].1);
            }
        }
        if covered(spans, x) {
            let i = choose|i: int| 0 <= i < spans.len() && (#[trigger] spans[i]).0 <= x
                < spans[i].1;
            if i < at {
                assert(longer[i].0 <= x < longer[i].1);
            } else {
                assert(longer[i + 1].0 <= x < longer[i + 1].1);
            }
        }
        if lo <= x < hi {
            assert(longer[at].0 <= x < longer[at].1);
        }
    }
    assert forall|x: int| #[trigger]
        held_in(more).dom().contains(x) implies held_in(more)[x] == if lo <= x < hi {
        segment.bytes@[x - segment.start]
    } else {
        held_in(segments)[x]
    } by {
        if lo <= x < hi {
            assert(more[at] == segment);
            lemma_held(more, at, x);
        } else {
            assert(covered(spans, x));
            let i = choose|i: int| 0 <= i < spans.len() && (#[trigger] spans[i]).0 <= x
                < spans[i].1;
            lemma_held(segments, i, x);
            if i < at {
                assert(more[i] == segments[i]);
                lemma_held(more, i, x);
            } else {
                assert(more[i + 1] == segments[i]);
                lemma_held(more, i + 1, x);
            }
        }
    }
}

/// What is left without the first segment.
proof fn lemma_shifted(segments: Seq<Segment>)
    requires
        in_order(ranges_of(segments)),
        segments.len() > 0,
    ensures
        ({
            let rest = segments.subrange(1, segments.len() as int);
            &&& in_order(ranges_of(rest))
            &&& ranges_of(rest) == ranges_of(segments).subrange(1, segments.len() as int)
            &&& forall|x: int| #[trigger]
                held_in(rest).dom().contains(x) == (held_in(segments).dom().contains(x) && !(
                segments[0].span().0 <= x < segments[0].span().1))
            &&& forall|x: int| #[trigger]
                held_in(rest).dom().contains(x) ==> held_in(rest)[x] == held_in(segments)[x]
        }),
{
    let spans = ranges_of(segments);
    let rest = segments.subrange(1, segments.len() as int);
    let fewer = ranges_of(rest);
    assert(fewer =~= spans.subrange(1, spans.len() as int));
    assert forall|i: int| 0 <= i < fewer.len() implies #[trigger] fewer[i] == spans[i + 1] by {}
    assert(spans[0] == segments[0].span());
    assert(in_order(fewer));
    assert forall|x: int| #[trigger]
        held_in(rest).dom().contains(x) == (held_in(segments).dom().contains(x) && !(
        spans[0].0 <= x < spans[0].1)) by {
        if covered(fewer, x) {
            let i = choose|i: int| 0 <= i < fewer.len() && (#[trigger] fewer[i]).0 <= x
                < fewer[i].1;
            assert(spans[i + 1].0 <= x < spans[i + 1].1);
            assert(spans[0].1 <= spans[i + 1].0);
        }
        if covered(spans, x) {
            let i = choose|i: int| 0 <= i < spans.len() && (#[trigger] spans[i]).0 <= x
                < spans[i].1;
            if i > 0 {
                assert(fewer[i - 1].0 <= x < fewer[i - 1].1);
            }
        }
    }
    assert forall|x: int| #[trigger] held_in(rest).dom().contains(x) implies held_in(rest)[x]
        == held_in(segments)[x] by {
        let i = choose|i: int| 0 <= i < fewer.len() && (#[trigger] fewer[i]).0 <= x < fewer[i].1;
        assert(rest[i] == segments[i + 1]);
        lemma_held(rest, i, x);
        lemma_held(segments, i + 1, x);
    }
}

/// The total length with one range more.
proof fn lemma_measure_insert(spans: Seq<(int, int)>, at: int, range: (int, int))
    requires
        0 <= at <= spans.len(),
    ensures
        measure(spans.insert(at, range)) == measure(spans) + (range.1 - range.0),
    decreases spans.len(),
{
    let more = spans.insert(at, range);
    if at == spans.len() {
        assert(more.drop_last() =~= spans);
    } else {
        lemma_measure_insert(spans.drop_last(), at, range);
        assert(more.drop_last() =~= spans.drop_last().insert(at, range));
        assert(more.last() == spans.last());
    }
}

/// The total length with one range more in front.
proof fn lemma_measure_first(spans: Seq<(int, int)>)
    requires
        spans.len() > 0,
    ensures
        measure(spans) == measure(spans.subrange(1, spans.len() as int)) + (spans[0].1
            - spans[0].0),
{
    let rest = spans.subrange(1, spans.len() as int);
    lemma_measure_insert(rest, 0, spans[0]);
    assert(rest.insert(0, spans[0]) =~= spans);
}

/// Ranges that are not empty have a length.
proof fn lemma_measure_nonnegative(spans: Seq<(int, int)>)
    requires
        forall|i: int| 0 <= i < spans.len() ==> (#[trigger] spans[i]).0 < spans[i].1,
    ensures
        0 <= measure(spans),
    decreases spans.len(),
{
    if spans.len() > 0 {
        assert forall|i: int| 0 <= i < spans.drop_last().len() implies (
        #[trigger] spans.drop_last()[i]).0 < spans.drop_last()[i].1 by {
            assert(spans.drop_last()[i] == spans[i]);
        }
        lemma_measure_nonnegative(spans.drop_last());
        assert(spans.last() == spans[spans.len() - 1]);
    }
}

/// Ranges in order within bounds are no longer than the bounds.
proof fn lemma_measure_bound(spans: Seq<(int, int)>, from: int, to: int)
    requires
        in_order(spans),
        from <= to,
        forall|i: int|
            0 <= i < spans.len() ==> from <= (#[trigger] spans[i]).0 && spans[i].1 <= to,
    ensures
        0 <= measure(spans) <= to - from,
    decreases spans.len(),
{
    if spans.len() > 0 {
        let fewer = spans.drop_last();
        assert forall|i: int| 0 <= i < fewer.len() implies from <= (#[trigger] fewer[i]).0
            && fewer[i].1 <= spans.last().0 by {
            assert(fewer[i] == spans[i]);
        }
        assert(in_order(fewer)) by {
            assert forall|i: int| 0 <= i < fewer.len() implies (#[trigger] fewer[i]).0
                < fewer[i].1 by {
                assert(fewer[i] == spans[i]);
            }
            assert forall|i: int, j: int| 0 <= i < j < fewer.len() implies (
            #[trigger] fewer[i]).1 <= (#[trigger] fewer[j]).0 by {
                assert(fewer[i] == spans[i] && fewer[j] == spans[j]);
            }
        }
        lemma_measure_bound(fewer, from, spans.last().0);
    }
}

impl Default for Store {
    fn default() -> (store: Store)
        ensures
            store.wf(),
            store@.next == 0,
            store@.spans.len() == 0,
            store@.held == Map::<int, u8>::empty(),
    {
        let store = Store { next: 0, buffered: 0, segments: Vec::new() };
        assert(store@.held =~= Map::empty());
        assert(store@.spans =~= Seq::empty());
        store
    }
}

impl Store {
    pub closed spec fn wf(&self) -> bool {
        &&& self@.sound()
        &&& self.buffered == measure(self@.spans)
    }

    /// What holds of every store.
    pub proof fn lemma_wf(&self)
        requires
            self.wf(),
        ensures
            self@.sound(),
    {
    }

    /// How many separate ranges wait.
    pub fn range_count(&self) -> (count: usize)
        ensures
            count == self@.spans.len(),
    {
        self.segments.len()
    }

    /// The offset of the next byte to deliver.
    pub fn next(&self) -> (next: u64)
        ensures
            next == self@.next,
    {
        self.next
    }

    /// Forgets everything.
    pub fn recycle(&mut self, arena: &mut Arena)
        requires
            old(self).wf(),
            old(self)@.spans.len() <= old(arena).live(),
        ensures
            final(self).wf(),
            final(self)@.next == 0,
            final(self)@.spans.len() == 0,
            final(self)@.held == Map::<int, u8>::empty(),
            final(arena).live() == old(arena).live() - old(self)@.spans.len(),
            final(arena).limit() == old(arena).limit(),
    {
        arena.release(self.segments.len());
        *self = Store::default();
    }

    /// A plan that goes on from here.
    pub fn plan(&self) -> (plan: Plan)
        requires
            self.wf(),
            !self@.held.dom().contains(self@.next),
        ensures
            plan.wf(),
            plan@.next == self@.next,
            plan@.spans == self@.spans,
    {
        Plan { next: self.next, segments: self.spans() }
    }

    /// The ranges that wait.
    fn spans(&self) -> (spans: Vec<(u64, u64)>)
        requires
            self.wf(),
        ensures
            spans_of(spans@) == self@.spans,
    {
        let mut spans: Vec<(u64, u64)> = Vec::new();
        let mut i: usize = 0;
        while i < self.segments.len()
            invariant
                self.wf(),
                i <= self.segments@.len(),
                spans_of(spans@) =~= self@.spans.subrange(0, i as int),
            decreases self.segments@.len() - i,
        {
            let segment = &self.segments[i];
            assert(self@.spans[i as int] == segment.span());
            let end: u64 = segment.start + segment.bytes.len() as u64;
            let ghost before = spans@;
            spans.push((segment.start, end));
            assert(spans_of(spans@) =~= spans_of(before).push(segment.span()));
            i = i + 1;
        }
        assert(self@.spans.subrange(0, i as int) =~= self@.spans);
        spans
    }

    /// Whether a range that waits starts within bounds.
    fn has_start_in(&self, start: u64, end: u64) -> (found: bool)
        requires
            self.wf(),
        ensures
            found == exists|i: int|
                0 <= i < self@.spans.len() && start <= (#[trigger] self@.spans[i]).0 < end,
    {
        let mut i: usize = 0;
        while i < self.segments.len()
            invariant
                self.wf(),
                i <= self.segments@.len(),
                forall|j: int| 0 <= j < i ==> (#[trigger] self@.spans[j]).0 < start,
            decreases self.segments@.len() - i,
        {
            let from: u64 = self.segments[i].start;
            assert(self@.spans[i as int].0 == from);
            if from >= end {
                assert forall|j: int| 0 <= j < self@.spans.len() implies !(start <= (
                #[trigger] self@.spans[j]).0 < end) by {
                    if j > i {
                        assert(self@.spans[i as int].1 <= self@.spans[j].0);
                    }
                }
                return false;
            }
            if from >= start {
                return true;
            }
            i = i + 1;
        }
        false
    }

    /// Puts bytes in their place.
    fn insert_reserved(&mut self, start: u64, bytes: Vec<u8>)
        requires
            in_order(ranges_of(old(self).segments@)),
            bytes@.len() > 0,
            forall|x: int|
                start <= x < start + bytes@.len() ==> !#[trigger] covered(
                    ranges_of(old(self).segments@),
                    x,
                ),
        ensures
            final(self).next == old(self).next,
            final(self).buffered == old(self).buffered,
            in_order(ranges_of(final(self).segments@)),
            forall|x: int| #[trigger]
                final(self)@.held.dom().contains(x) == (old(self)@.held.dom().contains(x) || start
                    <= x < start + bytes@.len()),
            forall|x: int| #[trigger]
                final(self)@.held.dom().contains(x) ==> final(self)@.held[x] == if start <= x
                    < start + bytes@.len() {
                    bytes@[x - start]
                } else {
                    old(self)@.held[x]
                },
            measure(final(self)@.spans) == measure(old(self)@.spans) + bytes@.len(),
            final(self)@.spans.len() == old(self)@.spans.len() + 1,
            exists|at: int|
                0 <= at <= old(self)@.spans.len() && final(self)@.spans
                    == #[trigger] old(self)@.spans.insert(
                    at,
                    (start as int, start + bytes@.len()),
                ),
    {
        let ghost before = self.segments@;
        let mut at: usize = 0;
        while at < self.segments.len() && self.segments[at].start < start
            invariant
                at <= self.segments@.len(),
                forall|j: int| 0 <= j < at ==> (#[trigger] self.segments@[j]).start < start,
            decreases self.segments@.len() - at,
        {
            at = at + 1;
        }
        let segment = Segment { start, bytes };
        proof {
            assert forall|j: int| at <= j < before.len() implies (#[trigger] before[j]).start
                >= start by {
                assert(ranges_of(before)[j] == before[j].span());
                if j > at {
                    assert(ranges_of(before)[at as int] == before[at as int].span());
                    assert(ranges_of(before)[at as int].1 <= ranges_of(before)[j].0);
                }
            }
            lemma_inserted(before, at as int, segment);
            lemma_measure_insert(ranges_of(before), at as int, segment.span());
            assert(ranges_of(before.insert(at as int, segment)) =~= ranges_of(before).insert(
                at as int,
                segment.span(),
            ));
        }
        self.segments.insert(at, segment);
    }

    /// Takes bytes that wait for others, as far as they are not here.
    fn insert_copy(
        &mut self,
        offset: u64,
        data: &[u8],
        limits: InsertLimits,
        arena: &mut Arena,
    ) -> (result: Result<(), InsertError>)
        requires
            old(self).wf(),
        ensures
            final(self).wf(),
            final(arena).limit() == old(arena).limit(),
            match result {
                Ok(()) => {
                    let parts = old(self)@.wanted(offset as int, data@.len() as int);
                    &&& old(self)@.refusal(
                        offset as int,
                        data@.len() as int,
                        limits,
                        old(arena).limit() - old(arena).live(),
                    ) is None
                    &&& final(self)@.next == old(self)@.next
                    &&& final(self)@.held == old(self)@.taken(offset as int, data@)
                    &&& final(self)@.spans.len() == old(self)@.spans.len() + parts.len()
                    &&& forall|range: (int, int)| #[trigger]
                        final(self)@.spans.contains(range) == (old(self)@.spans.contains(range)
                            || parts.contains(range))
                    &&& final(arena).live() == old(arena).live() + parts.len()
                    &&& measure(final(self)@.spans) <= measure(old(self)@.spans) + data@.len()
                },
                Err(error) => {
                    &&& old(self)@.refusal(
                        offset as int,
                        data@.len() as int,
                        limits,
                        old(arena).limit() - old(arena).live(),
                    ) == Some(error)
                    &&& final(self)@ == old(self)@
                    &&& *final(arena) == *old(arena)
                },
            },
    {
        let ghost m = self@;
        let ghost parts_wanted = m.wanted(offset as int, data@.len() as int);
        let remaining: usize = arena.remaining_capacity();
        if data.len() as u64 > u64::MAX - offset {
            return Err(InsertError::OffsetOverflow);
        }
        let len: usize = data.len();
        let end: u64 = offset + len as u64;
        if data.len() == 0 || end <= self.next {
            assert(parts_wanted.len() == 0);
            assert(self@.held =~= m.taken(offset as int, data@));
            return Ok(());
        }
        let ranges: usize = self.segments.len();
        let spare: usize = limits.max_ranges.saturating_sub(ranges);
        let part_capacity: usize = if spare < remaining {
            spare
        } else {
            remaining
        };
        let spans = self.spans();
        let from: u64 = if offset >= self.next {
            offset
        } else {
            self.next
        };
        proof {
            lemma_missing(m.spans, from as int, end as int);
        }
        let parts = match collect_missing(&spans, from, end, part_capacity) {
            Ok(parts) => parts,
            Err(error) => {
                return Err(error);
            },
        };
        assert(spans_of(parts@) == parts_wanted);
        if parts.len() == 0 {
            proof {
                lemma_none_missing(m, offset as int, data@);
            }
            return Ok(());
        }
        proof {
            lemma_measure_bound(parts_wanted, from as int, end as int);
        }
        let added: usize = total_len(&parts, from, end);
        let buffered: usize = match self.buffered.checked_add(added) {
            Some(buffered) => buffered,
            None => {
                return Err(InsertError::BufferFull);
            },
        };
        if buffered > limits.max_bytes {
            return Err(InsertError::BufferFull);
        }
        arena.allocate(parts.len());
        let mut k: usize = 0;
        while k < parts.len()
            invariant
                k <= parts@.len(),
                m == old(self)@,
                m.sound(),
                spans_of(parts@) == parts_wanted,
                parts_wanted == missing(m.spans, from as int, end as int),
                in_order(parts_wanted),
                from == greater(offset as int, m.next),
                end == offset + data@.len(),
                data@.len() <= usize::MAX,
                forall|x: int| #[trigger]
                    covered(parts_wanted, x) == (from <= x < end && !covered(m.spans, x)),
                forall|j: int|
                    0 <= j < parts_wanted.len() ==> from <= (#[trigger] parts_wanted[j]).0
                        && parts_wanted[j].1 <= end,
                self.next == m.next,
                in_order(ranges_of(self.segments@)),
                forall|x: int| #[trigger]
                    self@.held.dom().contains(x) == (m.held.dom().contains(x) || covered(
                        parts_wanted.subrange(0, k as int),
                        x,
                    )),
                forall|x: int| #[trigger]
                    self@.held.dom().contains(x) ==> self@.held[x] == if m.held.dom().contains(x) {
                        m.held[x]
                    } else {
                        data@[x - offset]
                    },
                measure(self@.spans) == measure(m.spans) + measure(
                    parts_wanted.subrange(0, k as int),
                ),
                self@.spans.len() == m.spans.len() + k,
                forall|range: (int, int)| #[trigger]
                    self@.spans.contains(range) == (m.spans.contains(range)
                        || parts_wanted.subrange(0, k as int).contains(range)),
                forall|j: int|
                    0 <= j < self@.spans.len() ==> m.next <= (#[trigger] self@.spans[j]).0
                        && self@.spans[j].1 <= u64::MAX,
            decreases parts@.len() - k,
        {
            let part = parts[k];
            let ghost done = parts_wanted.subrange(0, k as int);
            let ghost range = parts_wanted[k as int];
            assert(range == span(part));
            assert(offset <= from <= range.0 < range.1 <= end);
            let piece = vstd::slice::slice_subrange(
                data,
                (part.0 - offset) as usize,
                (part.1 - offset) as usize,
            );
            let ghost now = self@;
            proof {
                assert forall|x: int| range.0 <= x < range.1 implies !#[trigger] covered(
                    ranges_of(self.segments@),
                    x,
                ) by {
                    assert(parts_wanted[k as int].0 <= x < parts_wanted[k as int].1);
                    assert(covered(parts_wanted, x));
                    if covered(done, x) {
                        let j = choose|j: int|
                            0 <= j < done.len() && (#[trigger] done[j]).0 <= x < done[j].1;
                        assert(done[j] == parts_wanted[j]);
                        assert(parts_wanted[j].1 <= parts_wanted[k as int].0);
                    }
                    assert(!self@.held.dom().contains(x));
                }
            }
            self.insert_reserved(part.0, vstd::slice::slice_to_vec(piece));
            proof {
                let more = parts_wanted.subrange(0, k + 1);
                assert(more =~= done.push(range));
                assert(more.drop_last() =~= done);
                assert forall|x: int| #[trigger]
                    self@.held.dom().contains(x) == (m.held.dom().contains(x) || covered(
                        more,
                        x,
                    )) by {
                    lemma_covered_push(done, range, x);
                }
                assert forall|x: int| #[trigger]
                    self@.held.dom().contains(x) implies self@.held[x]
                    == if m.held.dom().contains(x) {
                    m.held[x]
                } else {
                    data@[x - offset]
                } by {
                    if range.0 <= x < range.1 {
                        assert(covered(parts_wanted, x)) by {
                            assert(parts_wanted[k as int].0 <= x < parts_wanted[k as int].1);
                        }
                        assert(!m.held.dom().contains(x));
                    } else {
                        assert(now.held.dom().contains(x));
                    }
                }
                let at = choose|at: int|
                    0 <= at <= now.spans.len() && self@.spans == #[trigger] now.spans.insert(
                        at,
                        (part.0 as int, part.0 + piece@.len()),
                    );
                lemma_one_more(now.spans, at, range);
                lemma_one_more(done, done.len() as int, range);
                assert(done.insert(done.len() as int, range) =~= more);
                assert forall|j: int| 0 <= j < self@.spans.len() implies m.next <= (
                #[trigger] self@.spans[j]).0 && self@.spans[j].1 <= u64::MAX by {
                    if j < at {
                        assert(self@.spans[j] == now.spans[j]);
                    } else if j > at {
                        assert(self@.spans[j] == now.spans[j - 1]);
                    }
                }
            }
            k = k + 1;
        }
        self.buffered = buffered;
        proof {
            assert(parts_wanted.subrange(0, k as int) =~= parts_wanted);
            assert(self@.held =~= m.taken(offset as int, data@));
            assert forall|x: int| #[trigger] self@.held.dom().contains(x) == covered(
                self@.spans,
                x,
            ) by {}
        }
        Ok(())
    }

    /// Delivers what goes on where the delivered bytes end.
    fn drain_copy_into(&mut self, arena: &mut Arena, output: &mut Vec<u8>)
        requires
            old(self).wf(),
            old(self)@.spans.len() <= old(arena).live(),
        ensures
            final(self).wf(),
            final(arena).limit() == old(arena).limit(),
            final(arena).live() - final(self)@.spans.len() == old(arena).live()
                - old(self)@.spans.len(),
            StoreModel::delivers(old(self)@.held, old(self)@.next, final(self)@.next),
            final(output)@ == old(output)@ + stretch(
                old(self)@.held,
                old(self)@.next,
                final(self)@.next,
            ),
            final(self)@.held == beyond(old(self)@.held, final(self)@.next),
            is_suffix(final(self)@.spans, old(self)@.spans),
    {
        let ghost m = self@;
        let ghost mut gone: int = 0;
        proof {
            assert(stretch(m.held, m.next, m.next) =~= Seq::empty());
            assert(output@ =~= old(output)@ + stretch(m.held, m.next, m.next));
            assert(self@.held =~= beyond(m.held, m.next)) by {
                lemma_not_before(m);
            }
            assert(m.spans.subrange(0, m.spans.len() as int) =~= m.spans);
        }
        while self.segments.len() > 0 && self.segments[0].start <= self.next
            invariant
                self.wf(),
                m == old(self)@,
                m.sound(),
                m.next <= self@.next,
                0 <= gone <= m.spans.len(),
                self@.spans == m.spans.subrange(gone, m.spans.len() as int),
                arena.limit() == old(arena).limit(),
                arena.live() - self@.spans.len() == old(arena).live() - m.spans.len(),
                self@.spans.len() <= arena.live(),
                forall|x: int| m.next <= x < self@.next ==> #[trigger] m.held.dom().contains(x),
                output@ == old(output)@ + stretch(m.held, m.next, self@.next),
                self@.held == beyond(m.held, self@.next),
            decreases self.segments@.len(),
        {
            let ghost now = self@;
            let ghost segments = self.segments@;
            proof {
                lemma_shifted(segments);
                lemma_measure_first(now.spans);
                lemma_measure_nonnegative(now.spans.subrange(1, now.spans.len() as int));
                assert(now.spans[0] == segments[0].span());
            }
            let segment = self.segments.remove(0);
            assert(self.segments@ =~= segments.subrange(1, segments.len() as int));
            assert(self@.spans == now.spans.subrange(1, now.spans.len() as int));
            arena.release(1);
            self.buffered = self.buffered - segment.bytes.len();
            crate::frame::put_bytes(output, segment.bytes.as_slice());
            self.next = segment.start + segment.bytes.len() as u64;
            proof {
                lemma_delivered(m, now, segments, self@.next);
                gone = gone + 1;
                assert(self@.spans =~= m.spans.subrange(gone, m.spans.len() as int));
                assert(self@.held =~= beyond(m.held, self@.next));
                lemma_rest_sound(now, self@);
            }
        }
        proof {
            assert(!m.held.dom().contains(self@.next)) by {
                if m.held.dom().contains(self@.next) {
                    assert(self@.held.dom().contains(self@.next));
                    let k = choose|k: int|
                        0 <= k < self@.spans.len() && (#[trigger] self@.spans[k]).0 <= self@.next
                            < self@.spans[k].1;
                    assert(self@.spans[0] == self.segments@[0].span());
                    if k > 0 {
                        assert(self@.spans[0].1 <= self@.spans[k].0);
                    }
                }
            }
        }
    }

    /// Takes bytes, and delivers what goes on where the delivered bytes end.
    pub fn insert_copy_and_drain_into(
        &mut self,
        arena: &mut Arena,
        offset: u64,
        data: &[u8],
        limits: InsertLimits,
        output: &mut Vec<u8>,
    ) -> (result: Result<(), InsertError>)
        requires
            old(self).wf(),
            old(self)@.spans.len() <= old(arena).live(),
        ensures
            final(self).wf(),
            final(arena).limit() == old(arena).limit(),
            final(self)@.spans.len() <= final(arena).live(),
            final(arena).live() - final(self)@.spans.len() == old(arena).live()
                - old(self)@.spans.len(),
            ({
                let m = old(self)@;
                let len = data@.len() as int;
                let refusal = if offset + len <= u64::MAX && m.continues(offset as int, len) {
                    None
                } else {
                    m.refusal(
                        offset as int,
                        len,
                        limits,
                        old(arena).limit() - old(arena).live(),
                    )
                };
                match result {
                    Ok(()) => {
                        let bytes = m.taken(offset as int, data@);
                        &&& refusal is None
                        &&& StoreModel::delivers(bytes, m.next, final(self)@.next)
                        &&& final(output)@ == old(output)@ + stretch(
                            bytes,
                            m.next,
                            final(self)@.next,
                        )
                        &&& final(self)@.held == beyond(bytes, final(self)@.next)
                        &&& left_from(
                            m.spans,
                            m.wanted(offset as int, len),
                            final(self)@.next,
                            final(self)@.spans,
                        )
                    },
                    Err(error) => {
                        &&& refusal == Some(error)
                        &&& final(self)@ == m
                        &&& final(output)@ == old(output)@
                    },
                }
            }),
    {
        let ghost m = self@;
        if data.len() as u64 > u64::MAX - offset {
            return Err(InsertError::OffsetOverflow);
        }
        let end: u64 = offset + data.len() as u64;
        let overlaps = self.has_start_in(self.next, end);
        if offset <= self.next && end > self.next && !overlaps {
            let skip: usize = (self.next - offset) as usize;
            let piece = vstd::slice::slice_subrange(data, skip, data.len());
            let ghost bytes = m.taken(offset as int, data@);
            proof {
                assert(m.continues(offset as int, data@.len() as int));
                lemma_continued(m, offset as int, data@);
            }
            crate::frame::put_bytes(output, piece);
            self.next = end;
            let ghost middle = self@;
            let ghost delivered = output@;
            proof {
                assert(piece@ =~= stretch(bytes, m.next, end as int));
                assert(middle.held =~= beyond(bytes, end as int));
            }
            self.drain_copy_into(arena, output);
            proof {
                lemma_store_left(middle, self@);
                lemma_one_range(m, offset as int, data@.len() as int);
                lemma_chained(bytes, m.next, end as int, self@.next);
                assert(output@ =~= old(output)@ + stretch(bytes, m.next, self@.next));
                assert(self@.held =~= beyond(bytes, self@.next));
                assert(stretch(middle.held, end as int, self@.next) =~= stretch(
                    bytes,
                    end as int,
                    self@.next,
                ));
            }
        } else {
            match self.insert_copy(offset, data, limits, arena) {
                Ok(()) => {},
                Err(error) => {
                    return Err(error);
                },
            }
            let ghost middle = self@;
            self.drain_copy_into(arena, output);
            proof {
                lemma_store_left(middle, self@);
            }
        }
        Ok(())
    }
}

/// The bytes between two offsets.
pub open spec fn stretch(bytes: Map<int, u8>, from: int, to: int) -> Seq<u8> {
    Seq::new((to - from) as nat, |i: int| bytes[from + i])
}

/// The bytes from an offset on.
pub open spec fn beyond(bytes: Map<int, u8>, from: int) -> Map<int, u8> {
    bytes.restrict(Set::new(|x: int| x >= from))
}

/// Whether ranges are the last of others.
pub open spec fn is_suffix(rest: Seq<(int, int)>, spans: Seq<(int, int)>) -> bool {
    rest.len() <= spans.len() && rest == spans.subrange(
        spans.len() - rest.len(),
        spans.len() as int,
    )
}

/// One more range, in its place.
proof fn lemma_one_more(spans: Seq<(int, int)>, at: int, range: (int, int))
    requires
        0 <= at <= spans.len(),
    ensures
        forall|other: (int, int)| #[trigger]
            spans.insert(at, range).contains(other) == (spans.contains(other) || other == range),
{
    let more = spans.insert(at, range);
    assert forall|other: (int, int)| #[trigger] more.contains(other) == (spans.contains(other)
        || other == range) by {
        assert(more[at] == range);
        if spans.contains(other) {
            let i = choose|i: int| 0 <= i < spans.len() && spans[i] == other;
            assert(more[if i < at { i } else { i + 1 }] == other);
        }
        if more.contains(other) && other != range {
            let i = choose|i: int| 0 <= i < more.len() && more[i] == other;
            assert(spans[if i < at { i } else { i - 1 }] == other);
        }
    }
}

/// The ranges that are left once the first ones are delivered.
proof fn lemma_left(spans: Seq<(int, int)>, next: int, rest: Seq<(int, int)>)
    requires
        in_order(spans),
        is_suffix(rest, spans),
        forall|i: int| 0 <= i < rest.len() ==> next <= (#[trigger] rest[i]).0,
        forall|x: int| covered(spans, x) && x >= next ==> #[trigger] covered(rest, x),
    ensures
        left_from(spans, Seq::empty(), next, rest),
{
    let gone = spans.len() - rest.len();
    assert forall|range: (int, int)| #[trigger] rest.contains(range) == (spans.contains(range)
        && range.0 >= next) by {
        if rest.contains(range) {
            let i = choose|i: int| 0 <= i < rest.len() && rest[i] == range;
            assert(spans[i + gone] == range);
        }
        if spans.contains(range) && range.0 >= next {
            let i = choose|i: int| 0 <= i < spans.len() && spans[i] == range;
            assert(spans[i].0 <= range.0 < spans[i].1);
            assert(covered(spans, range.0));
            assert(covered(rest, range.0));
            let j = choose|j: int|
                0 <= j < rest.len() && (#[trigger] rest[j]).0 <= range.0 < rest[j].1;
            assert(spans[j + gone] == rest[j]);
            assert(i == j + gone);
        }
    }
}

/// The ranges of a store that are left once the first ones are delivered.
proof fn lemma_store_left(now: StoreModel, after: StoreModel)
    requires
        now.sound(),
        after.sound(),
        is_suffix(after.spans, now.spans),
        after.held == beyond(now.held, after.next),
    ensures
        left_from(now.spans, Seq::empty(), after.next, after.spans),
{
    assert forall|x: int| covered(now.spans, x) && x >= after.next implies #[trigger] covered(
        after.spans,
        x,
    ) by {
        assert(now.held.dom().contains(x));
        assert(after.held.dom().contains(x));
    }
    lemma_left(now.spans, after.next, after.spans);
}

/// Bytes that go on where the delivered ones end are one range.
proof fn lemma_one_range(m: StoreModel, offset: int, len: int)
    requires
        m.sound(),
        m.continues(offset, len),
    ensures
        m.wanted(offset, len) == seq![(m.next, offset + len)],
{
    if m.spans.len() > 0 {
        assert(m.next <= m.spans[0].0);
    }
}

/// Nothing is here that was delivered.
proof fn lemma_not_before(m: StoreModel)
    requires
        m.sound(),
    ensures
        forall|x: int| #[trigger] m.held.dom().contains(x) ==> x >= m.next,
{
    assert forall|x: int| #[trigger] m.held.dom().contains(x) implies x >= m.next by {
        let i = choose|i: int|
            0 <= i < m.spans.len() && (#[trigger] m.spans[i]).0 <= x < m.spans[i].1;
        assert(m.next <= m.spans[i].0);
    }
}

/// The first segment is delivered.
proof fn lemma_delivered(m: StoreModel, now: StoreModel, segments: Seq<Segment>, next: int)
    requires
        m.sound(),
        now.sound(),
        now.held == held_in(segments),
        now.spans == ranges_of(segments),
        segments.len() > 0,
        segments[0].start <= now.next,
        next == segments[0].span().1,
        m.next <= now.next,
        now.held == beyond(m.held, now.next),
        forall|x: int| m.next <= x < now.next ==> #[trigger] m.held.dom().contains(x),
    ensures
        segments[0].start == now.next,
        now.next < next,
        forall|x: int| m.next <= x < next ==> #[trigger] m.held.dom().contains(x),
        stretch(m.held, m.next, next) == stretch(m.held, m.next, now.next) + segments[0].bytes@,
{
    assert(now.spans[0] == segments[0].span());
    assert forall|x: int| now.next <= x < next implies #[trigger] m.held.dom().contains(x)
        && m.held[x] == segments[0].bytes@[x - segments[0].start] by {
        lemma_held(segments, 0, x);
        assert(now.held.dom().contains(x));
    }
    let whole = stretch(m.held, m.next, next);
    let parts = stretch(m.held, m.next, now.next) + segments[0].bytes@;
    assert forall|i: int| 0 <= i < whole.len() implies whole[i] == parts[i] by {
        if i >= now.next - m.next {
            assert(m.held.dom().contains(m.next + i));
        }
    }
    assert(whole =~= parts);
}

/// What is left after a delivery is sound.
proof fn lemma_rest_sound(now: StoreModel, rest: StoreModel)
    requires
        now.sound(),
        now.spans.len() > 0,
        rest.spans == now.spans.subrange(1, now.spans.len() as int),
        in_order(rest.spans),
        rest.next == now.spans[0].1,
        forall|x: int| #[trigger] rest.held.dom().contains(x) == covered(rest.spans, x),
    ensures
        rest.sound(),
{
    assert forall|i: int| 0 <= i < rest.spans.len() implies rest.next <= (
    #[trigger] rest.spans[i]).0 && rest.spans[i].1 <= u64::MAX by {
        assert(rest.spans[i] == now.spans[i + 1]);
        assert(now.spans[0].1 <= now.spans[i + 1].0);
    }
}

/// Bytes that go on where the delivered ones end come before all that is here.
proof fn lemma_continued(m: StoreModel, offset: int, data: Seq<u8>)
    requires
        m.sound(),
        offset + data.len() <= u64::MAX,
        m.continues(offset, data.len() as int),
    ensures
        ({
            let end = offset + data.len();
            let bytes = m.taken(offset, data);
            &&& forall|x: int| #[trigger] m.held.dom().contains(x) ==> x >= end
            &&& forall|x: int| m.next <= x < end ==> #[trigger] bytes.dom().contains(x)
                && bytes[x] == data[x - offset]
            &&& forall|x: int| x >= end ==> #[trigger] bytes.dom().contains(x)
                == m.held.dom().contains(x)
            &&& forall|i: int| 0 <= i < m.spans.len() ==> end <= (#[trigger] m.spans[i]).0
        }),
{
    let end = offset + data.len();
    assert forall|i: int| 0 <= i < m.spans.len() implies end <= (#[trigger] m.spans[i]).0 by {
        assert(m.next <= m.spans[i].0);
    }
    assert forall|x: int| #[trigger] m.held.dom().contains(x) implies x >= end by {
        let i = choose|i: int|
            0 <= i < m.spans.len() && (#[trigger] m.spans[i]).0 <= x < m.spans[i].1;
        assert(end <= m.spans[i].0);
    }
}

/// One stretch after another.
proof fn lemma_chained(bytes: Map<int, u8>, from: int, middle: int, to: int)
    requires
        from <= middle <= to,
    ensures
        stretch(bytes, from, to) == stretch(bytes, from, middle) + stretch(bytes, middle, to),
{
    assert(stretch(bytes, from, to) =~= stretch(bytes, from, middle) + stretch(bytes, middle, to));
}

/// One more range covers what it holds.
proof fn lemma_covered_push(spans: Seq<(int, int)>, range: (int, int), x: int)
    ensures
        covered(spans.push(range), x) == (covered(spans, x) || range.0 <= x < range.1),
{
    let more = spans.push(range);
    if covered(spans, x) {
        let i = choose|i: int| 0 <= i < spans.len() && (#[trigger] spans[i]).0 <= x < spans[i].1;
        assert(more[i].0 <= x < more[i].1);
    }
    if range.0 <= x < range.1 {
        assert(more[spans.len() as int].0 <= x < more[spans.len() as int].1);
    }
    if covered(more, x) {
        let i = choose|i: int| 0 <= i < more.len() && (#[trigger] more[i]).0 <= x < more[i].1;
        if i < spans.len() {
            assert(spans[i].0 <= x < spans[i].1);
        }
    }
}

/// Where nothing is missing nothing is taken.
proof fn lemma_none_missing(m: StoreModel, offset: int, data: Seq<u8>)
    requires
        m.sound(),
        m.wanted(offset, data.len() as int).len() == 0,
    ensures
        m.held == m.taken(offset, data),
{
    let from = greater(offset, m.next);
    let end = offset + data.len();
    lemma_missing(m.spans, from, end);
    assert forall|x: int| from <= x < end implies #[trigger] m.held.dom().contains(x) by {
        assert(!covered(m.wanted(offset, data.len() as int), x));
    }
    assert(m.held =~= m.taken(offset, data));
}

/// The total length of parts.
fn total_len(parts: &Vec<(u64, u64)>, from: u64, to: u64) -> (total: usize)
    requires
        in_order(spans_of(parts@)),
        from <= to,
        to - from <= usize::MAX,
        forall|i: int|
            0 <= i < parts@.len() ==> from <= (#[trigger] spans_of(parts@)[i]).0 && spans_of(
                parts@,
            )[i].1 <= to,
    ensures
        total == measure(spans_of(parts@)),
{
    let ghost spans = spans_of(parts@);
    let mut total: usize = 0;
    let mut k: usize = 0;
    while k < parts.len()
        invariant
            k <= parts@.len(),
            spans == spans_of(parts@),
            in_order(spans),
            from <= to,
            to - from <= usize::MAX,
            forall|i: int|
                0 <= i < parts@.len() ==> from <= (#[trigger] spans[i]).0 && spans[i].1 <= to,
            total == measure(spans.subrange(0, k as int)),
        decreases parts@.len() - k,
    {
        let part = parts[k];
        proof {
            let more = spans.subrange(0, k + 1);
            assert(more.drop_last() =~= spans.subrange(0, k as int));
            assert(more.last() == span(part));
            assert(in_order(more)) by {
                assert forall|i: int| 0 <= i < more.len() implies (#[trigger] more[i]).0
                    < more[i].1 by {
                    assert(more[i] == spans[i]);
                }
                assert forall|i: int, j: int| 0 <= i < j < more.len() implies (
                #[trigger] more[i]).1 <= (#[trigger] more[j]).0 by {
                    assert(more[i] == spans[i] && more[j] == spans[j]);
                }
            }
            assert forall|i: int| 0 <= i < more.len() implies from <= (#[trigger] more[i]).0
                && more[i].1 <= to by {
                assert(more[i] == spans[i]);
            }
            lemma_measure_bound(more, from as int, to as int);
        }
        total = total + (part.1 - part.0) as usize;
        k = k + 1;
    }
    assert(spans.subrange(0, k as int) =~= spans);
    total
}

/// What one more range covers.
proof fn lemma_span_inserted(spans: Seq<(int, int)>, at: int, range: (int, int))
    requires
        in_order(spans),
        0 <= at <= spans.len(),
        range.0 < range.1,
        forall|i: int| 0 <= i < at ==> (#[trigger] spans[i]).0 < range.0,
        forall|i: int| at <= i < spans.len() ==> (#[trigger] spans[i]).0 >= range.0,
        forall|x: int| range.0 <= x < range.1 ==> !#[trigger] covered(spans, x),
    ensures
        in_order(spans.insert(at, range)),
        forall|x: int| #[trigger]
            covered(spans.insert(at, range), x) == (covered(spans, x) || range.0 <= x < range.1),
{
    let more = spans.insert(at, range);
    assert forall|i: int| 0 <= i < more.len() implies #[trigger] more[i] == if i < at {
        spans[i]
    } else if i == at {
        range
    } else {
        spans[i - 1]
    } by {}
    assert forall|i: int| 0 <= i < at implies (#[trigger] spans[i]).1 <= range.0 by {
        assert(!covered(spans, range.0));
        if spans[i].1 > range.0 {
            assert(spans[i].0 <= range.0 < spans[i].1);
        }
    }
    assert forall|i: int| at <= i < spans.len() implies range.1 <= (#[trigger] spans[i]).0 by {
        if spans[i].0 < range.1 {
            assert(spans[i].0 <= spans[i].0 < spans[i].1);
            assert(covered(spans, spans[i].0));
        }
    }
    assert forall|i: int, j: int| 0 <= i < j < more.len() implies (#[trigger] more[i]).1 <= (
    #[trigger] more[j]).0 by {
        if i < at && j > at {
            assert(spans[i].1 <= spans[j - 1].0);
        }
    }
    assert forall|x: int| #[trigger] covered(more, x) == (covered(spans, x) || range.0 <= x
        < range.1) by {
        if covered(more, x) {
            let i = choose|i: int| 0 <= i < more.len() && (#[trigger] more[i]).0 <= x < more[i].1;
            if i < at {
                assert(spans[i].0 <= x < spans[i].1);
            } else if i > at {
                assert(spans[i - 1].0 <= x < spans[i - 1].1);
            }
        }
        if covered(spans, x) {
            let i = choose|i: int|
                0 <= i < spans.len() && (#[trigger] spans[i]).0 <= x < spans[i].1;
            if i < at {
                assert(more[i].0 <= x < more[i].1);
            } else {
                assert(more[i + 1].0 <= x < more[i + 1].1);
            }
        }
        if range.0 <= x < range.1 {
            assert(more[at].0 <= x < more[at].1);
        }
    }
}

/// What a stream has received, without the bytes: it tells beforehand which
/// bytes of a packet will be taken.
pub struct Plan {
    next: u64,
    segments: Vec<(u64, u64)>,
}

/// The state of a plan.
#[verifier::ext_equal]
pub struct PlanModel {
    pub next: int,
    pub spans: Seq<(int, int)>,
}

impl View for Plan {
    type V = PlanModel;

    closed spec fn view(&self) -> PlanModel {
        PlanModel { next: self.next as int, spans: spans_of(self.segments@) }
    }
}

impl PlanModel {
    /// Whether a byte is here, or one of new bytes that are to come.
    pub open spec fn known(self, offset: int, len: int, x: int) -> bool {
        covered(self.spans, x) || greater(offset, self.next) <= x < offset + len
    }

    pub open spec fn sound(self) -> bool {
        &&& 0 <= self.next <= u64::MAX
        &&& in_order(self.spans)
        &&& forall|i: int|
            0 <= i < self.spans.len() ==> self.next <= (#[trigger] self.spans[i]).0
                && self.spans[i].1 <= u64::MAX
    }

    /// Everything that can be delivered was.
    pub open spec fn drained(self) -> bool {
        self.sound() && !covered(self.spans, self.next)
    }

    pub open spec fn wanted(self, offset: int, len: int) -> Seq<(int, int)> {
        missing(self.spans, greater(offset, self.next), offset + len)
    }

    pub open spec fn continues(self, offset: int, len: int) -> bool {
        &&& offset <= self.next < offset + len
        &&& forall|i: int|
            0 <= i < self.spans.len() ==> !(self.next <= (#[trigger] self.spans[i]).0 < offset
                + len)
    }

    /// Whether new bytes lead to another plan: what can be delivered is, and what
    /// is known beyond that is covered.
    pub open spec fn inserted(self, offset: int, len: int, after: PlanModel) -> bool {
        &&& self.next <= after.next
        &&& forall|x: int| self.next <= x < after.next ==> #[trigger] self.known(offset, len, x)
        &&& !self.known(offset, len, after.next)
        &&& forall|x: int| #[trigger]
            covered(after.spans, x) == (self.known(offset, len, x) && x >= after.next)
        &&& left_from(self.spans, self.wanted(offset, len), after.next, after.spans)
    }

    /// Why new bytes are not taken, if they are not.
    pub open spec fn refusal(self, offset: int, len: int, max_ranges: int) -> Option<InsertError> {
        let parts = self.wanted(offset, len);
        if offset + len > u64::MAX {
            Some(InsertError::OffsetOverflow)
        } else if !self.continues(offset, len) && parts.len() > 0 && self.spans.len() + parts.len()
            > max_ranges {
            Some(InsertError::TooManyRanges)
        } else {
            None
        }
    }
}

/// Ranges as places of new bytes.
pub open spec fn places(parts: Seq<(int, int)>, offset: int) -> Seq<(int, int)> {
    parts.map_values(|part: (int, int)| (part.0 - offset, part.1 - offset))
}

/// Pairs of places as ranges.
pub open spec fn pairs_of(pairs: Seq<(usize, usize)>) -> Seq<(int, int)> {
    pairs.map_values(|pair: (usize, usize)| (pair.0 as int, pair.1 as int))
}

impl Plan {
    pub closed spec fn wf(&self) -> bool {
        self@.drained()
    }

    /// What holds of every plan.
    pub proof fn lemma_wf(&self)
        requires
            self.wf(),
        ensures
            self@.drained(),
    {
    }

    /// A plan for a stream of which nothing was received.
    pub fn empty() -> (plan: Plan)
        ensures
            plan.wf(),
            plan@.next == 0,
            plan@.spans.len() == 0,
    {
        Plan { next: 0, segments: Vec::new() }
    }

    /// How many separate ranges wait.
    pub fn range_count(&self) -> (count: usize)
        ensures
            count == self@.spans.len(),
    {
        self.segments.len()
    }

    /// The offset of the next byte to deliver.
    pub fn next(&self) -> (next: u64)
        ensures
            next == self@.next,
    {
        self.next
    }

    fn insert_span(&mut self, range: (u64, u64))
        requires
            in_order(old(self)@.spans),
            range.0 < range.1,
            forall|x: int| range.0 <= x < range.1 ==> !#[trigger] covered(old(self)@.spans, x),
        ensures
            final(self).next == old(self).next,
            in_order(final(self)@.spans),
            final(self)@.spans.len() == old(self)@.spans.len() + 1,
            forall|x: int| #[trigger]
                covered(final(self)@.spans, x) == (covered(old(self)@.spans, x) || range.0 <= x
                    < range.1),
            exists|at: int|
                0 <= at <= old(self)@.spans.len() && final(self)@.spans
                    == #[trigger] old(self)@.spans.insert(at, span(range)),
    {
        let ghost before = self@.spans;
        let mut at: usize = 0;
        while at < self.segments.len() && self.segments[at].0 < range.0
            invariant
                at <= self.segments@.len(),
                forall|j: int| 0 <= j < at ==> (#[trigger] self@.spans[j]).0 < range.0,
            decreases self.segments@.len() - at,
        {
            assert(self@.spans[at as int] == span(self.segments@[at as int]));
            at = at + 1;
        }
        proof {
            assert forall|j: int| at <= j < before.len() implies (#[trigger] before[j]).0
                >= range.0 by {
                assert(before[at as int] == span(self.segments@[at as int]));
                if j > at {
                    assert(before[at as int].1 <= before[j].0);
                }
            }
            lemma_span_inserted(before, at as int, span(range));
        }
        let ghost segments = self.segments@;
        self.segments.insert(at, range);
        assert(self@.spans =~= before.insert(at as int, span(range)));
    }

    fn drain_contiguous(&mut self)
        requires
            old(self)@.sound(),
        ensures
            final(self).wf(),
            old(self)@.next <= final(self)@.next,
            forall|x: int|
                old(self)@.next <= x < final(self)@.next ==> #[trigger] covered(
                    old(self)@.spans,
                    x,
                ),
            !covered(old(self)@.spans, final(self)@.next),
            forall|x: int| #[trigger]
                covered(final(self)@.spans, x) == (covered(old(self)@.spans, x) && x
                    >= final(self)@.next),
            is_suffix(final(self)@.spans, old(self)@.spans),
    {
        let ghost m = self@;
        let ghost mut gone: int = 0;
        proof {
            assert(m.spans.subrange(0, m.spans.len() as int) =~= m.spans);
            assert forall|x: int| covered(m.spans, x) implies x >= m.next by {
                let i = choose|i: int|
                    0 <= i < m.spans.len() && (#[trigger] m.spans[i]).0 <= x < m.spans[i].1;
                assert(m.next <= m.spans[i].0);
            }
        }
        while self.segments.len() > 0 && self.segments[0].0 <= self.next
            invariant
                self@.sound(),
                m == old(self)@,
                m.sound(),
                m.next <= self@.next,
                0 <= gone <= m.spans.len(),
                self@.spans == m.spans.subrange(gone, m.spans.len() as int),
                forall|x: int| m.next <= x < self@.next ==> #[trigger] covered(m.spans, x),
                forall|x: int| #[trigger]
                    covered(self@.spans, x) == (covered(m.spans, x) && x >= self@.next),
            decreases self.segments@.len(),
        {
            let ghost now = self@;
            assert(now.spans[0] == span(self.segments@[0]));
            let segment = self.segments.remove(0);
            self.next = segment.1;
            proof {
                let rest = self@.spans;
                assert(rest =~= now.spans.subrange(1, now.spans.len() as int));
                assert forall|i: int| 0 <= i < rest.len() implies #[trigger] rest[i]
                    == now.spans[i + 1] by {}
                gone = gone + 1;
                assert(rest =~= m.spans.subrange(gone, m.spans.len() as int));
                assert forall|i: int| 0 <= i < rest.len() implies self@.next <= (
                #[trigger] rest[i]).0 by {
                    assert(now.spans[0].1 <= now.spans[i + 1].0);
                }
                assert forall|x: int| m.next <= x < self@.next implies #[trigger] covered(
                    m.spans,
                    x,
                ) by {
                    if x >= now.next {
                        assert(now.spans[0].0 <= x < now.spans[0].1);
                        assert(covered(now.spans, x));
                    }
                }
                assert forall|x: int| #[trigger] covered(rest, x) == (covered(m.spans, x) && x
                    >= self@.next) by {
                    if covered(rest, x) {
                        let i = choose|i: int|
                            0 <= i < rest.len() && (#[trigger] rest[i]).0 <= x < rest[i].1;
                        assert(now.spans[i + 1].0 <= x < now.spans[i + 1].1);
                        assert(covered(now.spans, x));
                        assert(self@.next <= rest[i].0);
                    }
                    if covered(m.spans, x) && x >= self@.next {
                        assert(covered(now.spans, x));
                        let i = choose|i: int|
                            0 <= i < now.spans.len() && (#[trigger] now.spans[i]).0 <= x
                                < now.spans[i].1;
                        assert(i > 0);
                        assert(rest[i - 1].0 <= x < rest[i - 1].1);
                    }
                }
            }
        }
        proof {
            if covered(m.spans, self@.next) {
                assert(covered(self@.spans, self@.next));
                let k = choose|k: int|
                    0 <= k < self@.spans.len() && (#[trigger] self@.spans[k]).0 <= self@.next
                        < self@.spans[k].1;
                assert(self@.spans[0] == span(self.segments@[0]));
                if k > 0 {
                    assert(self@.spans[0].1 <= self@.spans[k].0);
                }
            }
        }
    }

    /// Notes new bytes. Tells how many of them are taken, and which.
    pub fn insert_observed(&mut self, offset: u64, len: usize, max_ranges: usize) -> (result: Result<
        (usize, Vec<(usize, usize)>),
        InsertError,
    >)
        requires
            old(self).wf(),
        ensures
            final(self).wf(),
            ({
                let m = old(self)@;
                let wanted = m.wanted(offset as int, len as int);
                match result {
                    Ok((accepted, parts)) => {
                        &&& m.refusal(offset as int, len as int, max_ranges as int) is None
                        &&& accepted == measure(wanted)
                        &&& pairs_of(parts@) == places(wanted, offset as int)
                        &&& m.inserted(offset as int, len as int, final(self)@)
                    },
                    Err(error) => {
                        &&& m.refusal(offset as int, len as int, max_ranges as int) == Some(error)
                        &&& final(self)@ == m
                    },
                }
            }),
    {
        let ghost m = self@;
        let ghost wanted = m.wanted(offset as int, len as int);
        if len as u64 > u64::MAX - offset {
            return Err(InsertError::OffsetOverflow);
        }
        let end: u64 = offset + len as u64;
        let from: u64 = if offset >= self.next {
            offset
        } else {
            self.next
        };
        proof {
            lemma_missing(m.spans, from as int, end as int);
        }
        if self.continues(offset, end) {
            let accepted: usize = (end - self.next) as usize;
            let first: usize = len - accepted;
            let mut parts: Vec<(usize, usize)> = Vec::new();
            parts.push((first, len));
            proof {
                lemma_continues(m, offset as int, len as int);
                assert(wanted.drop_last() =~= Seq::empty());
                assert(measure(wanted.drop_last()) == 0);
                assert(wanted.last() == (m.next, end as int));
                assert(pairs_of(parts@) =~= places(wanted, offset as int));
            }
            self.next = end;
            self.drain_contiguous();
            proof {
                lemma_left(m.spans, self@.next, self@.spans);
            }
            return Ok((accepted, parts));
        }
        let ranges: usize = self.segments.len();
        let part_capacity: usize = max_ranges.saturating_sub(ranges);
        let parts = match collect_missing(&self.segments, from, end, part_capacity) {
            Ok(parts) => parts,
            Err(error) => {
                return Err(error);
            },
        };
        proof {
            if from <= end {
                lemma_measure_bound(wanted, from as int, end as int);
            } else {
                assert(wanted.len() == 0);
            }
        }
        if parts.len() == 0 {
            proof {
                assert(pairs_of(Seq::<(usize, usize)>::empty()) =~= places(wanted, offset as int));
                assert(measure(wanted) == 0);
                assert forall|x: int| covered(m.spans, x) implies x >= m.next by {
                    let i = choose|i: int|
                        0 <= i < m.spans.len() && (#[trigger] m.spans[i]).0 <= x < m.spans[i].1;
                    assert(m.next <= m.spans[i].0);
                }
                assert forall|x: int| #[trigger] m.known(offset as int, len as int, x) == covered(
                    m.spans,
                    x,
                ) by {
                    assert(covered(wanted, x) == (from <= x < end && !covered(m.spans, x)));
                    assert(!covered(wanted, x));
                }
                assert(left_from(m.spans, wanted, m.next, m.spans));
            }
            return Ok((0, Vec::new()));
        }
        assert(from <= end);
        let accepted: usize = total_len(&parts, from, end);
        let mut found: Vec<(usize, usize)> = Vec::new();
        let mut k: usize = 0;
        while k < parts.len()
            invariant
                k <= parts@.len(),
                m.sound(),
                spans_of(parts@) == wanted,
                in_order(wanted),
                from == greater(offset as int, m.next),
                end == offset + len,
                forall|x: int| #[trigger]
                    covered(wanted, x) == (from <= x < end && !covered(m.spans, x)),
                forall|j: int|
                    0 <= j < wanted.len() ==> from <= (#[trigger] wanted[j]).0 && wanted[j].1
                        <= end,
                self.next == m.next,
                in_order(self@.spans),
                forall|x: int| #[trigger]
                    covered(self@.spans, x) == (covered(m.spans, x) || covered(
                        wanted.subrange(0, k as int),
                        x,
                    )),
                forall|j: int|
                    0 <= j < self@.spans.len() ==> m.next <= (#[trigger] self@.spans[j]).0
                        && self@.spans[j].1 <= u64::MAX,
                forall|range: (int, int)| #[trigger]
                    self@.spans.contains(range) == (m.spans.contains(range) || wanted.subrange(
                        0,
                        k as int,
                    ).contains(range)),
                pairs_of(found@) =~= places(wanted.subrange(0, k as int), offset as int),
            decreases parts@.len() - k,
        {
            let part = parts[k];
            let ghost done = wanted.subrange(0, k as int);
            let ghost range = wanted[k as int];
            let ghost now = self@;
            assert(range == span(part));
            assert(offset <= from <= range.0 < range.1 <= end);
            proof {
                assert forall|x: int| range.0 <= x < range.1 implies !#[trigger] covered(
                    self@.spans,
                    x,
                ) by {
                    assert(wanted[k as int].0 <= x < wanted[k as int].1);
                    assert(covered(wanted, x));
                    if covered(done, x) {
                        let j = choose|j: int|
                            0 <= j < done.len() && (#[trigger] done[j]).0 <= x < done[j].1;
                        assert(done[j] == wanted[j]);
                        assert(wanted[j].1 <= wanted[k as int].0);
                    }
                }
            }
            self.insert_span(part);
            let ghost before = found@;
            found.push(((part.0 - offset) as usize, (part.1 - offset) as usize));
            proof {
                let more = wanted.subrange(0, k + 1);
                assert(more =~= done.push(range));
                assert forall|x: int| #[trigger] covered(self@.spans, x) == (covered(m.spans, x)
                    || covered(more, x)) by {
                    lemma_covered_push(done, range, x);
                }
                let at = choose|at: int|
                    0 <= at <= now.spans.len() && self@.spans == #[trigger] now.spans.insert(
                        at,
                        span(part),
                    );
                lemma_one_more(now.spans, at, range);
                lemma_one_more(done, done.len() as int, range);
                assert(done.insert(done.len() as int, range) =~= more);
                assert forall|j: int| 0 <= j < self@.spans.len() implies m.next <= (
                #[trigger] self@.spans[j]).0 && self@.spans[j].1 <= u64::MAX by {
                    if j < at {
                        assert(self@.spans[j] == now.spans[j]);
                    } else if j > at {
                        assert(self@.spans[j] == now.spans[j - 1]);
                    }
                }
                let place = (range.0 - offset, range.1 - offset);
                assert(pairs_of(found@) =~= pairs_of(before).push(place));
                assert(places(more, offset as int) =~= places(done, offset as int).push(place));
            }
            k = k + 1;
        }
        proof {
            assert(wanted.subrange(0, k as int) =~= wanted);
            assert forall|x: int| #[trigger] m.known(offset as int, len as int, x) == covered(
                self@.spans,
                x,
            ) by {}
        }
        let ghost middle = self@;
        self.drain_contiguous();
        proof {
            lemma_left(middle.spans, self@.next, self@.spans);
        }
        Ok((accepted, found))
    }

    /// Whether new bytes go on where the delivered ones end, and overlap nothing.
    fn continues(&self, offset: u64, end: u64) -> (continues: bool)
        requires
            self.wf(),
            offset <= end,
        ensures
            continues == self@.continues(offset as int, end - offset),
    {
        if offset > self.next || end <= self.next {
            return false;
        }
        let mut i: usize = 0;
        while i < self.segments.len()
            invariant
                i <= self.segments@.len(),
                forall|j: int|
                    0 <= j < i ==> !(self@.next <= (#[trigger] self@.spans[j]).0 < end),
            decreases self.segments@.len() - i,
        {
            assert(self@.spans[i as int] == span(self.segments@[i as int]));
            if self.segments[i].0 >= self.next && self.segments[i].0 < end {
                return false;
            }
            i = i + 1;
        }
        true
    }
}

/// Bytes that go on where the delivered ones end are all taken.
proof fn lemma_continues(m: PlanModel, offset: int, len: int)
    requires
        m.sound(),
        m.continues(offset, len),
    ensures
        m.wanted(offset, len) == seq![(m.next, offset + len)],
        forall|i: int| 0 <= i < m.spans.len() ==> offset + len <= (#[trigger] m.spans[i]).0,
        forall|x: int| #[trigger]
            m.known(offset, len, x) == (covered(m.spans, x) || m.next <= x < offset + len),
        forall|x: int| covered(m.spans, x) ==> x >= offset + len,
{
    assert forall|i: int| 0 <= i < m.spans.len() implies offset + len <= (
    #[trigger] m.spans[i]).0 by {
        assert(m.next <= m.spans[i].0);
    }
    if m.spans.len() > 0 {
        assert(offset + len <= m.spans[0].0);
    }
    assert forall|x: int| covered(m.spans, x) implies x >= offset + len by {
        let i = choose|i: int|
            0 <= i < m.spans.len() && (#[trigger] m.spans[i]).0 <= x < m.spans[i].1;
        assert(offset + len <= m.spans[i].0);
    }
}

/// Buffers one after another.
pub open spec fn joined(buffers: Seq<Vec<u8>>) -> Seq<u8>
    decreases buffers.len(),
{
    if buffers.len() == 0 {
        Seq::empty()
    } else {
        joined(buffers.drop_last()) + buffers.last()@
    }
}

/// Whether buffers came behind others, one for each range.
pub open spec fn holds(
    before: Seq<Vec<u8>>,
    ranges: Seq<(int, int)>,
    bytes: Map<int, u8>,
    after: Seq<Vec<u8>>,
) -> bool {
    &&& after.len() == before.len() + ranges.len()
    &&& forall|i: int| 0 <= i < before.len() ==> #[trigger] after[i] == before[i]
    &&& forall|i: int|
        before.len() <= i < after.len() ==> (#[trigger] after[i])@ == stretch(
            bytes,
            ranges[i - before.len()].0,
            ranges[i - before.len()].1,
        )
}

/// Whether the ranges, old and new, that begin before an offset were handed over, a buffer
/// for each.
pub open spec fn handed(
    spans: Seq<(int, int)>,
    parts: Seq<(int, int)>,
    next: int,
    bytes: Map<int, u8>,
    before: Seq<Vec<u8>>,
    after: Seq<Vec<u8>>,
) -> bool {
    exists|ranges: Seq<(int, int)>|
        {
            &&& in_order(ranges)
            &&& forall|range: (int, int)| #[trigger]
                ranges.contains(range) == ((spans.contains(range) || parts.contains(range))
                    && range.0 < next)
            &&& #[trigger] holds(before, ranges, bytes, after)
        }
}

/// The ranges that are not left are those that begin before.
proof fn lemma_gone(spans: Seq<(int, int)>, next: int, rest: Seq<(int, int)>)
    requires
        in_order(spans),
        is_suffix(rest, spans),
        left_from(spans, Seq::empty(), next, rest),
    ensures
        ({
            let gone = spans.take(spans.len() - rest.len());
            &&& in_order(gone)
            &&& forall|range: (int, int)| #[trigger]
                gone.contains(range) == (spans.contains(range) && range.0 < next)
        }),
{
    let count = spans.len() - rest.len();
    let gone = spans.take(count);
    assert forall|range: (int, int)| #[trigger] gone.contains(range) == (spans.contains(range)
        && range.0 < next) by {
        if gone.contains(range) {
            let i = choose|i: int| 0 <= i < gone.len() && gone[i] == range;
            assert(spans[i] == range);
            if range.0 >= next {
                assert(rest.contains(range));
                let j = choose|j: int| 0 <= j < rest.len() && rest[j] == range;
                assert(spans[j + count] == range);
                assert(spans[i].1 <= spans[j + count].0);
            }
        }
        if spans.contains(range) && range.0 < next {
            let i = choose|i: int| 0 <= i < spans.len() && spans[i] == range;
            if i >= count {
                assert(rest[i - count] == range);
                assert(rest.contains(range));
            }
            assert(gone[i] == range);
        }
    }
}

proof fn lemma_joined_push(buffers: Seq<Vec<u8>>, buffer: Vec<u8>)
    ensures
        joined(buffers.push(buffer)) == joined(buffers) + buffer@,
{
    assert(buffers.push(buffer).drop_last() =~= buffers);
}

proof fn lemma_joined_first(buffers: Seq<Vec<u8>>)
    requires
        buffers.len() > 0,
    ensures
        joined(buffers) == buffers[0]@ + joined(buffers.subrange(1, buffers.len() as int)),
    decreases buffers.len(),
{
    let rest = buffers.subrange(1, buffers.len() as int);
    if buffers.len() == 1 {
        assert(buffers.drop_last() =~= Seq::empty());
        assert(rest =~= Seq::empty());
        assert(joined(buffers) =~= buffers[0]@ + joined(rest));
    } else {
        lemma_joined_first(buffers.drop_last());
        assert(buffers.drop_last().subrange(1, buffers.len() - 1) =~= rest.drop_last());
        assert(rest.last() == buffers.last());
        assert(joined(buffers) =~= buffers[0]@ + joined(rest));
    }
}

/// Bytes that are ready to be read, in the buffers in which they came. Each
/// buffer counts toward the ranges that a connection's streams share.
pub struct ReadySegments {
    queue: VecDeque<Vec<u8>>,
    bytes: usize,
}

impl View for ReadySegments {
    type V = Seq<Vec<u8>>;

    closed spec fn view(&self) -> Seq<Vec<u8>> {
        self.queue@
    }
}

impl Default for ReadySegments {
    fn default() -> (ready: ReadySegments)
        ensures
            ready.wf(),
            ready@.len() == 0,
    {
        ReadySegments { queue: VecDeque::new(), bytes: 0 }
    }
}

impl ReadySegments {
    pub closed spec fn wf(&self) -> bool {
        &&& self.bytes == joined(self.queue@).len()
        &&& forall|i: int| 0 <= i < self.queue@.len() ==> (#[trigger] self.queue@[i])@.len() > 0
    }

    /// How many bytes are ready.
    pub fn len(&self) -> (len: usize)
        requires
            self.wf(),
        ensures
            len == joined(self@).len(),
    {
        self.bytes
    }

    /// How many buffers they are in.
    pub fn segment_count(&self) -> (count: usize)
        ensures
            count == self@.len(),
    {
        self.queue.len()
    }

    /// Adds a buffer, unless there is no room for it.
    pub fn push_back(&mut self, arena: &mut Arena, bytes: Vec<u8>) -> (result: Result<(), Vec<u8>>)
        requires
            old(self).wf(),
        ensures
            final(self).wf(),
            final(arena).limit() == old(arena).limit(),
            ({
                let fits = joined(old(self)@).len() + bytes@.len() <= usize::MAX && old(
                    arena,
                ).live() < old(arena).limit();
                match result {
                    Ok(()) => {
                        &&& bytes@.len() == 0 || fits
                        &&& final(self)@ == if bytes@.len() == 0 {
                            old(self)@
                        } else {
                            old(self)@.push(bytes)
                        }
                        &&& final(arena).live() == old(arena).live() + (if bytes@.len() == 0 {
                            0int
                        } else {
                            1
                        })
                    },
                    Err(back) => {
                        &&& bytes@.len() > 0 && !fits
                        &&& back == bytes
                        &&& final(self)@ == old(self)@
                        &&& final(arena).live() == old(arena).live()
                    },
                }
            }),
    {
        let len: usize = bytes.len();
        if len == 0 {
            return Ok(());
        }
        let total: usize = match self.bytes.checked_add(len) {
            Some(total) => total,
            None => {
                return Err(bytes);
            },
        };
        if arena.remaining_capacity() == 0 {
            return Err(bytes);
        }
        arena.allocate(1);
        proof {
            lemma_joined_push(self.queue@, bytes);
        }
        self.queue.push_back(bytes);
        self.bytes = total;
        Ok(())
    }

    /// Takes the first buffer.
    pub fn pop_front(&mut self, arena: &mut Arena) -> (result: Option<Vec<u8>>)
        requires
            old(self).wf(),
            old(self)@.len() <= old(arena).live(),
        ensures
            final(self).wf(),
            final(arena).limit() == old(arena).limit(),
            match result {
                Some(bytes) => {
                    &&& old(self)@.len() > 0
                    &&& bytes == old(self)@[0]
                    &&& final(self)@ == old(self)@.subrange(1, old(self)@.len() as int)
                    &&& final(arena).live() == old(arena).live() - 1
                },
                None => {
                    &&& old(self)@.len() == 0
                    &&& final(self)@ == old(self)@
                    &&& final(arena).live() == old(arena).live()
                },
            },
    {
        let ghost before = self.queue@;
        match self.queue.pop_front() {
            Some(bytes) => {
                proof {
                    lemma_joined_first(before);
                    assert(self.queue@ =~= before.subrange(1, before.len() as int));
                }
                self.bytes = self.bytes - bytes.len();
                arena.release(1);
                Some(bytes)
            },
            None => None,
        }
    }

    /// Drops all buffers.
    pub fn clear(&mut self, arena: &mut Arena)
        requires
            old(self).wf(),
            old(self)@.len() <= old(arena).live(),
        ensures
            final(self).wf(),
            final(self)@.len() == 0,
            final(arena).live() == old(arena).live() - old(self)@.len(),
            final(arena).limit() == old(arena).limit(),
    {
        arena.release(self.queue.len());
        *self = ReadySegments::default();
    }
}

impl Store {
    /// Hands over the buffers that go on where the delivered bytes end.
    fn drain_contiguous_into_ready(&mut self, output: &mut ReadySegments)
        requires
            old(self).wf(),
            old(output).wf(),
            joined(old(output)@).len() + measure(old(self)@.spans) <= usize::MAX,
        ensures
            final(self).wf(),
            final(output).wf(),
            final(output)@.len() + final(self)@.spans.len() == old(output)@.len()
                + old(self)@.spans.len(),
            is_suffix(final(self)@.spans, old(self)@.spans),
            holds(
                old(output)@,
                old(self)@.spans.take(old(self)@.spans.len() - final(self)@.spans.len()),
                old(self)@.held,
                final(output)@,
            ),
            StoreModel::delivers(old(self)@.held, old(self)@.next, final(self)@.next),
            joined(final(output)@) == joined(old(output)@) + stretch(
                old(self)@.held,
                old(self)@.next,
                final(self)@.next,
            ),
            final(self)@.held == beyond(old(self)@.held, final(self)@.next),
    {
        let ghost m = self@;
        let ghost mut gone: int = 0;
        proof {
            assert(m.spans.subrange(0, m.spans.len() as int) =~= m.spans);
            assert(joined(output@) =~= joined(old(output)@) + stretch(m.held, m.next, m.next));
            assert(self@.held =~= beyond(m.held, m.next)) by {
                lemma_not_before(m);
            }
        }
        while self.segments.len() > 0 && self.segments[0].start <= self.next
            invariant
                self.wf(),
                output.wf(),
                m == old(self)@,
                m.sound(),
                m.next <= self@.next,
                0 <= gone <= m.spans.len(),
                self@.spans == m.spans.subrange(gone, m.spans.len() as int),
                holds(old(output)@, m.spans.take(gone), m.held, output@),
                output@.len() + self@.spans.len() == old(output)@.len() + m.spans.len(),
                joined(output@).len() + measure(self@.spans) <= usize::MAX,
                forall|x: int| m.next <= x < self@.next ==> #[trigger] m.held.dom().contains(x),
                joined(output@) == joined(old(output)@) + stretch(m.held, m.next, self@.next),
                self@.held == beyond(m.held, self@.next),
            decreases self.segments@.len(),
        {
            let ghost now = self@;
            let ghost segments = self.segments@;
            proof {
                lemma_shifted(segments);
                lemma_measure_first(now.spans);
                lemma_measure_nonnegative(now.spans.subrange(1, now.spans.len() as int));
                assert(now.spans[0] == segments[0].span());
            }
            let segment = self.segments.remove(0);
            assert(self.segments@ =~= segments.subrange(1, segments.len() as int));
            assert(self@.spans == now.spans.subrange(1, now.spans.len() as int));
            let len: usize = segment.bytes.len();
            self.buffered = self.buffered - len;
            self.next = segment.start + len as u64;
            proof {
                lemma_joined_push(output.queue@, segment.bytes);
                lemma_delivered(m, now, segments, self@.next);
            }
            output.bytes = output.bytes + len;
            let ghost were = output@;
            output.queue.push_back(segment.bytes);
            proof {
                let range = now.spans[0];
                assert(range == m.spans[gone]);
                assert(segment.bytes@ =~= stretch(m.held, range.0, range.1)) by {
                    assert forall|x: int| range.0 <= x < range.1 implies #[trigger] m.held[x]
                        == segment.bytes@[x - range.0] by {
                        lemma_held(segments, 0, x);
                    }
                }
                assert(output@ == were.push(segment.bytes));
                gone = gone + 1;
                assert(m.spans.take(gone) =~= m.spans.take(gone - 1).push(range));
                assert(self@.spans =~= m.spans.subrange(gone, m.spans.len() as int));
                assert(self@.held =~= beyond(m.held, self@.next));
                lemma_rest_sound(now, self@);
                assert(joined(output@) =~= joined(old(output)@) + stretch(
                    m.held,
                    m.next,
                    self@.next,
                ));
            }
        }
        proof {
            assert(!m.held.dom().contains(self@.next)) by {
                if m.held.dom().contains(self@.next) {
                    assert(self@.held.dom().contains(self@.next));
                    let k = choose|k: int|
                        0 <= k < self@.spans.len() && (#[trigger] self@.spans[k]).0 <= self@.next
                            < self@.spans[k].1;
                    assert(self@.spans[0] == self.segments@[0].span());
                    if k > 0 {
                        assert(self@.spans[0].1 <= self@.spans[k].0);
                    }
                }
            }
        }
    }

    /// Takes bytes, and hands over the buffers that go on where the delivered
    /// bytes end.
    #[verifier::rlimit(60)]
    pub fn insert_retained_and_drain_into(
        &mut self,
        arena: &mut Arena,
        offset: u64,
        data: &[u8],
        limits: InsertLimits,
        output: &mut ReadySegments,
    ) -> (result: Result<(), InsertError>)
        requires
            old(self).wf(),
            old(output).wf(),
            joined(old(output)@).len() + measure(old(self)@.spans) + data@.len() <= usize::MAX,
        ensures
            final(self).wf(),
            final(output).wf(),
            final(arena).limit() == old(arena).limit(),
            final(arena).live() - final(self)@.spans.len() - final(output)@.len() == old(
                arena,
            ).live() - old(self)@.spans.len() - old(output)@.len(),
            ({
                let m = old(self)@;
                let len = data@.len() as int;
                let remaining = old(arena).limit() - old(arena).live();
                let refusal = if offset + len <= u64::MAX && m.continues(offset as int, len) {
                    if remaining == 0 {
                        Some(InsertError::BufferFull)
                    } else {
                        None
                    }
                } else {
                    m.refusal(offset as int, len, limits, remaining)
                };
                match result {
                    Ok(()) => {
                        let bytes = m.taken(offset as int, data@);
                        &&& refusal is None
                        &&& StoreModel::delivers(bytes, m.next, final(self)@.next)
                        &&& joined(final(output)@) == joined(old(output)@) + stretch(
                            bytes,
                            m.next,
                            final(self)@.next,
                        )
                        &&& final(self)@.held == beyond(bytes, final(self)@.next)
                        &&& left_from(
                            m.spans,
                            m.wanted(offset as int, len),
                            final(self)@.next,
                            final(self)@.spans,
                        )
                        &&& handed(
                            m.spans,
                            m.wanted(offset as int, len),
                            final(self)@.next,
                            bytes,
                            old(output)@,
                            final(output)@,
                        )
                        &&& final(arena).live() == old(arena).live() + m.wanted(
                            offset as int,
                            len,
                        ).len()
                    },
                    Err(error) => {
                        &&& refusal == Some(error)
                        &&& final(self)@ == m
                        &&& final(output)@ == old(output)@
                    },
                }
            }),
    {
        let ghost m = self@;
        if data.len() as u64 > u64::MAX - offset {
            return Err(InsertError::OffsetOverflow);
        }
        let end: u64 = offset + data.len() as u64;
        let overlaps = self.has_start_in(self.next, end);
        if offset <= self.next && end > self.next && !overlaps {
            let skip: usize = (self.next - offset) as usize;
            let piece = vstd::slice::slice_subrange(data, skip, data.len());
            let ghost bytes = m.taken(offset as int, data@);
            let ghost ready = joined(output@);
            proof {
                assert(m.continues(offset as int, data@.len() as int));
                lemma_continued(m, offset as int, data@);
                lemma_measure_nonnegative(m.spans);
                assert(piece@ =~= stretch(bytes, m.next, end as int));
            }
            let owned = vstd::slice::slice_to_vec(piece);
            let ghost owned_bytes = owned;
            proof {
                lemma_joined_push(output@, owned);
                use_type_invariant(&*arena);
            }
            match output.push_back(arena, owned) {
                Ok(()) => {},
                Err(back) => {
                    return Err(InsertError::BufferFull);
                },
            }
            let ghost pushed = output@;
            assert(pushed == old(output)@.push(owned_bytes));
            self.next = end;
            let ghost middle = self@;
            assert(middle.held =~= beyond(bytes, end as int));
            self.drain_contiguous_into_ready(output);
            proof {
                lemma_store_left(middle, self@);
                lemma_one_range(m, offset as int, data@.len() as int);
                assert(m.wanted(offset as int, data@.len() as int).len() == 1);
                lemma_gone(m.spans, self@.next, self@.spans);
                let range = (m.next, end as int);
                let count = m.spans.len() - self@.spans.len();
                let rest = m.spans.take(count);
                let ranges = seq![range] + rest;
                lemma_one_more(rest, 0, range);
                assert(rest.insert(0, range) =~= ranges);
                assert(in_order(ranges)) by {
                    assert forall|i: int| 0 <= i < rest.len() implies range.1 <= (
                    #[trigger] rest[i]).0 by {
                        assert(rest[i] == m.spans[i]);
                    }
                }
                assert(holds(old(output)@, ranges, bytes, output@)) by {
                    let base = old(output)@.len() as int;
                    assert forall|i: int| base <= i < output@.len() implies (
                    #[trigger] output@[i])@ == stretch(
                        bytes,
                        ranges[i - base].0,
                        ranges[i - base].1,
                    ) by {
                        if i == base {
                            assert(output@[i] == pushed[i]);
                        } else {
                            let span = rest[i - base - 1];
                            assert(ranges[i - base] == span);
                            assert(span == m.spans[i - base - 1]);
                            assert(stretch(middle.held, span.0, span.1) =~= stretch(
                                bytes,
                                span.0,
                                span.1,
                            )) by {
                                assert forall|x: int| span.0 <= x < span.1 implies
                                    middle.held[x] == #[trigger] bytes[x] by {
                                    assert(m.spans[i - base - 1].0 <= x < m.spans[i - base
                                        - 1].1);
                                    assert(covered(m.spans, x));
                                    assert(middle.held.dom().contains(x));
                                }
                            }
                        }
                    }
                    assert forall|i: int| 0 <= i < base implies #[trigger] output@[i] == old(
                        output,
                    )@[i] by {
                        assert(pushed[i] == old(output)@[i]);
                    }
                }
                assert(handed(
                    m.spans,
                    m.wanted(offset as int, data@.len() as int),
                    self@.next,
                    bytes,
                    old(output)@,
                    output@,
                )) by {
                    assert(m.wanted(offset as int, data@.len() as int).contains(range)) by {
                        assert(m.wanted(offset as int, data@.len() as int)[0] == range);
                    }
                }
                lemma_chained(bytes, m.next, end as int, self@.next);
                assert(stretch(middle.held, end as int, self@.next) =~= stretch(
                    bytes,
                    end as int,
                    self@.next,
                ));
                assert(joined(output@) =~= ready + stretch(bytes, m.next, self@.next));
                assert(self@.held =~= beyond(bytes, self@.next));
            }
        } else {
            match self.insert_copy(offset, data, limits, arena) {
                Ok(()) => {},
                Err(error) => {
                    return Err(error);
                },
            }
            let ghost middle = self@;
            self.drain_contiguous_into_ready(output);
            proof {
                lemma_store_left(middle, self@);
                lemma_gone(middle.spans, self@.next, self@.spans);
            }
        }
        Ok(())
    }

    /// Takes the bytes of which a plan told that they are taken, joined, and
    /// hands over the buffers that go on where the delivered bytes end.
    pub fn insert_compact_and_drain_into(
        &mut self,
        arena: &mut Arena,
        offset: u64,
        data_len: usize,
        compact: &[u8],
        limits: InsertLimits,
        output: &mut ReadySegments,
    ) -> (result: Result<(), InsertError>)
        requires
            old(self).wf(),
            old(output).wf(),
            joined(old(output)@).len() + measure(old(self)@.spans) + data_len <= usize::MAX,
            compact@.len() == measure(old(self)@.wanted(offset as int, data_len as int)),
        ensures
            final(self).wf(),
            final(output).wf(),
            final(arena).limit() == old(arena).limit(),
            final(arena).live() - final(self)@.spans.len() - final(output)@.len() == old(
                arena,
            ).live() - old(self)@.spans.len() - old(output)@.len(),
            ({
                let m = old(self)@;
                let remaining = old(arena).limit() - old(arena).live();
                let refusal = if offset + data_len <= u64::MAX && m.continues(
                    offset as int,
                    data_len as int,
                ) {
                    if remaining == 0 {
                        Some(InsertError::BufferFull)
                    } else {
                        None
                    }
                } else {
                    m.refusal(offset as int, data_len as int, limits, remaining)
                };
                match result {
                    Ok(()) => {
                        &&& refusal is None
                        &&& left_from(
                            m.spans,
                            m.wanted(offset as int, data_len as int),
                            final(self)@.next,
                            final(self)@.spans,
                        )
                        &&& final(arena).live() == old(arena).live() + m.wanted(
                            offset as int,
                            data_len as int,
                        ).len()
                        &&& forall|data: Seq<u8>|
                            data.len() == data_len && #[trigger] picked(
                                data,
                                m.wanted(offset as int, data_len as int),
                                offset as int,
                            ) == compact@ ==> {
                                let bytes = m.taken(offset as int, data);
                                &&& StoreModel::delivers(bytes, m.next, final(self)@.next)
                                &&& joined(final(output)@) == joined(old(output)@) + stretch(
                                    bytes,
                                    m.next,
                                    final(self)@.next,
                                )
                                &&& final(self)@.held == beyond(bytes, final(self)@.next)
                                &&& handed(
                                    m.spans,
                                    m.wanted(offset as int, data_len as int),
                                    final(self)@.next,
                                    bytes,
                                    old(output)@,
                                    final(output)@,
                                )
                            }
                    },
                    Err(error) => {
                        &&& refusal == Some(error)
                        &&& final(self)@ == m
                        &&& final(output)@ == old(output)@
                    },
                }
            }),
    {
        let ghost m = self@;
        if data_len as u64 > u64::MAX - offset {
            return Err(InsertError::OffsetOverflow);
        }
        let end: u64 = offset + data_len as u64;
        let from: u64 = if offset >= self.next {
            offset
        } else {
            self.next
        };
        let spans = self.spans();
        let ghost wanted = m.wanted(offset as int, data_len as int);
        proof {
            lemma_missing(m.spans, from as int, end as int);
        }
        let data = match collect_missing(&spans, from, end, usize::MAX) {
            Ok(parts) => spread(&parts, offset, data_len, compact),
            Err(error) => {
                proof {
                    if from <= end {
                        lemma_count_bound(wanted, from as int, end as int);
                    }
                }
                return Err(error);
            },
        };
        let result = self.insert_retained_and_drain_into(
            arena,
            offset,
            data.as_slice(),
            limits,
            output,
        );
        proof {
            if result is Ok {
                assert forall|other: Seq<u8>|
                    other.len() == data_len && #[trigger] picked(other, wanted, offset as int)
                        == compact@ implies m.taken(offset as int, other) == m.taken(
                    offset as int,
                    data@,
                ) by {
                    lemma_picked_same(m, offset as int, other, data@);
                }
            }
        }
        result
    }
}

/// The bytes of some places, joined.
pub open spec fn picked(data: Seq<u8>, parts: Seq<(int, int)>, offset: int) -> Seq<u8>
    decreases parts.len(),
{
    if parts.len() == 0 {
        Seq::empty()
    } else {
        picked(data, parts.drop_last(), offset) + data.subrange(
            parts.last().0 - offset,
            parts.last().1 - offset,
        )
    }
}

/// There are no more ranges than bytes.
proof fn lemma_count_bound(spans: Seq<(int, int)>, from: int, to: int)
    requires
        in_order(spans),
        from <= to,
        forall|i: int|
            0 <= i < spans.len() ==> from <= (#[trigger] spans[i]).0 && spans[i].1 <= to,
    ensures
        spans.len() <= to - from,
    decreases spans.len(),
{
    if spans.len() > 0 {
        let fewer = spans.drop_last();
        assert forall|i: int| 0 <= i < fewer.len() implies from <= (#[trigger] fewer[i]).0
            && fewer[i].1 <= spans.last().0 by {
            assert(fewer[i] == spans[i]);
        }
        assert(in_order(fewer)) by {
            assert forall|i: int| 0 <= i < fewer.len() implies (#[trigger] fewer[i]).0
                < fewer[i].1 by {
                assert(fewer[i] == spans[i]);
            }
            assert forall|i: int, j: int| 0 <= i < j < fewer.len() implies (
            #[trigger] fewer[i]).1 <= (#[trigger] fewer[j]).0 by {
                assert(fewer[i] == spans[i] && fewer[j] == spans[j]);
            }
        }
        lemma_count_bound(fewer, from, spans.last().0);
    }
}

/// As many bytes as the places have.
proof fn lemma_picked_len(data: Seq<u8>, parts: Seq<(int, int)>, offset: int)
    requires
        forall|i: int|
            0 <= i < parts.len() ==> offset <= (#[trigger] parts[i]).0 < parts[i].1 <= offset
                + data.len(),
    ensures
        picked(data, parts, offset).len() == measure(parts),
    decreases parts.len(),
{
    if parts.len() > 0 {
        assert forall|i: int| 0 <= i < parts.drop_last().len() implies offset <= (
        #[trigger] parts.drop_last()[i]).0 < parts.drop_last()[i].1 <= offset + data.len() by {
            assert(parts.drop_last()[i] == parts[i]);
        }
        lemma_picked_len(data, parts.drop_last(), offset);
        assert(parts.last() == parts[parts.len() - 1]);
    }
}

/// Where the picked bytes are the same, the bytes of the places are.
proof fn lemma_picked_equal(one: Seq<u8>, other: Seq<u8>, parts: Seq<(int, int)>, offset: int)
    requires
        one.len() == other.len(),
        forall|i: int|
            0 <= i < parts.len() ==> offset <= (#[trigger] parts[i]).0 < parts[i].1 <= offset
                + one.len(),
        picked(one, parts, offset) == picked(other, parts, offset),
    ensures
        forall|x: int| #[trigger] covered(parts, x) ==> one[x - offset] == other[x - offset],
    decreases parts.len(),
{
    if parts.len() > 0 {
        let fewer = parts.drop_last();
        let last = parts.last();
        assert forall|i: int| 0 <= i < fewer.len() implies offset <= (#[trigger] fewer[i]).0
            < fewer[i].1 <= offset + one.len() by {
            assert(fewer[i] == parts[i]);
        }
        assert(last == parts[parts.len() - 1]);
        lemma_picked_len(one, fewer, offset);
        lemma_picked_len(other, fewer, offset);
        let p = picked(one, fewer, offset);
        let q = picked(other, fewer, offset);
        let a = one.subrange(last.0 - offset, last.1 - offset);
        let b = other.subrange(last.0 - offset, last.1 - offset);
        assert(p =~= (p + a).subrange(0, p.len() as int));
        assert(q =~= (q + b).subrange(0, q.len() as int));
        assert(a =~= (p + a).subrange(p.len() as int, (p + a).len() as int));
        assert(b =~= (q + b).subrange(q.len() as int, (q + b).len() as int));
        assert(p == q && a == b);
        lemma_picked_equal(one, other, fewer, offset);
        assert forall|x: int| #[trigger] covered(parts, x) implies one[x - offset] == other[x
            - offset] by {
            assert(parts =~= fewer.push(last));
            lemma_covered_push(fewer, last, x);
            if last.0 <= x < last.1 {
                assert(a[x - last.0] == b[x - last.0]);
            }
        }
    }
}

/// What is taken depends on the wanted bytes only.
proof fn lemma_picked_same(m: StoreModel, offset: int, one: Seq<u8>, other: Seq<u8>)
    requires
        m.sound(),
        one.len() == other.len(),
        picked(one, m.wanted(offset, one.len() as int), offset) == picked(
            other,
            m.wanted(offset, one.len() as int),
            offset,
        ),
    ensures
        m.taken(offset, one) == m.taken(offset, other),
{
    let from = greater(offset, m.next);
    let end = offset + one.len();
    let wanted = m.wanted(offset, one.len() as int);
    lemma_missing(m.spans, from, end);
    assert forall|i: int| 0 <= i < wanted.len() implies offset <= (#[trigger] wanted[i]).0
        < wanted[i].1 <= offset + one.len() by {}
    lemma_picked_equal(one, other, wanted, offset);
    assert forall|x: int| from <= x < end && !m.held.dom().contains(x) implies one[x - offset]
        == other[x - offset] by {
        assert(covered(wanted, x));
    }
    assert(m.taken(offset, one) =~= m.taken(offset, other));
}

/// Puts joined bytes back in their places.
fn spread(parts: &Vec<(u64, u64)>, offset: u64, len: usize, compact: &[u8]) -> (data: Vec<u8>)
    requires
        in_order(spans_of(parts@)),
        forall|i: int|
            0 <= i < parts@.len() ==> offset <= (#[trigger] spans_of(parts@)[i]).0 && spans_of(
                parts@,
            )[i].1 <= offset + len,
        compact@.len() == measure(spans_of(parts@)),
    ensures
        data@.len() == len,
        picked(data@, spans_of(parts@), offset as int) == compact@,
{
    let ghost spans = spans_of(parts@);
    let mut data: Vec<u8> = Vec::new();
    let total: usize = compact.len();
    let mut k: usize = 0;
    let mut cursor: usize = 0;
    assert(compact@.subrange(0, 0) =~= Seq::empty());
    assert(spans.subrange(0, 0) =~= Seq::empty());
    while k < parts.len()
        invariant
            k <= parts@.len(),
            spans == spans_of(parts@),
            in_order(spans),
            forall|i: int|
                0 <= i < parts@.len() ==> offset <= (#[trigger] spans[i]).0 && spans[i].1 <= offset
                    + len,
            total == compact@.len() == measure(spans),
            cursor == measure(spans.subrange(0, k as int)),
            cursor <= compact@.len(),
            data@.len() <= len,
            k > 0 ==> data@.len() == spans[k - 1].1 - offset,
            k == 0 ==> data@.len() == 0,
            picked(data@, spans.subrange(0, k as int), offset as int) == compact@.subrange(
                0,
                cursor as int,
            ),
        decreases parts@.len() - k,
    {
        let part = parts[k];
        let ghost done = spans.subrange(0, k as int);
        let ghost more = spans.subrange(0, k + 1);
        assert(spans[k as int] == span(part));
        let start: usize = (part.0 - offset) as usize;
        let size: usize = (part.1 - part.0) as usize;
        proof {
            assert(more.drop_last() =~= done);
            assert(more.last() == span(part));
            if k > 0 {
                assert(spans[k - 1].1 <= spans[k as int].0);
            }
            lemma_measure_prefix(spans, k + 1);
        }
        let ghost before = data@;
        while data.len() < start
            invariant
                before.len() <= data@.len() <= start,
                data@.subrange(0, before.len() as int) == before,
            decreases start - data@.len(),
        {
            let ghost so_far = data@;
            data.push(0);
            assert(data@.subrange(0, before.len() as int) =~= so_far.subrange(
                0,
                before.len() as int,
            ));
        }
        let piece = vstd::slice::slice_subrange(compact, cursor, cursor + size);
        let ghost padded = data@;
        crate::frame::put_bytes(&mut data, piece);
        proof {
            assert forall|i: int| 0 <= i < done.len() implies offset <= (#[trigger] done[i]).0
                < done[i].1 <= offset + before.len() by {
                assert(done[i] == spans[i]);
                if i < k - 1 {
                    assert(spans[i].1 <= spans[k - 1].0);
                }
            }
            assert(data@.subrange(0, before.len() as int) =~= padded.subrange(
                0,
                before.len() as int,
            ));
            lemma_picked_prefix(before, data@, done, offset as int);
            assert(data@.subrange(start as int, start + size) =~= piece@);
            assert(compact@.subrange(0, cursor + size) =~= compact@.subrange(0, cursor as int)
                + piece@);
        }
        cursor = cursor + size;
        k = k + 1;
    }
    assert(spans.subrange(0, k as int) =~= spans);
    assert(compact@.subrange(0, cursor as int) =~= compact@);
    let ghost before = data@;
    while data.len() < len
        invariant
            before.len() <= data@.len() <= len,
            data@.subrange(0, before.len() as int) == before,
        decreases len - data@.len(),
    {
        let ghost so_far = data@;
        data.push(0);
        assert(data@.subrange(0, before.len() as int) =~= so_far.subrange(0, before.len() as int));
    }
    proof {
        assert forall|i: int| 0 <= i < spans.len() implies offset <= (#[trigger] spans[i]).0
            < spans[i].1 <= offset + before.len() by {
            if i < spans.len() - 1 {
                assert(spans[i].1 <= spans[spans.len() - 1].0);
            }
        }
        lemma_picked_prefix(before, data@, spans, offset as int);
    }
    data
}

/// Some ranges have no greater total length than all.
proof fn lemma_measure_prefix(spans: Seq<(int, int)>, count: int)
    requires
        0 <= count <= spans.len(),
        forall|i: int| 0 <= i < spans.len() ==> (#[trigger] spans[i]).0 < spans[i].1,
    ensures
        measure(spans.subrange(0, count)) <= measure(spans),
    decreases spans.len() - count,
{
    if count == spans.len() {
        assert(spans.subrange(0, count) =~= spans);
    } else {
        lemma_measure_prefix(spans, count + 1);
        assert(spans.subrange(0, count + 1).drop_last() =~= spans.subrange(0, count));
        assert(spans.subrange(0, count + 1).last() == spans[count]);
    }
}

/// Later bytes do not matter to what is picked.
proof fn lemma_picked_prefix(short: Seq<u8>, long: Seq<u8>, parts: Seq<(int, int)>, offset: int)
    requires
        short.len() <= long.len(),
        long.subrange(0, short.len() as int) == short,
        forall|i: int|
            0 <= i < parts.len() ==> offset <= (#[trigger] parts[i]).0 < parts[i].1 <= offset
                + short.len(),
    ensures
        picked(long, parts, offset) == picked(short, parts, offset),
    decreases parts.len(),
{
    if parts.len() > 0 {
        let fewer = parts.drop_last();
        assert forall|i: int| 0 <= i < fewer.len() implies offset <= (#[trigger] fewer[i]).0
            < fewer[i].1 <= offset + short.len() by {
            assert(fewer[i] == parts[i]);
        }
        lemma_picked_prefix(short, long, fewer, offset);
        let last = parts.last();
        assert(last == parts[parts.len() - 1]);
        let p = long.subrange(last.0 - offset, last.1 - offset);
        let q = short.subrange(last.0 - offset, last.1 - offset);
        assert forall|i: int| 0 <= i < p.len() implies #[trigger] p[i] == q[i] by {
            assert(long.subrange(0, short.len() as int)[last.0 - offset + i] == short[last.0
                - offset + i]);
        }
        assert(p =~= q);
    }
}

/// Whether bytes are those of a stream.
pub open spec fn agrees(bytes: Map<int, u8>, stream: spec_fn(int) -> u8) -> bool {
    forall|x: int| #[trigger] bytes.dom().contains(x) ==> bytes[x] == stream(x)
}

/// However the bytes of a stream arrive, in whatever order, cut and repetition:
/// what is delivered is the stream, byte by byte, and what waits is the stream
/// too.
pub proof fn law_reassembly(
    m: StoreModel,
    offset: int,
    data: Seq<u8>,
    next: int,
    stream: spec_fn(int) -> u8,
)
    requires
        agrees(m.held, stream),
        forall|i: int| 0 <= i < data.len() ==> #[trigger] data[i] == stream(offset + i),
        StoreModel::delivers(m.taken(offset, data), m.next, next),
    ensures
        stretch(m.taken(offset, data), m.next, next) == Seq::new(
            (next - m.next) as nat,
            |i: int| stream(m.next + i),
        ),
        agrees(beyond(m.taken(offset, data), next), stream),
{
    let bytes = m.taken(offset, data);
    assert forall|x: int| #[trigger] bytes.dom().contains(x) implies bytes[x] == stream(x) by {
        if !m.held.dom().contains(x) {
            assert(data[x - offset] == stream(offset + (x - offset)));
        }
    }
    let out = stretch(bytes, m.next, next);
    let wanted = Seq::new((next - m.next) as nat, |i: int| stream(m.next + i));
    assert forall|i: int| 0 <= i < out.len() implies out[i] == wanted[i] by {
        assert(bytes.dom().contains(m.next + i));
    }
    assert(out =~= wanted);
}

/// A plan that goes on from a store delivers as far as the store does, and wants
/// the same bytes.
pub proof fn law_plan_agrees(
    store: StoreModel,
    plan: PlanModel,
    offset: int,
    data: Seq<u8>,
    store_next: int,
    plan_next: int,
)
    requires
        store.sound(),
        plan.next == store.next,
        plan.spans == store.spans,
        StoreModel::delivers(store.taken(offset, data), store.next, store_next),
        plan.next <= plan_next,
        forall|x: int|
            plan.next <= x < plan_next ==> #[trigger] plan.known(offset, data.len() as int, x),
        !plan.known(offset, data.len() as int, plan_next),
    ensures
        store_next == plan_next,
        plan.wanted(offset, data.len() as int) == store.wanted(offset, data.len() as int),
{
    let bytes = store.taken(offset, data);
    assert(forall|x: int| #[trigger]
        bytes.dom().contains(x) == plan.known(offset, data.len() as int, x));
    if store_next < plan_next {
        assert(plan.known(offset, data.len() as int, store_next));
        assert(bytes.dom().contains(store_next));
    }
    if plan_next < store_next {
        assert(bytes.dom().contains(plan_next));
    }
}

/// What waits after new bytes came is settled: there is one way to hold ranges in order.
pub proof fn law_ranges_determined(one: Seq<(int, int)>, other: Seq<(int, int)>)
    requires
        in_order(one),
        in_order(other),
        forall|range: (int, int)| #[trigger] one.contains(range) == other.contains(range),
    ensures
        one == other,
    decreases one.len(),
{
    if one.len() == 0 {
        if other.len() > 0 {
            assert(other.contains(other[0]));
            assert(one.contains(other[0]));
        }
        assert(one =~= other);
    } else {
        assert(one.contains(one.last()));
        assert(other.len() > 0);
        assert(other.contains(other.last()));
        assert(one.contains(other.last()));
        let i = choose|i: int| 0 <= i < one.len() && one[i] == other.last();
        let j = choose|j: int| 0 <= j < other.len() && other[j] == one.last();
        assert(one.last() == other.last());
        let a = one.drop_last();
        let b = other.drop_last();
        assert forall|range: (int, int)| #[trigger] a.contains(range) == b.contains(range) by {
            if a.contains(range) {
                let k = choose|k: int| 0 <= k < a.len() && a[k] == range;
                assert(one[k] == range);
                assert(one[k].1 <= one[one.len() - 1].0);
                assert(one.contains(range));
                let l = choose|l: int| 0 <= l < other.len() && other[l] == range;
                assert(b[l] == range);
            }
            if b.contains(range) {
                let k = choose|k: int| 0 <= k < b.len() && b[k] == range;
                assert(other[k] == range);
                assert(other[k].1 <= other[other.len() - 1].0);
                assert(other.contains(range));
                assert(one.contains(range));
                let l = choose|l: int| 0 <= l < one.len() && one[l] == range;
                assert(a[l] == range);
            }
        }
        law_ranges_determined(a, b);
        assert(one =~= a.push(one.last()));
        assert(other =~= b.push(other.last()));
    }
}

/// Of bytes that arrive twice the first count; what was delivered is not taken again; all
/// else is taken at its offset.
pub proof fn law_first_bytes_count(store: StoreModel, offset: int, data: Seq<u8>, x: int)
    ensures
        ({
            let bytes = store.taken(offset, data);
            &&& store.held.dom().contains(x) ==> bytes.dom().contains(x) && bytes[x]
                == store.held[x]
            &&& !store.held.dom().contains(x) && x < store.next ==> !bytes.dom().contains(x)
            &&& !store.held.dom().contains(x) && !(offset <= x < offset + data.len())
                ==> !bytes.dom().contains(x)
            &&& !store.held.dom().contains(x) && store.next <= x && offset <= x < offset
                + data.len() ==> bytes.dom().contains(x) && bytes[x] == data[x - offset]
        }),
{
}

/// Bytes are delivered in order: as many as are there without a gap, and each at its offset.
pub proof fn law_delivered_without_a_gap(bytes: Map<int, u8>, from: int, to: int, other: int)
    requires
        StoreModel::delivers(bytes, from, to),
        StoreModel::delivers(bytes, from, other),
    ensures
        to == other,
        stretch(bytes, from, to).len() == to - from,
        forall|i: int|
            0 <= i < to - from ==> #[trigger] stretch(bytes, from, to)[i] == bytes[from + i],
        forall|x: int| #[trigger]
            beyond(bytes, to).dom().contains(x) == (bytes.dom().contains(x) && x > to),
{
    if to < other {
        assert(bytes.dom().contains(to));
    } else if other < to {
        assert(bytes.dom().contains(other));
    }
}

/// The length of ranges is that of each, together.
pub proof fn law_measure_adds(first: Seq<(int, int)>, second: Seq<(int, int)>, range: (int, int))
    ensures
        measure(first + second) == measure(first) + measure(second),
        measure(seq![range]) == range.1 - range.0,
        measure(Seq::<(int, int)>::empty()) == 0,
    decreases second.len(),
{
    reveal_with_fuel(measure, 2);
    assert(seq![range].drop_last() =~= Seq::empty());
    if second.len() == 0 {
        assert(first + second =~= first);
    } else {
        law_measure_adds(first, second.drop_last(), range);
        assert((first + second).drop_last() =~= first + second.drop_last());
    }
}

/// New bytes are refused exactly where they end beyond what an offset can tell, or what of
/// them is not here yet makes too many ranges or too many bytes. What is here already is
/// never refused.
pub proof fn law_what_is_refused(
    store: StoreModel,
    offset: int,
    len: int,
    limits: InsertLimits,
    remaining: int,
)
    requires
        remaining >= 0,
    ensures
        ({
            let parts = store.wanted(offset, len);
            let ranges = store.spans.len() + parts.len();
            let bytes = measure(store.spans) + measure(parts);
            match store.refusal(offset, len, limits, remaining) {
                Some(InsertError::OffsetOverflow) => offset + len > u64::MAX,
                Some(InsertError::TooManyRanges) => parts.len() > 0 && (parts.len() > remaining
                    || ranges > limits.max_ranges),
                Some(InsertError::BufferFull) => parts.len() > 0 && bytes > limits.max_bytes,
                None => {
                    &&& offset + len <= u64::MAX
                    &&& parts.len() == 0 || (parts.len() <= remaining && ranges
                        <= limits.max_ranges && bytes <= limits.max_bytes)
                },
            }
        }),
{
}

} // verus!
