//! Packet number spaces: what was received, and how it is acknowledged.

use vstd::prelude::*;

use crate::clock::Instant;
use crate::frame::laws::descends;
use crate::varint::VarInt;

verus! {

/// The most intervals that an ACK frame describes.
pub const MAX_ACK_INTERVALS: usize = 257;

/// How far back received packet numbers are remembered. A window of this
/// length holds at most `MAX_ACK_INTERVALS` intervals.
pub const RECEIVED_WINDOW_BITS: usize = 513;

/// The number of 64-bit words of the window.
pub const RECEIVED_WINDOW_WORDS: usize = 9;

/// The number of intervals of consecutive members from `lo` to `hi`.
pub open spec fn intervals(s: Set<int>, lo: int, hi: int) -> nat
    decreases hi - lo + 1,
{
    if hi < lo {
        0
    } else {
        intervals(s, lo, hi - 1) + if starts(s, lo, hi) {
            1nat
        } else {
            0nat
        }
    }
}

/// Whether an interval begins at `at`, where nothing below `lo` counts.
pub open spec fn starts(s: Set<int>, lo: int, at: int) -> bool {
    s.contains(at) && (at == lo || !s.contains(at - 1))
}

/// The lowest number of the interval that ends at `at`.
pub open spec fn interval_start(s: Set<int>, lo: int, at: int) -> int
    decreases at - lo,
{
    if at > lo && s.contains(at - 1) {
        interval_start(s, lo, at - 1)
    } else {
        at
    }
}

/// The intervals at or below `cursor`, from high to low, as an ACK frame
/// writes them: the gap to the interval above, which begins at `above`, and
/// the length.
pub open spec fn ack_pairs(s: Set<int>, lo: int, cursor: int, above: int) -> Seq<(int, int)>
    decreases cursor - lo + 1,
{
    if cursor < lo {
        seq![]
    } else if !s.contains(cursor) {
        ack_pairs(s, lo, cursor - 1, above)
    } else {
        let first = interval_start(s, lo, cursor);
        if lo <= first <= cursor {
            seq![(above - cursor - 2, cursor - first)] + ack_pairs(s, lo, first - 1, first)
        } else {
            seq![]
        }
    }
}

/// The numbers that ACK pairs below `above` acknowledge.
pub open spec fn acknowledged(pairs: Seq<(int, int)>, above: int, pn: int) -> bool
    decreases pairs.len(),
{
    if pairs.len() == 0 {
        false
    } else {
        let largest = above - pairs[0].0 - 2;
        let smallest = largest - pairs[0].1;
        smallest <= pn <= largest || acknowledged(
            pairs.subrange(1, pairs.len() as int),
            smallest,
            pn,
        )
    }
}

/// The packet numbers of a window that were received. Numbers below the window
/// count as received: a packet that old is not accepted any more.
#[derive(Debug)]
struct ReceivedPackets {
    words: [u64; 9],
    largest: u64,
    first_smallest: u64,
    ranges: u16,
}

/// Whether bit `slot` of the words is set.
spec fn slot_set(words: Seq<u64>, slot: int) -> bool {
    words[slot / 64] & (1u64 << ((slot % 64) as u64)) != 0
}

proof fn lemma_bit_ops(word: u64, a: u64, b: u64)
    requires
        a < 64,
        b < 64,
    ensures
        ((word | (1u64 << a)) & (1u64 << b) != 0) == (a == b || word & (1u64 << b) != 0),
        ((word & !(1u64 << a)) & (1u64 << b) != 0) == (a != b && word & (1u64 << b) != 0),
{
    assert(((word | (1u64 << a)) & (1u64 << b) != 0) == (a == b || word & (1u64 << b) != 0))
        by (bit_vector)
        requires
            a < 64,
            b < 64,
    ;
    assert(((word & !(1u64 << a)) & (1u64 << b) != 0) == (a != b && word & (1u64 << b) != 0))
        by (bit_vector)
        requires
            a < 64,
            b < 64,
    ;
}

proof fn lemma_zero_word(b: u64)
    requires
        b < 64,
    ensures
        0u64 & (1u64 << b) == 0,
{
    assert(0u64 & (1u64 << b) == 0) by (bit_vector);
}

/// The lowest number of the window that ends at `largest`.
spec fn window_base(largest: int) -> int {
    if largest >= RECEIVED_WINDOW_BITS - 1 {
        largest - (RECEIVED_WINDOW_BITS - 1)
    } else {
        0
    }
}

/// The slot of a number.
spec fn slot_of(pn: int) -> int {
    pn % (RECEIVED_WINDOW_BITS as int)
}

/// The numbers of the window that are marked.
spec fn window_set(words: Seq<u64>, largest: int) -> Set<int> {
    Set::new(|pn: int| window_base(largest) <= pn <= largest && slot_set(words, slot_of(pn)))
}

/// Every set slot belongs to a number of the window.
#[verifier::opaque]
spec fn no_strays_in(words: Seq<u64>, largest: int) -> bool {
    forall|slot: int|
        #![trigger slot_set(words, slot)]
        0 <= slot < RECEIVED_WINDOW_BITS && slot_set(words, slot) ==> exists|pn: int|
            window_base(largest) <= pn <= largest && #[trigger] slot_of(pn) == slot
}

/// Clearing slots leaves none astray, and neither does setting the slot of a
/// number of the window.
proof fn lemma_strays(a: Seq<u64>, b: Seq<u64>, largest: int, at: int)
    requires
        no_strays_in(a, largest),
        window_base(largest) <= at <= largest,
        forall|slot: int|
            0 <= slot < RECEIVED_WINDOW_BITS && #[trigger] slot_set(b, slot) ==> slot == slot_of(at)
                || slot_set(a, slot),
    ensures
        no_strays_in(b, largest),
{
    reveal(no_strays_in);
    assert forall|slot: int|
        #![trigger slot_set(b, slot)]
        0 <= slot < RECEIVED_WINDOW_BITS && slot_set(b, slot) implies exists|pn: int|
        window_base(largest) <= pn <= largest && #[trigger] slot_of(pn) == slot by {
        if slot == slot_of(at) {
            assert(window_base(largest) <= at <= largest);
        } else {
            assert(slot_set(a, slot));
        }
    }
}

impl ReceivedPackets {
    spec fn low(self) -> int {
        window_base(self.largest as int)
    }

    /// Whether the slot of a number is set.
    spec fn marked(self, pn: int) -> bool {
        slot_set(self.words@, slot_of(pn))
    }

    /// The received numbers of the window.
    spec fn set(self) -> Set<int> {
        window_set(self.words@, self.largest as int)
    }

    spec fn no_strays(self) -> bool {
        no_strays_in(self.words@, self.largest as int)
    }

    spec fn wf(self) -> bool {
        &&& self.no_strays()
        &&& self.ranges == intervals(self.set(), self.low(), self.largest as int)
        &&& if self.ranges == 0 {
            forall|slot: int|
                0 <= slot < RECEIVED_WINDOW_BITS ==> !#[trigger] slot_set(self.words@, slot)
        } else {
            &&& self.set().contains(self.largest as int)
            &&& self.first_smallest == interval_start(
                self.set(),
                self.low(),
                self.largest as int,
            )
        }
    }

    fn bit(&self, pn: u64) -> (result: bool)
        ensures
            result == self.marked(pn as int),
    {
        let slot: usize = (pn % 513) as usize;
        self.words[slot / 64] & (1u64 << ((slot % 64) as u64)) != 0
    }

    fn set_bit(&mut self, pn: u64)
        ensures
            final(self).largest == old(self).largest,
            final(self).first_smallest == old(self).first_smallest,
            final(self).ranges == old(self).ranges,
            forall|slot: int|
                0 <= slot < RECEIVED_WINDOW_BITS ==> #[trigger] slot_set(final(self).words@, slot)
                    == (slot == slot_of(pn as int) || slot_set(old(self).words@, slot)),
    {
        let slot: usize = (pn % 513) as usize;
        let index: usize = slot / 64;
        let ghost before = self.words@;
        let word: u64 = self.words[index];
        self.words[index] = word | (1u64 << ((slot % 64) as u64));
        proof {
            assert forall|s: int| 0 <= s < RECEIVED_WINDOW_BITS implies #[trigger] slot_set(
                self.words@,
                s,
            ) == (s == slot || slot_set(before, s)) by {
                lemma_bit_ops(word, (slot % 64) as u64, (s % 64) as u64);
                if s / 64 == index {
                    assert(s == slot <==> s % 64 == slot % 64);
                }
            }
        }
    }

    fn clear_bit(&mut self, pn: u64)
        ensures
            final(self).largest == old(self).largest,
            final(self).first_smallest == old(self).first_smallest,
            final(self).ranges == old(self).ranges,
            forall|slot: int|
                0 <= slot < RECEIVED_WINDOW_BITS ==> #[trigger] slot_set(final(self).words@, slot)
                    == (slot != slot_of(pn as int) && slot_set(old(self).words@, slot)),
    {
        let slot: usize = (pn % 513) as usize;
        let index: usize = slot / 64;
        let ghost before = self.words@;
        let word: u64 = self.words[index];
        self.words[index] = word & !(1u64 << ((slot % 64) as u64));
        proof {
            assert forall|s: int| 0 <= s < RECEIVED_WINDOW_BITS implies #[trigger] slot_set(
                self.words@,
                s,
            ) == (s != slot && slot_set(before, s)) by {
                lemma_bit_ops(word, (slot % 64) as u64, (s % 64) as u64);
                if s / 64 == index {
                    assert(s == slot <==> s % 64 == slot % 64);
                }
            }
        }
    }

    fn new() -> (received: ReceivedPackets)
        ensures
            received.wf(),
            received.ranges == 0,
    {
        let received = ReceivedPackets {
            words: [0; 9],
            largest: 0,
            first_smallest: 0,
            ranges: 0,
        };
        proof {
            reveal(no_strays_in);
            assert forall|slot: int| 0 <= slot < RECEIVED_WINDOW_BITS implies !#[trigger] slot_set(
                received.words@,
                slot,
            ) by {
                lemma_zero_word((slot % 64) as u64);
            }
            lemma_no_intervals(received.set(), 0, 0);
        }
        received
    }

    fn base(&self) -> (base: u64)
        ensures
            base == self.low(),
    {
        self.largest.saturating_sub(RECEIVED_WINDOW_BITS as u64 - 1)
    }

    fn largest(&self) -> (result: Option<u64>)
        ensures
            result == if self.ranges != 0 {
                Some(self.largest)
            } else {
                None::<u64>
            },
    {
        if self.ranges != 0 {
            Some(self.largest)
        } else {
            None
        }
    }

    fn contains(&self, pn: u64) -> (result: bool)
        requires
            self.wf(),
        ensures
            result == (self.ranges != 0 && (pn < self.low() || self.set().contains(pn as int))),
    {
        match self.largest() {
            Some(largest) => pn < self.base() || pn <= largest && self.bit(pn),
            None => false,
        }
    }

    /// Numbers less than a window apart have slots of their own.
    proof fn lemma_slots(x: int, y: int)
        requires
            0 <= x,
            0 <= y,
            x - y < RECEIVED_WINDOW_BITS,
            y - x < RECEIVED_WINDOW_BITS,
        ensures
            0 <= slot_of(x) < RECEIVED_WINDOW_BITS,
            slot_of(x) == slot_of(y) ==> x == y,
    {
    }

    /// A number above the window has no mark of its own.
    proof fn lemma_unmarked_above(self, pn: int)
        requires
            self.no_strays(),
            self.largest < pn < self.low() + RECEIVED_WINDOW_BITS,
        ensures
            !self.marked(pn),
    {
        reveal(no_strays_in);
        if self.marked(pn) {
            Self::lemma_slots(pn, pn);
            let other = choose|x: int|
                self.low() <= x <= self.largest && #[trigger] slot_of(x) == slot_of(pn);
            Self::lemma_slots(pn, other);
        }
    }

    /// Clearing the slot of a number takes it out, and no other.
    proof fn lemma_cleared(before: ReceivedPackets, after: ReceivedPackets, at: int)
        requires
            before.no_strays(),
            after.largest == before.largest,
            before.low() <= at <= before.largest,
            forall|slot: int|
                0 <= slot < RECEIVED_WINDOW_BITS ==> #[trigger] slot_set(after.words@, slot) == (
                slot != slot_of(at) && slot_set(before.words@, slot)),
        ensures
            after.no_strays(),
            after.set() == before.set().remove(at),
    {
        assert forall|x: int| before.low() <= x <= before.largest implies after.marked(x) == (x
            != at && before.marked(x)) by {
            Self::lemma_slots(x, at);
        }
        assert(after.set() =~= before.set().remove(at));
        lemma_strays(before.words@, after.words@, before.largest as int, at);
    }

    fn remove_bit(&mut self, pn: u64)
        requires
            old(self).no_strays(),
            old(self).ranges == intervals(
                old(self).set(),
                old(self).low(),
                old(self).largest as int,
            ),
            old(self).low() <= pn < old(self).low() + RECEIVED_WINDOW_BITS,
        ensures
            final(self).no_strays(),
            final(self).ranges == intervals(
                final(self).set(),
                final(self).low(),
                final(self).largest as int,
            ),
            final(self).largest == old(self).largest,
            final(self).first_smallest == old(self).first_smallest,
            final(self).set() == old(self).set().remove(pn as int),
    {
        let ghost s = self.set();
        let ghost lo = self.low();
        let ghost hi = self.largest as int;
        let ghost at = pn as int;
        if !self.bit(pn) {
            assert(s =~= s.remove(at));
            return;
        }
        proof {
            if at > hi {
                self.lemma_unmarked_above(at);
            }
            lemma_insert_intervals(s.remove(at), lo, hi, at);
            assert(s =~= s.remove(at).insert(at));
            lemma_interval_bound(s, lo, hi);
            lemma_interval_bound(s.remove(at), lo, hi);
            lemma_has_interval(s, lo, hi, at);
        }
        let joins_previous = pn > self.base() && self.bit(pn - 1);
        let joins_next = pn < self.largest && self.bit(pn + 1);
        if !joins_previous && !joins_next {
            self.ranges = self.ranges - 1;
        } else if joins_previous && joins_next {
            self.ranges = self.ranges + 1;
        }
        let ghost before = *self;
        self.clear_bit(pn);
        proof {
            Self::lemma_cleared(before, *self, at);
        }
    }

    fn add_bit(&mut self, pn: u64)
        requires
            old(self).no_strays(),
            old(self).ranges == intervals(
                old(self).set(),
                old(self).low(),
                old(self).largest as int,
            ),
            old(self).low() <= pn <= old(self).largest,
            !old(self).marked(pn as int),
        ensures
            final(self).no_strays(),
            final(self).ranges == intervals(
                final(self).set(),
                final(self).low(),
                final(self).largest as int,
            ),
            final(self).largest == old(self).largest,
            final(self).first_smallest == old(self).first_smallest,
            final(self).set() == old(self).set().insert(pn as int),
    {
        let ghost s = self.set();
        let ghost lo = self.low();
        let ghost hi = self.largest as int;
        let ghost at = pn as int;
        proof {
            lemma_insert_intervals(s, lo, hi, at);
            lemma_interval_bound(s, lo, hi);
            lemma_interval_bound(s.insert(at), lo, hi);
            lemma_has_interval(s.insert(at), lo, hi, at);
        }
        let joins_previous = pn > self.base() && self.bit(pn - 1);
        let joins_next = pn < self.largest && self.bit(pn + 1);
        if !joins_previous && !joins_next {
            self.ranges = self.ranges + 1;
        } else if joins_previous && joins_next {
            self.ranges = self.ranges - 1;
        }
        let ghost before = *self;
        self.set_bit(pn);
        proof {
            assert forall|x: int| lo <= x <= hi implies self.marked(x) == (x == at
                || before.marked(x)) by {
                Self::lemma_slots(x, at);
            }
            assert(self.set() =~= s.insert(at));
            lemma_strays(before.words@, self.words@, hi, at);
        }
    }

    /// Forgets all numbers.
    fn clear(&mut self)
        ensures
            final(self).ranges == 0,
            final(self).largest == old(self).largest,
            final(self).first_smallest == old(self).first_smallest,
            forall|slot: int|
                0 <= slot < RECEIVED_WINDOW_BITS ==> !#[trigger] slot_set(
                    final(self).words@,
                    slot,
                ),
    {
        self.words = [0; 9];
        self.ranges = 0;
        proof {
            assert forall|slot: int| 0 <= slot < RECEIVED_WINDOW_BITS implies !#[trigger] slot_set(
                self.words@,
                slot,
            ) by {
                lemma_zero_word((slot % 64) as u64);
            }
        }
    }

    /// Moves the window so that it ends at `pn`.
    fn advance(&mut self, pn: u64)
        requires
            old(self).wf(),
            old(self).ranges != 0,
            old(self).largest < pn,
        ensures
            final(self).no_strays(),
            final(self).ranges == intervals(
                final(self).set(),
                final(self).low(),
                final(self).largest as int,
            ),
            final(self).largest == pn,
            final(self).first_smallest == old(self).first_smallest,
            final(self).set() == old(self).set().filter(|x: int| x >= window_base(pn as int)),
            !final(self).marked(pn as int),
    {
        reveal(no_strays_in);
        let ghost start = *self;
        let ghost s = self.set();
        let ghost lo = self.low();
        let ghost hi = self.largest as int;
        let new_base: u64 = pn.saturating_sub(RECEIVED_WINDOW_BITS as u64 - 1);
        let old_base: u64 = self.base();
        let retired: u64 = new_base.saturating_sub(old_base);
        let ghost kept = s.filter(|x: int| x >= new_base);
        if retired >= RECEIVED_WINDOW_BITS as u64 {
            self.clear();
            self.largest = pn;
            proof {
                assert forall|x: int| !self.set().contains(x) by {
                    if self.low() <= x <= self.largest {
                        Self::lemma_slots(x, x);
                    }
                }
                lemma_no_intervals(self.set(), self.low(), self.largest as int);
                assert(self.set() =~= kept);
                Self::lemma_slots(pn as int, pn as int);
            }
        } else {
            let mut offset: u64 = 0;
            assert(s =~= s.filter(|x: int| x >= lo + offset));
            while offset < retired
                invariant
                    offset <= retired < RECEIVED_WINDOW_BITS,
                    old_base == lo == self.low(),
                    old_base + retired <= u64::MAX,
                    self.largest == hi,
                    self.first_smallest == start.first_smallest,
                    self.no_strays(),
                    self.ranges == intervals(self.set(), lo, hi),
                    self.set() == s.filter(|x: int| x >= lo + offset),
                decreases retired - offset,
            {
                self.remove_bit(old_base + offset);
                assert(self.set() =~= s.filter(|x: int| x >= lo + offset + 1));
                offset += 1;
            }
            let ghost mid = *self;
            self.largest = pn;
            proof {
                assert(mid.set() =~= kept);
                assert forall|x: int| hi < x <= pn implies !mid.marked(x) by {
                    if mid.marked(x) {
                        Self::lemma_slots(x, x);
                        let other = choose|y: int|
                            mid.low() <= y <= mid.largest && #[trigger] slot_of(y)
                                == slot_of(x);
                        assert(mid.set().contains(other));
                        Self::lemma_slots(x, other);
                    }
                }
                assert forall|x: int| self.set().contains(x) == kept.contains(x) by {
                    assert(self.marked(x) == mid.marked(x));
                    if mid.set().contains(x) {
                        assert(new_base <= x <= hi);
                    }
                }
                assert(self.set() =~= kept);
                lemma_raise_low(kept, lo, new_base as int, hi);
                lemma_extend_high(kept, new_base as int, hi, pn as int);
                assert forall|slot: int|
                    #![trigger slot_set(self.words@, slot)]
                    0 <= slot < RECEIVED_WINDOW_BITS && slot_set(
                        self.words@,
                        slot,
                    ) implies exists|x: int|
                    self.low() <= x <= self.largest && #[trigger] slot_of(x) == slot by {
                    let other = choose|y: int|
                        mid.low() <= y <= mid.largest && #[trigger] slot_of(y) == slot;
                    assert(mid.set().contains(other));
                }
            }
        }
    }

    fn insert_first(&mut self, pn: u64)
        requires
            old(self).wf(),
            old(self).ranges == 0,
        ensures
            final(self).wf(),
            final(self).ranges != 0,
            final(self).largest == pn,
            final(self).set() == Set::<int>::empty().insert(pn as int),
    {
        let ghost at = pn as int;
        self.largest = pn;
        self.first_smallest = pn;
        proof {
            reveal(no_strays_in);
            assert forall|x: int| !self.set().contains(x) by {
                if self.low() <= x <= self.largest {
                    Self::lemma_slots(x, x);
                }
            }
            lemma_no_intervals(self.set(), self.low(), at);
            Self::lemma_slots(at, at);
            assert(self.set() =~= Set::empty());
        }
        self.add_bit(pn);
        proof {
            lemma_has_interval(self.set(), self.low(), at, at);
            lemma_interval_start_unique(self.set(), self.low(), at, at);
        }
    }

    fn insert_above(&mut self, pn: u64)
        requires
            old(self).wf(),
            old(self).ranges != 0,
            pn > old(self).largest,
        ensures
            final(self).wf(),
            final(self).ranges != 0,
            final(self).largest == pn,
            final(self).set() == old(self).set().insert(pn as int).filter(
                |x: int| x >= window_base(pn as int),
            ),
    {
        let ghost start = *self;
        let ghost at = pn as int;
        let previous_largest: u64 = self.largest;
        self.advance(pn);
        let new_base: u64 = self.base();
        self.add_bit(pn);
        proof {
            lemma_interval_start(start.set(), start.low(), previous_largest as int);
        }
        if pn - 1 == previous_largest {
            if self.first_smallest < new_base {
                self.first_smallest = new_base;
            }
        } else {
            self.first_smallest = pn;
        }
        proof {
            let s = self.set();
            assert(s =~= start.set().insert(at).filter(|x: int| x >= window_base(at)));
            lemma_has_interval(s, self.low(), at, at);
            lemma_interval_start_unique(s, self.low(), at, self.first_smallest as int);
        }
    }

    fn insert_below(&mut self, pn: u64)
        requires
            old(self).wf(),
            old(self).ranges != 0,
            old(self).low() <= pn <= old(self).largest,
            !old(self).set().contains(pn as int),
        ensures
            final(self).wf(),
            final(self).ranges != 0,
            final(self).largest == old(self).largest,
            final(self).set() == old(self).set().insert(pn as int),
    {
        let ghost start = *self;
        let ghost at = pn as int;
        self.add_bit(pn);
        let ghost joined = self.set();
        let ghost hi = self.largest as int;
        let ghost lo = self.low();
        proof {
            lemma_interval_start(start.set(), lo, hi);
            lemma_has_interval(joined, lo, hi, at);
        }
        if pn < self.first_smallest && pn + 1 == self.first_smallest {
            let mut first: u64 = pn;
            while first > self.base() && self.bit(first - 1)
                invariant
                    lo <= first <= pn,
                    lo == self.low(),
                    hi == self.largest,
                    pn <= hi,
                    joined == self.set(),
                    forall|x: int| first <= x <= hi ==> joined.contains(x),
                decreases first,
            {
                first = first - 1;
            }
            self.first_smallest = first;
            proof {
                assert(self.set() =~= joined);
                lemma_interval_start_unique(joined, lo, hi, first as int);
            }
        } else {
            proof {
                lemma_interval_start_unique(joined, lo, hi, self.first_smallest as int);
            }
        }
    }

    fn insert(&mut self, pn: u64)
        requires
            old(self).wf(),
            old(self).ranges == 0 || (pn >= old(self).low() && !old(self).set().contains(
                pn as int,
            )),
        ensures
            final(self).wf(),
            final(self).ranges != 0,
            final(self).largest == if old(self).ranges == 0 || pn > old(self).largest {
                pn
            } else {
                old(self).largest
            },
            final(self).set() == old(self).members().insert(pn as int).filter(
                |x: int| x >= final(self).low(),
            ),
    {
        let ghost start = *self;
        match self.largest() {
            None => self.insert_first(pn),
            Some(largest) => if pn > largest {
                self.insert_above(pn);
            } else {
                self.insert_below(pn);
            },
        }
        assert(self.set() =~= start.members().insert(pn as int).filter(
            |x: int| x >= self.low(),
        ));
    }

    /// The received numbers of the window, of which there are none before the
    /// first packet.
    spec fn members(self) -> Set<int> {
        if self.ranges == 0 {
            Set::empty()
        } else {
            self.set()
        }
    }
}

/// Where there are no members above `hi` there are no intervals either.
proof fn lemma_extend_high(s: Set<int>, lo: int, hi: int, new_hi: int)
    requires
        hi <= new_hi,
        forall|i: int| hi < i <= new_hi ==> !s.contains(i),
    ensures
        intervals(s, lo, new_hi) == intervals(s, lo, hi),
    decreases new_hi - hi,
{
    if hi < new_hi {
        lemma_extend_high(s, lo, hi, new_hi - 1);
    }
}

proof fn lemma_no_intervals(s: Set<int>, lo: int, hi: int)
    requires
        forall|i: int| lo <= i <= hi ==> !s.contains(i),
    ensures
        intervals(s, lo, hi) == 0,
    decreases hi - lo + 1,
{
    if hi >= lo {
        lemma_no_intervals(s, lo, hi - 1);
    }
}

/// Sets that agree from `lo` to `hi` have the same intervals there.
proof fn lemma_same_intervals(s: Set<int>, t: Set<int>, lo: int, hi: int)
    requires
        forall|i: int| lo <= i <= hi ==> s.contains(i) == t.contains(i),
    ensures
        intervals(s, lo, hi) == intervals(t, lo, hi),
    decreases hi - lo + 1,
{
    if hi >= lo {
        lemma_same_intervals(s, t, lo, hi - 1);
    }
}

/// A new member joins the intervals on either side, or is one of its own.
proof fn lemma_insert_intervals(s: Set<int>, lo: int, hi: int, at: int)
    requires
        !s.contains(at),
        lo <= at,
    ensures
        intervals(s.insert(at), lo, hi) + (if at <= hi && at > lo && s.contains(at - 1) {
            1int
        } else {
            0
        }) + (if at + 1 <= hi && s.contains(at + 1) {
            1int
        } else {
            0
        }) == intervals(s, lo, hi) + (if at <= hi {
            1int
        } else {
            0
        }),
    decreases hi - lo + 1,
{
    if hi >= lo {
        lemma_insert_intervals(s, lo, hi - 1, at);
        if at < hi - 1 || at > hi {
        } else if at == hi {
        } else {
        }
    }
}

/// A window whose low end has no members may begin later.
proof fn lemma_raise_low(s: Set<int>, lo: int, new_lo: int, hi: int)
    requires
        lo <= new_lo,
        forall|i: int| lo <= i < new_lo ==> !s.contains(i),
    ensures
        intervals(s, lo, hi) == intervals(s, new_lo, hi),
    decreases hi - lo + 1,
{
    if hi >= lo {
        lemma_raise_low(s, lo, new_lo, hi - 1);
        if hi < new_lo {
            lemma_no_intervals(s, lo, hi);
        }
    }
}

/// Intervals are apart, so a window of `2n - 1` numbers holds at most `n`.
proof fn lemma_interval_bound(s: Set<int>, lo: int, hi: int)
    ensures
        2 * intervals(s, lo, hi) <= (if hi >= lo {
            hi - lo + 2
        } else {
            0
        }),
        hi >= lo && !s.contains(hi) ==> 2 * intervals(s, lo, hi) <= hi - lo + 1,
    decreases hi - lo + 1,
{
    if hi >= lo {
        lemma_interval_bound(s, lo, hi - 1);
    }
}

proof fn lemma_interval_start(s: Set<int>, lo: int, at: int)
    requires
        lo <= at,
    ensures
        lo <= interval_start(s, lo, at) <= at,
        forall|i: int| interval_start(s, lo, at) <= i < at ==> s.contains(i),
        interval_start(s, lo, at) == lo || !s.contains(interval_start(s, lo, at) - 1),
    decreases at - lo,
{
    if at > lo && s.contains(at - 1) {
        lemma_interval_start(s, lo, at - 1);
    }
}

/// The lowest number of an interval is the only one of its kind.
proof fn lemma_interval_start_unique(s: Set<int>, lo: int, at: int, first: int)
    requires
        lo <= first <= at,
        forall|i: int| first <= i < at ==> s.contains(i),
        first == lo || !s.contains(first - 1),
    ensures
        interval_start(s, lo, at) == first,
    decreases at - lo,
{
    if at > first {
        assert(s.contains(at - 1));
        lemma_interval_start_unique(s, lo, at - 1, first);
    }
}

proof fn lemma_has_interval(s: Set<int>, lo: int, hi: int, at: int)
    requires
        lo <= at <= hi,
        s.contains(at),
    ensures
        intervals(s, lo, hi) > 0,
    decreases hi - lo + 1,
{
    if at < hi {
        lemma_has_interval(s, lo, hi - 1, at);
    } else if lo < hi && s.contains(hi - 1) {
        lemma_has_interval(s, lo, hi - 1, hi - 1);
    }
}

proof fn lemma_pairs_len(s: Set<int>, lo: int, cursor: int, above: int)
    ensures
        ack_pairs(s, lo, cursor, above).len() == intervals(s, lo, cursor),
    decreases cursor - lo + 1,
{
    if cursor >= lo {
        if !s.contains(cursor) {
            lemma_pairs_len(s, lo, cursor - 1, above);
        } else {
            lemma_interval_start(s, lo, cursor);
            let first = interval_start(s, lo, cursor);
            lemma_pairs_len(s, lo, first - 1, first);
            lemma_top_interval(s, lo, first, cursor);
        }
    }
}

/// Numbers that are all members make up one interval on top of the others.
proof fn lemma_top_interval(s: Set<int>, lo: int, first: int, hi: int)
    requires
        lo <= first <= hi,
        forall|i: int| first <= i <= hi ==> s.contains(i),
        first == lo || !s.contains(first - 1),
    ensures
        intervals(s, lo, hi) == intervals(s, lo, first - 1) + 1,
    decreases hi - first,
{
    if hi > first {
        lemma_top_interval(s, lo, first, hi - 1);
        assert(s.contains(hi - 1));
    }
}

/// The pairs acknowledge exactly the members.
proof fn lemma_pairs_acknowledge(s: Set<int>, lo: int, cursor: int, above: int, pn: int)
    ensures
        acknowledged(ack_pairs(s, lo, cursor, above), above, pn) == (lo <= pn <= cursor
            && s.contains(pn)),
    decreases cursor - lo + 1,
{
    if cursor >= lo {
        if !s.contains(cursor) {
            lemma_pairs_acknowledge(s, lo, cursor - 1, above, pn);
        } else {
            lemma_interval_start(s, lo, cursor);
            let first = interval_start(s, lo, cursor);
            let pairs = ack_pairs(s, lo, cursor, above);
            let rest = ack_pairs(s, lo, first - 1, first);
            lemma_pairs_acknowledge(s, lo, first - 1, first, pn);
            assert(pairs.subrange(1, pairs.len() as int) =~= rest);
        }
    }
}

/// Gaps and lengths are in range, and the pairs walk down without passing the
/// low end.
proof fn lemma_pairs_bounds(s: Set<int>, lo: int, cursor: int, above: int)
    requires
        cursor < above,
        cursor >= lo && s.contains(cursor) ==> cursor + 2 <= above,
    ensures
        forall|i: int|
            0 <= i < ack_pairs(s, lo, cursor, above).len() ==> 0 <= (#[trigger] ack_pairs(
                s,
                lo,
                cursor,
                above,
            )[i]).0 <= above - lo && 0 <= ack_pairs(s, lo, cursor, above)[i].1 <= above - lo,
    decreases cursor - lo + 1,
{
    if cursor >= lo {
        if !s.contains(cursor) {
            lemma_pairs_bounds(s, lo, cursor - 1, above);
            assert(ack_pairs(s, lo, cursor, above) == ack_pairs(s, lo, cursor - 1, above));
        } else {
            lemma_interval_start(s, lo, cursor);
            let first = interval_start(s, lo, cursor);
            let pairs = ack_pairs(s, lo, cursor, above);
            let rest = ack_pairs(s, lo, first - 1, first);
            lemma_pairs_bounds(s, lo, first - 1, first);
            assert forall|i: int| 0 <= i < pairs.len() implies 0 <= (#[trigger] pairs[i]).0 <= above
                - lo && 0 <= pairs[i].1 <= above - lo by {
                if i > 0 {
                    assert(pairs[i] == rest[i - 1]);
                }
            }
        }
    }
}

/// Pairs as the integers of a frame.
pub open spec fn wire_pairs(pairs: Seq<(int, int)>) -> Seq<(VarInt, VarInt)> {
    pairs.map_values(|pair: (int, int)| (VarInt::of(pair.0 as u64), VarInt::of(pair.1 as u64)))
}

/// What the receiver of an ACK frame checks holds of the pairs.
proof fn lemma_pairs_descend(s: Set<int>, lo: int, cursor: int, above: int)
    requires
        0 <= lo,
        above <= u64::MAX,
        cursor < above,
        cursor >= lo && s.contains(cursor) ==> cursor + 2 <= above,
    ensures
        descends(wire_pairs(ack_pairs(s, lo, cursor, above)), above),
    decreases cursor - lo + 1,
{
    broadcast use crate::varint::lemma_of_view;

    if cursor >= lo {
        if !s.contains(cursor) {
            lemma_pairs_descend(s, lo, cursor - 1, above);
        } else {
            lemma_interval_start(s, lo, cursor);
            let first = interval_start(s, lo, cursor);
            let pairs = ack_pairs(s, lo, cursor, above);
            let rest = ack_pairs(s, lo, first - 1, first);
            lemma_pairs_descend(s, lo, first - 1, first);
            let wire = wire_pairs(pairs);
            assert(wire.subrange(1, wire.len() as int) =~= wire_pairs(rest));
            assert(wire[0].0@ == above - cursor - 2);
            assert(wire[0].1@ == cursor - first);
        }
    }
}

/// The intervals below the first of an acknowledgement, from high to low.
#[derive(Clone, Copy)]
pub struct GeneratedAckRanges<'space> {
    received: &'space ReceivedPackets,
    cursor: Option<u64>,
    previous_smallest: u64,
    remaining: usize,
}

impl<'space> View for GeneratedAckRanges<'space> {
    type V = Seq<(int, int)>;

    closed spec fn view(&self) -> Seq<(int, int)> {
        ack_pairs(
            self.received.set(),
            self.received.low(),
            self.below(),
            self.previous_smallest as int,
        )
    }
}

impl<'space> GeneratedAckRanges<'space> {
    /// The highest number that is still to be looked at.
    spec fn below(self) -> int {
        match self.cursor {
            Some(cursor) => cursor as int,
            None => self.received.low() - 1,
        }
    }

    #[verifier::type_invariant]
    spec fn counted(self) -> bool {
        &&& self.received.wf()
        &&& self.remaining == intervals(
            self.received.set(),
            self.received.low(),
            self.below(),
        )
        &&& self.cursor matches Some(cursor) ==> {
            &&& self.received.low() <= cursor < self.received.largest
            &&& cursor + 1 == self.previous_smallest
            &&& !self.received.set().contains(cursor as int)
        }
        &&& self.received.low() <= self.previous_smallest
    }

    /// How many intervals are left.
    pub fn len(&self) -> (len: usize)
        ensures
            len == self@.len(),
    {
        proof {
            use_type_invariant(self);
            lemma_pairs_len(
                self.received.set(),
                self.received.low(),
                self.below(),
                self.previous_smallest as int,
            );
        }
        self.remaining
    }

    /// Takes the next interval: the gap to the one above, and its length.
    pub fn next(&mut self) -> (result: Option<(u64, u64)>)
        ensures
            match result {
                Some((gap, length)) => {
                    &&& old(self)@.len() > 0
                    &&& old(self)@[0] == (gap as int, length as int)
                    &&& final(self)@ == old(self)@.subrange(1, old(self)@.len() as int)
                },
                None => old(self)@.len() == 0 && final(self)@.len() == 0,
            },
    {
        proof {
            use_type_invariant(&*self);
        }
        let received = self.received;
        let ghost s = received.set();
        let ghost lo = received.low();
        let ghost above = self.previous_smallest as int;
        let ghost all = self@;
        proof {
            lemma_pairs_len(s, lo, self.below(), above);
        }
        if self.remaining == 0 {
            return None;
        }
        let mut cursor: u64 = match self.cursor {
            Some(cursor) => cursor,
            None => {
                return None;
            },
        };
        let base: u64 = received.base();
        let ghost top = cursor as int;
        while !received.bit(cursor)
            invariant
                received.wf(),
                s == received.set(),
                base == lo == received.low(),
                lo <= cursor <= top < received.largest,
                intervals(s, lo, cursor as int) == intervals(s, lo, top) > 0,
                ack_pairs(s, lo, cursor as int, above) == all,
            decreases cursor,
        {
            assert(!s.contains(cursor as int));
            if cursor == base {
                proof {
                    lemma_no_intervals(s, lo, lo);
                }
                return None;
            }
            cursor = cursor - 1;
        }
        let largest: u64 = cursor;
        assert(s.contains(largest as int));
        while cursor > base && received.bit(cursor - 1)
            invariant
                received.wf(),
                s == received.set(),
                base == lo == received.low(),
                lo <= cursor <= largest < received.largest,
                forall|x: int| cursor <= x <= largest ==> s.contains(x),
            decreases cursor,
        {
            cursor = cursor - 1;
        }
        let smallest: u64 = cursor;
        let next_cursor: Option<u64> = if smallest > base {
            Some(smallest - 1)
        } else {
            None
        };
        proof {
            lemma_interval_start_unique(s, lo, largest as int, smallest as int);
            lemma_top_interval(s, lo, smallest as int, largest as int);
            assert(largest != top) by {
                assert(!s.contains(top));
            }
        }
        let gap: u64 = self.previous_smallest - largest - 2;
        let rest = GeneratedAckRanges {
            received,
            cursor: next_cursor,
            previous_smallest: smallest,
            remaining: self.remaining - 1,
        };
        assert(rest@ =~= all.subrange(1, all.len() as int));
        *self = rest;
        Some((gap, largest - smallest))
    }
}

/// What an ACK frame says of a packet number space.
pub struct AckView<'space> {
    pub largest: u64,
    pub first_range: u64,
    pub additional: GeneratedAckRanges<'space>,
}

impl<'space> AckView<'space> {
    /// Whether the frame acknowledges a packet number.
    pub open spec fn acknowledges(self, pn: int) -> bool {
        ||| self.largest - self.first_range <= pn <= self.largest
        ||| acknowledged(self.additional@, self.largest - self.first_range, pn)
    }
}

/// The sending side of a packet number space.
#[derive(Debug)]
pub struct PnSpace {
    pub next_pn: u64,
    pub largest_acked: Option<u64>,
    pub time_of_last_ack_eliciting: Option<Instant>,
    pub ack_eliciting_in_flight: usize,
}

impl Default for PnSpace {
    fn default() -> (space: PnSpace)
        ensures
            space.next_pn == 0,
            space.largest_acked is None,
            space.time_of_last_ack_eliciting is None,
            space.ack_eliciting_in_flight == 0,
    {
        PnSpace {
            next_pn: 0,
            largest_acked: None,
            time_of_last_ack_eliciting: None,
            ack_eliciting_in_flight: 0,
        }
    }
}

/// The receiving side of a packet number space.
#[derive(Debug)]
pub struct Receive {
    packets: ReceivedPackets,
    largest_time: Option<Instant>,
    ack_eliciting: bool,
    ack_pending: bool,
}

/// A packet number that was not received before.
pub struct Fresh {
    pn: u64,
}

impl View for Fresh {
    type V = u64;

    closed spec fn view(&self) -> u64 {
        self.pn
    }
}

/// The packet numbers that were received.
pub struct ReceiveModel {
    /// The largest, if any.
    pub largest: Option<u64>,
    /// Those that are remembered one by one.
    pub packets: Set<int>,
    /// When the largest was received.
    pub largest_time: Option<Instant>,
    /// Whether a packet that asks for an acknowledgement was ever received.
    pub ack_eliciting: bool,
    /// Whether an acknowledgement is owed.
    pub ack_pending: bool,
}

impl ReceiveModel {
    /// The lowest number that is remembered.
    pub open spec fn floor(self) -> int {
        match self.largest {
            Some(largest) => if largest >= RECEIVED_WINDOW_BITS - 1 {
                largest - (RECEIVED_WINDOW_BITS - 1)
            } else {
                0
            },
            None => 0,
        }
    }

    /// The packet number that is expected next.
    pub open spec fn expected(self) -> u64 {
        match self.largest {
            Some(largest) => if largest < u64::MAX {
                (largest + 1) as u64
            } else {
                0
            },
            None => 0,
        }
    }

    /// Whether a packet number is new.
    pub open spec fn admits(self, pn: u64) -> bool {
        self.largest is Some ==> pn >= self.floor() && !self.packets.contains(pn as int)
    }

    /// The state after a packet with a new number was received.
    pub open spec fn with(self, pn: u64, ack_eliciting: bool, now: Instant) -> ReceiveModel {
        let largest = match self.largest {
            Some(largest) => if pn > largest {
                pn
            } else {
                largest
            },
            None => pn,
        };
        let next = ReceiveModel {
            largest: Some(largest),
            packets: self.packets.insert(pn as int),
            largest_time: if self.largest != Some(largest) {
                Some(now)
            } else {
                self.largest_time
            },
            ack_eliciting: self.ack_eliciting || ack_eliciting,
            ack_pending: self.ack_pending || ack_eliciting,
        };
        ReceiveModel { packets: next.packets.filter(|x: int| x >= next.floor()), ..next }
    }
}

impl View for Receive {
    type V = ReceiveModel;

    closed spec fn view(&self) -> ReceiveModel {
        ReceiveModel {
            largest: if self.packets.ranges != 0 {
                Some(self.packets.largest)
            } else {
                None
            },
            packets: self.packets.members(),
            largest_time: self.largest_time,
            ack_eliciting: self.ack_eliciting,
            ack_pending: self.ack_pending,
        }
    }
}

impl Default for Receive {
    fn default() -> (receive: Receive)
        ensures
            receive.wf(),
            receive@.largest is None,
            receive@.packets == Set::<int>::empty(),
            receive@.largest_time is None,
            !receive@.ack_eliciting,
            !receive@.ack_pending,
    {
        Receive {
            packets: ReceivedPackets::new(),
            largest_time: None,
            ack_eliciting: false,
            ack_pending: false,
        }
    }
}

impl Receive {
    pub closed spec fn wf(self) -> bool {
        self.packets.wf()
    }

    /// When the largest packet number was received.
    pub fn largest_time(&self) -> (time: Option<Instant>)
        ensures
            time == self@.largest_time,
    {
        self.largest_time
    }

    /// Whether a packet that asks for an acknowledgement was ever received.
    pub fn ack_eliciting(&self) -> (eliciting: bool)
        ensures
            eliciting == self@.ack_eliciting,
    {
        self.ack_eliciting
    }

    /// Whether an acknowledgement is owed.
    pub fn ack_pending(&self) -> (pending: bool)
        ensures
            pending == self@.ack_pending,
    {
        self.ack_pending
    }

    /// Notes that an acknowledgement was sent.
    pub fn ack_sent(&mut self)
        requires
            old(self).wf(),
        ensures
            final(self).wf(),
            final(self)@ == (ReceiveModel { ack_pending: false, ..old(self)@ }),
    {
        self.ack_pending = false;
    }

    /// The packet number that is expected next.
    pub fn expected_pn(&self) -> (pn: u64)
        ensures
            pn == self@.expected(),
    {
        match self.packets.largest() {
            Some(pn) => if pn < u64::MAX {
                pn + 1
            } else {
                0
            },
            None => 0,
        }
    }

    /// Tells a packet number that was not received before.
    pub fn accept(&self, pn: u64) -> (result: Option<Fresh>)
        requires
            self.wf(),
        ensures
            match result {
                Some(fresh) => self@.admits(pn) && fresh@ == pn,
                None => !self@.admits(pn),
            },
    {
        if self.packets.contains(pn) {
            None
        } else {
            Some(Fresh { pn })
        }
    }

    /// Notes a received packet.
    pub fn commit(&mut self, fresh: Fresh, ack_eliciting: bool, now: Instant)
        requires
            old(self).wf(),
            old(self)@.admits(fresh@),
        ensures
            final(self).wf(),
            final(self)@ == old(self)@.with(fresh@, ack_eliciting, now),
    {
        let pn: u64 = fresh.pn;
        let previous_largest = self.packets.largest();
        let ghost before = self@;
        self.packets.insert(pn);
        assert(self@.packets =~= before.with(pn, ack_eliciting, now).packets);
        let newest = match previous_largest {
            Some(largest) => pn > largest,
            None => true,
        };
        if newest {
            self.largest_time = Some(now);
        }
        if ack_eliciting {
            self.ack_eliciting = true;
            self.ack_pending = true;
        }
    }

    /// What an ACK frame says of the received packets: all of those that are
    /// remembered, and no others, in a form that its receiver accepts.
    pub fn build_ack_ranges(&self) -> (result: Option<AckView<'_>>)
        requires
            self.wf(),
        ensures
            match result {
                Some(view) => {
                    &&& self@.largest == Some(view.largest)
                    &&& view.first_range <= view.largest
                    &&& forall|pn: int| view.acknowledges(pn) == self@.packets.contains(pn)
                    &&& view.additional@.len() < MAX_ACK_INTERVALS
                    &&& forall|i: int|
                        0 <= i < view.additional@.len() ==> {
                            let pair = #[trigger] view.additional@[i];
                            0 <= pair.0 <= view.largest && 0 <= pair.1 <= view.largest
                        }
                    &&& descends(
                        wire_pairs(view.additional@),
                        view.largest - view.first_range,
                    )
                },
                None => self@.largest is None,
            },
    {
        let largest: u64 = match self.packets.largest() {
            Some(largest) => largest,
            None => {
                return None;
            },
        };
        let first_smallest: u64 = self.packets.first_smallest;
        let ghost s = self.packets.set();
        let ghost lo = self.packets.low();
        proof {
            lemma_interval_start(s, lo, largest as int);
            lemma_top_interval(s, lo, first_smallest as int, largest as int);
            lemma_interval_bound(s, lo, largest as int);
        }
        let cursor: Option<u64> = if first_smallest > self.packets.base() {
            Some(first_smallest - 1)
        } else {
            None
        };
        let additional = GeneratedAckRanges {
            received: &self.packets,
            cursor,
            previous_smallest: first_smallest,
            remaining: (self.packets.ranges - 1) as usize,
        };
        let view = AckView { largest, first_range: largest - first_smallest, additional };
        proof {
            let below = additional.below();
            assert forall|pn: int| view.acknowledges(pn) == self@.packets.contains(pn) by {
                lemma_pairs_acknowledge(s, lo, below, first_smallest as int, pn);
            }
            lemma_pairs_len(s, lo, below, first_smallest as int);
            lemma_pairs_bounds(s, lo, below, first_smallest as int);
            lemma_pairs_descend(s, lo, below, first_smallest as int);
        }
        Some(view)
    }
}

/// A packet number is accepted once: after it was received it is not new, and
/// no packet that is received later makes it new again.
pub proof fn law_no_replay(state: ReceiveModel, pn: u64, later: u64, eliciting: bool, now: Instant)
    requires
        state.largest is Some || state.packets == Set::<int>::empty(),
    ensures
        !state.with(pn, eliciting, now).admits(pn),
        !state.admits(pn) ==> !state.with(later, eliciting, now).admits(pn),
{
}

/// What is remembered of received packets: the largest number, and of the 512 below it which
/// were received. What is older counts as received, and what is larger never does.
pub proof fn law_window_of_numbers(
    state: ReceiveModel,
    pn: u64,
    eliciting: bool,
    now: Instant,
    other: u64,
)
    requires
        state.largest is None ==> state.packets == Set::<int>::empty(),
        forall|x: int| #[trigger]
            state.packets.contains(x) ==> state.floor() <= x && x <= state.largest->0,
        state.admits(pn),
    ensures
        ({
            let after = state.with(pn, eliciting, now);
            let largest = after.largest->0;
            &&& after.largest is Some
            &&& largest >= pn && (state.largest matches Some(before) ==> largest >= before)
            &&& largest == pn || after.largest == state.largest
            &&& other > largest ==> after.admits(other)
            &&& other + 512 < largest ==> !after.admits(other)
            &&& other <= largest <= other + 512 ==> after.admits(other) == (other != pn
                && !state.packets.contains(other as int))
            &&& forall|x: int| #[trigger]
                after.packets.contains(x) ==> after.floor() <= x <= largest
            &&& after.largest_time == if state.largest == Some(largest) {
                state.largest_time
            } else {
                Some(now)
            }
            &&& after.ack_pending == (state.ack_pending || eliciting)
            &&& after.ack_eliciting == (state.ack_eliciting || eliciting)
        }),
{
}

/// The number that is expected is the one behind the largest that was received: it and all
/// above it are new.
pub proof fn law_expected_is_next(state: ReceiveModel, pn: u64)
    requires
        forall|x: int| #[trigger] state.packets.contains(x) ==> x <= state.largest->0,
        state.largest matches Some(largest) ==> largest < u64::MAX && state.packets.contains(
            largest as int,
        ),
        pn >= state.expected(),
    ensures
        state.admits(pn),
        state.expected() > 0 ==> !state.admits((state.expected() - 1) as u64),
        state.largest is None ==> state.expected() == 0,
{
}

/// A gap counts one number less than lie between two intervals, and a length one less than an
/// interval has.
pub proof fn law_gaps_and_lengths(pairs: Seq<(int, int)>, above: int, pn: int)
    requires
        pairs.len() > 0,
        forall|i: int| 0 <= i < pairs.len() ==> (#[trigger] pairs[i]).0 >= 0 && pairs[i].1 >= 0,
    ensures
        ({
            let gap = pairs[0].0;
            let len = pairs[0].1;
            &&& above - (gap + 1) <= pn ==> !acknowledged(pairs, above, pn)
            &&& above - (gap + 1) - (len + 1) <= pn < above - (gap + 1) ==> acknowledged(
                pairs,
                above,
                pn,
            )
            &&& pn < above - (gap + 1) - (len + 1) ==> acknowledged(pairs, above, pn)
                == acknowledged(
                pairs.skip(1),
                above - (gap + 1) - (len + 1),
                pn,
            )
        }),
    decreases pairs.len(),
{
    let rest = pairs.subrange(1, pairs.len() as int);
    assert(rest =~= pairs.skip(1));
    if rest.len() > 0 {
        assert forall|i: int| 0 <= i < rest.len() implies (#[trigger] rest[i]).0 >= 0 && rest[i].1
            >= 0 by {
            assert(rest[i] == pairs[i + 1]);
        }
        law_gaps_and_lengths(rest, above - pairs[0].0 - 2 - pairs[0].1, pn);
    }
}

} // verus!
