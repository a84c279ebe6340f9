//! A hash index from stream numbers to slots, with linear probing.
use vstd::prelude::*;

verus! {

/// A vacant bucket.
const NONE: u32 = 0xffff_ffff;

/// Spreads stream numbers over the buckets.
pub open spec fn mixed(stream_id: u64) -> u64 {
    let once = ((stream_id ^ (stream_id >> 30)) as u64).wrapping_mul(0xbf58_476d_1ce4_e5b9);
    let twice = ((once ^ (once >> 27)) as u64).wrapping_mul(0x94d0_49bb_1331_11eb);
    twice ^ (twice >> 31)
}

pub fn hash(stream_id: u64) -> (hashed: u64)
    ensures
        hashed == mixed(stream_id),
{
    let once: u64 = (stream_id ^ (stream_id >> 30)).wrapping_mul(0xbf58_476d_1ce4_e5b9);
    let twice: u64 = (once ^ (once >> 27)).wrapping_mul(0x94d0_49bb_1331_11eb);
    twice ^ (twice >> 31)
}

/// The bucket some steps after another.
spec fn at(from: int, steps: int, size: int) -> int {
    if from + steps < size {
        from + steps
    } else {
        from + steps - size
    }
}

/// How many steps one bucket is after another.
spec fn dist(from: int, to: int, size: int) -> int {
    if to >= from {
        to - from
    } else {
        to + size - from
    }
}

/// How many of the first buckets are taken.
spec fn taken(buckets: Seq<u32>, count: int) -> int
    decreases count,
{
    if count <= 0 {
        0
    } else {
        taken(buckets, count - 1) + if buckets[count - 1] != NONE {
            1int
        } else {
            0
        }
    }
}

proof fn lemma_taken_update(buckets: Seq<u32>, bucket: int, value: u32, count: int)
    requires
        0 <= bucket < buckets.len(),
        count <= buckets.len(),
    ensures
        taken(buckets.update(bucket, value), count) == taken(buckets, count) + if bucket < count {
            (if value != NONE {
                1int
            } else {
                0
            }) - (if buckets[bucket] != NONE {
                1int
            } else {
                0
            })
        } else {
            0
        },
    decreases count,
{
    if count > 0 {
        lemma_taken_update(buckets, bucket, value, count - 1);
    }
}

/// Not all buckets are taken if fewer are than there are.
proof fn lemma_vacant(buckets: Seq<u32>, count: int)
    requires
        0 <= count <= buckets.len(),
    ensures
        0 <= taken(buckets, count) <= count,
        taken(buckets, count) < count ==> exists|b: int| 0 <= b < count && #[trigger] buckets[b]
            == NONE,
    decreases count,
{
    if count > 0 {
        lemma_vacant(buckets, count - 1);
        if buckets[count - 1] == NONE {
        } else if taken(buckets, count - 1) < count - 1 {
            let b = choose|b: int| 0 <= b < count - 1 && #[trigger] buckets[b] == NONE;
            assert(0 <= b < count && buckets[b] == NONE);
        }
    }
}

/// An index of slots by stream number. The view maps each number to its slot.
pub struct Index {
    keys: Vec<u64>,
    buckets: Vec<u32>,
    entries: Ghost<Map<u64, int>>,
    /// The bucket of each slot.
    seats: Ghost<Map<int, int>>,
}

impl View for Index {
    type V = Map<u64, int>;

    closed spec fn view(&self) -> Map<u64, int> {
        self.entries@
    }
}

impl Index {
    spec fn size(&self) -> int {
        self.buckets@.len() as int
    }

    /// How many slots can have a number.
    pub closed spec fn slots(&self) -> int {
        self.keys@.len() as int
    }

    /// How many numbers there can be, and how many there are.
    pub closed spec fn room(&self) -> int {
        self.size() - 1 - taken(self.buckets@, self.size())
    }

    /// Where the search for a number starts.
    spec fn home(&self, id: u64) -> int {
        (mixed(id) as int) % self.size()
    }

    /// No vacant bucket before that of a number, but for a hole.
    spec fn reached(&self, id: u64, hole: int) -> bool {
        let home = self.home(id);
        forall|k: int|
            0 <= k < dist(home, self.seats@[self.entries@[id]], self.size()) ==> {
                ||| #[trigger] self.buckets@[at(home, k, self.size())] != NONE
                ||| at(home, k, self.size()) == hole
            }
    }

    /// A number is in the bucket of its slot.
    spec fn seated(&self, id: u64) -> bool {
        let n = self.entries@[id];
        let seat = self.seats@[n];
        &&& 0 <= n < self.keys@.len()
        &&& self.keys@[n] == id
        &&& 0 <= seat < self.size()
        &&& self.buckets@[seat] == n
    }

    /// What a taken bucket holds.
    spec fn filled(&self, b: int) -> bool {
        let n = self.buckets@[b] as int;
        &&& n < self.keys@.len()
        &&& self.entries@.dom().contains(self.keys@[n])
        &&& self.entries@[self.keys@[n]] == n
        &&& self.seats@[n] == b
    }

    spec fn sound(&self, hole: int) -> bool {
        &&& self.keys@.len() < NONE
        &&& 0 < self.size()
        &&& forall|b: int|
            0 <= b < self.size() && #[trigger] self.buckets@[b] != NONE ==> self.filled(b)
        &&& forall|id: u64| #[trigger]
            self.entries@.dom().contains(id) ==> self.seated(id) && self.reached(id, hole)
        &&& taken(self.buckets@, self.size()) < self.size()
    }

    pub closed spec fn wf(&self) -> bool {
        self.sound(-1)
    }

    /// What holds of every index.
    pub proof fn lemma_wf(&self)
        requires
            self.wf(),
        ensures
            forall|id: u64| #[trigger]
                self@.dom().contains(id) ==> 0 <= self@[id] < self.slots(),
            forall|one: u64, other: u64|
                #![trigger self@[one], self@[other]]
                self@.dom().contains(one) && self@.dom().contains(other) && self@[one]
                    == self@[other] ==> one == other,
            0 <= self.room(),
    {
        assert forall|id: u64| #[trigger] self@.dom().contains(id) implies 0 <= self@[id]
            < self.slots() by {
            assert(self.seated(id));
        }
        assert forall|one: u64, other: u64|
            #![trigger self@[one], self@[other]]
            self@.dom().contains(one) && self@.dom().contains(other) && self@[one]
                == self@[other] implies one == other by {
            assert(self.seated(one));
            assert(self.seated(other));
        }
    }

    /// An empty index.
    pub fn new(bucket_count: usize) -> (index: Index)
        requires
            bucket_count > 0,
        ensures
            index.wf(),
            index@ == Map::<u64, int>::empty(),
            index.slots() == 0,
            index.room() == bucket_count - 1,
    {
        let mut buckets: Vec<u32> = Vec::new();
        while buckets.len() < bucket_count
            invariant
                buckets@.len() <= bucket_count,
                forall|b: int| 0 <= b < buckets@.len() ==> buckets@[b] == NONE,
                taken(buckets@, buckets@.len() as int) == 0,
            decreases bucket_count - buckets@.len(),
        {
            let ghost before = buckets@;
            buckets.push(NONE);
            proof {
                lemma_taken_push(before, NONE, before.len() as int);
            }
        }
        Index {
            keys: Vec::new(),
            buckets,
            entries: Ghost(Map::empty()),
            seats: Ghost(Map::empty()),
        }
    }

    /// Makes one more slot.
    pub fn add_slot(&mut self)
        requires
            old(self).wf(),
            old(self).slots() < u32::MAX - 1,
        ensures
            final(self).wf(),
            final(self)@ == old(self)@,
            final(self).slots() == old(self).slots() + 1,
            final(self).room() == old(self).room(),
    {
        let ghost before = *self;
        self.keys.push(0);
        proof {
            assert forall|b: int|
                0 <= b < self.size() && #[trigger] self.buckets@[b] != NONE implies self.filled(
                b,
            ) by {
                assert(before.filled(b));
            }
            assert forall|id: u64| #[trigger] self.entries@.dom().contains(id) implies self.seated(
                id,
            ) && self.reached(id, -1) by {
                assert(before.seated(id) && before.reached(id, -1));
                assert(self.buckets@ == before.buckets@);
                assert(self.home(id) == before.home(id));
            }
        }
    }

    /// The bucket of a number, with its slot, or else the vacant bucket where
    /// the search ends.
    fn probe(&self, id: u64) -> (result: (usize, u32))
        requires
            self.wf(),
        ensures
            result.0 < self.size(),
            result.1 == self.buckets@[result.0 as int],
            result.1 != NONE <==> self@.dom().contains(id),
            result.1 != NONE ==> self@[id] == result.1,
            forall|k: int|
                0 <= k < dist(self.home(id), result.0 as int, self.size())
                    ==> #[trigger] self.buckets@[at(self.home(id), k, self.size())] != NONE,
    {
        let size: usize = self.buckets.len();
        let start: usize = (hash(id) % (size as u64)) as usize;
        let ghost home = self.home(id);
        let mut bucket: usize = start;
        let ghost mut k: int = 0;
        proof {
            lemma_vacant(self.buckets@, self.size());
        }
        let ghost free = choose|b: int| 0 <= b < self.size() && #[trigger] self.buckets@[b] == NONE;
        while self.buckets[bucket] != NONE
            invariant
                self.wf(),
                size == self.size(),
                home == self.home(id),
                0 <= home < size,
                bucket < size,
                0 <= k,
                k <= dist(home, free, size as int),
                0 <= free < size,
                self.buckets@[free] == NONE,
                bucket == at(home, k, size as int),
                forall|j: int|
                    0 <= j < k ==> {
                        let n = #[trigger] self.buckets@[at(home, j, size as int)];
                        n != NONE && self.keys@[n as int] != id
                    },
            decreases dist(home, free, size as int) - k,
        {
            let node: u32 = self.buckets[bucket];
            assert(self.filled(bucket as int));
            if self.keys[node as usize] == id {
                return (bucket, node);
            }
            proof {
                assert(bucket != free);
                k = k + 1;
            }
            bucket = if bucket + 1 == size {
                0
            } else {
                bucket + 1
            };
        }
        proof {
            if self@.dom().contains(id) {
                assert(self.seated(id) && self.reached(id, -1));
                let seat = self.seats@[self@[id]];
                let d = dist(home, seat, size as int);
                assert(at(home, d, size as int) == seat);
                if d > k {
                    assert(self.buckets@[at(home, k, size as int)] != NONE);
                } else if d < k {
                    assert(self.keys@[self.buckets@[at(home, d, size as int)] as int] != id);
                }
                assert(false);
            }
        }
        (bucket, NONE)
    }

    /// The slot of a number.
    pub fn find(&self, id: u64) -> (slot: Option<u32>)
        requires
            self.wf(),
        ensures
            match slot {
                Some(slot) => self@.dom().contains(id) && self@[id] == slot && slot < self.slots(),
                None => !self@.dom().contains(id),
            },
    {
        let (bucket, node) = self.probe(id);
        if node == NONE {
            None
        } else {
            assert(self.seated(id));
            Some(node)
        }
    }

    /// Gives a slot a number.
    pub fn insert(&mut self, id: u64, slot: u32)
        requires
            old(self).wf(),
            old(self).room() > 0,
            slot < old(self).slots(),
            !old(self)@.dom().contains(id),
            forall|other: u64| #[trigger]
                old(self)@.dom().contains(other) ==> old(self)@[other] != slot,
        ensures
            final(self).wf(),
            final(self)@ == old(self)@.insert(id, slot as int),
            final(self).slots() == old(self).slots(),
            final(self).room() == old(self).room() - 1,
    {
        let ghost before = *self;
        let (bucket, vacant) = self.probe(id);
        self.buckets.set(bucket, slot);
        self.keys.set(slot as usize, id);
        self.entries = Ghost(self.entries@.insert(id, slot as int));
        self.seats = Ghost(self.seats@.insert(slot as int, bucket as int));
        proof {
            lemma_taken_update(before.buckets@, bucket as int, slot, before.size());
            assert forall|b: int|
                0 <= b < self.size() && #[trigger] self.buckets@[b] != NONE implies self.filled(
                b,
            ) by {
                if b != bucket {
                    assert(before.buckets@[b] != NONE);
                    assert(before.filled(b));
                }
            }
            assert forall|other: u64| #[trigger]
                self.entries@.dom().contains(other) implies self.seated(other) && self.reached(
                other,
                -1,
            ) by {
                assert(self.home(other) == before.home(other));
                if other != id {
                    assert(before.entries@.dom().contains(other));
                    assert(before.seated(other) && before.reached(other, -1));
                    assert(self.reached(other, -1)) by {
                        let home = self.home(other);
                        assert forall|k: int|
                            0 <= k < dist(
                                home,
                                self.seats@[self.entries@[other]],
                                self.size(),
                            ) implies #[trigger] self.buckets@[at(home, k, self.size())]
                            != NONE by {
                            assert(before.buckets@[at(home, k, self.size())] != NONE);
                        }
                    }
                } else {
                    assert(self.reached(id, -1)) by {
                        let home = self.home(id);
                        assert forall|k: int|
                            0 <= k < dist(home, bucket as int, self.size()) implies
                            #[trigger] self.buckets@[at(home, k, self.size())] != NONE by {
                            assert(before.buckets@[at(home, k, self.size())] != NONE);
                        }
                    }
                }
            }
        }
    }

    /// Takes a number out.
    pub fn remove(&mut self, id: u64)
        requires
            old(self).wf(),
            old(self)@.dom().contains(id),
        ensures
            final(self).wf(),
            final(self)@ == old(self)@.remove(id),
            final(self).slots() == old(self).slots(),
            final(self).room() == old(self).room() + 1,
    {
        let ghost before = *self;
        let (bucket, node) = self.probe(id);
        proof {
            lemma_vacant(before.buckets@, before.size());
            assert(before.filled(bucket as int));
        }
        let ghost free = choose|b: int|
            0 <= b < before.size() && #[trigger] before.buckets@[b] == NONE;
        self.buckets.set(bucket, NONE);
        self.entries = Ghost(self.entries@.remove(id));
        let size: usize = self.buckets.len();
        let mut hole: usize = bucket;
        let mut next: usize = if bucket + 1 == size {
            0
        } else {
            bucket + 1
        };
        proof {
            lemma_taken_update(before.buckets@, bucket as int, NONE, before.size());
            lemma_opened(before, *self, id, bucket as int);
            assert(free != bucket);
        }
        while self.buckets[next] != NONE
            invariant
                size == self.size(),
                size > 1,
                hole < size,
                next < size,
                next != hole,
                0 <= free < size,
                self.buckets@[free] == NONE,
                free != hole,
                self.buckets@[hole as int] == NONE,
                self.sound(hole as int),
                dist(hole as int, next as int, size as int) <= dist(
                    hole as int,
                    free,
                    size as int,
                ),
                forall|b: int|
                    0 <= b < size && 0 < dist(hole as int, b, size as int) < dist(
                        hole as int,
                        next as int,
                        size as int,
                    ) ==> #[trigger] self.buckets@[b] != NONE && self.unaffected(b, hole as int),
                self@ == before@.remove(id),
                self.slots() == before.slots(),
                taken(self.buckets@, size as int) == taken(before.buckets@, size as int) - 1,
                self.keys@ == before.keys@,
            decreases dist(next as int, free, size as int),
        {
            let node: u32 = self.buckets[next];
            assert(self.filled(next as int));
            let home: usize = (hash(self.keys[node as usize]) % (size as u64)) as usize;
            let to_next: usize = if next >= home {
                next - home
            } else {
                next + (size - home)
            };
            let to_hole: usize = if hole >= home {
                hole - home
            } else {
                hole + (size - home)
            };
            let ghost now = *self;
            if to_next > to_hole {
                self.buckets.set(hole, node);
                self.buckets.set(next, NONE);
                self.seats = Ghost(self.seats@.insert(node as int, hole as int));
                proof {
                    lemma_moved(now, *self, hole as int, next as int);
                }
                hole = next;
            }
            next = if next + 1 == size {
                0
            } else {
                next + 1
            };
        }
        proof {
            lemma_closed(*self, hole as int, next as int);
        }
    }

    /// Whether the search for what a bucket holds does not pass a hole.
    spec fn unaffected(&self, b: int, hole: int) -> bool {
        let home = self.home(self.keys@[self.buckets@[b] as int]);
        dist(home, hole, self.size()) > dist(home, b, self.size())
    }
}

/// A number was taken out, and left a hole.
proof fn lemma_opened(before: Index, after: Index, id: u64, bucket: int)
    requires
        before.wf(),
        before.entries@.dom().contains(id),
        0 <= bucket < before.size(),
        before.buckets@[bucket] == before.entries@[id],
        before.buckets@[bucket] != NONE,
        after.buckets@ == before.buckets@.update(bucket, NONE),
        after.keys == before.keys,
        after.seats == before.seats,
        after.entries@ == before.entries@.remove(id),
        taken(after.buckets@, after.size()) < after.size(),
    ensures
        after.sound(bucket),
{
    assert(before.filled(bucket));
    assert(before.seated(id));
    assert forall|b: int| 0 <= b < after.size() && #[trigger] after.buckets@[b]
        != NONE implies after.filled(b) by {
        assert(before.buckets@[b] != NONE);
        assert(before.filled(b));
    }
    assert forall|other: u64| #[trigger] after.entries@.dom().contains(
        other,
    ) implies after.seated(other) && after.reached(other, bucket) by {
        assert(before.entries@.dom().contains(other));
        assert(before.seated(other) && before.reached(other, -1));
        assert(after.home(other) == before.home(other));
        let home = after.home(other);
        let size = after.size();
        assert forall|k: int|
            0 <= k < dist(home, after.seats@[after.entries@[other]], size) implies {
            ||| #[trigger] after.buckets@[at(home, k, size)] != NONE
            ||| at(home, k, size) == bucket
        } by {
            assert(before.buckets@[at(home, k, size)] != NONE);
        }
    }
}

/// An entry moved into the hole, and left another.
proof fn lemma_moved(before: Index, after: Index, hole: int, next: int)
    requires
        before.sound(hole),
        0 <= hole < before.size(),
        0 <= next < before.size(),
        hole != next,
        before.buckets@[hole] == NONE,
        before.buckets@[next] != NONE,
        after.buckets@ == before.buckets@.update(hole, before.buckets@[next]).update(next, NONE),
        after.keys == before.keys,
        after.entries == before.entries,
        after.seats@ == before.seats@.insert(before.buckets@[next] as int, hole),
        ({
            let home = before.home(before.keys@[before.buckets@[next] as int]);
            dist(home, next, before.size()) > dist(home, hole, before.size())
        }),
    ensures
        after.sound(next),
        taken(after.buckets@, after.size()) == taken(before.buckets@, before.size()),
{
    let node = before.buckets@[next];
    let size = before.size();
    assert(before.filled(next));
    lemma_taken_update(before.buckets@, hole, node, size);
    lemma_taken_update(before.buckets@.update(hole, node), next, NONE, size);
    assert forall|b: int| 0 <= b < size && #[trigger] after.buckets@[b]
        != NONE implies after.filled(b) by {
        if b != hole {
            assert(before.buckets@[b] != NONE);
            assert(before.filled(b));
        }
    }
    assert forall|id: u64| #[trigger] after.entries@.dom().contains(id) implies after.seated(id)
        && after.reached(id, next) by {
        assert(before.entries@.dom().contains(id));
        assert(before.seated(id) && before.reached(id, hole));
        assert(after.home(id) == before.home(id));
        let home = after.home(id);
        let n = before.entries@[id];
        let seat = after.seats@[n];
        let was = before.seats@[n];
        assert(n == node ==> was == next && seat == hole);
        assert(n != node ==> was == seat && seat != next);
        assert forall|k: int| 0 <= k < dist(home, seat, size) implies {
            ||| #[trigger] after.buckets@[at(home, k, size)] != NONE
            ||| at(home, k, size) == next
        } by {
            let b = at(home, k, size);
            assert(k < dist(home, was, size));
            assert(before.buckets@[b] != NONE || b == hole);
        }
    }
}

/// Where the scan ends, nothing needs the hole.
proof fn lemma_closed(index: Index, hole: int, next: int)
    requires
        index.sound(hole),
        0 <= hole < index.size(),
        0 <= next < index.size(),
        hole != next,
        index.buckets@[next] == NONE,
        index.buckets@[hole] == NONE,
        forall|b: int|
            0 <= b < index.size() && 0 < dist(hole, b, index.size()) < dist(
                hole,
                next,
                index.size(),
            ) ==> #[trigger] index.buckets@[b] != NONE && index.unaffected(b, hole),
    ensures
        index.wf(),
{
    let size = index.size();
    assert forall|id: u64| #[trigger] index.entries@.dom().contains(id) implies index.seated(id)
        && index.reached(id, -1) by {
        assert(index.seated(id) && index.reached(id, hole));
        let home = index.home(id);
        let seat = index.seats@[index.entries@[id]];
        let d = dist(home, seat, size);
        assert(index.buckets@[seat] == index.entries@[id]);
        assert forall|k: int| 0 <= k < d implies {
            ||| #[trigger] index.buckets@[at(home, k, size)] != NONE
            ||| at(home, k, size) == -1
        } by {
            let b = at(home, k, size);
            if b == hole {
                let e = dist(hole, seat, size);
                let f = dist(hole, next, size);
                assert(dist(home, hole, size) == k);
                if e < f {
                    assert(index.unaffected(seat, hole));
                } else {
                    assert(seat != next);
                    assert(k + f < d);
                    assert(at(home, k + f, size) == next);
                    assert(index.buckets@[at(home, k + f, size)] != NONE);
                }
            }
        }
    }
}

proof fn lemma_taken_push(buckets: Seq<u32>, value: u32, count: int)
    requires
        count <= buckets.len(),
    ensures
        taken(buckets.push(value), count) == taken(buckets, count),
    decreases count,
{
    if count > 0 {
        lemma_taken_push(buckets, value, count - 1);
    }
}

} // verus!
