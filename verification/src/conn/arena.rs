//! A pool of numbered slots that are used again under a new generation.
use vstd::prelude::*;

verus! {

/// No slot.
const NONE: u32 = 0xffff_ffff;

/// One slot: how often it was given back, and what it holds.
#[derive(Clone, Copy)]
pub struct Slot<T> {
    pub generation: u32,
    pub value: Option<T>,
}

/// A pool of at most `limit` slots. A slot that was given back is used again,
/// the last one first, until it has had the last generation.
pub struct Arena<T> {
    generations: Vec<u32>,
    values: Vec<Option<T>>,
    next_free: Vec<u32>,
    free: u32,
    limit: usize,
    last: u32,
    order: Ghost<Seq<int>>,
}

/// The content of a pool.
#[verifier::ext_equal]
pub struct ArenaModel<T> {
    pub slots: Seq<Slot<T>>,
    /// The slots to use again, the next one first.
    pub free: Seq<int>,
    pub limit: int,
    /// The last generation of a slot.
    pub last: u32,
}

impl<T> ArenaModel<T> {
    /// Whether a slot is there and holds something.
    pub open spec fn live(self, index: int) -> bool {
        0 <= index < self.slots.len() && self.slots[index].value is Some
    }

    /// What a live slot holds.
    pub open spec fn at(self, index: int) -> T {
        self.slots[index].value->0
    }

    /// The pool with another content in a slot.
    pub open spec fn put(self, index: int, value: Option<T>) -> ArenaModel<T> {
        ArenaModel {
            slots: self.slots.update(
                index,
                Slot { generation: self.slots[index].generation, value },
            ),
            ..self
        }
    }

    /// The slot that is handed out next, if there is one.
    pub open spec fn next(self) -> Option<int> {
        if self.free.len() > 0 {
            Some(self.free[0])
        } else if self.slots.len() == self.limit {
            None
        } else {
            Some(self.slots.len() as int)
        }
    }

    /// The pool after a slot was handed out.
    pub open spec fn taken(self) -> ArenaModel<T> {
        if self.free.len() > 0 {
            ArenaModel { free: self.free.subrange(1, self.free.len() as int), ..self }
        } else if self.slots.len() == self.limit {
            self
        } else {
            ArenaModel { slots: self.slots.push(Slot { generation: 0, value: None }), ..self }
        }
    }

    /// The pool after an empty slot was given back.
    pub open spec fn released(self, index: int) -> ArenaModel<T> {
        let slot = self.slots[index];
        if slot.generation >= self.last {
            self
        } else {
            ArenaModel {
                slots: self.slots.update(
                    index,
                    Slot { generation: (slot.generation + 1) as u32, ..slot },
                ),
                free: seq![index] + self.free,
                ..self
            }
        }
    }

    /// Whether a slot is never again in use under a generation: it has a later one, or is
    /// empty and not used again.
    pub open spec fn spent(self, index: int, generation: u32) -> bool {
        &&& 0 <= index < self.slots.len()
        &&& self.slots[index].generation > generation || (self.slots[index].generation
            == generation && self.slots[index].value is None && !self.free.contains(index))
    }

    /// Whether all that is spent stays so.
    pub open spec fn outlived_by(self, next: ArenaModel<T>) -> bool {
        forall|index: int, generation: u32|
            self.spent(index, generation) ==> #[trigger] next.spent(index, generation)
    }
}

/// Emptying a slot and giving it back brings nothing back that is spent.
pub proof fn lemma_given_back<T>(m: ArenaModel<T>, i: int)
    requires
        0 <= i < m.slots.len(),
    ensures
        m.outlived_by(m.put(i, None).released(i)),
{
    let next = m.put(i, None).released(i);
    assert forall|index: int, generation: u32| m.spent(index, generation) implies
        #[trigger] next.spent(index, generation) by {
        if index != i {
            assert(next.slots[index] == m.slots[index]);
            if next.free.contains(index) {
                let k = choose|k: int| 0 <= k < next.free.len() && next.free[k] == index;
                if m.slots[i].generation < m.last {
                    assert(m.free[k - 1] == index);
                }
            }
        }
    }
}

/// Changing what is in use brings nothing back that is spent.
pub proof fn lemma_put_over<T>(m: ArenaModel<T>, i: int, value: T)
    requires
        m.live(i),
    ensures
        m.outlived_by(m.put(i, Some(value))),
{
    let next = m.put(i, Some(value));
    assert forall|index: int, generation: u32| m.spent(index, generation) implies
        #[trigger] next.spent(index, generation) by {
        if index != i {
            assert(next.slots[index] == m.slots[index]);
        }
    }
}

/// Handing out a slot and filling it brings nothing back that is spent.
pub proof fn lemma_filled<T>(m: ArenaModel<T>, value: T)
    requires
        m.next() is Some,
        m.free.len() > 0 ==> 0 <= m.free[0] < m.slots.len(),
    ensures
        m.outlived_by(m.taken().put(m.next()->0, Some(value))),
{
    let i = m.next()->0;
    let next = m.taken().put(i, Some(value));
    assert forall|index: int, generation: u32| m.spent(index, generation) implies
        #[trigger] next.spent(index, generation) by {
        if index != i {
            assert(next.slots[index] == m.slots[index]);
            if next.free.contains(index) {
                let k = choose|k: int| 0 <= k < next.free.len() && next.free[k] == index;
                if m.free.len() > 0 {
                    assert(m.free[k + 1] == index);
                }
            }
        } else {
            assert(m.free[0] == i);
            assert(m.free.contains(i));
        }
    }
}

impl<T> View for Arena<T> {
    type V = ArenaModel<T>;

    closed spec fn view(&self) -> ArenaModel<T> {
        ArenaModel {
            slots: Seq::new(
                self.values@.len(),
                |i: int| Slot { generation: self.generations@[i], value: self.values@[i] },
            ),
            free: self.order@,
            limit: self.limit as int,
            last: self.last,
        }
    }
}

impl<T> Arena<T> {
    pub closed spec fn wf(&self) -> bool {
        let order = self.order@;
        &&& self.values@.len() <= self.limit
        &&& self.limit < u32::MAX
        &&& self.next_free@.len() == self.values@.len()
        &&& self.generations@.len() == self.values@.len()
        &&& self.free == if order.len() > 0 {
            order[0]
        } else {
            NONE as int
        }
        &&& forall|i: int|
            0 <= i < order.len() ==> {
                &&& 0 <= #[trigger] order[i] < self.values@.len()
                &&& self.values@[order[i]] is None
                &&& self.next_free@[order[i]] == if i + 1 < order.len() {
                    order[i + 1]
                } else {
                    NONE as int
                }
            }
        &&& order.no_duplicates()
    }

    /// What holds of every pool.
    pub proof fn lemma_model(&self)
        requires
            self.wf(),
        ensures
            self@.slots.len() <= self@.limit < u32::MAX,
            self@.free.no_duplicates(),
            forall|i: int|
                0 <= i < self@.free.len() ==> 0 <= #[trigger] self@.free[i] < self@.slots.len()
                    && self@.slots[self@.free[i]].value is None,
    {
        assert forall|i: int| 0 <= i < self@.free.len() implies 0 <= #[trigger] self@.free[i]
            < self@.slots.len() && self@.slots[self@.free[i]].value is None by {
            assert(self.order@[i] == self@.free[i]);
        }
    }

    /// An empty pool.
    pub fn new(limit: usize, last: u32) -> (arena: Arena<T>)
        requires
            limit < u32::MAX,
        ensures
            arena.wf(),
            arena@.slots.len() == 0,
            arena@.free.len() == 0,
            arena@.limit == limit,
            arena@.last == last,
    {
        Arena {
            generations: Vec::new(),
            values: Vec::new(),
            next_free: Vec::new(),
            free: NONE,
            limit,
            last,
            order: Ghost(Seq::empty()),
        }
    }

    /// Hands out an empty slot, with its generation.
    pub fn take(&mut self) -> (result: Option<(u32, u32)>)
        requires
            old(self).wf(),
        ensures
            final(self).wf(),
            final(self)@ == old(self)@.taken(),
            match result {
                Some((index, generation)) => {
                    &&& old(self)@.next() == Some(index as int)
                    &&& index < final(self)@.slots.len()
                    &&& generation == final(self)@.slots[index as int].generation
                    &&& final(self)@.slots[index as int].value is None
                    &&& !final(self)@.free.contains(index as int)
                },
                None => old(self)@.next() is None,
            },
    {
        let ghost order = self.order@;
        if self.free != NONE {
            let index: u32 = self.free;
            assert(order[0] == index);
            let next: u32 = self.next_free[index as usize];
            self.free = next;
            self.next_free.set(index as usize, NONE);
            self.order = Ghost(order.subrange(1, order.len() as int));
            proof {
                let rest = self.order@;
                assert forall|i: int| 0 <= i < rest.len() implies {
                    &&& 0 <= #[trigger] rest[i] < self.values@.len()
                    &&& self.values@[rest[i]] is None
                    &&& self.next_free@[rest[i]] == if i + 1 < rest.len() {
                        rest[i + 1]
                    } else {
                        NONE as int
                    }
                } by {
                    assert(rest[i] == order[i + 1]);
                    assert(order[i + 1] != order[0]);
                    if i + 1 < rest.len() {
                        assert(rest[i + 1] == order[i + 2]);
                    }
                }
                if rest.len() > 0 {
                    assert(rest[0] == order[1]);
                }
                assert(!rest.contains(index as int));
            }
            proof {
                assert(self@.slots =~= old(self)@.slots);
            }
            return Some((index, self.generations[index as usize]));
        }
        if self.values.len() == self.limit {
            proof {
                if order.len() > 0 {
                    assert(order[0] >= 0);
                }
            }
            return None;
        }
        let index: u32 = self.values.len() as u32;
        self.generations.push(0);
        self.values.push(None);
        self.next_free.push(NONE);
        proof {
            if order.len() > 0 {
                assert(order[0] >= 0);
            }
            assert(self@.slots =~= old(self)@.taken().slots);
        }
        Some((index, 0))
    }

    /// Gives an empty slot back.
    pub fn release(&mut self, index: u32)
        requires
            old(self).wf(),
            index < old(self)@.slots.len(),
            old(self)@.slots[index as int].value is None,
            !old(self)@.free.contains(index as int),
        ensures
            final(self).wf(),
            final(self)@ == old(self)@.released(index as int),
    {
        let ghost order = self.order@;
        let generation: u32 = self.generations[index as usize];
        if generation >= self.last {
            return;
        }
        self.generations.set(index as usize, generation + 1);
        self.next_free.set(index as usize, self.free);
        self.free = index;
        self.order = Ghost(seq![index as int] + order);
        proof {
            let longer = self.order@;
            assert forall|i: int| 0 <= i < longer.len() implies {
                &&& 0 <= #[trigger] longer[i] < self.values@.len()
                &&& self.values@[longer[i]] is None
                &&& self.next_free@[longer[i]] == if i + 1 < longer.len() {
                    longer[i + 1]
                } else {
                    NONE as int
                }
            } by {
                if i > 0 {
                    assert(longer[i] == order[i - 1]);
                    assert(order[i - 1] != index);
                    if i + 1 < longer.len() {
                        assert(longer[i + 1] == order[i]);
                    }
                } else if longer.len() > 1 {
                    assert(longer[1] == order[0]);
                }
            }
            assert(self@.slots =~= old(self)@.released(index as int).slots);
            assert forall|i: int, j: int|
                0 <= i < j < longer.len() implies longer[i] != longer[j] by {
                assert(longer[j] == order[j - 1]);
                if i > 0 {
                    assert(longer[i] == order[i - 1]);
                }
            }
        }
    }

    /// Whether one more slot can be handed out.
    pub fn has_next(&self) -> (has: bool)
        requires
            self.wf(),
        ensures
            has == (self@.next() is Some),
    {
        proof {
            if self.order@.len() > 0 {
                assert(0 <= self.order@[0] < self.values@.len());
            }
        }
        self.free != NONE || self.values.len() != self.limit
    }

    /// How many slots there are.
    pub fn len(&self) -> (len: usize)
        ensures
            len == self@.slots.len(),
    {
        self.values.len()
    }

    /// The generation of a slot.
    pub fn generation(&self, index: u32) -> (generation: u32)
        requires
            self.wf(),
            index < self@.slots.len(),
        ensures
            generation == self@.slots[index as int].generation,
    {
        self.generations[index as usize]
    }

    /// What the slot of that number and generation holds, if it is there.
    pub fn get(&self, index: u32, generation: u32) -> (value: Option<&T>)
        requires
            self.wf(),
        ensures
            match value {
                Some(value) => self@.live(index as int) && self@.slots[index as int].generation
                    == generation && *value == self@.at(index as int),
                None => !(self@.live(index as int) && self@.slots[index as int].generation
                    == generation),
            },
    {
        if index as usize >= self.values.len() || self.generations[index as usize] != generation {
            return None;
        }
        match &self.values[index as usize] {
            Some(value) => Some(value),
            None => None,
        }
    }

    /// Whether a slot holds something.
    pub fn is_live(&self, index: u32) -> (live: bool)
        requires
            self.wf(),
        ensures
            live == self@.live(index as int),
    {
        (index as usize) < self.values.len() && self.values[index as usize].is_some()
    }

    /// Fills a slot that was handed out, or empties it.
    pub fn put(&mut self, index: u32, value: Option<T>)
        requires
            old(self).wf(),
            index < old(self)@.slots.len(),
            !old(self)@.free.contains(index as int),
        ensures
            final(self).wf(),
            final(self)@ == old(self)@.put(index as int, value),
    {
        self.values.set(index as usize, value);
        assert forall|i: int| 0 <= i < self.order@.len() implies self.order@[i] != index by {
            assert(self@.free.contains(self.order@[i]));
        }
        assert(self@.slots =~= old(self)@.put(index as int, value).slots);
    }

    /// What a live slot holds.
    pub fn value_ref(&self, index: u32) -> (value: &T)
        requires
            self.wf(),
            self@.live(index as int),
        ensures
            *value == self@.at(index as int),
    {
        self.values[index as usize].as_ref().unwrap()
    }

    /// What a live slot holds, to be changed.
    pub fn value_mut(&mut self, index: u32) -> (value: &mut T)
        requires
            old(self).wf(),
            old(self)@.live(index as int),
        ensures
            *value == old(self)@.at(index as int),
            final(self).wf(),
            final(self)@ == old(self)@.put(index as int, Some(*final(value))),
    {
        proof {
            self.lemma_model();
        }
        self.values[index as usize].as_mut().unwrap()
    }
}

impl<T: Copy> Arena<T> {
    /// What a live slot holds.
    pub fn value(&self, index: u32) -> (value: T)
        requires
            self.wf(),
            self@.live(index as int),
        ensures
            value == self@.at(index as int),
    {
        self.values[index as usize].unwrap()
    }
}

} // verus!
