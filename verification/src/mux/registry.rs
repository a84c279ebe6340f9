//! The places of connections.
use vstd::prelude::*;

use crate::mux::{Handle, MAX_CONNECTIONS};

verus! {

/// One place: how often it was in use before, and what it holds.
pub struct Entry<T> {
    pub generation: u32,
    pub used: bool,
    pub value: Option<T>,
}

/// The places, and which of them are free, the next one first.
#[verifier::ext_equal]
pub struct RegistryModel<T> {
    pub entries: Seq<Entry<T>>,
    pub free: Seq<int>,
    pub max: int,
}

/// How many places are in use.
pub open spec fn live_count<T>(entries: Seq<Entry<T>>) -> int
    decreases entries.len(),
{
    if entries.len() == 0 {
        0
    } else {
        live_count(entries.drop_last()) + if entries.last().value is Some {
            1int
        } else {
            0
        }
    }
}

proof fn lemma_live_update<T>(entries: Seq<Entry<T>>, index: int, entry: Entry<T>)
    requires
        0 <= index < entries.len(),
    ensures
        live_count(entries.update(index, entry)) == live_count(entries) + (if entry.value is Some {
            1int
        } else {
            0
        }) - (if entries[index].value is Some {
            1int
        } else {
            0
        }),
    decreases entries.len(),
{
    let after = entries.update(index, entry);
    if index == entries.len() - 1 {
        assert(after.drop_last() =~= entries.drop_last());
    } else {
        assert(after.drop_last() =~= entries.drop_last().update(index, entry));
        lemma_live_update(entries.drop_last(), index, entry);
    }
}

/// Only so many places are in use as there are, and where none is counted, none is.
pub proof fn lemma_live_bound<T>(entries: Seq<Entry<T>>)
    ensures
        0 <= live_count(entries) <= entries.len(),
        live_count(entries) == 0 ==> forall|i: int|
            0 <= i < entries.len() ==> (#[trigger] entries[i]).value is None,
    decreases entries.len(),
{
    if entries.len() > 0 {
        lemma_live_bound(entries.drop_last());
        if live_count(entries) == 0 {
            assert forall|i: int| 0 <= i < entries.len() implies (
            #[trigger] entries[i]).value is None by {
                if i < entries.len() - 1 {
                    assert(entries.drop_last()[i].value is None);
                }
            }
        }
    }
}

impl<T> RegistryModel<T> {
    /// Whether a place is in use.
    pub open spec fn live(self, index: int) -> bool {
        0 <= index < self.entries.len() && self.entries[index].value is Some
    }

    /// What a place in use holds.
    pub open spec fn at(self, index: int) -> T {
        self.entries[index].value->0
    }

    /// How many places are in use.
    pub open spec fn active(self) -> int {
        live_count(self.entries)
    }

    /// The place that a handle names, if it is still in use for it.
    pub open spec fn index_of(self, handle: Handle) -> Option<int> {
        if self.live(handle.index as int) && self.entries[handle.index as int].generation
            == handle.generation {
            Some(handle.index as int)
        } else {
            None
        }
    }

    /// The handle of a place.
    pub open spec fn handle(self, index: int) -> Handle {
        Handle { index: index as u32, generation: self.entries[index].generation }
    }

    /// Whether a place was in use for the last time.
    pub open spec fn worn(self, index: int) -> bool {
        self.entries[index].used && self.entries[index].generation == u32::MAX
    }

    /// How many of the free places, from the first on, were in use for the last time.
    pub open spec fn worn_free(self, from: int) -> int
        decreases self.free.len() - from,
    {
        if from < 0 || from >= self.free.len() || !self.worn(self.free[from]) {
            from
        } else {
            self.worn_free(from + 1)
        }
    }

    /// The place that is used next.
    pub open spec fn next(self) -> Option<int> {
        if self.worn_free(0) < self.free.len() {
            Some(self.free[self.worn_free(0)])
        } else {
            None
        }
    }

    /// The places after the next one took something.
    pub open spec fn inserted(self, value: T) -> RegistryModel<T> {
        match self.next() {
            Some(index) => RegistryModel {
                entries: self.entries.update(
                    index,
                    Entry {
                        generation: if self.entries[index].used {
                            (self.entries[index].generation + 1) as u32
                        } else {
                            0
                        },
                        used: true,
                        value: Some(value),
                    },
                ),
                free: self.free.subrange(self.worn_free(0) + 1, self.free.len() as int),
                ..self
            },
            None => RegistryModel { free: Seq::empty(), ..self },
        }
    }

    /// The places with another content in one that is in use.
    pub open spec fn put(self, index: int, value: T) -> RegistryModel<T> {
        RegistryModel {
            entries: self.entries.update(
                index,
                Entry { value: Some(value), ..self.entries[index] },
            ),
            ..self
        }
    }

    /// The places after one was vacated.
    pub open spec fn removed(self, index: int) -> RegistryModel<T> {
        RegistryModel {
            entries: self.entries.update(index, Entry { value: None, ..self.entries[index] }),
            free: seq![index] + self.free,
            ..self
        }
    }

    /// The places after their number was set, while none is in use.
    pub open spec fn resized(self, max: int) -> RegistryModel<T> {
        if max > self.entries.len() {
            RegistryModel {
                entries: self.entries + Seq::new(
                    (max - self.entries.len()) as nat,
                    |i: int| Entry { generation: 0, used: false, value: None },
                ),
                free: Seq::new(
                    (max - self.entries.len()) as nat,
                    |i: int| self.entries.len() + i,
                ) + self.free,
                max,
            }
        } else {
            RegistryModel { max, ..self }
        }
    }

    /// The free places are there, once each, and not in use.
    pub open spec fn sound(self) -> bool {
        &&& self.entries.len() <= MAX_CONNECTIONS
        &&& 0 <= self.max <= self.entries.len()
        &&& self.free.no_duplicates()
        &&& forall|i: int|
            0 <= i < self.free.len() ==> 0 <= #[trigger] self.free[i] < self.entries.len()
                && self.entries[self.free[i]].value is None
    }
}

proof fn lemma_worn_free<T>(m: RegistryModel<T>, from: int)
    requires
        0 <= from <= m.free.len(),
    ensures
        from <= m.worn_free(from) <= m.free.len(),
        m.worn_free(from) < m.free.len() ==> !m.worn(m.free[m.worn_free(from)]),
    decreases m.free.len() - from,
{
    if from < m.free.len() && m.worn(m.free[from]) {
        lemma_worn_free(m, from + 1);
    }
}

/// The place that is used next is not in use.
pub proof fn lemma_next<T>(m: RegistryModel<T>)
    requires
        m.sound(),
        m.next() is Some,
    ensures
        0 <= m.next()->0 < m.entries.len(),
        m.entries[m.next()->0].value is None,
        !m.worn(m.next()->0),
{
    lemma_worn_free(m, 0);
    assert(m.entries[m.free[m.worn_free(0)]].value is None);
}

impl<T> RegistryModel<T> {
    /// Whether something was done to the places: one was taken, changed or vacated, or
    /// their number was set while none is in use.
    pub open spec fn steps_to(self, next: RegistryModel<T>) -> bool {
        ||| next == self
        ||| exists|value: T| next == #[trigger] self.inserted(value)
        ||| exists|index: int, value: T|
            self.live(index) && next == #[trigger] self.put(index, value)
        ||| exists|index: int| self.live(index) && next == #[trigger] self.removed(index)
        ||| exists|max: int|
            self.active() == 0 && 0 <= max <= MAX_CONNECTIONS && next == #[trigger] self.resized(
                max,
            )
    }

    /// Places in use are marked as used, and the free ones are in order.
    pub open spec fn marked(self) -> bool {
        &&& self.sound()
        &&& forall|i: int| #[trigger] self.live(i) ==> self.entries[i].used
    }

    /// Whether what a handle named is gone.
    spec fn spent(self, handle: Handle) -> bool {
        let i = handle.index as int;
        &&& i < self.entries.len()
        &&& self.entries[i].used
        &&& self.entries[i].generation > handle.generation || (self.entries[i].generation
            == handle.generation && self.entries[i].value is None)
    }
}

/// What becomes of a handle in one step: it goes on naming its connection, or it is spent;
/// and once it is, it stays so.
proof fn lemma_step<T>(m: RegistryModel<T>, next: RegistryModel<T>, handle: Handle)
    requires
        m.marked(),
        m.steps_to(next),
    ensures
        next.marked(),
        m.spent(handle) ==> next.spent(handle),
        m.index_of(handle) is Some ==> next.spent(handle) || next.index_of(handle) is Some,
{
    let i = handle.index as int;
    lemma_worn_free(m, 0);
    if m.index_of(handle) is Some {
        assert(m.live(i));
    }
    if next == m {
    } else if exists|value: T| next == #[trigger] m.inserted(value) {
        let value = choose|value: T| next == #[trigger] m.inserted(value);
        let from = m.worn_free(0) + 1;
        if m.next() is Some {
            lemma_next(m);
            let index = m.next()->0;
            assert forall|k: int| 0 <= k < next.free.len() implies 0 <= #[trigger] next.free[k]
                < next.entries.len() && next.entries[next.free[k]].value is None by {
                assert(next.free[k] == m.free[k + from]);
                assert(m.free[k + from] != m.free[from - 1]);
            }
            assert forall|k: int| #[trigger] next.live(k) implies next.entries[k].used by {
                if k != index {
                    assert(m.live(k));
                }
            }
        } else {
            assert forall|k: int| #[trigger] next.live(k) implies next.entries[k].used by {
                assert(m.live(k));
            }
        }
    } else if exists|index: int, value: T| m.live(index) && next == #[trigger] m.put(index, value) {
        let (index, value) = choose|index: int, value: T|
            m.live(index) && next == #[trigger] m.put(index, value);
        assert(forall|k: int| 0 <= k < m.free.len() ==> #[trigger] m.free[k] != index);
        assert forall|k: int| #[trigger] next.live(k) implies next.entries[k].used by {
            assert(m.live(k));
        }
    } else if exists|index: int| m.live(index) && next == #[trigger] m.removed(index) {
        let index = choose|index: int| m.live(index) && next == #[trigger] m.removed(index);
        assert(forall|k: int| 0 <= k < m.free.len() ==> #[trigger] m.free[k] != index);
        assert forall|k: int| 0 <= k < next.free.len() implies 0 <= #[trigger] next.free[k]
            < next.entries.len() && next.entries[next.free[k]].value is None by {
            if k > 0 {
                assert(next.free[k] == m.free[k - 1]);
            }
        }
        assert forall|k: int| #[trigger] next.live(k) implies next.entries[k].used by {
            assert(m.live(k));
        }
    } else {
        let max = choose|max: int|
            m.active() == 0 && 0 <= max <= MAX_CONNECTIONS && next == #[trigger] m.resized(max);
        let more = max - m.entries.len();
        assert forall|k: int| 0 <= k < next.free.len() implies 0 <= #[trigger] next.free[k]
            < next.entries.len() && next.entries[next.free[k]].value is None by {
            if more > 0 && k >= more {
                assert(next.free[k] == m.free[k - more]);
            } else if more <= 0 {
                assert(next.free[k] == m.free[k]);
            }
        }
        assert(next.free.no_duplicates()) by {
            assert forall|a: int, b: int|
                0 <= a < next.free.len() && 0 <= b < next.free.len() && a != b implies next.free[a]
                != next.free[b] by {
                if more > 0 {
                    if a >= more {
                        assert(next.free[a] == m.free[a - more]);
                    }
                    if b >= more {
                        assert(next.free[b] == m.free[b - more]);
                    }
                }
            }
        }
        assert forall|k: int| #[trigger] next.live(k) implies next.entries[k].used by {
            assert(m.live(k));
        }
    }
}

proof fn lemma_steps<T>(states: Seq<RegistryModel<T>>, handle: Handle, from: int, i: int)
    requires
        0 <= from <= i < states.len(),
        states[0].marked(),
        forall|k: int|
            0 <= k < states.len() - 1 ==> #[trigger] states[k].steps_to(states[k + 1]),
    ensures
        states[i].marked(),
        states[from].spent(handle) ==> states[i].spent(handle),
        states[from].index_of(handle) is Some ==> states[i].spent(handle) || states[i].index_of(
            handle,
        ) is Some,
    decreases i,
{
    if i > 0 {
        let to = if from < i {
            from
        } else {
            i - 1
        };
        lemma_steps(states, handle, to, i - 1);
        assert(states[i - 1].steps_to(states[i - 1 + 1]));
        lemma_step(states[i - 1], states[i], handle);
    }
}

/// Once its connection is gone a handle names nothing any more, whatever else is done: not
/// even a connection that comes to the same place.
pub proof fn law_handles_expire<T>(
    states: Seq<RegistryModel<T>>,
    handle: Handle,
    gone: int,
    i: int,
)
    requires
        0 <= gone <= i < states.len(),
        states[0].marked(),
        states[0].index_of(handle) is Some,
        forall|k: int|
            0 <= k < states.len() - 1 ==> #[trigger] states[k].steps_to(states[k + 1]),
        states[gone].index_of(handle) is None,
    ensures
        states[i].index_of(handle) is None,
{
    lemma_steps(states, handle, 0, gone);
    lemma_steps(states, handle, gone, i);
}

/// The places of connections.
pub struct Registry<T> {
    generations: Vec<u32>,
    used: Vec<bool>,
    values: Vec<Option<T>>,
    /// The free places, the next one last.
    free: Vec<u32>,
    active: usize,
    max: usize,
}

impl<T> View for Registry<T> {
    type V = RegistryModel<T>;

    closed spec fn view(&self) -> RegistryModel<T> {
        RegistryModel {
            entries: Seq::new(
                self.values@.len(),
                |i: int|
                    Entry {
                        generation: self.generations@[i],
                        used: self.used@[i],
                        value: self.values@[i],
                    },
            ),
            free: Seq::new(
                self.free@.len(),
                |i: int| self.free@[self.free@.len() - 1 - i] as int,
            ),
            max: self.max as int,
        }
    }
}

impl<T> Registry<T> {
    pub closed spec fn wf(&self) -> bool {
        &&& self.generations@.len() == self.values@.len()
        &&& self.used@.len() == self.values@.len()
        &&& self@.sound()
        &&& self.active == self@.active()
        &&& forall|i: int|
            0 <= i < self.values@.len() && (#[trigger] self.values@[i]) is Some ==> self.used@[i]
    }

    /// What holds of the places.
    pub proof fn lemma_model(&self)
        requires
            self.wf(),
        ensures
            self@.sound(),
            self@.marked(),
            forall|i: int| #[trigger] self@.live(i) ==> self@.entries[i].used,
            0 <= self@.active() <= self@.entries.len(),
    {
        assert forall|i: int| #[trigger] self@.live(i) implies self@.entries[i].used by {
            assert(self.values@[i] is Some);
        }
        lemma_live_bound(self@.entries);
    }

    /// So many places, all free.
    pub fn new(max: usize) -> (registry: Registry<T>)
        requires
            max <= MAX_CONNECTIONS,
        ensures
            registry.wf(),
            registry@.entries == Seq::new(
                max as nat,
                |i: int| Entry::<T> { generation: 0, used: false, value: None },
            ),
            registry@.free == Seq::new(max as nat, |i: int| i),
            registry@.max == max,
    {
        let mut registry: Registry<T> = Registry {
            generations: Vec::new(),
            used: Vec::new(),
            values: Vec::new(),
            free: Vec::new(),
            active: 0,
            max: 0,
        };
        let ghost empty = registry@;
        assert(empty.entries =~= Seq::empty());
        registry.resize(max);
        assert(registry@.entries =~= Seq::new(
            max as nat,
            |i: int| Entry::<T> { generation: 0, used: false, value: None },
        ));
        assert(registry@.free =~= Seq::new(max as nat, |i: int| i));
        registry
    }

    /// Sets how many places there are, while none is in use. Those that are there
    /// stay, and new ones are used first.
    pub fn resize(&mut self, max: usize)
        requires
            old(self).wf(),
            old(self)@.active() == 0,
            max <= MAX_CONNECTIONS,
        ensures
            final(self).wf(),
            final(self)@ == old(self)@.resized(max as int),
            final(self)@.active() == 0,
    {
        let ghost before = self@;
        let ghost start = self.values@.len();
        let ghost frees = self.free@;
        let count: usize = self.values.len();
        if max > count {
            let mut next: usize = max;
            while next > count
                invariant
                    count <= next <= max,
                    max <= MAX_CONNECTIONS,
                    self.free@.len() == frees.len() + (max - next),
                    forall|i: int|
                        0 <= i < self.free@.len() ==> #[trigger] self.free@[i] == if i
                            < frees.len() {
                            frees[i]
                        } else {
                            (max - 1 - (i - frees.len())) as u32
                        },
                    self.generations == old(self).generations,
                    self.used == old(self).used,
                    self.values == old(self).values,
                    self.active == old(self).active,
                decreases next,
            {
                next = next - 1;
                self.free.push(next as u32);
            }
            let ghost grown = self.free@;
            while self.values.len() < max
                invariant
                    start <= self.values@.len() <= max,
                    max <= MAX_CONNECTIONS,
                    self.generations@.len() == self.values@.len(),
                    self.used@.len() == self.values@.len(),
                    self.free@ == grown,
                    self.active == old(self).active,
                    start == old(self).values@.len(),
                    old(self).generations@.len() == start,
                    old(self).used@.len() == start,
                    forall|i: int|
                        0 <= i < start ==> #[trigger] self.values@[i] == old(self).values@[i],
                    forall|i: int|
                        0 <= i < start ==> #[trigger] self.generations@[i] == old(self).generations@[i],
                    forall|i: int|
                        0 <= i < start ==> #[trigger] self.used@[i] == old(self).used@[i],
                    forall|i: int|
                        start <= i < self.values@.len() ==> #[trigger] self.values@[i] is None,
                    forall|i: int|
                        start <= i < self.values@.len() ==> #[trigger] self.generations@[i] == 0,
                    forall|i: int|
                        start <= i < self.values@.len() ==> !#[trigger] self.used@[i],
                decreases max - self.values@.len(),
            {
                self.values.push(None);
                self.generations.push(0);
                self.used.push(false);
            }
        }
        self.max = max;
        proof {
            let after = self@;
            assert(after.entries =~= before.resized(max as int).entries);
            assert(after.free =~= before.resized(max as int).free);
            lemma_live_bound(before.entries);
            lemma_none_live(after.entries);
            assert forall|i: int, j: int|
                0 <= i < after.free.len() && 0 <= j < after.free.len() && i != j implies after.free[i]
                != after.free[j] by {
                let n = after.free.len() - before.free.len();
                if i >= n {
                    assert(after.free[i] == before.free[i - n]);
                }
                if j >= n {
                    assert(after.free[j] == before.free[j - n]);
                }
            }
            assert forall|i: int| 0 <= i < after.free.len() implies 0 <= #[trigger] after.free[i]
                < after.entries.len() && after.entries[after.free[i]].value is None by {
                let n = after.free.len() - before.free.len();
                if i >= n {
                    assert(after.free[i] == before.free[i - n]);
                }
            }
        }
    }

    pub fn len(&self) -> (len: usize)
        ensures
            len == self@.entries.len(),
    {
        self.values.len()
    }

    /// How many places are in use.
    pub fn active(&self) -> (active: usize)
        requires
            self.wf(),
        ensures
            active == self@.active(),
    {
        self.active
    }

    pub fn max(&self) -> (max: usize)
        ensures
            max == self@.max,
    {
        self.max
    }

    /// The place that a handle names, if it is still in use for it.
    pub fn handle_index(&self, handle: Handle) -> (index: Option<usize>)
        requires
            self.wf(),
        ensures
            match index {
                Some(index) => self@.index_of(handle) == Some(index as int) && self@.live(
                    index as int,
                ),
                None => self@.index_of(handle) is None,
            },
    {
        let index: usize = handle.index as usize;
        if index < self.values.len() && self.generations[index] == handle.generation
            && self.values[index].is_some() {
            Some(index)
        } else {
            None
        }
    }

    /// The handle of a place.
    pub fn handle_for_index(&self, index: usize) -> (handle: Handle)
        requires
            self.wf(),
            index < self@.entries.len(),
        ensures
            handle == self@.handle(index as int),
    {
        Handle { index: index as u32, generation: self.generations[index] }
    }

    /// Whether a place is in use.
    pub fn is_live(&self, index: usize) -> (live: bool)
        requires
            self.wf(),
        ensures
            live == self@.live(index as int),
    {
        index < self.values.len() && self.values[index].is_some()
    }

    /// Puts something in the next free place, or gives it back where there is none.
    pub fn insert(&mut self, value: T) -> (result: Result<Handle, T>)
        requires
            old(self).wf(),
        ensures
            final(self).wf(),
            final(self)@ == old(self)@.inserted(value),
            match result {
                Ok(handle) => {
                    &&& old(self)@.next() == Some(handle.index as int)
                    &&& handle == final(self)@.handle(handle.index as int)
                    &&& final(self)@.index_of(handle) == Some(handle.index as int)
                    &&& final(self)@.active() == old(self)@.active() + 1
                },
                Err(back) => old(self)@.next() is None && back == value && final(self)@.active()
                    == old(self)@.active(),
            },
    {
        let ghost before = self@;
        let ghost frees = self.free@;
        let ghost mut skipped: int = 0;
        proof {
            lemma_worn_free(before, 0);
            lemma_live_bound(before.entries);
        }
        while self.free.len() > 0
            invariant
                self.wf_but_free(),
                before.sound(),
                before.entries == self@.entries,
                before.max == self@.max,
                self.active == before.active(),
                live_count(before.entries) <= before.entries.len(),
                before.free == Seq::new(
                    frees.len(),
                    |i: int| frees[frees.len() - 1 - i] as int,
                ),
                0 <= skipped <= frees.len(),
                self.free@ == frees.subrange(0, frees.len() - skipped),
                before.worn_free(0) == before.worn_free(skipped),
                before == old(self)@,
            decreases self.free@.len(),
        {
            let index: usize = self.free[self.free.len() - 1] as usize;
            assert(before.free[skipped] == index);
            self.free.pop();
            assert(self.free@ =~= frees.subrange(0, frees.len() - skipped - 1));
            if self.used[index] {
                if self.generations[index] == u32::MAX {
                    assert(before.worn(index as int));
                    proof {
                        skipped = skipped + 1;
                    }
                    continue;
                }
                let generation: u32 = self.generations[index] + 1;
                self.generations.set(index, generation);
            } else {
                self.used.set(index, true);
                self.generations.set(index, 0);
            }
            proof {
                lemma_live_update(
                    before.entries,
                    index as int,
                    before.inserted(value).entries[index as int],
                );
                lemma_worn_free(before, skipped);
                lemma_live_bound(before.inserted(value).entries);
            }
            let handle = Handle { index: index as u32, generation: self.generations[index] };
            self.values.set(index, Some(value));
            self.active = self.active + 1;
            proof {
                let after = self@;
                assert(after.entries =~= before.inserted(value).entries);
                assert(after.free =~= before.free.subrange(
                    skipped + 1,
                    before.free.len() as int,
                ));
                lemma_rest_sound(before, after, skipped, index as int);
            }
            return Ok(handle);
        }
        assert(self@.free =~= Seq::empty());
        Err(value)
    }

    spec fn wf_but_free(&self) -> bool {
        &&& self.generations@.len() == self.values@.len()
        &&& self.used@.len() == self.values@.len()
        &&& forall|i: int|
            0 <= i < self.values@.len() && (#[trigger] self.values@[i]) is Some ==> self.used@[i]
    }

    /// Takes out what a place in use holds.
    pub fn remove(&mut self, index: usize) -> (value: T)
        requires
            old(self).wf(),
            old(self)@.live(index as int),
        ensures
            final(self).wf(),
            value == old(self)@.at(index as int),
            final(self)@ == old(self)@.removed(index as int),
            final(self)@.active() == old(self)@.active() - 1,
    {
        let ghost before = self@;
        proof {
            lemma_live_update(
                before.entries,
                index as int,
                before.removed(index as int).entries[index as int],
            );
            lemma_live_bound(before.removed(index as int).entries);
        }
        let mut value: Option<T> = None;
        std::mem::swap(&mut value, &mut self.values[index]);
        self.active = self.active - 1;
        self.free.push(index as u32);
        proof {
            let after = self@;
            assert(after.entries =~= before.removed(index as int).entries);
            assert(after.free =~= before.removed(index as int).free);
            assert forall|i: int, j: int|
                0 <= i < after.free.len() && 0 <= j < after.free.len() && i != j implies after.free[i]
                != after.free[j] by {
                if i > 0 {
                    assert(after.free[i] == before.free[i - 1]);
                }
                if j > 0 {
                    assert(after.free[j] == before.free[j - 1]);
                }
            }
            assert forall|i: int| 0 <= i < after.free.len() implies 0 <= #[trigger] after.free[i]
                < after.entries.len() && after.entries[after.free[i]].value is None by {
                if i > 0 {
                    assert(after.free[i] == before.free[i - 1]);
                }
            }
        }
        value.unwrap()
    }

    /// What a place in use holds.
    pub fn value_ref(&self, index: usize) -> (value: &T)
        requires
            self.wf(),
            self@.live(index as int),
        ensures
            *value == self@.at(index as int),
    {
        self.values[index].as_ref().unwrap()
    }

    /// What a place in use holds, to be changed.
    pub fn value_mut(&mut self, index: usize) -> (value: &mut T)
        requires
            old(self).wf(),
            old(self)@.live(index as int),
        ensures
            *value == old(self)@.at(index as int),
            final(self)@ == old(self)@.put(index as int, *final(value)),
            final(self).wf(),
            final(self)@.active() == old(self)@.active(),
    {
        let ghost before = self@;
        proof {
            assert forall|value: T| live_count(
                #[trigger] before.put(index as int, value).entries,
            ) == live_count(before.entries) by {
                lemma_live_update(
                    before.entries,
                    index as int,
                    Entry { value: Some(value), ..before.entries[index as int] },
                );
            }
            assert forall|value: T| (#[trigger] before.put(index as int, value)).sound() by {
                let after = before.put(index as int, value);
                assert forall|i: int| 0 <= i < after.free.len() implies 0
                    <= #[trigger] after.free[i] < after.entries.len()
                    && after.entries[after.free[i]].value is None by {
                    assert(before.entries[before.free[i]].value is None);
                }
            }
        }
        self.values[index].as_mut().unwrap()
    }
}

proof fn lemma_none_live<T>(entries: Seq<Entry<T>>)
    requires
        forall|i: int| 0 <= i < entries.len() ==> (#[trigger] entries[i]).value is None,
    ensures
        live_count(entries) == 0,
    decreases entries.len(),
{
    if entries.len() > 0 {
        lemma_none_live(entries.drop_last());
    }
}

proof fn lemma_rest_sound<T>(
    before: RegistryModel<T>,
    after: RegistryModel<T>,
    skipped: int,
    index: int,
)
    requires
        before.sound(),
        0 <= skipped < before.free.len(),
        before.free[skipped] == index,
        after.entries.len() == before.entries.len(),
        after.max == before.max,
        forall|i: int|
            0 <= i < before.entries.len() && i != index ==> #[trigger] after.entries[i]
                == before.entries[i],
        after.free == before.free.subrange(skipped + 1, before.free.len() as int),
    ensures
        after.sound(),
{
    assert forall|i: int, j: int|
        0 <= i < after.free.len() && 0 <= j < after.free.len() && i != j implies after.free[i]
        != after.free[j] by {
        assert(after.free[i] == before.free[i + skipped + 1]);
        assert(after.free[j] == before.free[j + skipped + 1]);
    }
    assert forall|i: int| 0 <= i < after.free.len() implies 0 <= #[trigger] after.free[i]
        < after.entries.len() && after.entries[after.free[i]].value is None by {
        assert(after.free[i] == before.free[i + skipped + 1]);
    }
}

/// What comes in is found under its own handle, and nothing else is moved by it.
pub proof fn law_comes_in_and_goes<T>(m: RegistryModel<T>, value: T, other: int)
    requires
        m.sound(),
        m.next() is Some,
        other != m.next()->0,
        0 <= other < m.entries.len(),
    ensures
        ({
            let index = m.next()->0;
            let after = m.inserted(value);
            let gone = after.removed(index);
            &&& !m.live(index)
            &&& after.live(index) && after.at(index) == value
            &&& after.index_of(after.handle(index)) == Some(index)
            &&& after.entries[other] == m.entries[other]
            &&& after.active() == m.active() + 1
            &&& !gone.live(index) && gone.index_of(after.handle(index)) is None
            &&& gone.entries[other] == m.entries[other]
            &&& gone.active() == m.active()
        }),
{
    let index = m.next()->0;
    let after = m.inserted(value);
    lemma_worn_free(m, 0);
    assert(m.entries[m.free[m.worn_free(0)]].value is None);
    lemma_live_update(m.entries, index, after.entries[index]);
    lemma_live_update(after.entries, index, after.removed(index).entries[index]);
}

} // verus!
