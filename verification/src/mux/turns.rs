//! Connections that wait for their turn.
use vstd::prelude::*;

use crate::conn::links::{is_linked, without, Lists};

verus! {

/// Connections in the order in which they were put in, each once only.
pub struct Turns {
    lists: Lists,
    len: usize,
}

impl View for Turns {
    type V = Seq<int>;

    closed spec fn view(&self) -> Seq<int> {
        self.lists@[0]
    }
}

/// The queue after a connection was put in, if it was not there.
pub open spec fn put_in(queue: Seq<int>, index: int) -> Seq<int> {
    if queue.contains(index) {
        queue
    } else {
        queue.push(index)
    }
}

/// The queue after a connection was taken out, if it was there.
pub open spec fn taken_out(queue: Seq<int>, index: int) -> Seq<int> {
    if queue.contains(index) {
        without(queue, index)
    } else {
        queue
    }
}

impl Turns {
    /// How many connections there are to name.
    pub closed spec fn size(&self) -> int {
        self.lists.size()
    }

    pub closed spec fn wf(&self) -> bool {
        &&& self.lists.wf()
        &&& self.lists@.len() == 1
        &&& self.lists.size() < u32::MAX
        &&& self.len == self.lists@[0].len()
    }

    /// What holds of every queue.
    pub proof fn lemma_model(&self)
        requires
            self.wf(),
        ensures
            self@.no_duplicates(),
            forall|i: int| 0 <= i < self@.len() ==> 0 <= #[trigger] self@[i] < self.size(),
            0 <= self.size() < u32::MAX,
    {
        self.lists.lemma_apart();
        self.lists.lemma_size();
    }

    /// An empty queue for so many connections.
    pub fn new(size: usize) -> (queue: Turns)
        requires
            size < u32::MAX,
        ensures
            queue.wf(),
            queue@ == Seq::<int>::empty(),
            queue.size() == size,
    {
        let mut lists = Lists::new();
        lists.add_list();
        let mut count: usize = 0;
        while count < size
            invariant
                count <= size < u32::MAX,
                lists.wf(),
                lists@.len() == 1,
                lists@[0].len() == 0,
                lists.size() == count,
            decreases size - count,
        {
            lists.add_element();
            count = count + 1;
        }
        Turns { lists, len: 0 }
    }

    /// Makes room for more connections.
    pub fn grow_to(&mut self, size: usize)
        requires
            old(self).wf(),
            old(self).size() <= size < u32::MAX,
        ensures
            final(self).wf(),
            final(self)@ == old(self)@,
            final(self).size() == size,
    {
        let ghost before = self.lists@;
        let ghost len = self.len;
        proof {
            self.lists.lemma_size();
        }
        let mut count: usize = self.lists.len();
        while count < size
            invariant
                count <= size < u32::MAX,
                self.lists.wf(),
                self.lists@ == before,
                self.lists.size() == count,
                self.len == len,
            decreases size - count,
        {
            self.lists.add_element();
            count = count + 1;
        }
    }

    pub fn len(&self) -> (len: usize)
        requires
            self.wf(),
        ensures
            len == self@.len(),
    {
        self.len
    }

    /// Whether a connection waits.
    pub fn contains(&self, index: usize) -> (found: bool)
        requires
            self.wf(),
            index < self.size(),
        ensures
            found == self@.contains(index as int),
    {
        proof {
            self.lists.lemma_size();
        }
        let found = self.lists.linked(index as u32);
        proof {
            if self@.contains(index as int) {
                assert(self.lists@[0].contains(index as int));
            }
        }
        found
    }

    /// Puts a connection in, behind all others, and tells whether it was not
    /// there.
    pub fn push_back(&mut self, index: usize) -> (pushed: bool)
        requires
            old(self).wf(),
            index < old(self).size(),
        ensures
            final(self).wf(),
            final(self).size() == old(self).size(),
            pushed == !old(self)@.contains(index as int),
            final(self)@ == put_in(old(self)@, index as int),
    {
        if self.contains(index) {
            return false;
        }
        proof {
            self.lists.lemma_size();
            self.lemma_bound();
            if is_linked(self.lists@, index as int) {
                assert(self.lists@[0].contains(index as int));
            }
        }
        self.lists.push_back(0, index as u32);
        self.len = self.len + 1;
        true
    }

    /// Takes a connection out, and tells whether it was there.
    pub fn remove(&mut self, index: usize) -> (removed: bool)
        requires
            old(self).wf(),
            index < old(self).size(),
        ensures
            final(self).wf(),
            final(self).size() == old(self).size(),
            removed == old(self)@.contains(index as int),
            final(self)@ == taken_out(old(self)@, index as int),
    {
        if !self.contains(index) {
            return false;
        }
        proof {
            self.lists.lemma_size();
        }
        self.lists.remove(0, index as u32);
        self.len = self.len - 1;
        true
    }

    /// Takes the connection out that waits longest.
    pub fn pop_front(&mut self) -> (index: Option<usize>)
        requires
            old(self).wf(),
        ensures
            final(self).wf(),
            final(self).size() == old(self).size(),
            match index {
                Some(index) => old(self)@.len() > 0 && index == old(self)@[0] && index
                    < old(self).size() && final(self)@ == old(self)@.subrange(
                    1,
                    old(self)@.len() as int,
                ),
                None => old(self)@.len() == 0 && final(self)@ == old(self)@,
            },
    {
        match self.lists.head(0) {
            Some(index) => {
                proof {
                    self.lemma_model();
                    assert(self@.contains(index as int)) by {
                        assert(self@[0] == index);
                    }
                    assert(self@.index_of(index as int) == 0);
                    assert(without(self@, index as int) =~= self@.subrange(1, self@.len() as int));
                }
                self.lists.remove(0, index);
                self.len = self.len - 1;
                Some(index as usize)
            },
            None => None,
        }
    }

    /// There are no more connections in the queue than there are.
    proof fn lemma_bound(&self)
        requires
            self.wf(),
        ensures
            self@.len() <= self.size(),
    {
        self.lists.lemma_apart();
        self.lists.lemma_size();
        crate::conn::links::lemma_total(self.lists@, self.size());
        reveal_with_fuel(crate::conn::links::total, 2);
    }
}

/// A connection waits once, behind those that came before it, and the others keep their order
/// when one is taken out.
pub proof fn law_waits_once(queue: Seq<int>, index: int)
    requires
        queue.no_duplicates(),
    ensures
        put_in(queue, index).no_duplicates(),
        put_in(queue, index).contains(index),
        !queue.contains(index) ==> put_in(queue, index).last() == index && put_in(
            queue,
            index,
        ).drop_last() == queue,
        queue.contains(index) ==> put_in(queue, index) == queue,
        !taken_out(queue, index).contains(index),
        !queue.contains(index) ==> taken_out(put_in(queue, index), index) == queue,
{
    if !queue.contains(index) {
        let more = queue.push(index);
        assert(more[queue.len() as int] == index);
        assert(more.drop_last() =~= queue);
        assert(more.index_of(index) == queue.len()) by {
            let at = more.index_of(index);
            if at < queue.len() {
                assert(queue[at] == index);
            }
        }
        assert(without(more, index) =~= queue);
    } else {
        let at = queue.index_of(index);
        let rest = taken_out(queue, index);
        if rest.contains(index) {
            let i = rest.index_of(index);
            assert(rest[i] == if i < at {
                queue[i]
            } else {
                queue[i + 1]
            });
        }
    }
}

} // verus!
