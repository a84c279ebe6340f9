//! When connections have to be looked at again.
use vstd::prelude::*;

use crate::clock::Instant;
use o3::collections::heap;

verus! {

/// The indexed heap of `o3`.
#[verifier::external_type_specification]
#[verifier::external_body]
#[verifier::reject_recursive_types(K)]
pub struct ExMin<K: Ord>(heap::Min<K>);

/// The time that a heap has for each number in it.
pub uninterp spec fn times(heap: heap::Min<u64>) -> Map<int, u64>;

/// How many numbers a heap is made for.
pub uninterp spec fn numbers(heap: heap::Min<u64>) -> nat;

/// No number has a time.
pub open spec fn no_times() -> Map<int, u64> {
    Map::empty()
}

/// A time that is given back.
pub open spec fn refused(time: u64) -> Result<(), u64> {
    Err(time)
}

/// Calls `o3::collections::heap::Min::with_capacity`: a heap that is empty and
/// made for the numbers below the capacity. It panics where the capacity does not
/// fit 32 bits, and aborts where there is no memory for it.
#[verifier::external_body]
fn heap_with_capacity(capacity: usize) -> (made: heap::Min<u64>)
    requires
        capacity <= u32::MAX,
    ensures
        times(made) == no_times(),
        numbers(made) == capacity,
{
    heap::Min::with_capacity(capacity)
}

/// Calls `o3::collections::heap::Min::peek`: nothing if the heap is empty, and
/// otherwise a number in it whose time is the least. Which one of several with
/// that time it is remains open.
#[verifier::external_body]
fn heap_peek(heap: &heap::Min<u64>) -> (least: Option<(usize, u64)>)
    ensures
        match least {
            Some((index, time)) => {
                &&& times(*heap).dom().contains(index as int)
                &&& times(*heap)[index as int] == time
                &&& index < numbers(*heap)
                &&& forall|i: int| #[trigger]
                    times(*heap).dom().contains(i) ==> time <= times(*heap)[i]
            },
            None => times(*heap) == no_times(),
        },
{
    heap.peek().map(|(index, time)| (index, *time))
}

/// Calls `o3::collections::heap::Min::insert`: puts a time in for a number that
/// has none and that the heap is made for, and gives the time back otherwise.
#[verifier::external_body]
fn heap_insert(heap: &mut heap::Min<u64>, index: usize, time: u64) -> (result: Result<(), u64>)
    ensures
        numbers(*final(heap)) == numbers(*old(heap)),
        if index < numbers(*old(heap)) && !times(*old(heap)).dom().contains(index as int) {
            result is Ok && times(*final(heap)) == times(*old(heap)).insert(index as int, time)
        } else {
            result == refused(time) && times(*final(heap)) == times(*old(heap))
        },
{
    heap.insert(index, time)
}

/// Calls `o3::collections::heap::Min::remove`: takes the time of a number out, if
/// it has one.
#[verifier::external_body]
fn heap_remove(heap: &mut heap::Min<u64>, index: usize) -> (time: Option<u64>)
    ensures
        numbers(*final(heap)) == numbers(*old(heap)),
        times(*final(heap)) == times(*old(heap)).remove(index as int),
        time == if times(*old(heap)).dom().contains(index as int) {
            Some(times(*old(heap))[index as int])
        } else {
            None
        },
{
    heap.remove(index)
}

/// Calls `o3::collections::heap::Min::grow_to`: makes a heap for more numbers. It
/// panics where there are fewer of them, or more than fit 32 bits.
#[verifier::external_body]
fn heap_grow_to(heap: &mut heap::Min<u64>, capacity: usize)
    requires
        numbers(*old(heap)) <= capacity <= u32::MAX,
    ensures
        times(*final(heap)) == times(*old(heap)),
        numbers(*final(heap)) == capacity,
{
    heap.grow_to(capacity)
}

/// The times at which connections have to be looked at again.
pub struct Deadlines {
    heap: heap::Min<u64>,
}

impl View for Deadlines {
    type V = Map<int, u64>;

    closed spec fn view(&self) -> Map<int, u64> {
        times(self.heap)
    }
}

impl Deadlines {
    /// How many connections there are to name.
    pub closed spec fn size(&self) -> int {
        numbers(self.heap) as int
    }

    pub fn new(size: usize) -> (deadlines: Deadlines)
        requires
            size <= u32::MAX,
        ensures
            deadlines@ == no_times(),
            deadlines.size() == size,
    {
        Deadlines { heap: heap_with_capacity(size) }
    }

    /// Makes room for more connections.
    pub fn grow_to(&mut self, size: usize)
        requires
            old(self).size() <= size <= u32::MAX,
        ensures
            final(self)@ == old(self)@,
            final(self).size() == size,
    {
        heap_grow_to(&mut self.heap, size);
    }

    /// A connection with the earliest time, if there is one.
    pub fn peek(&self) -> (least: Option<(usize, Instant)>)
        ensures
            match least {
                Some((index, time)) => {
                    &&& self@.dom().contains(index as int)
                    &&& self@[index as int] == time
                    &&& index < self.size()
                    &&& forall|i: int| #[trigger] self@.dom().contains(i) ==> time <= self@[i]
                },
                None => self@ == no_times(),
            },
    {
        heap_peek(&self.heap)
    }

    /// Takes the time of a connection out.
    pub fn remove(&mut self, index: usize) -> (time: Option<Instant>)
        ensures
            final(self).size() == old(self).size(),
            final(self)@ == old(self)@.remove(index as int),
            time == if old(self)@.dom().contains(index as int) {
                Some(old(self)@[index as int])
            } else {
                None
            },
    {
        heap_remove(&mut self.heap, index)
    }

    /// Gives a connection a time in place of the one that it has, and tells whether
    /// there is such a connection.
    pub fn set(&mut self, index: usize, time: Instant) -> (done: bool)
        ensures
            final(self).size() == old(self).size(),
            done == (index < old(self).size()),
            final(self)@ == if index < old(self).size() {
                old(self)@.insert(index as int, time)
            } else {
                old(self)@.remove(index as int)
            },
    {
        let ghost before = self@;
        heap_remove(&mut self.heap, index);
        match heap_insert(&mut self.heap, index, time) {
            Ok(_) => {
                assert(self@ =~= before.insert(index as int, time));
                true
            },
            Err(_) => false,
        }
    }
}

} // verus!
