//! Doubly linked lists over numbered elements.
use vstd::prelude::*;

verus! {

/// No element.
const NONE: u32 = 0xffff_ffff;

#[derive(Clone, Copy)]
struct Link {
    previous: u32,
    next: u32,
    linked: bool,
}

#[derive(Clone, Copy)]
struct Chain {
    head: u32,
    tail: u32,
}

/// A fixed number of lists over elements that are numbered from zero, where an
/// element is in at most one list. The view holds the elements of each list, in
/// order.
pub struct Lists {
    links: Vec<Link>,
    chains: Vec<Chain>,
    orders: Ghost<Seq<Seq<int>>>,
    /// The list of a linked element.
    homes: Ghost<Seq<int>>,
}

/// A sequence without its first occurrence of a value.
pub open spec fn without(order: Seq<int>, element: int) -> Seq<int> {
    order.remove(order.index_of(element))
}

/// Whether an element is in a list.
pub open spec fn is_linked(orders: Seq<Seq<int>>, element: int) -> bool {
    exists|list: int| 0 <= list < orders.len() && (#[trigger] orders[list]).contains(element)
}

/// The number of an element, or the mark of none.
spec fn mark(order: Seq<int>, position: int) -> int {
    if 0 <= position < order.len() {
        order[position]
    } else {
        NONE as int
    }
}

/// The total length of the first lists.
pub open spec fn total(orders: Seq<Seq<int>>, count: int) -> int
    decreases count,
{
    if count <= 0 {
        0
    } else {
        total(orders, count - 1) + orders[count - 1].len()
    }
}

/// Each element is in range and in one place only.
pub open spec fn apart(orders: Seq<Seq<int>>, size: int) -> bool {
    &&& forall|list: int, position: int|
        0 <= list < orders.len() && 0 <= position < orders[list].len() ==> 0
            <= #[trigger] orders[list][position] < size
    &&& forall|list: int| 0 <= list < orders.len() ==> (#[trigger] orders[list]).no_duplicates()
    &&& forall|one: int, other: int, element: int|
        0 <= one < orders.len() && 0 <= other < orders.len()
            && #[trigger] orders[one].contains(element) && #[trigger] orders[other].contains(
            element,
        ) ==> one == other
}

impl View for Lists {
    type V = Seq<Seq<int>>;

    closed spec fn view(&self) -> Seq<Seq<int>> {
        self.orders@
    }
}

impl Lists {
    /// How many elements there are.
    pub closed spec fn size(&self) -> int {
        self.links@.len() as int
    }

    spec fn placed(&self, list: int, position: int) -> bool {
        let order = self.orders@[list];
        let element = order[position];
        &&& 0 <= element < self.links@.len()
        &&& self.links@[element].linked
        &&& self.homes@[element] == list
        &&& self.links@[element].previous == mark(order, position - 1)
        &&& self.links@[element].next == mark(order, position + 1)
    }

    spec fn ends(&self) -> bool {
        forall|list: int|
            0 <= list < self.orders@.len() ==> {
                &&& (#[trigger] self.chains@[list]).head == mark(self.orders@[list], 0)
                &&& self.chains@[list].tail == mark(
                    self.orders@[list],
                    self.orders@[list].len() - 1,
                )
            }
    }

    spec fn places(&self) -> bool {
        forall|list: int, position: int|
            #![trigger self.orders@[list][position]]
            0 <= list < self.orders@.len() && 0 <= position < self.orders@[list].len()
                ==> self.placed(list, position)
    }

    spec fn distinct(&self) -> bool {
        forall|list: int|
            0 <= list < self.orders@.len() ==> (#[trigger] self.orders@[list]).no_duplicates()
    }

    spec fn settled(&self) -> bool {
        forall|element: int|
            0 <= element < self.links@.len() && (#[trigger] self.links@[element]).linked ==> 0
                <= self.homes@[element] < self.orders@.len()
                && self.orders@[self.homes@[element]].contains(element)
    }

    pub closed spec fn wf(&self) -> bool {
        &&& self.links@.len() <= NONE
        &&& self.homes@.len() == self.links@.len()
        &&& self.chains@.len() == self.orders@.len()
        &&& self.ends()
        &&& self.places()
        &&& self.distinct()
        &&& self.settled()
    }

    /// The elements can be numbered.
    pub proof fn lemma_size(&self)
        requires
            self.wf(),
        ensures
            0 <= self.size() <= u32::MAX,
    {
    }

    /// How many elements there are.
    pub fn len(&self) -> (len: usize)
        ensures
            len == self.size(),
    {
        self.links.len()
    }

    /// Every element is in one place at most.
    pub proof fn lemma_apart(&self)
        requires
            self.wf(),
        ensures
            apart(self@, self.size()),
    {
        let orders = self.orders@;
        assert forall|list: int, position: int|
            0 <= list < orders.len() && 0 <= position < orders[list].len() implies 0
            <= #[trigger] orders[list][position] < self.size() by {
            assert(self.placed(list, position));
        }
        assert forall|one: int, other: int, element: int|
            0 <= one < orders.len() && 0 <= other < orders.len()
                && #[trigger] orders[one].contains(element) && #[trigger] orders[other].contains(
                element,
            ) implies one == other by {
            let p = orders[one].index_of(element);
            let q = orders[other].index_of(element);
            assert(orders[one][p] == element && self.placed(one, p));
            assert(orders[other][q] == element && self.placed(other, q));
        }
    }

    /// No lists and no elements.
    pub fn new() -> (lists: Lists)
        ensures
            lists.wf(),
            lists@.len() == 0,
            lists.size() == 0,
    {
        Lists {
            links: Vec::new(),
            chains: Vec::new(),
            orders: Ghost(Seq::empty()),
            homes: Ghost(Seq::empty()),
        }
    }

    /// Adds an empty list.
    pub fn add_list(&mut self)
        requires
            old(self).wf(),
        ensures
            final(self).wf(),
            final(self)@ == old(self)@.push(Seq::empty()),
            final(self).size() == old(self).size(),
    {
        let ghost before = *self;
        self.chains.push(Chain { head: NONE, tail: NONE });
        self.orders = Ghost(self.orders@.push(Seq::empty()));
        assert forall|list: int, position: int|
            0 <= list < self.orders@.len() && 0 <= position
                < self.orders@[list].len() implies self.placed(list, position) by {
            assert(before.placed(list, position));
        }
        assert forall|element: int|
            0 <= element < self.links@.len() && (
            #[trigger] self.links@[element]).linked implies 0 <= self.homes@[element]
            < self.orders@.len() && self.orders@[self.homes@[element]].contains(element) by {
            assert(before.links@[element].linked);
        }
    }

    /// Adds an element that is in no list.
    pub fn add_element(&mut self)
        requires
            old(self).wf(),
            old(self).size() < u32::MAX,
        ensures
            final(self).wf(),
            final(self)@ == old(self)@,
            final(self).size() == old(self).size() + 1,
    {
        let ghost before = *self;
        self.links.push(Link { previous: NONE, next: NONE, linked: false });
        self.homes = Ghost(self.homes@.push(0));
        assert forall|list: int, position: int|
            0 <= list < self.orders@.len() && 0 <= position
                < self.orders@[list].len() implies self.placed(list, position) by {
            assert(before.placed(list, position));
        }
        assert forall|element: int|
            0 <= element < self.links@.len() && (
            #[trigger] self.links@[element]).linked implies 0 <= self.homes@[element]
            < self.orders@.len() && self.orders@[self.homes@[element]].contains(element) by {
            assert(before.links@[element].linked);
        }
    }

    /// The first element of a list.
    pub fn head(&self, list: u32) -> (head: Option<u32>)
        requires
            self.wf(),
            list < self@.len(),
        ensures
            match head {
                Some(element) => self@[list as int].len() > 0 && element == self@[list as int][0]
                    && element < self.size(),
                None => self@[list as int].len() == 0,
            },
    {
        let head: u32 = self.chains[list as usize].head;
        proof {
            if self.orders@[list as int].len() > 0 {
                assert(self.orders@[list as int][0] >= 0);
                assert(self.placed(list as int, 0));
            }
        }
        if head == NONE {
            None
        } else {
            Some(head)
        }
    }

    /// The element after one of a list.
    pub fn next(&self, list: u32, element: u32) -> (next: Option<u32>)
        requires
            self.wf(),
            list < self@.len(),
            self@[list as int].contains(element as int),
        ensures
            ({
                let order = self@[list as int];
                let position = order.index_of(element as int) + 1;
                match next {
                    Some(next) => position < order.len() && next == order[position] && next
                        < self.size(),
                    None => position == order.len(),
                }
            }),
    {
        let ghost order = self.orders@[list as int];
        let ghost position = order.index_of(element as int);
        proof {
            assert(order[position] == element);
            assert(self.placed(list as int, position));
            if position + 1 < order.len() {
                assert(order[position + 1] >= 0 || true);
                assert(self.placed(list as int, position + 1));
            }
        }
        let next: u32 = self.links[element as usize].next;
        if next == NONE {
            None
        } else {
            Some(next)
        }
    }

    /// Whether an element is in a list.
    pub fn linked(&self, element: u32) -> (linked: bool)
        requires
            self.wf(),
            element < self.size(),
        ensures
            linked == is_linked(self@, element as int),
    {
        let linked = self.links[element as usize].linked;
        proof {
            if linked {
                assert(self.orders@[self.homes@[element as int]].contains(element as int));
            }
            if is_linked(self@, element as int) {
                let list = choose|list: int|
                    0 <= list < self@.len() && (#[trigger] self@[list]).contains(element as int);
                let position = self@[list].index_of(element as int);
                assert(self.orders@[list][position] == element);
                assert(self.placed(list, position));
            }
        }
        linked
    }

    /// Puts an element behind a list's last.
    pub fn push_back(&mut self, list: u32, element: u32)
        requires
            old(self).wf(),
            list < old(self)@.len(),
            element < old(self).size(),
            !is_linked(old(self)@, element as int),
        ensures
            final(self).wf(),
            final(self)@ == old(self)@.update(
                list as int,
                old(self)@[list as int].push(element as int),
            ),
            final(self).size() == old(self).size(),
    {
        let ghost before = *self;
        let ghost order = self.orders@[list as int];
        let ghost e = element as int;
        let ghost l = list as int;
        proof {
            if self.links@[e].linked {
                assert(self.orders@[self.homes@[e]].contains(e));
                assert(is_linked(self@, e));
            }
            if order.len() > 0 {
                assert(order[order.len() - 1] == mark(order, order.len() - 1));
                assert(self.placed(l, order.len() - 1));
            }
            assert forall|other: int, position: int|
                0 <= other < self.orders@.len() && 0 <= position
                    < self.orders@[other].len() implies #[trigger] self.orders@[other][position]
                != e by {
                assert(self.placed(other, position));
            }
        }
        let tail: u32 = self.chains[list as usize].tail;
        self.links.set(element as usize, Link { previous: tail, next: NONE, linked: true });
        if tail == NONE {
            self.chains.set(list as usize, Chain { head: element, tail: element });
        } else {
            let link = self.links[tail as usize];
            self.links.set(tail as usize, Link { next: element, ..link });
            let chain = self.chains[list as usize];
            self.chains.set(list as usize, Chain { tail: element, ..chain });
        }
        self.orders = Ghost(self.orders@.update(l, order.push(e)));
        self.homes = Ghost(self.homes@.update(e, l));
        proof {
            assert(self.orders@[l] =~= order.push(e));
            assert forall|other: int, position: int|
                0 <= other < self.orders@.len() && 0 <= position
                    < self.orders@[other].len() implies self.placed(other, position) by {
                if other != l {
                    assert(before.orders@[other][position] == self.orders@[other][position]);
                    assert(before.placed(other, position));
                } else if position < order.len() {
                    assert(before.orders@[l][position] == order[position]);
                    assert(before.placed(l, position));
                    if position < order.len() - 1 {
                        assert(order[position] != order[order.len() - 1]);
                    }
                }
            }
            assert(self.orders@[l].no_duplicates()) by {
                assert forall|i: int| 0 <= i < order.len() implies order[i] != e by {
                    assert(before.orders@[l][i] != e);
                }
            }
            assert forall|x: int|
                0 <= x < self.links@.len() && (#[trigger] self.links@[x]).linked implies 0
                <= self.homes@[x] < self.orders@.len() && self.orders@[self.homes@[x]].contains(
                x,
            ) by {
                if x == e {
                    assert(self.orders@[l][order.len() as int] == e);
                } else {
                    assert(before.links@[x].linked);
                    let home = before.homes@[x];
                    let p = before.orders@[home].index_of(x);
                    assert(self.orders@[home][p] == x);
                }
            }
        }
    }

    /// Takes an element out of a list.
    pub fn remove(&mut self, list: u32, element: u32)
        requires
            old(self).wf(),
            list < old(self)@.len(),
            old(self)@[list as int].contains(element as int),
        ensures
            final(self).wf(),
            final(self)@ == old(self)@.update(
                list as int,
                without(old(self)@[list as int], element as int),
            ),
            final(self).size() == old(self).size(),
    {
        let ghost before = *self;
        let ghost order = self.orders@[list as int];
        let ghost e = element as int;
        let ghost l = list as int;
        let ghost at = order.index_of(e);
        let ghost rest = order.remove(at);
        proof {
            assert(order[at] == e && self.placed(l, at));
            if at > 0 {
                assert(order[at - 1] == mark(order, at - 1));
                assert(self.placed(l, at - 1));
            }
            if at + 1 < order.len() {
                assert(order[at + 1] == mark(order, at + 1));
                assert(self.placed(l, at + 1));
            }
            assert(order[order.len() - 1] == mark(order, order.len() - 1));
            assert(self.placed(l, order.len() - 1));
        }
        let link = self.links[element as usize];
        let previous: u32 = link.previous;
        let next: u32 = link.next;
        if previous == NONE {
            let chain = self.chains[list as usize];
            self.chains.set(list as usize, Chain { head: next, ..chain });
        } else {
            let before_it = self.links[previous as usize];
            self.links.set(previous as usize, Link { next, ..before_it });
        }
        if next == NONE {
            let chain = self.chains[list as usize];
            self.chains.set(list as usize, Chain { tail: previous, ..chain });
        } else {
            let after_it = self.links[next as usize];
            self.links.set(next as usize, Link { previous, ..after_it });
        }
        self.links.set(element as usize, Link { previous: NONE, next: NONE, linked: false });
        self.orders = Ghost(self.orders@.update(l, rest));
        proof {
            assert(removed(before, *self, l, at));
            lemma_removed(before, *self, l, at);
        }
    }
}

/// The links after an element was taken out.
spec fn removed(before: Lists, after: Lists, list: int, at: int) -> bool {
    let order = before.orders@[list];
    let element = order[at];
    let previous = mark(order, at - 1);
    let next = mark(order, at + 1);
    &&& after.homes == before.homes
    &&& after.orders@ == before.orders@.update(list, order.remove(at))
    &&& after.links@.len() == before.links@.len()
    &&& after.chains@.len() == before.chains@.len()
    &&& forall|other: int|
        0 <= other < before.chains@.len() && other != list ==> #[trigger] after.chains@[other]
            == before.chains@[other]
    &&& after.chains@[list].head == if at == 0 {
        next
    } else {
        before.chains@[list].head as int
    }
    &&& after.chains@[list].tail == if at == order.len() - 1 {
        previous
    } else {
        before.chains@[list].tail as int
    }
    &&& !after.links@[element].linked
    &&& forall|x: int|
        0 <= x < before.links@.len() && x != element ==> {
            &&& (#[trigger] after.links@[x]).linked == before.links@[x].linked
            &&& after.links@[x].previous == if x == next {
                previous
            } else {
                before.links@[x].previous as int
            }
            &&& after.links@[x].next == if x == previous {
                next
            } else {
                before.links@[x].next as int
            }
        }
}

proof fn lemma_removed(before: Lists, after: Lists, list: int, at: int)
    requires
        before.wf(),
        0 <= list < before.orders@.len(),
        0 <= at < before.orders@[list].len(),
        removed(before, after, list, at),
    ensures
        after.wf(),
{
    lemma_removed_ends(before, after, list, at);
    lemma_removed_places(before, after, list, at);
    lemma_removed_distinct(before, after, list, at);
    lemma_removed_settled(before, after, list, at);
}

proof fn lemma_removed_ends(before: Lists, after: Lists, list: int, at: int)
    requires
        before.wf(),
        0 <= list < before.orders@.len(),
        0 <= at < before.orders@[list].len(),
        removed(before, after, list, at),
    ensures
        after.ends(),
{
    assert forall|other: int| 0 <= other < after.orders@.len() implies {
        &&& (#[trigger] after.chains@[other]).head == mark(after.orders@[other], 0)
        &&& after.chains@[other].tail == mark(after.orders@[other], after.orders@[other].len() - 1)
    } by {
        assert(before.chains@[other].head == mark(before.orders@[other], 0));
    }
}

proof fn lemma_removed_places(before: Lists, after: Lists, list: int, at: int)
    requires
        before.wf(),
        0 <= list < before.orders@.len(),
        0 <= at < before.orders@[list].len(),
        removed(before, after, list, at),
    ensures
        after.places(),
{
    assert forall|other: int, position: int|
        #![trigger after.orders@[other][position]]
        0 <= other < after.orders@.len() && 0 <= position
            < after.orders@[other].len() implies after.placed(other, position) by {
        if other != list {
            lemma_kept_place(before, after, list, at, other, position);
        } else {
            lemma_removed_place(before, after, list, at, position);
        }
    }
}

proof fn lemma_removed_distinct(before: Lists, after: Lists, list: int, at: int)
    requires
        before.wf(),
        0 <= list < before.orders@.len(),
        0 <= at < before.orders@[list].len(),
        removed(before, after, list, at),
    ensures
        after.distinct(),
{
    assert forall|other: int| 0 <= other < after.orders@.len() implies (
    #[trigger] after.orders@[other]).no_duplicates() by {
        assert(before.orders@[other].no_duplicates());
    }
}

proof fn lemma_removed_settled(before: Lists, after: Lists, list: int, at: int)
    requires
        before.wf(),
        0 <= list < before.orders@.len(),
        0 <= at < before.orders@[list].len(),
        removed(before, after, list, at),
    ensures
        after.settled(),
{
    assert forall|x: int| 0 <= x < after.links@.len() && (
    #[trigger] after.links@[x]).linked implies 0 <= after.homes@[x] < after.orders@.len()
        && after.orders@[after.homes@[x]].contains(x) by {
        lemma_removed_home(before, after, list, at, x);
    }
}

proof fn lemma_removed_home(before: Lists, after: Lists, list: int, at: int, x: int)
    requires
        before.wf(),
        0 <= list < before.orders@.len(),
        0 <= at < before.orders@[list].len(),
        removed(before, after, list, at),
        0 <= x < before.links@.len(),
        after.links@[x].linked,
    ensures
        0 <= after.homes@[x] < after.orders@.len(),
        after.orders@[after.homes@[x]].contains(x),
{
    assert(before.links@[x].linked);
    let home = before.homes@[x];
    let p = before.orders@[home].index_of(x);
    if home == list {
        let q = if p < at {
            p
        } else {
            p - 1
        };
        assert(after.orders@[list][q] == x);
    } else {
        assert(after.orders@[home][p] == x);
    }
}

proof fn lemma_kept_place(
    before: Lists,
    after: Lists,
    list: int,
    at: int,
    other: int,
    position: int,
)
    requires
        before.wf(),
        0 <= list < before.orders@.len(),
        0 <= at < before.orders@[list].len(),
        removed(before, after, list, at),
        0 <= other < before.orders@.len(),
        other != list,
        0 <= position < before.orders@[other].len(),
    ensures
        after.placed(other, position),
{
    let order = before.orders@[list];
    assert(before.orders@[other][position] == after.orders@[other][position]);
    assert(before.placed(other, position));
    assert(order[at] == before.orders@[list][at]);
    assert(before.placed(list, at));
    if at > 0 {
        assert(order[at - 1] == before.orders@[list][at - 1]);
        assert(before.placed(list, at - 1));
    }
    if at + 1 < order.len() {
        assert(order[at + 1] == before.orders@[list][at + 1]);
        assert(before.placed(list, at + 1));
    }
}

proof fn lemma_removed_place(before: Lists, after: Lists, list: int, at: int, position: int)
    requires
        before.wf(),
        0 <= list < before.orders@.len(),
        0 <= at < before.orders@[list].len(),
        removed(before, after, list, at),
        0 <= position < before.orders@[list].len() - 1,
    ensures
        after.placed(list, position),
{
    let order = before.orders@[list];
    let rest = order.remove(at);
    assert(after.orders@[list] =~= rest);
    let was = if position < at {
        position
    } else {
        position + 1
    };
    let x = order[was];
    assert(rest[position] == x);
    assert(before.placed(list, was));
    assert(x != order[at]);
    if at > 0 {
        assert(before.orders@[list][at - 1] == order[at - 1]);
        assert(before.placed(list, at - 1));
    }
    if at + 1 < order.len() {
        assert(before.orders@[list][at + 1] == order[at + 1]);
        assert(before.placed(list, at + 1));
    }
    assert(x == mark(order, at - 1) <==> was == at - 1);
    assert(x == mark(order, at + 1) <==> was == at + 1);
}

/// The elements of the first lists.
spec fn gathered(orders: Seq<Seq<int>>, count: int) -> Set<int>
    decreases count,
{
    if count <= 0 {
        Set::empty()
    } else {
        gathered(orders, count - 1).union(orders[count - 1].to_set())
    }
}

proof fn lemma_gathered(orders: Seq<Seq<int>>, size: int, count: int)
    requires
        apart(orders, size),
        0 <= count <= orders.len(),
    ensures
        gathered(orders, count).finite(),
        gathered(orders, count).len() == total(orders, count),
        forall|x: int| #[trigger]
            gathered(orders, count).contains(x) ==> 0 <= x < size && exists|list: int|
                0 <= list < count && (#[trigger] orders[list]).contains(x),
    decreases count,
{
    if count > 0 {
        lemma_gathered(orders, size, count - 1);
        let some = gathered(orders, count - 1);
        let last = orders[count - 1];
        last.unique_seq_to_set();
        assert(some.disjoint(last.to_set())) by {
            assert forall|x: int| some.contains(x) implies !last.to_set().contains(x) by {
                let list = choose|list: int|
                    0 <= list < count - 1 && (#[trigger] orders[list]).contains(x);
                assert(orders[list].contains(x));
                if last.contains(x) {
                    assert(orders[count - 1].contains(x));
                }
            }
        }
        vstd::set_lib::lemma_set_disjoint_lens(some, last.to_set());
        assert forall|x: int| #[trigger] gathered(orders, count).contains(x) implies 0 <= x < size
            && exists|list: int| 0 <= list < count && (#[trigger] orders[list]).contains(x) by {
            if last.to_set().contains(x) {
                let p = last.index_of(x);
                assert(orders[count - 1][p] == x);
                assert(orders[count - 1].contains(x));
            } else {
                let list = choose|list: int|
                    0 <= list < count - 1 && (#[trigger] orders[list]).contains(x);
                assert(orders[list].contains(x));
            }
        }
    }
}

/// The lists have no more elements than there are.
pub proof fn lemma_total(orders: Seq<Seq<int>>, size: int)
    requires
        apart(orders, size),
        size >= 0,
    ensures
        total(orders, orders.len() as int) <= size,
{
    let count = orders.len() as int;
    lemma_gathered(orders, size, count);
    let range = vstd::set_lib::set_int_range(0, size);
    vstd::set_lib::lemma_int_range(0, size);
    assert(gathered(orders, count).subset_of(range));
    vstd::set_lib::lemma_len_subset(gathered(orders, count), range);
}

} // verus!
