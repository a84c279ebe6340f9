//! Which connection a stateless reset token belongs to.
use vstd::prelude::*;

use crate::math::{is_next_power_of_two, next_power_of_two};
use crate::mux::{Handle, MAX_CONNECTIONS};
use crate::primitives::{hmac_sha256, hmac_sha256_of};
use crate::wire::{be_value, get_be, same_bytes};

verus! {

/// How many records a bucket holds.
pub const BUCKET_WIDTH: usize = 4;

/// How many buckets there are for a connection.
pub const BUCKETS_PER_CONNECTION: usize = 4;

/// A stateless reset token of a peer.
pub type Token = [u8; 16];

/// A token and the connection it belongs to.
#[derive(Clone, Copy)]
pub struct Record {
    pub token: Token,
    pub handle: Handle,
}

/// A number that a seed gives to some bytes.
pub open spec fn scattered(seed: Seq<u8>, bytes: Seq<u8>) -> u64 {
    be_value(hmac_sha256_of(seed, bytes).subrange(0, 8)) as u64
}

/// The number that a seed gives to some bytes.
pub fn scatter(seed: &[u8; 32], bytes: &[u8]) -> (number: u64)
    requires
        bytes@.len() <= 0xffff_ffff,
    ensures
        number == scattered(seed@, bytes@),
{
    let tag = hmac_sha256(seed, bytes);
    get_be(vstd::slice::slice_subrange(tag.as_slice(), 0, 8))
}

/// The cells of an index, bucket after bucket, and what places tokens in them.
#[verifier::ext_equal]
pub struct ResetModel {
    pub cells: Seq<Option<Record>>,
    pub first: Seq<u8>,
    pub second: Seq<u8>,
}

impl ResetModel {
    /// How many buckets there are.
    pub open spec fn buckets(self) -> int {
        self.cells.len() as int / BUCKET_WIDTH as int
    }

    /// The two buckets of a token.
    pub open spec fn places(self, token: Token) -> (int, int) {
        let first = scattered(self.first, token@) as int % self.buckets();
        let second = scattered(self.second, token@) as int % self.buckets();
        if second == first {
            (first, (second + 1) % self.buckets())
        } else {
            (first, second)
        }
    }

    /// Whether a cell holds a token.
    pub open spec fn is_at(self, cell: int, token: Token) -> bool {
        0 <= cell < self.cells.len() && self.cells[cell] is Some && self.cells[cell]->0.token
            == token
    }

    /// Whether a token is there.
    pub open spec fn has(self, token: Token) -> bool {
        exists|cell: int| self.is_at(cell, token)
    }

    /// Where a token is.
    pub open spec fn cell(self, token: Token) -> int {
        choose|cell: int| self.is_at(cell, token)
    }

    /// The connection of a token.
    pub open spec fn get(self, token: Token) -> Option<Handle> {
        if self.has(token) {
            Some(self.cells[self.cell(token)]->0.handle)
        } else {
            None
        }
    }

    /// How many of the first cells of a bucket are in use.
    pub open spec fn used(self, bucket: int, count: int) -> int
        decreases count,
    {
        if count <= 0 {
            0
        } else {
            self.used(bucket, count - 1) + if self.cells[bucket * BUCKET_WIDTH + count
                - 1] is Some {
                1int
            } else {
                0
            }
        }
    }

    /// The first free cell of a bucket from a position on, or its end.
    pub open spec fn free_from(self, bucket: int, position: int) -> int
        decreases BUCKET_WIDTH - position,
    {
        if position >= BUCKET_WIDTH || self.cells[bucket * BUCKET_WIDTH + position] is None {
            position
        } else {
            self.free_from(bucket, position + 1)
        }
    }

    /// Where a new token goes: to the emptier of its buckets, if it has room.
    pub open spec fn room(self, token: Token) -> Option<int> {
        let (first, second) = self.places(token);
        let bucket = if self.used(second, BUCKET_WIDTH as int) < self.used(
            first,
            BUCKET_WIDTH as int,
        ) {
            second
        } else {
            first
        };
        let position = self.free_from(bucket, 0);
        if position < BUCKET_WIDTH {
            Some(bucket * BUCKET_WIDTH + position)
        } else {
            None
        }
    }

    /// The index with another content in a cell.
    pub open spec fn with(self, cell: int, record: Option<Record>) -> ResetModel {
        ResetModel { cells: self.cells.update(cell, record), ..self }
    }

    /// The index after a token was offered for a connection.
    pub open spec fn inserted(self, token: Token, handle: Handle) -> ResetModel {
        match self.room(token) {
            Some(cell) if !self.has(token) => self.with(cell, Some(Record { token, handle })),
            _ => self,
        }
    }

    /// Whether a token that is offered for a connection is there afterwards, for
    /// that connection.
    pub open spec fn takes(self, token: Token, handle: Handle) -> bool {
        if self.has(token) {
            self.get(token) == Some(handle)
        } else {
            self.room(token) is Some
        }
    }

    /// The index after a token of a connection was taken out.
    pub open spec fn removed(self, token: Token, handle: Handle) -> ResetModel {
        if self.get(token) == Some(handle) {
            self.with(self.cell(token), None)
        } else {
            self
        }
    }

    /// Each token is in one of its buckets, and once only.
    pub open spec fn sound(self) -> bool {
        &&& self.buckets() >= 2
        &&& self.cells.len() == self.buckets() * BUCKET_WIDTH
        &&& forall|cell: int|
            0 <= cell < self.cells.len() && (#[trigger] self.cells[cell]) is Some ==> {
                let (first, second) = self.places(self.cells[cell]->0.token);
                cell / BUCKET_WIDTH as int == first || cell / BUCKET_WIDTH as int == second
            }
        &&& forall|one: int, other: int|
            0 <= one < self.cells.len() && 0 <= other < self.cells.len()
                && #[trigger] self.cells[one] is Some && #[trigger] self.cells[other] is Some
                && self.cells[one]->0.token == self.cells[other]->0.token ==> one == other
    }
}

/// How many cells are in use.
pub open spec fn filled_cells(cells: Seq<Option<Record>>) -> int
    decreases cells.len(),
{
    if cells.len() == 0 {
        0
    } else {
        filled_cells(cells.drop_last()) + if cells.last() is Some {
            1int
        } else {
            0
        }
    }
}

proof fn lemma_filled_update(cells: Seq<Option<Record>>, cell: int, record: Option<Record>)
    requires
        0 <= cell < cells.len(),
    ensures
        filled_cells(cells.update(cell, record)) == filled_cells(cells) + (if record is Some {
            1int
        } else {
            0
        }) - (if cells[cell] is Some {
            1int
        } else {
            0
        }),
    decreases cells.len(),
{
    let after = cells.update(cell, record);
    if cell == cells.len() - 1 {
        assert(after.drop_last() =~= cells.drop_last());
    } else {
        assert(after.drop_last() =~= cells.drop_last().update(cell, record));
        lemma_filled_update(cells.drop_last(), cell, record);
    }
}

proof fn lemma_filled_bound(cells: Seq<Option<Record>>)
    ensures
        0 <= filled_cells(cells) <= cells.len(),
        filled_cells(cells) == 0 ==> forall|i: int| 0 <= i < cells.len() ==> cells[i] is None,
    decreases cells.len(),
{
    if cells.len() > 0 {
        lemma_filled_bound(cells.drop_last());
        if filled_cells(cells) == 0 {
            assert forall|i: int| 0 <= i < cells.len() implies cells[i] is None by {
                if i < cells.len() - 1 {
                    assert(cells.drop_last()[i] is None);
                }
            }
        }
    }
}

/// Where no cell is in use, none is counted.
pub proof fn lemma_none_filled(cells: Seq<Option<Record>>)
    requires
        forall|i: int| 0 <= i < cells.len() ==> (#[trigger] cells[i]) is None,
    ensures
        filled_cells(cells) == 0,
    decreases cells.len(),
{
    if cells.len() > 0 {
        lemma_none_filled(cells.drop_last());
    }
}

proof fn lemma_free_from(m: ResetModel, bucket: int, position: int)
    requires
        0 <= position <= BUCKET_WIDTH,
    ensures
        position <= m.free_from(bucket, position) <= BUCKET_WIDTH,
        m.free_from(bucket, position) < BUCKET_WIDTH ==> m.cells[bucket * BUCKET_WIDTH
            + m.free_from(bucket, position)] is None,
    decreases BUCKET_WIDTH - position,
{
    if position < BUCKET_WIDTH && m.cells[bucket * BUCKET_WIDTH + position] is Some {
        lemma_free_from(m, bucket, position + 1);
    }
}

proof fn lemma_places(m: ResetModel, token: Token)
    requires
        m.sound(),
    ensures
        0 <= m.places(token).0 < m.buckets(),
        0 <= m.places(token).1 < m.buckets(),
        m.places(token).0 != m.places(token).1,
{
    let n = m.buckets();
    let first = scattered(m.first, token@) as int;
    let second = scattered(m.second, token@) as int;
    vstd::arithmetic::div_mod::lemma_mod_bound(first, n);
    vstd::arithmetic::div_mod::lemma_mod_bound(second, n);
    let at = second % n;
    vstd::arithmetic::div_mod::lemma_mod_bound(at + 1, n);
    if at + 1 < n {
        vstd::arithmetic::div_mod::lemma_small_mod((at + 1) as nat, n as nat);
    } else {
        vstd::arithmetic::div_mod::lemma_mod_self_0(n);
    }
}

/// A cell that holds the token is the one that is found.
proof fn lemma_cell(m: ResetModel, token: Token, cell: int)
    requires
        m.sound(),
        m.is_at(cell, token),
    ensures
        m.has(token),
        m.cell(token) == cell,
        m.get(token) == Some(m.cells[cell]->0.handle),
{
    let found = m.cell(token);
    assert(m.is_at(found, token));
    assert(m.cells[found] is Some && m.cells[cell] is Some);
}

/// Where a new token goes is free and in one of its buckets.
proof fn lemma_room(m: ResetModel, token: Token)
    requires
        m.sound(),
        m.room(token) is Some,
    ensures
        0 <= m.room(token)->0 < m.cells.len(),
        m.cells[m.room(token)->0] is None,
        m.room(token)->0 / BUCKET_WIDTH as int == m.places(token).0 || m.room(token)->0
            / BUCKET_WIDTH as int == m.places(token).1,
{
    lemma_places(m, token);
    let (first, second) = m.places(token);
    lemma_free_from(m, first, 0);
    lemma_free_from(m, second, 0);
}

/// A token that an index takes for a connection is found for that connection, and
/// no other token is found otherwise than before.
pub proof fn law_inserted_found(m: ResetModel, token: Token, handle: Handle, other: Token)
    requires
        m.sound(),
    ensures
        m.inserted(token, handle).sound(),
        m.takes(token, handle) ==> m.inserted(token, handle).get(token) == Some(handle),
        other != token ==> m.inserted(token, handle).get(other) == m.get(other),
        !m.takes(token, handle) ==> m.inserted(token, handle) == m,
{
    let after = m.inserted(token, handle);
    if !m.has(token) && m.room(token) is Some {
        lemma_room(m, token);
        let cell = m.room(token)->0;
        assert(after.buckets() == m.buckets());
        assert forall|c: int|
            0 <= c < after.cells.len() && (#[trigger] after.cells[c]) is Some implies {
            let (first, second) = after.places(after.cells[c]->0.token);
            c / BUCKET_WIDTH as int == first || c / BUCKET_WIDTH as int == second
        } by {
            if c != cell {
                assert(m.cells[c] is Some);
            }
        }
        assert forall|one: int, two: int|
            0 <= one < after.cells.len() && 0 <= two < after.cells.len()
                && #[trigger] after.cells[one] is Some && #[trigger] after.cells[two] is Some
                && after.cells[one]->0.token == after.cells[two]->0.token implies one == two by {
            if one != cell && two != cell {
                assert(m.cells[one] is Some && m.cells[two] is Some);
            } else if one != cell {
                assert(m.is_at(one, token));
            } else if two != cell {
                assert(m.is_at(two, token));
            }
        }
        assert(after.is_at(cell, token));
        lemma_cell(after, token, cell);
        if other != token {
            if m.has(other) {
                let c = m.cell(other);
                assert(m.is_at(c, other));
                assert(after.is_at(c, other));
                lemma_cell(after, other, c);
            } else if after.has(other) {
                let c = after.cell(other);
                assert(after.is_at(c, other));
                assert(m.is_at(c, other));
            }
        }
    }
}

/// A token that is taken out is not found, and every other one as before.
pub proof fn law_removed_gone(m: ResetModel, token: Token, handle: Handle, other: Token)
    requires
        m.sound(),
    ensures
        m.removed(token, handle).sound(),
        m.get(token) == Some(handle) ==> m.removed(token, handle).get(token) is None,
        m.get(token) != Some(handle) ==> m.removed(token, handle) == m,
        other != token ==> m.removed(token, handle).get(other) == m.get(other),
{
    let after = m.removed(token, handle);
    if m.get(token) == Some(handle) {
        let cell = m.cell(token);
        assert(m.is_at(cell, token));
        assert(after.buckets() == m.buckets());
        assert forall|c: int|
            0 <= c < after.cells.len() && (#[trigger] after.cells[c]) is Some implies {
            let (first, second) = after.places(after.cells[c]->0.token);
            c / BUCKET_WIDTH as int == first || c / BUCKET_WIDTH as int == second
        } by {
            assert(m.cells[c] is Some);
        }
        assert forall|one: int, two: int|
            0 <= one < after.cells.len() && 0 <= two < after.cells.len()
                && #[trigger] after.cells[one] is Some && #[trigger] after.cells[two] is Some
                && after.cells[one]->0.token == after.cells[two]->0.token implies one == two by {
            assert(m.cells[one] is Some && m.cells[two] is Some);
        }
        if after.has(token) {
            let c = after.cell(token);
            assert(after.is_at(c, token));
            assert(m.is_at(c, token));
            lemma_cell(m, token, c);
        }
        if other != token {
            if m.has(other) {
                let c = m.cell(other);
                assert(m.is_at(c, other));
                assert(after.is_at(c, other));
                lemma_cell(after, other, c);
            } else if after.has(other) {
                let c = after.cell(other);
                assert(after.is_at(c, other));
                assert(m.is_at(c, other));
            }
        }
    }
}

/// An index from tokens to connections of a fixed size. A token is looked for in
/// two buckets only, and one for which they have no room is refused.
pub struct ResetIndex {
    cells: Vec<Option<Record>>,
    first: [u8; 32],
    second: [u8; 32],
    len: usize,
}

impl View for ResetIndex {
    type V = ResetModel;

    closed spec fn view(&self) -> ResetModel {
        ResetModel { cells: self.cells@, first: self.first@, second: self.second@ }
    }
}

impl ResetIndex {
    pub closed spec fn wf(&self) -> bool {
        &&& self@.sound()
        &&& self.cells@.len() <= usize::MAX
        &&& self.len == filled_cells(self.cells@)
    }

    /// What holds of every index.
    pub proof fn lemma_sound(&self)
        requires
            self.wf(),
        ensures
            self@.sound(),
    {
    }

    /// An empty index for so many connections. The seeds place the tokens.
    pub fn with_connection_capacity(connections: usize, first: [u8; 32], second: [u8; 32]) -> (index:
        ResetIndex)
        requires
            connections <= MAX_CONNECTIONS,
        ensures
            index.wf(),
            forall|cell: int| 0 <= cell < index@.cells.len() ==> index@.cells[cell] is None,
            is_next_power_of_two(
                BUCKETS_PER_CONNECTION * (if connections == 0 {
                    1
                } else {
                    connections as int
                }),
                index@.buckets(),
            ),
            index@.first == first@,
            index@.second == second@,
    {
        let connections: usize = if connections == 0 {
            1
        } else {
            connections
        };
        let wanted: usize = connections * BUCKETS_PER_CONNECTION;
        let buckets: usize = match next_power_of_two(wanted) {
            Some(buckets) => buckets,
            None => wanted,
        };
        proof {
            let power = buckets as int;
            let k = choose|k: nat| #[trigger]
                vstd::arithmetic::power2::pow2(k) == power && power >= wanted && (k > 0
                    ==> vstd::arithmetic::power2::pow2((k - 1) as nat) < wanted);
            if k > 0 {
                vstd::arithmetic::power2::lemma_pow2_unfold(k);
            } else {
                vstd::arithmetic::power2::lemma2_to64();
            }
        }
        let mut cells: Vec<Option<Record>> = Vec::new();
        let size: usize = buckets * BUCKET_WIDTH;
        while cells.len() < size
            invariant
                cells@.len() <= size,
                forall|cell: int| 0 <= cell < cells@.len() ==> cells@[cell] is None,
                filled_cells(cells@) == 0,
            decreases size - cells@.len(),
        {
            let ghost before = cells@;
            cells.push(None);
            assert(cells@.drop_last() =~= before);
        }
        ResetIndex { cells, first, second, len: 0 }
    }

    fn bucket_indices(&self, token: Token) -> (places: (usize, usize))
        requires
            self.wf(),
        ensures
            places.0 == self@.places(token).0,
            places.1 == self@.places(token).1,
            places.0 < self@.buckets(),
            places.1 < self@.buckets(),
    {
        proof {
            lemma_places(self@, token);
        }
        let buckets: u64 = (self.cells.len() / BUCKET_WIDTH) as u64;
        let first: u64 = scatter(&self.first, &token) % buckets;
        let mut second: u64 = scatter(&self.second, &token) % buckets;
        if second == first {
            second = (second + 1) % buckets;
        }
        (first as usize, second as usize)
    }

    /// Looks for a token in a bucket.
    fn find_in(&self, bucket: usize, token: Token) -> (cell: Option<usize>)
        requires
            self.wf(),
            bucket < self@.buckets(),
        ensures
            match cell {
                Some(cell) => self@.is_at(cell as int, token),
                None => forall|c: int|
                    bucket * BUCKET_WIDTH <= c < bucket * BUCKET_WIDTH + BUCKET_WIDTH
                        ==> !self@.is_at(c, token),
            },
    {
        let start: usize = bucket * BUCKET_WIDTH;
        let mut position: usize = 0;
        while position < BUCKET_WIDTH
            invariant
                position <= BUCKET_WIDTH,
                start == bucket * BUCKET_WIDTH,
                start + BUCKET_WIDTH <= self.cells@.len(),
                forall|c: int| start <= c < start + position ==> !self@.is_at(c, token),
            decreases BUCKET_WIDTH - position,
        {
            match self.cells[start + position] {
                Some(record) => {
                    if same_bytes(&record.token, &token) {
                        assert(record.token =~= token);
                        return Some(start + position);
                    }
                },
                None => {},
            }
            position = position + 1;
        }
        None
    }

    /// Where a token is, if it is there.
    fn find(&self, token: Token) -> (cell: Option<usize>)
        requires
            self.wf(),
        ensures
            match cell {
                Some(cell) => self@.has(token) && cell == self@.cell(token) && self@.is_at(
                    cell as int,
                    token,
                ),
                None => !self@.has(token),
            },
    {
        let (first, second) = self.bucket_indices(token);
        match self.find_in(first, token) {
            Some(cell) => {
                proof {
                    lemma_cell(self@, token, cell as int);
                }
                return Some(cell);
            },
            None => {},
        }
        match self.find_in(second, token) {
            Some(cell) => {
                proof {
                    lemma_cell(self@, token, cell as int);
                }
                Some(cell)
            },
            None => {
                proof {
                    if self@.has(token) {
                        let c = self@.cell(token);
                        assert(self@.is_at(c, token));
                        assert(self@.cells[c] is Some);
                    }
                }
                None
            },
        }
    }

    fn occupied(&self, bucket: usize) -> (count: usize)
        requires
            self.wf(),
            bucket < self@.buckets(),
        ensures
            count == self@.used(bucket as int, BUCKET_WIDTH as int),
    {
        let mut count: usize = 0;
        let mut position: usize = 0;
        while position < BUCKET_WIDTH
            invariant
                position <= BUCKET_WIDTH,
                count <= position,
                bucket * BUCKET_WIDTH + BUCKET_WIDTH <= self.cells@.len() <= usize::MAX,
                count == self@.used(bucket as int, position as int),
            decreases BUCKET_WIDTH - position,
        {
            if self.cells[bucket * BUCKET_WIDTH + position].is_some() {
                count = count + 1;
            }
            position = position + 1;
        }
        count
    }

    /// Offers a token for a connection. The result tells whether it is there
    /// for that connection now.
    pub fn insert(&mut self, token: Token, handle: Handle) -> (taken: bool)
        requires
            old(self).wf(),
        ensures
            final(self).wf(),
            taken == old(self)@.takes(token, handle),
            final(self)@ == old(self)@.inserted(token, handle),
    {
        proof {
            law_inserted_found(self@, token, handle, token);
            lemma_filled_bound(self.cells@);
        }
        match self.find(token) {
            Some(cell) => {
                return match self.cells[cell] {
                    Some(record) => record.handle == handle,
                    None => false,
                };
            },
            None => {},
        }
        let (first, second) = self.bucket_indices(token);
        let bucket: usize = if self.occupied(second) < self.occupied(first) {
            second
        } else {
            first
        };
        let mut position: usize = 0;
        while position < BUCKET_WIDTH && self.cells[bucket * BUCKET_WIDTH + position].is_some()
            invariant
                position <= BUCKET_WIDTH,
                bucket * BUCKET_WIDTH + BUCKET_WIDTH <= self.cells@.len() <= usize::MAX,
                self@.free_from(bucket as int, 0) == self@.free_from(
                    bucket as int,
                    position as int,
                ),
            decreases BUCKET_WIDTH - position,
        {
            position = position + 1;
        }
        if position == BUCKET_WIDTH {
            return false;
        }
        let cell: usize = bucket * BUCKET_WIDTH + position;
        proof {
            lemma_filled_update(self.cells@, cell as int, Some(Record { token, handle }));
            lemma_filled_bound(self.cells@.update(cell as int, Some(Record { token, handle })));
        }
        self.cells.set(cell, Some(Record { token, handle }));
        self.len = self.len + 1;
        true
    }

    /// The connection of a token.
    pub fn get(&self, token: Token) -> (handle: Option<Handle>)
        requires
            self.wf(),
        ensures
            handle == self@.get(token),
    {
        match self.find(token) {
            Some(cell) => match self.cells[cell] {
                Some(record) => Some(record.handle),
                None => None,
            },
            None => None,
        }
    }

    /// Takes a token of a connection out, and tells whether it was there.
    pub fn remove(&mut self, token: Token, handle: Handle) -> (removed: bool)
        requires
            old(self).wf(),
        ensures
            final(self).wf(),
            removed == (old(self)@.get(token) == Some(handle)),
            final(self)@ == old(self)@.removed(token, handle),
    {
        proof {
            law_removed_gone(self@, token, handle, token);
        }
        match self.find(token) {
            Some(cell) => {
                let same = match self.cells[cell] {
                    Some(record) => record.handle == handle,
                    None => false,
                };
                if !same {
                    return false;
                }
                proof {
                    lemma_filled_update(self.cells@, cell as int, None);
                    lemma_filled_bound(self.cells@.update(cell as int, None));
                }
                self.cells.set(cell, None);
                self.len = self.len - 1;
                true
            },
            None => false,
        }
    }

    /// How many tokens there are.
    pub fn len(&self) -> (len: usize)
        requires
            self.wf(),
        ensures
            len == filled_cells(self@.cells),
    {
        self.len
    }
}

} // verus!
