//! Which connection a connection ID leads to.
use vstd::prelude::*;

use crate::conn::links::{is_linked, Lists};
use crate::math::{is_next_power_of_two, next_power_of_two};
use crate::mux::reset_index::{scatter, scattered};
use crate::mux::{MAX_ACTIVE_CONNECTION_IDS, MAX_CIDS_PER_CONN, MAX_CONNECTIONS};
use crate::packet::ConnectionId;
use crate::wire::same_bytes;

verus! {

/// How many places there are for the connection IDs of one connection.
pub const ORDINALS: u32 = 16;

/// The place of a connection ID: that of its connection, and which of its
/// connection IDs it is.
#[derive(Debug, Clone, Copy, PartialEq, Eq, Structural)]
pub struct CidLink {
    pub number: u32,
}

impl CidLink {
    pub fn new(index: usize, ordinal: usize) -> (link: Option<CidLink>)
        ensures
            match link {
                Some(link) => index < MAX_CONNECTIONS && ordinal < ORDINALS && link.number == index
                    * ORDINALS + ordinal,
                None => index >= MAX_CONNECTIONS || ordinal >= ORDINALS,
            },
    {
        if index >= MAX_CONNECTIONS || ordinal >= ORDINALS as usize {
            return None;
        }
        Some(CidLink { number: index as u32 * ORDINALS + ordinal as u32 })
    }

    pub fn index(self) -> (index: usize)
        ensures
            index == self.number / ORDINALS,
    {
        (self.number / ORDINALS) as usize
    }

    pub fn ordinal(self) -> (ordinal: usize)
        ensures
            ordinal == self.number % ORDINALS,
    {
        (self.number % ORDINALS) as usize
    }
}

/// The parts of a place are those it was made of.
pub proof fn law_link_round_trip(index: int, ordinal: int)
    requires
        0 <= index < MAX_CONNECTIONS,
        0 <= ordinal < ORDINALS,
    ensures
        (index * ORDINALS + ordinal) / ORDINALS as int == index,
        (index * ORDINALS + ordinal) % ORDINALS as int == ordinal,
{
}

/// Names one of our connection IDs: where it is kept, and its number.
#[derive(Debug, Clone, Copy, PartialEq, Eq, Structural)]
pub struct LocalCidKey {
    pub slot: usize,
    pub sequence_number: u64,
}

/// Whether two names, or the lack of one, are the same.
fn same_key(one: Option<LocalCidKey>, other: Option<LocalCidKey>) -> (same: bool)
    ensures
        same == (one == other),
{
    match (one, other) {
        (Some(one), Some(other)) => one == other,
        (None, None) => true,
        _ => false,
    }
}

/// A connection ID that leads to a connection.
#[derive(Clone, Copy)]
pub struct CidRecord {
    pub value: ConnectionId,
    pub local: Option<LocalCidKey>,
}

/// A connection ID that leads to a connection, over sequences.
#[verifier::ext_equal]
pub struct Route {
    pub value: Seq<u8>,
    pub local: Option<LocalCidKey>,
}

/// The route of a record.
pub open spec fn route_of(record: Option<CidRecord>) -> Option<Route> {
    match record {
        Some(record) => Some(Route { value: record.value@, local: record.local }),
        None => None,
    }
}

/// The routes of all places.
#[verifier::ext_equal]
pub struct CidModel {
    pub routes: Seq<Option<Route>>,
}

/// The number of a place.
pub open spec fn place_of(index: int, ordinal: int) -> int {
    index * ORDINALS + ordinal
}

impl CidModel {
    /// Whether a place has a connection ID.
    pub open spec fn is_at(self, place: int, value: Seq<u8>) -> bool {
        0 <= place < self.routes.len() && self.routes[place] is Some && self.routes[place]->0.value
            == value
    }

    /// Whether a connection ID leads anywhere.
    pub open spec fn has(self, value: Seq<u8>) -> bool {
        exists|place: int| self.is_at(place, value)
    }

    /// The place of a connection ID.
    pub open spec fn place(self, value: Seq<u8>) -> int {
        choose|place: int| self.is_at(place, value)
    }

    /// The connection that a connection ID leads to, and which of ours it is.
    pub open spec fn find(self, value: Seq<u8>) -> Option<(int, Option<LocalCidKey>)> {
        if self.has(value) {
            Some(
                (
                    self.place(value) / ORDINALS as int,
                    self.routes[self.place(value)]->0.local,
                ),
            )
        } else {
            None
        }
    }

    /// No connection ID has two places.
    pub open spec fn unique(self) -> bool {
        forall|one: int, other: int|
            0 <= one < self.routes.len() && 0 <= other < self.routes.len()
                && #[trigger] self.routes[one] is Some && #[trigger] self.routes[other] is Some
                && self.routes[one]->0.value == self.routes[other]->0.value ==> one == other
    }

    pub open spec fn with(self, place: int, route: Option<Route>) -> CidModel {
        CidModel { routes: self.routes.update(place, route) }
    }

    /// Whether a connection ID that is to lead to a connection does so afterwards.
    pub open spec fn takes(
        self,
        index: int,
        ordinal: int,
        value: Seq<u8>,
        local: Option<LocalCidKey>,
    ) -> bool {
        match self.find(value) {
            Some((found, known)) => found == index && known == local,
            None => ordinal < MAX_CIDS_PER_CONN && self.routes[place_of(index, ordinal)] is None,
        }
    }

    /// The routes after a connection ID was to lead to a connection.
    pub open spec fn registered(
        self,
        index: int,
        ordinal: int,
        value: Seq<u8>,
        local: Option<LocalCidKey>,
    ) -> CidModel {
        if self.takes(index, ordinal, value, local) && !self.has(value) {
            self.with(place_of(index, ordinal), Some(Route { value, local }))
        } else {
            self
        }
    }

    /// Whether the connection ID at a place may go: any, or the one that is named.
    pub open spec fn releases(
        self,
        index: int,
        ordinal: int,
        expected: Option<LocalCidKey>,
    ) -> bool {
        expected is None || (ordinal < MAX_CIDS_PER_CONN && self.routes[place_of(
            index,
            ordinal,
        )] is Some && self.routes[place_of(index, ordinal)]->0.local == expected)
    }

    /// The routes after the connection ID at a place was to go.
    pub open spec fn unregistered(
        self,
        index: int,
        ordinal: int,
        expected: Option<LocalCidKey>,
    ) -> CidModel {
        if ordinal < MAX_CIDS_PER_CONN && self.releases(index, ordinal, expected) {
            self.with(place_of(index, ordinal), None)
        } else {
            self
        }
    }

    /// The routes without those of a connection.
    pub open spec fn without(self, index: int) -> CidModel {
        CidModel {
            routes: Seq::new(
                self.routes.len(),
                |place: int|
                    if place / ORDINALS as int == index {
                        None
                    } else {
                        self.routes[place]
                    },
            ),
        }
    }

    /// The first free place for a connection ID that is not ours, from one on.
    pub open spec fn alias_from(self, index: int, ordinal: int) -> int
        decreases MAX_CIDS_PER_CONN - ordinal,
    {
        if ordinal >= MAX_CIDS_PER_CONN || self.routes[place_of(index, ordinal)] is None {
            ordinal
        } else {
            self.alias_from(index, ordinal + 1)
        }
    }
}

/// The place that has a connection ID is the one that is found.
pub proof fn lemma_place(m: CidModel, value: Seq<u8>, place: int)
    requires
        m.unique(),
        m.is_at(place, value),
    ensures
        m.has(value),
        m.place(value) == place,
        m.find(value) == Some((place / ORDINALS as int, m.routes[place]->0.local)),
{
    let found = m.place(value);
    assert(m.is_at(found, value));
    assert(m.routes[found] is Some && m.routes[place] is Some);
}

/// A connection ID that was taken for a connection leads to it, and every other
/// connection ID leads where it did.
pub proof fn law_registered_found(
    m: CidModel,
    index: int,
    ordinal: int,
    value: Seq<u8>,
    local: Option<LocalCidKey>,
    other: Seq<u8>,
)
    requires
        m.unique(),
        0 <= index,
        0 <= ordinal,
        (index + 1) * ORDINALS <= m.routes.len(),
    ensures
        m.registered(index, ordinal, value, local).unique(),
        m.takes(index, ordinal, value, local) ==> m.registered(index, ordinal, value, local).find(
            value,
        ) == Some((index, local)),
        other != value ==> m.registered(index, ordinal, value, local).find(other) == m.find(other),
{
    let after = m.registered(index, ordinal, value, local);
    if m.takes(index, ordinal, value, local) && !m.has(value) {
        let place = place_of(index, ordinal);
        assert forall|one: int, two: int|
            0 <= one < after.routes.len() && 0 <= two < after.routes.len()
                && #[trigger] after.routes[one] is Some && #[trigger] after.routes[two] is Some
                && after.routes[one]->0.value == after.routes[two]->0.value implies one == two by {
            if one != place && two != place {
                assert(m.routes[one] is Some && m.routes[two] is Some);
            } else if one != place {
                assert(m.is_at(one, value));
            } else if two != place {
                assert(m.is_at(two, value));
            }
        }
        assert(after.is_at(place, value));
        lemma_place(after, value, place);
        if other != value {
            lemma_same_find(m, after, other, place);
        }
    }
}

/// A change at a place that has another connection ID before and after leaves a
/// connection ID where it was.
proof fn lemma_same_find(m: CidModel, after: CidModel, other: Seq<u8>, place: int)
    requires
        m.unique(),
        after.unique(),
        0 <= place < m.routes.len(),
        after.routes.len() == m.routes.len(),
        forall|p: int|
            0 <= p < m.routes.len() && p != place ==> #[trigger] after.routes[p] == m.routes[p],
        !m.is_at(place, other),
        !after.is_at(place, other),
    ensures
        after.find(other) == m.find(other),
{
    if m.has(other) {
        let p = m.place(other);
        assert(m.is_at(p, other));
        assert(after.is_at(p, other));
        lemma_place(after, other, p);
    } else if after.has(other) {
        let p = after.place(other);
        assert(after.is_at(p, other));
        assert(m.is_at(p, other));
    }
}

/// Connection IDs that lead to other connections lead there still when those of one
/// connection are gone, and none leads to that one.
pub proof fn law_without_rest(m: CidModel, index: int, value: Seq<u8>)
    requires
        m.unique(),
    ensures
        m.without(index).unique(),
        m.without(index).find(value) == match m.find(value) {
            Some((found, local)) if found != index => Some((found, local)),
            _ => None,
        },
{
    let after = m.without(index);
    assert forall|one: int, two: int|
        0 <= one < after.routes.len() && 0 <= two < after.routes.len()
            && #[trigger] after.routes[one] is Some && #[trigger] after.routes[two] is Some
            && after.routes[one]->0.value == after.routes[two]->0.value implies one == two by {
        assert(m.routes[one] is Some && m.routes[two] is Some);
    }
    if m.has(value) {
        let p = m.place(value);
        assert(m.is_at(p, value));
        if p / ORDINALS as int != index {
            assert(after.is_at(p, value));
            lemma_place(after, value, p);
        } else if after.has(value) {
            let q = after.place(value);
            assert(after.is_at(q, value));
            assert(m.is_at(q, value));
            lemma_place(m, value, q);
        }
    } else if after.has(value) {
        let q = after.place(value);
        assert(after.is_at(q, value));
        assert(m.is_at(q, value));
    }
}

/// The routes of a number of connections, in buckets.
pub struct CidTable {
    records: Vec<Option<CidRecord>>,
    chains: Lists,
    buckets: usize,
    seed: [u8; 32],
}

/// How many buckets there are for so many connections.
pub fn bucket_count(max_connections: usize) -> (count: usize)
    requires
        max_connections <= MAX_CONNECTIONS,
    ensures
        is_next_power_of_two(
            2 * (if max_connections == 0 {
                1
            } else {
                max_connections as int
            }),
            count as int,
        ),
        0 < count <= 262_144,
{
    let wanted: usize = if max_connections == 0 {
        2
    } else {
        max_connections * 2
    };
    let count: usize = match next_power_of_two(wanted) {
        Some(count) => count,
        None => wanted,
    };
    proof {
        let power = count as int;
        let k = choose|k: nat| #[trigger]
            vstd::arithmetic::power2::pow2(k) == power && power >= wanted && (k > 0
                ==> vstd::arithmetic::power2::pow2((k - 1) as nat) < wanted);
        if k > 0 {
            vstd::arithmetic::power2::lemma_pow2_unfold(k);
        } else {
            vstd::arithmetic::power2::lemma2_to64();
        }
    }
    count
}

/// The number of a place.
fn numbered(index: usize, ordinal: usize) -> (place: usize)
    requires
        index < MAX_CONNECTIONS,
        ordinal < ORDINALS,
    ensures
        place == place_of(index as int, ordinal as int),
        place == index * 16 + ordinal,
{
    index * 16 + ordinal
}

impl View for CidTable {
    type V = CidModel;

    closed spec fn view(&self) -> CidModel {
        CidModel {
            routes: Seq::new(self.records@.len(), |place: int| route_of(self.records@[place])),
        }
    }
}

impl CidTable {
    spec fn bucket_of(&self, value: Seq<u8>) -> int {
        scattered(self.seed@, value) as int % self.buckets as int
    }

    spec fn chained(&self, place: int) -> bool {
        match self.records@[place] {
            Some(record) => self.chains@[self.bucket_of(record.value@)].contains(place),
            None => !is_linked(self.chains@, place),
        }
    }

    pub closed spec fn wf(&self) -> bool {
        &&& self.chains.wf()
        &&& self.records@.len() <= MAX_CONNECTIONS * ORDINALS
        &&& self.records@.len() % ORDINALS as nat == 0
        &&& self.chains.size() == self.records@.len()
        &&& self.chains@.len() == self.buckets
        &&& 0 < self.buckets <= u32::MAX
        &&& self@.unique()
        &&& forall|place: int|
            0 <= place < self.records@.len() ==> #[trigger] self.chained(place)
    }

    /// What holds of every table.
    pub proof fn lemma_model(&self)
        requires
            self.wf(),
        ensures
            self@.unique(),
            self@.routes.len() <= MAX_CONNECTIONS * ORDINALS,
            self@.routes.len() % ORDINALS as nat == 0,
    {
    }

    /// A table without routes. The seed places the connection IDs.
    pub fn new(connections: usize, buckets_for: usize, seed: [u8; 32]) -> (table: CidTable)
        requires
            connections <= MAX_CONNECTIONS,
            buckets_for <= MAX_CONNECTIONS,
        ensures
            table.wf(),
            table@.routes == Seq::new((connections * ORDINALS) as nat, |place: int| None::<Route>),
    {
        let buckets: usize = bucket_count(buckets_for);
        let size: usize = connections * ORDINALS as usize;
        let mut chains = Lists::new();
        let mut count: usize = 0;
        while count < buckets
            invariant
                count <= buckets,
                chains.wf(),
                chains@.len() == count,
                chains.size() == 0,
                forall|list: int| 0 <= list < count ==> (#[trigger] chains@[list]).len() == 0,
            decreases buckets - count,
        {
            chains.add_list();
            count = count + 1;
        }
        let mut records: Vec<Option<CidRecord>> = Vec::new();
        while records.len() < size
            invariant
                size <= MAX_CONNECTIONS * ORDINALS,
                records@.len() <= size,
                chains.wf(),
                chains@.len() == buckets,
                chains.size() == records@.len(),
                forall|list: int| 0 <= list < buckets ==> (#[trigger] chains@[list]).len() == 0,
                forall|place: int| 0 <= place < records@.len() ==> records@[place] is None,
            decreases size - records@.len(),
        {
            chains.add_element();
            records.push(None);
        }
        let table = CidTable { records, chains, buckets, seed };
        assert(table@.routes =~= Seq::new(
            (connections * ORDINALS) as nat,
            |place: int| None::<Route>,
        ));
        assert forall|place: int| 0 <= place < table.records@.len() implies table.chained(
            place,
        ) by {
            assert(table.records@[place] is None);
        }
        table
    }

    fn bucket(&self, value: &[u8]) -> (bucket: u32)
        requires
            self.wf(),
            value@.len() <= 0xffff_ffff,
        ensures
            bucket == self.bucket_of(value@),
            bucket < self.chains@.len(),
    {
        let number: u64 = scatter(&self.seed, value);
        (number % self.buckets as u64) as u32
    }

    /// The place of a connection ID.
    fn find_place(&self, value: &[u8]) -> (place: Option<u32>)
        requires
            self.wf(),
            value@.len() <= 0xffff_ffff,
        ensures
            match place {
                Some(place) => self@.is_at(place as int, value@) && self@.has(value@)
                    && self@.place(value@) == place,
                None => !self@.has(value@),
            },
    {
        let bucket: u32 = self.bucket(value);
        let ghost order = self.chains@[bucket as int];
        let ghost mut at: int = 0;
        proof {
            self.chains.lemma_apart();
        }
        let mut current = self.chains.head(bucket);
        while current.is_some()
            invariant
                self.wf(),
                bucket < self.chains@.len(),
                order == self.chains@[bucket as int],
                order.no_duplicates(),
                0 <= at <= order.len(),
                match current {
                    Some(place) => at < order.len() && place == order[at] && place
                        < self.chains.size(),
                    None => at == order.len(),
                },
                forall|i: int| 0 <= i < at ==> !self@.is_at(#[trigger] order[i], value@),
            decreases order.len() - at,
        {
            let place: u32 = current.unwrap();
            match &self.records[place as usize] {
                Some(record) => {
                    if same_bytes(record.value.as_slice(), value) {
                        proof {
                            assert(self@.routes[place as int] is Some);
                            assert(self@.is_at(place as int, value@));
                            lemma_place(self@, value@, place as int);
                        }
                        return Some(place);
                    }
                },
                None => {},
            }
            assert(!self@.is_at(place as int, value@));
            assert(order.contains(place as int));
            assert(order.index_of(place as int) == at);
            current = self.chains.next(bucket, place);
            proof {
                at = at + 1;
            }
        }
        proof {
            if self@.has(value@) {
                let p = self@.place(value@);
                assert(self@.is_at(p, value@));
                assert(self.chained(p));
                assert(order.contains(p));
                let i = order.index_of(p);
                assert(order[i] == p);
            }
        }
        None
    }

    /// The connection that a connection ID leads to, and which of ours it is.
    pub fn find(&self, value: &[u8]) -> (found: Option<(usize, Option<LocalCidKey>)>)
        requires
            self.wf(),
            value@.len() <= 0xffff_ffff,
        ensures
            match found {
                Some((index, local)) => self@.find(value@) == Some((index as int, local)) && (index
                    + 1) * ORDINALS <= self@.routes.len(),
                None => self@.find(value@) is None,
            },
    {
        match self.find_place(value) {
            Some(place) => {
                let link = CidLink { number: place };
                match &self.records[place as usize] {
                    Some(record) => Some((link.index(), record.local)),
                    None => None,
                }
            },
            None => None,
        }
    }

    /// Lets a connection ID lead to a connection. The result tells whether it does
    /// now, as the one that is named.
    pub fn register(
        &mut self,
        index: usize,
        ordinal: usize,
        value: ConnectionId,
        local: Option<LocalCidKey>,
    ) -> (taken: bool)
        requires
            old(self).wf(),
            (index + 1) * ORDINALS <= old(self)@.routes.len(),
        ensures
            final(self).wf(),
            taken == old(self)@.takes(index as int, ordinal as int, value@, local),
            final(self)@ == old(self)@.registered(index as int, ordinal as int, value@, local),
    {
        assert((index + 1) * ORDINALS <= self.records@.len());
        let bytes = value.as_slice();
        match self.find(bytes) {
            Some((found, known)) => {
                return found == index && same_key(known, local);
            },
            None => {},
        }
        if ordinal >= MAX_CIDS_PER_CONN {
            return false;
        }
        let place: usize = numbered(index, ordinal);
        if self.records[place].is_some() {
            return false;
        }
        let bucket: u32 = self.bucket(bytes);
        let ghost before = *self;
        assert(before.chained(place as int));
        proof {
            law_registered_found(self@, index as int, ordinal as int, value@, local, value@);
        }
        self.chains.push_back(bucket, place as u32);
        self.records.set(place, Some(CidRecord { value, local }));
        proof {
            assert(self@.routes =~= before@.routes.update(
                place as int,
                Some(Route { value: value@, local }),
            ));
            let order = before.chains@[bucket as int];
            assert forall|p: int| 0 <= p < self.records@.len() implies self.chained(p) by {
                assert(before.chained(p));
                lemma_linked_push(before.chains@, bucket as int, place as int, p);
                if p == place {
                    assert(order.push(place as int)[order.len() as int] == place);
                } else {
                    match self.records@[p] {
                        Some(record) => {
                            let b = self.bucket_of(record.value@);
                            assert(before.chains@[b].contains(p));
                            if b == bucket {
                                let i = order.index_of(p);
                                assert(order.push(place as int)[i] == p);
                            }
                        },
                        None => {},
                    }
                }
            }
        }
        true
    }

    /// Lets the connection ID at a place go, if it is the one that is named, and
    /// tells whether it is gone.
    pub fn unregister(
        &mut self,
        index: usize,
        ordinal: usize,
        expected: Option<LocalCidKey>,
    ) -> (gone: bool)
        requires
            old(self).wf(),
            (index + 1) * ORDINALS <= old(self)@.routes.len(),
        ensures
            final(self).wf(),
            gone == old(self)@.releases(index as int, ordinal as int, expected),
            final(self)@ == old(self)@.unregistered(index as int, ordinal as int, expected),
    {
        assert((index + 1) * ORDINALS <= self.records@.len());
        if ordinal >= MAX_CIDS_PER_CONN {
            return expected.is_none();
        }
        let place: usize = numbered(index, ordinal);
        let record = match self.records[place] {
            Some(record) => record,
            None => {
                assert(self@.routes[place as int] is None);
                assert(self@.routes =~= self@.routes.update(place as int, None));
                return expected.is_none();
            },
        };
        if expected.is_some() && !same_key(record.local, expected) {
            return false;
        }
        let bucket: u32 = self.bucket(record.value.as_slice());
        let ghost before = *self;
        assert(before.chained(place as int));
        proof {
            self.chains.lemma_apart();
        }
        self.chains.remove(bucket, place as u32);
        self.records.set(place, None);
        proof {
            assert(self@.routes =~= before@.routes.update(place as int, None));
            assert forall|one: int, two: int|
                0 <= one < self@.routes.len() && 0 <= two < self@.routes.len()
                    && #[trigger] self@.routes[one] is Some && #[trigger] self@.routes[two] is Some
                    && self@.routes[one]->0.value == self@.routes[two]->0.value implies one
                == two by {
                assert(before@.routes[one] is Some && before@.routes[two] is Some);
            }
            let order = before.chains@[bucket as int];
            let rest = crate::conn::links::without(order, place as int);
            let i = order.index_of(place as int);
            assert forall|p: int| 0 <= p < self.records@.len() implies self.chained(p) by {
                assert(before.chained(p));
                lemma_linked_remove(before.chains@, bucket as int, place as int, p);
                if p != place {
                    match self.records@[p] {
                        Some(record) => {
                            let b = self.bucket_of(record.value@);
                            assert(before.chains@[b].contains(p));
                            if b == bucket {
                                let j = order.index_of(p);
                                if j < i {
                                    assert(rest[j] == p);
                                } else {
                                    assert(rest[j - 1] == p);
                                }
                            }
                        },
                        None => {},
                    }
                }
            }
        }
        true
    }

    /// Lets all connection IDs of a connection go.
    pub fn unregister_all(&mut self, index: usize)
        requires
            old(self).wf(),
            (index + 1) * ORDINALS <= old(self)@.routes.len(),
            forall|ordinal: int|
                MAX_CIDS_PER_CONN <= ordinal < ORDINALS ==> #[trigger] old(self)@.routes[place_of(
                    index as int,
                    ordinal,
                )] is None,
        ensures
            final(self).wf(),
            final(self)@ == old(self)@.without(index as int),
    {
        let mut ordinal: usize = 0;
        let ghost before = self@;
        while ordinal < MAX_CIDS_PER_CONN
            invariant
                ordinal <= MAX_CIDS_PER_CONN,
                self.wf(),
                self@.routes.len() == before.routes.len(),
                (index + 1) * ORDINALS <= self@.routes.len(),
                forall|place: int|
                    0 <= place < before.routes.len() ==> #[trigger] self@.routes[place] == if index
                        * ORDINALS <= place < index * ORDINALS + ordinal {
                        None
                    } else {
                        before.routes[place]
                    },
            decreases MAX_CIDS_PER_CONN - ordinal,
        {
            self.unregister(index, ordinal, None);
            ordinal = ordinal + 1;
        }
        assert forall|place: int| 0 <= place < before.routes.len() implies #[trigger] self@.routes[place]
            == before.without(index as int).routes[place] by {
            if place / ORDINALS as int == index {
                assert(place == place_of(index as int, place % ORDINALS as int));
            }
        }
        assert(self@.routes =~= before.without(index as int).routes);
    }

    /// Which place is free for a connection ID that is not ours.
    pub fn free_alias(&self, index: usize) -> (ordinal: Option<usize>)
        requires
            self.wf(),
            (index + 1) * ORDINALS <= self@.routes.len(),
        ensures
            ({
                let first = self@.alias_from(index as int, MAX_ACTIVE_CONNECTION_IDS as int);
                match ordinal {
                    Some(ordinal) => ordinal == first && first < MAX_CIDS_PER_CONN,
                    None => first == MAX_CIDS_PER_CONN,
                }
            }),
    {
        assert((index + 1) * ORDINALS <= self.records@.len());
        let base: usize = numbered(index, 0);
        let mut ordinal: usize = MAX_ACTIVE_CONNECTION_IDS;
        while ordinal < MAX_CIDS_PER_CONN
            invariant
                MAX_ACTIVE_CONNECTION_IDS <= ordinal <= MAX_CIDS_PER_CONN,
                self.wf(),
                base == index * ORDINALS,
                base + ORDINALS <= self.records@.len(),
                self@.alias_from(index as int, MAX_ACTIVE_CONNECTION_IDS as int)
                    == self@.alias_from(index as int, ordinal as int),
            decreases MAX_CIDS_PER_CONN - ordinal,
        {
            let place: usize = base + ordinal;
            assert(self@.routes[place as int] == route_of(self.records@[place as int]));
            if self.records[place].is_none() {
                return Some(ordinal);
            }
            ordinal = ordinal + 1;
        }
        None
    }
}

proof fn lemma_linked_push(orders: Seq<Seq<int>>, list: int, element: int, other: int)
    requires
        0 <= list < orders.len(),
    ensures
        is_linked(orders.update(list, orders[list].push(element)), other) == (other == element
            || is_linked(orders, other)),
{
    let after = orders.update(list, orders[list].push(element));
    if other == element {
        assert(orders[list].push(element)[orders[list].len() as int] == element);
        assert(after[list].contains(element));
    }
    if is_linked(orders, other) {
        let l = choose|l: int| 0 <= l < orders.len() && (#[trigger] orders[l]).contains(other);
        let i = orders[l].index_of(other);
        if l == list {
            assert(after[l][i] == other);
        }
        assert(after[l].contains(other));
    }
    if is_linked(after, other) && other != element {
        let l = choose|l: int| 0 <= l < after.len() && (#[trigger] after[l]).contains(other);
        let i = after[l].index_of(other);
        if l == list {
            assert(orders[l][i] == other);
        }
        assert(orders[l].contains(other));
    }
}

proof fn lemma_linked_remove(orders: Seq<Seq<int>>, list: int, element: int, other: int)
    requires
        0 <= list < orders.len(),
        orders[list].contains(element),
        crate::conn::links::apart(orders, u32::MAX as int),
    ensures
        is_linked(
            orders.update(list, crate::conn::links::without(orders[list], element)),
            other,
        ) == (other != element && is_linked(orders, other)),
{
    let order = orders[list];
    let rest = crate::conn::links::without(order, element);
    let after = orders.update(list, rest);
    let at = order.index_of(element);
    if is_linked(after, other) {
        let l = choose|l: int| 0 <= l < after.len() && (#[trigger] after[l]).contains(other);
        let i = after[l].index_of(other);
        if l == list {
            assert(rest[i] == order[if i < at {
                i
            } else {
                i + 1
            }]);
            assert(order.contains(other));
        }
        assert(orders[l].contains(other));
        if other == element {
            assert(orders[list].contains(element));
            assert(l == list);
            assert(order.no_duplicates());
        }
    }
    if other != element && is_linked(orders, other) {
        let l = choose|l: int| 0 <= l < orders.len() && (#[trigger] orders[l]).contains(other);
        if l == list {
            let i = order.index_of(other);
            if i < at {
                assert(rest[i] == other);
            } else {
                assert(rest[i - 1] == other);
            }
        }
        assert(after[l].contains(other));
    }
}

/// A connection ID that was to go leads nowhere, where it may go; the others lead where they
/// did. One that is named goes only where it is the one that stands there.
pub proof fn law_unregistered_gone(
    m: CidModel,
    index: int,
    ordinal: int,
    expected: Option<LocalCidKey>,
    other: int,
)
    requires
        0 <= index,
        0 <= ordinal < MAX_CIDS_PER_CONN,
        (index + 1) * ORDINALS <= m.routes.len(),
        0 <= other < m.routes.len(),
        other != index * 16 + ordinal,
    ensures
        ({
            let place = index * 16 + ordinal;
            let after = m.unregistered(index, ordinal, expected);
            let named = expected is None || (m.routes[place] is Some && m.routes[place]->0.local
                == expected);
            &&& named ==> after.routes[place] is None
            &&& !named ==> after == m
            &&& after.routes[other] == m.routes[other]
            &&& after.routes.len() == m.routes.len()
        }),
{
    assert(index * ORDINALS + ordinal == index * 16 + ordinal);
}

/// The place that is found for a connection ID that is not ours is free, and none before it
/// is.
pub proof fn law_first_free_alias(m: CidModel, index: int, from: int, ordinal: int)
    requires
        0 <= from <= 10,
        from <= ordinal < m.alias_from(index, from),
    ensures
        m.routes[index * 16 + ordinal] is Some,
        m.alias_from(index, from) <= 10,
    decreases 10 - from,
{
    if ordinal > from {
        law_first_free_alias(m, index, from + 1, ordinal);
    } else {
        lemma_alias_bound(m, index, from);
    }
}

/// Where the place that is found lies, and that it is free.
pub proof fn lemma_alias_bound(m: CidModel, index: int, from: int)
    requires
        0 <= from <= MAX_CIDS_PER_CONN,
    ensures
        from <= m.alias_from(index, from) <= MAX_CIDS_PER_CONN,
        m.alias_from(index, from) < MAX_CIDS_PER_CONN ==> m.routes[place_of(
            index,
            m.alias_from(index, from),
        )] is None,
    decreases MAX_CIDS_PER_CONN - from,
{
    if from < MAX_CIDS_PER_CONN && m.routes[place_of(index, from)] is Some {
        lemma_alias_bound(m, index, from + 1);
    }
}

} // verus!
