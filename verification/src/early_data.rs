//! Protection against early data that is sent twice.
use vstd::prelude::*;

use crate::frame::put_bytes;
use crate::math::capped;

verus! {

/// For how long a token is remembered, in milliseconds.
pub const REPLAY_WINDOW_MS: u64 = 7_200_000;

/// How many tokens can be remembered at most.
pub const MAX_REPLAY_CAPACITY: usize = 65_536;

/// How long a token can be.
pub const MAX_TOKEN_LEN: usize = 256;

/// Why there is no cache.
#[derive(Clone, Copy, Debug, PartialEq, Eq, Structural)]
pub enum ReplayCacheError {
    Capacity,
    Entropy,
}

impl ReplayCacheError {
    pub fn message(self) -> (text: &'static str)
        ensures
            text@ == match self {
                ReplayCacheError::Capacity =>
                    "early data replay capacity exceeds the supported maximum"@,
                ReplayCacheError::Entropy => "failed to create an early data replay domain"@,
            },
    {
        match self {
            ReplayCacheError::Capacity =>
                "early data replay capacity exceeds the supported maximum",
            ReplayCacheError::Entropy => "failed to create an early data replay domain",
        }
    }
}

/// A token and until when it is remembered.
#[derive(Debug)]
struct Entry {
    expires: u64,
    token: Vec<u8>,
}

/// The tokens that were seen.
#[derive(Debug)]
pub struct EarlyDataReplayCache {
    entries: Vec<Entry>,
    capacity: usize,
}

/// The tokens that were seen, the oldest first.
#[verifier::ext_equal]
pub struct ReplayModel {
    pub entries: Seq<(u64, Seq<u8>)>,
    pub capacity: int,
}

/// Tokens without those at the front that are not remembered any more.
pub open spec fn remembered(entries: Seq<(u64, Seq<u8>)>, now: u64) -> Seq<(u64, Seq<u8>)>
    decreases entries.len(),
{
    if entries.len() > 0 && entries[0].0 <= now {
        remembered(entries.subrange(1, entries.len() as int), now)
    } else {
        entries
    }
}

/// Whether a token is among others.
pub open spec fn holds(entries: Seq<(u64, Seq<u8>)>, token: Seq<u8>) -> bool {
    exists|i: int| 0 <= i < entries.len() && (#[trigger] entries[i]).1 == token
}

impl ReplayModel {
    /// Whether a token is accepted: it is short enough, was not seen, and there is
    /// room to remember it.
    pub open spec fn accepts(self, token: Seq<u8>, now: u64) -> bool {
        let entries = remembered(self.entries, now);
        &&& token.len() <= MAX_TOKEN_LEN
        &&& !holds(entries, token)
        &&& entries.len() < self.capacity
    }

    /// After a token was presented.
    pub open spec fn registered(self, token: Seq<u8>, now: u64) -> ReplayModel {
        let entries = remembered(self.entries, now);
        ReplayModel {
            entries: if self.accepts(token, now) {
                entries.push((capped(now + REPLAY_WINDOW_MS), token))
            } else {
                entries
            },
            ..self
        }
    }

    /// No more tokens than there is room for, and none of them twice.
    pub open spec fn sound(self) -> bool {
        &&& self.entries.len() <= self.capacity
        &&& forall|i: int, j: int|
            0 <= i < j < self.entries.len() ==> (#[trigger] self.entries[i]).1 != (
            #[trigger] self.entries[j]).1
    }
}

/// The entries as a sequence.
spec fn entries_of(entries: Seq<Entry>) -> Seq<(u64, Seq<u8>)> {
    entries.map_values(|entry: Entry| (entry.expires, entry.token@))
}

impl View for EarlyDataReplayCache {
    type V = ReplayModel;

    closed spec fn view(&self) -> ReplayModel {
        ReplayModel { entries: entries_of(self.entries@), capacity: self.capacity as int }
    }
}

proof fn lemma_remembered_sound(m: ReplayModel, now: u64)
    requires
        m.sound(),
    ensures
        (ReplayModel { entries: remembered(m.entries, now), ..m }).sound(),
    decreases m.entries.len(),
{
    if m.entries.len() > 0 && m.entries[0].0 <= now {
        let rest = ReplayModel {
            entries: m.entries.subrange(1, m.entries.len() as int),
            ..m
        };
        assert forall|i: int, j: int| 0 <= i < j < rest.entries.len() implies (
        #[trigger] rest.entries[i]).1 != (#[trigger] rest.entries[j]).1 by {
            assert(rest.entries[i] == m.entries[i + 1]);
            assert(rest.entries[j] == m.entries[j + 1]);
        }
        lemma_remembered_sound(rest, now);
    }
}

/// A cache stays sound.
pub proof fn law_registered_sound(m: ReplayModel, token: Seq<u8>, now: u64)
    requires
        m.sound(),
    ensures
        m.registered(token, now).sound(),
{
    lemma_remembered_sound(m, now);
    let after = m.registered(token, now);
    let entries = remembered(m.entries, now);
    if m.accepts(token, now) {
        assert forall|i: int, j: int| 0 <= i < j < after.entries.len() implies (
        #[trigger] after.entries[i]).1 != (#[trigger] after.entries[j]).1 by {
            assert(after.entries[i] == entries[i]);
            if j < entries.len() {
                assert(after.entries[j] == entries[j]);
            } else {
                assert(entries[i].1 != token);
            }
        }
    }
}

proof fn lemma_still_remembered(entries: Seq<(u64, Seq<u8>)>, entry: (u64, Seq<u8>), now: u64)
    requires
        entries.contains(entry),
        entry.0 > now,
    ensures
        remembered(entries, now).contains(entry),
    decreases entries.len(),
{
    if entries.len() > 0 && entries[0].0 <= now {
        let rest = entries.subrange(1, entries.len() as int);
        let i = entries.index_of(entry);
        assert(rest[i - 1] == entry);
        lemma_still_remembered(rest, entry, now);
    }
}

/// A token that is remembered is not accepted, and stays remembered whatever is
/// presented, until its time is over.
pub proof fn law_token_kept(
    m: ReplayModel,
    token: Seq<u8>,
    expires: u64,
    other: Seq<u8>,
    now: u64,
)
    requires
        m.entries.contains((expires, token)),
        now < expires,
    ensures
        !m.accepts(token, now),
        m.registered(other, now).entries.contains((expires, token)),
{
    let kept = remembered(m.entries, now);
    lemma_still_remembered(m.entries, (expires, token), now);
    let i = kept.index_of((expires, token));
    assert(kept[i].1 == token);
    assert(holds(kept, token));
    assert(m.registered(other, now).entries[i] == (expires, token));
}

/// A token that is accepted is remembered for the whole window.
pub proof fn law_accepted_kept(m: ReplayModel, token: Seq<u8>, now: u64)
    requires
        m.accepts(token, now),
    ensures
        m.registered(token, now).entries.contains((capped(now + REPLAY_WINDOW_MS), token)),
{
    let after = m.registered(token, now).entries;
    assert(after[after.len() - 1] == (capped(now + REPLAY_WINDOW_MS), token));
}

/// Whether two byte strings are the same.
fn same_bytes(a: &[u8], b: &[u8]) -> (same: bool)
    ensures
        same == (a@ == b@),
{
    if a.len() != b.len() {
        return false;
    }
    let mut i: usize = 0;
    while i < a.len()
        invariant
            i <= a@.len() == b@.len(),
            forall|j: int| 0 <= j < i ==> a@[j] == b@[j],
        decreases a@.len() - i,
    {
        if a[i] != b[i] {
            return false;
        }
        i = i + 1;
    }
    assert(a@ =~= b@);
    true
}

impl EarlyDataReplayCache {
    pub closed spec fn wf(&self) -> bool {
        self@.sound()
    }

    /// A cache of the largest capacity.
    pub fn new() -> (cache: EarlyDataReplayCache)
        ensures
            cache.wf(),
            cache@ == (ReplayModel {
                entries: Seq::empty(),
                capacity: MAX_REPLAY_CAPACITY as int,
            }),
    {
        EarlyDataReplayCache::from_capacity(MAX_REPLAY_CAPACITY)
    }

    /// A cache of a capacity, if it is not too large.
    pub fn with_capacity(capacity: usize) -> (result: Result<
        EarlyDataReplayCache,
        ReplayCacheError,
    >)
        ensures
            match result {
                Ok(cache) => {
                    &&& capacity <= MAX_REPLAY_CAPACITY
                    &&& cache.wf()
                    &&& cache@ == (ReplayModel {
                        entries: Seq::empty(),
                        capacity: capacity as int,
                    })
                },
                Err(error) => capacity > MAX_REPLAY_CAPACITY && error
                    == ReplayCacheError::Capacity,
            },
    {
        if capacity > MAX_REPLAY_CAPACITY {
            return Err(ReplayCacheError::Capacity);
        }
        Ok(EarlyDataReplayCache::from_capacity(capacity))
    }

    fn from_capacity(capacity: usize) -> (cache: EarlyDataReplayCache)
        ensures
            cache.wf(),
            cache@ == (ReplayModel { entries: Seq::empty(), capacity: capacity as int }),
    {
        let cache = EarlyDataReplayCache { entries: Vec::new(), capacity };
        assert(cache@.entries =~= Seq::empty());
        cache
    }

    /// Forgets tokens that are not remembered any more.
    fn expire(&mut self, now_ms: u64)
        ensures
            final(self)@ == (ReplayModel {
                entries: remembered(old(self)@.entries, now_ms),
                ..old(self)@
            }),
    {
        let ghost whole = remembered(self@.entries, now_ms);
        while self.entries.len() > 0 && self.entries[0].expires <= now_ms
            invariant
                self.capacity == old(self).capacity,
                remembered(self@.entries, now_ms) == whole,
            decreases self.entries@.len(),
        {
            let ghost before = self@.entries;
            assert(before[0] == (self.entries@[0].expires, self.entries@[0].token@));
            self.entries.remove(0);
            assert(self@.entries =~= before.subrange(1, before.len() as int));
        }
        assert(self@.entries.len() == self.entries@.len());
        assert(self@.entries.len() > 0 ==> self@.entries[0].0 == self.entries@[0].expires);
    }

    fn seen(&self, token: &[u8]) -> (seen: bool)
        ensures
            seen == holds(self@.entries, token@),
    {
        let mut i: usize = 0;
        while i < self.entries.len()
            invariant
                i <= self.entries@.len(),
                forall|j: int| 0 <= j < i ==> (#[trigger] self@.entries[j]).1 != token@,
            decreases self.entries@.len() - i,
        {
            assert(self@.entries[i as int].1 == self.entries@[i as int].token@);
            if same_bytes(self.entries[i].token.as_slice(), token) {
                return true;
            }
            i = i + 1;
        }
        assert(self@.entries.len() == self.entries@.len());
        false
    }

    /// Takes note of a token. Tells whether it is accepted.
    pub fn register(&mut self, token: &[u8], now_ms: u64) -> (accepted: bool)
        requires
            old(self).wf(),
        ensures
            final(self).wf(),
            accepted == old(self)@.accepts(token@, now_ms),
            final(self)@ == old(self)@.registered(token@, now_ms),
    {
        proof {
            law_registered_sound(self@, token@, now_ms);
        }
        self.expire(now_ms);
        assert(self@.entries.len() == self.entries@.len());
        if token.len() > MAX_TOKEN_LEN || self.capacity == 0 || self.seen(token)
            || self.entries.len() >= self.capacity {
            return false;
        }
        let ghost before = self@.entries;
        let mut kept: Vec<u8> = Vec::new();
        put_bytes(&mut kept, token);
        assert(kept@ =~= token@);
        let expires: u64 = now_ms.saturating_add(REPLAY_WINDOW_MS);
        self.entries.push(Entry { expires, token: kept });
        assert(self@.entries =~= before.push((expires, token@)));
        true
    }
}

impl Default for EarlyDataReplayCache {
    fn default() -> (cache: EarlyDataReplayCache)
        ensures
            cache.wf(),
            cache@ == (ReplayModel {
                entries: Seq::empty(),
                capacity: MAX_REPLAY_CAPACITY as int,
            }),
    {
        EarlyDataReplayCache::new()
    }
}

/// Names the tickets that one replay store guards.
#[verifier::external_type_specification]
#[verifier::external_body]
pub struct ExReplayDomain(shin::server::ReplayDomain);

/// A new name for a replay store, from `shin::server::ReplayDomain::random`. The
/// name is drawn by chance, and there is none where no random bytes can be had:
/// nothing is claimed of the result.
#[verifier::external_body]
fn random_domain() -> (domain: Option<shin::server::ReplayDomain>) {
    shin::server::ReplayDomain::random().ok()
}

/// Replay protection with the name of its tickets.
pub struct ReplayCache {
    pub store: EarlyDataReplayCache,
    pub domain: shin::server::ReplayDomain,
}

impl ReplayCache {
    /// A cache of the largest capacity, unless no name can be had for it.
    pub fn new() -> (result: Result<ReplayCache, ReplayCacheError>)
        ensures
            match result {
                Ok(cache) => {
                    &&& cache.store.wf()
                    &&& cache.store@ == (ReplayModel {
                        entries: Seq::empty(),
                        capacity: MAX_REPLAY_CAPACITY as int,
                    })
                },
                Err(error) => error == ReplayCacheError::Entropy,
            },
    {
        ReplayCache::named(EarlyDataReplayCache::new(), random_domain())
    }

    /// A cache of a capacity, if it is not too large, unless no name can be had
    /// for it.
    pub fn with_capacity(capacity: usize) -> (result: Result<ReplayCache, ReplayCacheError>)
        ensures
            match result {
                Ok(cache) => {
                    &&& capacity <= MAX_REPLAY_CAPACITY
                    &&& cache.store.wf()
                    &&& cache.store@ == (ReplayModel {
                        entries: Seq::empty(),
                        capacity: capacity as int,
                    })
                },
                Err(error) => error == if capacity > MAX_REPLAY_CAPACITY {
                    ReplayCacheError::Capacity
                } else {
                    ReplayCacheError::Entropy
                },
            },
    {
        match EarlyDataReplayCache::with_capacity(capacity) {
            Ok(store) => ReplayCache::named(store, random_domain()),
            Err(error) => Err(error),
        }
    }

    /// A store with the name that was drawn for it, if one was.
    pub fn named(store: EarlyDataReplayCache, domain: Option<shin::server::ReplayDomain>) -> (
        result: Result<ReplayCache, ReplayCacheError>)
        ensures
            match domain {
                Some(domain) => result == Ok::<ReplayCache, ReplayCacheError>(
                    (ReplayCache { store, domain }),
                ),
                None => result == Err::<ReplayCache, ReplayCacheError>(ReplayCacheError::Entropy),
            },
    {
        match domain {
            Some(domain) => Ok(ReplayCache { store, domain }),
            None => Err(ReplayCacheError::Entropy),
        }
    }
}

/// What is remembered is what was there, without some of the oldest.
proof fn lemma_remembered_from(entries: Seq<(u64, Seq<u8>)>, now: u64)
    ensures
        remembered(entries, now).len() <= entries.len(),
        remembered(entries, now) == entries.skip(entries.len() - remembered(entries, now).len()),
        (forall|i: int| 0 <= i < entries.len() ==> (#[trigger] entries[i]).0 <= now) ==> remembered(
            entries,
            now,
        ).len() == 0,
        forall|token: Seq<u8>| #[trigger]
            holds(remembered(entries, now), token) ==> holds(entries, token),
    decreases entries.len(),
{
    let kept = remembered(entries, now);
    if entries.len() > 0 && entries[0].0 <= now {
        let rest = entries.subrange(1, entries.len() as int);
        lemma_remembered_from(rest, now);
        assert(rest.skip(rest.len() - kept.len()) =~= entries.skip(entries.len() - kept.len()));
        if forall|i: int| 0 <= i < entries.len() ==> (#[trigger] entries[i]).0 <= now {
            assert forall|i: int| 0 <= i < rest.len() implies (#[trigger] rest[i]).0 <= now by {
                assert(rest[i] == entries[i + 1]);
            }
        }
        assert forall|token: Seq<u8>| #[trigger] holds(kept, token) implies holds(
            entries,
            token,
        ) by {
            let i = choose|i: int| 0 <= i < rest.len() && (#[trigger] rest[i]).1 == token;
            assert(entries[i + 1].1 == token);
        }
    } else {
        assert(entries.skip(0) =~= entries);
    }
}

/// A token that is short enough and was not seen is accepted where there is room. It is not
/// accepted again for two hours, in milliseconds.
pub proof fn law_accepted_once_in_two_hours(m: ReplayModel, token: Seq<u8>, now: u64, later: u64)
    requires
        token.len() <= 256,
        !holds(m.entries, token),
        m.entries.len() < m.capacity,
        now <= later,
        later < now + 7_200_000 <= u64::MAX,
    ensures
        m.accepts(token, now),
        !m.registered(token, now).accepts(token, later),
{
    lemma_remembered_from(m.entries, now);
    law_accepted_kept(m, token, now);
    let after = m.registered(token, now);
    law_token_kept(after, token, capped(now + REPLAY_WINDOW_MS), token, later);
}

/// A token is forgotten after the window: once all that was seen is over, it is accepted as
/// if it had not been seen.
pub proof fn law_forgotten_after_the_window(m: ReplayModel, token: Seq<u8>, now: u64)
    requires
        forall|i: int| 0 <= i < m.entries.len() ==> (#[trigger] m.entries[i]).0 <= now,
    ensures
        m.accepts(token, now) == (token.len() <= 256 && m.capacity > 0),
{
    lemma_remembered_from(m.entries, now);
}

/// What is too long, was seen, or finds no room is refused, and leaves what is remembered as
/// it is.
pub proof fn law_refused_tokens(m: ReplayModel, token: Seq<u8>, now: u64)
    requires
        forall|i: int| 0 <= i < m.entries.len() ==> (#[trigger] m.entries[i]).0 > now,
        token.len() > 256 || holds(m.entries, token) || m.entries.len() >= m.capacity,
    ensures
        !m.accepts(token, now),
        m.registered(token, now) == m,
{
    if m.entries.len() > 0 {
        assert(m.entries[0].0 > now);
    }
}

} // verus!
