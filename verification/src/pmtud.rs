//! Path MTU discovery: a binary search between what is known to pass and what
//! is not known to fail.

use vstd::prelude::*;

verus! {

pub const BASE_PMTU: u64 = 1200;

pub const DEFAULT_MAX_PMTU: u64 = 1500;

/// The largest UDP payload that is sent.
pub const MAX_PMTU: u64 = 65_527;

/// How many probes of one size may be lost.
pub const MAX_PROBES_PER_SIZE: u32 = 3;

/// The search ends where the interval is no wider than this.
pub const SEARCH_DONE_INTERVAL: u64 = 4;

#[derive(Debug, Clone, Copy)]
pub struct Pmtud {
    current: u64,
    upper_bound: u64,
    in_flight_size: Option<u64>,
    probes_at_size: u32,
    done: bool,
}

/// The state of the search.
pub struct SearchModel {
    /// The largest size that is known to pass.
    pub current: u64,
    /// The largest size that is not known to fail.
    pub upper_bound: u64,
    /// The size of the probe that is on its way.
    pub in_flight: Option<u64>,
    /// How many probes of this size were lost.
    pub lost: nat,
    pub done: bool,
}

impl SearchModel {
    /// How a search begins.
    pub open spec fn begins(max_pmtu: u64) -> SearchModel {
        SearchModel {
            current: BASE_PMTU,
            upper_bound: if max_pmtu > BASE_PMTU {
                max_pmtu
            } else {
                BASE_PMTU
            },
            in_flight: None,
            lost: 0,
            done: false,
        }
    }

    pub open spec fn narrow(self) -> bool {
        self.upper_bound <= self.current + SEARCH_DONE_INTERVAL
    }

    /// The size of the next probe, if there is one.
    pub open spec fn next_probe(self) -> Option<u64> {
        if self.done || self.in_flight is Some || self.narrow() {
            None
        } else {
            Some(((self.current + self.upper_bound) / 2) as u64)
        }
    }

    /// After a probe was sent.
    pub open spec fn armed(self, size: u64) -> SearchModel {
        SearchModel { in_flight: Some(size), ..self }
    }

    /// Whether a probe was sent, acknowledged or lost.
    pub open spec fn steps_to(self, next: SearchModel) -> bool {
        ||| exists|size: u64| next == #[trigger] self.armed(size)
        ||| next == self.acked()
        ||| next == self.lost_probe()
    }

    pub open spec fn acked(self) -> SearchModel {
        match self.in_flight {
            Some(size) => {
                let next = SearchModel {
                    current: if size > self.current {
                        size
                    } else {
                        self.current
                    },
                    in_flight: None,
                    lost: 0,
                    ..self
                };
                SearchModel { done: self.done || next.narrow(), ..next }
            },
            None => SearchModel { done: self.done || self.narrow(), ..self },
        }
    }

    pub open spec fn lost_probe(self) -> SearchModel {
        match self.in_flight {
            None => self,
            Some(size) => if self.lost + 1 < MAX_PROBES_PER_SIZE {
                SearchModel { in_flight: None, lost: self.lost + 1, ..self }
            } else {
                let below = if size > 0 {
                    (size - 1) as u64
                } else {
                    0
                };
                let next = SearchModel {
                    upper_bound: if below > self.current {
                        below
                    } else {
                        self.current
                    },
                    in_flight: None,
                    lost: 0,
                    ..self
                };
                SearchModel { done: self.done || next.narrow(), ..next }
            },
        }
    }
}

impl View for Pmtud {
    type V = SearchModel;

    closed spec fn view(&self) -> SearchModel {
        SearchModel {
            current: self.current,
            upper_bound: self.upper_bound,
            in_flight: self.in_flight_size,
            lost: self.probes_at_size as nat,
            done: self.done,
        }
    }
}

impl Pmtud {
    #[verifier::type_invariant]
    spec fn few_lost(self) -> bool {
        self.probes_at_size < MAX_PROBES_PER_SIZE
    }

    pub fn new(max_pmtu: u64) -> (search: Pmtud)
        ensures
            search@ == SearchModel::begins(max_pmtu),
    {
        Pmtud {
            current: BASE_PMTU,
            upper_bound: if max_pmtu > BASE_PMTU {
                max_pmtu
            } else {
                BASE_PMTU
            },
            in_flight_size: None,
            probes_at_size: 0,
            done: false,
        }
    }

    pub fn current(&self) -> (current: u64)
        ensures
            current == self@.current,
    {
        self.current
    }

    pub fn done(&self) -> (done: bool)
        ensures
            done == self@.done,
    {
        self.done
    }

    /// The size of the next probe: the middle of the interval.
    pub fn next_probe(&self) -> (size: Option<u64>)
        requires
            !self@.done && self@.in_flight is None ==> self@.current + SEARCH_DONE_INTERVAL
                <= u64::MAX,
            !self@.done && self@.in_flight is None && !self@.narrow() ==> self@.current
                + self@.upper_bound <= u64::MAX,
        ensures
            size == self@.next_probe(),
            size matches Some(size) ==> self@.current < size < self@.upper_bound,
    {
        if self.done || self.in_flight_size.is_some() {
            return None;
        }
        if self.upper_bound <= self.current + SEARCH_DONE_INTERVAL {
            return None;
        }
        Some((self.current + self.upper_bound) / 2)
    }

    /// Notes that a probe was sent.
    pub fn arm_probe(&mut self, size: u64)
        ensures
            final(self)@ == old(self)@.armed(size),
    {
        proof {
            use_type_invariant(&*self);
        }
        self.in_flight_size = Some(size);
    }

    /// Notes that the probe was acknowledged.
    pub fn on_probe_acked(&mut self)
        requires
            old(self)@.current + SEARCH_DONE_INTERVAL <= u64::MAX,
            old(self)@.in_flight matches Some(size) ==> size + SEARCH_DONE_INTERVAL <= u64::MAX,
        ensures
            final(self)@ == old(self)@.acked(),
            final(self)@.current >= old(self)@.current,
    {
        proof {
            use_type_invariant(&*self);
        }
        if let Some(size) = self.in_flight_size {
            self.in_flight_size = None;
            if size > self.current {
                self.current = size;
            }
            self.probes_at_size = 0;
        }
        self.recompute_done();
    }

    /// Notes that the probe was lost.
    pub fn on_probe_lost(&mut self)
        requires
            old(self)@.current + SEARCH_DONE_INTERVAL <= u64::MAX,
        ensures
            final(self)@ == old(self)@.lost_probe(),
            final(self)@.current == old(self)@.current,
    {
        proof {
            use_type_invariant(&*self);
        }
        let size: u64 = match self.in_flight_size {
            Some(size) => size,
            None => {
                return;
            },
        };
        if self.probes_at_size + 1 >= MAX_PROBES_PER_SIZE {
            let below: u64 = size.saturating_sub(1);
            self.upper_bound = if below > self.current {
                below
            } else {
                self.current
            };
            self.in_flight_size = None;
            self.probes_at_size = 0;
            self.recompute_done();
        } else {
            self.probes_at_size = self.probes_at_size + 1;
            self.in_flight_size = None;
        }
    }

    fn recompute_done(&mut self)
        requires
            old(self)@.current + SEARCH_DONE_INTERVAL <= u64::MAX,
        ensures
            final(self)@ == (SearchModel {
                done: old(self)@.done || old(self)@.narrow(),
                ..old(self)@
            }),
    {
        proof {
            use_type_invariant(&*self);
        }
        if self.upper_bound <= self.current + SEARCH_DONE_INTERVAL {
            self.done = true;
        }
    }
}

impl Default for Pmtud {
    fn default() -> (search: Pmtud)
        ensures
            search@.current == BASE_PMTU,
            search@.upper_bound == DEFAULT_MAX_PMTU,
            search@.in_flight is None,
            search@.lost == 0,
            !search@.done,
    {
        Pmtud::new(DEFAULT_MAX_PMTU)
    }
}

/// A search that is finished stays so, whatever follows, and asks for no probe.
pub proof fn law_finished_for_ever(states: Seq<SearchModel>, i: int)
    requires
        0 <= i < states.len(),
        states[0].done,
        forall|k: int|
            0 <= k < states.len() - 1 ==> #[trigger] states[k].steps_to(states[k + 1]),
    ensures
        states[i].done,
        states[i].next_probe() is None,
    decreases i,
{
    if i > 0 {
        law_finished_for_ever(states, i - 1);
        assert(states[i - 1].steps_to(states[i - 1 + 1]));
    }
}

/// Whatever becomes of the probes, the interval of the search never grows:
/// acknowledging or losing a probe of the size that was asked for keeps the
/// known size at or below the bound.
pub proof fn law_interval_shrinks(state: SearchModel)
    requires
        state.in_flight matches Some(size) && state.current < size < state.upper_bound,
    ensures
        state.acked().current > state.current,
        state.acked().current < state.acked().upper_bound == state.upper_bound,
        state.lost_probe().current == state.current,
        state.lost_probe().current <= state.lost_probe().upper_bound <= state.upper_bound,
        state.lost + 1 >= MAX_PROBES_PER_SIZE ==> state.lost_probe().upper_bound
            < state.upper_bound,
{
}

/// A search begins at 1200 bytes and goes no further than it may. It probes the middle of what
/// is open, while that is more than four bytes, one probe at a time.
pub proof fn law_probe_in_the_middle(state: SearchModel, max_pmtu: u64)
    requires
        state.current + state.upper_bound <= u64::MAX,
    ensures
        ({
            let begin = SearchModel::begins(max_pmtu);
            &&& begin.current == 1200
            &&& begin.upper_bound >= 1200
            &&& max_pmtu >= 1200 ==> begin.upper_bound == max_pmtu
            &&& max_pmtu < 1200 ==> begin.upper_bound == 1200
            &&& begin.in_flight is None && begin.lost == 0 && !begin.done
        }),
        (state.next_probe() is Some) == (!state.done && state.in_flight is None
            && state.upper_bound - state.current > 4),
        state.next_probe() matches Some(size) ==> 0 <= (state.upper_bound - size) - (size
            - state.current) <= 1,
{
}

/// A probe that arrives shows that its size passes. One that is lost shows nothing, until three
/// of a size are: then less than that size is left to search.
pub proof fn law_probe_settles(state: SearchModel, size: u64)
    requires
        state.lost == 0,
        !state.done,
        size > 0,
    ensures
        ({
            let passed = state.armed(size).acked();
            let once = state.armed(size).lost_probe();
            let twice = once.armed(size).lost_probe();
            let thrice = twice.armed(size).lost_probe();
            &&& state.armed(size).in_flight == Some(size)
            &&& passed.in_flight is None
            &&& size >= state.current ==> passed.current == size
            &&& size < state.current ==> passed.current == state.current
            &&& passed.upper_bound == state.upper_bound
            &&& passed.done == (passed.upper_bound - passed.current <= 4)
            &&& once.in_flight is None && twice.in_flight is None && thrice.in_flight is None
            &&& once.current == state.current && once.upper_bound == state.upper_bound
                && !once.done
            &&& twice.current == state.current && twice.upper_bound == state.upper_bound
                && !twice.done
            &&& thrice.current == state.current
            &&& size > state.current ==> thrice.upper_bound == size - 1
            &&& thrice.lost == 0
            &&& thrice.done == (thrice.upper_bound - thrice.current <= 4)
        }),
{
}

} // verus!
