//! Round-trip time estimation.

use vstd::prelude::*;

use crate::clock::{Duration, MAX_DURATION};

verus! {

/// The granularity of the timers.
pub const GRANULARITY: Duration = 1_000_000;

/// The round-trip time that is taken before there is a sample.
pub const INITIAL_RTT: Duration = 333_000_000;

/// How many later packets are acknowledged before a packet counts as lost.
pub const PACKET_THRESHOLD: u64 = 3;

pub const TIME_THRESHOLD_NUMERATOR: u32 = 9;

pub const TIME_THRESHOLD_DENOMINATOR: u32 = 8;

#[derive(Debug, Clone)]
pub struct RttTracker {
    pub latest_rtt: Option<Duration>,
    pub min_rtt: Option<Duration>,
    pub smoothed_rtt: Option<Duration>,
    pub rttvar: Duration,
}

impl Default for RttTracker {
    fn default() -> (tracker: RttTracker)
        ensures
            tracker.latest_rtt is None,
            tracker.min_rtt is None,
            tracker.smoothed_rtt is None,
            tracker.rttvar == 0,
    {
        RttTracker { latest_rtt: None, min_rtt: None, smoothed_rtt: None, rttvar: 0 }
    }
}

/// The distance of two lengths of time.
pub open spec fn distance(a: int, b: int) -> int {
    if a >= b {
        a - b
    } else {
        b - a
    }
}

impl RttTracker {
    /// The smallest sample, the new one included.
    pub open spec fn min_with(self, sample: Duration) -> Duration {
        match self.min_rtt {
            Some(prev) => if sample < prev {
                sample
            } else {
                prev
            },
            None => sample,
        }
    }

    /// A sample less the delay that the peer reports, where that does not go
    /// below the smallest sample.
    pub open spec fn adjusted(self, sample: Duration, ack_delay: Duration) -> int {
        if sample >= self.min_with(sample) + ack_delay {
            sample - ack_delay
        } else {
            sample as int
        }
    }

    /// Whether no intermediate length of time is too long.
    pub open spec fn update_fits(self, sample: Duration, ack_delay: Duration) -> bool {
        &&& self.min_with(sample) + ack_delay <= MAX_DURATION
        &&& self.smoothed_rtt matches Some(prev) ==> {
            &&& self.rttvar * 3 + distance(prev as int, self.adjusted(sample, ack_delay))
                <= MAX_DURATION
            &&& prev * 7 + self.adjusted(sample, ack_delay) <= MAX_DURATION
        }
    }

    /// With a sample taken into account.
    pub open spec fn updated(self, sample: Duration, ack_delay: Duration) -> RttTracker {
        let adjusted = self.adjusted(sample, ack_delay);
        let seen = RttTracker {
            latest_rtt: Some(sample),
            min_rtt: Some(self.min_with(sample)),
            ..self
        };
        match self.smoothed_rtt {
            None => RttTracker {
                smoothed_rtt: Some(adjusted as Duration),
                rttvar: (adjusted / 2) as Duration,
                ..seen
            },
            Some(prev) => RttTracker {
                smoothed_rtt: Some(((prev * 7 + adjusted) / 8) as Duration),
                rttvar: ((self.rttvar * 3 + distance(prev as int, adjusted)) / 4) as Duration,
                ..seen
            },
        }
    }

    /// Takes a sample into account.
    pub fn update(&mut self, sample: Duration, ack_delay: Duration)
        requires
            old(self).update_fits(sample, ack_delay),
        ensures
            *final(self) == old(self).updated(sample, ack_delay),
    {
        self.latest_rtt = Some(sample);
        let min_rtt: Duration = match self.min_rtt {
            Some(prev) => if sample < prev {
                sample
            } else {
                prev
            },
            None => sample,
        };
        self.min_rtt = Some(min_rtt);
        let adjusted: Duration = if sample >= min_rtt + ack_delay {
            sample - ack_delay
        } else {
            sample
        };
        match self.smoothed_rtt {
            None => {
                self.smoothed_rtt = Some(adjusted);
                self.rttvar = adjusted / 2;
            },
            Some(prev) => {
                let diff: Duration = if prev >= adjusted {
                    prev - adjusted
                } else {
                    adjusted - prev
                };
                self.rttvar = (self.rttvar * 3 + diff) / 4;
                self.smoothed_rtt = Some((prev * 7 + adjusted) / 8);
            },
        }
    }

    /// The smoothed round-trip time, or the initial one.
    pub open spec fn smoothed(self) -> Duration {
        match self.smoothed_rtt {
            Some(smoothed) => smoothed,
            None => INITIAL_RTT,
        }
    }

    /// The last sample, or the smoothed round-trip time.
    pub open spec fn latest(self) -> Duration {
        match self.latest_rtt {
            Some(latest) => latest,
            None => self.smoothed(),
        }
    }

    /// The time after which a probe is due.
    pub open spec fn pto(self, max_ack_delay: Duration) -> int {
        self.smoothed() + (if 4 * self.rttvar > GRANULARITY {
            4 * self.rttvar
        } else {
            GRANULARITY as int
        }) + max_ack_delay
    }

    pub fn pto_period(&self, max_ack_delay: Duration) -> (period: Duration)
        requires
            self.pto(max_ack_delay) <= MAX_DURATION,
        ensures
            period == self.pto(max_ack_delay),
            period >= self.smoothed() + GRANULARITY,
    {
        let smoothed: Duration = match self.smoothed_rtt {
            Some(smoothed) => smoothed,
            None => INITIAL_RTT,
        };
        let rttvar_scaled: Duration = if 4 * self.rttvar > GRANULARITY {
            4 * self.rttvar
        } else {
            GRANULARITY
        };
        smoothed + rttvar_scaled + max_ack_delay
    }

    /// The larger of the smoothed and the last round-trip time.
    pub open spec fn max_rtt(self) -> Duration {
        if self.smoothed() > self.latest() {
            self.smoothed()
        } else {
            self.latest()
        }
    }

    /// How long a packet may go unacknowledged while later ones are.
    pub open spec fn patience(self) -> int {
        if self.max_rtt() * 9 / 8 > GRANULARITY as int {
            self.max_rtt() * 9 / 8
        } else {
            GRANULARITY as int
        }
    }

    /// How long a packet may go unacknowledged while later ones are, before it
    /// counts as lost.
    pub fn loss_delay(&self) -> (delay: Duration)
        requires
            self.max_rtt() * 9 <= MAX_DURATION,
        ensures
            delay == self.patience(),
    {
        let smoothed: Duration = match self.smoothed_rtt {
            Some(smoothed) => smoothed,
            None => INITIAL_RTT,
        };
        let latest: Duration = match self.latest_rtt {
            Some(latest) => latest,
            None => smoothed,
        };
        let max_rtt: Duration = if smoothed > latest {
            smoothed
        } else {
            latest
        };
        let scaled: Duration = (max_rtt * 9) / 8;
        if scaled > GRANULARITY {
            scaled
        } else {
            GRANULARITY
        }
    }
}

/// The smoothed round-trip time stays between the previous one and the
/// adjusted sample, up to rounding down.
pub proof fn law_smoothed_between(prev: Duration, adjusted: int)
    requires
        adjusted >= 0,
    ensures
        prev <= adjusted ==> prev <= (prev * 7 + adjusted) / 8 <= adjusted,
        adjusted <= prev ==> adjusted <= (prev * 7 + adjusted) / 8 <= prev,
{
}

/// An adjusted sample is at most the sample and at least the smallest one.
pub proof fn law_adjusted_bounds(tracker: RttTracker, sample: Duration, ack_delay: Duration)
    ensures
        tracker.min_with(sample) <= tracker.adjusted(sample, ack_delay) <= sample,
{
}

/// The smallest sample is the smallest there was, and the delay that the peer reports is taken
/// off a sample exactly where that leaves no less.
pub proof fn law_smallest_sample(tracker: RttTracker, sample: Duration, ack_delay: Duration)
    ensures
        ({
            let after = tracker.updated(sample, ack_delay);
            let adjusted = tracker.adjusted(sample, ack_delay);
            &&& after.latest_rtt == Some(sample)
            &&& after.min_rtt matches Some(min) && {
                &&& min <= sample
                &&& tracker.min_rtt matches Some(known) ==> min <= known
                &&& min == sample || tracker.min_rtt == Some(min)
                &&& sample - ack_delay >= min ==> adjusted == sample - ack_delay
                &&& sample - ack_delay < min ==> adjusted == sample
            }
        }),
{
}

/// The first sample is taken as it is, with half of it as its variation. Each further one moves
/// the average by an eighth of what it differs, and the variation by a quarter of how much that
/// is more or less than it, rounded down.
pub proof fn law_average_moves(tracker: RttTracker, sample: Duration, ack_delay: Duration)
    requires
        tracker.update_fits(sample, ack_delay),
    ensures
        ({
            let after = tracker.updated(sample, ack_delay);
            let adjusted = tracker.adjusted(sample, ack_delay);
            &&& after.smoothed_rtt is Some
            &&& tracker.smoothed_rtt is None ==> {
                &&& after.smoothed_rtt->0 == adjusted
                &&& 2 * after.rttvar <= adjusted <= 2 * after.rttvar + 1
            }
            &&& tracker.smoothed_rtt matches Some(prev) ==> {
                let off = if prev >= adjusted {
                    prev - adjusted
                } else {
                    adjusted - prev
                };
                &&& 8 * (after.smoothed_rtt->0 - prev) <= adjusted - prev < 8 * (
                after.smoothed_rtt->0 - prev) + 8
                &&& 4 * (after.rttvar - tracker.rttvar) <= off - tracker.rttvar < 4 * (after.rttvar
                    - tracker.rttvar) + 4
            }
        }),
{
    assert(MAX_DURATION <= u128::MAX);
}

/// A probe waits for the average, the delay that the peer may take and four times the
/// variation, or a millisecond where that is less. Without a sample the average is a third of a
/// second.
pub proof fn law_probe_time(tracker: RttTracker, max_ack_delay: Duration)
    ensures
        ({
            let average = match tracker.smoothed_rtt {
                Some(average) => average as int,
                None => 333_000_000,
            };
            let slack = tracker.pto(max_ack_delay) - average - max_ack_delay;
            &&& slack >= 1_000_000
            &&& slack >= 4 * tracker.rttvar
            &&& slack == 1_000_000 || slack == 4 * tracker.rttvar
        }),
{
}

/// A packet is given nine eighths of the longer of the average and the last sample, rounded
/// down, and at least a millisecond.
pub proof fn law_loss_time(tracker: RttTracker, average: Duration, latest: Duration)
    requires
        tracker.smoothed_rtt == Some(average),
        tracker.latest_rtt == Some(latest),
    ensures
        tracker.patience() >= 1_000_000,
        tracker.patience() >= average,
        tracker.patience() >= latest,
        8 * tracker.patience() > 9 * average - 8,
        8 * tracker.patience() > 9 * latest - 8,
        tracker.patience() > 1_000_000 ==> 8 * tracker.patience() <= 9 * average || 8
            * tracker.patience() <= 9 * latest,
        PACKET_THRESHOLD == 3,
{
}

} // verus!
