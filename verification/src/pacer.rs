//! Spreading packets over the round-trip time.

use vstd::prelude::*;

use crate::clock::{Duration, Instant};
use crate::math::{capped, saturating_mul};

verus! {

/// How many packets may be sent without pacing.
pub const PACER_BURST_PACKETS: u32 = 10;

pub const PACER_RATE_NUM: u64 = 5;

pub const PACER_RATE_DEN: u64 = 4;

#[derive(Debug, Clone)]
pub struct Pacer {
    next_release: Instant,
    burst_left: u32,
}

/// The time between two packets: at the rate of five quarters of the
/// congestion window per round-trip time.
pub open spec fn pacing_interval(bytes: u64, cwnd: u64, srtt: Duration) -> int {
    let window = if cwnd > 1 {
        cwnd as int
    } else {
        1
    };
    (capped(capped(bytes * capped(srtt as int)) * PACER_RATE_DEN) / capped(window * PACER_RATE_NUM))
        as int
}

impl Pacer {
    /// When the next packet is due, once the burst is used up.
    pub closed spec fn release(self) -> Instant {
        self.next_release
    }

    /// How many packets of the burst are left.
    pub closed spec fn burst(self) -> nat {
        self.burst_left as nat
    }

    /// Whether a packet may be sent.
    pub open spec fn may_send(self, now: Instant) -> bool {
        self.burst() > 0 || now >= self.release()
    }

    /// Whether a packet that is sent leads to another state.
    pub open spec fn sends(
        self,
        bytes: u64,
        now: Instant,
        cwnd: u64,
        srtt: Duration,
        next: Pacer,
    ) -> bool {
        if self.burst() > 0 {
            &&& next.burst() == self.burst() - 1
            &&& next.release() == now
        } else {
            &&& next.burst() == 0
            &&& next.release() == if now + pacing_interval(bytes, cwnd, srtt) <= u64::MAX {
                now + pacing_interval(bytes, cwnd, srtt)
            } else {
                now as int
            }
        }
    }

    pub fn new(now: Instant) -> (pacer: Pacer)
        ensures
            pacer.release() == now,
            pacer.burst() == PACER_BURST_PACKETS,
    {
        Pacer { next_release: now, burst_left: PACER_BURST_PACKETS }
    }

    pub fn allows_send(&self, now: Instant) -> (result: bool)
        ensures
            result == self.may_send(now),
    {
        self.burst_left > 0 || now >= self.next_release
    }

    pub fn next_release_time(&self) -> (release: Instant)
        ensures
            release == self.release(),
    {
        self.next_release
    }

    /// Notes that a packet was sent.
    pub fn packet_sent(&mut self, bytes: u64, now: Instant, cwnd: u64, srtt: Duration)
        ensures
            old(self).sends(bytes, now, cwnd, srtt, *final(self)),
    {
        if self.burst_left > 0 {
            self.burst_left = self.burst_left - 1;
            self.next_release = now;
            return;
        }
        let srtt_nanos: u64 = if srtt > u64::MAX as u128 {
            u64::MAX
        } else {
            srtt as u64
        };
        let window: u64 = if cwnd > 1 {
            cwnd
        } else {
            1
        };
        let denom: u64 = saturating_mul(window, PACER_RATE_NUM);
        let scaled: u64 = saturating_mul(saturating_mul(bytes, srtt_nanos), PACER_RATE_DEN);
        let interval_nanos: u64 = scaled / denom;
        self.next_release = match now.checked_add(interval_nanos) {
            Some(release) => release,
            None => now,
        };
    }
}

/// Packets go out at five quarters of a window in each round-trip time: the time between two
/// is the time in which so many bytes do, rounded down.
pub proof fn law_pacing_rate(bytes: u64, cwnd: u64, srtt: Duration)
    requires
        cwnd > 0,
        bytes * srtt * 4 <= u64::MAX,
        bytes * srtt <= u64::MAX,
        srtt <= u64::MAX,
        cwnd * 5 <= u64::MAX,
    ensures
        ({
            let interval = pacing_interval(bytes, cwnd, srtt);
            &&& interval * (cwnd * 5) <= bytes * srtt * 4
            &&& bytes * srtt * 4 < (interval + 1) * (cwnd * 5)
        }),
{
    let p = bytes * srtt * 4;
    let w = cwnd * 5;
    assert(bytes * srtt >= 0) by (nonlinear_arith);
    vstd::arithmetic::div_mod::lemma_fundamental_div_mod(p, w);
    let q = p / w;
    assert(q * w == w * q) by (nonlinear_arith);
    assert((q + 1) * w == q * w + w) by (nonlinear_arith);
}

/// A packet may go out before its time only while some of a burst is left, of which each packet
/// takes one. Once it is used up, none goes out before the time that the last one set.
pub proof fn law_burst_runs_out(
    pacer: Pacer,
    bytes: u64,
    now: Instant,
    cwnd: u64,
    srtt: Duration,
    next: Pacer,
    later: Instant,
)
    requires
        pacer.sends(bytes, now, cwnd, srtt, next),
    ensures
        pacer.burst() > 0 ==> pacer.may_send(later) && next.burst() + 1 == pacer.burst(),
        pacer.burst() == 0 ==> next.burst() == 0,
        next.may_send(next.release()),
        next.burst() == 0 && later < next.release() ==> !next.may_send(later),
        pacer.burst() == 0 && now + pacing_interval(bytes, cwnd, srtt) <= u64::MAX
            ==> next.release() - now == pacing_interval(bytes, cwnd, srtt),
        PACER_BURST_PACKETS == 10,
{
}

} // verus!
