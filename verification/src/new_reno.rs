//! NewReno congestion control.

use vstd::prelude::*;

use crate::clock::Instant;
use crate::math::{capped, saturating_mul};

verus! {

pub const K_MAX_DATAGRAM_SIZE: u64 = 1200;

pub const K_INITIAL_WINDOW: u64 = 12_000;

pub const K_MINIMUM_WINDOW: u64 = 2_400;

pub const K_LOSS_REDUCTION_DEN: u64 = 2;

#[derive(Debug, Clone)]
pub struct NewReno {
    pub cwnd: u64,
    pub ssthresh: u64,
    pub bytes_in_flight: u64,
    pub last_congestion_event: Option<Instant>,
}

impl Default for NewReno {
    fn default() -> (control: NewReno)
        ensures
            control.cwnd == K_INITIAL_WINDOW,
            control.ssthresh == u64::MAX,
            control.bytes_in_flight == 0,
            control.last_congestion_event is None,
    {
        NewReno {
            cwnd: K_INITIAL_WINDOW,
            ssthresh: u64::MAX,
            bytes_in_flight: 0,
            last_congestion_event: None,
        }
    }
}

/// A number less another, but not below zero.
pub open spec fn less(value: u64, amount: u64) -> u64 {
    if value > amount {
        (value - amount) as u64
    } else {
        0
    }
}

impl NewReno {
    /// By how much an acknowledgement of the given bytes widens the window.
    pub open spec fn growth(self, acked_bytes: u64) -> int {
        if self.cwnd < self.ssthresh {
            acked_bytes as int
        } else {
            let window = if self.cwnd > 1 {
                self.cwnd
            } else {
                1
            };
            let inc = capped(K_MAX_DATAGRAM_SIZE * acked_bytes) / window;
            if inc > 1 {
                inc as int
            } else {
                1
            }
        }
    }

    /// Whether a loss of a packet sent at the given time belongs to a
    /// congestion event that was reacted to.
    pub open spec fn in_recovery(self, sent: Instant) -> bool {
        self.last_congestion_event matches Some(prev) && sent <= prev
    }

    /// Half the window, but not below the minimum.
    pub open spec fn reduced(self) -> u64 {
        if self.cwnd / K_LOSS_REDUCTION_DEN > K_MINIMUM_WINDOW {
            self.cwnd / K_LOSS_REDUCTION_DEN
        } else {
            K_MINIMUM_WINDOW
        }
    }

    /// Whether the window is not used up.
    pub open spec fn may_send(self) -> bool {
        self.bytes_in_flight < self.cwnd
    }

    /// The state after a packet was sent.
    pub open spec fn sent(self, bytes: u64, in_flight: bool) -> NewReno {
        NewReno {
            bytes_in_flight: if in_flight {
                capped(self.bytes_in_flight + bytes)
            } else {
                self.bytes_in_flight
            },
            ..self
        }
    }

    /// The state with fewer bytes in flight.
    pub open spec fn without(self, bytes: u64) -> NewReno {
        NewReno { bytes_in_flight: less(self.bytes_in_flight, bytes), ..self }
    }

    /// The state after a packet was acknowledged.
    pub open spec fn acked(self, bytes: u64, in_flight: bool) -> NewReno {
        NewReno {
            bytes_in_flight: if in_flight {
                less(self.bytes_in_flight, bytes)
            } else {
                self.bytes_in_flight
            },
            cwnd: capped(self.cwnd + self.growth(bytes)),
            ..self
        }
    }

    /// The state after packets were lost, the last of which was sent at the
    /// given time.
    pub open spec fn lost(self, bytes: u64, sent: Instant) -> NewReno {
        if self.in_recovery(sent) {
            self.without(bytes)
        } else {
            NewReno {
                bytes_in_flight: less(self.bytes_in_flight, bytes),
                last_congestion_event: Some(sent),
                ssthresh: self.reduced(),
                cwnd: self.reduced(),
            }
        }
    }

    pub fn allows_send(&self) -> (result: bool)
        ensures
            result == self.may_send(),
    {
        self.bytes_in_flight < self.cwnd
    }

    pub fn on_packet_sent(&mut self, sent_bytes: u64, in_flight: bool)
        ensures
            *final(self) == old(self).sent(sent_bytes, in_flight),
    {
        if in_flight {
            self.bytes_in_flight = self.bytes_in_flight.saturating_add(sent_bytes);
        }
    }

    /// Takes bytes out of flight that will not be acknowledged.
    pub fn discard(&mut self, bytes: u64)
        ensures
            *final(self) == old(self).without(bytes),
    {
        self.bytes_in_flight = self.bytes_in_flight.saturating_sub(bytes);
    }

    pub fn on_packet_acked(&mut self, acked_bytes: u64, in_flight: bool)
        ensures
            *final(self) == old(self).acked(acked_bytes, in_flight),
    {
        if in_flight {
            self.bytes_in_flight = self.bytes_in_flight.saturating_sub(acked_bytes);
        }
        if self.cwnd < self.ssthresh {
            self.cwnd = self.cwnd.saturating_add(acked_bytes);
        } else {
            let window: u64 = if self.cwnd > 1 {
                self.cwnd
            } else {
                1
            };
            let inc: u64 = saturating_mul(K_MAX_DATAGRAM_SIZE, acked_bytes) / window;
            self.cwnd = self.cwnd.saturating_add(
                if inc > 1 {
                    inc
                } else {
                    1
                },
            );
        }
    }

    pub fn on_packets_lost(&mut self, lost_bytes: u64, lost_sent_time: Instant)
        ensures
            *final(self) == old(self).lost(lost_bytes, lost_sent_time),
    {
        self.bytes_in_flight = self.bytes_in_flight.saturating_sub(lost_bytes);
        let in_recovery = match self.last_congestion_event {
            Some(prev) => lost_sent_time <= prev,
            None => false,
        };
        if !in_recovery {
            self.last_congestion_event = Some(lost_sent_time);
            let half: u64 = self.cwnd / K_LOSS_REDUCTION_DEN;
            self.ssthresh = if half > K_MINIMUM_WINDOW {
                half
            } else {
                K_MINIMUM_WINDOW
            };
            self.cwnd = self.ssthresh;
        }
    }
}

/// One window of losses is answered once: a second loss of packets that were
/// sent no later than those of the first leaves the window as the first left
/// it.
pub proof fn law_one_reduction_per_event(
    control: NewReno,
    bytes: u64,
    first: Instant,
    more_bytes: u64,
    second: Instant,
)
    requires
        !control.in_recovery(first),
        second <= first,
    ensures
        control.lost(bytes, first).lost(more_bytes, second).cwnd == control.lost(bytes, first).cwnd,
        control.lost(bytes, first).lost(more_bytes, second).ssthresh == control.lost(
            bytes,
            first,
        ).ssthresh,
{
}

/// No event takes the window below the minimum.
pub proof fn law_minimum_window(control: NewReno, bytes: u64, in_flight: bool, at: Instant)
    requires
        control.cwnd >= K_MINIMUM_WINDOW,
    ensures
        control.sent(bytes, in_flight).cwnd >= K_MINIMUM_WINDOW,
        control.acked(bytes, in_flight).cwnd >= control.cwnd,
        control.lost(bytes, at).cwnd >= K_MINIMUM_WINDOW,
        control.without(bytes).cwnd >= K_MINIMUM_WINDOW,
{
}

/// In congestion avoidance the window grows by one datagram for each window that is
/// acknowledged: by the share of a datagram that the acknowledged bytes are of the window,
/// and by one byte where that is less.
pub proof fn law_avoidance(control: NewReno, bytes: u64, in_flight: bool)
    requires
        control.cwnd >= control.ssthresh,
        control.cwnd > 0,
        1200 * bytes <= u64::MAX,
        control.cwnd + 1200 * bytes < u64::MAX,
    ensures
        ({
            let grown = control.acked(bytes, in_flight).cwnd - control.cwnd;
            &&& grown >= 1
            &&& 1200 * bytes < (grown + 1) * control.cwnd
            &&& grown > 1 ==> grown * control.cwnd <= 1200 * bytes
            &&& bytes <= control.cwnd ==> grown <= 1200
        }),
{
    let w = control.cwnd as int;
    let p = 1200 * bytes;
    vstd::arithmetic::div_mod::lemma_fundamental_div_mod(p, w);
    let q = p / w;
    assert(p == w * q + p % w);
    assert(q * w == w * q) by (nonlinear_arith);
    assert((q + 1) * w == q * w + w) by (nonlinear_arith);
    assert(q <= p) by (nonlinear_arith)
        requires
            w > 0,
            q * w <= p,
            p >= 0,
            q >= 0 || q * w < 0,
    ;
    let grown = control.acked(bytes, in_flight).cwnd - control.cwnd;
    if q <= 1 {
        assert((1 + 1) * w == w + w) by (nonlinear_arith);
        if q <= 0 {
            assert((q + 1) * w <= w) by (nonlinear_arith)
                requires
                    q <= 0,
                    w > 0,
            ;
        }
    }
    if bytes <= control.cwnd {
        assert(q <= 1200) by (nonlinear_arith)
            requires
                q * w <= 1200 * bytes,
                bytes <= w,
                w > 0,
        ;
    }
}

/// In slow start the window grows by what is acknowledged, so that it doubles where a whole
/// window is.
pub proof fn law_slow_start(control: NewReno, bytes: u64, in_flight: bool)
    requires
        control.cwnd < control.ssthresh,
        control.cwnd + bytes <= u64::MAX,
    ensures
        control.acked(bytes, in_flight).cwnd - control.cwnd == bytes,
        bytes == control.cwnd ==> control.acked(bytes, in_flight).cwnd == 2 * control.cwnd,
        control.acked(bytes, in_flight).ssthresh == control.ssthresh,
{
}

/// A loss of what was sent after the last one that was answered halves the window, down to two
/// datagrams, and slow start ends there. Any other loss leaves the window.
pub proof fn law_loss_halves(control: NewReno, bytes: u64, sent: Instant)
    ensures
        ({
            let after = control.lost(bytes, sent);
            let answered = control.last_congestion_event matches Some(event) && event >= sent;
            if answered {
                &&& after.cwnd == control.cwnd
                &&& after.ssthresh == control.ssthresh
                &&& after.last_congestion_event == control.last_congestion_event
            } else {
                &&& after.ssthresh == after.cwnd
                &&& after.last_congestion_event == Some(sent)
                &&& control.cwnd >= 4800 ==> 2 * after.cwnd <= control.cwnd <= 2 * after.cwnd + 1
                &&& control.cwnd < 4800 ==> after.cwnd == 2400
            }
        }),
{
}

/// What is sent is in flight until it is acknowledged, lost or given up, and no longer. What
/// does not count is never.
pub proof fn law_flight(control: NewReno, bytes: u64, sent: Instant)
    requires
        control.bytes_in_flight + bytes <= u64::MAX,
    ensures
        control.sent(bytes, true).bytes_in_flight - control.bytes_in_flight == bytes,
        control.sent(bytes, true).cwnd == control.cwnd,
        control.sent(bytes, true).ssthresh == control.ssthresh,
        control.sent(bytes, true).acked(bytes, true).bytes_in_flight == control.bytes_in_flight,
        control.sent(bytes, true).lost(bytes, sent).bytes_in_flight == control.bytes_in_flight,
        control.sent(bytes, true).without(bytes) == control,
        control.sent(bytes, false) == control,
        control.acked(bytes, false).bytes_in_flight == control.bytes_in_flight,
        control.bytes_in_flight <= bytes ==> control.without(bytes).bytes_in_flight == 0,
{
}

/// Something may be sent exactly while one more byte in flight stays within the window.
pub proof fn law_window_bounds(control: NewReno)
    requires
        control.bytes_in_flight < u64::MAX,
    ensures
        control.may_send() == (control.sent(1, true).bytes_in_flight <= control.cwnd),
        K_INITIAL_WINDOW == 10 * 1200,
        K_MINIMUM_WINDOW == 2 * 1200,
{
}

} // verus!
