//! Whether, when and how much a connection may send.
use vstd::prelude::*;

use crate::clock::Instant;
use crate::conn::transmit::connection::{CongestionControl, ConnModel, Connection};
use crate::conn::transmit::crypto::Epoch;
use crate::conn::transmit::packets::sent_controls;
use crate::conn::transmit::room::left;
use crate::math::{capped, saturating_mul};

verus! {

/// What a packet is to carry.
#[derive(Debug, Clone, Copy, PartialEq, Eq, Structural)]
pub enum Cargo {
    CryptoOrAck,
    DatagramOnly,
}

/// How many times what came from an address may go to it before the address is
/// validated.
pub const AMPLIFICATION_FACTOR: u64 = 3;

impl ConnModel {
    /// How many more bytes may go to the peer.
    pub open spec fn amplification_left(self) -> u64 {
        if self.egress.peer_address_validated {
            u64::MAX
        } else {
            left(
                capped(self.egress.amplification_received * AMPLIFICATION_FACTOR) as int,
                self.egress.amplification_sent as int,
            ) as u64
        }
    }

    /// Whether the congestion window and the pacer let a packet go.
    pub open spec fn uncongested(self, now: Instant) -> bool {
        &&& self.egress.cc.bytes_in_flight < self.egress.cc.cwnd
        &&& self.egress.burst > 0 || now >= self.egress.release
    }

    /// Whether a packet may be sent.
    pub open spec fn allows(self, cargo: Cargo, now: Instant) -> bool {
        &&& self.egress.peer_address_validated || self.amplification_left() != 0
        &&& (cargo == Cargo::DatagramOnly && self.egress.datagram_congestion_control
            == CongestionControl::Uncongested) || self.uncongested(now)
    }

    /// How long a packet may be, if one may be sent.
    pub open spec fn ceiling(self, requested: int) -> Option<int> {
        let most = if requested < self.amplification_left() {
            requested
        } else {
            self.amplification_left() as int
        };
        if most > 0 {
            Some(most)
        } else {
            None
        }
    }

    /// Whether handshake bytes or an acknowledgement of an epoch wait.
    pub open spec fn epoch_pending(self, epoch: Epoch) -> bool {
        self.keys.epochs.of(epoch) is Some && (self.crypto.of(epoch).has_sendable()
            || self.received.of(epoch).ack_pending)
    }

    /// Whether early data can be sent.
    pub open spec fn early(self) -> bool {
        self.keys.zero_rtt is Some && self.keys.epochs.application is None
    }

    pub open spec fn probe_size(self) -> Option<u64> {
        let search = self.egress.pmtud;
        if search.done || search.in_flight is Some || search.narrow() {
            None
        } else {
            Some(((search.current + search.upper_bound) / 2) as u64)
        }
    }

    /// Whether anything waits to be sent.
    pub open spec fn has_pending_output(self) -> bool {
        !self.egress.closed && (self.egress.pto_probe_allowance != 0 || self.epoch_pending(
            Epoch::Initial,
        ) || (self.early() && self.streams.send_schedule.len() > 0) || self.epoch_pending(
            Epoch::Handshake,
        ) || (self.keys.epochs.application is Some && (self.egress.pending_close is Some
            || self.control.overflowed || self.received.application.ack_pending
            || self.egress.datagrams.len() > 0 || self.egress.owed.len() > 0
            || self.streams.limits.any_dirty() || self.streams.control_schedule.len() > 0
            || self.control.records.len() > 0 || self.crypto.application.has_sendable()
            || self.streams.journal.retry_groups.len() > 0 || self.streams.send_schedule.len() > 0
            || self.probe_size() is Some)))
    }

    /// Whether something of the streams can be sent.
    pub open spec fn stream_sendable(self) -> bool {
        self.streams.any_sendable(
            self.control,
            sent_controls(self.egress.packets.packets, Epoch::Application),
        )
    }

    /// Whether anything that waits can be sent, as far as the limits of the peer
    /// and the room for control records go.
    pub open spec fn has_sendable_output(self) -> bool {
        self.egress.pto_probe_allowance != 0 || self.epoch_pending(Epoch::Initial) || (
        self.early() && self.stream_sendable()) || self.epoch_pending(Epoch::Handshake) || (
        self.keys.epochs.application is Some && (self.egress.pending_close is Some
            || self.control.overflowed || self.received.application.ack_pending
            || self.egress.datagrams.len() > 0 || (self.egress.owed.len() > 0
            && self.control.has_room()) || ((self.streams.limits.any_dirty()
            || self.streams.control_schedule.len() > 0) && self.control.has_room())
            || self.control.records.len() > 0 || self.crypto.application.has_sendable()
            || self.stream_sendable() || self.probe_size() is Some))
    }

    /// When to look again whether something can be sent, given when a timer is
    /// due.
    pub open spec fn deadline(self, now: Instant, timer: Option<Instant>) -> Option<Instant> {
        let allowed = self.egress.peer_address_validated || self.amplification_left() != 0;
        if !self.has_pending_output() {
            None
        } else if self.egress.pto_probe_allowance != 0 {
            if allowed {
                Some(now)
            } else {
                None
            }
        } else if !self.has_sendable_output() {
            timer
        } else if self.egress.datagrams.len() > 0 && self.egress.datagram_congestion_control
            == CongestionControl::Uncongested {
            Some(now)
        } else if !allowed || self.egress.cc.bytes_in_flight >= self.egress.cc.cwnd {
            timer
        } else {
            Some(
                if self.egress.release > now {
                    self.egress.release
                } else {
                    now
                },
            )
        }
    }
}

/// No packet is longer than what the peer may be sent, and before its address is
/// validated that is three times what came from it, all packets together.
pub proof fn law_amplification(connection: ConnModel, requested: int)
    requires
        !connection.egress.peer_address_validated,
        connection.ceiling(requested) is Some,
    ensures
        connection.egress.amplification_sent + connection.ceiling(requested)->0
            <= AMPLIFICATION_FACTOR * connection.egress.amplification_received,
        connection.ceiling(requested)->0 <= requested,
{
}

impl Connection {
    /// How many more bytes may go to the peer.
    pub fn anti_amplification_remaining(&self) -> (remaining: u64)
        ensures
            remaining == self@.amplification_left(),
    {
        if self.egress.peer_address_validated {
            return u64::MAX;
        }
        saturating_mul(self.egress.amplification_received, AMPLIFICATION_FACTOR).saturating_sub(
            self.egress.amplification_sent,
        )
    }

    /// Whether anything may go to the peer.
    pub fn anti_amplification_allows(&self) -> (allows: bool)
        ensures
            allows == (self@.egress.peer_address_validated || self@.amplification_left() != 0),
    {
        self.egress.peer_address_validated || self.anti_amplification_remaining() != 0
    }

    /// Whether a packet may be sent.
    pub fn allows_emit_for(&self, cargo: Cargo, now: Instant) -> (allows: bool)
        ensures
            allows == self@.allows(cargo, now),
    {
        if !self.anti_amplification_allows() {
            return false;
        }
        match cargo {
            Cargo::CryptoOrAck => self.egress.cc.allows_send() && self.egress.pacer.allows_send(now),
            Cargo::DatagramOnly => match self.egress.datagram_congestion_control {
                CongestionControl::Standard => self.egress.cc.allows_send()
                    && self.egress.pacer.allows_send(now),
                CongestionControl::Uncongested => true,
            },
        }
    }

    /// How long a packet may be, if one may be sent.
    pub fn emission_ceiling(&self, requested: usize) -> (ceiling: Option<usize>)
        ensures
            match ceiling {
                Some(ceiling) => self@.ceiling(requested as int) == Some(ceiling as int),
                None => self@.ceiling(requested as int) is None,
            },
    {
        let remaining: u64 = self.anti_amplification_remaining();
        let ceiling: usize = if (requested as u64) < remaining {
            requested
        } else {
            remaining as usize
        };
        if ceiling != 0 {
            Some(ceiling)
        } else {
            None
        }
    }

    fn epoch_pending(&self, epoch: Epoch) -> (pending: bool)
        ensures
            pending == self@.epoch_pending(epoch),
    {
        self.has_write_key(epoch) && (self.has_crypto(epoch) || self.ack_pending(epoch))
    }

    /// Whether handshake bytes of an epoch wait.
    pub fn has_crypto(&self, epoch: Epoch) -> (has: bool)
        ensures
            has == self@.crypto.of(epoch).has_sendable(),
    {
        self.crypto.get(epoch).has_sendable()
    }

    /// Whether an acknowledgement of an epoch is owed.
    pub fn ack_pending(&self, epoch: Epoch) -> (pending: bool)
        ensures
            pending == self@.received.of(epoch).ack_pending,
    {
        self.received.get(epoch).ack_pending()
    }

    fn early(&self) -> (early: bool)
        ensures
            early == self@.early(),
    {
        self.keys.zero_rtt.is_some() && self.keys.epochs.application.is_none()
    }

    /// The size of the next packet that tells how long packets can be.
    pub fn next_probe(&self) -> (size: Option<u64>)
        requires
            self.wf(),
        ensures
            size == self@.probe_size(),
    {
        self.egress.pmtud.next_probe()
    }

    /// Whether anything waits to be sent.
    pub fn has_pending_output(&self) -> (pending: bool)
        requires
            self.wf(),
        ensures
            pending == self@.has_pending_output(),
    {
        if self.egress.closed {
            return false;
        }
        if self.egress.pto_probe_allowance != 0 || self.epoch_pending(Epoch::Initial) {
            return true;
        }
        if (self.early() && self.streams.has_scheduled()) || self.epoch_pending(Epoch::Handshake) {
            return true;
        }
        self.has_write_key(Epoch::Application) && (self.egress.pending_close.is_some()
            || self.control.overflowed() || self.ack_pending(Epoch::Application)
            || self.egress.pending_datagrams.len() > 0 || self.egress.owed.len() > 0
            || self.streams.receive_controls_pending() || !self.control.is_empty()
            || self.has_crypto(Epoch::Application) || self.streams.has_retransmit()
            || self.streams.has_scheduled() || self.next_probe().is_some())
    }

    fn stream_sendable(&self) -> (sendable: bool)
        requires
            self.wf(),
        ensures
            sendable == self@.stream_sendable(),
    {
        let in_flight = self.egress.packets.sent_controls(Epoch::Application);
        self.streams.has_sendable_stream(&self.control, &in_flight)
    }

    /// Whether anything that waits can be sent.
    pub fn has_sendable_output(&self) -> (sendable: bool)
        requires
            self.wf(),
        ensures
            sendable == self@.has_sendable_output(),
    {
        self.egress.pto_probe_allowance != 0 || self.epoch_pending(Epoch::Initial) || (
        self.early() && self.stream_sendable()) || self.epoch_pending(Epoch::Handshake) || (
        self.has_write_key(Epoch::Application) && (self.egress.pending_close.is_some()
            || self.control.overflowed() || self.ack_pending(Epoch::Application)
            || self.egress.pending_datagrams.len() > 0 || (self.egress.owed.len() > 0
            && self.control.has_room()) || self.streams.receive_controls_sendable(&self.control)
            || !self.control.is_empty() || self.has_crypto(Epoch::Application)
            || self.stream_sendable() || self.next_probe().is_some()))
    }

    /// When to look again whether something can be sent, given when a timer is
    /// due.
    pub fn send_deadline(&self, now: Instant, timer: Option<Instant>) -> (deadline: Option<Instant>)
        requires
            self.wf(),
        ensures
            deadline == self@.deadline(now, timer),
    {
        if !self.has_pending_output() {
            return None;
        }
        if self.egress.pto_probe_allowance != 0 {
            return if self.anti_amplification_allows() {
                Some(now)
            } else {
                None
            };
        }
        if !self.has_sendable_output() {
            return timer;
        }
        if self.egress.pending_datagrams.len() > 0 && self.egress.datagram_congestion_control
            == CongestionControl::Uncongested {
            return Some(now);
        }
        if !self.anti_amplification_allows() || !self.egress.cc.allows_send() {
            return timer;
        }
        let release: Instant = self.egress.pacer.next_release_time();
        if release > now {
            Some(release)
        } else {
            Some(now)
        }
    }
}

/// Before its address is validated a peer is sent at most three times what came from it;
/// afterwards as much as there is.
pub proof fn law_three_times(connection: ConnModel, requested: int)
    requires
        3 * connection.egress.amplification_received <= u64::MAX,
        requested >= 0,
    ensures
        ({
            let rest = 3 * connection.egress.amplification_received
                - connection.egress.amplification_sent;
            let most = if connection.egress.peer_address_validated {
                u64::MAX as int
            } else if rest > 0 {
                rest
            } else {
                0
            };
            &&& connection.amplification_left() == most
            &&& connection.ceiling(requested) == if requested == 0 || most == 0 {
                None
            } else {
                Some(
                    if requested < most {
                        requested
                    } else {
                        most
                    },
                )
            }
        }),
{
}

/// A packet may go only where the peer's address allows it, and, unless it carries datagrams
/// that no window holds back, only below the congestion window and when the pacer lets it.
pub proof fn law_what_holds_back(connection: ConnModel, cargo: Cargo, now: Instant)
    ensures
        connection.allows(cargo, now) ==> connection.amplification_left() > 0,
        connection.allows(Cargo::CryptoOrAck, now) ==> connection.egress.cc.bytes_in_flight
            < connection.egress.cc.cwnd && (connection.egress.burst > 0 || connection.egress.release
            <= now),
        connection.allows(Cargo::CryptoOrAck, now) ==> connection.allows(Cargo::DatagramOnly, now),
        connection.egress.datagram_congestion_control == CongestionControl::Standard ==> connection.allows(
            Cargo::DatagramOnly,
            now,
        ) == connection.allows(Cargo::CryptoOrAck, now),
        connection.egress.datagram_congestion_control == CongestionControl::Uncongested ==> connection.allows(
            Cargo::DatagramOnly,
            now,
        ) == (connection.amplification_left() > 0),
        connection.amplification_left() > 0 && connection.egress.cc.bytes_in_flight
            < connection.egress.cc.cwnd && connection.egress.release <= now
            ==> connection.allows(cargo, now),
{
}

/// A connection is looked at again no earlier than now, unless its timer is due earlier, and
/// not at all where nothing waits. What can go at once is looked at now; what waits for the
/// pacer, when that lets it go.
pub proof fn law_when_to_look(connection: ConnModel, now: Instant, timer: Option<Instant>)
    ensures
        connection.egress.closed ==> connection.deadline(now, timer) is None,
        !connection.has_pending_output() ==> connection.deadline(now, timer) is None,
        connection.deadline(now, timer) matches Some(at) ==> at >= now || timer == Some(at),
        connection.has_pending_output() && connection.has_sendable_output()
            && connection.allows(Cargo::CryptoOrAck, now) && connection.egress.release <= now
            ==> connection.deadline(now, timer) == Some(now),
        connection.has_pending_output() && connection.has_sendable_output()
            && connection.egress.pto_probe_allowance == 0 && connection.egress.datagrams.len() == 0
            && connection.amplification_left() > 0 && connection.egress.cc.bytes_in_flight
            < connection.egress.cc.cwnd && connection.egress.release > now
            ==> connection.deadline(now, timer) == Some(connection.egress.release),
        connection.has_pending_output() && connection.egress.pto_probe_allowance > 0
            ==> connection.deadline(now, timer) == if connection.amplification_left() > 0 {
            Some(now)
        } else {
            None
        },
        connection.has_pending_output() && connection.egress.pto_probe_allowance == 0
            && connection.egress.datagrams.len() == 0 && connection.amplification_left() == 0
            ==> connection.deadline(now, timer) == timer,
{
}

} // verus!
