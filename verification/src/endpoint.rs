//! How large an endpoint may grow, and what it does next.
use vstd::prelude::*;

use crate::clock::Instant;
use crate::mux::{MAX_CONNECTIONS, MAX_OUTGOING_BYTES, MAX_OUTGOING_CAPACITY};
use crate::pmtud::MAX_PMTU;

verus! {

/// The least room for one packet.
pub const MIN_PACKET_BYTES: usize = 1200;

/// How many connections an endpoint serves, and how much it holds for them.
#[derive(Debug, Clone, Copy)]
pub struct Config {
    pub max_conns: usize,
    pub outgoing_capacity: usize,
    pub outgoing_bytes_capacity: usize,
    pub packet_buffer_slots: u32,
    pub packet_buffer_bytes: u32,
}

/// Why the limits of an endpoint are refused.
#[derive(Debug, Clone, Copy, PartialEq, Eq, Structural)]
pub enum ConfigError {
    Capacity,
    ReceiveBudget,
}

impl ConfigError {
    pub fn message(self) -> (text: &'static str)
        ensures
            text@ == match self {
                ConfigError::Capacity => "invalid endpoint capacity"@,
                ConfigError::ReceiveBudget => "receive byte budget overflow"@,
            },
    {
        match self {
            ConfigError::Capacity => "invalid endpoint capacity",
            ConfigError::ReceiveBudget => "receive byte budget overflow",
        }
    }
}

impl Config {
    /// Whether each limit is in its range.
    pub open spec fn valid(self) -> bool {
        &&& 1 <= self.max_conns <= MAX_CONNECTIONS
        &&& 1 <= self.outgoing_capacity <= MAX_OUTGOING_CAPACITY
        &&& MIN_PACKET_BYTES <= self.outgoing_bytes_capacity <= MAX_OUTGOING_BYTES
        &&& 1 <= self.packet_buffer_slots <= MAX_OUTGOING_CAPACITY
        &&& MIN_PACKET_BYTES <= self.packet_buffer_bytes <= u16::MAX
    }

    /// The limits, if each is in its range.
    pub fn validate(self) -> (result: Result<Config, ConfigError>)
        ensures
            result == if self.valid() {
                Ok(self)
            } else {
                Err(ConfigError::Capacity)
            },
    {
        if self.max_conns == 0 || self.outgoing_capacity == 0 || self.outgoing_bytes_capacity
            < MIN_PACKET_BYTES || self.packet_buffer_slots == 0 || self.packet_buffer_bytes < 1200
            || self.max_conns > MAX_CONNECTIONS || self.outgoing_capacity > MAX_OUTGOING_CAPACITY
            || self.outgoing_bytes_capacity > MAX_OUTGOING_BYTES || self.packet_buffer_slots
            as usize > MAX_OUTGOING_CAPACITY || self.packet_buffer_bytes > 65_535 {
            return Err(ConfigError::Capacity);
        }
        Ok(self)
    }

    /// How many bytes all receive buffers hold.
    pub fn retained_receive_bytes(self) -> (result: Result<usize, ConfigError>)
        ensures
            result == if self.packet_buffer_slots * self.packet_buffer_bytes <= usize::MAX {
                Ok((self.packet_buffer_slots * self.packet_buffer_bytes) as usize)
            } else {
                Err(ConfigError::ReceiveBudget)
            },
    {
        match (self.packet_buffer_slots as usize).checked_mul(self.packet_buffer_bytes as usize) {
            Some(bytes) => Ok(bytes),
            None => Err(ConfigError::ReceiveBudget),
        }
    }
}

/// The receive buffers of an endpoint whose limits are valid can be counted.
pub proof fn law_receive_budget(config: Config)
    requires
        config.valid(),
    ensures
        config.packet_buffer_slots * config.packet_buffer_bytes <= u32::MAX,
{
    assert(config.packet_buffer_slots * config.packet_buffer_bytes <= 65_536 * 65_535)
        by (nonlinear_arith)
        requires
            config.packet_buffer_slots <= 65_536,
            config.packet_buffer_bytes <= 65_535,
    ;
}

/// What an endpoint does next.
#[derive(Debug, Clone, Copy, PartialEq, Eq, Structural)]
pub enum Choice {
    /// Hands a packet to the socket.
    Send,
    /// Makes a step of a connection.
    Drive,
}

/// Whether an endpoint has to be woken.
#[derive(Debug, Clone, Copy, PartialEq, Eq, Structural)]
pub enum Progress {
    /// There is nothing to do.
    Quiescent,
    /// There is something to do at once.
    Runnable,
    /// There is something to do at that time.
    Until(Instant),
}

/// Which of sending and driving comes first.
#[derive(Debug, Clone, Copy, PartialEq, Eq, Structural)]
pub struct Pace {
    /// Whether the socket took no more packets.
    pub flush_blocked: bool,
    pub prefer_output: bool,
    /// Whether the endpoint ends.
    pub stopping: bool,
}

impl Pace {
    /// Whether there is a packet that the socket may take.
    pub open spec fn sendable(self, waiting: bool) -> bool {
        waiting && !self.flush_blocked
    }

    /// What comes next, where packets wait or connections have steps to make.
    pub open spec fn next(self, waiting: bool, work: bool) -> Option<Choice> {
        if self.sendable(waiting) && (!work || self.prefer_output) {
            Some(Choice::Send)
        } else if work {
            Some(Choice::Drive)
        } else {
            None
        }
    }

    /// After a choice: where there were two, the other one comes first next time.
    pub open spec fn chosen(self, waiting: bool, work: bool) -> Pace {
        Pace {
            prefer_output: if self.sendable(waiting) && work {
                !self.prefer_output
            } else {
                self.prefer_output
            },
            ..self
        }
    }

    /// Whether the endpoint has to be woken, and when.
    pub open spec fn awaits(
        self,
        complete: bool,
        waiting: bool,
        work: bool,
        deadline: Option<Instant>,
    ) -> Progress {
        if self.stopping {
            if complete {
                Progress::Quiescent
            } else {
                Progress::Runnable
            }
        } else if self.sendable(waiting) || work {
            Progress::Runnable
        } else {
            match deadline {
                Some(time) => Progress::Until(time),
                None => Progress::Quiescent,
            }
        }
    }

    pub fn new() -> (pace: Pace)
        ensures
            pace == (Pace { flush_blocked: false, prefer_output: true, stopping: false }),
    {
        Pace { flush_blocked: false, prefer_output: true, stopping: false }
    }

    /// Whether there is anything to do.
    pub fn has_turn(&self, waiting: bool, work: bool) -> (turn: bool)
        ensures
            turn == (self.next(waiting, work) is Some),
    {
        (waiting && !self.flush_blocked) || work
    }

    /// Chooses what comes next.
    pub fn choose_next(&mut self, waiting: bool, work: bool) -> (choice: Option<Choice>)
        ensures
            choice == old(self).next(waiting, work),
            *final(self) == old(self).chosen(waiting, work),
    {
        let output = waiting && !self.flush_blocked;
        let send = output && (!work || self.prefer_output);
        if output && work {
            self.prefer_output = !self.prefer_output;
        }
        if send {
            Some(Choice::Send)
        } else if work {
            Some(Choice::Drive)
        } else {
            None
        }
    }

    /// Whether the endpoint has to be woken, and when.
    pub fn progress(
        &self,
        complete: bool,
        waiting: bool,
        work: bool,
        deadline: Option<Instant>,
    ) -> (progress: Progress)
        ensures
            progress == self.awaits(complete, waiting, work, deadline),
    {
        if self.stopping {
            return if complete {
                Progress::Quiescent
            } else {
                Progress::Runnable
            };
        }
        if (waiting && !self.flush_blocked) || work {
            return Progress::Runnable;
        }
        match deadline {
            Some(time) => Progress::Until(time),
            None => Progress::Quiescent,
        }
    }
}

/// While there are both packets to send and steps to make, they take turns.
pub proof fn law_turns_alternate(pace: Pace)
    requires
        !pace.flush_blocked,
    ensures
        pace.next(true, true) != pace.chosen(true, true).next(true, true),
        pace.chosen(true, true).chosen(true, true) == pace,
{
}

/// The longest packet of a connection: what is asked for, what a buffer holds, and what
/// a datagram can hold.
pub fn capped_pmtu(max_pmtu: u64, packet_buffer_bytes: u32) -> (capped: u64)
    ensures
        capped <= max_pmtu,
        capped <= packet_buffer_bytes,
        capped <= MAX_PMTU,
        capped == max_pmtu || capped == packet_buffer_bytes || capped == MAX_PMTU,
{
    let mut capped: u64 = max_pmtu;
    if (packet_buffer_bytes as u64) < capped {
        capped = packet_buffer_bytes as u64;
    }
    if MAX_PMTU < capped {
        capped = MAX_PMTU;
    }
    capped
}

/// A packet is chosen only where one waits and the socket takes it, a step only where one is
/// to be made, and nothing only where there is neither.
pub proof fn law_choice_is_possible(pace: Pace, waiting: bool, work: bool)
    ensures
        pace.next(waiting, work) == Some(Choice::Send) ==> waiting && !pace.flush_blocked,
        pace.next(waiting, work) == Some(Choice::Drive) ==> work,
        pace.next(waiting, work) is None ==> !work && (!waiting || pace.flush_blocked),
        waiting && !pace.flush_blocked && !work ==> pace.next(waiting, work) == Some(Choice::Send),
        pace.chosen(waiting, work).flush_blocked == pace.flush_blocked,
        pace.chosen(waiting, work).stopping == pace.stopping,
        !(waiting && !pace.flush_blocked && work) ==> pace.chosen(waiting, work) == pace,
{
}

/// An endpoint that has something to do runs; one that waits for a time is woken then; one
/// that ends runs until all is done.
pub proof fn law_when_to_wake(
    pace: Pace,
    complete: bool,
    waiting: bool,
    work: bool,
    deadline: Option<Instant>,
)
    ensures
        pace.stopping ==> pace.awaits(complete, waiting, work, deadline) == if complete {
            Progress::Quiescent
        } else {
            Progress::Runnable
        },
        !pace.stopping && pace.next(waiting, work) is Some ==> pace.awaits(
            complete,
            waiting,
            work,
            deadline,
        ) == Progress::Runnable,
        !pace.stopping && pace.next(waiting, work) is None ==> match deadline {
            Some(time) => pace.awaits(complete, waiting, work, deadline) == Progress::Until(time),
            None => pace.awaits(complete, waiting, work, deadline) == Progress::Quiescent,
        },
{
}

/// The limits that an endpoint is given are valid exactly in these ranges.
pub proof fn law_config_ranges(config: Config)
    ensures
        config.valid() == (1 <= config.max_conns <= 65_536 && 1 <= config.outgoing_capacity
            <= 65_536 && 1200 <= config.outgoing_bytes_capacity <= 1_073_741_824 && 1
            <= config.packet_buffer_slots <= 65_536 && 1200 <= config.packet_buffer_bytes
            <= 65_535),
{
}

} // verus!
