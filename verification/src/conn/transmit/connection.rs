//! The state of a connection that decides what it sends.
use vstd::prelude::*;

use crate::clock::Instant;
use crate::conn::control::{Control, Pending, PendingModel};
use crate::conn::streams::state::{State, StateModel};
use crate::conn::transmit::crypto::{CryptoModel, CryptoStream, Epoch};
use crate::conn::transmit::packets::{Packets, PacketsModel};
use crate::conn::transmit::path::{LocalCid, Path};
use crate::errors::TrySendError;
use crate::new_reno::NewReno;
use crate::pacer::Pacer;
use crate::packet_protection::PacketProtection;
use crate::pmtud::{Pmtud, SearchModel, SEARCH_DONE_INTERVAL};
use crate::pn_space::{PnSpace, Receive, ReceiveModel};
use crate::rtt::RttTracker;

verus! {

/// Whether datagrams wait for the congestion window.
#[derive(Debug, Clone, Copy, PartialEq, Eq, Structural)]
pub enum CongestionControl {
    Standard,
    Uncongested,
}

/// Which datagrams are queued.
#[derive(Debug, Clone, Copy, PartialEq, Eq, Structural)]
pub struct DatagramLimits {
    /// The longest datagram that the peer takes, if it takes any.
    pub max_len: Option<usize>,
    /// How many datagrams can wait.
    pub capacity: usize,
}

/// Why a connection is to be closed.
#[derive(Debug)]
pub struct PendingClose {
    pub is_application: bool,
    pub error_code: u64,
    pub frame_type: u64,
    pub reason: Vec<u8>,
}

/// Why a connection is to be closed, over sequences.
#[verifier::ext_equal]
pub struct CloseModel {
    pub is_application: bool,
    pub error_code: u64,
    pub frame_type: u64,
    pub reason: Seq<u8>,
}

impl View for PendingClose {
    type V = CloseModel;

    open spec fn view(&self) -> CloseModel {
        CloseModel {
            is_application: self.is_application,
            error_code: self.error_code,
            frame_type: self.frame_type,
            reason: self.reason@,
        }
    }
}

/// One value for each epoch.
pub struct Epochs<T> {
    pub initial: T,
    pub handshake: T,
    pub application: T,
}

impl<T> Epochs<T> {
    pub open spec fn of(self, epoch: Epoch) -> T {
        match epoch {
            Epoch::Initial => self.initial,
            Epoch::Handshake => self.handshake,
            Epoch::Application => self.application,
        }
    }

    pub open spec fn with(self, epoch: Epoch, value: T) -> Epochs<T> {
        match epoch {
            Epoch::Initial => Epochs { initial: value, ..self },
            Epoch::Handshake => Epochs { handshake: value, ..self },
            Epoch::Application => Epochs { application: value, ..self },
        }
    }

    pub fn get(&self, epoch: Epoch) -> (value: &T)
        ensures
            *value == self.of(epoch),
    {
        match epoch {
            Epoch::Initial => &self.initial,
            Epoch::Handshake => &self.handshake,
            Epoch::Application => &self.application,
        }
    }

    pub fn get_mut(&mut self, epoch: Epoch) -> (value: &mut T)
        ensures
            *value == old(self).of(epoch),
            *final(self) == old(self).with(epoch, *final(value)),
    {
        match epoch {
            Epoch::Initial => &mut self.initial,
            Epoch::Handshake => &mut self.handshake,
            Epoch::Application => &mut self.application,
        }
    }
}

/// The keys under which packets are sent.
pub struct WriteKeys {
    pub epochs: Epochs<Option<PacketProtection>>,
    pub zero_rtt: Option<PacketProtection>,
}

/// What is known of sending.
pub struct Egress {
    pub closed: bool,
    pub spaces: Epochs<PnSpace>,
    pub cc: NewReno,
    pub pacer: Pacer,
    pub rtt: RttTracker,
    pub pmtud: Pmtud,
    pub pmtud_probe_pn: Option<u64>,
    /// How many packets may still be sent to learn whether the peer is there.
    pub pto_probe_allowance: u32,
    pub pto_probe_epoch: Option<Epoch>,
    /// How many bytes came from, and went to, an address that was not validated.
    pub amplification_received: u64,
    pub amplification_sent: u64,
    pub peer_address_validated: bool,
    pub pending_datagrams: Vec<Vec<u8>>,
    pub datagram_congestion_control: CongestionControl,
    pub pending_close: Option<PendingClose>,
    pub last_activity: Instant,
    pub ack_eliciting_sent_since_last_receive: bool,
    pub sent_initial: bool,
    pub packets: Packets,
    /// Control records that are to be queued once there is room.
    pub owed: Vec<Control>,
}

/// What is known of sending, over sequences.
#[verifier::ext_equal]
pub struct EgressModel {
    pub closed: bool,
    pub spaces: Epochs<PnSpace>,
    pub cc: NewReno,
    /// When the pacer lets the next packet go, and how many may go at once.
    pub release: Instant,
    pub burst: nat,
    pub rtt: RttTracker,
    pub pmtud: SearchModel,
    pub pmtud_probe_pn: Option<u64>,
    pub pto_probe_allowance: u32,
    pub pto_probe_epoch: Option<Epoch>,
    pub amplification_received: u64,
    pub amplification_sent: u64,
    pub peer_address_validated: bool,
    pub datagrams: Seq<Seq<u8>>,
    pub datagram_congestion_control: CongestionControl,
    pub pending_close: Option<CloseModel>,
    pub last_activity: Instant,
    pub ack_eliciting_sent_since_last_receive: bool,
    pub sent_initial: bool,
    pub packets: PacketsModel,
    pub owed: Seq<Control>,
}

/// Buffers as sequences.
pub open spec fn contents(buffers: Seq<Vec<u8>>) -> Seq<Seq<u8>> {
    buffers.map_values(|buffer: Vec<u8>| buffer@)
}

impl View for Egress {
    type V = EgressModel;

    open spec fn view(&self) -> EgressModel {
        EgressModel {
            closed: self.closed,
            spaces: self.spaces,
            cc: self.cc,
            release: self.pacer.release(),
            burst: self.pacer.burst(),
            rtt: self.rtt,
            pmtud: self.pmtud@,
            pmtud_probe_pn: self.pmtud_probe_pn,
            pto_probe_allowance: self.pto_probe_allowance,
            pto_probe_epoch: self.pto_probe_epoch,
            amplification_received: self.amplification_received,
            amplification_sent: self.amplification_sent,
            peer_address_validated: self.peer_address_validated,
            datagrams: contents(self.pending_datagrams@),
            datagram_congestion_control: self.datagram_congestion_control,
            pending_close: match self.pending_close {
                Some(close) => Some(close@),
                None => None,
            },
            last_activity: self.last_activity,
            ack_eliciting_sent_since_last_receive: self.ack_eliciting_sent_since_last_receive,
            sent_initial: self.sent_initial,
            packets: self.packets@,
            owed: self.owed@,
        }
    }
}

/// The path of a connection, over sequences.
#[verifier::ext_equal]
pub struct PathModel {
    pub peer_cid: Seq<u8>,
    pub local_cid: Seq<u8>,
    pub retry_token: Seq<u8>,
    pub local_cids: Seq<LocalCid>,
    pub challenge: Option<[u8; 8]>,
}

impl View for Path {
    type V = PathModel;

    open spec fn view(&self) -> PathModel {
        PathModel {
            peer_cid: self.peer_cid@,
            local_cid: self.local_cid@,
            retry_token: self.retry_token@,
            local_cids: self.local_cids@,
            challenge: self.challenge,
        }
    }
}

/// A connection, as far as sending goes.
pub struct Connection {
    pub is_client: bool,
    /// Whether the peer told its limits.
    pub peer_params_known: bool,
    pub path: Path,
    pub keys: WriteKeys,
    pub crypto: Epochs<CryptoStream>,
    pub received: Epochs<Receive>,
    pub streams: State,
    pub control: Pending,
    pub egress: Egress,
}

/// A connection, as far as sending goes, over sequences.
#[verifier::ext_equal]
pub struct ConnModel {
    pub is_client: bool,
    pub peer_params_known: bool,
    pub path: PathModel,
    pub keys: WriteKeys,
    pub crypto: Epochs<CryptoModel>,
    pub received: Epochs<ReceiveModel>,
    pub streams: StateModel,
    pub control: PendingModel,
    pub egress: EgressModel,
}

impl View for Connection {
    type V = ConnModel;

    open spec fn view(&self) -> ConnModel {
        ConnModel {
            is_client: self.is_client,
            peer_params_known: self.peer_params_known,
            path: self.path@,
            keys: self.keys,
            crypto: Epochs {
                initial: self.crypto.initial@,
                handshake: self.crypto.handshake@,
                application: self.crypto.application@,
            },
            received: Epochs {
                initial: self.received.initial@,
                handshake: self.received.handshake@,
                application: self.received.application@,
            },
            streams: self.streams@,
            control: self.control@,
            egress: self.egress@,
        }
    }
}

impl ConnModel {
    /// Why a datagram is not queued, if it is not.
    pub open spec fn datagram_refusal<T>(
        self,
        limits: DatagramLimits,
        len: int,
        data: T,
    ) -> Option<TrySendError<T>> {
        if self.egress.closed {
            Some(TrySendError::Closed(data))
        } else if limits.max_len is None {
            Some(TrySendError::Unsupported(data))
        } else if len > limits.max_len->0 {
            Some(TrySendError::TooLarge(data))
        } else if self.egress.datagrams.len() >= limits.capacity {
            Some(TrySendError::Full(data))
        } else {
            None
        }
    }

    /// After a datagram was queued.
    pub open spec fn datagram_queued(self, data: Seq<u8>) -> ConnModel {
        ConnModel {
            egress: EgressModel { datagrams: self.egress.datagrams.push(data), ..self.egress },
            ..self
        }
    }
}

impl Connection {
    pub open spec fn wf(&self) -> bool {
        &&& self.crypto.initial.wf()
        &&& self.crypto.handshake.wf()
        &&& self.crypto.application.wf()
        &&& self.received.initial.wf()
        &&& self.received.handshake.wf()
        &&& self.received.application.wf()
        &&& self.streams.wf()
        &&& self.path.retry_token@.len() <= usize::MAX - 128
        &&& self.egress.pmtud@.current + self.egress.pmtud@.upper_bound <= u64::MAX
        &&& self.egress.pmtud@.current + SEARCH_DONE_INTERVAL <= u64::MAX
    }

    /// Whether packets of an epoch can be sent.
    pub fn has_write_key(&self, epoch: Epoch) -> (has: bool)
        ensures
            has == (self@.keys.epochs.of(epoch) is Some),
    {
        self.keys.epochs.get(epoch).is_some()
    }

    /// Queues a datagram, behind those that wait.
    pub fn try_send_datagram(&mut self, data: Vec<u8>, limits: DatagramLimits) -> (result: Result<
        (),
        TrySendError<Vec<u8>>,
    >)
        ensures
            match old(self)@.datagram_refusal(limits, data@.len() as int, data) {
                Some(error) => result == Err::<(), TrySendError<Vec<u8>>>(error) && *final(self)
                    == *old(self),
                None => result is Ok && final(self)@ == old(self)@.datagram_queued(data@),
            },
            old(self).wf() ==> final(self).wf(),
    {
        if self.egress.closed {
            return Err(TrySendError::Closed(data));
        }
        let max_len: usize = match limits.max_len {
            Some(max_len) => max_len,
            None => {
                return Err(TrySendError::Unsupported(data));
            },
        };
        if data.len() > max_len {
            return Err(TrySendError::TooLarge(data));
        }
        if self.egress.pending_datagrams.len() >= limits.capacity {
            return Err(TrySendError::Full(data));
        }
        self.egress.pending_datagrams.push(data);
        assert(self@ =~= old(self)@.datagram_queued(data@));
        Ok(())
    }
}

/// A datagram is queued exactly where the connection is open, the peer takes datagrams of its
/// length, and the queue is not full; it then waits behind all others.
pub proof fn law_datagram_queued(
    connection: ConnModel,
    limits: DatagramLimits,
    data: Seq<u8>,
)
    ensures
        (connection.datagram_refusal(limits, data.len() as int, data) is None) == (
        !connection.egress.closed && limits.max_len is Some && data.len() <= limits.max_len->0
            && connection.egress.datagrams.len() < limits.capacity),
        match connection.datagram_refusal(limits, data.len() as int, data) {
            Some(TrySendError::Closed(back)) => connection.egress.closed && back == data,
            Some(TrySendError::Unsupported(back)) => limits.max_len is None && back == data,
            Some(TrySendError::TooLarge(back)) => data.len() > limits.max_len->0 && back == data,
            Some(TrySendError::Full(back)) => connection.egress.datagrams.len()
                >= limits.capacity && back == data,
            None => true,
        },
        connection.datagram_queued(data).egress.datagrams == connection.egress.datagrams.push(
            data,
        ),
        connection.datagram_queued(data).streams == connection.streams,
        connection.datagram_queued(data).control == connection.control,
{
}

/// What is kept for one epoch is kept apart from the others.
pub proof fn law_epochs_apart<T>(epochs: Epochs<T>, epoch: Epoch, other: Epoch, value: T)
    ensures
        epochs.with(epoch, value).of(epoch) == value,
        other != epoch ==> epochs.with(epoch, value).of(other) == epochs.of(other),
        epochs.of(Epoch::Initial) == epochs.initial,
        epochs.of(Epoch::Handshake) == epochs.handshake,
        epochs.of(Epoch::Application) == epochs.application,
{
}

} // verus!
