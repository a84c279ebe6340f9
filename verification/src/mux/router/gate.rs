//! Datagrams that come in: which connection they are for, and what becomes of those
//! that are for none.
use vstd::prelude::*;

use crate::clock::Instant;
use crate::frame::put_bytes;
use crate::mux::cid_table::LocalCidKey;
use crate::mux::output::{reserve, Outgoing, PacketRequest, StorageModel};
use crate::mux::reset_index::Token;
use crate::mux::router::drive::{lemma_slot_sound, lemma_turns_sound};
use crate::mux::router::protocol::with_gone;
use crate::mux::router::{first_unused, Router, RouterModel, Slot};
use crate::mux::setup::{
    dcid, dcid_of, is_initial, least, looks_initial, reset_blank, reset_drawn, reset_of,
    ServerConfig, MIN_RESET_LEN,
};
use crate::mux::{Handle, MAX_CIDS_PER_CONN, ROUTED_CID_LEN};
use crate::packet::long::InitialHeader;
use crate::packet::model::{parse_layout, retry_aad, retry_header, LayoutModel};
use crate::packet::retry::{integrity_tag_of, Retry};
use crate::packet::{ConnectionId, ConnectionIdRef, LongType, QUIC_V1, RETRY_INTEGRITY_TAG_LEN};
use crate::primitives::fill_random;
use crate::secrets::{
    PeerAddress, RetryTokenSecret, StatelessResetSecret, RETRY_TOKEN_FIXED_LEN,
};

verus! {

/// How long a retry token is accepted, in seconds.
pub const RETRY_TOKEN_LIFETIME: u64 = 10;

/// How many times as much as came in may be sent in answer to it.
pub const ANSWER_FACTOR: usize = 3;

/// The length of the shortest datagram that is answered by a stateless reset.
pub const MIN_RESET_TRIGGER: usize = 23;

/// The length of the shortest datagram that is read as a stateless reset.
pub const MIN_RESET_DATAGRAM: usize = 21;

/// Why a datagram was not taken.
#[derive(Debug, Clone, Copy, PartialEq, Eq, Structural)]
pub enum Error {
    HeaderDecode,
    ConnectionIdLimit,
    PacketCeiling,
    EventCapacity,
    Tls,
}

/// What becomes of a client that is not known.
#[derive(Debug)]
pub enum RetryGate {
    /// It is let in, with the connection ID that it chose first if it was sent a Retry.
    Accept(Option<ConnectionId>),
    IssuedRetry,
    Drop,
}

/// What becomes of a datagram.
#[derive(Debug)]
pub enum Routed {
    Ignored,
    /// It is for a connection, under one of our connection IDs.
    Deliver(Handle, Option<LocalCidKey>),
    /// It is from a new client.
    Accept(Option<ConnectionId>),
}

/// The largest length of an answer to a datagram.
pub open spec fn answer_ceiling(max_pmtu: u16, out: StorageModel, received: int) -> int {
    least(least(max_pmtu as int, out.bytes_capacity), ANSWER_FACTOR * received)
}

/// The Retry packet that answers a client: its connection IDs, ours, and a token.
pub open spec fn retry_content(
    dcid: Seq<u8>,
    scid: Seq<u8>,
    local_cid: Seq<u8>,
    token: Seq<u8>,
) -> Option<Seq<u8>> {
    let header = retry_header(QUIC_V1, scid, local_cid, token);
    match integrity_tag_of(retry_aad(dcid, header)) {
        Some(tag) => Some(header + tag@),
        None => None,
    }
}

/// How long the Retry packet is that answers a client.
pub open spec fn retry_len(dcid: Seq<u8>, scid: Seq<u8>, local_cid: Seq<u8>) -> int {
    7 + scid.len() + local_cid.len() + RETRY_TOKEN_FIXED_LEN + dcid.len() + RETRY_INTEGRITY_TAG_LEN
}

/// Until when a token is accepted that is given out now.
pub open spec fn retry_expiry(now_secs: u64) -> u64 {
    if now_secs + RETRY_TOKEN_LIFETIME > u64::MAX {
        u64::MAX
    } else {
        (now_secs + RETRY_TOKEN_LIFETIME) as u64
    }
}

/// What a Retry is made with.
pub struct RetryRequest {
    pub request: PacketRequest,
    pub local_cid: ConnectionId,
}

/// What a stateless reset is made with.
pub struct ResetRequest {
    pub request: PacketRequest,
    pub token: Token,
    pub len: usize,
}

impl<S> RouterModel<S> {
    /// The connections after another output.
    pub open spec fn with_output(self, output: StorageModel) -> RouterModel<S> {
        RouterModel { output, ..self }
    }

    /// Whether one packet was put in, behind all others.
    pub open spec fn queued_for(
        self,
        addr: PeerAddress,
        content: Seq<u8>,
        after: RouterModel<S>,
    ) -> bool {
        exists|item: Outgoing|
            {
                &&& #[trigger] self.output.takes(item)
                &&& item.wf()
                &&& item.to() == addr
                &&& item.content() == content
                &&& item.count() == 1
                &&& after == self.with_output(self.output.pushed(item))
            }
    }

    /// After a buffer was handed out.
    pub open spec fn buffer_taken(self) -> RouterModel<S> {
        self.with_output(self.output.buffer_taken())
    }

    /// After a buffer was given back.
    pub open spec fn buffer_back(self) -> RouterModel<S> {
        self.with_output(self.output.recycled())
    }

    /// Whether a packet was put in, in a buffer that was handed out for it.
    pub open spec fn answered(
        self,
        addr: PeerAddress,
        content: Seq<u8>,
        after: RouterModel<S>,
    ) -> bool {
        self.buffer_taken().queued_for(addr, content, after)
    }

    /// After a buffer was asked for and not filled.
    pub open spec fn unanswered(self) -> RouterModel<S> {
        self.buffer_taken().buffer_back()
    }

    /// The connection ID for the Retry that answers a client, where one can be made and
    /// the answer has room; and the state after that.
    pub open spec fn retry_due(
        self,
        config: ServerConfig,
        dcid: Seq<u8>,
        scid: Seq<u8>,
        received: int,
    ) -> (RouterModel<S>, Option<Seq<u8>>) {
        let (found, counter) = first_unused(
            self.cids,
            self.cid_counter,
            config.cid_prefix,
            self.registry.active() * MAX_CIDS_PER_CONN + 1,
        );
        let m = RouterModel { cid_counter: counter, ..self };
        match found {
            Some(cid) if m.output.packet_fits(
                retry_len(dcid, scid, cid),
                answer_ceiling(config.max_pmtu, m.output, received),
            ) => (m, Some(cid)),
            _ => (m, None),
        }
    }

    /// Whether a client without a token was answered with a Retry, or could not be.
    pub open spec fn retried(
        self,
        config: ServerConfig,
        secret: [u8; 32],
        from: PeerAddress,
        received: int,
        layout: LayoutModel,
        now_secs: u64,
        after: RouterModel<S>,
        sent: bool,
    ) -> bool {
        let (m, due) = self.retry_due(config, layout.prefix.dcid, layout.prefix.scid, received);
        match due {
            None => after == m && !sent,
            Some(cid) => if sent {
                let token = (RetryTokenSecret { key: secret }).token(
                    from,
                    layout.prefix.dcid,
                    retry_expiry(now_secs),
                );
                match retry_content(layout.prefix.dcid, layout.prefix.scid, cid, token) {
                    Some(content) => m.answered(from, content, after),
                    None => false,
                }
            } else {
                after == m.unanswered()
            },
        }
    }

    /// Whether it was settled what becomes of a client that is not known.
    pub open spec fn gated(
        self,
        from: PeerAddress,
        data: Seq<u8>,
        now_secs: u64,
        after: RouterModel<S>,
        result: Result<RetryGate, Error>,
    ) -> bool {
        match self.server {
            None => after == self && (result matches Err(error) && error == Error::HeaderDecode),
            Some(config) => match config.retry_token_secret {
                Some(secret) if config.require_address_validation => match parse_layout(
                    data,
                    LongType::Initial,
                ) {
                    Err(_) => after == self && (result matches Err(error) && error
                        == Error::HeaderDecode),
                    Ok(layout) => if layout.token->0.len() > 0 {
                        let accepted = (RetryTokenSecret { key: secret }).accepted(
                            from,
                            layout.token->0,
                            now_secs,
                        );
                        &&& after == self
                        &&& match result {
                            Ok(RetryGate::Accept(Some(odcid))) => accepted == Some(odcid@),
                            Ok(RetryGate::Drop) => accepted is None,
                            _ => false,
                        }
                    } else {
                        &&& result is Ok
                        &&& result->Ok_0 is IssuedRetry || result->Ok_0 is Drop
                        &&& self.retried(
                            config,
                            secret,
                            from,
                            data.len() as int,
                            layout,
                            now_secs,
                            after,
                            result->Ok_0 is IssuedRetry,
                        )
                    },
                },
                _ => after == self && (result matches Ok(RetryGate::Accept(odcid))
                    && odcid is None),
            },
        }
    }

    /// How long the stateless reset is that answers a datagram, if it is answered, and
    /// which connection ID it is for.
    pub open spec fn reset_due(self, trigger: Seq<u8>) -> Option<(int, Seq<u8>, [u8; 32])> {
        match (self.server, dcid_of(trigger, ROUTED_CID_LEN as int)) {
            (Some(config), Some(dcid)) => match config.stateless_reset_secret {
                Some(secret) => {
                    let ceiling = answer_ceiling(
                        config.max_pmtu,
                        self.output,
                        trigger.len() as int,
                    );
                    let len = least(trigger.len() - 1, ceiling);
                    if trigger.len() >= MIN_RESET_TRIGGER && ceiling >= MIN_RESET_LEN
                        && self.output.packet_fits(len, ceiling) {
                        Some((len, dcid, secret))
                    } else {
                        None
                    }
                },
                None => None,
            },
            _ => None,
        }
    }

    /// Whether a datagram was answered by a stateless reset, or could not be.
    pub open spec fn reset_sent(
        self,
        from: PeerAddress,
        trigger: Seq<u8>,
        after: RouterModel<S>,
        sent: bool,
    ) -> bool {
        match self.reset_due(trigger) {
            None => after == self && !sent,
            Some((len, dcid, secret)) => if sent {
                let token = (StatelessResetSecret { key: secret }).token(dcid);
                exists|random: Seq<u8>|
                    random.len() == len && self.answered(
                        from,
                        #[trigger] reset_of(random, token),
                        after,
                    )
            } else {
                after == self.unanswered()
            },
        }
    }

    /// The connection that a datagram resets: the token at its end is one of its peer's,
    /// and the datagram comes from that peer.
    pub open spec fn reset_target(self, from: PeerAddress, datagram: Seq<u8>) -> Option<Handle> {
        if datagram.len() < MIN_RESET_DATAGRAM {
            None
        } else {
            let token = token_at_end(datagram);
            match self.resets.get(token) {
                Some(handle) if self.registry.at(handle.index as int).peer_addr == from => Some(
                    handle,
                ),
                _ => None,
            }
        }
    }

    /// Whether the datagram that resets a connection was taken: the connection is closed
    /// and is to be looked at.
    pub open spec fn was_reset(
        self,
        handle: Handle,
        now: Instant,
        after: RouterModel<S>,
    ) -> bool {
        let index = handle.index as int;
        exists|slot: Slot<S>|
            {
                let before = self.registry.at(index);
                &&& slot == (Slot { conn: slot.conn, ..before })
                &&& slot.conn@.egress == (crate::conn::transmit::connection::EgressModel {
                    closed: true,
                    ..before.conn@.egress
                })
                &&& slot.conn@ == (crate::conn::transmit::connection::ConnModel {
                    egress: slot.conn@.egress,
                    ..before.conn@
                })
                &&& after == (RouterModel {
                    registry: #[trigger] self.registry.put(index, slot),
                    ..self
                }).deadline_refreshed(handle, now)
            }
    }

    /// Whether it was settled what becomes of a datagram.
    pub open spec fn routed(
        self,
        from: PeerAddress,
        data: Seq<u8>,
        now: Instant,
        now_secs: u64,
        after: RouterModel<S>,
        result: Result<Routed, Error>,
    ) -> bool {
        let found = match dcid_of(data, ROUTED_CID_LEN as int) {
            Some(dcid) => self.cids.find(dcid),
            None => None,
        };
        if self.shutting_down {
            after == self && (result matches Ok(routed) && routed is Ignored)
        } else {
            match found {
                Some((index, local)) => after == self && (result matches Ok(
                    Routed::Deliver(handle, under),
                ) && handle == self.registry.handle(index) && under == local),
                None => if looks_initial(data) && self.server is Some {
                    if self.registry.active() >= self.registry.max {
                        after == self && (result matches Ok(routed) && routed is Ignored)
                    } else {
                        exists|gate: Result<RetryGate, Error>|
                            {
                                &&& #[trigger] self.gated(from, data, now_secs, after, gate)
                                &&& match gate {
                                    Ok(RetryGate::Accept(odcid)) => result matches Ok(
                                        Routed::Accept(given),
                                    ) && given == odcid,
                                    Ok(_) => result matches Ok(routed) && routed is Ignored,
                                    Err(error) => result matches Err(given) && given == error,
                                }
                            }
                    }
                } else {
                    &&& result matches Ok(routed) && routed is Ignored
                    &&& match self.reset_target(from, data) {
                        Some(handle) => self.was_reset(handle, now, after),
                        None => exists|sent: bool| #[trigger]
                            self.reset_sent(from, data, after, sent),
                    }
                },
            }
        }
    }
}

/// The token at the end of a datagram.
pub open spec fn token_at_end(datagram: Seq<u8>) -> Token {
    choose|token: Token|
        #![trigger token@]
        token@ == datagram.subrange(datagram.len() - 16, datagram.len() as int)
}

proof fn lemma_token_at_end(datagram: Seq<u8>, token: Token)
    requires
        token@ == datagram.subrange(datagram.len() - 16, datagram.len() as int),
    ensures
        token_at_end(datagram) == token,
{
    let found = token_at_end(datagram);
    assert(found@ == token@);
    assert(found =~= token);
}

/// No answer is longer than three times what came in, nor than what may be sent.
pub proof fn law_answers_bounded<S>(m: RouterModel<S>, max_pmtu: u16, len: int, received: int)
    requires
        m.output.packet_fits(len, answer_ceiling(max_pmtu, m.output, received)),
    ensures
        len <= ANSWER_FACTOR * received,
        len <= max_pmtu,
        len <= m.output.bytes_capacity,
{
}

/// Where a client is to be answered with a Retry the answer has room: it is sent once there
/// is memory for it and its tag can be computed.
pub proof fn law_retry_has_room<S>(
    m: RouterModel<S>,
    config: ServerConfig,
    dcid: Seq<u8>,
    scid: Seq<u8>,
    received: int,
)
    requires
        m.retry_due(config, dcid, scid, received).1 is Some,
    ensures
        ({
            let (next, due) = m.retry_due(config, dcid, scid, received);
            next.buffer_taken().output.has_room_for(retry_len(dcid, scid, due->0))
        }),
{
}

/// Where a datagram is to be answered by a stateless reset the answer has room: it is sent
/// once there is memory for it and random bytes are had.
pub proof fn law_reset_has_room<S>(m: RouterModel<S>, trigger: Seq<u8>)
    requires
        m.reset_due(trigger) is Some,
    ensures
        m.buffer_taken().output.has_room_for((m.reset_due(trigger)->0).0),
        (m.reset_due(trigger)->0).0 >= MIN_RESET_LEN,
{
}

/// A stateless reset is shorter than the datagram that it answers, so that two peers
/// never answer each other for ever.
pub proof fn law_resets_shrink<S>(m: RouterModel<S>, trigger: Seq<u8>)
    requires
        m.reset_due(trigger) is Some,
    ensures
        (m.reset_due(trigger)->0).0 < trigger.len(),
        (m.reset_due(trigger)->0).0 >= MIN_RESET_LEN,
{
}

impl<S> Router<S> {
    /// What differs from a state in order by what waits to go out only is in order.
    proof fn keep_answers(&self, m: RouterModel<S>)
        requires
            m.sound(),
            self@ == m.with_output(self@.output),
            self@.output.within(),
        ensures
            self@.sound(),
    {
        let after = self@;
        assert(after.queue_sound(after.notify));
        assert(after.queue_sound(after.flush));
        assert(after.queue_sound(after.reap));
        lemma_turns_sound(m, after);
    }

    fn ceiling(&self, max_pmtu: u16, received: usize) -> (ceiling: usize)
        ensures
            ceiling == answer_ceiling(max_pmtu, self@.output, received as int),
    {
        let mut ceiling: usize = max_pmtu as usize;
        if self.output.bytes_capacity() < ceiling {
            ceiling = self.output.bytes_capacity();
        }
        match received.checked_mul(ANSWER_FACTOR) {
            Some(most) => if most < ceiling {
                most
            } else {
                ceiling
            },
            None => ceiling,
        }
    }

    /// Settles what becomes of a client that is not known: whether it has to show first
    /// that it receives what is sent to it, and whether it did. Memory for what it is sent
    /// may be missing; it is not answered then.
    pub fn maybe_handle_retry_gating(
        &mut self,
        from: PeerAddress,
        data: &[u8],
        now_secs: u64,
    ) -> (result: Result<RetryGate, Error>)
        requires
            old(self).wf(),
        ensures
            final(self).wf(),
            old(self)@.gated(from, data@, now_secs, final(self)@, result),
    {
        let config = match self.server {
            Some(config) => config,
            None => {
                return Err(Error::HeaderDecode);
            },
        };
        if !config.require_address_validation {
            return Ok(RetryGate::Accept(None));
        }
        let key = match config.retry_token_secret {
            Some(key) => key,
            None => {
                return Ok(RetryGate::Accept(None));
            },
        };
        let secret = RetryTokenSecret { key };
        let prefix = match InitialHeader::decode_pre_hp(data) {
            Ok(prefix) => prefix,
            Err(_) => {
                return Err(Error::HeaderDecode);
            },
        };
        if prefix.token.len() > 0 {
            return match secret.validate(&from, prefix.token, now_secs) {
                Some(odcid) => Ok(RetryGate::Accept(Some(odcid))),
                None => Ok(RetryGate::Drop),
            };
        }
        let ghost before = self@;
        let ghost layout = parse_layout(data@, LongType::Initial)->Ok_0;
        let asked = match self.request_retry(config, prefix.dcid, prefix.scid, data.len()) {
            Some(asked) => asked,
            None => {
                return Ok(RetryGate::Drop);
            },
        };
        let storage = self.grant(asked.request);
        let expiry: u64 = now_secs.saturating_add(RETRY_TOKEN_LIFETIME);
        let gate = self.answer_retry(
            storage,
            from,
            prefix.dcid,
            prefix.scid,
            asked.local_cid.as_ref_id(),
            &secret,
            expiry,
        );
        proof {
            let (m, due) = before.retry_due(
                config,
                layout.prefix.dcid,
                layout.prefix.scid,
                data@.len() as int,
            );
            assert(self@ == m.unanswered() || gate is IssuedRetry);
        }
        Ok(gate)
    }

    /// Asks for what a Retry is made with, where it can be sent: a connection ID and a
    /// buffer.
    pub fn request_retry(
        &mut self,
        config: ServerConfig,
        dcid: ConnectionIdRef<'_>,
        scid: ConnectionIdRef<'_>,
        received: usize,
    ) -> (asked: Option<RetryRequest>)
        requires
            old(self).wf(),
        ensures
            final(self).wf(),
            ({
                let (m, due) = old(self)@.retry_due(config, dcid@, scid@, received as int);
                match (due, asked) {
                    (Some(cid), Some(asked)) => {
                        &&& asked.local_cid@ == cid
                        &&& asked.request.buffer@ == Seq::<u8>::empty()
                        &&& asked.request.additional == 1 + dcid@.len() + retry_len(
                            dcid@,
                            scid@,
                            cid,
                        )
                        &&& final(self)@ == m.buffer_taken()
                    },
                    (None, None) => final(self)@ == m,
                    _ => false,
                }
            }),
    {
        let local_cid = match self.gen_cid(config.cid_prefix) {
            Some(cid) => cid,
            None => {
                return None;
            },
        };
        let ghost m = self@;
        let packet_ceiling: usize = self.ceiling(config.max_pmtu, received);
        let pseudo_len: usize = 1 + dcid.len();
        let encoded_len: usize = Retry::prefix_len(scid, local_cid.as_ref_id())
            + RetryTokenSecret::encoded_len(dcid) + RETRY_INTEGRITY_TAG_LEN;
        if !self.output.packet_fits(encoded_len, packet_ceiling) {
            return None;
        }
        let request = self.output.request_packet(pseudo_len + encoded_len);
        proof {
            assert(self@ =~= m.buffer_taken());
            self.keep_answers(m);
        }
        Some(RetryRequest { request, local_cid })
    }

    /// The buffer that was asked for, if there is memory for it; else it is given back.
    fn grant(&mut self, request: PacketRequest) -> (buffer: Option<Vec<u8>>)
        requires
            old(self).wf(),
        ensures
            final(self).wf(),
            match buffer {
                Some(buffer) => buffer@ == request.buffer@ && final(self)@ == old(self)@,
                None => final(self)@ == old(self)@.buffer_back(),
            },
    {
        let ghost m = self@;
        let mut buffer = request.buffer;
        let done = reserve(&mut buffer, request.additional);
        let granted = self.output.packet_granted(buffer, done);
        proof {
            assert(self@ =~= if done {
                m
            } else {
                m.buffer_back()
            });
            self.keep_answers(m);
        }
        granted
    }

    /// Answers a client with a Retry in a buffer, if there is one.
    pub fn answer_retry(
        &mut self,
        storage: Option<Vec<u8>>,
        from: PeerAddress,
        dcid: ConnectionIdRef<'_>,
        scid: ConnectionIdRef<'_>,
        local_cid: ConnectionIdRef<'_>,
        secret: &RetryTokenSecret,
        expiry: u64,
    ) -> (gate: RetryGate)
        requires
            old(self).wf(),
            storage matches Some(storage) ==> storage@.len() == 0,
        ensures
            final(self).wf(),
            match (
                storage,
                retry_content(dcid@, scid@, local_cid@, secret.token(from, dcid@, expiry)),
            ) {
                (None, _) => gate is Drop && final(self)@ == old(self)@,
                (Some(_), None) => gate is Drop && final(self)@ == old(self)@.buffer_back(),
                (Some(_), Some(content)) => {
                    &&& content.len() == retry_len(dcid@, scid@, local_cid@)
                    &&& if old(self)@.output.has_room_for(content.len() as int) {
                        gate is IssuedRetry && old(self)@.queued_for(from, content, final(self)@)
                    } else {
                        gate is Drop && final(self)@ == old(self)@.buffer_back()
                    }
                },
            },
    {
        let ghost m = self@;
        let mut storage = match storage {
            Some(storage) => storage,
            None => {
                return RetryGate::Drop;
            },
        };
        let pseudo_len: usize = 1 + dcid.len();
        storage.push(dcid.len() as u8);
        put_bytes(&mut storage, dcid.into_slice());
        Retry::encode_prefix_into(&mut storage, QUIC_V1, scid, local_cid);
        secret.issue_into(&mut storage, &from, dcid, expiry);
        let ghost token = secret.token(from, dcid@, expiry);
        let ghost header = retry_header(QUIC_V1, scid@, local_cid@, token);
        assert(storage@ =~= retry_aad(dcid@, header));
        let tag = match Retry::tag_from_aad(&storage) {
            Ok(tag) => tag,
            Err(_) => {
                self.output.recycle_packet(storage);
                proof {
                    assert(self@ =~= m.buffer_back());
                    self.keep_answers(m);
                }
                return RetryGate::Drop;
            },
        };
        put_bytes(&mut storage, &tag);
        let ghost content = header + tag@;
        assert(storage@.subrange(pseudo_len as int, storage@.len() as int) =~= content);
        proof {
            crate::wire::lemma_be_bytes_len(QUIC_V1 as nat, 4);
        }
        let item = Outgoing::Suffix(from, storage, pseudo_len);
        let sent = self.send_answer(item);
        if sent {
            RetryGate::IssuedRetry
        } else {
            RetryGate::Drop
        }
    }

    /// Puts one packet in, where it has room.
    fn send_answer(&mut self, item: Outgoing) -> (sent: bool)
        requires
            old(self).wf(),
            item.wf(),
            item.count() == 1,
        ensures
            final(self).wf(),
            sent == old(self)@.output.has_room_for(item.content().len() as int),
            if sent {
                old(self)@.queued_for(item.to(), item.content(), final(self)@)
            } else {
                final(self)@ == old(self)@.buffer_back()
            },
    {
        let ghost m = self@;
        let ghost there = item;
        let sent = self.output.push_packet(item);
        proof {
            assert(self@ =~= m.with_output(
                if sent {
                    m.output.pushed(there)
                } else {
                    m.output.recycled()
                },
            ));
            self.keep_answers(m);
            if sent {
                assert(m.output.takes(there));
            }
        }
        sent
    }

    /// Asks for what a stateless reset is made with, where a datagram is answered by one: a
    /// buffer for as many bytes as it has.
    pub fn request_reset(&mut self, trigger: &[u8]) -> (asked: Option<ResetRequest>)
        requires
            old(self).wf(),
        ensures
            final(self).wf(),
            match (old(self)@.reset_due(trigger@), asked) {
                (Some((len, dcid, secret)), Some(asked)) => {
                    &&& asked.len == len
                    &&& asked.token@ == (StatelessResetSecret { key: secret }).token(dcid)
                    &&& asked.request.buffer@ == Seq::<u8>::empty()
                    &&& asked.request.additional == len
                    &&& final(self)@ == old(self)@.buffer_taken()
                },
                (None, None) => final(self)@ == old(self)@,
                _ => false,
            },
    {
        let ghost m = self@;
        let config = match self.server {
            Some(config) => config,
            None => {
                return None;
            },
        };
        let secret = match config.stateless_reset_secret {
            Some(key) => StatelessResetSecret { key },
            None => {
                return None;
            },
        };
        let cid = match dcid(trigger, ROUTED_CID_LEN) {
            Some(cid) => cid,
            None => {
                return None;
            },
        };
        if trigger.len() < MIN_RESET_TRIGGER {
            return None;
        }
        let packet_ceiling: usize = self.ceiling(config.max_pmtu, trigger.len());
        if packet_ceiling < MIN_RESET_LEN {
            return None;
        }
        let len: usize = if trigger.len() - 1 < packet_ceiling {
            trigger.len() - 1
        } else {
            packet_ceiling
        };
        if !self.output.packet_fits(len, packet_ceiling) {
            return None;
        }
        assert(m.reset_due(trigger@) == Some((len as int, cid@, secret.key)));
        let token = secret.token_for(cid);
        let request = self.output.request_packet(len);
        proof {
            assert(self@ =~= m.buffer_taken());
            self.keep_answers(m);
        }
        Some(ResetRequest { request, token, len })
    }

    /// Answers with a stateless reset of bytes that were drawn into a buffer, if there is
    /// one and they were.
    pub fn answer_reset(
        &mut self,
        buffer: Option<Vec<u8>>,
        drawn: bool,
        from: PeerAddress,
        token: Token,
    ) -> (sent: bool)
        requires
            old(self).wf(),
            buffer matches Some(random) ==> random@.len() >= MIN_RESET_LEN,
        ensures
            final(self).wf(),
            match buffer {
                None => !sent && final(self)@ == old(self)@,
                Some(random) => {
                    &&& sent == (drawn && old(self)@.output.has_room_for(random@.len() as int))
                    &&& if sent {
                        old(self)@.queued_for(from, reset_of(random@, token@), final(self)@)
                    } else {
                        final(self)@ == old(self)@.buffer_back()
                    }
                },
            },
    {
        let ghost m = self@;
        let mut reset = match buffer {
            Some(buffer) => buffer,
            None => {
                return false;
            },
        };
        if !reset_drawn(&mut reset, drawn, token) {
            self.output.recycle_packet(reset);
            proof {
                assert(self@ =~= m.buffer_back());
                self.keep_answers(m);
            }
            return false;
        }
        self.send_answer(Outgoing::Plain(from, reset))
    }

    /// Answers a datagram that is for no connection by a stateless reset, where that is
    /// set up and the datagram is long enough. The result tells whether it was: memory for
    /// it and random bytes may be missing.
    pub fn emit_stateless_reset(&mut self, from: PeerAddress, trigger: &[u8]) -> (sent: bool)
        requires
            old(self).wf(),
        ensures
            final(self).wf(),
            old(self)@.reset_sent(from, trigger@, final(self)@, sent),
    {
        let ghost m = self@;
        let asked = match self.request_reset(trigger) {
            Some(asked) => asked,
            None => {
                return false;
            },
        };
        let len: usize = asked.len;
        let (buffer, drawn) = match self.grant(asked.request) {
            Some(buffer) => {
                let mut buffer = buffer;
                reset_blank(&mut buffer, len);
                let drawn = fill_random(&mut buffer);
                (Some(buffer), drawn)
            },
            None => (None, false),
        };
        let sent = self.answer_reset(buffer, drawn, from, asked.token);
        proof {
            if sent {
                assert(m.answered(from, reset_of(buffer->0@, asked.token@), self@));
            }
        }
        sent
    }

    /// Closes the connection that a datagram resets. The result tells whether there is
    /// one.
    pub fn receive_stateless_reset(
        &mut self,
        from: PeerAddress,
        datagram: &[u8],
        now: Instant,
    ) -> (was: bool)
        requires
            old(self).wf(),
        ensures
            final(self).wf(),
            match old(self)@.reset_target(from, datagram@) {
                Some(handle) => was && old(self)@.was_reset(handle, now, final(self)@),
                None => !was && final(self)@ == old(self)@,
            },
    {
        if datagram.len() < MIN_RESET_DATAGRAM {
            return false;
        }
        let token = crate::frame::decode::array16(
            vstd::slice::slice_subrange(datagram, datagram.len() - 16, datagram.len()),
        );
        proof {
            lemma_token_at_end(datagram@, token);
        }
        let handle = match self.resets.get(token) {
            Some(handle) => handle,
            None => {
                return false;
            },
        };
        let ghost before = self@;
        assert(before.resets.get(token) is Some);
        assert(before.registry.index_of(handle) is Some);
        let index: usize = handle.index as usize;
        if !self.registry.value_ref(index).peer_addr.same(&from) {
            return false;
        }
        let ghost was = before.registry.at(index as int);
        assert(was.wf());
        let place = self.registry.value_mut(index);
        place.conn.egress.closed = true;
        let ghost slot = *place;
        proof {
            assert(slot.conn@.egress =~= (crate::conn::transmit::connection::EgressModel {
                closed: true,
                ..was.conn@.egress
            }));
            assert(slot.conn@ =~= (crate::conn::transmit::connection::ConnModel {
                egress: slot.conn@.egress,
                ..was.conn@
            }));
            lemma_slot_sound(before, index as int, slot);
            assert(self@ =~= (RouterModel {
                registry: before.registry.put(index as int, slot),
                ..before
            }));
        }
        self.refresh_deadline(handle, now);
        true
    }

    /// Settles what becomes of a datagram: it is for a connection, from a new client, or
    /// for none; and one that is for none may reset a connection or be answered. A
    /// connection that was lent out is settled first, and put behind those that are gone if
    /// it is.
    pub fn route(
        &mut self,
        from: PeerAddress,
        data: &[u8],
        now: Instant,
        now_secs: u64,
        closed: &mut Vec<(Handle, Slot<S>)>,
    ) -> (result: Result<Routed, Error>)
        requires
            old(self).wf(),
        ensures
            final(self).wf(),
            old(self)@.dirty_settled().routed(
                from,
                data@,
                now,
                now_secs,
                final(self)@,
                result,
            ),
            final(closed)@ == with_gone(old(closed)@, old(self)@.dirty_gone()),
    {
        self.sync_dirty_connection(closed);
        if self.shutting_down {
            return Ok(Routed::Ignored);
        }
        match dcid(data, ROUTED_CID_LEN) {
            Some(dcid) => match self.find_cid(dcid) {
                Some((handle, local)) => {
                    return Ok(Routed::Deliver(handle, local));
                },
                None => {},
            },
            None => {},
        }
        if is_initial(data) && self.server.is_some() {
            if self.registry.active() >= self.registry.max() {
                return Ok(Routed::Ignored);
            }
            let ghost before = self@;
            let gate = self.maybe_handle_retry_gating(from, data, now_secs);
            assert(before.gated(from, data@, now_secs, self@, gate));
            return match gate {
                Ok(RetryGate::Accept(odcid)) => Ok(Routed::Accept(odcid)),
                Ok(_) => Ok(Routed::Ignored),
                Err(error) => Err(error),
            };
        }
        if self.receive_stateless_reset(from, data, now) {
            return Ok(Routed::Ignored);
        }
        let ghost before = self@;
        let sent = self.emit_stateless_reset(from, data);
        assert(before.reset_sent(from, data@, self@, sent));
        Ok(Routed::Ignored)
    }
}

/// A Retry packet goes back to the connection ID that the client gave, comes from ours and
/// carries the token; its tag covers the connection ID that the client chose. It is as long as
/// was reckoned.
pub proof fn law_retry_answers(
    dcid: Seq<u8>,
    scid: Seq<u8>,
    local_cid: Seq<u8>,
    token: Seq<u8>,
    content: Seq<u8>,
)
    requires
        dcid.len() <= 20,
        scid.len() <= 20,
        local_cid.len() <= 20,
        retry_content(dcid, scid, local_cid, token) == Some(content),
    ensures
        crate::packet::retry::parse_retry(content) matches Ok(retry) && {
            &&& retry.dcid == scid && retry.scid == local_cid && retry.token == token
            &&& retry.version == 1
            &&& integrity_tag_of(retry_aad(dcid, retry.header)) matches Some(tag) && tag@
                == retry.integrity_tag
        },
        token.len() == 25 + dcid.len() ==> content.len() == retry_len(dcid, scid, local_cid),
{
    let header = retry_header(QUIC_V1, scid, local_cid, token);
    let tag = integrity_tag_of(retry_aad(dcid, header))->0;
    crate::packet::retry::law_retry_round_trip(QUIC_V1, scid, local_cid, token, tag);
    crate::wire::lemma_be_bytes_len(QUIC_V1 as nat, 4);
}

/// A token that is given out now is accepted for ten seconds from the same address, and not
/// from then on.
pub proof fn law_token_lifetime(
    secret: RetryTokenSecret,
    from: PeerAddress,
    dcid: Seq<u8>,
    now: u64,
    later: u64,
)
    requires
        now + 10 <= u64::MAX,
    ensures
        retry_expiry(now) == now + 10,
        secret.accepted(from, secret.token(from, dcid, retry_expiry(now)), later) is Some ==> later
            < now + 10,
{
    let expiry = retry_expiry(now);
    let token = secret.token(from, dcid, expiry);
    let accepted = secret.accepted(from, token, later);
    if accepted is Some {
        crate::secrets::law_only_issued_accepted(secret, from, token, later, accepted->0);
        crate::wire::lemma_be_bytes_len(expiry as nat, 8);
        assert(token.take(8) =~= crate::wire::be_bytes(expiry as nat, 8));
        reveal_with_fuel(crate::wire::pow256, 9);
        crate::wire::law_be_round_trip(expiry as nat, 8);
    }
}

/// No answer is longer than three times what came in; a datagram of fewer than 23 bytes is
/// not answered by a stateless reset, and one of fewer than 21 resets nothing.
pub proof fn law_answer_limits<S>(
    m: RouterModel<S>,
    from: PeerAddress,
    datagram: Seq<u8>,
    max_pmtu: u16,
)
    ensures
        answer_ceiling(max_pmtu, m.output, datagram.len() as int) <= 3 * datagram.len(),
        answer_ceiling(max_pmtu, m.output, datagram.len() as int) <= max_pmtu,
        datagram.len() < 23 ==> m.reset_due(datagram) is None,
        m.reset_due(datagram) matches Some((len, dcid, secret)) ==> 22 <= len < datagram.len()
            && Some(dcid) == dcid_of(datagram, 8) && m.server is Some
            && m.server->0.stateless_reset_secret == Some(secret),
        datagram.len() < 21 ==> m.reset_target(from, datagram) is None,
        m.reset_target(from, datagram) matches Some(handle) ==> m.registry.at(
            handle.index as int,
        ).peer_addr == from,
{
}

} // verus!
