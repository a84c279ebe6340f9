//! Connections that are opened, lent out and heard from.
use vstd::prelude::*;

use crate::clock::Instant;
use crate::conn::transmit::connection::DatagramLimits;
use crate::errors::{ConnectError, TrySendError};
use crate::mux::cid_table::LocalCidKey;
use crate::mux::reset_index::Token;
use crate::mux::router::drive::{lemma_slot_sound, lemma_turns_sound};
use crate::mux::router::gate::Error;
use crate::mux::router::slots::{route_updated, routes_updated, RouteUpdate};
use crate::mux::router::{first_unused, lemma_queue_with, Router, RouterModel, Slot};
use crate::mux::setup::{connection_ceiling, least, looks_initial};
use crate::mux::turns::put_in;
use crate::mux::{Handle, MAX_ACTIVE_CONNECTION_IDS, MAX_CIDS_PER_CONN};
use crate::packet::long::InitialHeader;
use crate::packet::model::parse_layout;
use crate::packet::{ConnectionId, LongType, MAX_CONNECTION_ID_LEN};
use crate::pmtud::BASE_PMTU;

verus! {

/// What a connection is opened with.
#[derive(Debug, Clone, Copy)]
pub struct Opening {
    /// The connection ID that the client chose first.
    pub initial_dcid: ConnectionId,
    /// The connection ID of the peer, as far as it is known.
    pub peer_cid: ConnectionId,
    pub local_cid: ConnectionId,
    pub max_packet_bytes: usize,
}

impl<S> RouterModel<S> {
    /// The connection ID that is made next, and the number that it is made of.
    pub open spec fn next_cid(self, prefix: Option<u8>) -> (Option<Seq<u8>>, u64) {
        first_unused(
            self.cids,
            self.cid_counter,
            prefix,
            self.registry.active() * MAX_CIDS_PER_CONN + 1,
        )
    }

    /// After a connection ID was made.
    pub open spec fn cid_made(self, prefix: Option<u8>) -> RouterModel<S> {
        RouterModel { cid_counter: self.next_cid(prefix).1, ..self }
    }

    /// The routes after one of our connection IDs is to lead to a connection, and whether
    /// it does.
    pub open spec fn with_local_cid(
        self,
        handle: Handle,
        key: LocalCidKey,
        value: ConnectionId,
    ) -> (RouterModel<S>, bool) {
        match self.registry.index_of(handle) {
            Some(index) => {
                let (cids, made) = route_updated(
                    self.cids,
                    index,
                    RouteUpdate::Add { key, cid: value },
                );
                (RouterModel { cids, ..self }, made)
            },
            None => (self, false),
        }
    }

    /// After a connection of a client came in: it leads to it, is to send and to be
    /// looked at again; or it is gone, where its connection ID cannot lead to it.
    pub open spec fn connected(
        self,
        handle: Handle,
        key: LocalCidKey,
        local_cid: ConnectionId,
        now: Instant,
    ) -> RouterModel<S> {
        let (led, made) = self.with_local_cid(handle, key, local_cid);
        if made {
            led.flush_scheduled(handle).deadline_refreshed(handle, now)
        } else {
            led.removed(handle)
        }
    }

    /// The routes after the connection ID that a client chose is to lead to a connection
    /// too, where it leads nowhere, and whether it leads anywhere.
    pub open spec fn with_alias(self, handle: Handle, value: ConnectionId) -> (
        RouterModel<S>,
        bool,
    ) {
        if self.cids.find(value@) is Some {
            (self, true)
        } else {
            match self.registry.index_of(handle) {
                Some(index) => {
                    let ordinal = self.cids.alias_from(index, MAX_ACTIVE_CONNECTION_IDS as int);
                    if ordinal < MAX_CIDS_PER_CONN {
                        (
                            RouterModel {
                                cids: self.cids.registered(index, ordinal, value@, None),
                                ..self
                            },
                            self.cids.takes(index, ordinal, value@, None),
                        )
                    } else {
                        (self, false)
                    }
                },
                None => (self, false),
            }
        }
    }

    /// After a connection of a server came in: its connection ID and the one that the
    /// client chose lead to it; or it is gone, where they cannot.
    pub open spec fn accepted(
        self,
        handle: Handle,
        key: LocalCidKey,
        local_cid: ConnectionId,
        initial_dcid: ConnectionId,
    ) -> (RouterModel<S>, bool) {
        let (led, made) = self.with_local_cid(handle, key, local_cid);
        if !made {
            (led.removed(handle), false)
        } else {
            let (aliased, known) = led.with_alias(handle, initial_dcid);
            if known {
                (aliased, true)
            } else {
                (aliased.removed(handle), false)
            }
        }
    }

    /// After a datagram was handed to a connection, which has those tokens and asks for
    /// those routes now; and the error, if there is one.
    pub open spec fn received(
        self,
        handle: Handle,
        tokens: Vec<Token>,
        updates: Seq<RouteUpdate>,
        failed: Option<Error>,
        now: Instant,
    ) -> (RouterModel<S>, Option<Error>) {
        if self.registry.index_of(handle) is None {
            (self, Some(Error::ConnectionIdLimit))
        } else if !self.tokens_taken(handle, tokens@) {
            (self.synced(handle, tokens).removed(handle), Some(Error::ConnectionIdLimit))
        } else {
            let kept = self.synced(handle, tokens);
            let (cids, made) = routes_updated(kept.cids, handle.index as int, updates);
            let led = RouterModel { cids, ..kept };
            if !made {
                (led.removed(handle), Some(Error::HeaderDecode))
            } else if failed is Some {
                (led, failed)
            } else {
                (
                    led.notify_scheduled(handle).flush_scheduled(handle).deadline_refreshed(
                        handle,
                        now,
                    ),
                    None,
                )
            }
        }
    }

    /// After a connection was lent out.
    pub open spec fn lent(self, index: int, slot: Slot<S>) -> RouterModel<S> {
        RouterModel {
            registry: self.registry.put(index, slot),
            reap: put_in(self.reap, index),
            dirty: Some(self.registry.handle(index)),
            ..self
        }
    }

    /// The connection that was lent out, with the tokens that its peer has given out since.
    pub open spec fn dirty_tokens(self) -> Option<(Handle, Vec<Token>)> {
        match self.dirty {
            Some(handle) => match self.registry.index_of(handle) {
                Some(index) => match self.registry.at(index).changed_tokens {
                    Some(tokens) => Some((handle, tokens)),
                    None => None,
                },
                None => None,
            },
            None => None,
        }
    }

    /// With those tokens taken from it.
    pub open spec fn dirty_cleared(self) -> RouterModel<S> {
        let clean = RouterModel { dirty: None, ..self };
        match self.dirty_tokens() {
            Some((handle, _)) => {
                let index = handle.index as int;
                RouterModel {
                    registry: self.registry.put(
                        index,
                        Slot { changed_tokens: None, ..self.registry.at(index) },
                    ),
                    ..clean
                }
            },
            None => clean,
        }
    }

    /// After the tokens of the connection that was lent out were settled: where they cannot
    /// be kept it is gone.
    pub open spec fn dirty_settled(self) -> RouterModel<S> {
        match self.dirty_tokens() {
            Some((handle, tokens)) => self.dirty_cleared().settled(handle, tokens),
            None => self.dirty_cleared(),
        }
    }

    /// The connection that is gone then, if one is.
    pub open spec fn dirty_gone(self) -> Option<(Handle, Slot<S>)> {
        match self.dirty_tokens() {
            Some((handle, tokens)) => {
                let m = self.dirty_cleared();
                if m.tokens_taken(handle, tokens@) {
                    None
                } else {
                    Some((handle, m.synced(handle, tokens).registry.at(handle.index as int)))
                }
            },
            None => None,
        }
    }

    /// Whether it was settled what a connection of a client is opened with.
    pub open spec fn prepared(
        self,
        initial_dcid: Seq<u8>,
        cid_prefix: Option<u8>,
        max_pmtu: u16,
        after: RouterModel<S>,
        result: Result<Opening, ConnectError>,
    ) -> bool {
        let ceiling = least(max_pmtu as int, self.output.bytes_capacity);
        if self.shutting_down {
            result == Err::<Opening, ConnectError>(ConnectError::Closed) && after == self
        } else if self.registry.active() >= self.registry.max {
            result == Err::<Opening, ConnectError>(ConnectError::Capacity) && after == self
        } else if ceiling < BASE_PMTU {
            result == Err::<Opening, ConnectError>(ConnectError::InvalidConfig) && after == self
        } else {
            &&& after == self.cid_made(cid_prefix)
            &&& match result {
                Ok(opening) => {
                    &&& opening.initial_dcid@ == initial_dcid
                    &&& opening.peer_cid@ == initial_dcid
                    &&& self.next_cid(cid_prefix).0 == Some(opening.local_cid@)
                    &&& opening.max_packet_bytes == ceiling
                },
                Err(error) => error == ConnectError::Capacity && self.next_cid(
                    cid_prefix,
                ).0 is None,
            }
        }
    }
}

/// Connections that are gone, with one more if one is.
pub open spec fn with_gone<S>(
    closed: Seq<(Handle, Slot<S>)>,
    gone: Option<(Handle, Slot<S>)>,
) -> Seq<(Handle, Slot<S>)> {
    match gone {
        Some(gone) => closed.push(gone),
        None => closed,
    }
}

impl<S> Router<S> {
    /// What a connection of a client is opened with. A connection that was lent out is
    /// settled first, and put behind those that are gone if it is.
    pub fn connect_prepare(
        &mut self,
        initial_dcid: &[u8],
        cid_prefix: Option<u8>,
        max_pmtu: u16,
        closed: &mut Vec<(Handle, Slot<S>)>,
    ) -> (result: Result<Opening, ConnectError>)
        requires
            old(self).wf(),
        ensures
            final(self).wf(),
            if initial_dcid@.len() > MAX_CONNECTION_ID_LEN {
                &&& result == Err::<Opening, ConnectError>(ConnectError::InvalidConfig)
                &&& final(self)@ == old(self)@
                &&& final(closed)@ == old(closed)@
            } else {
                &&& old(self)@.dirty_settled().prepared(
                    initial_dcid@,
                    cid_prefix,
                    max_pmtu,
                    final(self)@,
                    result,
                )
                &&& final(closed)@ == with_gone(old(closed)@, old(self)@.dirty_gone())
            },
    {
        let initial_dcid = match ConnectionId::new(initial_dcid) {
            Some(cid) => cid,
            None => {
                return Err(ConnectError::InvalidConfig);
            },
        };
        self.sync_dirty_connection(closed);
        if self.shutting_down {
            return Err(ConnectError::Closed);
        }
        if self.registry.active() >= self.registry.max() {
            return Err(ConnectError::Capacity);
        }
        let max_packet_bytes: usize = connection_ceiling(max_pmtu, self.output.bytes_capacity());
        if max_packet_bytes < BASE_PMTU as usize {
            return Err(ConnectError::InvalidConfig);
        }
        match self.gen_cid(cid_prefix) {
            Some(local_cid) => Ok(
                Opening { initial_dcid, peer_cid: initial_dcid, local_cid, max_packet_bytes },
            ),
            None => Err(ConnectError::Capacity),
        }
    }

    /// Takes the connection of a client in. Where there is no place for it, or its
    /// connection ID cannot lead to it, it is given back.
    pub fn connect_finish(
        &mut self,
        slot: Slot<S>,
        tokens: Vec<Token>,
        key: LocalCidKey,
        local_cid: ConnectionId,
        now: Instant,
    ) -> (result: Result<Handle, Slot<S>>)
        requires
            old(self).wf(),
            slot.wf(),
        ensures
            final(self).wf(),
            match old(self)@.registry.next() {
                Some(index) => {
                    let there = old(self)@.inserted(slot);
                    let handle = there.registry.handle(index);
                    let kept = there.settled(handle, tokens);
                    if there.tokens_taken(handle, tokens@) {
                        &&& final(self)@ == kept.connected(handle, key, local_cid, now)
                        &&& (result is Ok) == kept.with_local_cid(handle, key, local_cid).1
                        &&& result matches Ok(made) ==> made == handle
                    } else {
                        final(self)@ == kept && result is Err
                    }
                },
                None => result is Err && final(self)@ == old(self)@.inserted(slot),
            },
    {
        let handle = match self.insert_connection(slot, tokens) {
            Ok(handle) => handle,
            Err(slot) => {
                return Err(slot);
            },
        };
        if !self.register_local_cid(handle, key, local_cid) {
            return Err(self.remove_slot(handle).unwrap());
        }
        self.schedule_flush(handle);
        self.refresh_deadline(handle, now);
        Ok(handle)
    }

    /// What a connection of a server is opened with, in answer to a datagram.
    pub fn accept_prepare(&mut self, data: &[u8]) -> (result: Result<Opening, Error>)
        requires
            old(self).wf(),
        ensures
            final(self).wf(),
            match (old(self)@.server, parse_layout(data@, LongType::Initial)) {
                (Some(config), Ok(layout)) if looks_initial(data@) => {
                    let m = old(self)@;
                    let ceiling = least(config.max_pmtu as int, m.output.bytes_capacity);
                    &&& final(self)@ == m.cid_made(config.cid_prefix)
                    &&& match (result, m.next_cid(config.cid_prefix).0) {
                        (Ok(opening), Some(cid)) => {
                            &&& opening.initial_dcid@ == layout.prefix.dcid
                            &&& opening.peer_cid@ == layout.prefix.scid
                            &&& opening.local_cid@ == cid
                            &&& opening.max_packet_bytes == ceiling
                            &&& ceiling >= BASE_PMTU
                        },
                        (Err(error), None) => error == Error::ConnectionIdLimit,
                        (Err(error), Some(_)) => error == Error::PacketCeiling && ceiling
                            < BASE_PMTU,
                        _ => false,
                    }
                },
                _ => result == Err::<Opening, Error>(Error::HeaderDecode) && final(self)@ == old(self)@,
            },
    {
        let config = match self.server {
            Some(config) => config,
            None => {
                return Err(Error::HeaderDecode);
            },
        };
        if !crate::mux::setup::is_initial(data) {
            return Err(Error::HeaderDecode);
        }
        let prefix = match InitialHeader::decode_pre_hp(data) {
            Ok(prefix) => prefix,
            Err(_) => {
                return Err(Error::HeaderDecode);
            },
        };
        let initial_dcid = prefix.dcid.into_owned();
        let peer_cid = prefix.scid.into_owned();
        let local_cid = match self.gen_cid(config.cid_prefix) {
            Some(cid) => cid,
            None => {
                return Err(Error::ConnectionIdLimit);
            },
        };
        let max_packet_bytes: usize = connection_ceiling(
            config.max_pmtu,
            self.output.bytes_capacity(),
        );
        if max_packet_bytes < BASE_PMTU as usize {
            return Err(Error::PacketCeiling);
        }
        Ok(Opening { initial_dcid, peer_cid, local_cid, max_packet_bytes })
    }

    /// Takes the connection of a server in. Where there is no place for it, or its
    /// connection IDs cannot lead to it, it is given back with the reason.
    pub fn accept_finish(
        &mut self,
        slot: Slot<S>,
        tokens: Vec<Token>,
        key: LocalCidKey,
        local_cid: ConnectionId,
        initial_dcid: ConnectionId,
    ) -> (result: Result<Handle, (Error, Slot<S>)>)
        requires
            old(self).wf(),
            slot.wf(),
        ensures
            final(self).wf(),
            match old(self)@.registry.next() {
                Some(index) => {
                    let there = old(self)@.inserted(slot);
                    let handle = there.registry.handle(index);
                    let kept = there.settled(handle, tokens);
                    if there.tokens_taken(handle, tokens@) {
                        let (led, made) = kept.accepted(handle, key, local_cid, initial_dcid);
                        &&& final(self)@ == led
                        &&& match result {
                            Ok(given) => made && given == handle,
                            Err((error, _)) => !made && error == Error::HeaderDecode,
                        }
                    } else {
                        final(self)@ == kept && (result matches Err((error, _)) && error
                            == Error::EventCapacity)
                    }
                },
                None => (result matches Err((error, _)) && error == Error::EventCapacity) && final(self)@ == old(self)@.inserted(slot),
            },
    {
        let handle = match self.insert_connection(slot, tokens) {
            Ok(handle) => handle,
            Err(slot) => {
                return Err((Error::EventCapacity, slot));
            },
        };
        if !self.register_local_cid(handle, key, local_cid) {
            return Err((Error::HeaderDecode, self.remove_slot(handle).unwrap()));
        }
        if self.find_cid(initial_dcid.as_slice()).is_none() && !self.register_cid_alias(
            handle,
            initial_dcid,
        ) {
            return Err((Error::HeaderDecode, self.remove_slot(handle).unwrap()));
        }
        Ok(handle)
    }

    /// Goes on after a datagram was handed to a connection, which has those tokens and
    /// asks for those routes now, and which may have failed. A connection whose tokens or
    /// routes cannot be kept is taken out.
    pub fn received(
        &mut self,
        handle: Handle,
        tokens: Vec<Token>,
        updates: &Vec<RouteUpdate>,
        failed: Option<Error>,
        now: Instant,
    ) -> (result: (Option<Error>, Option<Slot<S>>))
        requires
            old(self).wf(),
        ensures
            final(self).wf(),
            ({
                let (after, error) = old(self)@.received(handle, tokens, updates@, failed, now);
                final(self)@ == after && result.0 == error
            }),
            (result.1 is Some) == (old(self)@.registry.index_of(handle) is Some
                && final(self)@.registry.index_of(handle) is None),
            result.1 matches Some(slot) ==> slot == old(self)@.synced(handle, tokens).registry.at(
                handle.index as int,
            ),
    {
        if self.registry.handle_index(handle).is_none() {
            return (Some(Error::ConnectionIdLimit), None);
        }
        if !self.sync_reset_tokens(handle, tokens) {
            let gone = self.remove_slot(handle);
            return (Some(Error::ConnectionIdLimit), gone);
        }
        if !self.apply_cid_routes(handle, updates) {
            let gone = self.remove_slot(handle);
            return (Some(Error::HeaderDecode), gone);
        }
        if failed.is_some() {
            return (failed, None);
        }
        self.schedule_notify(handle);
        self.schedule_flush(handle);
        self.refresh_deadline(handle, now);
        (None, None)
    }

    /// A connection, to be worked on: what came in for it is read, or it is told
    /// something. What has to follow is scheduled by the function that hears of it.
    pub fn slot_mut(&mut self, handle: Handle) -> (slot: Option<&mut Slot<S>>)
        requires
            old(self).wf(),
        ensures
            match slot {
                Some(slot) => {
                    &&& old(self)@.registry.index_of(handle) is Some
                    &&& *slot == old(self)@.registry.at(handle.index as int)
                    &&& final(self)@ == (RouterModel {
                        registry: old(self)@.registry.put(handle.index as int, *final(slot)),
                        ..old(self)@
                    })
                    &&& final(slot).wf() && final(slot).reset_tokens@ == slot.reset_tokens@
                        ==> final(self).wf()
                },
                None => old(self)@.registry.index_of(handle) is None && final(self)@ == old(self)@
                    && final(self).wf(),
            },
    {
        let ghost before = self@;
        let index: usize = match self.registry.handle_index(handle) {
            Some(index) => index,
            None => {
                return None;
            },
        };
        proof {
            let tokens = before.registry.at(index as int).reset_tokens@;
            assert forall|slot: Slot<S>|
                slot.wf() && slot.reset_tokens@ == tokens implies (RouterModel {
                registry: #[trigger] before.registry.put(index as int, slot),
                ..before
            }).sound() by {
                lemma_slot_sound(before, index as int, slot);
            }
        }
        Some(self.registry.value_mut(index))
    }

    /// Lends a connection out. It is to be looked at afterwards, and its tokens are to be
    /// settled. One that was lent out before is settled first, and put behind those that
    /// are gone if it is.
    pub fn conn_mut(&mut self, handle: Handle, closed: &mut Vec<(Handle, Slot<S>)>) -> (slot:
        Option<&mut Slot<S>>)
        requires
            old(self).wf(),
        ensures
            final(closed)@ == with_gone(old(closed)@, old(self)@.dirty_gone()),
            ({
                let m = old(self)@.dirty_settled();
                match slot {
                    Some(slot) => {
                        &&& !m.shutting_down
                        &&& m.registry.index_of(handle) is Some
                        &&& *slot == m.registry.at(handle.index as int)
                        &&& final(self)@ == m.lent(handle.index as int, *final(slot))
                        &&& final(slot).wf() && final(slot).reset_tokens@ == slot.reset_tokens@
                            ==> final(self).wf()
                    },
                    None => (m.shutting_down || m.registry.index_of(handle) is None)
                        && final(self)@ == m && final(self).wf(),
                }
            }),
    {
        self.sync_dirty_connection(closed);
        if self.shutting_down {
            return None;
        }
        let ghost before = self@;
        let index: usize = match self.registry.handle_index(handle) {
            Some(index) => index,
            None => {
                return None;
            },
        };
        self.reap.push_back(index);
        self.dirty = Some(handle);
        let ghost marked = RouterModel {
            reap: put_in(before.reap, index as int),
            dirty: Some(handle),
            ..before
        };
        proof {
            lemma_queue_with(before, before.reap, index as int);
            assert(self@ =~= marked);
            assert(marked.queue_sound(marked.notify));
            assert(marked.queue_sound(marked.flush));
            assert(marked.queue_sound(marked.reap));
            lemma_turns_sound(before, marked);
            let tokens = before.registry.at(index as int).reset_tokens@;
            assert forall|slot: Slot<S>|
                slot.wf() && slot.reset_tokens@ == tokens implies (RouterModel {
                registry: #[trigger] marked.registry.put(index as int, slot),
                ..marked
            }).sound() by {
                lemma_slot_sound(marked, index as int, slot);
            }
        }
        Some(self.registry.value_mut(index))
    }

    /// Settles the tokens of the connection that was lent out, if one was. Where they cannot
    /// be kept, the connection is taken out and put behind those that are gone.
    pub fn sync_dirty_connection(&mut self, closed: &mut Vec<(Handle, Slot<S>)>)
        requires
            old(self).wf(),
        ensures
            final(self).wf(),
            final(self)@ == old(self)@.dirty_settled(),
            final(closed)@ == with_gone(old(closed)@, old(self)@.dirty_gone()),
    {
        let ghost before = self@;
        let handle = match self.dirty {
            Some(handle) => handle,
            None => {
                assert(self@ =~= before.dirty_cleared());
                return;
            },
        };
        self.dirty = None;
        let ghost clean = RouterModel { dirty: None, ..before };
        proof {
            assert(self@ =~= clean);
            assert(clean.queue_sound(clean.notify));
            assert(clean.queue_sound(clean.flush));
            assert(clean.queue_sound(clean.reap));
            lemma_turns_sound(before, clean);
        }
        let index: usize = match self.registry.handle_index(handle) {
            Some(index) => index,
            None => {
                return;
            },
        };
        let ghost slot = before.registry.at(index as int);
        let place = self.registry.value_mut(index);
        let tokens = match place.changed_tokens.take() {
            Some(tokens) => tokens,
            None => {
                proof {
                    lemma_slot_sound(clean, index as int, slot);
                    assert(self@.registry.entries =~= clean.registry.entries);
                    assert(self@ =~= clean);
                }
                return;
            },
        };
        let ghost cleared = before.dirty_cleared();
        proof {
            lemma_slot_sound(clean, index as int, Slot { changed_tokens: None, ..slot });
            assert(self@ =~= cleared);
        }
        if self.sync_reset_tokens(handle, tokens) {
            return;
        }
        match self.remove_slot(handle) {
            Some(slot) => {
                closed.push((handle, slot));
            },
            None => {},
        }
    }

    /// Settles the tokens of a connection, if it was lent out. Where they cannot be kept, the
    /// connection is taken out.
    pub fn finish_connection_mut(&mut self, handle: Handle) -> (gone: Option<Slot<S>>)
        requires
            old(self).wf(),
        ensures
            final(self).wf(),
            if old(self)@.dirty == Some(handle) {
                &&& final(self)@ == old(self)@.dirty_settled()
                &&& match (gone, old(self)@.dirty_gone()) {
                    (Some(slot), Some(expected)) => slot == expected.1,
                    (None, None) => true,
                    _ => false,
                }
            } else {
                gone is None && final(self)@ == old(self)@
            },
    {
        let same = match self.dirty {
            Some(dirty) => dirty == handle,
            None => false,
        };
        if !same {
            return None;
        }
        let mut closed: Vec<(Handle, Slot<S>)> = Vec::new();
        self.sync_dirty_connection(&mut closed);
        match closed.pop() {
            Some((_, slot)) => Some(slot),
            None => None,
        }
    }

    /// Lets a connection send and settles when it has to be looked at again, unless all
    /// connections end.
    pub fn flush(&mut self, handle: Handle, now: Instant)
        requires
            old(self).wf(),
        ensures
            final(self).wf(),
            final(self)@ == if old(self)@.shutting_down {
                old(self)@
            } else {
                old(self)@.flush_scheduled(handle).deadline_refreshed(handle, now)
            },
    {
        if self.shutting_down {
            return;
        }
        self.schedule_flush(handle);
        self.refresh_deadline(handle, now);
    }

    /// Gives a connection up, and hands back what was kept of it.
    pub fn close(&mut self, handle: Handle) -> (gone: Option<Slot<S>>)
        requires
            old(self).wf(),
        ensures
            final(self).wf(),
            final(self)@ == old(self)@.removed(handle),
            match gone {
                Some(slot) => old(self)@.registry.index_of(handle) is Some && slot
                    == old(self)@.registry.at(handle.index as int),
                None => old(self)@.registry.index_of(handle) is None,
            },
    {
        self.remove_slot(handle)
    }

    /// Queues a datagram on a connection, which is then to send.
    pub fn try_send_datagram(
        &mut self,
        handle: Handle,
        data: Vec<u8>,
        limits: DatagramLimits,
        now: Instant,
    ) -> (result: Result<(), TrySendError<Vec<u8>>>)
        requires
            old(self).wf(),
        ensures
            final(self).wf(),
            ({
                let m = old(self)@;
                let index = handle.index as int;
                let slot = m.registry.at(index);
                let after = final(self)@.registry.at(index);
                let closed = Err::<(), TrySendError<Vec<u8>>>(TrySendError::Closed(data));
                if m.shutting_down {
                    result == closed && final(self)@ == m
                } else if m.registry.index_of(handle) is None {
                    result == closed && final(self)@ == m
                } else {
                    &&& final(self)@ == (RouterModel {
                        registry: m.registry.put(index, after),
                        ..m
                    }).flush_scheduled(handle).deadline_refreshed(handle, now)
                    &&& after == (Slot { conn: after.conn, ..slot })
                    &&& match slot.conn@.datagram_refusal(limits, data@.len() as int, data) {
                        Some(error) => result == Err::<(), TrySendError<Vec<u8>>>(error)
                            && after.conn == slot.conn,
                        None => result is Ok && after.conn@ == slot.conn@.datagram_queued(data@),
                    }
                }
            }),
    {
        if self.shutting_down {
            return Err(TrySendError::Closed(data));
        }
        let result = match self.slot_mut(handle) {
            Some(slot) => slot.conn.try_send_datagram(data, limits),
            None => Err(TrySendError::Closed(data)),
        };
        self.schedule_flush(handle);
        self.refresh_deadline(handle, now);
        result
    }
}

/// The connection ID that a client chose leads to a connection once it was made to; one that
/// leads anywhere already is left there.
pub proof fn law_alias_leads<S>(m: RouterModel<S>, handle: Handle, value: ConnectionId)
    requires
        m.cids.unique(),
        m.cids.find(value@) is None,
        m.registry.index_of(handle) is Some,
        (m.registry.index_of(handle)->0 + 1) * 16 <= m.cids.routes.len(),
    ensures
        ({
            let (after, known) = m.with_alias(handle, value);
            &&& known ==> after.cids.find(value@) == Some(
                (m.registry.index_of(handle)->0, None::<LocalCidKey>),
            )
            &&& !known ==> after.cids == m.cids
            &&& after.registry == m.registry
            &&& after.with_alias(handle, value) == (after, true) || !known
        }),
{
    let index = m.registry.index_of(handle)->0;
    let ordinal = m.cids.alias_from(index, MAX_ACTIVE_CONNECTION_IDS as int);
    crate::mux::cid_table::lemma_alias_bound(m.cids, index, MAX_ACTIVE_CONNECTION_IDS as int);
    crate::mux::cid_table::law_registered_found(
        m.cids,
        index,
        ordinal,
        value@,
        None,
        value@,
    );
}

} // verus!
