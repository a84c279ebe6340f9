//! Pieces of streams in a packet.
use vstd::prelude::*;

use crate::conn::control::{
    about, law_latest_record_waits, Control, Pending, PendingModel, Subject,
};
use crate::conn::send::SenderModel;
use crate::conn::stream_journal::journal::{all_excluded, RetryWork};
use crate::conn::stream_journal::model::{Handle, JournalModel, SendHandle, Stream};
use crate::math::capped;
use crate::conn::streams::state::transmit::reset_queued;
use crate::conn::streams::state::{
    deactivate, lemma_without_turn, without_turn, State, StateModel,
};
use crate::conn::transmit::draft::{
    Delivery, Draft, DraftModel, PACKET_CONTROL_CAPACITY, PACKET_STREAM_CAPACITY,
};
use crate::conn::transmit::packets::{covered_by, covers};
use crate::conn::transmit::path::{LocalCid, Path};
use crate::conn::transmit::room::{left, STREAM_FRAME_OVERHEAD};

verus! {

/// How many streams take part in a round of packets at most.
pub const STREAM_SCHEDULE_CAPACITY: usize = 256;

/// The streams of a round of packets, as they are collected.
#[verifier::ext_equal]
pub struct Snapshot {
    pub state: StateModel,
    pub control: PendingModel,
    pub found: Seq<u64>,
}

/// Goes through streams: a reset that waits for room is queued if there is, and
/// streams with something to send are collected.
pub open spec fn snapshot(before: Snapshot, work: int, order: Seq<u64>) -> Snapshot
    decreases order.len(),
{
    if order.len() == 0 {
        before
    } else {
        let stream_id = order[0];
        let rest = order.subrange(1, order.len() as int);
        let sender = before.state.senders[stream_id];
        if !before.state.senders.dom().contains(stream_id) {
            snapshot(before, work, rest)
        } else if sender.deferred_reset is Some {
            if work > 0 && (before.control.has(Subject::Reset { stream_id })
                || before.control.has_room()) {
                let (after, control) = reset_queued(
                    sender,
                    stream_id,
                    sender.deferred_reset->0,
                    before.control,
                );
                snapshot(
                    Snapshot {
                        state: before.state.with_sender(stream_id, after),
                        control,
                        found: before.found,
                    },
                    work - 1,
                    rest,
                )
            } else {
                snapshot(before, work, rest)
            }
        } else if sender.has_pending() && !sender.blocked() && before.found.len()
            < STREAM_SCHEDULE_CAPACITY {
            snapshot(Snapshot { found: before.found.push(stream_id), ..before }, work, rest)
        } else {
            snapshot(before, work, rest)
        }
    }
}

/// The records that pieces were sent under before.
pub open spec fn known_handles(streams: Seq<Delivery>) -> Seq<Handle>
    decreases streams.len(),
{
    if streams.len() == 0 {
        Seq::empty()
    } else {
        match streams.last().known {
            Some(handle) => known_handles(streams.drop_last()).push(handle),
            None => known_handles(streams.drop_last()),
        }
    }
}

/// How many pieces are sent for the first time.
pub open spec fn fresh_count(streams: Seq<Delivery>) -> int
    decreases streams.len(),
{
    if streams.len() == 0 {
        0
    } else {
        fresh_count(streams.drop_last()) + if streams.last().known is None {
            1int
        } else {
            0
        }
    }
}

/// How many bytes are sent for the first time.
pub open spec fn fresh_bytes(streams: Seq<Delivery>) -> int
    decreases streams.len(),
{
    if streams.len() == 0 {
        0
    } else {
        fresh_bytes(streams.drop_last()) + if streams.last().known is None {
            streams.last().record.len as int
        } else {
            0
        }
    }
}

impl DraftModel {
    /// How many bytes of a stream fit.
    pub open spec fn piece_room(self) -> int {
        left(self.limit, self.frames.len() + STREAM_FRAME_OVERHEAD)
    }

    pub open spec fn full(self) -> bool {
        self.streams.len() >= PACKET_STREAM_CAPACITY
    }
}

/// A search for a record to send again takes work.
pub proof fn lemma_work(m: JournalModel, room: int, work: int, excluded: Seq<Handle>)
    ensures
        work > 0 ==> m.retransmit(room, work, excluded).1 < work,
        work > 0 ==> m.retransmit(room, work, excluded).1 >= 0,
        work <= 0 ==> m.retransmit(room, work, excluded).2 is None,
    decreases work,
{
    if work > 0 && m.retry_groups.len() > 0 {
        let g = m.retry_groups[0];
        let i = m.retry[g][0];
        if excluded.contains(m.handle_at(i)) || m.node(i).record.len > room {
            lemma_work(m.turned(), room, work - 1, excluded);
        }
    }
}

/// Adds pieces that were lost, as long as there is work, and one fits. Records
/// whose stream is gone are given up.
pub open spec fn resent(
    journal: JournalModel,
    draft: DraftModel,
    senders: Map<u64, SenderModel>,
    names: spec_fn(SendHandle) -> Option<u64>,
    work: int,
) -> (JournalModel, DraftModel)
    decreases work,
{
    if draft.full() {
        (journal, draft)
    } else {
        let (turned, rest, found) = journal.retransmit(
            draft.piece_room(),
            work,
            known_handles(draft.streams),
        );
        proof {
            lemma_work(journal, draft.piece_room(), work, known_handles(draft.streams));
        }
        match found {
            None => (turned, draft),
            Some((handle, owner, record)) => if names(owner) != Some(record.stream_id) {
                resent(turned.without_group(handle), draft, senders, names, rest)
            } else if !draft.fits_piece(record, senders[record.stream_id]) {
                (turned, draft)
            } else {
                resent(
                    turned,
                    draft.with_piece(
                        Delivery { record, known: Some(handle) },
                        senders[record.stream_id],
                    ),
                    senders,
                    names,
                    rest,
                )
            },
        }
    }
}

/// How pieces of streams are told to be blocked.
#[verifier::ext_equal]
pub struct Fresh {
    pub control: PendingModel,
    pub draft: DraftModel,
}

/// Whether a record that tells of being blocked can be sent: it is not on its
/// way, and there is room for it.
pub open spec fn tellable(
    control: PendingModel,
    draft: DraftModel,
    in_flight: Seq<Control>,
    record: Control,
    subject: Subject,
) -> bool {
    &&& draft.controls.len() < PACKET_CONTROL_CAPACITY
    &&& !covered_by(in_flight, record)
    &&& !covered_by(draft.controls, record)
    &&& control.has(subject) || control.has_room()
}

impl Fresh {
    /// After a record was queued, and added if it fits.
    pub open spec fn told(
        self,
        in_flight: Seq<Control>,
        cids: Seq<LocalCid>,
        record: Control,
        subject: Subject,
    ) -> Fresh {
        if !tellable(self.control, self.draft, in_flight, record, subject) {
            self
        } else {
            Fresh {
                control: self.control.queued(record),
                draft: if self.draft.fits_control(record, cids) {
                    self.draft.with_control(record, cids)
                } else {
                    self.draft
                },
            }
        }
    }
}

/// What is to be sent next of a stream: as much as the limits of the stream and
/// of the connection, and the packet, let through.
pub open spec fn next_piece(
    m: StateModel,
    draft: DraftModel,
    stream_id: u64,
    limited: bool,
) -> (int, int, bool) {
    let sender = m.senders[stream_id];
    let stream_budget = left(sender.credit as int, sender.next);
    let conn_budget = if limited {
        left(m.peer_data_limit as int, m.peer_total_sent + fresh_bytes(draft.streams))
    } else {
        u64::MAX as int
    };
    (stream_budget, conn_budget, sender.unsent() == 0 && sender.would_fin(0))
}

pub open spec fn lesser(a: int, b: int) -> int {
    if a < b {
        a
    } else {
        b
    }
}

/// The piece of a stream with so many bytes.
pub open spec fn fresh_piece(stream_id: u64, sender: SenderModel, count: int) -> Stream {
    Stream {
        stream_id,
        offset: sender.next as u64,
        len: count as u64,
        fin: sender.would_fin(count),
    }
}

/// Adds pieces that were not sent yet, from a place of the round on.
pub open spec fn sent_fresh(
    m: StateModel,
    before: Fresh,
    in_flight: Seq<Control>,
    cids: Seq<LocalCid>,
    pending: Seq<u64>,
    at: int,
) -> Fresh
    decreases pending.len() - at,
{
    let draft = before.draft;
    if at >= pending.len() || draft.full() || m.journal.active + fresh_count(draft.streams) + 1
        > m.journal.limit {
        before
    } else {
        let stream_id = pending[at];
        let sender = m.senders[stream_id];
        let (stream_budget, conn_budget, fin_only) = next_piece(m, draft, stream_id, true);
        let flow = lesser(stream_budget, conn_budget);
        let take = lesser(flow, draft.piece_room());
        let count = lesser(take, sender.unsent());
        let piece = fresh_piece(stream_id, sender, count);
        if !m.senders.dom().contains(stream_id) {
            sent_fresh(m, before, in_flight, cids, pending, at + 1)
        } else if flow == 0 && !fin_only {
            let one = if conn_budget == 0 {
                before.told(
                    in_flight,
                    cids,
                    Control::DataBlocked { limit: m.peer_data_limit },
                    Subject::DataBlocked,
                )
            } else {
                before
            };
            let two = if stream_budget == 0 && sender.has_pending() {
                one.told(
                    in_flight,
                    cids,
                    Control::StreamDataBlocked { stream_id, limit: sender.credit },
                    Subject::StreamDataBlocked { stream_id },
                )
            } else {
                one
            };
            sent_fresh(m, two, in_flight, cids, pending, at + 1)
        } else if take == 0 && !fin_only {
            before
        } else if sender.blocked() || (count == 0 && !sender.would_fin(0)) {
            sent_fresh(m, before, in_flight, cids, pending, at + 1)
        } else if !draft.fits_piece(piece, sender) {
            before
        } else {
            sent_fresh(
                m,
                Fresh {
                    draft: draft.with_piece(Delivery { record: piece, known: None }, sender),
                    ..before
                },
                in_flight,
                cids,
                pending,
                at + 1,
            )
        }
    }
}

/// Adds pieces to a packet that is sent before the handshake is complete, from a
/// place of the round on.
pub open spec fn sent_early(
    m: StateModel,
    draft: DraftModel,
    limited: bool,
    pending: Seq<u64>,
    at: int,
) -> DraftModel
    decreases pending.len() - at,
{
    if at >= pending.len() || draft.full() || m.journal.active + fresh_count(draft.streams) + 1
        > m.journal.limit {
        draft
    } else {
        let stream_id = pending[at];
        let sender = m.senders[stream_id];
        let (stream_budget, conn_budget, fin_only) = next_piece(m, draft, stream_id, limited);
        let take = lesser(lesser(stream_budget, conn_budget), draft.piece_room());
        let count = lesser(take, sender.unsent());
        let piece = fresh_piece(stream_id, sender, count);
        if !m.senders.dom().contains(stream_id) || (take == 0 && !fin_only) || sender.blocked() || (
        count == 0 && !sender.would_fin(0)) {
            sent_early(m, draft, limited, pending, at + 1)
        } else if !draft.fits_piece(piece, sender) {
            draft
        } else {
            let more = draft.with_piece(Delivery { record: piece, known: None }, sender);
            if left(more.limit, more.frames.len() as int) <= STREAM_FRAME_OVERHEAD {
                more
            } else {
                sent_early(m, more, limited, pending, at + 1)
            }
        }
    }
}

fn collect_known(streams: &Vec<Delivery>) -> (handles: Vec<Handle>)
    ensures
        handles@ == known_handles(streams@),
{
    let mut handles: Vec<Handle> = Vec::new();
    let mut i: usize = 0;
    assert(streams@.take(0) =~= Seq::empty());
    while i < streams.len()
        invariant
            i <= streams@.len(),
            handles@ == known_handles(streams@.take(i as int)),
        decreases streams@.len() - i,
    {
        assert(streams@.take(i + 1).drop_last() =~= streams@.take(i as int));
        match streams[i].known {
            Some(handle) => {
                handles.push(handle);
            },
            None => {},
        }
        i = i + 1;
    }
    assert(streams@.take(i as int) =~= streams@);
    handles
}

/// How many pieces, and bytes, are sent for the first time.
fn count_fresh(streams: &Vec<Delivery>) -> (result: (usize, u64))
    ensures
        result.0 == fresh_count(streams@),
        result.1 == if fresh_bytes(streams@) <= u64::MAX {
            fresh_bytes(streams@)
        } else {
            u64::MAX as int
        },
        fresh_count(streams@) <= streams@.len(),
{
    let mut count: usize = 0;
    let mut bytes: u64 = 0;
    let mut i: usize = 0;
    assert(streams@.take(0) =~= Seq::empty());
    while i < streams.len()
        invariant
            i <= streams@.len(),
            count <= i,
            count == fresh_count(streams@.take(i as int)),
            bytes == if fresh_bytes(streams@.take(i as int)) <= u64::MAX {
                fresh_bytes(streams@.take(i as int))
            } else {
                u64::MAX as int
            },
        decreases streams@.len() - i,
    {
        assert(streams@.take(i + 1).drop_last() =~= streams@.take(i as int));
        if streams[i].known.is_none() {
            count = count + 1;
            bytes = bytes.saturating_add(streams[i].record.len);
        }
        i = i + 1;
    }
    assert(streams@.take(i as int) =~= streams@);
    (count, bytes)
}

impl State {
    /// Collects the streams of a round of packets. Resets that wait for room are
    /// queued first, so many at most.
    pub fn snapshot_pending_streams(&mut self, control: &mut Pending, control_work: usize) -> (found:
        Vec<u64>)
        requires
            old(self).wf(),
        ensures
            final(self).wf(),
            final(self).names() == old(self).names(),
            (Snapshot { state: final(self)@, control: final(control)@, found: found@ }) == snapshot(
                Snapshot { state: old(self)@, control: old(control)@, found: Seq::empty() },
                control_work as int,
                old(self)@.send_schedule,
            ),
    {
        let ghost start = Snapshot { state: self@, control: control@, found: Seq::empty() };
        let mut order: Vec<u64> = Vec::new();
        order.extend_from_slice(self.send_schedule.as_slice());
        assert(order@ =~= self@.send_schedule);
        let ghost whole = snapshot(start, control_work as int, order@);
        let mut found: Vec<u64> = Vec::new();
        let mut work: usize = control_work;
        let mut i: usize = 0;
        assert(order@.subrange(0, order@.len() as int) =~= order@);
        while i < order.len()
            invariant
                i <= order@.len(),
                self.wf(),
                self.names() == old(self).names(),
                snapshot(
                    Snapshot { state: self@, control: control@, found: found@ },
                    work as int,
                    order@.subrange(i as int, order@.len() as int),
                ) == whole,
            decreases order@.len() - i,
        {
            let stream_id: u64 = order[i];
            let ghost rest = order@.subrange(i as int, order@.len() as int);
            assert(rest.subrange(1, rest.len() as int) =~= order@.subrange(
                i + 1,
                order@.len() as int,
            ));
            assert(rest[0] == stream_id);
            let (deferred, ready) = match self.senders.get(stream_id) {
                Some(sender) => (
                    sender.deferred_reset(),
                    sender.has_pending() && !sender.blocked(),
                ),
                None => (None, false),
            };
            match deferred {
                Some(error_code) => {
                    if work > 0 && (control.has(Subject::Reset { stream_id })
                        || control.has_room()) {
                        let ghost m = self@;
                        self.queue_reset(stream_id, error_code, control);
                        let ghost after = self@.senders[stream_id];
                        self.update_schedule(stream_id);
                        assert(self@.senders =~= m.senders.insert(stream_id, after));
                        assert(self@ =~= m.with_sender(stream_id, after));
                        work = work - 1;
                    }
                },
                None => {
                    if ready && found.len() < STREAM_SCHEDULE_CAPACITY {
                        found.push(stream_id);
                    }
                },
            }
            i = i + 1;
        }
        found
    }

    /// Adds pieces that were lost.
    pub fn append_retransmits(&mut self, draft: &mut Draft, work: usize)
        requires
            old(self).wf(),
        ensures
            final(self).wf(),
            final(self).names() == old(self).names(),
            final(self).can_send() == old(self).can_send(),
            ({
                let (journal, after) = resent(
                    old(self)@.journal,
                    old(draft)@,
                    old(self)@.senders,
                    old(self).names(),
                    work as int,
                );
                &&& final(self)@ == (StateModel { journal, ..old(self)@ })
                &&& final(draft)@ == after
            }),
    {
        let ghost m = self@;
        let ghost names = self.names();
        let ghost whole = resent(m.journal, draft@, m.senders, names, work as int);
        let mut retry = RetryWork::new(work);
        while draft.streams.len() < PACKET_STREAM_CAPACITY
            invariant_except_break
                resent(self@.journal, draft@, m.senders, names, retry.remaining as int) == whole,
            invariant
                self.wf(),
                names == self.names(),
                m == old(self)@,
                self@ == (StateModel { journal: self@.journal, ..m }),
                self.can_send() == old(self).can_send(),
            ensures
                (self@.journal, draft@) == whole,
            decreases retry.remaining,
        {
            let ghost before = self@.journal;
            let ghost drafted = draft@;
            let room: usize = draft.limit.saturating_sub(
                draft.frames.len().saturating_add(STREAM_FRAME_OVERHEAD),
            );
            let excluded = collect_known(&draft.streams);
            proof {
                lemma_work(before, room as int, retry.remaining as int, excluded@);
                assert(room == draft@.piece_room());
            }
            let (handle, owner, record) = match self.journal.next_retransmit(
                room,
                &mut retry,
                excluded.as_slice(),
            ) {
                Some(found) => found,
                None => {
                    break;
                },
            };
            let resolved = self.senders.resolve(owner);
            assert(resolved == names(owner));
            let matches_stream = match resolved {
                Some(stream_id) => stream_id == record.stream_id,
                None => false,
            };
            if !matches_stream {
                self.journal.discard_group(handle);
                continue ;
            }
            let added = match self.senders.get(record.stream_id) {
                Some(sender) => draft.append_stream_frame(
                    Delivery { record, known: Some(handle) },
                    sender,
                ),
                None => false,
            };
            proof {
                self.senders.lemma_named();
                assert(self.senders.named(owner) == Some(record.stream_id));
                assert(self@.senders.dom().contains(record.stream_id));
            }
            if !added {
                break;
            }
        }
    }

    /// Whether so many more records fit the journal.
    fn journal_room(&self, needed: usize) -> (room: bool)
        requires
            self.wf(),
        ensures
            room == (self@.journal.active + needed <= self@.journal.limit),
    {
        proof {
            self.journal.lemma_wf();
        }
        self.journal.has_room(needed)
    }

    /// What can be sent next of a stream: how much the stream and the connection
    /// let through, whether only the end is left, how much was not sent, up to
    /// which offset the peer takes bytes, and whether nothing is sent any more.
    fn budgets(&self, stream_id: u64, draft: &Draft, limited: bool) -> (result: (u64, u64, bool))
        requires
            self.wf(),
            self@.senders.dom().contains(stream_id),
        ensures
            (result.0 as int, result.1 as int, result.2) == next_piece(
                self@,
                draft@,
                stream_id,
                limited,
            ),
    {
        let (count, bytes) = count_fresh(&draft.streams);
        let conn_budget: u64 = if limited {
            self.peer_data_limit.saturating_sub(self.peer_total_sent.saturating_add(bytes))
        } else {
            u64::MAX
        };
        match self.senders.get(stream_id) {
            Some(sender) => (
                sender.credit().saturating_sub(sender.next_offset()),
                conn_budget,
                sender.unsent_len() == 0 && sender.would_fin(0),
            ),
            None => (0, conn_budget, false),
        }
    }

    /// Adds pieces that were not sent yet, for a round of streams.
    pub fn append_fresh(
        &self,
        draft: &mut Draft,
        control: &mut Pending,
        in_flight: &Vec<Control>,
        path: &Path,
        pending: &Vec<u64>,
    )
        requires
            self.wf(),
        ensures
            (Fresh { control: final(control)@, draft: final(draft)@ }) == sent_fresh(
                self@,
                Fresh { control: old(control)@, draft: old(draft)@ },
                in_flight@,
                path.local_cids@,
                pending@,
                0,
            ),
    {
        let ghost cids = path.local_cids@;
        let ghost whole = sent_fresh(
            self@,
            Fresh { control: control@, draft: draft@ },
            in_flight@,
            cids,
            pending@,
            0,
        );
        let mut at: usize = 0;
        loop
            invariant_except_break
                sent_fresh(
                    self@,
                    Fresh { control: control@, draft: draft@ },
                    in_flight@,
                    cids,
                    pending@,
                    at as int,
                ) == whole,
            invariant
                self.wf(),
                at <= pending@.len(),
                cids == path.local_cids@,
            ensures
                (Fresh { control: control@, draft: draft@ }) == whole,
            decreases pending@.len() - at,
        {
            let (fresh, bytes) = count_fresh(&draft.streams);
            if at >= pending.len() || draft.streams.len() >= PACKET_STREAM_CAPACITY
                || !self.journal_room(fresh + 1) {
                break;
            }
            let stream_id: u64 = pending[at];
            let sender = match self.senders.get(stream_id) {
                Some(sender) => sender,
                None => {
                    at = at + 1;
                    continue ;
                },
            };
            let (stream_budget, conn_budget, fin_only) = self.budgets(stream_id, draft, true);
            let flow: u64 = if stream_budget < conn_budget {
                stream_budget
            } else {
                conn_budget
            };
            if flow == 0 && !fin_only {
                if conn_budget == 0 {
                    tell(
                        draft,
                        control,
                        in_flight,
                        path,
                        Control::DataBlocked { limit: self.peer_data_limit },
                    );
                }
                if stream_budget == 0 && sender.has_pending() {
                    tell(
                        draft,
                        control,
                        in_flight,
                        path,
                        Control::StreamDataBlocked { stream_id, limit: sender.credit() },
                    );
                }
                at = at + 1;
                continue ;
            }
            let room: usize = draft.limit.saturating_sub(
                draft.frames.len().saturating_add(STREAM_FRAME_OVERHEAD),
            );
            let take: u64 = if flow < room as u64 {
                flow
            } else {
                room as u64
            };
            if take == 0 && !fin_only {
                break;
            }
            let unsent: usize = sender.unsent_len();
            let count: usize = if take < unsent as u64 {
                take as usize
            } else {
                unsent
            };
            if sender.blocked() || (count == 0 && !sender.would_fin(0)) {
                at = at + 1;
                continue ;
            }
            let record = Stream {
                stream_id,
                offset: sender.next_offset(),
                len: count as u64,
                fin: sender.would_fin(count),
            };
            if !draft.append_stream_frame(Delivery { record, known: None }, sender) {
                break;
            }
            at = at + 1;
        }
    }

    /// Adds pieces to a packet that is sent before the handshake is complete.
    pub fn append_early(&self, draft: &mut Draft, limited: bool, pending: &Vec<u64>)
        requires
            self.wf(),
        ensures
            final(draft)@ == sent_early(self@, old(draft)@, limited, pending@, 0),
    {
        let ghost whole = sent_early(self@, draft@, limited, pending@, 0);
        let mut at: usize = 0;
        loop
            invariant_except_break
                sent_early(self@, draft@, limited, pending@, at as int) == whole,
            invariant
                self.wf(),
                at <= pending@.len(),
            ensures
                draft@ == whole,
            decreases pending@.len() - at,
        {
            let (fresh, bytes) = count_fresh(&draft.streams);
            if at >= pending.len() || draft.streams.len() >= PACKET_STREAM_CAPACITY
                || !self.journal_room(fresh + 1) {
                break;
            }
            let stream_id: u64 = pending[at];
            let sender = match self.senders.get(stream_id) {
                Some(sender) => sender,
                None => {
                    at = at + 1;
                    continue ;
                },
            };
            let (stream_budget, conn_budget, fin_only) = self.budgets(stream_id, draft, limited);
            let flow: u64 = if stream_budget < conn_budget {
                stream_budget
            } else {
                conn_budget
            };
            let room: usize = draft.limit.saturating_sub(
                draft.frames.len().saturating_add(STREAM_FRAME_OVERHEAD),
            );
            let take: u64 = if flow < room as u64 {
                flow
            } else {
                room as u64
            };
            let unsent: usize = sender.unsent_len();
            let count: usize = if take < unsent as u64 {
                take as usize
            } else {
                unsent
            };
            if (take == 0 && !fin_only) || sender.blocked() || (count == 0 && !sender.would_fin(
                0,
            )) {
                at = at + 1;
                continue ;
            }
            let record = Stream {
                stream_id,
                offset: sender.next_offset(),
                len: count as u64,
                fin: sender.would_fin(count),
            };
            if !draft.append_stream_frame(Delivery { record, known: None }, sender) {
                break;
            }
            if draft.room() <= STREAM_FRAME_OVERHEAD {
                break;
            }
            at = at + 1;
        }
    }
}

/// Queues a record that tells of being blocked, and adds it if it fits.
fn tell(
    draft: &mut Draft,
    control: &mut Pending,
    in_flight: &Vec<Control>,
    path: &Path,
    record: Control,
)
    ensures
        (Fresh { control: final(control)@, draft: final(draft)@ }) == (Fresh {
            control: old(control)@,
            draft: old(draft)@,
        }).told(in_flight@, path.local_cids@, record, about(record)),
{
    let subject = record.subject();
    if draft.controls.len() < PACKET_CONTROL_CAPACITY && !covers(in_flight, &record) && !covers(
        &draft.controls,
        &record,
    ) && (control.has(subject) || control.has_room()) {
        control.queue(record);
        draft.append_control(record, path);
    }
}

/// A round of sending again what is in flight.
#[verifier::ext_equal]
pub struct Probing {
    pub journal: JournalModel,
    pub draft: DraftModel,
}

/// Whether a walk over what is in flight went on to a record: all before it were
/// in the packet already.
pub open spec fn walked(
    before: JournalModel,
    excluded: Seq<Handle>,
    after: JournalModel,
    found: Option<(Handle, SendHandle, Stream)>,
) -> bool {
    let walk = before.unprobed();
    &&& after.at_rest() == before.at_rest()
    &&& match found {
        Some((handle, owner, record)) => exists|k: int|
            #![trigger walk[k]]
            {
                let i = walk[k];
                &&& 0 <= k < walk.len()
                &&& handle == before.handle_at(i)
                &&& owner == before.groups.at(before.group_of(i)).owner
                &&& record == before.node(i).record
                &&& !excluded.contains(handle)
                &&& all_excluded(before, walk.take(k), excluded)
                &&& after.unprobed() == walk.skip(k + 1)
            },
        None => all_excluded(before, walk, excluded) && after.unprobed().len() == 0,
    }
}

impl Probing {
    /// Whether one more record in flight was looked at: it is sent again, or
    /// given up if its stream is gone.
    pub open spec fn follows(
        self,
        next: Probing,
        senders: Map<u64, SenderModel>,
        names: spec_fn(SendHandle) -> Option<u64>,
        middle: JournalModel,
        found: (Handle, SendHandle, Stream),
    ) -> bool {
        let (handle, owner, record) = found;
        &&& !self.draft.full()
        &&& walked(self.journal, known_handles(self.draft.streams), middle, Some(found))
        &&& record.len <= self.draft.piece_room()
        &&& if names(owner) != Some(record.stream_id) {
            next.journal == middle.without_group(handle) && next.draft == self.draft
        } else {
            &&& self.draft.fits_piece(record, senders[record.stream_id])
            &&& next.journal == middle
            &&& next.draft == self.draft.with_piece(
                Delivery { record, known: Some(handle) },
                senders[record.stream_id],
            )
        }
    }

    /// Whether the round ends: the packet is full, or nothing is left, or the
    /// next record does not fit.
    pub open spec fn ends(
        self,
        next: Probing,
        senders: Map<u64, SenderModel>,
        names: spec_fn(SendHandle) -> Option<u64>,
        found: Option<(Handle, SendHandle, Stream)>,
    ) -> bool {
        &&& next.draft == self.draft
        &&& if self.draft.full() {
            next.journal == self.journal
        } else {
            &&& walked(self.journal, known_handles(self.draft.streams), next.journal, found)
            &&& match found {
                None => true,
                Some((handle, owner, record)) => record.len > self.draft.piece_room() || (
                names(owner) == Some(record.stream_id) && !self.draft.fits_piece(
                    record,
                    senders[record.stream_id],
                )),
            }
        }
    }
}

/// One look at a record in flight.
pub struct Look {
    pub middle: JournalModel,
    pub found: (Handle, SendHandle, Stream),
}

/// Whether a round went from state to state, and how it ended.
pub open spec fn probed(
    trace: Seq<Probing>,
    looks: Seq<Look>,
    senders: Map<u64, SenderModel>,
    names: spec_fn(SendHandle) -> Option<u64>,
    last: Option<(Handle, SendHandle, Stream)>,
    after: Probing,
) -> bool {
    &&& trace.len() == looks.len() + 1
    &&& forall|i: int|
        0 <= i < looks.len() ==> (#[trigger] trace[i]).follows(
            trace[i + 1],
            senders,
            names,
            looks[i].middle,
            looks[i].found,
        )
    &&& trace.last().ends(after, senders, names, last)
}

/// What a walk has before it is in flight, of groups that have something in
/// flight.
proof fn lemma_later(m: JournalModel, place: int, k: int)
    requires
        0 <= place,
        0 <= k < m.later(place).len(),
    ensures
        exists|p: int|
            0 <= p < m.probe_groups.len() && m.inflight[#[trigger] m.probe_groups[p]].contains(
                m.later(place)[k],
            ),
    decreases m.probe_groups.len() - place,
{
    if place < m.probe_groups.len() {
        let here = m.inflight[m.probe_groups[place]];
        if k < here.len() {
            assert(here.contains(here[k]));
        } else {
            lemma_later(m, place + 1, k - here.len());
        }
    }
}

proof fn lemma_unprobed(m: JournalModel, k: int)
    requires
        m.shaped(),
        m.sound(),
        0 <= k < m.unprobed().len(),
    ensures
        m.probe_groups.contains(m.group_of(m.unprobed()[k])),
        m.nodes.live(m.unprobed()[k]),
        m.valid(m.handle_at(m.unprobed()[k])),
        m.node(m.unprobed()[k]).carriers > 0,
{
    let i = m.unprobed()[k];
    let g0 = m.cursor_group->0;
    let rest = m.later(m.probe_groups.index_of(g0) + 1);
    assert(m.probe_groups.contains(g0));
    let part = match m.cursor_node {
        Some(node) => m.inflight[g0].subrange(
            m.inflight[g0].index_of(node),
            m.inflight[g0].len() as int,
        ),
        None => Seq::empty(),
    };
    let g = if k < part.len() {
        assert(m.inflight[g0].contains(i));
        g0
    } else {
        lemma_later(m, m.probe_groups.index_of(g0) + 1, k - part.len());
        let p = choose|p: int|
            0 <= p < m.probe_groups.len() && m.inflight[#[trigger] m.probe_groups[p]].contains(i);
        m.probe_groups[p]
    };
    assert(m.probe_groups.contains(g));
    assert(m.groups.live(g));
    assert(m.inflight[g].contains(i));
    assert(m.all[g].contains(i));
    assert(m.listed_sound(g, i));
}

/// Giving up the stream of a record in flight leaves fewer groups with something
/// in flight.
proof fn lemma_given_up(m: JournalModel, handle: Handle)
    requires
        m.shaped(),
        m.sound(),
        m.valid(handle),
        m.probe_groups.contains(m.group_of(handle.index as int)),
    ensures
        m.without_group(handle).probe_groups.len() < m.probe_groups.len(),
{
    let i = handle.index as int;
    let g = m.group_of(i);
    assert(m.node_sound(i));
    assert(m.group_sound(g));
    crate::conn::stream_journal::sound::lemma_without(m.probe_groups, g);
}

impl State {
    /// Adds what is in flight once more, from where the walk over it stands.
    pub fn append_probes(&mut self, draft: &mut Draft)
        requires
            old(self).wf(),
        ensures
            final(self).wf(),
            final(self).names() == old(self).names(),
            final(self)@ == (StateModel { journal: final(self)@.journal, ..old(self)@ }),
            exists|
                trace: Seq<Probing>,
                looks: Seq<Look>,
                last: Option<(Handle, SendHandle, Stream)>,
            | #[trigger]
                probed(
                    trace,
                    looks,
                    old(self)@.senders,
                    old(self).names(),
                    last,
                    (Probing { journal: final(self)@.journal, draft: final(draft)@ }),
                ) && trace[0] == (Probing { journal: old(self)@.journal, draft: old(draft)@ }),
    {
        let ghost m = self@;
        let ghost names = self.names();
        let ghost start = Probing { journal: self@.journal, draft: draft@ };
        let ghost mut trace: Seq<Probing> = seq![start];
        let ghost mut looks: Seq<Look> = Seq::empty();
        while draft.streams.len() < PACKET_STREAM_CAPACITY
            invariant
                self.wf(),
                names == self.names(),
                names == old(self).names(),
                m == old(self)@,
                self@ == (StateModel { journal: self@.journal, ..m }),
                start == (Probing { journal: old(self)@.journal, draft: old(draft)@ }),
                trace.len() == looks.len() + 1,
                trace[0] == start,
                forall|i: int|
                    0 <= i < looks.len() ==> (#[trigger] trace[i]).follows(
                        trace[i + 1],
                        m.senders,
                        names,
                        looks[i].middle,
                        looks[i].found,
                    ),
                trace.last() == (Probing { journal: self@.journal, draft: draft@ }),
            decreases
                    self@.journal.probe_groups.len(),
                    PACKET_STREAM_CAPACITY - draft@.streams.len(),
        {
            let ghost before = Probing { journal: self@.journal, draft: draft@ };
            let excluded = collect_known(&draft.streams);
            proof {
                self.journal.lemma_wf();
            }
            let found = self.journal.next_probe(excluded.as_slice());
            let ghost middle = self@.journal;
            assert(walked(before.journal, known_handles(before.draft.streams), middle, found));
            let (handle, owner, record) = match found {
                Some(found) => found,
                None => {
                    assert(probed(
                        trace,
                        looks,
                        m.senders,
                        names,
                        found,
                        Probing { journal: self@.journal, draft: draft@ },
                    ));
                    return;
                },
            };
            let room: usize = draft.limit.saturating_sub(
                draft.frames.len().saturating_add(STREAM_FRAME_OVERHEAD),
            );
            if record.len > room as u64 {
                assert(probed(
                    trace,
                    looks,
                    m.senders,
                    names,
                    found,
                    Probing { journal: self@.journal, draft: draft@ },
                ));
                return;
            }
            let resolved = self.senders.resolve(owner);
            assert(resolved == names(owner));
            let matches_stream = match resolved {
                Some(stream_id) => stream_id == record.stream_id,
                None => false,
            };
            proof {
                let walk = before.journal.unprobed();
                let k = choose|k: int|
                    #![trigger walk[k]]
                    0 <= k < walk.len() && handle == before.journal.handle_at(walk[k]) && record
                        == before.journal.node(walk[k]).record;
                lemma_unprobed(before.journal, k);
                self.journal.lemma_wf();
                let rest = middle.at_rest();
                assert(rest == before.journal.at_rest());
                assert(middle.nodes == rest.nodes && before.journal.nodes == rest.nodes);
                assert(middle.retry == rest.retry && before.journal.retry == rest.retry);
                assert(middle.probe_groups == before.journal.probe_groups);
            }
            if !matches_stream {
                proof {
                    lemma_given_up(middle, handle);
                }
                self.journal.discard_group(handle);
            } else {
                proof {
                    self.senders.lemma_named();
                    assert(self.senders.named(owner) == Some(record.stream_id));
                    assert(self@.senders.dom().contains(record.stream_id));
                }
                let added = match self.senders.get(record.stream_id) {
                    Some(sender) => draft.append_stream_frame(
                        Delivery { record, known: Some(handle) },
                        sender,
                    ),
                    None => false,
                };
                if !added {
                    assert(probed(
                        trace,
                        looks,
                        m.senders,
                        names,
                        found,
                        Probing { journal: self@.journal, draft: draft@ },
                    ));
                    return;
                }
            }
            proof {
                let look = Look { middle, found: (handle, owner, record) };
                let more = trace.push(Probing { journal: self@.journal, draft: draft@ });
                let looked = looks.push(look);
                assert forall|i: int| 0 <= i < looked.len() implies (#[trigger] more[i]).follows(
                    more[i + 1],
                    m.senders,
                    names,
                    looked[i].middle,
                    looked[i].found,
                ) by {
                    if i < looks.len() {
                        assert(more[i] == trace[i]);
                        assert(more[i + 1] == trace[i + 1]);
                        assert(looked[i] == looks[i]);
                    } else {
                        assert(more[i] == before);
                    }
                }
                trace = more;
                looks = looked;
            }
        }
        assert(probed(
            trace,
            looks,
            m.senders,
            names,
            None,
            Probing { journal: self@.journal, draft: draft@ },
        ));
    }

    /// Starts a walk over what is in flight.
    pub fn arm_probes(&mut self)
        requires
            old(self).wf(),
        ensures
            final(self).wf(),
            final(self).names() == old(self).names(),
            final(self)@ == (StateModel { journal: final(self)@.journal, ..old(self)@ }),
            final(self)@.journal.at_rest() == old(self)@.journal.at_rest(),
            final(self)@.journal.unprobed() == old(self)@.journal.later(0),
    {
        self.journal.arm_probes();
    }
}

/// Whether a handle names a stream.
pub open spec fn is_name(
    names: spec_fn(SendHandle) -> Option<u64>,
    handle: SendHandle,
    stream_id: u64,
) -> bool {
    names(handle) == Some(stream_id)
}

/// The handle that names a stream.
pub open spec fn owner_of(names: spec_fn(SendHandle) -> Option<u64>, stream_id: u64) -> SendHandle {
    choose|handle: SendHandle| is_name(names, handle, stream_id)
}

impl StateModel {
    /// Whether a piece can be noted as sent: it is of a stream that is there, and
    /// if it is the next one the stream has as many bytes.
    pub open spec fn commits_fresh(self, record: Stream) -> bool {
        let sender = self.senders[record.stream_id];
        &&& self.senders.dom().contains(record.stream_id)
        &&& sender.next == record.offset ==> record.len <= sender.unsent()
    }

    /// The sending side of a stream after a piece of it was sent. A piece that is
    /// not the next one was sent before.
    pub open spec fn piece_sent(self, record: Stream) -> SenderModel {
        let sender = self.senders[record.stream_id];
        if sender.next == record.offset {
            sender.advanced(record.len as int, record.fin)
        } else {
            sender
        }
    }

    /// After a piece of a stream was sent for the first time, and the name of its
    /// record if there was room for it.
    pub open spec fn fresh_sent(self, record: Stream, owner: SendHandle) -> (
        StateModel,
        Option<Handle>,
    ) {
        let id = record.stream_id;
        let sender = self.senders[id];
        let next = sender.next == record.offset;
        let after = self.piece_sent(record);
        let (journal, group, handle) = self.journal.inserted(
            owner,
            sender.delivery_group,
            record,
        );
        (
            StateModel {
                senders: self.senders.insert(
                    id,
                    SenderModel { delivery_group: group, ..after },
                ),
                journal,
                send_schedule: if next && handle is Some && (!after.has_pending()
                    || after.blocked()) {
                    without_turn(self.send_schedule, id)
                } else {
                    self.send_schedule
                },
                peer_total_sent: if next {
                    capped(self.peer_total_sent + record.len)
                } else {
                    self.peer_total_sent
                },
                ..self
            },
            handle,
        )
    }

    /// After a packet was sent that carries a piece of a stream, and the name of
    /// its record unless it could not be noted.
    pub open spec fn delivered(
        self,
        delivery: Delivery,
        names: spec_fn(SendHandle) -> Option<u64>,
    ) -> (StateModel, Option<Handle>) {
        match delivery.known {
            Some(handle) => (
                StateModel { journal: self.journal.with_carrier(handle), ..self },
                if self.journal.carries(handle) {
                    Some(handle)
                } else {
                    None
                },
            ),
            None => if !self.commits_fresh(delivery.record) {
                (self, None)
            } else {
                self.fresh_sent(delivery.record, owner_of(names, delivery.record.stream_id))
            },
        }
    }
}

impl State {
    /// Notes that a piece of a stream was sent. Gives the name of its record.
    pub fn commit_delivery(&mut self, delivery: Delivery) -> (result: Option<Handle>)
        requires
            old(self).wf(),
        ensures
            final(self).wf(),
            final(self).names() == old(self).names(),
            (final(self)@, result) == old(self)@.delivered(delivery, old(self).names()),
    {
        match delivery.known {
            Some(handle) => {
                if self.journal.add_carrier(handle) {
                    Some(handle)
                } else {
                    None
                }
            },
            None => {
                let ghost m = self@;
                let ghost names = self.names();
                let record = delivery.record;
                let stream_id: u64 = record.stream_id;
                let (next, group, unsent) = match self.senders.get(stream_id) {
                    Some(sender) => (
                        sender.next_offset() == record.offset,
                        sender.delivery_group(),
                        sender.unsent_len(),
                    ),
                    None => {
                        return None;
                    },
                };
                if next && record.len > unsent as u64 {
                    return None;
                }
                let owner = self.senders.send_handle(stream_id);
                proof {
                    self.senders.lemma_named();
                    assert(is_name(names, owner, stream_id));
                    let chosen = owner_of(names, stream_id);
                    assert(is_name(names, chosen, stream_id));
                    assert(self.senders.named(chosen) == Some(stream_id));
                }
                let mut idle = false;
                if next {
                    self.senders.advance_sent(stream_id, record.len, record.fin);
                    self.peer_total_sent = self.peer_total_sent.saturating_add(record.len);
                    idle = match self.senders.get(stream_id) {
                        Some(sender) => !sender.has_pending() || sender.blocked(),
                        None => false,
                    };
                }
                assert(self@.senders =~= m.senders.insert(stream_id, m.piece_sent(record)));
                let mut known = group;
                let handle = self.journal.insert(owner, &mut known, record);
                self.senders.set_delivery_group(stream_id, known);
                assert(self@.senders.dom() =~= m.senders.dom());
                if idle && handle.is_some() {
                    proof {
                        lemma_without_turn(self.send_schedule@, stream_id);
                    }
                    deactivate(&mut self.send_schedule, stream_id);
                }
                assert(self@ =~= m.fresh_sent(record, owner).0);
                assert forall|h: SendHandle| #[trigger] self.named(h) == old(self).named(h) by {}
                assert(self.names() =~= names);
                handle
            },
        }
    }
}

/// Whether a record that tells of being blocked can be sent.
pub open spec fn blocked_tellable(
    control: PendingModel,
    in_flight: Seq<Control>,
    record: Control,
) -> bool {
    !covered_by(in_flight, record) && (control.has(about(record)) || control.has_room())
}

impl StateModel {
    /// Whether something of a stream can be sent, be it that it is blocked.
    pub open spec fn stream_sendable(
        self,
        stream_id: u64,
        control: PendingModel,
        in_flight: Seq<Control>,
    ) -> bool {
        let sender = self.senders[stream_id];
        let connection_budget = left(self.peer_data_limit as int, self.peer_total_sent as int);
        let stream_budget = left(sender.credit as int, sender.next);
        &&& self.senders.dom().contains(stream_id)
        &&& if sender.deferred_reset is Some {
            control.has_room()
        } else if !sender.has_pending() || sender.blocked() {
            false
        } else {
            ||| sender.unsent() == 0 && sender.would_fin(0)
            ||| connection_budget != 0 && stream_budget != 0
            ||| connection_budget == 0 && blocked_tellable(
                control,
                in_flight,
                Control::DataBlocked { limit: self.peer_data_limit },
            )
            ||| stream_budget == 0 && blocked_tellable(
                control,
                in_flight,
                Control::StreamDataBlocked { stream_id, limit: sender.credit },
            )
        }
    }

    /// Whether something of the streams can be sent.
    pub open spec fn any_sendable(self, control: PendingModel, in_flight: Seq<Control>) -> bool {
        ||| self.journal.retry_groups.len() > 0
        ||| exists|i: int|
            0 <= i < self.send_schedule.len() && #[trigger] self.stream_sendable(
                self.send_schedule[i],
                control,
                in_flight,
            )
    }
}

fn can_tell(control: &Pending, in_flight: &Vec<Control>, record: Control) -> (can: bool)
    ensures
        can == blocked_tellable(control@, in_flight@, record),
{
    !covers(in_flight, &record) && (control.has(record.subject()) || control.has_room())
}

impl State {
    /// Whether something was lost.
    pub fn has_retransmit(&self) -> (has: bool)
        requires
            self.wf(),
        ensures
            has == (self@.journal.retry_groups.len() > 0),
    {
        self.journal.has_retransmit()
    }

    /// Whether a stream has a turn.
    pub fn has_scheduled(&self) -> (has: bool)
        ensures
            has == (self@.send_schedule.len() > 0),
    {
        self.send_schedule.len() > 0
    }

    /// Whether the journal has room for so many more records, or something in it
    /// is to be sent again.
    pub fn can_track(&self, count: usize) -> (can: bool)
        requires
            self.wf(),
        ensures
            can == (self@.journal.retry_groups.len() > 0 || self@.journal.active + count
                <= self@.journal.limit),
    {
        self.journal.has_retransmit() || self.journal_room(count)
    }

    /// Whether something of the streams can be sent.
    pub fn has_sendable_stream(&self, control: &Pending, in_flight: &Vec<Control>) -> (sendable:
        bool)
        requires
            self.wf(),
        ensures
            sendable == self@.any_sendable(control@, in_flight@),
    {
        if self.journal.has_retransmit() {
            return true;
        }
        let connection_budget: u64 = self.peer_data_limit.saturating_sub(self.peer_total_sent);
        let mut i: usize = 0;
        while i < self.send_schedule.len()
            invariant
                self.wf(),
                i <= self.send_schedule@.len(),
                self@.journal.retry_groups.len() == 0,
                connection_budget == left(
                    self@.peer_data_limit as int,
                    self@.peer_total_sent as int,
                ),
                forall|j: int|
                    0 <= j < i ==> !#[trigger] self@.stream_sendable(
                        self@.send_schedule[j],
                        control@,
                        in_flight@,
                    ),
            decreases self.send_schedule@.len() - i,
        {
            let stream_id: u64 = self.send_schedule[i];
            let sendable = match self.senders.get(stream_id) {
                Some(sender) => {
                    let stream_budget: u64 = sender.credit().saturating_sub(sender.next_offset());
                    if sender.deferred_reset().is_some() {
                        control.has_room()
                    } else if !sender.has_pending() || sender.blocked() {
                        false
                    } else {
                        (sender.unsent_len() == 0 && sender.would_fin(0)) || (connection_budget
                            != 0 && stream_budget != 0) || (connection_budget == 0 && can_tell(
                            control,
                            in_flight,
                            Control::DataBlocked { limit: self.peer_data_limit },
                        )) || (stream_budget == 0 && can_tell(
                            control,
                            in_flight,
                            Control::StreamDataBlocked { stream_id, limit: sender.credit() },
                        ))
                    }
                },
                None => false,
            };
            assert(sendable == self@.stream_sendable(
                self@.send_schedule[i as int],
                control@,
                in_flight@,
            ));
            if sendable {
                return true;
            }
            i = i + 1;
        }
        false
    }
}

/// A piece that is sent for the first time begins where sending stopped and holds what was
/// written there; it ends the stream exactly where it reaches an end that was not sent.
pub proof fn law_fresh_piece(stream_id: u64, sender: SenderModel, count: int)
    requires
        sender.sound(),
        0 <= count <= sender.unsent(),
    ensures
        ({
            let piece = fresh_piece(stream_id, sender, count);
            let end = sender.start + sender.bytes.len();
            &&& piece.stream_id == stream_id
            &&& piece.offset == sender.next && piece.len == count
            &&& piece.offset + piece.len <= end
            &&& piece.fin == (sender.fin && !sender.fin_sent && piece.offset + piece.len == end)
            &&& sender.available(piece.offset as int, piece.len as int)
        }),
{
}

/// How much of a stream may be sent is what the peer's limit for it, and the one for all
/// streams with what the packet already carries, leave.
pub proof fn law_budgets(m: StateModel, draft: DraftModel, stream_id: u64)
    requires
        0 <= m.senders[stream_id].next <= m.senders[stream_id].credit,
        m.peer_total_sent + fresh_bytes(draft.streams) <= m.peer_data_limit,
    ensures
        ({
            let (stream, connection, _) = next_piece(m, draft, stream_id, true);
            let (_, unlimited, _) = next_piece(m, draft, stream_id, false);
            &&& m.senders[stream_id].next + stream == m.senders[stream_id].credit
            &&& m.peer_total_sent + fresh_bytes(draft.streams) + connection == m.peer_data_limit
            &&& unlimited == u64::MAX
        }),
{
}

/// A stream that is next and has something to send gets as much of it into the packet as the
/// limits and the packet let through.
pub proof fn law_next_stream_is_sent(
    m: StateModel,
    before: Fresh,
    in_flight: Seq<Control>,
    cids: Seq<LocalCid>,
    pending: Seq<u64>,
    at: int,
)
    requires
        at == pending.len() - 1,
        at >= 0,
        m.senders.dom().contains(pending[at]),
        m.senders[pending[at]].sound(),
        !m.senders[pending[at]].blocked(),
        m.senders[pending[at]].unsent() > 0,
        m.senders[pending[at]].credit > m.senders[pending[at]].next,
        m.peer_data_limit > m.peer_total_sent + fresh_bytes(before.draft.streams),
        before.draft.streams.len() < 16,
        m.journal.active + fresh_count(before.draft.streams) + 1 <= m.journal.limit,
        before.draft.limit > before.draft.frames.len() + 25,
        before.draft.fits_piece(
            fresh_piece(
                pending[at],
                m.senders[pending[at]],
                lesser(
                    lesser(
                        lesser(
                            m.senders[pending[at]].credit - m.senders[pending[at]].next,
                            m.peer_data_limit - m.peer_total_sent - fresh_bytes(
                                before.draft.streams,
                            ),
                        ),
                        before.draft.limit - before.draft.frames.len() - 25,
                    ),
                    m.senders[pending[at]].unsent(),
                ),
            ),
            m.senders[pending[at]],
        ),
    ensures
        ({
            let sender = m.senders[pending[at]];
            let after = sent_fresh(m, before, in_flight, cids, pending, at);
            let sent = after.draft.streams.last();
            &&& after.draft.streams.len() == before.draft.streams.len() + 1
            &&& after.draft.streams.drop_last() == before.draft.streams
            &&& sent.known is None
            &&& sent.record.stream_id == pending[at]
            &&& sent.record.offset == sender.next
            &&& sent.record.len > 0
            &&& sent.record.len <= sender.credit - sender.next
            &&& sent.record.len <= m.peer_data_limit - m.peer_total_sent - fresh_bytes(
                before.draft.streams,
            )
            &&& sent.record.len <= sender.unsent()
            &&& sent.record.len <= before.draft.limit - before.draft.frames.len() - 25
            &&& sent.record.len == sender.credit - sender.next || sent.record.len
                == m.peer_data_limit - m.peer_total_sent - fresh_bytes(before.draft.streams)
                || sent.record.len == sender.unsent() || sent.record.len == before.draft.limit
                - before.draft.frames.len() - 25
            &&& after.control == before.control
        }),
{
    reveal_with_fuel(sent_fresh, 2);
    let after = sent_fresh(m, before, in_flight, cids, pending, at);
    assert(after.draft.streams.drop_last() =~= before.draft.streams);
}

/// A stream that its limit holds back is told of with that limit, unless that is on its way
/// or there is no room; so is the connection.
pub proof fn law_blocked_is_told(
    m: StateModel,
    before: Fresh,
    in_flight: Seq<Control>,
    cids: Seq<LocalCid>,
    pending: Seq<u64>,
    at: int,
)
    requires
        at == pending.len() - 1,
        at >= 0,
        m.senders.dom().contains(pending[at]),
        m.senders[pending[at]].sound(),
        m.senders[pending[at]].unsent() > 0,
        before.draft.streams.len() < 16,
        m.journal.active + fresh_count(before.draft.streams) + 1 <= m.journal.limit,
        before.control.has_room(),
        before.draft.controls.len() < 32,
    ensures
        ({
            let stream_id = pending[at];
            let sender = m.senders[stream_id];
            let after = sent_fresh(m, before, in_flight, cids, pending, at);
            let stream = Control::StreamDataBlocked { stream_id, limit: sender.credit };
            let data = Control::DataBlocked { limit: m.peer_data_limit };
            let open = m.peer_data_limit > m.peer_total_sent + fresh_bytes(before.draft.streams);
            &&& open && sender.credit <= sender.next && !covered_by(in_flight, stream)
                && !covered_by(before.draft.controls, stream) ==> after.control.records.contains(
                stream,
            )
            &&& !open && sender.credit > sender.next && !covered_by(in_flight, data)
                && !covered_by(before.draft.controls, data) ==> after.control.records.contains(
                data,
            )
            &&& sender.credit <= sender.next || !open ==> after.draft.streams
                == before.draft.streams
        }),
{
    reveal_with_fuel(sent_fresh, 2);
    let stream_id = pending[at];
    let sender = m.senders[stream_id];
    law_latest_record_waits(
        before.control,
        Control::StreamDataBlocked { stream_id, limit: sender.credit },
    );
    law_latest_record_waits(before.control, Control::DataBlocked { limit: m.peer_data_limit });
}

/// What was sent counts: on the stream, and on the connection. Other streams are as they were.
pub proof fn law_sent_counts(m: StateModel, record: Stream, owner: SendHandle, other: u64)
    requires
        m.senders.dom().contains(record.stream_id),
        m.senders[record.stream_id].next == record.offset,
        m.peer_total_sent + record.len <= u64::MAX,
        other != record.stream_id,
    ensures
        ({
            let (after, _) = m.fresh_sent(record, owner);
            let sender = after.senders[record.stream_id];
            &&& sender.next == record.offset + record.len
            &&& sender.fin_sent == (m.senders[record.stream_id].fin_sent || record.fin)
            &&& sender.bytes == m.senders[record.stream_id].bytes
            &&& after.peer_total_sent == m.peer_total_sent + record.len
            &&& after.peer_data_limit == m.peer_data_limit
            &&& m.senders.dom().contains(other) ==> after.senders[other] == m.senders[other]
            &&& after.limits == m.limits && after.receivers == m.receivers
        }),
{
}

/// A stream takes part in a round exactly where it has something to send, is not held back
/// for good and owes no reset, as long as fewer than 256 take part; in the order of turns.
pub proof fn law_round_has_work(before: Snapshot, work: int, order: Seq<u64>, id: u64)
    requires
        order.no_duplicates(),
    ensures
        ({
            let after = snapshot(before, work, order);
            let sender = before.state.senders[id];
            let ready = before.state.senders.dom().contains(id) && sender.deferred_reset is None
                && sender.has_pending() && !sender.blocked();
            &&& before.found.len() <= after.found.len()
            &&& after.found.take(before.found.len() as int) == before.found
            &&& before.found.len() <= 256 ==> after.found.len() <= 256
            &&& after.found.skip(before.found.len() as int).contains(id) ==> order.contains(id)
                && ready
            &&& order.contains(id) && ready && after.found.len() < 256 ==> after.found.contains(id)
        }),
    decreases order.len(),
{
    if order.len() > 0 {
        let stream_id = order[0];
        let rest = order.subrange(1, order.len() as int);
        let sender = before.state.senders[stream_id];
        assert(rest.no_duplicates());
        if order.contains(id) && id != stream_id {
            let i = order.index_of(id);
            assert(rest[i - 1] == id);
        }
        if rest.contains(id) {
            let i = rest.index_of(id);
            assert(order[i + 1] == id);
        }
        if !before.state.senders.dom().contains(stream_id) {
            law_round_has_work(before, work, rest, id);
        } else if sender.deferred_reset is Some {
            if work > 0 && (before.control.has(Subject::Reset { stream_id })
                || before.control.has_room()) {
                let (after, control) = reset_queued(
                    sender,
                    stream_id,
                    sender.deferred_reset->0,
                    before.control,
                );
                let next = Snapshot {
                    state: before.state.with_sender(stream_id, after),
                    control,
                    found: before.found,
                };
                law_round_has_work(next, work - 1, rest, id);
            } else {
                law_round_has_work(before, work, rest, id);
            }
        } else if sender.has_pending() && !sender.blocked() && before.found.len()
            < STREAM_SCHEDULE_CAPACITY {
            let next = Snapshot { found: before.found.push(stream_id), ..before };
            law_round_has_work(next, work, rest, id);
            let found = snapshot(before, work, order).found;
            let n = before.found.len() as int;
            assert(found.take(n + 1) == next.found);
            assert(found[n] == found.take(n + 1)[n]);
            assert(found.take(n) =~= found.take(n + 1).take(n));
            assert(next.found.take(n) =~= before.found);
            if found.skip(n).contains(id) && id != stream_id {
                let i = found.skip(n).index_of(id);
                assert(i > 0);
                assert(found.skip(n + 1)[i - 1] == id);
            }
            assert(found[n] == stream_id);
        } else {
            law_round_has_work(before, work, rest, id);
        }
    } else {
        assert(before.found.take(before.found.len() as int) =~= before.found);
    }
}

} // verus!
