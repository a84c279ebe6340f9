//! What holds of the streams of a connection, whatever is done with them.
use vstd::prelude::*;

use crate::conn::control::{law_latest_record_waits, Control, PendingModel, Subject};
use crate::conn::send::SenderModel;
use crate::conn::streams::limits::{ours, stream_verdict, uni, Access, Error, StreamError};
use crate::conn::streams::state::drain::Draining;
use crate::conn::streams::state::plan::{span_len, ParsedFrame, Progress, ReceiveAdmission};
use crate::conn::streams::state::transmit::{credit_raised, parts_written, sender_ended};
use crate::conn::streams::state::{
    initial_limits, readable_at, with_reset, with_turn, without_readable, without_turn, Event,
    Setup, StateModel,
};
use crate::frame::Frame;

verus! {

/// A limit of the peer only ever rises: it is the greatest that was told, in whatever order,
/// and a frame that tells of being blocked by it is taken back when it does.
pub proof fn law_limits_only_rise(
    m: StateModel,
    one_way: bool,
    a: u64,
    b: u64,
    control: PendingModel,
)
    ensures
        ({
            let streams = m.streams_allowed(one_way, a).streams_allowed(one_way, b);
            let (once, told) = m.data_allowed(a, control);
            let (data, _) = once.data_allowed(b, told);
            let before = m.limits.local.peer_max.of(one_way);
            let after = streams.limits.local.peer_max.of(one_way);
            &&& after >= before && after >= a && after >= b
            &&& after == before || after == a || after == b
            &&& streams.limits.local.peer_max.of(!one_way) == m.limits.local.peer_max.of(!one_way)
            &&& streams.limits.local.opened == m.limits.local.opened
            &&& data.peer_data_limit >= m.peer_data_limit && data.peer_data_limit >= a
                && data.peer_data_limit >= b
            &&& data.peer_data_limit == m.peer_data_limit || data.peer_data_limit == a
                || data.peer_data_limit == b
            &&& data.peer_total_sent == m.peer_total_sent
            &&& a > m.peer_data_limit ==> told == control.without(Subject::DataBlocked)
            &&& a <= m.peer_data_limit ==> told == control
        }),
{
}

/// The limit of a stream is the greatest that the peer told for it.
pub proof fn law_stream_limit_only_rises(
    sender: SenderModel,
    stream_id: u64,
    a: u64,
    b: u64,
    control: PendingModel,
)
    ensures
        ({
            let (once, told) = credit_raised(sender, stream_id, a, control);
            let (twice, _) = credit_raised(once, stream_id, b, told);
            &&& twice.credit >= sender.credit && twice.credit >= a && twice.credit >= b
            &&& twice.credit == sender.credit || twice.credit == a || twice.credit == b
            &&& twice == (SenderModel { credit: twice.credit, ..sender })
            &&& told == if a > sender.credit {
                control.without(Subject::StreamDataBlocked { stream_id })
            } else {
                control
            }
        }),
{
}

/// A frame of the peer may use a stream of its own that it may open, and one of ours that is
/// there, but not send where only we do nor ask for bytes that only it sends.
pub proof fn law_peer_uses(m: StateModel, stream_id: u64, access: Access, is_client: bool)
    ensures
        ({
            let used = m.used_by_peer(stream_id, access, is_client);
            let is_ours = ours(stream_id, is_client);
            &&& uni(stream_id) && is_ours && access == Access::Receive ==> used is None
            &&& uni(stream_id) && !is_ours && access == Access::Send ==> used is None
            &&& is_ours && stream_id >= m.limits.local.next.of(uni(stream_id)) ==> used is None
            &&& !is_ours && stream_id / 4 >= m.limits.peer.max.of(uni(stream_id)) ==> used is None
            &&& !uni(stream_id) && is_ours && stream_id < m.limits.local.next.of(false)
                ==> used == Some(m)
            &&& !is_ours && used is Some ==> used->0.opened == m.opened.insert(stream_id)
                && used->0.limits == m.limits && used->0.receivers == m.receivers
                && used->0.senders == m.senders
            &&& !is_ours && access == Access::Receive && stream_id / 4 < m.limits.peer.max.of(
                uni(stream_id),
            ) ==> used is Some
        }),
{
}

/// Streams begin with the lowest number of each kind that is ours: none is there yet, the
/// peer allows none yet, and it may open as many as we said.
pub proof fn law_streams_begin(setup: Setup, stream_id: u64, access: Access, available: bool)
    ensures
        ({
            let limits = initial_limits(setup);
            let next = limits.local.next;
            &&& setup.is_client ==> next.bidi == 0 && next.uni == 2
            &&& !setup.is_client ==> next.bidi == 1 && next.uni == 3
            &&& ours(next.bidi, setup.is_client) && !uni(next.bidi)
            &&& ours(next.uni, setup.is_client) && uni(next.uni)
            &&& !limits.accessible(false, stream_id, access, setup.is_client)
            &&& limits.next_local(true, available) is Err
            &&& limits.next_local(false, available) is Err
            &&& limits.peer_may_open(stream_id) == if uni(stream_id) {
                stream_id / 4 < setup.initial_max_uni
            } else {
                stream_id / 4 < setup.initial_max_bidi
            }
            &&& limits.total == 0 && limits.local_max_data == setup.local_max_data
            &&& !limits.any_dirty()
        }),
{
}

/// A turn that is given comes last, one that is there stays where it is, and one that is
/// taken leaves the others in their order.
pub proof fn law_turns_in_order(schedule: Seq<u64>, stream_id: u64)
    requires
        schedule.no_duplicates(),
    ensures
        schedule.contains(stream_id) ==> with_turn(schedule, stream_id) == schedule,
        !schedule.contains(stream_id) ==> with_turn(schedule, stream_id).last() == stream_id
            && with_turn(schedule, stream_id).drop_last() == schedule,
        !without_turn(schedule, stream_id).contains(stream_id),
        !schedule.contains(stream_id) ==> without_turn(schedule, stream_id) == schedule
            && without_turn(with_turn(schedule, stream_id), stream_id) == schedule,
        forall|i: int, j: int|
            0 <= i < j < schedule.len() && schedule[i] != stream_id && schedule[j] != stream_id
                ==> exists|p: int, q: int|
                0 <= p < q < without_turn(schedule, stream_id).len() && #[trigger] without_turn(
                    schedule,
                    stream_id,
                )[p] == #[trigger] schedule[i] && #[trigger] without_turn(
                    schedule,
                    stream_id,
                )[q] == #[trigger] schedule[j],
{
    crate::conn::streams::state::lemma_without_turn(schedule, stream_id);
    if !schedule.contains(stream_id) {
        let more = schedule.push(stream_id);
        assert(more.drop_last() =~= schedule);
        assert(more[schedule.len() as int] == stream_id);
        assert(more.index_of(stream_id) == schedule.len()) by {
            let at = more.index_of(stream_id);
            if at < schedule.len() {
                assert(schedule[at] == stream_id);
            }
        }
        assert(more.remove(schedule.len() as int) =~= schedule);
    }
    let rest = without_turn(schedule, stream_id);
    assert forall|i: int, j: int|
        0 <= i < j < schedule.len() && schedule[i] != stream_id && schedule[j]
            != stream_id implies exists|p: int, q: int|
        0 <= p < q < rest.len() && #[trigger] rest[p] == #[trigger] schedule[i] && #[trigger] rest[q]
            == #[trigger] schedule[j] by {
        if schedule.contains(stream_id) {
            let at = schedule.index_of(stream_id);
            let p = if i < at {
                i
            } else {
                i - 1
            };
            let q = if j < at {
                j
            } else {
                j - 1
            };
            assert(rest[p] == schedule[i] && rest[q] == schedule[j]);
        } else {
            assert(rest[i] == schedule[i] && rest[j] == schedule[j]);
        }
    }
}

/// What was written is sent where the stream still can be: written in two parts it is what is
/// written at once, and the end comes behind it.
pub proof fn law_parts_are_one(
    sender: SenderModel,
    first: Seq<u8>,
    second: Seq<u8>,
    fin: bool,
)
    requires
        sender.sound(),
    ensures
        ({
            let (after, written) = parts_written(sender, first, Some(second), fin);
            let fits = sender.start + sender.bytes.len() + first.len() + second.len()
                <= 0x3fff_ffff_ffff_ffff;
            &&& sender.blocked() ==> after == sender && written
            &&& !sender.blocked() ==> written == fits
            &&& !sender.blocked() && fits ==> after.bytes == sender.bytes + first + second
                && after.fin == (sender.fin || fin) && after.next == sender.next
                && after.start == sender.start && after.credit == sender.credit && after.fin_sent
                == sender.fin_sent
            &&& !sender.blocked() && fits ==> after == parts_written(
                parts_written(sender, first, None, false).0,
                second,
                None,
                fin,
            ).0
            &&& !sender.blocked() ==> sender_ended(sender).fin && sender_ended(sender).bytes
                == sender.bytes && sender_ended(sender).next == sender.next
            &&& sender.blocked() ==> sender_ended(sender) == sender
        }),
{
}

/// What is read is allowed again, on the stream and on the connection, as long as the stream
/// goes on; the peer is told of the stream's limit by a frame that waits, or the stream gets
/// a turn to tell it.
pub proof fn law_reading_gives_credit(
    m: StateModel,
    stream_id: u64,
    is_client: bool,
    control: PendingModel,
)
    requires
        m.receivers.dom().contains(stream_id),
        m.receivers[stream_id].ready.len() > 0,
        m.receivers[stream_id].limit + m.receivers[stream_id].ready.len() <= u64::MAX,
        m.limits.local_max_data + m.receivers[stream_id].ready.len() <= u64::MAX,
        m.receivers[stream_id].final_size != Some(m.receivers[stream_id].store.next as u64)
            || m.receivers[stream_id].store.next < 0 || m.receivers[stream_id].store.next
            > u64::MAX,
    ensures
        ({
            let before = m.receivers[stream_id];
            let count = before.ready.len();
            let (after, told) = m.recv_read(stream_id, is_client, control);
            let receiver = after.receivers[stream_id];
            let waits = control.has(Subject::StreamData { stream_id });
            let limit = (before.limit + count) as u64;
            &&& after.receivers.dom() == m.receivers.dom()
            &&& receiver.ready.len() == 0
            &&& receiver.limit == before.limit + count
            &&& receiver.highest == before.highest && receiver.final_size == before.final_size
            &&& receiver.store == before.store
            &&& after.limits.local_max_data == m.limits.local_max_data + count
            &&& after.limits.total == m.limits.total
            &&& waits ==> told == m.limits.data_released(
                count as u64,
                control.queued(Control::MaxStreamData { stream_id, limit }),
            ).1
            &&& !waits ==> receiver.credit_dirty && after.control_schedule.contains(stream_id)
                && told == m.limits.data_released(count as u64, control).1
            &&& after.senders == m.senders && after.send_schedule == m.send_schedule
            &&& after.recv_retired == m.recv_retired
        }),
{
    let (after, told) = m.recv_read(stream_id, is_client, control);
    assert(after.receivers.dom() =~= m.receivers.dom());
    let more = with_turn(m.control_schedule, stream_id);
    if !m.control_schedule.contains(stream_id) {
        assert(more[m.control_schedule.len() as int] == stream_id);
    }
}

/// What is read at the end of a stream is allowed again on the connection; the stream's
/// receiving side is gone, and what it owed the peer with it.
pub proof fn law_reading_to_the_end(
    m: StateModel,
    stream_id: u64,
    is_client: bool,
    control: PendingModel,
)
    requires
        m.receivers.dom().contains(stream_id),
        m.receivers[stream_id].final_size matches Some(size) && size
            == m.receivers[stream_id].store.next,
        !m.recv_retired.contains(stream_id),
        m.control_schedule.no_duplicates(),
        m.limits.local_max_data + m.receivers[stream_id].ready.len() <= u64::MAX,
    ensures
        ({
            let count = m.receivers[stream_id].ready.len();
            let (after, told) = m.recv_read(stream_id, is_client, control);
            &&& !after.receivers.dom().contains(stream_id)
            &&& after.recv_retired == m.recv_retired.insert(stream_id)
            &&& !after.control_schedule.contains(stream_id)
            &&& after.limits.local_max_data == m.limits.local_max_data + count
            &&& after.senders == m.senders
        }),
{
    crate::conn::streams::state::lemma_without_turn(m.control_schedule, stream_id);
}

/// A stream of the peer that goes both ways is counted as closed once, when both of its sides
/// have come to an end, whichever does first.
pub proof fn law_peer_stream_closes_once(
    m: StateModel,
    stream_id: u64,
    is_client: bool,
    a: PendingModel,
    b: PendingModel,
)
    requires
        !ours(stream_id, is_client),
        !uni(stream_id),
        m.senders.dom().contains(stream_id),
        !m.recv_retired.contains(stream_id),
        !m.send_retired.contains(stream_id),
        m.limits.peer.max.bidi + m.limits.peer.closed.bidi + 1 <= 0x1000_0000_0000_0000,
    ensures
        ({
            let count = |m: StateModel| m.limits.peer.max.bidi + m.limits.peer.closed.bidi;
            let received = m.recv_finished(stream_id, is_client, a).0;
            let sent = m.send_ended(stream_id, is_client, a).0;
            let received_first = received.send_ended(stream_id, is_client, b).0;
            let sent_first = sent.recv_finished(stream_id, is_client, b).0;
            &&& count(received) == count(m) && count(sent) == count(m)
            &&& count(received_first) == count(m) + 1
            &&& count(sent_first) == count(m) + 1
            &&& received_first.recv_retired == sent_first.recv_retired
            &&& received_first.send_retired == sent_first.send_retired
            &&& received_first.senders == sent_first.senders
            &&& received_first.recv_finished(stream_id, is_client, b) == (received_first, b)
        }),
{
    let received = m.recv_finished(stream_id, is_client, a).0;
    let sent = m.send_ended(stream_id, is_client, a).0;
    crate::conn::streams::limits::law_closed_streams_allowed_again(
        m.limits,
        false,
        b.without(Subject::Reset { stream_id }).without(Subject::StreamDataBlocked { stream_id }),
    );
    crate::conn::streams::limits::law_closed_streams_allowed_again(m.limits, false, b);
}

/// One of our streams makes room for another once, when it has come to an end: one that goes
/// both ways when both of its sides have, whichever does first.
pub proof fn law_our_stream_makes_room_once(
    m: StateModel,
    stream_id: u64,
    is_client: bool,
    a: PendingModel,
    b: PendingModel,
)
    requires
        ours(stream_id, is_client),
        stream_id < m.limits.local.next.of(uni(stream_id)),
        m.senders.dom().contains(stream_id),
        !m.recv_retired.contains(stream_id),
        m.limits.local.active.of(uni(stream_id)) > 0,
    ensures
        ({
            let active = |m: StateModel| m.limits.local.active.of(uni(stream_id)) as int;
            let received = m.recv_finished(stream_id, is_client, a).0;
            let sent = m.send_ended(stream_id, is_client, a).0;
            let received_first = received.send_ended(stream_id, is_client, b).0;
            let sent_first = sent.recv_finished(stream_id, is_client, b).0;
            &&& !uni(stream_id) ==> active(received) == active(m) && active(sent) == active(m)
            &&& !uni(stream_id) ==> active(received_first) == active(m) - 1
                && active(sent_first) == active(m) - 1
            &&& uni(stream_id) ==> active(sent) == active(m) - 1
            &&& !sent.senders.dom().contains(stream_id)
            &&& sent.limits.local.opened == m.limits.local.opened
            &&& sent.limits.peer == m.limits.peer
        }),
{
}

/// A stream of the peer that goes one way is counted as closed when it was received.
pub proof fn law_one_way_stream_closes(
    m: StateModel,
    stream_id: u64,
    is_client: bool,
    control: PendingModel,
)
    requires
        !ours(stream_id, is_client),
        uni(stream_id),
        !m.recv_retired.contains(stream_id),
        m.limits.peer.max.uni + m.limits.peer.closed.uni + 1 <= 0x1000_0000_0000_0000,
    ensures
        ({
            let (after, told) = m.recv_finished(stream_id, is_client, control);
            &&& after.limits.peer.max.uni + after.limits.peer.closed.uni == m.limits.peer.max.uni
                + m.limits.peer.closed.uni + 1
            &&& after.recv_retired == m.recv_retired.insert(stream_id)
            &&& after.recv_finished(stream_id, is_client, told) == (after, told)
        }),
{
    crate::conn::streams::limits::law_closed_streams_allowed_again(m.limits, true, control);
}

/// A reset takes away what was to be told of a stream that can be read, and is told itself,
/// in its place or last; nothing else is lost.
pub proof fn law_reset_told(events: Seq<Event>, stream_id: u64, error_code: u64)
    ensures
        ({
            let after = with_reset(events, stream_id, error_code);
            let reset = Event::Reset { stream_id, error_code };
            &&& after.contains(reset)
            &&& events.contains(Event::Readable { stream_id }) ==> after.len() == events.len()
            &&& !events.contains(Event::Readable { stream_id }) ==> after == events.push(reset)
            &&& forall|i: int|
                0 <= i < events.len() && events[i] != (Event::Readable { stream_id })
                    ==> #[trigger] after[i] == events[i]
        }),
{
    lemma_readable_place(events, stream_id);
    let after = with_reset(events, stream_id, error_code);
    let at = readable_at(events, stream_id);
    if at < events.len() {
        assert(after[at] == (Event::Reset { stream_id, error_code }));
    } else {
        assert(after[events.len() as int] == (Event::Reset { stream_id, error_code }));
    }
}

proof fn lemma_readable_place(events: Seq<Event>, stream_id: u64)
    ensures
        0 <= readable_at(events, stream_id) <= events.len(),
        events.contains(Event::Readable { stream_id }) == (readable_at(events, stream_id)
            < events.len()),
        readable_at(events, stream_id) < events.len() ==> events[readable_at(events, stream_id)]
            == (Event::Readable { stream_id }),
    decreases events.len(),
{
    let sought = Event::Readable { stream_id };
    if events.len() > 0 && events[0] != sought {
        let rest = events.subrange(1, events.len() as int);
        lemma_readable_place(rest, stream_id);
        let at = readable_at(rest, stream_id);
        if at < rest.len() {
            assert(rest[at] == events[at + 1]);
        }
        if events.contains(sought) {
            let i = events.index_of(sought);
            assert(rest[i - 1] == sought);
        }
    } else if events.len() > 0 {
        assert(events[0] == sought);
    }
}

/// No event is left that tells of something to read on the stream, and each other event is
/// left as often as it was there.
pub proof fn law_readable_withdrawn(events: Seq<Event>, stream_id: u64)
    ensures
        ({
            let after = without_readable(events, stream_id);
            &&& !after.contains(Event::Readable { stream_id })
            &&& after == events.filter(|event: Event| event != (Event::Readable { stream_id }))
        }),
    decreases events.len(),
{
    let kept = |event: Event| event != (Event::Readable { stream_id });
    let after = without_readable(events, stream_id);
    reveal(Seq::filter);
    if events.len() > 0 {
        law_readable_withdrawn(events.drop_last(), stream_id);
        let rest = without_readable(events.drop_last(), stream_id);
        if after.contains(Event::Readable { stream_id }) {
            let i = after.index_of(Event::Readable { stream_id });
            if i < rest.len() {
                assert(rest[i] == (Event::Readable { stream_id }));
            }
        }
    }
}

/// An event that was looked at is told again when it comes again, and looking changes nothing
/// else.
pub proof fn law_told_again(m: StateModel, event: Event, other: u64)
    ensures
        ({
            let after = m.told(event);
            &&& after.receivers.dom() == m.receivers.dom() && after.senders.dom()
                == m.senders.dom()
            &&& event matches Event::Readable { stream_id } ==> (m.receivers.dom().contains(
                stream_id,
            ) ==> !after.receivers[stream_id].event_pending)
            &&& event matches Event::Stopped { stream_id, .. } ==> (m.senders.dom().contains(
                stream_id,
            ) ==> !after.senders[stream_id].stop_event_pending)
            &&& m.receivers.dom().contains(other) ==> after.receivers[other].ready
                == m.receivers[other].ready && after.receivers[other].limit
                == m.receivers[other].limit
            &&& after.limits == m.limits && after.control_schedule == m.control_schedule
                && after.send_schedule == m.send_schedule
        }),
{
    let after = m.told(event);
    assert(after.receivers.dom() =~= m.receivers.dom());
    assert(after.senders.dom() =~= m.senders.dom());
}

/// The peer is asked to stop with the error code that was given, now or once there is room.
pub proof fn law_stop_is_asked(
    m: StateModel,
    stream_id: u64,
    error_code: u64,
    is_client: bool,
    control: PendingModel,
)
    ensures
        ({
            let (after, told) = m.stop_asked(stream_id, error_code, is_client, control);
            let fits = control.has(Subject::Stop { stream_id }) || control.records.len()
                < control.capacity;
            &&& fits ==> told.records.contains(Control::StopSending { stream_id, error_code })
                && after.receivers[stream_id].deferred_stop is None
            &&& !fits ==> told == control && after.receivers[stream_id].deferred_stop == Some(
                error_code,
            )
            &&& after.control_schedule.contains(stream_id)
            &&& after.receivers[stream_id].limit == m.receiver(stream_id, is_client).limit
            &&& after.receivers[stream_id].highest == m.receiver(stream_id, is_client).highest
            &&& after.senders == m.senders && after.limits == m.limits
        }),
{
    law_latest_record_waits(control, Control::StopSending { stream_id, error_code });
    let more = with_turn(m.control_schedule, stream_id);
    if !m.control_schedule.contains(stream_id) {
        assert(more[m.control_schedule.len() as int] == stream_id);
    }
}

/// What is owed the peer is told where there is room and one more may be told, and is owed no
/// longer then; otherwise nothing changes but that telling stops.
pub proof fn law_owed_is_told(d: Draining, is_uni: bool, stream_id: u64)
    requires
        d.open,
    ensures
        ({
            let room = d.remaining > 0 && d.control.records.len() < d.control.capacity;
            let data = d.data();
            let streams = d.streams(is_uni);
            let credit = d.credit(stream_id);
            let stop = d.stop(stream_id);
            let receiver = d.state.receivers[stream_id];
            &&& d.state.limits.data_dirty && room ==> data.control.records.contains(
                Control::MaxData { limit: d.state.limits.local_max_data },
            ) && !data.state.limits.data_dirty && data.remaining == d.remaining - 1 && data.open
            &&& d.state.limits.data_dirty && !room ==> data == (Draining { open: false, ..d })
            &&& !d.state.limits.data_dirty ==> data == d
            &&& d.state.limits.streams_dirty(is_uni) && room ==> streams.control.records.contains(
                Control::MaxStreams { is_uni, max: d.state.limits.peer.max.of(is_uni) },
            ) && !streams.state.limits.streams_dirty(is_uni) && streams.remaining == d.remaining
                - 1
            &&& d.state.limits.streams_dirty(is_uni) && !room ==> streams == (Draining {
                open: false,
                ..d
            })
            &&& !d.state.limits.streams_dirty(is_uni) ==> streams == d
            &&& receiver.credit_dirty && room ==> credit.control.records.contains(
                Control::MaxStreamData { stream_id, limit: receiver.limit },
            ) && !credit.state.receivers[stream_id].credit_dirty && credit.remaining
                == d.remaining - 1
            &&& receiver.credit_dirty && !room ==> credit == (Draining { open: false, ..d })
            &&& !receiver.credit_dirty ==> credit == d
            &&& receiver.deferred_stop is Some && room ==> stop.control.records.contains(
                Control::StopSending { stream_id, error_code: receiver.deferred_stop->0 },
            ) && stop.state.receivers[stream_id].deferred_stop is None && stop.remaining
                == d.remaining - 1
            &&& receiver.deferred_stop is Some && !room ==> stop == (Draining { open: false, ..d })
            &&& receiver.deferred_stop is None ==> stop == d
            &&& data.state.limits.local_max_data == d.state.limits.local_max_data
            &&& streams.state.limits.peer == d.state.limits.peer
            &&& credit.state.receivers[stream_id].limit == receiver.limit
        }),
{
    let receiver = d.state.receivers[stream_id];
    law_latest_record_waits(
        d.control,
        Control::MaxData { limit: d.state.limits.local_max_data },
    );
    law_latest_record_waits(
        d.control,
        Control::MaxStreams { is_uni, max: d.state.limits.peer.max.of(is_uni) },
    );
    law_latest_record_waits(
        d.control,
        Control::MaxStreamData { stream_id, limit: receiver.limit },
    );
    if receiver.deferred_stop is Some {
        law_latest_record_waits(
            d.control,
            Control::StopSending { stream_id, error_code: receiver.deferred_stop->0 },
        );
    }
}

/// What is planned for the frames of a packet is what holds when they are applied: bytes that
/// the plan takes are accepted as far as the stream goes, those that it refuses for the
/// stream's limit or size are refused, and it counts as reached what they reach.
pub proof fn law_plan_foretells(
    p: Progress,
    index: int,
    frame: ParsedFrame,
    limit: u64,
    resets: bool,
    next: Progress,
)
    requires
        !p.closed,
        p.follows(index, frame, limit, resets, next),
        0 <= index < p.admissions.len(),
    ensures
        frame matches Frame::Stream { offset, fin, data, .. } ==> {
            let end = offset@ + span_len(data);
            &&& stream_verdict(limit, p.highest, p.final_size, 0, u64::MAX, end, fin) == Ok::<
                u64,
                Error,
            >((next.highest - p.highest) as u64)
            &&& next.highest >= end && next.highest >= p.highest
            &&& fin ==> next.final_size == Some(next.highest)
            &&& !fin ==> next.final_size == p.final_size
            &&& next.admissions[index] == if resets {
                ReceiveAdmission::StreamTransient
            } else {
                ReceiveAdmission::Stream
            }
            &&& !next.closed
            &&& next.event_pending == (p.event_pending || span_len(data) > 0 || fin)
        },
        frame matches Frame::ResetStream { final_size, .. } ==> {
            &&& stream_verdict(
                limit,
                p.highest,
                p.final_size,
                0,
                u64::MAX,
                final_size@ as int,
                true,
            ) == Ok::<u64, Error>((next.highest - p.highest) as u64)
            &&& next.highest == final_size@
            &&& next.closed
            &&& next.admissions[index] == ReceiveAdmission::Reset
        },
        frame is Stream || frame is ResetStream,
{
}

/// What the plan refuses for the stream's limit or size is what is refused when it is applied.
pub proof fn law_plan_refuses(p: Progress, frame: ParsedFrame, limit: u64)
    requires
        !p.closed,
    ensures
        frame matches Frame::Stream { offset, fin, data, .. } ==> (offset@ + span_len(data)
            <= u64::MAX ==> {
            let verdict = stream_verdict(
                limit,
                p.highest,
                p.final_size,
                0,
                u64::MAX,
                offset@ + span_len(data),
                fin,
            );
            &&& verdict matches Err(error) ==> p.refusal(frame, limit) == Some(error)
            &&& p.refusal(frame, limit) matches Some(error) ==> error
                == Error::StreamBufferExceeded || verdict == Err::<u64, Error>(error)
        }),
        frame matches Frame::ResetStream { final_size, .. } ==> match stream_verdict(
            limit,
            p.highest,
            p.final_size,
            0,
            u64::MAX,
            final_size@ as int,
            true,
        ) {
            Ok(_) => p.refusal(frame, limit) is None,
            Err(error) => p.refusal(frame, limit) == Some(error),
        },
{
}

/// An operation is refused exactly where the number of the stream has no wire form, the
/// connection cannot be used, or the stream cannot be used in that way.
pub proof fn law_operations_refused(
    m: StateModel,
    stream_id: u64,
    access: Access,
    is_client: bool,
    available: bool,
)
    ensures
        ({
            let there = if ours(stream_id, is_client) {
                stream_id < m.limits.local.next.of(uni(stream_id))
            } else {
                m.opened.contains(stream_id)
            };
            let wrong_way = uni(stream_id) && (ours(stream_id, is_client) == (access
                == Access::Receive));
            match m.operation_error(stream_id, access, is_client, available) {
                Some(StreamError::IdOverflow) => stream_id > 0x3fff_ffff_ffff_ffff,
                Some(StreamError::NotEstablished) => stream_id <= 0x3fff_ffff_ffff_ffff
                    && !available,
                Some(StreamError::InvalidStream) => stream_id <= 0x3fff_ffff_ffff_ffff && available
                    && (!there || wrong_way),
                Some(_) => false,
                None => stream_id <= 0x3fff_ffff_ffff_ffff && available && there && !wrong_way,
            }
        }),
{
}

/// A stream has a turn to send exactly where it owes a reset, or has something to send and is
/// not held back for good; the turns of other streams stay.
pub proof fn law_turn_where_work_is(m: StateModel, stream_id: u64, sender: SenderModel, other: u64)
    requires
        m.send_schedule.no_duplicates(),
        other != stream_id,
    ensures
        ({
            let after = m.with_sender(stream_id, sender);
            let end = sender.start + sender.bytes.len();
            let work = sender.next < end || (sender.fin && !sender.fin_sent);
            &&& after.send_schedule.contains(stream_id) == (sender.deferred_reset is Some || (work
                && sender.stopped is None && !sender.reset_sent))
            &&& after.send_schedule.contains(other) == m.send_schedule.contains(other)
            &&& after.senders[stream_id] == sender
            &&& m.senders.dom().contains(other) ==> after.senders[other] == m.senders[other]
            &&& after.receivers == m.receivers && after.limits == m.limits
        }),
{
    crate::conn::streams::state::lemma_with_turn(m.send_schedule, stream_id);
    crate::conn::streams::state::lemma_without_turn(m.send_schedule, stream_id);
}

/// What a request to stop would take is what it takes: an event where none waits, and a place
/// where the peer's stream has none yet. It breaks the rules on a stream that only the peer
/// sends on, or that is not there.
pub proof fn law_stop_takes(m: StateModel, stream_id: u64, is_client: bool)
    ensures
        ({
            let is_ours = ours(stream_id, is_client);
            let allowed = if is_ours {
                stream_id < m.limits.local.next.of(uni(stream_id))
            } else {
                !uni(stream_id) && stream_id / 4 < m.limits.peer.max.bidi
            };
            let gone = if is_ours {
                !m.senders.dom().contains(stream_id)
            } else {
                m.send_retired.contains(stream_id)
            };
            match m.stop_impact(stream_id, is_client) {
                Err(error) => !allowed && error == Error::ProtocolViolation,
                Ok(impact) => {
                    &&& allowed
                    &&& impact.active == !gone
                    &&& gone ==> impact.event_slots == 0 && impact.stream_slots == 0
                    &&& !gone && m.senders.dom().contains(stream_id) ==> impact.stream_slots == 0
                        && (impact.event_slots == 0) == m.senders[stream_id].stop_event_pending
                        && impact.event_slots <= 1
                    &&& !gone && !m.senders.dom().contains(stream_id) ==> impact.stream_slots == 1
                        && impact.event_slots == 1
                },
            }
        }),
{
}

} // verus!
