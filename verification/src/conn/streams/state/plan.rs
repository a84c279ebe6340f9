//! What the frames of a packet will take, told before any of them is applied.
use vstd::prelude::*;

use crate::conn::streams::limits::{ours, we_initiated, Access, Error};
use crate::conn::streams::state::{State, StateModel};
use crate::frame::{put_bytes, Frame};
use crate::range_buffer::{
    greater, lemma_missing, measure, pairs_of, picked, places, Plan, PlanModel, StoreModel,
    MAX_RANGES,
};

verus! {

/// Where in a packet bytes are.
#[derive(Debug, Clone, Copy, PartialEq, Eq, Structural)]
pub struct Span {
    pub start: usize,
    pub end: usize,
}

/// How many bytes a span holds.
pub open spec fn span_len(span: Span) -> int {
    if span.start <= span.end {
        span.end - span.start
    } else {
        0
    }
}

impl Span {
    pub fn len(&self) -> (len: usize)
        ensures
            len == span_len(*self),
    {
        if self.start <= self.end {
            self.end - self.start
        } else {
            0
        }
    }
}

/// A frame whose bytes stay in the packet.
pub type ParsedFrame = Frame<Span, Span>;

/// How a frame is to be applied.
#[derive(Debug, Clone, Copy, PartialEq, Eq, Structural)]
pub enum ReceiveAdmission {
    Ignored,
    /// Its bytes are taken.
    Stream,
    /// The stream is reset later in the same packet: only how far the stream goes
    /// counts.
    StreamTransient,
    Reset,
}

/// What is taken of the bytes of a frame.
#[derive(Debug, Clone, Copy, PartialEq, Eq, Structural)]
pub struct PayloadPlan {
    pub start: usize,
    pub accepted: usize,
}

/// What the frames of one stream will take.
#[derive(Debug, Clone, Copy, PartialEq, Eq, Structural)]
pub struct AdmissionImpact {
    pub accepted_bytes: usize,
    pub stream_slots: usize,
    pub range_slots: usize,
    pub event_slots: usize,
    pub flow_control_bytes: u64,
}

/// The stream that a frame is about, if it brings bytes or a reset.
pub open spec fn stream_of(frame: ParsedFrame) -> Option<u64> {
    match frame {
        Frame::Stream { stream_id, .. } => Some(stream_id@),
        Frame::ResetStream { stream_id, .. } => Some(stream_id@),
        _ => None,
    }
}

fn frame_stream(frame: &ParsedFrame) -> (stream_id: Option<u64>)
    ensures
        stream_id == stream_of(*frame),
{
    match frame {
        Frame::Stream { stream_id, offset, fin, length_prefixed, data } => Some(stream_id.get()),
        Frame::ResetStream { stream_id, error_code, final_size } => Some(stream_id.get()),
        _ => None,
    }
}

/// The stream of a group of frames: that of the first.
pub open spec fn group_stream(indices: Seq<usize>, frames: Seq<ParsedFrame>) -> Option<u64> {
    if indices.len() == 0 {
        None
    } else {
        stream_of(frames[indices[0] as int])
    }
}

/// Whether a group of frames resets its stream.
pub open spec fn will_reset(indices: Seq<usize>, frames: Seq<ParsedFrame>) -> bool {
    exists|i: int| 0 <= i < indices.len() && frames[#[trigger] indices[i] as int] is ResetStream
}

/// Whether indices are those of frames.
pub open spec fn in_frames(indices: Seq<usize>, frames: Seq<ParsedFrame>) -> bool {
    forall|i: int| 0 <= i < indices.len() ==> #[trigger] indices[i] < frames.len()
}

/// How far the frames of a stream were gone through.
#[verifier::ext_equal]
pub struct Progress {
    pub highest: u64,
    pub final_size: Option<u64>,
    pub event_pending: bool,
    pub present: bool,
    /// What will be here, unless the stream is reset.
    pub plan: Option<PlanModel>,
    pub accepted_bytes: int,
    pub segments: int,
    pub stream_slots: int,
    pub event_slots: int,
    /// The most ranges that will wait at once.
    pub peak: int,
    pub closed: bool,
    pub admissions: Seq<ReceiveAdmission>,
    pub payloads: Seq<PayloadPlan>,
}

impl Progress {
    /// How many bytes of a frame are taken.
    pub open spec fn accepts(self, offset: u64, len: int) -> int {
        match self.plan {
            Some(plan) => measure(plan.wanted(offset as int, len)),
            None => 0,
        }
    }

    /// How many pieces of a frame are taken.
    pub open spec fn pieces(self, offset: u64, len: int) -> int {
        match self.plan {
            Some(plan) => plan.wanted(offset as int, len).len() as int,
            None => 0,
        }
    }

    /// Why a frame cannot be applied, if it cannot.
    pub open spec fn refusal(self, frame: ParsedFrame, limit: u64) -> Option<Error> {
        if self.closed {
            None
        } else {
            match frame {
                Frame::Stream { offset, fin, data, .. } => {
                    let len = span_len(data);
                    let end = offset@ + len;
                    if end > u64::MAX {
                        Some(Error::StreamBufferExceeded)
                    } else if end > limit {
                        Some(Error::FlowControl)
                    } else if (self.final_size matches Some(known) && (end > known || fin && end
                        != known)) || fin && end < self.highest {
                        Some(Error::FinalSize)
                    } else if (self.plan matches Some(plan) && plan.refusal(
                        offset@ as int,
                        len,
                        MAX_RANGES as int,
                    ) is Some) || self.segments + self.pieces(offset@, len) > usize::MAX
                        || self.accepted_bytes + self.accepts(offset@, len) > usize::MAX {
                        Some(Error::StreamBufferExceeded)
                    } else {
                        None
                    }
                },
                Frame::ResetStream { final_size, .. } => if final_size@ > limit {
                    Some(Error::FlowControl)
                } else if final_size@ < self.highest || (self.final_size matches Some(known)
                    && known != final_size@) {
                    Some(Error::FinalSize)
                } else {
                    None
                },
                _ => Some(Error::FrameDecode),
            }
        }
    }

    /// What is noted of the bytes of frames where one cannot be applied. What it takes
    /// was noted where only the sum is too large.
    pub open spec fn refused(self, index: int, frame: ParsedFrame, limit: u64) -> Seq<PayloadPlan> {
        match frame {
            Frame::Stream { offset, data, .. } => if (Progress {
                accepted_bytes: 0,
                ..self
            }).refusal(frame, limit) is None {
                self.payloads.update(
                    index,
                    PayloadPlan {
                        start: self.payloads[index].start,
                        accepted: self.accepts(offset@, span_len(data)) as usize,
                    },
                )
            } else {
                self.payloads
            },
            _ => self.payloads,
        }
    }

    /// After a frame, where the plan becomes another. A reset ends the stream:
    /// what comes after it does not count.
    pub open spec fn after(
        self,
        index: int,
        frame: ParsedFrame,
        resets: bool,
        plan: Option<PlanModel>,
    ) -> Progress {
        if self.closed {
            self
        } else {
            match frame {
                Frame::Stream { offset, fin, data, .. } => {
                    let len = span_len(data);
                    let end = offset@ + len;
                    let told = (len != 0 || fin) && !self.event_pending;
                    let accepted = self.accepts(offset@, len);
                    Progress {
                        highest: if end > self.highest {
                            end as u64
                        } else {
                            self.highest
                        },
                        final_size: if fin {
                            Some(end as u64)
                        } else {
                            self.final_size
                        },
                        event_pending: self.event_pending || told,
                        present: true,
                        plan,
                        accepted_bytes: self.accepted_bytes + accepted,
                        segments: self.segments + self.pieces(offset@, len),
                        stream_slots: if self.present {
                            self.stream_slots
                        } else {
                            1
                        },
                        event_slots: if told {
                            1
                        } else {
                            self.event_slots
                        },
                        peak: match plan {
                            Some(plan) => if plan.spans.len() > self.peak {
                                plan.spans.len() as int
                            } else {
                                self.peak
                            },
                            None => self.peak,
                        },
                        closed: false,
                        admissions: self.admissions.update(
                            index,
                            if resets {
                                ReceiveAdmission::StreamTransient
                            } else {
                                ReceiveAdmission::Stream
                            },
                        ),
                        payloads: self.payloads.update(
                            index,
                            PayloadPlan {
                                start: self.payloads[index].start,
                                accepted: accepted as usize,
                            },
                        ),
                    }
                },
                Frame::ResetStream { final_size, .. } => Progress {
                    highest: if final_size@ > self.highest {
                        final_size@
                    } else {
                        self.highest
                    },
                    event_slots: if self.event_pending {
                        self.event_slots
                    } else {
                        1
                    },
                    closed: true,
                    admissions: self.admissions.update(index, ReceiveAdmission::Reset),
                    ..self
                },
                _ => self,
            }
        }
    }

    /// Whether a frame leads to another state.
    pub open spec fn follows(
        self,
        index: int,
        frame: ParsedFrame,
        limit: u64,
        resets: bool,
        next: Progress,
    ) -> bool {
        &&& self.refusal(frame, limit) is None
        &&& next == self.after(index, frame, resets, next.plan)
        &&& self.plan is None ==> next.plan is None
        &&& match frame {
            Frame::Stream { offset, data, .. } => (!self.closed && self.plan is Some) ==> (
            next.plan is Some && self.plan->0.inserted(
                offset@ as int,
                span_len(data),
                next.plan->0,
            )),
            _ => true,
        }
    }
}

/// Whether frames, one after the other, lead from state to state.
pub open spec fn progresses(
    trace: Seq<Progress>,
    indices: Seq<usize>,
    frames: Seq<ParsedFrame>,
    limit: u64,
) -> bool {
    &&& 1 <= trace.len() <= indices.len() + 1
    &&& forall|i: int|
        0 <= i < trace.len() - 1 ==> (#[trigger] trace[i]).follows(
            indices[i] as int,
            frames[indices[i] as int],
            limit,
            will_reset(indices, frames),
            trace[i + 1],
        )
}

/// The plan of a receiving side.
pub open spec fn plan_of(store: StoreModel) -> PlanModel {
    PlanModel { next: store.next, spans: store.spans }
}

impl StateModel {
    /// How it stands with a stream before the frames.
    pub open spec fn progress(
        self,
        stream_id: u64,
        is_client: bool,
        resets: bool,
        admissions: Seq<ReceiveAdmission>,
        payloads: Seq<PayloadPlan>,
    ) -> Progress {
        let receiver = self.receiver(stream_id, is_client);
        Progress {
            highest: receiver.highest,
            final_size: receiver.final_size,
            event_pending: receiver.event_pending,
            present: self.receivers.dom().contains(stream_id),
            plan: if resets {
                None
            } else {
                Some(plan_of(receiver.store))
            },
            accepted_bytes: 0,
            segments: 0,
            stream_slots: 0,
            event_slots: 0,
            peak: receiver.store.spans.len() as int,
            closed: false,
            admissions,
            payloads,
        }
    }

    /// Whether the peer may send on a stream.
    pub open spec fn may_arrive(self, stream_id: u64, is_client: bool) -> bool {
        if ours(stream_id, is_client) {
            self.limits.accessible(
                self.opened.contains(stream_id),
                stream_id,
                Access::Receive,
                is_client,
            )
        } else {
            self.limits.peer_may_open(stream_id)
        }
    }
}

/// Whether a plan was told: either nothing counts, or the frames lead to what is
/// told, or as far as the one that is refused.
pub open spec fn planned(
    m: StateModel,
    indices: Seq<usize>,
    frames: Seq<ParsedFrame>,
    is_client: bool,
    segmented: bool,
    before: Progress,
    result: Result<AdmissionImpact, Error>,
    after: (Seq<ReceiveAdmission>, Seq<PayloadPlan>),
    trace: Seq<Progress>,
) -> bool {
    let limit = m.receiver(group_stream(indices, frames)->0, is_client).limit;
    &&& progresses(trace, indices, frames, limit)
    &&& trace[0] == before
    &&& after.0 == trace.last().admissions
    &&& match result {
        Ok(impact) => {
            let last = trace.last();
            &&& after.1 == last.payloads
            &&& trace.len() == indices.len() + 1
            &&& impact.accepted_bytes == last.accepted_bytes
            &&& impact.stream_slots == last.stream_slots
            &&& impact.event_slots == last.event_slots
            &&& impact.range_slots == if segmented {
                last.segments
            } else {
                last.peak - before.peak
            }
            &&& impact.flow_control_bytes == last.highest - before.highest
        },
        Err(error) => {
            let index = indices[trace.len() - 1] as int;
            &&& trace.len() <= indices.len()
            &&& trace.last().refusal(frames[index], limit) == Some(error)
            &&& after.1 == trace.last().refused(index, frames[index], limit)
        },
    }
}

/// What is told of frames that do not count.
pub open spec fn no_impact() -> AdmissionImpact {
    AdmissionImpact {
        accepted_bytes: 0,
        stream_slots: 0,
        range_slots: 0,
        event_slots: 0,
        flow_control_bytes: 0,
    }
}

/// The frames of one stream in a packet.
pub struct FrameGroup<'a> {
    pub frame_indices: &'a [usize],
    pub parsed_frames: &'a [ParsedFrame],
}

impl<'a> FrameGroup<'a> {
    fn stream(&self) -> (stream_id: Option<u64>)
        requires
            in_frames(self.frame_indices@, self.parsed_frames@),
        ensures
            stream_id == group_stream(self.frame_indices@, self.parsed_frames@),
    {
        if self.frame_indices.len() == 0 {
            None
        } else {
            assert(self.frame_indices@[0] < self.parsed_frames@.len());
            frame_stream(&self.parsed_frames[self.frame_indices[0]])
        }
    }

    fn resets(&self) -> (resets: bool)
        requires
            in_frames(self.frame_indices@, self.parsed_frames@),
        ensures
            resets == will_reset(self.frame_indices@, self.parsed_frames@),
    {
        let mut i: usize = 0;
        while i < self.frame_indices.len()
            invariant
                i <= self.frame_indices@.len(),
                in_frames(self.frame_indices@, self.parsed_frames@),
                forall|j: int|
                    0 <= j < i ==> !(self.parsed_frames@[#[trigger] self.frame_indices@[j] as int]
                        is ResetStream),
            decreases self.frame_indices@.len() - i,
        {
            let index: usize = self.frame_indices[i];
            assert(self.frame_indices@[i as int] < self.parsed_frames@.len());
            match &self.parsed_frames[index] {
                Frame::ResetStream { stream_id, error_code, final_size } => {
                    assert(self.parsed_frames@[self.frame_indices@[i as int] as int]
                        is ResetStream);
                    return true;
                },
                _ => {},
            }
            i = i + 1;
        }
        false
    }
}

/// How far the frames of a stream were gone through.
struct Walk {
    highest: u64,
    final_size: Option<u64>,
    event_pending: bool,
    present: bool,
    plan: Option<Plan>,
    accepted_bytes: usize,
    segments: usize,
    stream_slots: usize,
    event_slots: usize,
    peak: usize,
    closed: bool,
}

impl Walk {
    spec fn stands(
        self,
        admissions: Seq<ReceiveAdmission>,
        payloads: Seq<PayloadPlan>,
    ) -> Progress {
        Progress {
            highest: self.highest,
            final_size: self.final_size,
            event_pending: self.event_pending,
            present: self.present,
            plan: match self.plan {
                Some(plan) => Some(plan@),
                None => None,
            },
            accepted_bytes: self.accepted_bytes as int,
            segments: self.segments as int,
            stream_slots: self.stream_slots as int,
            event_slots: self.event_slots as int,
            peak: self.peak as int,
            closed: self.closed,
            admissions,
            payloads,
        }
    }

    spec fn wf(self) -> bool {
        self.plan matches Some(plan) ==> plan.wf()
    }

    /// Goes on with a frame.
    fn step(
        &mut self,
        index: usize,
        frame: &ParsedFrame,
        limit: u64,
        resets: bool,
        admissions: &mut Vec<ReceiveAdmission>,
        payloads: &mut Vec<PayloadPlan>,
    ) -> (result: Result<(), Error>)
        requires
            old(self).wf(),
            index < old(admissions)@.len(),
            index < old(payloads)@.len(),
        ensures
            final(self).wf(),
            final(self).plan is Some == old(self).plan is Some,
            final(self).highest >= old(self).highest,
            final(self).peak >= old(self).peak,
            final(admissions)@.len() == old(admissions)@.len(),
            final(payloads)@.len() == old(payloads)@.len(),
            ({
                let before = old(self).stands(old(admissions)@, old(payloads)@);
                match result {
                    Ok(()) => before.follows(
                        index as int,
                        *frame,
                        limit,
                        resets,
                        final(self).stands(final(admissions)@, final(payloads)@),
                    ),
                    Err(error) => {
                        &&& before.refusal(*frame, limit) == Some(error)
                        &&& final(admissions)@ == old(admissions)@
                        &&& final(payloads)@ == before.refused(index as int, *frame, limit)
                    },
                }
            }),
    {
        let ghost before = self.stands(admissions@, payloads@);
        if self.closed {
            assert(before.after(index as int, *frame, resets, before.plan) == before);
            return Ok(());
        }
        match frame {
            Frame::Stream { stream_id, offset, fin, length_prefixed, data } => {
                let offset: u64 = offset.get();
                let len: usize = data.len();
                if len as u64 > u64::MAX - offset {
                    return Err(Error::StreamBufferExceeded);
                }
                let end: u64 = offset + len as u64;
                if end > limit {
                    return Err(Error::FlowControl);
                }
                let beyond = match self.final_size {
                    Some(known) => end > known || (*fin && end != known),
                    None => false,
                };
                if beyond || (*fin && end < self.highest) {
                    return Err(Error::FinalSize);
                }
                let mut accepted: usize = 0;
                let mut pieces: usize = 0;
                let mut count: usize = 0;
                match &mut self.plan {
                    Some(plan) => {
                        let ghost m = plan@;
                        match plan.insert_observed(offset, len, MAX_RANGES) {
                            Ok((taken, parts)) => {
                                accepted = taken;
                                pieces = parts.len();
                                assert(pairs_of(parts@).len() == places(
                                    m.wanted(offset as int, len as int),
                                    offset as int,
                                ).len());
                            },
                            Err(error) => {
                                return Err(Error::StreamBufferExceeded);
                            },
                        }
                        count = plan.range_count();
                    },
                    None => {},
                }
                assert(accepted == before.accepts(offset, len as int));
                assert(pieces == before.pieces(offset, len as int));
                if pieces > usize::MAX - self.segments {
                    return Err(Error::StreamBufferExceeded);
                }
                self.segments = self.segments + pieces;
                payloads.set(
                    index,
                    PayloadPlan { start: payloads[index].start, accepted },
                );
                if accepted > usize::MAX - self.accepted_bytes {
                    return Err(Error::StreamBufferExceeded);
                }
                self.accepted_bytes = self.accepted_bytes + accepted;
                if self.plan.is_some() && count > self.peak {
                    self.peak = count;
                }
                if end > self.highest {
                    self.highest = end;
                }
                if *fin {
                    self.final_size = Some(end);
                }
                if !self.present {
                    self.present = true;
                    self.stream_slots = 1;
                }
                if (len != 0 || *fin) && !self.event_pending {
                    self.event_pending = true;
                    self.event_slots = 1;
                }
                admissions.set(
                    index,
                    if resets {
                        ReceiveAdmission::StreamTransient
                    } else {
                        ReceiveAdmission::Stream
                    },
                );
                Ok(())
            },
            Frame::ResetStream { stream_id, error_code, final_size } => {
                let reset: u64 = final_size.get();
                if reset > limit {
                    return Err(Error::FlowControl);
                }
                let other = match self.final_size {
                    Some(known) => known != reset,
                    None => false,
                };
                if reset < self.highest || other {
                    return Err(Error::FinalSize);
                }
                self.highest = reset;
                if !self.event_pending {
                    self.event_slots = 1;
                }
                admissions.set(index, ReceiveAdmission::Reset);
                self.closed = true;
                Ok(())
            },
            _ => Err(Error::FrameDecode),
        }
    }
}

impl State {
    /// How it stands with a stream before the frames, and up to which offset the
    /// peer may send.
    fn walk(&self, stream_id: u64, is_client: bool, resets: bool) -> (result: (Walk, u64))
        requires
            self.wf(),
        ensures
            result.0.wf(),
            forall|a: Seq<ReceiveAdmission>, p: Seq<PayloadPlan>| #[trigger]
                result.0.stands(a, p) == self@.progress(stream_id, is_client, resets, a, p),
            result.1 == self@.receiver(stream_id, is_client).limit,
    {
        let mut walk = Walk {
            highest: 0,
            final_size: None,
            event_pending: false,
            present: false,
            plan: None,
            accepted_bytes: 0,
            segments: 0,
            stream_slots: 0,
            event_slots: 0,
            peak: 0,
            closed: false,
        };
        let mut limit: u64 = self.limits.initial_receive_credit(stream_id, is_client);
        match self.receivers.get(stream_id) {
            Some(receiver) => {
                walk.highest = receiver.highest_offset();
                walk.final_size = receiver.final_size();
                walk.event_pending = receiver.event_pending();
                walk.present = true;
                walk.peak = receiver.range_count();
                limit = receiver.limit();
                if !resets {
                    walk.plan = Some(receiver.receive_plan());
                }
            },
            None => {
                if !resets {
                    let plan = Plan::empty();
                    assert(plan@.spans =~= Seq::empty());
                    walk.plan = Some(plan);
                }
            },
        }
        assert forall|a: Seq<ReceiveAdmission>, p: Seq<PayloadPlan>| #[trigger]
            walk.stands(a, p) == self@.progress(stream_id, is_client, resets, a, p) by {
            assert(walk.stands(a, p).plan == self@.progress(stream_id, is_client, resets, a, p).plan)
            by {
                if !resets {
                    assert(walk.plan->0@ =~= plan_of(self@.receiver(stream_id, is_client).store));
                }
            }
        }
        (walk, limit)
    }

    /// Tells what the frames of one stream will take, and marks how each of them
    /// is to be applied.
    pub fn plan_stream_frames(
        &self,
        frames: &FrameGroup<'_>,
        admissions: &mut Vec<ReceiveAdmission>,
        payloads: &mut Vec<PayloadPlan>,
        is_client: bool,
        segmented_ready: bool,
    ) -> (result: Result<AdmissionImpact, Error>)
        requires
            self.wf(),
            in_frames(frames.frame_indices@, frames.parsed_frames@),
            old(admissions)@.len() == frames.parsed_frames@.len(),
            old(payloads)@.len() == frames.parsed_frames@.len(),
        ensures
            final(admissions)@.len() == old(admissions)@.len(),
            final(payloads)@.len() == old(payloads)@.len(),
            ({
                let indices = frames.frame_indices@;
                let parsed = frames.parsed_frames@;
                let found = group_stream(indices, parsed);
                let stream_id = found->0;
                let untouched = final(admissions)@ == old(admissions)@ && final(payloads)@ == old(
                    payloads,
                )@;
                if found is None {
                    result == Err::<AdmissionImpact, Error>(Error::FrameDecode) && untouched
                } else if !self@.may_arrive(stream_id, is_client) {
                    result == Err::<AdmissionImpact, Error>(Error::ProtocolViolation) && untouched
                } else if self@.recv_retired.contains(stream_id) {
                    result == Ok::<AdmissionImpact, Error>(no_impact()) && untouched
                } else {
                    exists|trace: Seq<Progress>| #[trigger]
                        planned(
                            self@,
                            indices,
                            parsed,
                            is_client,
                            segmented_ready,
                            self@.progress(
                                stream_id,
                                is_client,
                                will_reset(indices, parsed),
                                old(admissions)@,
                                old(payloads)@,
                            ),
                            result,
                            (final(admissions)@, final(payloads)@),
                            trace,
                        )
                }
            }),
    {
        let ghost indices = frames.frame_indices@;
        let ghost parsed = frames.parsed_frames@;
        let stream_id: u64 = match frames.stream() {
            Some(stream_id) => stream_id,
            None => {
                return Err(Error::FrameDecode);
            },
        };
        if we_initiated(stream_id, is_client) {
            match self.validate_access(stream_id, Access::Receive, is_client) {
                Ok(()) => {},
                Err(error) => {
                    return Err(error);
                },
            }
        } else if !self.limits.peer_opens(stream_id) {
            return Err(Error::ProtocolViolation);
        }
        if self.receive_side_closed(stream_id) {
            return Ok(
                AdmissionImpact {
                    accepted_bytes: 0,
                    stream_slots: 0,
                    range_slots: 0,
                    event_slots: 0,
                    flow_control_bytes: 0,
                },
            );
        }
        let resets = frames.resets();
        let (start, limit) = self.walk(stream_id, is_client, resets);
        let mut walk = start;
        let highest: u64 = walk.highest;
        let original: usize = walk.peak;
        let ghost before = self@.progress(
            stream_id,
            is_client,
            resets,
            admissions@,
            payloads@,
        );
        assert(walk.stands(admissions@, payloads@) == before);
        let ghost mut trace: Seq<Progress> = seq![before];
        let count: usize = frames.frame_indices.len();
        let mut i: usize = 0;
        while i < count
            invariant
                i <= count,
                count == indices.len(),
                indices == frames.frame_indices@,
                parsed == frames.parsed_frames@,
                in_frames(indices, parsed),
                admissions@.len() == parsed.len(),
                payloads@.len() == parsed.len(),
                admissions@.len() == old(admissions)@.len(),
                payloads@.len() == old(payloads)@.len(),
                walk.wf(),
                walk.highest >= highest,
                walk.peak >= original,
                resets == will_reset(indices, parsed),
                limit == self@.receiver(stream_id, is_client).limit,
                group_stream(indices, parsed) == Some(stream_id),
                self@.may_arrive(stream_id, is_client),
                !self@.recv_retired.contains(stream_id),
                before == self@.progress(
                    stream_id,
                    is_client,
                    resets,
                    old(admissions)@,
                    old(payloads)@,
                ),
                trace.len() == i + 1,
                trace[0] == before,
                trace.last() == walk.stands(admissions@, payloads@),
                progresses(trace, indices, parsed, limit),
            decreases count - i,
        {
            let index: usize = frames.frame_indices[i];
            assert(indices[i as int] < parsed.len());
            let ghost last = trace.last();
            match walk.step(
                index,
                &frames.parsed_frames[index],
                limit,
                resets,
                admissions,
                payloads,
            ) {
                Ok(()) => {},
                Err(error) => {
                    assert(planned(
                        self@,
                        indices,
                        parsed,
                        is_client,
                        segmented_ready,
                        before,
                        Err(error),
                        (admissions@, payloads@),
                        trace,
                    ));
                    return Err(error);
                },
            }
            proof {
                let more = trace.push(walk.stands(admissions@, payloads@));
                assert forall|j: int| 0 <= j < more.len() - 1 implies (#[trigger] more[j]).follows(
                    indices[j] as int,
                    parsed[indices[j] as int],
                    limit,
                    will_reset(indices, parsed),
                    more[j + 1],
                ) by {
                    if j < i {
                        assert(more[j] == trace[j]);
                        assert(more[j + 1] == trace[j + 1]);
                    } else {
                        assert(more[j] == last);
                    }
                }
                trace = more;
            }
            i = i + 1;
        }
        let impact = AdmissionImpact {
            accepted_bytes: walk.accepted_bytes,
            stream_slots: walk.stream_slots,
            range_slots: if segmented_ready {
                walk.segments
            } else {
                walk.peak - original
            },
            event_slots: walk.event_slots,
            flow_control_bytes: walk.highest - highest,
        };
        assert(planned(
            self@,
            indices,
            parsed,
            is_client,
            segmented_ready,
            before,
            Ok(impact),
            (admissions@, payloads@),
            trace,
        ));
        Ok(impact)
    }
}

/// How far the bytes of frames were collected.
#[verifier::ext_equal]
pub struct Collected {
    pub plan: PlanModel,
    pub output: Seq<u8>,
    pub payloads: Seq<PayloadPlan>,
}

/// Whether some places are within bytes.
pub open spec fn within(parts: Seq<(int, int)>, shift: int, len: int) -> bool {
    forall|i: int| 0 <= i < parts.len() ==> (#[trigger] parts[i]).1 - shift <= len
}

/// Whether so many of some places, and no more, come before the first that is not within
/// bytes, or for which there is no room.
pub open spec fn first_fit(
    parts: Seq<(int, int)>,
    shift: int,
    len: int,
    room: int,
    count: int,
) -> bool {
    &&& 0 <= count <= parts.len()
    &&& within(parts.take(count), shift, len)
    &&& count > 0 ==> measure(parts.take(count)) <= room
    &&& count < parts.len() ==> parts[count].1 - shift > len || measure(parts.take(count + 1))
        > room
}

impl Collected {
    /// Why the bytes of a frame cannot be collected, if they cannot.
    pub open spec fn refusal(
        self,
        index: int,
        frame: ParsedFrame,
        body: Seq<u8>,
        capacity: int,
    ) -> Option<Error> {
        match frame {
            Frame::Stream { offset, data, .. } => {
                let wanted = self.plan.wanted(offset@ as int, span_len(data));
                if self.plan.refusal(offset@ as int, span_len(data), MAX_RANGES as int) is Some
                    || !within(wanted, offset@ - data.start, body.len() as int)
                    || (wanted.len() > 0 && self.output.len() + measure(wanted) > capacity)
                    || measure(wanted) != self.payloads[index].accepted {
                    Some(Error::StreamBufferExceeded)
                } else {
                    None
                }
            },
            _ => Some(Error::FrameDecode),
        }
    }

    /// What a frame whose bytes cannot be collected leaves: where they begin is noted, and
    /// its first pieces come to the end, up to the one that cannot be had.
    pub open spec fn fails(
        self,
        index: int,
        frame: ParsedFrame,
        body: Seq<u8>,
        capacity: int,
        output: Seq<u8>,
        payloads: Seq<PayloadPlan>,
    ) -> bool {
        match frame {
            Frame::Stream { offset, data, .. } => {
                let len = span_len(data);
                let wanted = self.plan.wanted(offset@ as int, len);
                let shift = offset@ - data.start;
                &&& payloads == self.started(index)
                &&& if self.plan.refusal(offset@ as int, len, MAX_RANGES as int) is Some {
                    output == self.output
                } else {
                    exists|count: int|
                        {
                            &&& #[trigger] first_fit(
                                wanted,
                                shift,
                                body.len() as int,
                                capacity - self.output.len(),
                                count,
                            )
                            &&& output == self.output + picked(body, wanted.take(count), shift)
                        }
                }
            },
            _ => output == self.output && payloads == self.payloads,
        }
    }

    /// With where the bytes of a frame begin.
    pub open spec fn started(self, index: int) -> Seq<PayloadPlan> {
        self.payloads.update(
            index,
            PayloadPlan {
                start: self.output.len() as usize,
                accepted: self.payloads[index].accepted,
            },
        )
    }

    /// Whether a frame leads to another state: the bytes of it that are taken
    /// come to the end.
    pub open spec fn follows(
        self,
        index: int,
        frame: ParsedFrame,
        admission: ReceiveAdmission,
        body: Seq<u8>,
        capacity: int,
        next: Collected,
    ) -> bool {
        if admission != ReceiveAdmission::Stream {
            next == self
        } else {
            &&& self.refusal(index, frame, body, capacity) is None
            &&& match frame {
                Frame::Stream { offset, data, .. } => {
                    &&& self.plan.inserted(offset@ as int, span_len(data), next.plan)
                    &&& next.output == self.output + picked(
                        body,
                        self.plan.wanted(offset@ as int, span_len(data)),
                        offset@ - data.start,
                    )
                    &&& next.payloads == self.started(index)
                },
                _ => false,
            }
        }
    }
}

/// Whether frames, one after the other, lead from state to state.
pub open spec fn collects(
    trace: Seq<Collected>,
    indices: Seq<usize>,
    frames: Seq<ParsedFrame>,
    admissions: Seq<ReceiveAdmission>,
    body: Seq<u8>,
    capacity: int,
) -> bool {
    &&& 1 <= trace.len() <= indices.len() + 1
    &&& forall|i: int|
        0 <= i < trace.len() - 1 ==> (#[trigger] trace[i]).follows(
            indices[i] as int,
            frames[indices[i] as int],
            admissions[indices[i] as int],
            body,
            capacity,
            trace[i + 1],
        )
}

/// Whether bytes were collected, as far as the result tells.
pub open spec fn materialized(
    indices: Seq<usize>,
    frames: Seq<ParsedFrame>,
    admissions: Seq<ReceiveAdmission>,
    body: Seq<u8>,
    capacity: int,
    before: Collected,
    result: Result<(), Error>,
    output: Seq<u8>,
    payloads: Seq<PayloadPlan>,
    trace: Seq<Collected>,
) -> bool {
    &&& collects(trace, indices, frames, admissions, body, capacity)
    &&& trace[0] == before
    &&& match result {
        Ok(()) => {
            &&& trace.len() == indices.len() + 1
            &&& output == trace.last().output
            &&& payloads == trace.last().payloads
        },
        Err(error) => {
            let index = indices[trace.len() - 1] as int;
            &&& trace.len() <= indices.len()
            &&& admissions[index] == ReceiveAdmission::Stream
            &&& trace.last().refusal(index, frames[index], body, capacity) == Some(error)
            &&& trace.last().fails(index, frames[index], body, capacity, output, payloads)
        },
    }
}

/// Whether bytes of one of the frames are to be taken.
pub open spec fn any_taken(indices: Seq<usize>, admissions: Seq<ReceiveAdmission>) -> bool {
    exists|i: int|
        0 <= i < indices.len() && admissions[#[trigger] indices[i] as int]
            == ReceiveAdmission::Stream
}

/// One more place.
proof fn lemma_next_part(body: Seq<u8>, parts: Seq<(int, int)>, shift: int, i: int)
    requires
        0 <= i < parts.len(),
    ensures
        measure(parts.take(i + 1)) == measure(parts.take(i)) + (parts[i].1 - parts[i].0),
        picked(body, parts.take(i + 1), shift) == picked(body, parts.take(i), shift)
            + body.subrange(parts[i].0 - shift, parts[i].1 - shift),
{
    assert(parts.take(i + 1).drop_last() =~= parts.take(i));
    assert(parts.take(i + 1).last() == parts[i]);
}

/// More places are longer together.
proof fn lemma_longer(parts: Seq<(int, int)>, i: int, j: int)
    requires
        0 <= i <= j <= parts.len(),
        forall|k: int| 0 <= k < parts.len() ==> (#[trigger] parts[k]).0 <= parts[k].1,
    ensures
        0 <= measure(parts.take(i)) <= measure(parts.take(j)),
    decreases j,
{
    if j > 0 {
        assert(parts.take(j).drop_last() =~= parts.take(j - 1));
        assert(parts.take(j).last() == parts[j - 1]);
        if i < j {
            lemma_longer(parts, i, j - 1);
        } else {
            lemma_longer(parts, j - 1, j - 1);
        }
    }
}

/// Copies some places of bytes, up to the first that is not there or for which there is no
/// room. Tells whether all were copied.
fn copy_parts(
    body: &[u8],
    start: usize,
    parts: &Vec<(usize, usize)>,
    wanted: Ghost<Seq<(int, int)>>,
    offset: Ghost<int>,
    output: &mut Vec<u8>,
    capacity: usize,
) -> (done: bool)
    requires
        pairs_of(parts@) == places(wanted@, offset@),
        forall|i: int|
            0 <= i < wanted@.len() ==> offset@ <= (#[trigger] wanted@[i]).0 <= wanted@[i].1,
    ensures
        done == (within(wanted@, offset@ - start, body@.len() as int) && (wanted@.len() > 0
            ==> old(output)@.len() + measure(wanted@) <= capacity)),
        exists|count: int|
            {
                &&& #[trigger] first_fit(
                    wanted@,
                    offset@ - start,
                    body@.len() as int,
                    capacity - old(output)@.len(),
                    count,
                )
                &&& done ==> count == wanted@.len()
                &&& final(output)@ == old(output)@ + picked(
                    body@,
                    wanted@.take(count),
                    offset@ - start,
                )
            },
{
    let ghost base = output@;
    let ghost shift = offset@ - start;
    let ghost room = capacity - base.len();
    let mut i: usize = 0;
    let size: usize = body.len();
    assert(pairs_of(parts@).len() == parts@.len());
    assert(places(wanted@, offset@).len() == wanted@.len());
    assert(wanted@.take(0) =~= Seq::empty());
    assert(base + picked(body@, wanted@.take(0), shift) =~= base);
    while i < parts.len()
        invariant
            i <= parts@.len() == wanted@.len(),
            size == body@.len(),
            base == old(output)@,
            shift == offset@ - start,
            room == capacity - base.len(),
            pairs_of(parts@) == places(wanted@, offset@),
            forall|j: int|
                0 <= j < wanted@.len() ==> offset@ <= (#[trigger] wanted@[j]).0 <= wanted@[j].1,
            forall|j: int| 0 <= j < i ==> (#[trigger] wanted@[j]).1 - shift <= size,
            i > 0 ==> measure(wanted@.take(i as int)) <= room,
            output@.len() == base.len() + measure(wanted@.take(i as int)),
            output@ == base + picked(body@, wanted@.take(i as int), shift),
        decreases parts@.len() - i,
    {
        let (from, to) = parts[i];
        proof {
            assert(pairs_of(parts@)[i as int] == places(wanted@, offset@)[i as int]);
            lemma_next_part(body@, wanted@, shift, i as int);
            lemma_longer(wanted@, i + 1, wanted@.len() as int);
            assert(wanted@.take(wanted@.len() as int) =~= wanted@);
        }
        if to > size || start > size - to {
            assert(wanted@[i as int].1 - shift > size);
            assert(first_fit(wanted@, shift, size as int, room, i as int));
            return false;
        }
        if output.len() > capacity || to - from > capacity - output.len() {
            assert(first_fit(wanted@, shift, size as int, room, i as int));
            return false;
        }
        put_bytes(output, vstd::slice::slice_subrange(body, start + from, start + to));
        assert(output@ =~= base + picked(body@, wanted@.take(i + 1), shift));
        i = i + 1;
    }
    assert(wanted@.take(i as int) =~= wanted@);
    assert(first_fit(wanted@, shift, size as int, room, i as int));
    true
}

impl State {
    /// Collects the bytes of frames that will be taken, and notes where those of
    /// each frame begin.
    pub fn materialize_stream_frames(
        &self,
        frames: &FrameGroup<'_>,
        admissions: &Vec<ReceiveAdmission>,
        payloads: &mut Vec<PayloadPlan>,
        body: &[u8],
        output: &mut Vec<u8>,
        capacity: usize,
    ) -> (result: Result<(), Error>)
        requires
            self.wf(),
            in_frames(frames.frame_indices@, frames.parsed_frames@),
            admissions@.len() == frames.parsed_frames@.len(),
            old(payloads)@.len() == frames.parsed_frames@.len(),
        ensures
            final(payloads)@.len() == old(payloads)@.len(),
            ({
                let indices = frames.frame_indices@;
                let parsed = frames.parsed_frames@;
                let found = group_stream(indices, parsed);
                if !any_taken(indices, admissions@) {
                    &&& result is Ok
                    &&& final(payloads)@ == old(payloads)@
                    &&& final(output)@ == old(output)@
                } else if found is None {
                    &&& result == Err::<(), Error>(Error::FrameDecode)
                    &&& final(payloads)@ == old(payloads)@
                    &&& final(output)@ == old(output)@
                } else {
                    exists|trace: Seq<Collected>| #[trigger]
                        materialized(
                            indices,
                            parsed,
                            admissions@,
                            body@,
                            capacity as int,
                            (Collected {
                                plan: self@.held_plan(found->0),
                                output: old(output)@,
                                payloads: old(payloads)@,
                            }),
                            result,
                            final(output)@,
                            final(payloads)@,
                            trace,
                        )
                }
            }),
    {
        let ghost indices = frames.frame_indices@;
        let ghost parsed = frames.parsed_frames@;
        if !taken(frames.frame_indices, admissions) {
            return Ok(());
        }
        let stream_id: u64 = match frames.stream() {
            Some(stream_id) => stream_id,
            None => {
                return Err(Error::FrameDecode);
            },
        };
        let mut plan = match self.receivers.get(stream_id) {
            Some(receiver) => receiver.receive_plan(),
            None => Plan::empty(),
        };
        assert(plan@ =~= self@.held_plan(stream_id));
        let ghost before = Collected { plan: plan@, output: output@, payloads: payloads@ };
        let ghost mut trace: Seq<Collected> = seq![before];
        let count: usize = frames.frame_indices.len();
        let mut i: usize = 0;
        while i < count
            invariant
                i <= count,
                count == indices.len(),
                indices == frames.frame_indices@,
                parsed == frames.parsed_frames@,
                in_frames(indices, parsed),
                admissions@.len() == parsed.len(),
                payloads@.len() == parsed.len(),
                payloads@.len() == old(payloads)@.len(),
                plan.wf(),
                any_taken(indices, admissions@),
                group_stream(indices, parsed) == Some(stream_id),
                before == (Collected {
                    plan: self@.held_plan(stream_id),
                    output: old(output)@,
                    payloads: old(payloads)@,
                }),
                trace.len() == i + 1,
                trace[0] == before,
                trace.last() == (Collected { plan: plan@, output: output@, payloads: payloads@ }),
                collects(trace, indices, parsed, admissions@, body@, capacity as int),
            decreases count - i,
        {
            let index: usize = frames.frame_indices[i];
            assert(indices[i as int] < parsed.len());
            let ghost last = trace.last();
            if admissions[index] == ReceiveAdmission::Stream {
                match collect_frame(
                    &mut plan,
                    index,
                    &frames.parsed_frames[index],
                    payloads,
                    body,
                    output,
                    capacity,
                ) {
                    Ok(()) => {},
                    Err(error) => {
                        assert(materialized(
                            indices,
                            parsed,
                            admissions@,
                            body@,
                            capacity as int,
                            before,
                            Err(error),
                            output@,
                            payloads@,
                            trace,
                        ));
                        return Err(error);
                    },
                }
            }
            proof {
                let next = Collected { plan: plan@, output: output@, payloads: payloads@ };
                let more = trace.push(next);
                assert forall|j: int| 0 <= j < more.len() - 1 implies (#[trigger] more[j]).follows(
                    indices[j] as int,
                    parsed[indices[j] as int],
                    admissions@[indices[j] as int],
                    body@,
                    capacity as int,
                    more[j + 1],
                ) by {
                    if j < i {
                        assert(more[j] == trace[j]);
                        assert(more[j + 1] == trace[j + 1]);
                    } else {
                        assert(more[j] == last);
                    }
                }
                trace = more;
            }
            i = i + 1;
        }
        assert(materialized(
            indices,
            parsed,
            admissions@,
            body@,
            capacity as int,
            before,
            Ok(()),
            output@,
            payloads@,
            trace,
        ));
        Ok(())
    }
}

fn taken(indices: &[usize], admissions: &Vec<ReceiveAdmission>) -> (any: bool)
    requires
        forall|i: int| 0 <= i < indices@.len() ==> #[trigger] indices@[i] < admissions@.len(),
    ensures
        any == any_taken(indices@, admissions@),
{
    let mut i: usize = 0;
    while i < indices.len()
        invariant
            i <= indices@.len(),
            forall|j: int| 0 <= j < indices@.len() ==> #[trigger] indices@[j] < admissions@.len(),
            forall|j: int|
                0 <= j < i ==> admissions@[#[trigger] indices@[j] as int]
                    != ReceiveAdmission::Stream,
        decreases indices@.len() - i,
    {
        assert(indices@[i as int] < admissions@.len());
        if admissions[indices[i]] == ReceiveAdmission::Stream {
            assert(admissions@[indices@[i as int] as int] == ReceiveAdmission::Stream);
            return true;
        }
        i = i + 1;
    }
    false
}

/// Collects the bytes of a frame that will be taken.
fn collect_frame(
    plan: &mut Plan,
    index: usize,
    frame: &ParsedFrame,
    payloads: &mut Vec<PayloadPlan>,
    body: &[u8],
    output: &mut Vec<u8>,
    capacity: usize,
) -> (result: Result<(), Error>)
    requires
        old(plan).wf(),
        index < old(payloads)@.len(),
    ensures
        final(plan).wf(),
        final(payloads)@.len() == old(payloads)@.len(),
        ({
            let before = Collected {
                plan: old(plan)@,
                output: old(output)@,
                payloads: old(payloads)@,
            };
            match result {
                Ok(()) => before.follows(
                    index as int,
                    *frame,
                    ReceiveAdmission::Stream,
                    body@,
                    capacity as int,
                    Collected {
                        plan: final(plan)@,
                        output: final(output)@,
                        payloads: final(payloads)@,
                    },
                ),
                Err(error) => {
                    &&& before.refusal(index as int, *frame, body@, capacity as int) == Some(error)
                    &&& before.fails(
                        index as int,
                        *frame,
                        body@,
                        capacity as int,
                        final(output)@,
                        final(payloads)@,
                    )
                },
            }
        }),
{
    match frame {
        Frame::Stream { stream_id, offset, fin, length_prefixed, data } => {
            let from: u64 = offset.get();
            let len: usize = data.len();
            let ghost m = plan@;
            let ghost wanted = m.wanted(from as int, len as int);
            let planned: usize = payloads[index].accepted;
            payloads.set(index, PayloadPlan { start: output.len(), accepted: planned });
            let (accepted, parts) = match plan.insert_observed(from, len, MAX_RANGES) {
                Ok(taken) => taken,
                Err(error) => {
                    return Err(Error::StreamBufferExceeded);
                },
            };
            proof {
                old(plan).lemma_wf();
                lemma_missing(
                    m.spans,
                    greater(from as int, m.next),
                    from + len,
                );
                assert(pairs_of(parts@).len() == places(wanted, from as int).len());
                assert(parts@.len() == wanted.len());
            }
            let done = copy_parts(
                body,
                data.start,
                &parts,
                Ghost(wanted),
                Ghost(from as int),
                output,
                capacity,
            );
            if !done || accepted != planned {
                return Err(Error::StreamBufferExceeded);
            }
            assert(wanted.take(wanted.len() as int) =~= wanted);
            Ok(())
        },
        _ => Err(Error::FrameDecode),
    }
}

impl StateModel {
    /// What is here of a stream, without the bytes.
    pub open spec fn held_plan(self, stream_id: u64) -> PlanModel {
        if self.receivers.dom().contains(stream_id) {
            plan_of(self.receivers[stream_id].store)
        } else {
            PlanModel { next: 0, spans: Seq::empty() }
        }
    }
}

} // verus!
