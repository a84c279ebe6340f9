//! Frames of a packet that are looked at before they are applied.

use dope_quic::conn::control::Pending;
use dope_quic::conn::streams::limits::{Error, InitialCredit};
use dope_quic::conn::streams::state::plan::{
    FrameGroup, ParsedFrame, PayloadPlan, ReceiveAdmission, Span,
};
use dope_quic::conn::streams::state::{Setup, State};
use dope_quic::frame::Frame;
use dope_quic::varint::VarInt;

fn server() -> State {
    State::new(Setup {
        is_client: false,
        local_bidi_capacity: 4,
        local_uni_capacity: 4,
        initial_max_bidi: 4,
        initial_max_uni: 4,
        local_max_data: 1000,
        local_initial_stream_data: InitialCredit { bidi_local: 100, bidi_remote: 20, uni: 100 },
        stream_journal_capacity: 16,
        receive_segment_capacity: 16,
    })
}

fn number(value: u64) -> VarInt {
    VarInt::new(value).unwrap()
}

fn stream(offset: u64, start: usize, end: usize, fin: bool) -> ParsedFrame {
    Frame::Stream {
        stream_id: number(0),
        offset: number(offset),
        fin,
        length_prefixed: true,
        data: Span { start, end },
    }
}

const NOTHING: PayloadPlan = PayloadPlan { start: 0, accepted: 0 };

#[test]
fn overlapping_frames_are_taken_once() {
    let mut state = server();
    let mut events = Vec::new();
    state.ingest_stream(0, 4, &[5, 6], false, false, &mut events).unwrap();
    let frames = [stream(0, 0, 6, false), stream(2, 2, 8, false), Frame::Ping];
    let indices = [0, 1];
    let group = FrameGroup { frame_indices: &indices, parsed_frames: &frames };
    let mut admissions = vec![ReceiveAdmission::Ignored; 3];
    let mut payloads = vec![NOTHING; 3];
    let impact =
        state.plan_stream_frames(&group, &mut admissions, &mut payloads, false, false).unwrap();
    assert_eq!(impact.accepted_bytes, 6);
    assert_eq!(impact.flow_control_bytes, 2);
    assert_eq!(impact.stream_slots, 0);
    assert_eq!(admissions[0], ReceiveAdmission::Stream);
    assert_eq!(admissions[1], ReceiveAdmission::Stream);
    assert_eq!(admissions[2], ReceiveAdmission::Ignored);
    assert_eq!(payloads[0].accepted, 4);
    assert_eq!(payloads[1].accepted, 2);
    let mut output = Vec::new();
    let body = [1, 2, 3, 4, 5, 6, 7, 8];
    state
        .materialize_stream_frames(&group, &admissions, &mut payloads, &body, &mut output, 100)
        .unwrap();
    assert_eq!(output, vec![1, 2, 3, 4, 7, 8]);
}

#[test]
fn plans_break_no_limit() {
    let state = server();
    let frames = [stream(15, 0, 6, false)];
    let indices = [0];
    let group = FrameGroup { frame_indices: &indices, parsed_frames: &frames };
    let mut admissions = vec![ReceiveAdmission::Ignored; 1];
    let mut payloads = vec![NOTHING; 1];
    let result = state.plan_stream_frames(&group, &mut admissions, &mut payloads, false, false);
    assert_eq!(result, Err(Error::FlowControl));
}

#[test]
fn bytes_before_a_reset_only_count() {
    let state = server();
    let frames = [
        stream(0, 0, 6, false),
        Frame::ResetStream { stream_id: number(0), error_code: number(3), final_size: number(9) },
    ];
    let indices = [0, 1];
    let group = FrameGroup { frame_indices: &indices, parsed_frames: &frames };
    let mut admissions = vec![ReceiveAdmission::Ignored; 2];
    let mut payloads = vec![NOTHING; 2];
    let impact =
        state.plan_stream_frames(&group, &mut admissions, &mut payloads, false, false).unwrap();
    assert_eq!(admissions, vec![ReceiveAdmission::StreamTransient, ReceiveAdmission::Reset]);
    assert_eq!(impact.accepted_bytes, 0);
    assert_eq!(impact.flow_control_bytes, 9);
}

#[test]
fn deferred_credit_is_told_when_there_is_room() {
    let mut state = server();
    let mut events = Vec::new();
    let mut control = Pending::new(4);
    state.ingest_stream(0, 0, &[7; 15], false, false, &mut events).unwrap();
    let mut out = Vec::new();
    state.read(0, &mut out, false, &mut control, &mut events);
    assert!(state.receive_controls_pending());
    state.reconcile_receive_controls(&mut control, 8);
    assert!(!state.receive_controls_pending());
    assert!(!control.is_empty());
}

#[test]
fn bytes_of_a_frame_that_fails_stay_as_far_as_they_came() {
    let mut state = server();
    let mut events = Vec::new();
    state.ingest_stream(0, 4, &[5, 6], false, false, &mut events).unwrap();
    let frames = [stream(0, 0, 2, false), stream(2, 2, 8, false)];
    let indices = [0, 1];
    let group = FrameGroup { frame_indices: &indices, parsed_frames: &frames };
    let admissions = vec![ReceiveAdmission::Stream; 2];
    let planned = vec![
        PayloadPlan { start: 9, accepted: 2 },
        PayloadPlan { start: 9, accepted: 4 },
    ];
    let started = vec![
        PayloadPlan { start: 0, accepted: 2 },
        PayloadPlan { start: 2, accepted: 4 },
    ];
    let body = [1, 2, 3, 4, 5, 6, 7, 8];
    let collect = |payloads: &mut Vec<PayloadPlan>, body: &[u8], capacity: usize| {
        let mut output = Vec::new();
        let result = state.materialize_stream_frames(
            &group,
            &admissions,
            payloads,
            body,
            &mut output,
            capacity,
        );
        (result, output)
    };
    let mut payloads = planned.clone();
    assert_eq!(collect(&mut payloads, &body, 6), (Ok(()), vec![1, 2, 3, 4, 7, 8]));
    assert_eq!(payloads, started);
    let exceeded = Err(Error::StreamBufferExceeded);
    let mut payloads = planned.clone();
    assert_eq!(collect(&mut payloads, &body, 5), (exceeded, vec![1, 2, 3, 4]));
    assert_eq!(payloads, started);
    let mut payloads = planned.clone();
    assert_eq!(collect(&mut payloads, &body[..7], 6), (exceeded, vec![1, 2, 3, 4]));
    assert_eq!(payloads, started);
    let mut payloads = planned.clone();
    payloads[1].accepted = 3;
    assert_eq!(collect(&mut payloads, &body, 6), (exceeded, vec![1, 2, 3, 4, 7, 8]));
    assert_eq!(payloads[1], PayloadPlan { start: 2, accepted: 3 });
}
