//! Connection session: owns one bidirectional stream's protocol state. It
//! numbers outbound requests and events from one monotonically increasing
//! counter starting at 1, registers each sent request with the correlator
//! before its response can race with it, turns submissions into complete
//! wire frames (so the caller writes one frame at a time and concurrent
//! sends never interleave), routes decoded inbound payloads, and on clean
//! end of stream or a fatal framing or truncation error hands back every
//! still-pending request so none is silently dropped.

use vstd::prelude::*;
use crate::correlator::{Correlator, PendingRequest, resolve_step, resolve_hits};
use crate::dispatch::{Dispatch, dispatch_message};
use crate::frame::{encode_frame, encode_frame_spec};
use crate::message::{Message, MessageView, Request, Response, Event, Payload, DecodeError,
    parse_msg_spec, parse_message, serialize_msg, serialize_message, opt_payload_view,
    opt_string_view};

verus! {

/// Why a pending request was failed instead of resolved.
#[derive(Debug, Clone, Copy, PartialEq, Eq, Structural)]
pub enum FailureReason {
    /// The caller's own timeout elapsed; only that caller sees it.
    Timeout,
    /// The session ended with the request still outstanding.
    Disconnect,
}

/// What one inbound payload amounted to.
#[derive(Debug)]
pub enum Inbound {
    /// A request, for the caller's request handler.
    HandleRequest(Request),
    /// An event, for the caller's event handler.
    HandleEvent(Event),
    /// A response that resolved its pending request.
    Resolved(PendingRequest, Response),
    /// A response with no matching pending request: log and go on.
    Unmatched(Response),
    /// A malformed payload: log and go on; the frame boundary still held, so
    /// the session stays open.
    Malformed(DecodeError),
}

/// Specification-level session state.
pub struct SessionView {
    pub next_seq: int,
    pub pending: Map<i64, u64>,
    pub open: bool,
}

/// Protocol state of one connection.
pub struct Session {
    next_seq: i64,
    correlator: Correlator,
    open: bool,
}

impl View for Session {
    type V = SessionView;

    closed spec fn view(&self) -> SessionView {
        SessionView { next_seq: self.next_seq as int, pending: self.correlator@, open: self.open }
    }
}

impl Session {
    /// The session's invariant: the counter starts at 1 and every pending
    /// request was numbered by it, so pending sequence numbers are unique
    /// and below the counter.
    pub closed spec fn wf(&self) -> bool {
        &&& self.next_seq >= 1
        &&& self.correlator.wf()
        &&& forall|k: i64| self.correlator@.contains_key(k) ==> 1 <= k < self.next_seq
    }

    /// A fresh session on a newly connected stream.
    pub fn new() -> (r: Session)
        ensures
            r.wf(),
            r@.next_seq == 1,
            r@.pending == Map::<i64, u64>::empty(),
            r@.open,
    {
        Session { next_seq: 1, correlator: Correlator::new(), open: true }
    }

    pub fn is_open(&self) -> (r: bool)
        ensures
            r == self@.open,
    {
        self.open
    }

    /// The sequence number the next outbound request or event will carry.
    pub fn next_seq(&self) -> (r: i64)
        ensures
            r == self@.next_seq,
    {
        self.next_seq
    }

    /// How many requests are outstanding.
    pub fn outstanding(&self) -> (r: usize)
        requires
            self.wf(),
        ensures
            self@.pending.dom().finite(),
            r == self@.pending.len(),
    {
        self.correlator.outstanding()
    }

    /// Sends a request: numbers it with the next sequence number, registers
    /// it as pending (with `now` for timeout accounting) before the send can
    /// race with its reply, and returns the complete wire frame together
    /// with the sequence number the caller will wait on.
    pub fn send_request(&mut self, command: String, arguments: Option<Payload>, now: u64) -> (r: (
        Vec<u8>,
        i64,
    ))
        requires
            old(self).wf(),
            old(self)@.open,
            old(self)@.next_seq < i64::MAX,
            command@.len() > 0,
        ensures
            final(self).wf(),
            final(self)@.open,
            final(self)@.next_seq == old(self)@.next_seq + 1,
            r.1 == old(self)@.next_seq,
            final(self)@.pending == old(self)@.pending.insert(r.1, now),
            r.0@ == encode_frame_spec(serialize_msg(MessageView::Request {
                seq: old(self)@.next_seq,
                command: command@,
                arguments: opt_payload_view(arguments),
            })),
    {
        let seq = self.next_seq;
        proof {
            if let Some(p) = &arguments {
                use_type_invariant(p);
            }
        }
        let msg = Message::Request(Request { seq, command, arguments });
        let payload = serialize_message(&msg);
        let frame = encode_frame(payload.as_slice());
        self.correlator.register(seq, now);
        self.next_seq = seq + 1;
        (frame, seq)
    }

    /// Sends an event: numbers it with the next sequence number and returns
    /// the complete wire frame. Events share the request counter.
    pub fn send_event(&mut self, event: String, body: Option<Payload>) -> (r: Vec<u8>)
        requires
            old(self).wf(),
            old(self)@.open,
            old(self)@.next_seq < i64::MAX,
            event@.len() > 0,
        ensures
            final(self).wf(),
            final(self)@.open,
            final(self)@.next_seq == old(self)@.next_seq + 1,
            final(self)@.pending == old(self)@.pending,
            r@ == encode_frame_spec(serialize_msg(MessageView::Event {
                seq: old(self)@.next_seq,
                event: event@,
                body: opt_payload_view(body),
            })),
    {
        let seq = self.next_seq;
        proof {
            if let Some(p) = &body {
                use_type_invariant(p);
            }
        }
        let msg = Message::Event(Event { seq, event, body });
        let payload = serialize_message(&msg);
        let frame = encode_frame(payload.as_slice());
        self.next_seq = seq + 1;
        frame
    }

    /// Answers the peer's request with `request_seq`: returns the complete
    /// wire frame. Responses carry no sequence number of their own, so the
    /// counter and the pending set are untouched; the caller may reply out
    /// of arrival order.
    pub fn send_response(
        &mut self,
        request_seq: i64,
        success: bool,
        command: String,
        message: Option<String>,
        body: Option<Payload>,
    ) -> (r: Vec<u8>)
        requires
            old(self).wf(),
            old(self)@.open,
            request_seq >= 1,
            command@.len() > 0,
        ensures
            final(self).wf(),
            final(self)@ == old(self)@,
            r@ == encode_frame_spec(serialize_msg(MessageView::Response {
                request_seq: request_seq as int,
                success,
                command: command@,
                message: opt_string_view(message),
                body: opt_payload_view(body),
            })),
    {
        proof {
            if let Some(p) = &body {
                use_type_invariant(p);
            }
        }
        let msg = Message::Response(Response { request_seq, success, command, message, body });
        let payload = serialize_message(&msg);
        encode_frame(payload.as_slice())
    }

    /// Takes one decoded frame payload from the inbound loop and routes it:
    /// a response resolves (or misses) its pending request, a request or an
    /// event is handed out, and a malformed payload is reported without
    /// closing the session or touching any pending request.
    pub fn on_payload(&mut self, payload: &[u8]) -> (r: Inbound)
        requires
            old(self).wf(),
        ensures
            final(self).wf(),
            final(self)@.open == old(self)@.open,
            final(self)@.next_seq == old(self)@.next_seq,
            match parse_msg_spec(payload@) {
                Err(err) => final(self)@.pending == old(self)@.pending
                    && (r matches Inbound::Malformed(e) && e@ == err),
                Ok(mv) => {
                    &&& (mv matches MessageView::Request { .. } ==> final(self)@.pending
                        == old(self)@.pending
                        && (r matches Inbound::HandleRequest(q) && Message::Request(q)@ == mv))
                    &&& (mv matches MessageView::Event { .. } ==> final(self)@.pending
                        == old(self)@.pending
                        && (r matches Inbound::HandleEvent(q) && Message::Event(q)@ == mv))
                    &&& (mv matches MessageView::Response { request_seq, .. } ==> {
                        &&& final(self)@.pending == resolve_step(
                            old(self)@.pending,
                            request_seq as i64,
                        )
                        &&& (resolve_hits(old(self)@.pending, request_seq as i64)
                            ==> (r matches Inbound::Resolved(pr, resp)
                                && pr.seq == request_seq as i64
                                && pr.created == old(self)@.pending[request_seq as i64]
                                && Message::Response(resp)@ == mv))
                        &&& (!resolve_hits(old(self)@.pending, request_seq as i64)
                            ==> (r matches Inbound::Unmatched(resp)
                                && Message::Response(resp)@ == mv))
                    })
                },
            },
    {
        match parse_message(payload) {
            Err(e) => Inbound::Malformed(e),
            Ok(m) => {
                match dispatch_message(&mut self.correlator, m) {
                    Dispatch::ToRequestHandler(q) => Inbound::HandleRequest(q),
                    Dispatch::ToEventHandler(q) => Inbound::HandleEvent(q),
                    Dispatch::Resolved(pr, resp) => Inbound::Resolved(pr, resp),
                    Dispatch::Unmatched(resp) => Inbound::Unmatched(resp),
                }
            },
        }
    }

    /// Fails one pending request whose caller-chosen timeout elapsed; the
    /// session stays open and every other pending request is untouched. The
    /// returned entry is failed with [`FailureReason::Timeout`].
    pub fn expire_request(&mut self, seq: i64) -> (r: Option<(PendingRequest, FailureReason)>)
        requires
            old(self).wf(),
        ensures
            final(self).wf(),
            final(self)@.open == old(self)@.open,
            final(self)@.next_seq == old(self)@.next_seq,
            final(self)@.pending == resolve_step(old(self)@.pending, seq),
            r matches Some((pr, reason)) ==> pr.seq == seq && reason == FailureReason::Timeout
                && resolve_hits(old(self)@.pending, seq)
                && pr.created == old(self)@.pending[seq],
            r is None <==> !resolve_hits(old(self)@.pending, seq),
    {
        match self.correlator.expire(seq) {
            Some(pr) => Some((pr, FailureReason::Timeout)),
            None => None,
        }
    }

    /// Ends the session — on clean end of stream, a framing error, or a
    /// truncation — and hands back every still-outstanding request, each to
    /// be failed with [`FailureReason::Disconnect`]: none may be silently
    /// dropped.
    pub fn close(&mut self) -> (r: Vec<(PendingRequest, FailureReason)>)
        requires
            old(self).wf(),
        ensures
            final(self).wf(),
            !final(self)@.open,
            final(self)@.pending == Map::<i64, u64>::empty(),
            r@.len() == old(self)@.pending.len(),
            forall|x: int| 0 <= x < r@.len()
                ==> old(self)@.pending.contains_key((#[trigger] r@[x]).0.seq)
                    && r@[x].0.created == old(self)@.pending[r@[x].0.seq]
                    && r@[x].1 == FailureReason::Disconnect,
            forall|k: i64| old(self)@.pending.contains_key(k)
                ==> exists|x: int| 0 <= x < r@.len() && (#[trigger] r@[x]).0.seq == k,
    {
        self.open = false;
        let failed = self.correlator.fail_all();
        let ghost failed0 = failed@;
        let mut out: Vec<(PendingRequest, FailureReason)> = Vec::new();
        let mut i: usize = 0;
        while i < failed.len()
            invariant
                i <= failed@.len(),
                failed@ == failed0,
                out@.len() == i,
                forall|x: int| 0 <= x < i ==> (#[trigger] out@[x]).0 == failed0[x]
                    && out@[x].1 == FailureReason::Disconnect,
            decreases failed@.len() - i,
        {
            out.push((failed[i], FailureReason::Disconnect));
            i = i + 1;
        }
        proof {
            assert forall|k: i64| old(self)@.pending.contains_key(k)
                implies exists|x: int| 0 <= x < out@.len() && (#[trigger] out@[x]).0.seq == k by {
                let x = choose|x: int| 0 <= x < failed0.len() && (#[trigger] failed0[x]).seq == k;
                assert(out@[x].0.seq == k);
            }
        }
        out
    }
}

} // verus!
