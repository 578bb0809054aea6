//! Dispatcher: routes each decoded inbound message. A response goes to the
//! correlator and resolves (or misses) its pending request; a request or an
//! event is handed out for the caller's handler, which is free to answer
//! asynchronously and out of arrival order — routing never blocks on it.

use vstd::prelude::*;
use crate::correlator::{Correlator, PendingRequest, resolve_step, resolve_hits};
use crate::message::{Message, MessageView, Request, Response, Event};

verus! {

/// Where one decoded message goes.
#[derive(Debug)]
pub enum Dispatch {
    /// A request, for the caller's request handler; the caller replies later
    /// with `send_response` bound to the request's `seq`.
    ToRequestHandler(Request),
    /// An event, for the caller's event handler.
    ToEventHandler(Event),
    /// A response that resolved the pending request with its `request_seq`.
    Resolved(PendingRequest, Response),
    /// A response no pending request was waiting for: a warning to log, and
    /// nothing else changes.
    Unmatched(Response),
}

/// Routes one decoded message: a response to the correlator, a request or an
/// event to the caller's handlers.
pub fn dispatch_message(c: &mut Correlator, m: Message) -> (r: Dispatch)
    requires
        old(c).wf(),
    ensures
        final(c).wf(),
        m@ matches MessageView::Request { .. } ==> final(c)@ == old(c)@
            && (r matches Dispatch::ToRequestHandler(q) && Message::Request(q)@ == m@),
        m@ matches MessageView::Event { .. } ==> final(c)@ == old(c)@
            && (r matches Dispatch::ToEventHandler(q) && Message::Event(q)@ == m@),
        m@ matches MessageView::Response { request_seq, .. } ==> {
            &&& final(c)@ == resolve_step(old(c)@, request_seq as i64)
            &&& (resolve_hits(old(c)@, request_seq as i64) ==> (r matches Dispatch::Resolved(pr, resp)
                && pr.seq == request_seq as i64
                && pr.created == old(c)@[request_seq as i64]
                && Message::Response(resp)@ == m@))
            &&& (!resolve_hits(old(c)@, request_seq as i64) ==> (r matches Dispatch::Unmatched(resp)
                && Message::Response(resp)@ == m@))
        },
{
    match m {
        Message::Request(q) => Dispatch::ToRequestHandler(q),
        Message::Event(e) => Dispatch::ToEventHandler(e),
        Message::Response(resp) => {
            match c.resolve(resp.request_seq) {
                Some(pr) => Dispatch::Resolved(pr, resp),
                None => Dispatch::Unmatched(resp),
            }
        },
    }
}

} // verus!
