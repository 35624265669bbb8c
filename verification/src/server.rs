//! The server's reliability layer around the dispatcher: a datagram whose
//! request identifier is already in the response log is answered by
//! replaying the logged bytes, byte for byte, without touching any state;
//! only a fresh identifier reaches the dispatcher, and its response is
//! logged before it goes out.

use vstd::prelude::*;
use crate::codec::Byteable;
use crate::handler::{dispatch_outcome, Handler, Notification};
use crate::log::{log_has, log_model, Log};
use crate::requests::{RawRequest, RequestType};
use crate::responses::RawResponse;

verus! {

/// What the server does with one datagram: replay the logged bytes, or
/// deliver the dispatcher's fresh response and notifications.
pub enum ServerStep {
    Replay(Vec<u8>),
    Deliver(RawResponse, Vec<Notification>),
}

/// The server's state: the dispatcher, the response log, and whether
/// duplicate suppression is on.
pub struct Server {
    pub handler: Handler,
    pub log: Log,
    pub use_reliability: bool,
}

impl Server {
    /// The dispatcher's and the log's invariants hold.
    pub open spec fn wf(&self) -> bool {
        self.handler.wf() && self.log.wf()
    }

    /// Creates a server over the fixed facilities with an empty log.
    pub fn new(use_reliability: bool) -> (r: Server)
        ensures
            r.wf(),
            r.handler.facilities@.len() == 5,
            r.handler.monitoring_addresses@.len() == 0,
            r.log.log@.len() == 0,
            r.use_reliability == use_reliability,
    {
        Server { handler: Handler::new(), log: Log::new(), use_reliability }
    }

    /// Handles one decoded datagram at `now`.
    ///
    /// Duplicate suppression: with reliability on, a request identifier
    /// already in the log is answered by replaying exactly the bytes
    /// logged for it, and the whole state stands untouched, so the
    /// duplicate causes no further mutation. Only a fresh identifier is
    /// dispatched.
    pub fn process_datagram(&mut self, req: RawRequest, source_addr: &str, now_ms: u64) -> (r:
        ServerStep)
        requires
            old(self).wf(),
            RawRequest::spec_wf(req.model()),
        ensures
            final(self).wf(),
            final(self).use_reliability == old(self).use_reliability,
            final(self).log == old(self).log,
            (old(self).use_reliability && log_has(
                log_model(old(self).log.log@),
                req.request_id,
            )) <==> r is Replay,
            r matches ServerStep::Replay(bytes) ==> *final(self) == *old(self) && exists|i: int|
                {
                    &&& 0 <= i < log_model(old(self).log.log@).len()
                    &&& (#[trigger] log_model(old(self).log.log@)[i]).0 == req.request_id
                    &&& log_model(old(self).log.log@)[i].1 == bytes@
                    &&& forall|j: int|
                        0 <= j < i ==> (#[trigger] log_model(old(self).log.log@)[j]).0
                            != req.request_id
                },
            r matches ServerStep::Deliver(resp, notes) ==> resp.request_id == req.request_id
                && dispatch_outcome(
                old(self).handler,
                final(self).handler,
                req,
                source_addr@,
                now_ms,
                !resp.is_error,
                resp.message@,
                notes@,
            ),
    {
        if self.use_reliability {
            let cached = match self.log.check(&req.request_id) {
                Some(bytes) => Some(crate::codec::clone_bytes(bytes)),
                None => None,
            };
            if let Some(bytes) = cached {
                return ServerStep::Replay(bytes);
            }
        }
        let (response, notes) = self.handler.handle_message(req, source_addr, now_ms);
        ServerStep::Deliver(response, notes)
    }

    /// Handles one decoded datagram at the wall clock's present moment,
    /// returning the step taken and the moment used. The duplicate
    /// suppression of `process_datagram` holds as it stands; the
    /// dispatch outcome holds for the returned moment.
    pub fn process_datagram_now(&mut self, req: RawRequest, source_addr: &str) -> (r: (
        ServerStep,
        u64,
    ))
        requires
            old(self).wf(),
            RawRequest::spec_wf(req.model()),
        ensures
            final(self).wf(),
            final(self).use_reliability == old(self).use_reliability,
            final(self).log == old(self).log,
            (old(self).use_reliability && log_has(
                log_model(old(self).log.log@),
                req.request_id,
            )) <==> r.0 is Replay,
            r.0 matches ServerStep::Replay(bytes) ==> *final(self) == *old(self) && exists|i: int|
                {
                    &&& 0 <= i < log_model(old(self).log.log@).len()
                    &&& (#[trigger] log_model(old(self).log.log@)[i]).0 == req.request_id
                    &&& log_model(old(self).log.log@)[i].1 == bytes@
                    &&& forall|j: int|
                        0 <= j < i ==> (#[trigger] log_model(old(self).log.log@)[j]).0
                            != req.request_id
                },
            r.0 matches ServerStep::Deliver(resp, notes) ==> resp.request_id == req.request_id
                && dispatch_outcome(
                old(self).handler,
                final(self).handler,
                req,
                source_addr@,
                r.1,
                !resp.is_error,
                resp.message@,
                notes@,
            ),
    {
        let now_ms = crate::clock::now_millis();
        let step = self.process_datagram(req, source_addr, now_ms);
        (step, now_ms)
    }

    /// Serializes a response for sending; with reliability on, the bytes
    /// are first recorded in the log under the response's request
    /// identifier. A message too long for the wire format is refused and
    /// nothing is recorded.
    pub fn log_response(&mut self, response: &RawResponse) -> (r: Option<Vec<u8>>)
        requires
            old(self).wf(),
        ensures
            final(self).wf(),
            final(self).handler == old(self).handler,
            final(self).use_reliability == old(self).use_reliability,
            r is Some <==> RawResponse::spec_encodable(response.model()),
            r matches Some(bytes) ==> bytes@ == RawResponse::spec_enc(response.model()),
            (r is None || !old(self).use_reliability) ==> final(self).log == old(self).log,
            old(self).use_reliability ==> (r matches Some(bytes) ==> log_model(
                final(self).log.log@,
            ) == (if old(self).log.log@.len() >= crate::log::MAX_LOG_LENGTH {
                log_model(old(self).log.log@).skip(1).push((response.request_id, bytes@))
            } else {
                log_model(old(self).log.log@).push((response.request_id, bytes@))
            })),
    {
        if !response.encodable() {
            return None;
        }
        let copy = RawResponse {
            request_id: response.request_id,
            is_error: response.is_error,
            message: response.message.clone(),
        };
        let bytes = copy.to_bytes();
        if self.use_reliability {
            self.log.insert(&response.request_id, &bytes);
        }
        Some(bytes)
    }
}

} // verus!
