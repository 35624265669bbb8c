//! The client's reliability decisions: a state machine for one
//! send-with-retry exchange. The surrounding loop transmits, draws the
//! duplicate roll, receives and sleeps; this machine decides, from each
//! event, what to do next, and guarantees that the exchange ends within
//! the retry budget, accepts only the response that matches the request,
//! and gives up with a timeout only when the budget is spent.

use vstd::prelude::*;
use crate::ids::Uuid;
use crate::responses::RawResponse;

verus! {

/// The transmit-and-receive timeout, in milliseconds.
pub const TIMEOUT_MS: u64 = 500;

/// The most transmissions one exchange may make.
pub const MAX_RETRIES: u64 = 10;

/// Where one exchange stands.
pub enum SendPhase {
    /// About to transmit the attempt with the stored number.
    Sending,
    /// Transmitted; awaiting a datagram.
    Receiving,
    /// Finished, successfully or not.
    Done,
}

/// What the surrounding loop observed.
pub enum SendEvent {
    /// The datagram went out, and the duplicate roll said whether to
    /// skip the receive and transmit again.
    Rolled(bool),
    /// A datagram arrived and decoded to a response.
    Got(RawResponse),
    /// The receive timed out.
    TimedOut,
    /// The receive failed for another reason.
    Failed(String),
}

/// What the surrounding loop must do next.
pub enum SendAction {
    /// Transmit the request bytes once more.
    Transmit,
    /// Await one datagram.
    Receive,
    /// Sleep this many milliseconds, then transmit once more.
    Backoff(u64),
    /// Stop with this outcome.
    Finish(Result<RawResponse, String>),
}

/// One send-with-retry exchange.
pub struct SendState {
    pub request_id: Uuid,
    pub attempt: u64,
    pub phase: SendPhase,
}

impl SendState {
    /// The attempt count stays within the budget.
    pub open spec fn wf(&self) -> bool {
        self.attempt < MAX_RETRIES
    }

    /// Starts an exchange for the request: the first attempt is about to
    /// be transmitted.
    pub fn new(request_id: Uuid) -> (r: SendState)
        ensures
            r.request_id == request_id,
            r.attempt == 0,
            r.phase is Sending,
            r.wf(),
    {
        SendState { request_id, attempt: 0, phase: SendPhase::Sending }
    }

    /// Whether a response answers this exchange's request.
    pub fn accepts(&self, response: &RawResponse) -> (r: bool)
        ensures
            r == (response.request_id == self.request_id),
    {
        response.request_id == self.request_id
    }

    /// Takes one event and decides the next action.
    ///
    /// The decisions of one exchange: a duplicate roll retransmits
    /// without receiving; a matching response finishes successfully; a
    /// mismatched response is discarded and the receive goes on; a
    /// timeout backs off for `TIMEOUT_MS` times the attempt number and
    /// retransmits; any other receive failure aborts; and when the
    /// transmission budget is spent, the exchange finishes with an
    /// error.
    pub fn step(&mut self, event: SendEvent) -> (action: SendAction)
        requires
            old(self).wf(),
            !(old(self).phase is Done),
        ensures
            final(self).wf(),
            final(self).request_id == old(self).request_id,
            match event {
                SendEvent::Rolled(duplicate) => old(self).phase is Sending ==> (if duplicate {
                    if old(self).attempt + 1 < MAX_RETRIES {
                        &&& final(self).phase is Sending
                        &&& final(self).attempt == old(self).attempt + 1
                        &&& action is Transmit
                    } else {
                        &&& final(self).phase is Done
                        &&& action matches SendAction::Finish(out) && out is Err
                    }
                } else {
                    &&& final(self).phase is Receiving
                    &&& final(self).attempt == old(self).attempt
                    &&& action is Receive
                }),
                SendEvent::Got(response) => old(self).phase is Receiving ==> (if response.request_id
                    == old(self).request_id {
                    &&& final(self).phase is Done
                    &&& action matches SendAction::Finish(out) && out matches Ok(resp) && resp
                        == response
                } else {
                    &&& *final(self) == *old(self)
                    &&& action is Receive
                }),
                SendEvent::TimedOut => old(self).phase is Receiving ==> (if old(self).attempt + 1
                    < MAX_RETRIES {
                    &&& final(self).phase is Sending
                    &&& final(self).attempt == old(self).attempt + 1
                    &&& action matches SendAction::Backoff(ms) && ms == TIMEOUT_MS * (old(
                        self,
                    ).attempt + 1)
                } else {
                    &&& final(self).phase is Done
                    &&& action matches SendAction::Finish(out) && out is Err
                }),
                SendEvent::Failed(err) => old(self).phase is Receiving ==> (final(self).phase
                    is Done && (action matches SendAction::Finish(out) && out matches Err(e) && e
                    == err)),
            },
    {
        match event {
            SendEvent::Rolled(duplicate) => {
                if !(matches!(self.phase, SendPhase::Sending)) {
                    return SendAction::Receive;
                }
                if duplicate {
                    if self.attempt + 1 < MAX_RETRIES {
                        self.attempt = self.attempt + 1;
                        SendAction::Transmit
                    } else {
                        self.phase = SendPhase::Done;
                        SendAction::Finish(
                            Err("timeout: the retry budget is spent".to_owned()),
                        )
                    }
                } else {
                    self.phase = SendPhase::Receiving;
                    SendAction::Receive
                }
            },
            SendEvent::Got(response) => {
                if !(matches!(self.phase, SendPhase::Receiving)) {
                    return SendAction::Receive;
                }
                if self.accepts(&response) {
                    self.phase = SendPhase::Done;
                    SendAction::Finish(Ok(response))
                } else {
                    SendAction::Receive
                }
            },
            SendEvent::TimedOut => {
                if !(matches!(self.phase, SendPhase::Receiving)) {
                    return SendAction::Receive;
                }
                if self.attempt + 1 < MAX_RETRIES {
                    self.attempt = self.attempt + 1;
                    let backoff = TIMEOUT_MS * self.attempt;
                    self.phase = SendPhase::Sending;
                    SendAction::Backoff(backoff)
                } else {
                    self.phase = SendPhase::Done;
                    SendAction::Finish(Err("timeout: the retry budget is spent".to_owned()))
                }
            },
            SendEvent::Failed(err) => {
                if !(matches!(self.phase, SendPhase::Receiving)) {
                    return SendAction::Receive;
                }
                self.phase = SendPhase::Done;
                SendAction::Finish(Err(err))
            },
        }
    }
}

} // verus!
