//! The server's response log: the at-most-once structure mapping request
//! identifiers to the last serialized response, kept in arrival order
//! and bounded, the oldest entry leaving on overflow.

use std::collections::VecDeque;
use vstd::prelude::*;
use crate::codec::clone_bytes;
use crate::ids::Uuid;

verus! {

/// The most entries the log retains.
pub const MAX_LOG_LENGTH: usize = 50;

/// The mathematical content of the log: identifiers and response bytes,
/// oldest first.
pub open spec fn log_model(s: Seq<(Uuid, Vec<u8>)>) -> Seq<(Uuid, Seq<u8>)> {
    s.map_values(|e: (Uuid, Vec<u8>)| (e.0, e.1@))
}

/// Whether the log holds an entry for the identifier.
pub open spec fn log_has(m: Seq<(Uuid, Seq<u8>)>, id: Uuid) -> bool {
    exists|i: int| 0 <= i < m.len() && (#[trigger] m[i]).0 == id
}

/// Caches previous responses under their request identifiers.
pub struct Log {
    pub log: VecDeque<(Uuid, Vec<u8>)>,
}

impl Log {
    /// The log never outgrows its bound.
    pub open spec fn wf(&self) -> bool {
        self.log@.len() <= MAX_LOG_LENGTH
    }

    /// Creates an empty log.
    pub fn new() -> (r: Self)
        ensures
            r.log@.len() == 0,
            r.wf(),
    {
        Self { log: VecDeque::new() }
    }

    /// The cached response bytes of the oldest entry for the identifier,
    /// if any entry carries it.
    pub fn check(&mut self, request_id: &Uuid) -> (r: Option<&Vec<u8>>)
        ensures
            *final(self) == *old(self),
            match r {
                Some(v) => exists|i: int|
                    {
                        &&& 0 <= i < log_model(old(self).log@).len()
                        &&& (#[trigger] log_model(old(self).log@)[i]).0 == *request_id
                        &&& log_model(old(self).log@)[i].1 == v@
                        &&& forall|j: int|
                            0 <= j < i ==> (#[trigger] log_model(old(self).log@)[j]).0
                                != *request_id
                    },
                None => !log_has(log_model(old(self).log@), *request_id),
            },
    {
        let ghost m = log_model(self.log@);
        let n = self.log.len();
        let mut i: usize = 0;
        while i < n
            invariant
                i <= n,
                n == self.log@.len(),
                *self == *old(self),
                m == log_model(self.log@),
                forall|j: int| 0 <= j < i ==> (#[trigger] m[j]).0 != *request_id,
            decreases n - i,
        {
            if self.log[i].0 == *request_id {
                proof {
                    assert(m[i as int].0 == *request_id && m[i as int].1 == self.log@[i as int].1@);
                }
                return Some(&self.log[i].1);
            }
            i += 1;
        }
        None
    }

    /// Records the response bytes under the request identifier, dropping
    /// the oldest entry when the log is full.
    pub fn insert(&mut self, request_id: &Uuid, response: &Vec<u8>)
        requires
            old(self).wf(),
        ensures
            final(self).wf(),
            log_model(final(self).log@) == if old(self).log@.len() >= MAX_LOG_LENGTH {
                log_model(old(self).log@).skip(1).push((*request_id, response@))
            } else {
                log_model(old(self).log@).push((*request_id, response@))
            },
    {
        let ghost m0 = log_model(self.log@);
        if self.log.len() >= MAX_LOG_LENGTH {
            self.log.pop_front();
            proof {
                assert(log_model(self.log@) =~= m0.skip(1));
            }
        }
        let ghost m1 = log_model(self.log@);
        let bytes = clone_bytes(response);
        self.log.push_back((*request_id, bytes));
        proof {
            assert(log_model(self.log@) =~= m1.push((*request_id, response@)));
        }
    }
}

} // verus!
