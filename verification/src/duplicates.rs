//! The per-address response cache: the alternative dedup design that
//! keeps, for each peer, only the latest request identifier and the
//! response sent for it.

use vstd::prelude::*;
use crate::ids::Uuid;

verus! {

/// The mathematical content of the cache: peer address, latest request
/// identifier, response bytes.
pub open spec fn cache_model(s: Seq<(String, (Uuid, Vec<u8>))>) -> Seq<(Seq<char>, Uuid, Seq<u8>)> {
    s.map_values(|e: (String, (Uuid, Vec<u8>))| (e.0@, e.1.0, e.1.1@))
}

/// Whether the cache holds an entry for the address.
pub open spec fn cache_has(m: Seq<(Seq<char>, Uuid, Seq<u8>)>, addr: Seq<char>) -> bool {
    exists|i: int| 0 <= i < m.len() && (#[trigger] m[i]).0 == addr
}

/// Caches, for each peer address, the latest exchange only.
pub struct DuplicatesCache {
    pub entries: Vec<(String, (Uuid, Vec<u8>))>,
}

impl DuplicatesCache {
    /// Every address appears at most once.
    pub open spec fn wf(&self) -> bool {
        forall|i: int, j: int|
            0 <= i < self.entries@.len() && 0 <= j < self.entries@.len() && i != j ==> (
            #[trigger] self.entries@[i]).0@ != (#[trigger] self.entries@[j]).0@
    }

    /// Creates an empty cache.
    pub fn new() -> (r: Self)
        ensures
            r.entries@.len() == 0,
            r.wf(),
    {
        Self { entries: Vec::new() }
    }

    /// The position of the entry for the address, if any.
    fn position_of(&self, addr: &String) -> (r: Option<usize>)
        ensures
            match r {
                Some(i) => i < self.entries@.len() && self.entries@[i as int].0@ == addr@,
                None => !cache_has(cache_model(self.entries@), addr@),
            },
    {
        let mut i: usize = 0;
        while i < self.entries.len()
            invariant
                i <= self.entries@.len(),
                forall|j: int| 0 <= j < i ==> (#[trigger] self.entries@[j]).0@ != addr@,
            decreases self.entries@.len() - i,
        {
            if self.entries[i].0 == *addr {
                return Some(i);
            }
            i += 1;
        }
        proof {
            assert forall|j: int|
                0 <= j < cache_model(self.entries@).len() implies (#[trigger] cache_model(
                self.entries@,
            )[j]).0 != addr@ by {
                assert(cache_model(self.entries@)[j].0 == self.entries@[j].0@);
            }
        }
        None
    }

    /// The cached response for the address, when its latest request
    /// identifier matches; anything else misses.
    pub fn check(&mut self, addr: &String, request_id: &Uuid) -> (r: Option<Vec<u8>>)
        requires
            old(self).wf(),
        ensures
            *final(self) == *old(self),
            match r {
                Some(v) => exists|i: int|
                    0 <= i < cache_model(old(self).entries@).len() && (#[trigger] cache_model(
                        old(self).entries@,
                    )[i]) == (addr@, *request_id, v@),
                None => !(exists|i: int|
                    0 <= i < cache_model(old(self).entries@).len() && (#[trigger] cache_model(
                        old(self).entries@,
                    )[i]).0 == addr@ && cache_model(old(self).entries@)[i].1 == *request_id),
            },
    {
        match self.position_of(addr) {
            Some(i) => {
                if self.entries[i].1.0 == *request_id {
                    let v = crate::codec::clone_bytes(&self.entries[i].1.1);
                    proof {
                        assert((#[trigger] cache_model(self.entries@)[i as int]) == (
                            addr@,
                            *request_id,
                            v@,
                        ));
                    }
                    Some(v)
                } else {
                    proof {
                        assert forall|j: int|
                            0 <= j < cache_model(self.entries@).len() && (#[trigger] cache_model(
                                self.entries@,
                            )[j]).0 == addr@ implies cache_model(self.entries@)[j].1
                            != *request_id by {
                            assert(self.entries@[j].0@ == addr@);
                            assert(j == i as int);
                        }
                    }
                    None
                }
            },
            None => {
                proof {
                    assert forall|j: int|
                        0 <= j < cache_model(self.entries@).len() implies (#[trigger] cache_model(
                        self.entries@,
                    )[j]).0 != addr@ by {
                        assert(cache_model(self.entries@)[j].0 == self.entries@[j].0@);
                        assert(cache_has(cache_model(self.entries@), addr@) ==> false);
                    }
                }
                None
            },
        }
    }

    /// Stores the exchange for the address, replacing whatever the
    /// address held before.
    pub fn insert_entry(&mut self, addr: &String, request_id: &Uuid, response: &Vec<u8>)
        requires
            old(self).wf(),
        ensures
            final(self).wf(),
            cache_has(cache_model(final(self).entries@), addr@),
            exists|i: int|
                {
                    &&& 0 <= i < cache_model(final(self).entries@).len()
                    &&& (#[trigger] cache_model(final(self).entries@)[i]) == (
                        addr@,
                        *request_id,
                        response@,
                    )
                    &&& cache_model(final(self).entries@).len() == (if cache_has(
                        cache_model(old(self).entries@),
                        addr@,
                    ) {
                        cache_model(old(self).entries@).len() as int
                    } else {
                        cache_model(old(self).entries@).len() + 1int
                    })
                    &&& forall|j: int|
                        0 <= j < cache_model(final(self).entries@).len() && j != i
                            ==> #[trigger] cache_model(final(self).entries@)[j] == cache_model(
                            old(self).entries@,
                        )[j]
                },
    {
        let entry = (addr.clone(), (*request_id, crate::codec::clone_bytes(response)));
        match self.position_of(addr) {
            Some(i) => {
                let ghost e0 = self.entries@;
                self.entries.remove(i);
                self.entries.insert(i, entry);
                proof {
                    assert forall|j: int|
                        0 <= j < self.entries@.len() && j != i as int implies (
                    #[trigger] self.entries@[j]) == e0[j] by {
                        if j < i as int {
                            assert(e0.remove(i as int)[j] == e0[j]);
                        } else {
                            assert(e0.remove(i as int)[j - 1] == e0[j]);
                        }
                    }
                    assert(cache_model(self.entries@)[i as int] == (addr@, *request_id, response@));
                    assert(cache_has(cache_model(e0), addr@)) by {
                        assert(cache_model(e0)[i as int].0 == addr@);
                    }
                    assert forall|a: int, b: int|
                        0 <= a < self.entries@.len() && 0 <= b < self.entries@.len() && a
                            != b implies (#[trigger] self.entries@[a]).0@ != (
                    #[trigger] self.entries@[b]).0@ by {
                        if a != i as int && b != i as int {
                            assert(self.entries@[a] == e0[a] && self.entries@[b] == e0[b]);
                        } else {
                            let other = if a == i as int {
                                b
                            } else {
                                a
                            };
                            assert(self.entries@[other] == e0[other]);
                            assert(e0[other].0@ != e0[i as int].0@);
                        }
                    }
                }
            },
            None => {
                let ghost e0 = self.entries@;
                self.entries.push(entry);
                proof {
                    assert(cache_model(self.entries@)[e0.len() as int] == (
                        addr@,
                        *request_id,
                        response@,
                    ));
                    assert forall|j: int| 0 <= j < e0.len() implies (#[trigger] self.entries@[j]).0@
                        != addr@ by {
                        assert(self.entries@[j] == e0[j]);
                        assert(cache_model(e0)[j].0 == e0[j].0@);
                    }
                }
            },
        }
    }
}

} // verus!
