//! 128-bit identifiers for requests and bookings, carried on the wire as
//! 16 raw little-endian bytes.

use vstd::prelude::*;
use crate::codec::{
    drop_prefix, from_le, le_bytes, lemma_from_le_bound, lemma_le_bytes_from_le,
    lemma_le_bytes_len, lemma_pow256_16, pow256, Byteable,
};

verus! {

/// A 128-bit universally unique identifier.
#[derive(Debug, Clone, Copy, PartialEq, Eq, Structural)]
pub struct Uuid {
    pub v: u128,
}

impl Uuid {
    /// Relies on `uuid::Uuid::new_v4`: a freshly drawn random identifier.
    /// Nothing is promised of the value; every caller copes with any
    /// outcome, including a collision with an identifier already in use.
    #[verifier::external_body]
    pub(crate) fn new_v4() -> Uuid {
        Uuid { v: uuid::Uuid::new_v4().as_u128() }
    }
}

impl Byteable for Uuid {
    type Model = Uuid;

    open spec fn model(&self) -> Uuid {
        *self
    }

    open spec fn spec_wf(m: Uuid) -> bool {
        true
    }

    open spec fn spec_encodable(m: Uuid) -> bool {
        true
    }

    open spec fn spec_enc(m: Uuid) -> Seq<u8> {
        le_bytes(m.v as int, 16)
    }

    open spec fn spec_dec(s: Seq<u8>) -> Option<(Uuid, int)> {
        if s.len() >= 16 {
            Some((Uuid { v: from_le(s.subrange(0, 16)) as u128 }, 16int))
        } else {
            None
        }
    }

    proof fn lemma_dec_props(s: Seq<u8>) {
        if s.len() >= 16 {
            let head = s.subrange(0, 16);
            lemma_from_le_bound(head);
            lemma_pow256_16();
            lemma_le_bytes_from_le(from_le(head), 16);
        }
    }

    proof fn lemma_round_trip(m: Uuid, tail: Seq<u8>) {
        lemma_pow256_16();
        lemma_le_bytes_from_le(m.v as int, 16);
        let s = Self::spec_enc(m) + tail;
        assert(s.subrange(0, 16) =~= le_bytes(m.v as int, 16));
    }

    fn encodable(&self) -> (b: bool) {
        true
    }

    fn enc_len(&self) -> (r: usize) {
        proof {
            lemma_le_bytes_len(self.v as int, 16);
        }
        16
    }

    #[verifier::loop_isolation(false)]
    fn to_bytes(self) -> (r: Vec<u8>) {
        proof {
            lemma_pow256_16();
        }
        let mut v: u128 = self.v;
        let mut r: Vec<u8> = Vec::new();
        let mut i: usize = 0;
        proof {
            assert(r@ + le_bytes(v as int, 16) =~= le_bytes(self.v as int, 16));
        }
        while i < 16
            invariant
                i <= 16,
                v < pow256((16 - i) as nat),
                r@.len() == i,
                r@ + le_bytes(v as int, (16 - i) as nat) == le_bytes(self.v as int, 16),
            decreases 16 - i,
        {
            proof {
                assert(le_bytes(v as int, (16 - i) as nat) == seq![(v as int % 256) as u8]
                    + le_bytes(v as int / 256, (15 - i) as nat));
                assert(v as int / 256 < pow256((15 - i) as nat)) by (nonlinear_arith)
                    requires
                        0 <= (v as int),
                        (v as int) < 256 * pow256((15 - i) as nat),
                ;
            }
            let b: u8 = (v % 256) as u8;
            r.push(b);
            v = v / 256;
            i += 1;
            proof {
                assert(r@ + le_bytes(v as int, (16 - i) as nat) =~= le_bytes(self.v as int, 16));
            }
        }
        proof {
            assert(le_bytes(v as int, 0) =~= Seq::<u8>::empty());
            assert(r@ =~= le_bytes(self.v as int, 16));
        }
        r
    }

    #[verifier::loop_isolation(false)]
    fn from_bytes(data: &mut Vec<u8>) -> (r: Result<Self, String>) {
        if data.len() < 16 {
            return Err("an identifier takes 16 bytes, found fewer".to_owned());
        }
        proof {
            lemma_pow256_16();
        }
        let mut v: u128 = 0;
        let mut i: usize = 16;
        proof {
            assert(data@.subrange(16, 16) =~= Seq::<u8>::empty());
        }
        while i > 0
            invariant
                i <= 16,
                v == from_le(data@.subrange(i as int, 16)),
                v < pow256((16 - i) as nat),
            decreases i,
        {
            i -= 1;
            proof {
                let tail = data@.subrange(i as int, 16);
                assert(tail[0] == data@[i as int]);
                assert(tail.skip(1) =~= data@.subrange(i as int + 1, 16));
                lemma_from_le_bound(tail);
                assert(pow256((16 - i) as nat) == 256 * pow256((15 - i) as nat));
                assert(pow256((15 - i) as nat) <= pow256(15)) by {
                    lemma_pow256_le(((15 - i) as nat), 15);
                };
            }
            v = v * 256 + data[i] as u128;
        }
        proof {
            assert(data@.subrange(0, 16) == data@.subrange(0int, 16));
        }
        let id = Uuid { v };
        drop_prefix(data, 16);
        Ok(id)
    }
}

/// `pow256` grows with its exponent.
proof fn lemma_pow256_le(a: nat, b: nat)
    requires
        a <= b,
    ensures
        pow256(a) <= pow256(b),
    decreases b,
{
    if a < b {
        lemma_pow256_le(a, (b - 1) as nat);
        assert(pow256(b) == 256 * pow256((b - 1) as nat));
        assert(pow256(a) >= 1) by {
            lemma_pow256_pos(a);
        };
        assert(256 * pow256((b - 1) as nat) >= pow256((b - 1) as nat)) by (nonlinear_arith)
            requires
                pow256((b - 1) as nat) >= 1,
        ;
    }
}

/// `pow256` is positive.
proof fn lemma_pow256_pos(n: nat)
    ensures
        pow256(n) >= 1,
    decreases n,
{
    if n > 0 {
        lemma_pow256_pos((n - 1) as nat);
    }
}

} // verus!
