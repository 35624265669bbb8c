//! The self-describing binary wire format: every message type encodes to a
//! byte sequence and decodes back from a prefix of one.
//!
//! Each `Byteable` type carries a mathematical model of the value on the
//! wire, a specification of its encoding and of its parser, and proofs that
//! a parse consumes at least one byte and that decoding an encoding gives
//! the value back whatever bytes follow it.

use vstd::prelude::*;
use vstd::string::StrSliceExecFns;
use vstd::utf8::{decode_utf8, encode_utf8, valid_utf8};

verus! {

/// A value that serializes to bytes and deserializes from the front of a
/// byte buffer.
///
/// Records encode as the concatenation of their fields in declaration
/// order; variable-length data carries a two-byte little-endian length
/// prefix; tagged unions carry a one-byte discriminant.
pub trait Byteable: Sized {
    /// The mathematical value that the wire format carries.
    type Model;

    /// The model of this value.
    spec fn model(&self) -> Self::Model;

    /// The models a decode may produce: every carried field is in range.
    spec fn spec_wf(m: Self::Model) -> bool;

    /// The models an encode accepts: well-formed, and every
    /// variable-length part fits its length prefix.
    spec fn spec_encodable(m: Self::Model) -> bool;

    /// The encoding of a model.
    spec fn spec_enc(m: Self::Model) -> Seq<u8>;

    /// Parses a prefix of `s`: the model read and how many bytes it took,
    /// or `None` when no prefix of `s` is a valid encoding.
    spec fn spec_dec(s: Seq<u8>) -> Option<(Self::Model, int)>;

    /// A successful parse consumes between one byte and the whole buffer
    /// and yields a well-formed, re-encodable model whose encoding is as
    /// long as what was consumed.
    proof fn lemma_dec_props(s: Seq<u8>)
        ensures
            match Self::spec_dec(s) {
                Some(p) => 1 <= p.1 <= s.len() && Self::spec_wf(p.0) && Self::spec_encodable(p.0)
                    && Self::spec_enc(p.0).len() == p.1,
                None => true,
            },
    ;

    /// Round trip: decoding an encoding gives the value back and consumes
    /// exactly the encoding, whatever bytes follow it.
    proof fn lemma_round_trip(m: Self::Model, tail: Seq<u8>)
        requires
            Self::spec_encodable(m),
        ensures
            Self::spec_dec(Self::spec_enc(m) + tail) == Some((m, Self::spec_enc(m).len() as int)),
    ;

    /// Whether this value can be encoded.
    fn encodable(&self) -> (b: bool)
        ensures
            b == Self::spec_encodable(self.model()),
    ;

    /// The byte length of this value's encoding.
    fn enc_len(&self) -> (r: usize)
        requires
            Self::spec_encodable(self.model()),
        ensures
            r == Self::spec_enc(self.model()).len(),
    ;

    /// Serializes the value to bytes.
    fn to_bytes(self) -> (r: Vec<u8>)
        requires
            Self::spec_encodable(self.model()),
        ensures
            r@ == Self::spec_enc(self.model()),
    ;

    /// Deserializes a value from the front of `data`, consuming exactly
    /// the bytes of its encoding; fails if and only if no prefix of
    /// `data` is a valid encoding, and then leaves the buffer unchanged.
    fn from_bytes(data: &mut Vec<u8>) -> (r: Result<Self, String>)
        ensures
            match Self::spec_dec(old(data)@) {
                Some(p) => r is Ok && r->Ok_0.model() == p.0 && final(data)@ == old(data)@.skip(
                    p.1,
                ),
                None => r is Err && final(data)@ == old(data)@,
            },
    ;
}

/// A byte-for-byte copy of the buffer.
pub fn clone_bytes(v: &Vec<u8>) -> (r: Vec<u8>)
    ensures
        r@ == v@,
{
    let r = v.clone();
    proof {
        assert forall|i: int| 0 <= i < v@.len() implies r@[i] == v@[i] by {}
        assert(r@ =~= v@);
    }
    r
}

/// Removes the first `n` bytes of `data`.
pub fn drop_prefix(data: &mut Vec<u8>, n: usize)
    requires
        n <= old(data).len(),
    ensures
        final(data)@ == old(data)@.skip(n as int),
{
    let tail = data.split_off(n);
    proof {
        assert(tail@ =~= old(data)@.skip(n as int));
    }
    *data = tail;
}

/// The two little-endian bytes of a 16-bit length or value.
pub open spec fn u16_le_bytes(v: u16) -> Seq<u8> {
    seq![(v as int % 256) as u8, (v as int / 256) as u8]
}

/// The 16-bit value read from two little-endian bytes.
pub open spec fn u16_from_le(b0: u8, b1: u8) -> u16 {
    (b0 + 256 * b1) as u16
}

proof fn lemma_u16_le_round(v: u16)
    ensures
        u16_from_le(u16_le_bytes(v)[0], u16_le_bytes(v)[1]) == v,
{
    vstd::arithmetic::div_mod::lemma_fundamental_div_mod(v as int, 256);
}

impl Byteable for bool {
    type Model = bool;

    open spec fn model(&self) -> bool {
        *self
    }

    open spec fn spec_wf(m: bool) -> bool {
        true
    }

    open spec fn spec_encodable(m: bool) -> bool {
        true
    }

    open spec fn spec_enc(m: bool) -> Seq<u8> {
        seq![if m { 1u8 } else { 0u8 }]
    }

    open spec fn spec_dec(s: Seq<u8>) -> Option<(bool, int)> {
        if s.len() >= 1 {
            Some((s[0] >= 1, 1int))
        } else {
            None
        }
    }

    proof fn lemma_dec_props(s: Seq<u8>) {
    }

    proof fn lemma_round_trip(m: bool, tail: Seq<u8>) {
    }

    fn encodable(&self) -> (b: bool) {
        true
    }

    fn enc_len(&self) -> (r: usize) {
        1
    }

    fn to_bytes(self) -> (r: Vec<u8>) {
        let mut r: Vec<u8> = Vec::new();
        r.push(if self { 1u8 } else { 0u8 });
        r
    }

    fn from_bytes(data: &mut Vec<u8>) -> (r: Result<Self, String>) {
        if data.len() == 0 {
            return Err("expected a boolean byte, found none".to_owned());
        }
        let b: u8 = data[0];
        drop_prefix(data, 1);
        Ok(b >= 1)
    }
}

impl Byteable for u8 {
    type Model = u8;

    open spec fn model(&self) -> u8 {
        *self
    }

    open spec fn spec_wf(m: u8) -> bool {
        true
    }

    open spec fn spec_encodable(m: u8) -> bool {
        true
    }

    open spec fn spec_enc(m: u8) -> Seq<u8> {
        seq![m]
    }

    open spec fn spec_dec(s: Seq<u8>) -> Option<(u8, int)> {
        if s.len() >= 1 {
            Some((s[0], 1int))
        } else {
            None
        }
    }

    proof fn lemma_dec_props(s: Seq<u8>) {
    }

    proof fn lemma_round_trip(m: u8, tail: Seq<u8>) {
    }

    fn encodable(&self) -> (b: bool) {
        true
    }

    fn enc_len(&self) -> (r: usize) {
        1
    }

    fn to_bytes(self) -> (r: Vec<u8>) {
        let mut r: Vec<u8> = Vec::new();
        r.push(self);
        r
    }

    fn from_bytes(data: &mut Vec<u8>) -> (r: Result<Self, String>) {
        if data.len() == 0 {
            return Err("expected a byte, found none".to_owned());
        }
        let b: u8 = data[0];
        drop_prefix(data, 1);
        Ok(b)
    }
}

impl Byteable for u16 {
    type Model = u16;

    open spec fn model(&self) -> u16 {
        *self
    }

    open spec fn spec_wf(m: u16) -> bool {
        true
    }

    open spec fn spec_encodable(m: u16) -> bool {
        true
    }

    open spec fn spec_enc(m: u16) -> Seq<u8> {
        u16_le_bytes(m)
    }

    open spec fn spec_dec(s: Seq<u8>) -> Option<(u16, int)> {
        if s.len() >= 2 {
            Some((u16_from_le(s[0], s[1]), 2int))
        } else {
            None
        }
    }

    proof fn lemma_dec_props(s: Seq<u8>) {
    }

    proof fn lemma_round_trip(m: u16, tail: Seq<u8>) {
        lemma_u16_le_round(m);
    }

    fn encodable(&self) -> (b: bool) {
        true
    }

    fn enc_len(&self) -> (r: usize) {
        2
    }

    fn to_bytes(self) -> (r: Vec<u8>) {
        let mut r: Vec<u8> = Vec::new();
        r.push((self % 256) as u8);
        r.push((self / 256) as u8);
        r
    }

    fn from_bytes(data: &mut Vec<u8>) -> (r: Result<Self, String>) {
        if data.len() < 2 {
            return Err("expected two length bytes, found fewer".to_owned());
        }
        let lo: u16 = data[0] as u16;
        let hi: u16 = data[1] as u16;
        drop_prefix(data, 2);
        Ok(lo + hi * 256)
    }
}

/// Relies on `String::from_utf8`: it succeeds exactly on valid UTF-8 and
/// then returns the string whose bytes are exactly the input.
#[verifier::external_body]
fn string_from_utf8(bytes: Vec<u8>) -> (r: Result<String, String>)
    ensures
        r is Ok <==> valid_utf8(bytes@),
        r is Ok ==> r->Ok_0@ == decode_utf8(bytes@),
{
    String::from_utf8(bytes).map_err(|_| String::from("string bytes are not valid UTF-8"))
}

impl Byteable for String {
    type Model = Seq<char>;

    open spec fn model(&self) -> Seq<char> {
        self@
    }

    open spec fn spec_wf(m: Seq<char>) -> bool {
        true
    }

    open spec fn spec_encodable(m: Seq<char>) -> bool {
        encode_utf8(m).len() <= 65535
    }

    open spec fn spec_enc(m: Seq<char>) -> Seq<u8> {
        u16_le_bytes(encode_utf8(m).len() as u16) + encode_utf8(m)
    }

    open spec fn spec_dec(s: Seq<u8>) -> Option<(Seq<char>, int)> {
        match u16::spec_dec(s) {
            Some(p) => {
                let n = p.0 as int;
                if s.len() >= 2 + n && valid_utf8(s.subrange(2, 2 + n)) {
                    Some((decode_utf8(s.subrange(2, 2 + n)), 2 + n))
                } else {
                    None
                }
            },
            None => None,
        }
    }

    proof fn lemma_dec_props(s: Seq<u8>) {
        if Self::spec_dec(s) is Some {
            let n = u16::spec_dec(s)->Some_0.0 as int;
            let payload = s.subrange(2, 2 + n);
            vstd::utf8::decode_utf8_encode_utf8(payload);
        }
    }

    proof fn lemma_round_trip(m: Seq<char>, tail: Seq<u8>) {
        let payload = encode_utf8(m);
        let k = payload.len() as u16;
        let s = Self::spec_enc(m) + tail;
        lemma_u16_le_round(k);
        assert(s[0] == u16_le_bytes(k)[0]);
        assert(s[1] == u16_le_bytes(k)[1]);
        assert(s.subrange(2, 2 + k as int) =~= payload);
        vstd::utf8::encode_utf8_valid_utf8(m);
        vstd::utf8::encode_utf8_decode_utf8(m);
    }

    fn encodable(&self) -> (b: bool) {
        let bytes = self.as_str().as_bytes_vec();
        bytes.len() <= 65535
    }

    fn enc_len(&self) -> (r: usize) {
        let bytes = self.as_str().as_bytes_vec();
        2 + bytes.len()
    }

    fn to_bytes(self) -> (r: Vec<u8>) {
        let mut payload = self.as_str().as_bytes_vec();
        let len: u16 = payload.len() as u16;
        let mut r = len.to_bytes();
        r.append(&mut payload);
        r
    }

    fn from_bytes(data: &mut Vec<u8>) -> (r: Result<Self, String>) {
        let ghost s0 = data@;
        if data.len() < 2 {
            return Err("expected two length bytes, found fewer".to_owned());
        }
        let lo: u16 = data[0] as u16;
        let hi: u16 = data[1] as u16;
        let n: u16 = lo + hi * 256;
        if data.len() - 2 < n as usize {
            return Err("string payload is shorter than its length prefix".to_owned());
        }
        let mut payload: Vec<u8> = Vec::new();
        let mut i: usize = 0;
        while i < n as usize
            invariant
                i <= n as usize,
                2 + n as usize <= data@.len(),
                data@ == s0,
                payload@ == s0.subrange(2, 2 + i as int),
            decreases n as usize - i,
        {
            payload.push(data[2 + i]);
            i += 1;
        }
        proof {
            assert(payload@ =~= s0.subrange(2, 2 + n as int));
        }
        let s = match string_from_utf8(payload) {
            Ok(s) => s,
            Err(e) => {
                return Err(e);
            },
        };
        drop_prefix(data, 2 + n as usize);
        proof {
            assert(data@ =~= s0.skip(2 + n as int));
        }
        Ok(s)
    }
}

/// 256 to the power `n`: the count of values of an `n`-byte integer.
pub open spec fn pow256(n: nat) -> int
    decreases n,
{
    if n == 0 {
        1
    } else {
        256 * pow256((n - 1) as nat)
    }
}

/// The `n` little-endian bytes of a non-negative integer below `pow256(n)`.
pub open spec fn le_bytes(v: int, n: nat) -> Seq<u8>
    decreases n,
{
    if n == 0 {
        Seq::empty()
    } else {
        seq![(v % 256) as u8] + le_bytes(v / 256, (n - 1) as nat)
    }
}

/// The integer read from a little-endian byte sequence.
pub open spec fn from_le(s: Seq<u8>) -> int
    decreases s.len(),
{
    if s.len() == 0 {
        0
    } else {
        s[0] + 256 * from_le(s.skip(1))
    }
}

pub proof fn lemma_from_le_bound(s: Seq<u8>)
    ensures
        0 <= from_le(s) < pow256(s.len() as nat),
    decreases s.len(),
{
    if s.len() > 0 {
        lemma_from_le_bound(s.skip(1));
    }
}

/// `le_bytes` always yields exactly `n` bytes.
pub proof fn lemma_le_bytes_len(v: int, n: nat)
    ensures
        le_bytes(v, n).len() == n,
    decreases n,
{
    if n > 0 {
        lemma_le_bytes_len(v / 256, (n - 1) as nat);
    }
}

pub proof fn lemma_le_bytes_from_le(v: int, n: nat)
    requires
        0 <= v < pow256(n),
    ensures
        le_bytes(v, n).len() == n,
        from_le(le_bytes(v, n)) == v,
    decreases n,
{
    if n > 0 {
        vstd::arithmetic::div_mod::lemma_fundamental_div_mod(v, 256);
        assert(0 <= v / 256 && 256 * (v / 256) <= v) by (nonlinear_arith)
            requires
                0 <= v,
        ;
        assert(v / 256 < pow256((n - 1) as nat)) by (nonlinear_arith)
            requires
                256 * (v / 256) <= v,
                v < 256 * pow256((n - 1) as nat),
        ;
        lemma_le_bytes_from_le(v / 256, (n - 1) as nat);
        assert(le_bytes(v, n).skip(1) =~= le_bytes(v / 256, (n - 1) as nat));
    }
}

pub proof fn lemma_pow256_16()
    ensures
        pow256(15) == 0x1000000000000000000000000000000,
        pow256(16) == 0x100000000000000000000000000000000,
{
    reveal_with_fuel(pow256, 17);
}

/// The concatenated encodings of a sequence of models, first to last.
pub open spec fn items_enc<T: Byteable>(ms: Seq<T::Model>) -> Seq<u8>
    decreases ms.len(),
{
    if ms.len() == 0 {
        Seq::empty()
    } else {
        T::spec_enc(ms[0]) + items_enc::<T>(ms.skip(1))
    }
}

/// Parses items from `p`, one after the other, until it is exhausted.
pub open spec fn parse_items<T: Byteable>(p: Seq<u8>) -> Option<Seq<T::Model>>
    decreases p.len(),
{
    if p.len() == 0 {
        Some(Seq::empty())
    } else {
        match T::spec_dec(p) {
            Some(q) => if 1 <= q.1 <= p.len() {
                match parse_items::<T>(p.skip(q.1)) {
                    Some(rest) => Some(seq![q.0] + rest),
                    None => None,
                }
            } else {
                None
            },
            None => None,
        }
    }
}

/// Whatever a whole payload parses to re-encodes to a payload of the same
/// length, item by item.
pub proof fn lemma_parse_items_props<T: Byteable>(p: Seq<u8>)
    ensures
        match parse_items::<T>(p) {
            Some(ms) => items_enc::<T>(ms).len() == p.len() && forall|i: int|
                0 <= i < ms.len() ==> T::spec_wf(#[trigger] ms[i]) && T::spec_encodable(ms[i]),
            None => true,
        },
    decreases p.len(),
{
    if p.len() != 0 {
        T::lemma_dec_props(p);
        match T::spec_dec(p) {
            Some(q) => {
                lemma_parse_items_props::<T>(p.skip(q.1));
                match parse_items::<T>(p.skip(q.1)) {
                    Some(rest) => {
                        let ms = seq![q.0] + rest;
                        assert(ms.skip(1) =~= rest);
                        assert(items_enc::<T>(ms) == T::spec_enc(ms[0]) + items_enc::<T>(rest));
                    },
                    None => {},
                }
            },
            None => {},
        }
    }
}

/// A sequence of encodable items parses back from its concatenated
/// encodings, item for item.
pub proof fn lemma_parse_items_round_trip<T: Byteable>(ms: Seq<T::Model>)
    requires
        forall|i: int| 0 <= i < ms.len() ==> T::spec_encodable(#[trigger] ms[i]),
    ensures
        parse_items::<T>(items_enc::<T>(ms)) == Some(ms),
    decreases ms.len(),
{
    if ms.len() == 0 {
        assert(items_enc::<T>(ms).len() == 0);
        assert(parse_items::<T>(items_enc::<T>(ms)) == Some(Seq::<T::Model>::empty()));
        assert(ms =~= Seq::<T::Model>::empty());
    } else {
        let rest = ms.skip(1);
        assert(forall|i: int| 0 <= i < rest.len() ==> T::spec_encodable(#[trigger] rest[i]));
        let head_enc = T::spec_enc(ms[0]);
        let tail_enc = items_enc::<T>(rest);
        let p = items_enc::<T>(ms);
        assert(p == head_enc + tail_enc);
        T::lemma_round_trip(ms[0], tail_enc);
        T::lemma_dec_props(p);
        assert(p.skip(head_enc.len() as int) =~= tail_enc);
        lemma_parse_items_round_trip::<T>(rest);
        assert(seq![ms[0]] + rest =~= ms);
    }
}

impl<T: Byteable> Byteable for Vec<T> {
    type Model = Seq<T::Model>;

    open spec fn model(&self) -> Seq<T::Model> {
        self@.map_values(|t: T| t.model())
    }

    open spec fn spec_wf(ms: Seq<T::Model>) -> bool {
        forall|i: int| 0 <= i < ms.len() ==> T::spec_wf(#[trigger] ms[i])
    }

    open spec fn spec_encodable(ms: Seq<T::Model>) -> bool {
        &&& forall|i: int| 0 <= i < ms.len() ==> T::spec_encodable(#[trigger] ms[i])
        &&& items_enc::<T>(ms).len() <= 65535
    }

    open spec fn spec_enc(ms: Seq<T::Model>) -> Seq<u8> {
        u16_le_bytes(items_enc::<T>(ms).len() as u16) + items_enc::<T>(ms)
    }

    open spec fn spec_dec(s: Seq<u8>) -> Option<(Seq<T::Model>, int)> {
        match u16::spec_dec(s) {
            Some(p) => {
                let n = p.0 as int;
                if s.len() >= 2 + n {
                    match parse_items::<T>(s.subrange(2, 2 + n)) {
                        Some(ms) => Some((ms, 2 + n)),
                        None => None,
                    }
                } else {
                    None
                }
            },
            None => None,
        }
    }

    proof fn lemma_dec_props(s: Seq<u8>) {
        if Self::spec_dec(s) is Some {
            let n = u16::spec_dec(s)->Some_0.0 as int;
            lemma_parse_items_props::<T>(s.subrange(2, 2 + n));
            T::lemma_dec_props(s);
        }
    }

    proof fn lemma_round_trip(ms: Seq<T::Model>, tail: Seq<u8>) {
        let payload = items_enc::<T>(ms);
        let k = payload.len() as u16;
        let s = Self::spec_enc(ms) + tail;
        lemma_u16_le_round(k);
        assert(s[0] == u16_le_bytes(k)[0]);
        assert(s[1] == u16_le_bytes(k)[1]);
        assert(s.subrange(2, 2 + k as int) =~= payload);
        lemma_parse_items_round_trip::<T>(ms);
    }

    fn encodable(&self) -> (b: bool)
    {
        let ghost ms0 = self@.map_values(|t: T| t.model());
        let mut total: usize = 0;
        let mut i: usize = 0;
        while i < self.len()
            invariant
                i <= self@.len(),
                ms0 == self@.map_values(|t: T| t.model()),
                total <= 65535,
                forall|j: int| 0 <= j < i ==> T::spec_encodable(#[trigger] ms0[j]),
                total == items_enc::<T>(ms0.take(i as int)).len(),
            decreases self@.len() - i,
        {
            if !self[i].encodable() {
                proof {
                    assert(ms0[i as int] == self@.map_values(|t: T| t.model())[i as int]);
                    assert(!T::spec_encodable(ms0[i as int]));
                }
                return false;
            }
            let item_len = self[i].enc_len();
            proof {
                lemma_items_enc_take_succ::<T>(ms0, i as int);
            }
            if item_len > 65535 - total {
                proof {
                    lemma_items_enc_take_len::<T>(ms0, i + 1);
                }
                return false;
            }
            total = total + item_len;
            i += 1;
        }
        proof {
            assert(ms0.take(i as int) =~= ms0);
        }
        true
    }

    fn enc_len(&self) -> (r: usize) {
        let ghost ms0 = self@.map_values(|t: T| t.model());
        let mut total: usize = 0;
        let mut i: usize = 0;
        while i < self.len()
            invariant
                i <= self@.len(),
                ms0 == self@.map_values(|t: T| t.model()),
                <Self as Byteable>::spec_encodable(ms0),
                total == items_enc::<T>(ms0.take(i as int)).len(),
                total <= 65535,
            decreases self@.len() - i,
        {
            proof {
                lemma_items_enc_take_succ::<T>(ms0, i as int);
                lemma_items_enc_take_len::<T>(ms0, i as int + 1);
            }
            total = total + self[i].enc_len();
            i += 1;
        }
        proof {
            assert(ms0.take(i as int) =~= ms0);
        }
        2 + total
    }

    fn to_bytes(self) -> (r: Vec<u8>) {
        let ghost ms0 = self@.map_values(|t: T| t.model());
        let mut v = self;
        let mut payload: Vec<u8> = Vec::new();
        proof {
            assert(ms0.skip(0) =~= ms0);
        }
        while v.len() > 0
            invariant
                <Self as Byteable>::spec_encodable(ms0),
                v@.len() <= ms0.len(),
                payload@ + items_enc::<T>(v@.map_values(|t: T| t.model())) == items_enc::<T>(
                    ms0,
                ),
                v@.map_values(|t: T| t.model()) == ms0.skip(ms0.len() - v@.len()),
            decreases v@.len(),
        {
            let ghost vm = v@.map_values(|t: T| t.model());
            let ghost k = ms0.len() - v@.len();
            let item = v.remove(0);
            proof {
                assert(vm[0] == item.model());
                assert(vm[0] == ms0.skip(k)[0]);
                assert(ms0.skip(k)[0] == ms0[k]);
                assert(T::spec_encodable(ms0[k]));
                assert(v@.map_values(|t: T| t.model()) =~= vm.skip(1));
                assert(vm.skip(1) =~= ms0.skip(k + 1));
                assert(items_enc::<T>(vm) == T::spec_enc(vm[0]) + items_enc::<T>(vm.skip(1)));
            }
            let mut b = item.to_bytes();
            payload.append(&mut b);
        }
        proof {
            assert(v@.map_values(|t: T| t.model()) =~= Seq::<T::Model>::empty());
            assert(payload@ =~= items_enc::<T>(ms0));
        }
        let len: u16 = payload.len() as u16;
        let mut r = len.to_bytes();
        r.append(&mut payload);
        r
    }

    #[verifier::loop_isolation(false)]
    fn from_bytes(data: &mut Vec<u8>) -> (r: Result<Self, String>) {
        let ghost s0 = data@;
        if data.len() < 2 {
            return Err("expected two length bytes, found fewer".to_owned());
        }
        let lo: u16 = data[0] as u16;
        let hi: u16 = data[1] as u16;
        let n: u16 = lo + hi * 256;
        if data.len() - 2 < n as usize {
            return Err("sequence payload is shorter than its length prefix".to_owned());
        }
        let mut payload: Vec<u8> = Vec::new();
        let mut i: usize = 0;
        while i < n as usize
            invariant
                i <= n as usize,
                2 + n as usize <= data@.len(),
                data@ == s0,
                payload@ == s0.subrange(2, 2 + i as int),
            decreases n as usize - i,
        {
            payload.push(data[2 + i]);
            i += 1;
        }
        let ghost payload0 = payload@;
        proof {
            assert(payload0 =~= s0.subrange(2, 2 + n as int));
        }
        let mut items: Vec<T> = Vec::new();
        while payload.len() > 0
            invariant
                data@ == s0,
                parse_items::<T>(payload0) == (match parse_items::<T>(payload@) {
                    Some(rest) => Some(items@.map_values(|t: T| t.model()) + rest),
                    None => None::<Seq<T::Model>>,
                }),
            decreases payload@.len(),
        {
            let ghost p = payload@;
            let ghost models = items@.map_values(|t: T| t.model());
            proof {
                T::lemma_dec_props(p);
            }
            let item = match T::from_bytes(&mut payload) {
                Ok(it) => it,
                Err(e) => {
                    return Err(e);
                },
            };
            items.push(item);
            proof {
                let q = T::spec_dec(p)->Some_0;
                assert(items@.map_values(|t: T| t.model()) =~= models.push(q.0));
                match parse_items::<T>(payload@) {
                    Some(rest) => {
                        assert(parse_items::<T>(p) == Some(seq![q.0] + rest));
                        assert(models + (seq![q.0] + rest) =~= models.push(q.0) + rest);
                    },
                    None => {},
                }
            }
        }
        proof {
            assert(payload@ =~= Seq::<u8>::empty());
            assert(parse_items::<T>(payload@) == Some(Seq::<T::Model>::empty()));
            assert(items@.map_values(|t: T| t.model()) + Seq::<T::Model>::empty() =~= items@.map_values(
                |t: T| t.model(),
            ));
        }
        drop_prefix(data, 2 + n as usize);
        proof {
            assert(data@ =~= s0.skip(2 + n as int));
        }
        Ok(items)
    }
}

/// The length of the first `i + 1` items' encodings unfolds by one item.
proof fn lemma_items_enc_take_succ<T: Byteable>(ms: Seq<T::Model>, i: int)
    requires
        0 <= i < ms.len(),
    ensures
        items_enc::<T>(ms.take(i + 1)).len() == items_enc::<T>(ms.take(i)).len() + T::spec_enc(
            ms[i],
        ).len(),
    decreases i,
{
    if i == 0 {
        assert(ms.take(1).skip(1) =~= Seq::<T::Model>::empty());
        assert(ms.take(1)[0] == ms[0]);
        assert(ms.take(0) =~= Seq::<T::Model>::empty());
    } else {
        assert(ms.take(i + 1).skip(1) =~= ms.skip(1).take(i));
        assert(ms.take(i).skip(1) =~= ms.skip(1).take(i - 1));
        lemma_items_enc_take_succ::<T>(ms.skip(1), i - 1);
    }
}

/// A prefix of the items never encodes longer than the whole.
proof fn lemma_items_enc_take_len<T: Byteable>(ms: Seq<T::Model>, i: int)
    requires
        0 <= i <= ms.len(),
    ensures
        items_enc::<T>(ms.take(i)).len() <= items_enc::<T>(ms).len(),
    decreases ms.len() - i,
{
    if i == ms.len() {
        assert(ms.take(i) =~= ms);
    } else {
        lemma_items_enc_take_succ::<T>(ms, i);
        lemma_items_enc_take_len::<T>(ms, i + 1);
    }
}

} // verus!
