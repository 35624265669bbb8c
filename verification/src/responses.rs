//! The response datagram the server sends back: the request identifier it
//! answers, an error flag, and a human-readable message.

use vstd::prelude::*;
use crate::codec::Byteable;
use crate::ids::Uuid;

verus! {

/// The mathematical content of a raw response.
pub struct RawResponseModel {
    pub request_id: Uuid,
    pub is_error: bool,
    pub message: Seq<char>,
}

/// A response datagram.
#[derive(Debug, Clone)]
pub struct RawResponse {
    pub request_id: Uuid,
    pub is_error: bool,
    pub message: String,
}

impl Byteable for RawResponse {
    type Model = RawResponseModel;

    open spec fn model(&self) -> RawResponseModel {
        RawResponseModel {
            request_id: self.request_id,
            is_error: self.is_error,
            message: self.message@,
        }
    }

    open spec fn spec_wf(m: RawResponseModel) -> bool {
        true
    }

    open spec fn spec_encodable(m: RawResponseModel) -> bool {
        String::spec_encodable(m.message)
    }

    open spec fn spec_enc(m: RawResponseModel) -> Seq<u8> {
        Uuid::spec_enc(m.request_id) + bool::spec_enc(m.is_error) + String::spec_enc(m.message)
    }

    open spec fn spec_dec(s: Seq<u8>) -> Option<(RawResponseModel, int)> {
        match Uuid::spec_dec(s) {
            Some(p1) => match bool::spec_dec(s.skip(p1.1)) {
                Some(p2) => match String::spec_dec(s.skip(p1.1 + p2.1)) {
                    Some(p3) => Some(
                        (
                            RawResponseModel { request_id: p1.0, is_error: p2.0, message: p3.0 },
                            p1.1 + p2.1 + p3.1,
                        ),
                    ),
                    None => None,
                },
                None => None,
            },
            None => None,
        }
    }

    proof fn lemma_dec_props(s: Seq<u8>) {
        Uuid::lemma_dec_props(s);
        if Uuid::spec_dec(s) is Some {
            let p1 = Uuid::spec_dec(s)->Some_0;
            if bool::spec_dec(s.skip(p1.1)) is Some {
                let p2 = bool::spec_dec(s.skip(p1.1))->Some_0;
                String::lemma_dec_props(s.skip(p1.1 + p2.1));
            }
        }
    }

    proof fn lemma_round_trip(m: RawResponseModel, tail: Seq<u8>) {
        let e1 = Uuid::spec_enc(m.request_id);
        let e2 = bool::spec_enc(m.is_error);
        let e3 = String::spec_enc(m.message);
        let s = Self::spec_enc(m) + tail;
        assert(s =~= e1 + (e2 + (e3 + tail)));
        Uuid::lemma_round_trip(m.request_id, e2 + (e3 + tail));
        assert(s.skip(e1.len() as int) =~= e2 + (e3 + tail));
        bool::lemma_round_trip(m.is_error, e3 + tail);
        assert(s.skip(e1.len() + e2.len() as int) =~= e3 + tail);
        String::lemma_round_trip(m.message, tail);
    }

    fn encodable(&self) -> (b: bool) {
        self.message.encodable()
    }

    fn enc_len(&self) -> (r: usize) {
        let n3 = self.message.enc_len();
        proof {
            crate::codec::lemma_le_bytes_len(self.request_id.v as int, 16);
            crate::requests::lemma_string_enc_bound(self.message@);
        }
        17 + n3
    }

    fn to_bytes(self) -> (r: Vec<u8>) {
        let mut r = self.request_id.to_bytes();
        let mut b2 = self.is_error.to_bytes();
        let mut b3 = self.message.to_bytes();
        r.append(&mut b2);
        r.append(&mut b3);
        r
    }

    fn from_bytes(data: &mut Vec<u8>) -> (r: Result<Self, String>) {
        let ghost s0 = data@;
        let mut scratch = crate::codec::clone_bytes(data);
        let request_id = match Uuid::from_bytes(&mut scratch) {
            Ok(v) => v,
            Err(e) => {
                return Err(e);
            },
        };
        let is_error = match bool::from_bytes(&mut scratch) {
            Ok(v) => v,
            Err(e) => {
                return Err(e);
            },
        };
        proof {
            let p1 = Uuid::spec_dec(s0)->Some_0;
            let p2 = bool::spec_dec(s0.skip(p1.1))->Some_0;
            if Uuid::spec_dec(s0) is Some && bool::spec_dec(s0.skip(p1.1)) is Some {
                assert(scratch@ =~= s0.skip(p1.1 + p2.1));
            }
        }
        let message = match String::from_bytes(&mut scratch) {
            Ok(v) => v,
            Err(e) => {
                return Err(e);
            },
        };
        let res = RawResponse { request_id, is_error, message };
        proof {
            let p1 = Uuid::spec_dec(s0)->Some_0;
            let p2 = bool::spec_dec(s0.skip(p1.1))->Some_0;
            let p3 = String::spec_dec(s0.skip(p1.1 + p2.1))->Some_0;
            assert(scratch@ =~= s0.skip(p1.1 + p2.1 + p3.1));
            assert(res.model() == RawResponseModel {
                request_id: p1.0,
                is_error: p2.0,
                message: p3.0,
            });
            assert(Self::spec_dec(s0) == Some((res.model(), p1.1 + p2.1 + p3.1)));
        }
        let consumed = data.len() - scratch.len();
        crate::codec::drop_prefix(data, consumed);
        Ok(res)
    }
}

} // verus!
