//! The request messages a client sends: a tagged union of the six
//! operations, wrapped with the request identifier.

use vstd::prelude::*;
use crate::codec::{lemma_le_bytes_len, Byteable};
use crate::ids::Uuid;
use crate::time::{Day, Hour, Minute, Time};

verus! {

/// The mathematical content of an availability request.
pub struct AvailabilityModel {
    pub facility_name: Seq<char>,
    pub days: Seq<Day>,
}

/// For requesting facility availability over a list of days.
#[derive(Debug, Clone)]
pub struct AvailabilityRequest {
    pub facility_name: String,
    pub days: Vec<Day>,
}

impl Byteable for AvailabilityRequest {
    type Model = AvailabilityModel;

    open spec fn model(&self) -> AvailabilityModel {
        AvailabilityModel { facility_name: self.facility_name@, days: self.days@ }
    }

    open spec fn spec_wf(m: AvailabilityModel) -> bool {
        true
    }

    open spec fn spec_encodable(m: AvailabilityModel) -> bool {
        String::spec_encodable(m.facility_name) && Vec::<Day>::spec_encodable(m.days)
    }

    open spec fn spec_enc(m: AvailabilityModel) -> Seq<u8> {
        String::spec_enc(m.facility_name) + Vec::<Day>::spec_enc(m.days)
    }

    open spec fn spec_dec(s: Seq<u8>) -> Option<(AvailabilityModel, int)> {
        match String::spec_dec(s) {
            Some(p1) => match Vec::<Day>::spec_dec(s.skip(p1.1)) {
                Some(p2) => Some(
                    (AvailabilityModel { facility_name: p1.0, days: p2.0 }, p1.1 + p2.1),
                ),
                None => None,
            },
            None => None,
        }
    }

    proof fn lemma_dec_props(s: Seq<u8>) {
        String::lemma_dec_props(s);
        if String::spec_dec(s) is Some {
            let p1 = String::spec_dec(s)->Some_0;
            Vec::<Day>::lemma_dec_props(s.skip(p1.1));
        }
    }

    proof fn lemma_round_trip(m: AvailabilityModel, tail: Seq<u8>) {
        let e1 = String::spec_enc(m.facility_name);
        let e2 = Vec::<Day>::spec_enc(m.days);
        let s = Self::spec_enc(m) + tail;
        assert(s =~= e1 + (e2 + tail));
        String::lemma_round_trip(m.facility_name, e2 + tail);
        assert(s.skip(e1.len() as int) =~= e2 + tail);
        Vec::<Day>::lemma_round_trip(m.days, tail);
    }

    fn encodable(&self) -> (b: bool) {
        proof {
            assert(self.days@.map_values(|d: Day| d.model()) =~= self.days@);
        }
        self.facility_name.encodable() && self.days.encodable()
    }

    fn enc_len(&self) -> (r: usize) {
        proof {
            assert(self.days@.map_values(|d: Day| d.model()) =~= self.days@);
        }
        let n1 = self.facility_name.enc_len();
        let n2 = self.days.enc_len();
        proof {
            lemma_string_enc_bound(self.facility_name@);
            lemma_day_vec_enc_bound(self.days@);
        }
        n1 + n2
    }

    fn to_bytes(self) -> (r: Vec<u8>) {
        proof {
            assert(self.days@.map_values(|d: Day| d.model()) =~= self.days@);
        }
        let mut r = self.facility_name.to_bytes();
        let mut b2 = self.days.to_bytes();
        r.append(&mut b2);
        r
    }

    fn from_bytes(data: &mut Vec<u8>) -> (r: Result<Self, String>) {
        let ghost s0 = data@;
        let mut scratch = crate::codec::clone_bytes(data);
        let facility_name = match String::from_bytes(&mut scratch) {
            Ok(v) => v,
            Err(e) => {
                return Err(e);
            },
        };
        let days = match Vec::<Day>::from_bytes(&mut scratch) {
            Ok(v) => v,
            Err(e) => {
                return Err(e);
            },
        };
        proof {
            let p1 = String::spec_dec(s0)->Some_0;
            let p2 = Vec::<Day>::spec_dec(s0.skip(p1.1))->Some_0;
            assert(days@ =~= days@.map_values(|d: Day| d.model()));
            assert(scratch@ =~= s0.skip(p1.1 + p2.1));
        }
        let consumed = data.len() - scratch.len();
        crate::codec::drop_prefix(data, consumed);
        Ok(AvailabilityRequest { facility_name, days })
    }
}

/// A string encoding is at most its two-byte prefix and 65535 bytes.
pub proof fn lemma_string_enc_bound(m: Seq<char>)
    requires
        String::spec_encodable(m),
    ensures
        String::spec_enc(m).len() <= 65537,
{
}

/// A day-list encoding is at most its two-byte prefix and 65535 bytes.
pub proof fn lemma_day_vec_enc_bound(m: Seq<Day>)
    requires
        Vec::<Day>::spec_encodable(m),
    ensures
        Vec::<Day>::spec_enc(m).len() <= 65537,
{
}

/// The mathematical content of a booking request.
pub struct BookModel {
    pub facility_name: Seq<char>,
    pub start_time: Time,
    pub end_time: Time,
}

/// For booking a facility between two times.
#[derive(Debug, Clone)]
pub struct BookRequest {
    pub facility_name: String,
    pub start_time: Time,
    pub end_time: Time,
}

impl Byteable for BookRequest {
    type Model = BookModel;

    open spec fn model(&self) -> BookModel {
        BookModel {
            facility_name: self.facility_name@,
            start_time: self.start_time,
            end_time: self.end_time,
        }
    }

    open spec fn spec_wf(m: BookModel) -> bool {
        m.start_time.wf() && m.end_time.wf()
    }

    open spec fn spec_encodable(m: BookModel) -> bool {
        String::spec_encodable(m.facility_name) && m.start_time.wf() && m.end_time.wf()
    }

    open spec fn spec_enc(m: BookModel) -> Seq<u8> {
        String::spec_enc(m.facility_name) + Time::spec_enc(m.start_time) + Time::spec_enc(
            m.end_time,
        )
    }

    open spec fn spec_dec(s: Seq<u8>) -> Option<(BookModel, int)> {
        match String::spec_dec(s) {
            Some(p1) => match Time::spec_dec(s.skip(p1.1)) {
                Some(p2) => match Time::spec_dec(s.skip(p1.1 + p2.1)) {
                    Some(p3) => Some(
                        (
                            BookModel { facility_name: p1.0, start_time: p2.0, end_time: p3.0 },
                            p1.1 + p2.1 + p3.1,
                        ),
                    ),
                    None => None,
                },
                None => None,
            },
            None => None,
        }
    }

    proof fn lemma_dec_props(s: Seq<u8>) {
        String::lemma_dec_props(s);
        if String::spec_dec(s) is Some {
            let p1 = String::spec_dec(s)->Some_0;
            Time::lemma_dec_props(s.skip(p1.1));
            if Time::spec_dec(s.skip(p1.1)) is Some {
                let p2 = Time::spec_dec(s.skip(p1.1))->Some_0;
                Time::lemma_dec_props(s.skip(p1.1 + p2.1));
            }
        }
    }

    proof fn lemma_round_trip(m: BookModel, tail: Seq<u8>) {
        let e1 = String::spec_enc(m.facility_name);
        let e2 = Time::spec_enc(m.start_time);
        let e3 = Time::spec_enc(m.end_time);
        let s = Self::spec_enc(m) + tail;
        assert(s =~= e1 + (e2 + (e3 + tail)));
        String::lemma_round_trip(m.facility_name, e2 + (e3 + tail));
        assert(s.skip(e1.len() as int) =~= e2 + (e3 + tail));
        Time::lemma_round_trip(m.start_time, e3 + tail);
        assert(s.skip(e1.len() + e2.len() as int) =~= e3 + tail);
        Time::lemma_round_trip(m.end_time, tail);
    }

    fn encodable(&self) -> (b: bool) {
        self.facility_name.encodable() && self.start_time.encodable()
            && self.end_time.encodable()
    }

    fn enc_len(&self) -> (r: usize) {
        let n1 = self.facility_name.enc_len();
        proof {
            lemma_string_enc_bound(self.facility_name@);
        }
        n1 + self.start_time.enc_len() + self.end_time.enc_len()
    }

    fn to_bytes(self) -> (r: Vec<u8>) {
        let mut r = self.facility_name.to_bytes();
        let mut b2 = self.start_time.to_bytes();
        let mut b3 = self.end_time.to_bytes();
        r.append(&mut b2);
        r.append(&mut b3);
        r
    }

    fn from_bytes(data: &mut Vec<u8>) -> (r: Result<Self, String>) {
        let ghost s0 = data@;
        let mut scratch = crate::codec::clone_bytes(data);
        let facility_name = match String::from_bytes(&mut scratch) {
            Ok(v) => v,
            Err(e) => {
                return Err(e);
            },
        };
        let start_time = match Time::from_bytes(&mut scratch) {
            Ok(v) => v,
            Err(e) => {
                return Err(e);
            },
        };
        let end_time = match Time::from_bytes(&mut scratch) {
            Ok(v) => v,
            Err(e) => {
                return Err(e);
            },
        };
        proof {
            let p1 = String::spec_dec(s0)->Some_0;
            let p2 = Time::spec_dec(s0.skip(p1.1))->Some_0;
            let p3 = Time::spec_dec(s0.skip(p1.1 + p2.1))->Some_0;
            assert(scratch@ =~= s0.skip(p1.1 + p2.1 + p3.1));
        }
        let consumed = data.len() - scratch.len();
        crate::codec::drop_prefix(data, consumed);
        Ok(BookRequest { facility_name, start_time, end_time })
    }
}

/// For shifting an existing booking by a signed amount of time.
#[derive(Debug, Clone, Copy)]
pub struct OffsetBookingRequest {
    pub booking_id: Uuid,
    pub offset_hours: Hour,
    pub offset_min: Minute,
    pub negative: bool,
}

impl Byteable for OffsetBookingRequest {
    type Model = OffsetBookingRequest;

    open spec fn model(&self) -> OffsetBookingRequest {
        *self
    }

    open spec fn spec_wf(m: OffsetBookingRequest) -> bool {
        m.offset_hours.wf() && m.offset_min.wf()
    }

    open spec fn spec_encodable(m: OffsetBookingRequest) -> bool {
        m.offset_hours.wf() && m.offset_min.wf()
    }

    open spec fn spec_enc(m: OffsetBookingRequest) -> Seq<u8> {
        Uuid::spec_enc(m.booking_id) + Hour::spec_enc(m.offset_hours) + Minute::spec_enc(
            m.offset_min,
        ) + bool::spec_enc(m.negative)
    }

    open spec fn spec_dec(s: Seq<u8>) -> Option<(OffsetBookingRequest, int)> {
        match Uuid::spec_dec(s) {
            Some(p1) => match Hour::spec_dec(s.skip(p1.1)) {
                Some(p2) => match Minute::spec_dec(s.skip(p1.1 + p2.1)) {
                    Some(p3) => match bool::spec_dec(s.skip(p1.1 + p2.1 + p3.1)) {
                        Some(p4) => Some(
                            (
                                OffsetBookingRequest {
                                    booking_id: p1.0,
                                    offset_hours: p2.0,
                                    offset_min: p3.0,
                                    negative: p4.0,
                                },
                                p1.1 + p2.1 + p3.1 + p4.1,
                            ),
                        ),
                        None => None,
                    },
                    None => None,
                },
                None => None,
            },
            None => None,
        }
    }

    proof fn lemma_dec_props(s: Seq<u8>) {
        Uuid::lemma_dec_props(s);
        if Uuid::spec_dec(s) is Some {
            let p1 = Uuid::spec_dec(s)->Some_0;
            Hour::lemma_dec_props(s.skip(p1.1));
        }
    }

    proof fn lemma_round_trip(m: OffsetBookingRequest, tail: Seq<u8>) {
        let e1 = Uuid::spec_enc(m.booking_id);
        let e2 = Hour::spec_enc(m.offset_hours);
        let e3 = Minute::spec_enc(m.offset_min);
        let e4 = bool::spec_enc(m.negative);
        let s = Self::spec_enc(m) + tail;
        assert(s =~= e1 + (e2 + (e3 + (e4 + tail))));
        Uuid::lemma_round_trip(m.booking_id, e2 + (e3 + (e4 + tail)));
        assert(s.skip(e1.len() as int) =~= e2 + (e3 + (e4 + tail)));
        Hour::lemma_round_trip(m.offset_hours, e3 + (e4 + tail));
        assert(s.skip(e1.len() + e2.len() as int) =~= e3 + (e4 + tail));
        Minute::lemma_round_trip(m.offset_min, e4 + tail);
        assert(s.skip(e1.len() + e2.len() + e3.len() as int) =~= e4 + tail);
        bool::lemma_round_trip(m.negative, tail);
    }

    fn encodable(&self) -> (b: bool) {
        self.offset_hours.encodable() && self.offset_min.encodable()
    }

    fn enc_len(&self) -> (r: usize) {
        proof {
            lemma_le_bytes_len(self.booking_id.v as int, 16);
        }
        self.booking_id.enc_len() + self.offset_hours.enc_len() + self.offset_min.enc_len()
            + self.negative.enc_len()
    }

    fn to_bytes(self) -> (r: Vec<u8>) {
        let mut r = self.booking_id.to_bytes();
        let mut b2 = self.offset_hours.to_bytes();
        let mut b3 = self.offset_min.to_bytes();
        let mut b4 = self.negative.to_bytes();
        r.append(&mut b2);
        r.append(&mut b3);
        r.append(&mut b4);
        r
    }

    fn from_bytes(data: &mut Vec<u8>) -> (r: Result<Self, String>) {
        let ghost s0 = data@;
        let mut scratch = crate::codec::clone_bytes(data);
        let booking_id = match Uuid::from_bytes(&mut scratch) {
            Ok(v) => v,
            Err(e) => {
                return Err(e);
            },
        };
        let offset_hours = match Hour::from_bytes(&mut scratch) {
            Ok(v) => v,
            Err(e) => {
                return Err(e);
            },
        };
        let offset_min = match Minute::from_bytes(&mut scratch) {
            Ok(v) => v,
            Err(e) => {
                return Err(e);
            },
        };
        let negative = match bool::from_bytes(&mut scratch) {
            Ok(v) => v,
            Err(e) => {
                return Err(e);
            },
        };
        proof {
            let p1 = Uuid::spec_dec(s0)->Some_0;
            let p2 = Hour::spec_dec(s0.skip(p1.1))->Some_0;
            let p3 = Minute::spec_dec(s0.skip(p1.1 + p2.1))->Some_0;
            let p4 = bool::spec_dec(s0.skip(p1.1 + p2.1 + p3.1))->Some_0;
            assert(scratch@ =~= s0.skip(p1.1 + p2.1 + p3.1 + p4.1));
        }
        let consumed = data.len() - scratch.len();
        crate::codec::drop_prefix(data, consumed);
        Ok(OffsetBookingRequest { booking_id, offset_hours, offset_min, negative })
    }
}

/// For cancelling a booking by its identifier.
#[derive(Debug, Clone, Copy)]
pub struct CancelBookingRequest {
    pub booking_id: Uuid,
}

impl Byteable for CancelBookingRequest {
    type Model = CancelBookingRequest;

    open spec fn model(&self) -> CancelBookingRequest {
        *self
    }

    open spec fn spec_wf(m: CancelBookingRequest) -> bool {
        true
    }

    open spec fn spec_encodable(m: CancelBookingRequest) -> bool {
        true
    }

    open spec fn spec_enc(m: CancelBookingRequest) -> Seq<u8> {
        Uuid::spec_enc(m.booking_id)
    }

    open spec fn spec_dec(s: Seq<u8>) -> Option<(CancelBookingRequest, int)> {
        match Uuid::spec_dec(s) {
            Some(p1) => Some((CancelBookingRequest { booking_id: p1.0 }, p1.1)),
            None => None,
        }
    }

    proof fn lemma_dec_props(s: Seq<u8>) {
        Uuid::lemma_dec_props(s);
    }

    proof fn lemma_round_trip(m: CancelBookingRequest, tail: Seq<u8>) {
        Uuid::lemma_round_trip(m.booking_id, tail);
    }

    fn encodable(&self) -> (b: bool) {
        true
    }

    fn enc_len(&self) -> (r: usize) {
        proof {
            lemma_le_bytes_len(self.booking_id.v as int, 16);
        }
        self.booking_id.enc_len()
    }

    fn to_bytes(self) -> (r: Vec<u8>) {
        self.booking_id.to_bytes()
    }

    fn from_bytes(data: &mut Vec<u8>) -> (r: Result<Self, String>) {
        let booking_id = match Uuid::from_bytes(data) {
            Ok(v) => v,
            Err(e) => {
                return Err(e);
            },
        };
        Ok(CancelBookingRequest { booking_id })
    }
}

/// For lengthening a booking by moving only its end time.
#[derive(Debug, Clone, Copy)]
pub struct ExtendBookingRequest {
    pub booking_id: Uuid,
    pub extend_hours: Hour,
    pub extend_min: Minute,
}

impl Byteable for ExtendBookingRequest {
    type Model = ExtendBookingRequest;

    open spec fn model(&self) -> ExtendBookingRequest {
        *self
    }

    open spec fn spec_wf(m: ExtendBookingRequest) -> bool {
        m.extend_hours.wf() && m.extend_min.wf()
    }

    open spec fn spec_encodable(m: ExtendBookingRequest) -> bool {
        m.extend_hours.wf() && m.extend_min.wf()
    }

    open spec fn spec_enc(m: ExtendBookingRequest) -> Seq<u8> {
        Uuid::spec_enc(m.booking_id) + Hour::spec_enc(m.extend_hours) + Minute::spec_enc(
            m.extend_min,
        )
    }

    open spec fn spec_dec(s: Seq<u8>) -> Option<(ExtendBookingRequest, int)> {
        match Uuid::spec_dec(s) {
            Some(p1) => match Hour::spec_dec(s.skip(p1.1)) {
                Some(p2) => match Minute::spec_dec(s.skip(p1.1 + p2.1)) {
                    Some(p3) => Some(
                        (
                            ExtendBookingRequest {
                                booking_id: p1.0,
                                extend_hours: p2.0,
                                extend_min: p3.0,
                            },
                            p1.1 + p2.1 + p3.1,
                        ),
                    ),
                    None => None,
                },
                None => None,
            },
            None => None,
        }
    }

    proof fn lemma_dec_props(s: Seq<u8>) {
        Uuid::lemma_dec_props(s);
        if Uuid::spec_dec(s) is Some {
            let p1 = Uuid::spec_dec(s)->Some_0;
            Hour::lemma_dec_props(s.skip(p1.1));
        }
    }

    proof fn lemma_round_trip(m: ExtendBookingRequest, tail: Seq<u8>) {
        let e1 = Uuid::spec_enc(m.booking_id);
        let e2 = Hour::spec_enc(m.extend_hours);
        let e3 = Minute::spec_enc(m.extend_min);
        let s = Self::spec_enc(m) + tail;
        assert(s =~= e1 + (e2 + (e3 + tail)));
        Uuid::lemma_round_trip(m.booking_id, e2 + (e3 + tail));
        assert(s.skip(e1.len() as int) =~= e2 + (e3 + tail));
        Hour::lemma_round_trip(m.extend_hours, e3 + tail);
        assert(s.skip(e1.len() + e2.len() as int) =~= e3 + tail);
        Minute::lemma_round_trip(m.extend_min, tail);
    }

    fn encodable(&self) -> (b: bool) {
        self.extend_hours.encodable() && self.extend_min.encodable()
    }

    fn enc_len(&self) -> (r: usize) {
        proof {
            lemma_le_bytes_len(self.booking_id.v as int, 16);
        }
        self.booking_id.enc_len() + self.extend_hours.enc_len() + self.extend_min.enc_len()
    }

    fn to_bytes(self) -> (r: Vec<u8>) {
        let mut r = self.booking_id.to_bytes();
        let mut b2 = self.extend_hours.to_bytes();
        let mut b3 = self.extend_min.to_bytes();
        r.append(&mut b2);
        r.append(&mut b3);
        r
    }

    fn from_bytes(data: &mut Vec<u8>) -> (r: Result<Self, String>) {
        let ghost s0 = data@;
        let mut scratch = crate::codec::clone_bytes(data);
        let booking_id = match Uuid::from_bytes(&mut scratch) {
            Ok(v) => v,
            Err(e) => {
                return Err(e);
            },
        };
        let extend_hours = match Hour::from_bytes(&mut scratch) {
            Ok(v) => v,
            Err(e) => {
                return Err(e);
            },
        };
        let extend_min = match Minute::from_bytes(&mut scratch) {
            Ok(v) => v,
            Err(e) => {
                return Err(e);
            },
        };
        proof {
            let p1 = Uuid::spec_dec(s0)->Some_0;
            let p2 = Hour::spec_dec(s0.skip(p1.1))->Some_0;
            let p3 = Minute::spec_dec(s0.skip(p1.1 + p2.1))->Some_0;
            assert(scratch@ =~= s0.skip(p1.1 + p2.1 + p3.1));
        }
        let consumed = data.len() - scratch.len();
        crate::codec::drop_prefix(data, consumed);
        Ok(ExtendBookingRequest { booking_id, extend_hours, extend_min })
    }
}

/// The mathematical content of a monitor registration.
pub struct MonitorModel {
    pub facility_name: Seq<char>,
    pub seconds_to_monitor: u8,
}

/// For registering a monitor callback on a facility for a number of
/// seconds.
#[derive(Debug, Clone)]
pub struct MonitorFacilityRequest {
    pub facility_name: String,
    pub seconds_to_monitor: u8,
}

impl Byteable for MonitorFacilityRequest {
    type Model = MonitorModel;

    open spec fn model(&self) -> MonitorModel {
        MonitorModel {
            facility_name: self.facility_name@,
            seconds_to_monitor: self.seconds_to_monitor,
        }
    }

    open spec fn spec_wf(m: MonitorModel) -> bool {
        true
    }

    open spec fn spec_encodable(m: MonitorModel) -> bool {
        String::spec_encodable(m.facility_name)
    }

    open spec fn spec_enc(m: MonitorModel) -> Seq<u8> {
        String::spec_enc(m.facility_name) + u8::spec_enc(m.seconds_to_monitor)
    }

    open spec fn spec_dec(s: Seq<u8>) -> Option<(MonitorModel, int)> {
        match String::spec_dec(s) {
            Some(p1) => match u8::spec_dec(s.skip(p1.1)) {
                Some(p2) => Some(
                    (MonitorModel { facility_name: p1.0, seconds_to_monitor: p2.0 }, p1.1 + p2.1),
                ),
                None => None,
            },
            None => None,
        }
    }

    proof fn lemma_dec_props(s: Seq<u8>) {
        String::lemma_dec_props(s);
    }

    proof fn lemma_round_trip(m: MonitorModel, tail: Seq<u8>) {
        let e1 = String::spec_enc(m.facility_name);
        let e2 = u8::spec_enc(m.seconds_to_monitor);
        let s = Self::spec_enc(m) + tail;
        assert(s =~= e1 + (e2 + tail));
        String::lemma_round_trip(m.facility_name, e2 + tail);
        assert(s.skip(e1.len() as int) =~= e2 + tail);
        u8::lemma_round_trip(m.seconds_to_monitor, tail);
    }

    fn encodable(&self) -> (b: bool) {
        self.facility_name.encodable()
    }

    fn enc_len(&self) -> (r: usize) {
        let n1 = self.facility_name.enc_len();
        proof {
            lemma_string_enc_bound(self.facility_name@);
        }
        n1 + 1
    }

    fn to_bytes(self) -> (r: Vec<u8>) {
        let mut r = self.facility_name.to_bytes();
        let mut b2 = self.seconds_to_monitor.to_bytes();
        r.append(&mut b2);
        r
    }

    fn from_bytes(data: &mut Vec<u8>) -> (r: Result<Self, String>) {
        let ghost s0 = data@;
        let mut scratch = crate::codec::clone_bytes(data);
        let facility_name = match String::from_bytes(&mut scratch) {
            Ok(v) => v,
            Err(e) => {
                return Err(e);
            },
        };
        let seconds_to_monitor = match u8::from_bytes(&mut scratch) {
            Ok(v) => v,
            Err(e) => {
                return Err(e);
            },
        };
        proof {
            let p1 = String::spec_dec(s0)->Some_0;
            assert(scratch@ =~= s0.skip(p1.1 + 1));
        }
        let consumed = data.len() - scratch.len();
        crate::codec::drop_prefix(data, consumed);
        Ok(MonitorFacilityRequest { facility_name, seconds_to_monitor })
    }
}

/// The mathematical content of a request body.
pub enum RequestTypeModel {
    Availability(AvailabilityModel),
    Book(BookModel),
    Offset(OffsetBookingRequest),
    Monitor(MonitorModel),
    Cancel(CancelBookingRequest),
    Extend(ExtendBookingRequest),
}

/// The possible requests to the server, tagged on the wire by a one-byte
/// discriminant: 0 availability, 1 book, 2 offset, 3 monitor, 4 cancel,
/// 5 extend.
#[derive(Debug, Clone)]
pub enum RequestType {
    Availability(AvailabilityRequest),
    Book(BookRequest),
    Offset(OffsetBookingRequest),
    Monitor(MonitorFacilityRequest),
    Cancel(CancelBookingRequest),
    Extend(ExtendBookingRequest),
}

impl Byteable for RequestType {
    type Model = RequestTypeModel;

    open spec fn model(&self) -> RequestTypeModel {
        match self {
            RequestType::Availability(q) => RequestTypeModel::Availability(q.model()),
            RequestType::Book(q) => RequestTypeModel::Book(q.model()),
            RequestType::Offset(q) => RequestTypeModel::Offset(q.model()),
            RequestType::Monitor(q) => RequestTypeModel::Monitor(q.model()),
            RequestType::Cancel(q) => RequestTypeModel::Cancel(q.model()),
            RequestType::Extend(q) => RequestTypeModel::Extend(q.model()),
        }
    }

    open spec fn spec_wf(m: RequestTypeModel) -> bool {
        match m {
            RequestTypeModel::Availability(q) => AvailabilityRequest::spec_wf(q),
            RequestTypeModel::Book(q) => BookRequest::spec_wf(q),
            RequestTypeModel::Offset(q) => OffsetBookingRequest::spec_wf(q),
            RequestTypeModel::Monitor(q) => MonitorFacilityRequest::spec_wf(q),
            RequestTypeModel::Cancel(q) => CancelBookingRequest::spec_wf(q),
            RequestTypeModel::Extend(q) => ExtendBookingRequest::spec_wf(q),
        }
    }

    open spec fn spec_encodable(m: RequestTypeModel) -> bool {
        match m {
            RequestTypeModel::Availability(q) => AvailabilityRequest::spec_encodable(q),
            RequestTypeModel::Book(q) => BookRequest::spec_encodable(q),
            RequestTypeModel::Offset(q) => OffsetBookingRequest::spec_encodable(q),
            RequestTypeModel::Monitor(q) => MonitorFacilityRequest::spec_encodable(q),
            RequestTypeModel::Cancel(q) => CancelBookingRequest::spec_encodable(q),
            RequestTypeModel::Extend(q) => ExtendBookingRequest::spec_encodable(q),
        }
    }

    open spec fn spec_enc(m: RequestTypeModel) -> Seq<u8> {
        match m {
            RequestTypeModel::Availability(q) => seq![0u8] + AvailabilityRequest::spec_enc(q),
            RequestTypeModel::Book(q) => seq![1u8] + BookRequest::spec_enc(q),
            RequestTypeModel::Offset(q) => seq![2u8] + OffsetBookingRequest::spec_enc(q),
            RequestTypeModel::Monitor(q) => seq![3u8] + MonitorFacilityRequest::spec_enc(q),
            RequestTypeModel::Cancel(q) => seq![4u8] + CancelBookingRequest::spec_enc(q),
            RequestTypeModel::Extend(q) => seq![5u8] + ExtendBookingRequest::spec_enc(q),
        }
    }

    open spec fn spec_dec(s: Seq<u8>) -> Option<(RequestTypeModel, int)> {
        if s.len() < 1 {
            None
        } else if s[0] == 0 {
            match AvailabilityRequest::spec_dec(s.skip(1)) {
                Some(p) => Some((RequestTypeModel::Availability(p.0), 1 + p.1)),
                None => None,
            }
        } else if s[0] == 1 {
            match BookRequest::spec_dec(s.skip(1)) {
                Some(p) => Some((RequestTypeModel::Book(p.0), 1 + p.1)),
                None => None,
            }
        } else if s[0] == 2 {
            match OffsetBookingRequest::spec_dec(s.skip(1)) {
                Some(p) => Some((RequestTypeModel::Offset(p.0), 1 + p.1)),
                None => None,
            }
        } else if s[0] == 3 {
            match MonitorFacilityRequest::spec_dec(s.skip(1)) {
                Some(p) => Some((RequestTypeModel::Monitor(p.0), 1 + p.1)),
                None => None,
            }
        } else if s[0] == 4 {
            match CancelBookingRequest::spec_dec(s.skip(1)) {
                Some(p) => Some((RequestTypeModel::Cancel(p.0), 1 + p.1)),
                None => None,
            }
        } else if s[0] == 5 {
            match ExtendBookingRequest::spec_dec(s.skip(1)) {
                Some(p) => Some((RequestTypeModel::Extend(p.0), 1 + p.1)),
                None => None,
            }
        } else {
            None
        }
    }

    proof fn lemma_dec_props(s: Seq<u8>) {
        if s.len() >= 1 {
            AvailabilityRequest::lemma_dec_props(s.skip(1));
            BookRequest::lemma_dec_props(s.skip(1));
            OffsetBookingRequest::lemma_dec_props(s.skip(1));
            MonitorFacilityRequest::lemma_dec_props(s.skip(1));
            CancelBookingRequest::lemma_dec_props(s.skip(1));
            ExtendBookingRequest::lemma_dec_props(s.skip(1));
        }
    }

    proof fn lemma_round_trip(m: RequestTypeModel, tail: Seq<u8>) {
        let s = Self::spec_enc(m) + tail;
        match m {
            RequestTypeModel::Availability(q) => {
                assert(s.skip(1) =~= AvailabilityRequest::spec_enc(q) + tail);
                AvailabilityRequest::lemma_round_trip(q, tail);
            },
            RequestTypeModel::Book(q) => {
                assert(s.skip(1) =~= BookRequest::spec_enc(q) + tail);
                BookRequest::lemma_round_trip(q, tail);
            },
            RequestTypeModel::Offset(q) => {
                assert(s.skip(1) =~= OffsetBookingRequest::spec_enc(q) + tail);
                OffsetBookingRequest::lemma_round_trip(q, tail);
            },
            RequestTypeModel::Monitor(q) => {
                assert(s.skip(1) =~= MonitorFacilityRequest::spec_enc(q) + tail);
                MonitorFacilityRequest::lemma_round_trip(q, tail);
            },
            RequestTypeModel::Cancel(q) => {
                assert(s.skip(1) =~= CancelBookingRequest::spec_enc(q) + tail);
                CancelBookingRequest::lemma_round_trip(q, tail);
            },
            RequestTypeModel::Extend(q) => {
                assert(s.skip(1) =~= ExtendBookingRequest::spec_enc(q) + tail);
                ExtendBookingRequest::lemma_round_trip(q, tail);
            },
        }
    }

    fn encodable(&self) -> (b: bool) {
        match self {
            RequestType::Availability(q) => q.encodable(),
            RequestType::Book(q) => q.encodable(),
            RequestType::Offset(q) => q.encodable(),
            RequestType::Monitor(q) => q.encodable(),
            RequestType::Cancel(q) => q.encodable(),
            RequestType::Extend(q) => q.encodable(),
        }
    }

    fn enc_len(&self) -> (r: usize) {
        proof {
            lemma_request_type_enc_bound(self.model());
        }
        let inner: usize = match self {
            RequestType::Availability(q) => q.enc_len(),
            RequestType::Book(q) => q.enc_len(),
            RequestType::Offset(q) => q.enc_len(),
            RequestType::Monitor(q) => q.enc_len(),
            RequestType::Cancel(q) => q.enc_len(),
            RequestType::Extend(q) => q.enc_len(),
        };
        1 + inner
    }

    fn to_bytes(self) -> (r: Vec<u8>) {
        let mut r: Vec<u8> = Vec::new();
        let mut inner: Vec<u8> = match self {
            RequestType::Availability(q) => {
                r.push(0);
                q.to_bytes()
            },
            RequestType::Book(q) => {
                r.push(1);
                q.to_bytes()
            },
            RequestType::Offset(q) => {
                r.push(2);
                q.to_bytes()
            },
            RequestType::Monitor(q) => {
                r.push(3);
                q.to_bytes()
            },
            RequestType::Cancel(q) => {
                r.push(4);
                q.to_bytes()
            },
            RequestType::Extend(q) => {
                r.push(5);
                q.to_bytes()
            },
        };
        r.append(&mut inner);
        r
    }

    fn from_bytes(data: &mut Vec<u8>) -> (r: Result<Self, String>) {
        let ghost s0 = data@;
        let mut scratch = crate::codec::clone_bytes(data);
        let discriminant = match u8::from_bytes(&mut scratch) {
            Ok(v) => v,
            Err(e) => {
                return Err(e);
            },
        };
        let parsed = match discriminant {
            0u8 => match AvailabilityRequest::from_bytes(&mut scratch) {
                Ok(q) => RequestType::Availability(q),
                Err(e) => {
                    return Err(e);
                },
            },
            1u8 => match BookRequest::from_bytes(&mut scratch) {
                Ok(q) => RequestType::Book(q),
                Err(e) => {
                    return Err(e);
                },
            },
            2u8 => match OffsetBookingRequest::from_bytes(&mut scratch) {
                Ok(q) => RequestType::Offset(q),
                Err(e) => {
                    return Err(e);
                },
            },
            3u8 => match MonitorFacilityRequest::from_bytes(&mut scratch) {
                Ok(q) => RequestType::Monitor(q),
                Err(e) => {
                    return Err(e);
                },
            },
            4u8 => match CancelBookingRequest::from_bytes(&mut scratch) {
                Ok(q) => RequestType::Cancel(q),
                Err(e) => {
                    return Err(e);
                },
            },
            5u8 => match ExtendBookingRequest::from_bytes(&mut scratch) {
                Ok(q) => RequestType::Extend(q),
                Err(e) => {
                    return Err(e);
                },
            },
            _ => {
                return Err("unsupported request type discriminant".to_owned());
            },
        };
        let consumed = data.len() - scratch.len();
        crate::codec::drop_prefix(data, consumed);
        Ok(parsed)
    }
}

/// Every request body encoding fits well below any machine limit.
pub proof fn lemma_request_type_enc_bound(m: RequestTypeModel)
    requires
        RequestType::spec_encodable(m),
    ensures
        RequestType::spec_enc(m).len() <= 140000,
{
    match m {
        RequestTypeModel::Availability(q) => {
            lemma_string_enc_bound(q.facility_name);
            lemma_day_vec_enc_bound(q.days);
        },
        RequestTypeModel::Book(q) => {
            lemma_string_enc_bound(q.facility_name);
        },
        RequestTypeModel::Offset(q) => {
            lemma_le_bytes_len(q.booking_id.v as int, 16);
        },
        RequestTypeModel::Monitor(q) => {
            lemma_string_enc_bound(q.facility_name);
        },
        RequestTypeModel::Cancel(q) => {
            lemma_le_bytes_len(q.booking_id.v as int, 16);
        },
        RequestTypeModel::Extend(q) => {
            lemma_le_bytes_len(q.booking_id.v as int, 16);
        },
    }
}

/// The mathematical content of a raw request.
pub struct RawRequestModel {
    pub request_id: Uuid,
    pub request_type: RequestTypeModel,
}

/// A request datagram: the request identifier followed by the body.
#[derive(Debug, Clone)]
pub struct RawRequest {
    pub request_id: Uuid,
    pub request_type: RequestType,
}

impl Byteable for RawRequest {
    type Model = RawRequestModel;

    open spec fn model(&self) -> RawRequestModel {
        RawRequestModel { request_id: self.request_id, request_type: self.request_type.model() }
    }

    open spec fn spec_wf(m: RawRequestModel) -> bool {
        RequestType::spec_wf(m.request_type)
    }

    open spec fn spec_encodable(m: RawRequestModel) -> bool {
        RequestType::spec_encodable(m.request_type)
    }

    open spec fn spec_enc(m: RawRequestModel) -> Seq<u8> {
        Uuid::spec_enc(m.request_id) + RequestType::spec_enc(m.request_type)
    }

    open spec fn spec_dec(s: Seq<u8>) -> Option<(RawRequestModel, int)> {
        match Uuid::spec_dec(s) {
            Some(p1) => match RequestType::spec_dec(s.skip(p1.1)) {
                Some(p2) => Some(
                    (RawRequestModel { request_id: p1.0, request_type: p2.0 }, p1.1 + p2.1),
                ),
                None => None,
            },
            None => None,
        }
    }

    proof fn lemma_dec_props(s: Seq<u8>) {
        Uuid::lemma_dec_props(s);
        if Uuid::spec_dec(s) is Some {
            let p1 = Uuid::spec_dec(s)->Some_0;
            RequestType::lemma_dec_props(s.skip(p1.1));
        }
    }

    proof fn lemma_round_trip(m: RawRequestModel, tail: Seq<u8>) {
        let e1 = Uuid::spec_enc(m.request_id);
        let e2 = RequestType::spec_enc(m.request_type);
        let s = Self::spec_enc(m) + tail;
        assert(s =~= e1 + (e2 + tail));
        Uuid::lemma_round_trip(m.request_id, e2 + tail);
        assert(s.skip(e1.len() as int) =~= e2 + tail);
        RequestType::lemma_round_trip(m.request_type, tail);
    }

    fn encodable(&self) -> (b: bool) {
        self.request_type.encodable()
    }

    fn enc_len(&self) -> (r: usize) {
        proof {
            lemma_le_bytes_len(self.request_id.v as int, 16);
            lemma_request_type_enc_bound(self.request_type.model());
        }
        self.request_id.enc_len() + self.request_type.enc_len()
    }

    fn to_bytes(self) -> (r: Vec<u8>) {
        let mut r = self.request_id.to_bytes();
        let mut b2 = self.request_type.to_bytes();
        r.append(&mut b2);
        r
    }

    fn from_bytes(data: &mut Vec<u8>) -> (r: Result<Self, String>) {
        let ghost s0 = data@;
        let mut scratch = crate::codec::clone_bytes(data);
        let request_id = match Uuid::from_bytes(&mut scratch) {
            Ok(v) => v,
            Err(e) => {
                return Err(e);
            },
        };
        let request_type = match RequestType::from_bytes(&mut scratch) {
            Ok(v) => v,
            Err(e) => {
                return Err(e);
            },
        };
        proof {
            let p1 = Uuid::spec_dec(s0)->Some_0;
            let p2 = RequestType::spec_dec(s0.skip(p1.1))->Some_0;
            assert(scratch@ =~= s0.skip(p1.1 + p2.1));
        }
        let consumed = data.len() - scratch.len();
        crate::codec::drop_prefix(data, consumed);
        Ok(RawRequest { request_id, request_type })
    }
}

} // verus!
