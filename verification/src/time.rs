//! Days, hours, minutes and the `Time` triple used for booking endpoints,
//! with lexicographic ordering and wrap-around offset arithmetic.

use vstd::prelude::*;
use crate::codec::{drop_prefix, Byteable};

verus! {

/// A day of the week.
#[derive(Debug, Clone, Copy, PartialEq, Eq, Structural)]
pub enum Day {
    Monday,
    Tuesday,
    Wednesday,
    Thursday,
    Friday,
    Saturday,
    Sunday,
}

/// The ordinal of a day, `Monday` being 0 and `Sunday` being 6.
pub open spec fn day_ord(d: Day) -> int {
    match d {
        Day::Monday => 0,
        Day::Tuesday => 1,
        Day::Wednesday => 2,
        Day::Thursday => 3,
        Day::Friday => 4,
        Day::Saturday => 5,
        Day::Sunday => 6,
    }
}

impl Day {
    /// Parses an ordinal in 0..=6 into a `Day`; any larger value is rejected.
    pub fn from_u8(val: u8) -> (r: Result<Self, String>)
        ensures
            val <= 6 ==> r is Ok && day_ord(r->Ok_0) == val,
            val > 6 ==> r is Err,
    {
        match val {
            0u8 => Ok(Day::Monday),
            1u8 => Ok(Day::Tuesday),
            2u8 => Ok(Day::Wednesday),
            3u8 => Ok(Day::Thursday),
            4u8 => Ok(Day::Friday),
            5u8 => Ok(Day::Saturday),
            6u8 => Ok(Day::Sunday),
            _ => Err("day ordinal must be between 0 and 6".to_owned()),
        }
    }

    /// The ordinal of the day, 0 for Monday through 6 for Sunday.
    pub fn to_u8(&self) -> (r: u8)
        ensures
            r == day_ord(*self),
    {
        match self {
            Day::Monday => 0,
            Day::Tuesday => 1,
            Day::Wednesday => 2,
            Day::Thursday => 3,
            Day::Friday => 4,
            Day::Saturday => 5,
            Day::Sunday => 6,
        }
    }
}

/// An hour of the day, in 0..=23.
#[derive(Debug, Clone, Copy, PartialEq, Eq, Structural)]
pub struct Hour(pub u8);

impl Hour {
    /// The hour is within the day.
    pub open spec fn wf(self) -> bool {
        self.0 < 24
    }

    /// Accepts an hour below 24 and rejects anything else.
    pub fn new(hour: u8) -> (r: Result<Self, String>)
        ensures
            hour < 24 ==> r == Ok::<Hour, String>(Hour(hour)),
            hour >= 24 ==> r is Err,
    {
        if hour >= 24 {
            return Err("hour must be below 24".to_owned());
        }
        Ok(Self(hour))
    }
}

/// A minute of the hour, in 0..=59.
#[derive(Debug, Clone, Copy, PartialEq, Eq, Structural)]
pub struct Minute(pub u8);

impl Minute {
    /// The minute is within the hour.
    pub open spec fn wf(self) -> bool {
        self.0 < 60
    }

    /// Accepts a minute below 60 and rejects anything else.
    pub fn new(min: u8) -> (r: Result<Self, String>)
        ensures
            min < 60 ==> r == Ok::<Minute, String>(Minute(min)),
            min >= 60 ==> r is Err,
    {
        if min >= 60 {
            return Err("minute must be below 60".to_owned());
        }
        Ok(Self(min))
    }
}

/// A point in the week: a day together with an hour and a minute.
#[derive(Debug, Clone, Copy, PartialEq, Eq, Structural)]
pub struct Time {
    pub day: Day,
    pub hour: Hour,
    pub minute: Minute,
}

/// The minute-of-week index of a time; ordering times by this index is
/// the lexicographic order over (day, hour, minute).
pub open spec fn time_index(t: Time) -> int {
    day_ord(t.day) * 1440 + t.hour.0 * 60 + t.minute.0
}

impl Time {
    /// Hour and minute are within range.
    pub open spec fn wf(self) -> bool {
        self.hour.wf() && self.minute.wf()
    }

    /// The minute-of-week index as a machine integer.
    pub fn index(&self) -> (i: u32)
        requires
            self.wf(),
        ensures
            i == time_index(*self),
    {
        self.day.to_u8() as u32 * 1440 + self.hour.0 as u32 * 60 + self.minute.0 as u32
    }

    /// Lexicographic `<` over (day, hour, minute).
    pub fn lt(&self, other: &Time) -> (r: bool)
        requires
            self.wf(),
            other.wf(),
        ensures
            r == (time_index(*self) < time_index(*other)),
    {
        self.index() < other.index()
    }

    /// Lexicographic `<=` over (day, hour, minute).
    pub fn le(&self, other: &Time) -> (r: bool)
        requires
            self.wf(),
            other.wf(),
        ensures
            r == (time_index(*self) <= time_index(*other)),
    {
        self.index() <= other.index()
    }

    /// Rebuilds the unique well-formed time with the given minute-of-week index.
    pub fn from_index(idx: u32) -> (t: Time)
        requires
            idx < 10080,
        ensures
            t.wf(),
            time_index(t) == idx,
    {
        let ord: u8 = (idx / 1440) as u8;
        let rest: u32 = idx % 1440;
        let day = match ord {
            0u8 => Day::Monday,
            1u8 => Day::Tuesday,
            2u8 => Day::Wednesday,
            3u8 => Day::Thursday,
            4u8 => Day::Friday,
            5u8 => Day::Saturday,
            _ => Day::Sunday,
        };
        Time { day, hour: Hour((rest / 60) as u8), minute: Minute((rest % 60) as u8) }
    }

    /// Shifts the time by the given hours and minutes, forwards or (with
    /// `negative`) backwards, wrapping around the week: the minute carry
    /// adds one hour, the hour carry moves the day, Sunday wrapping to
    /// Monday forwards and Monday to Sunday backwards.
    pub fn offset(&mut self, hours: Hour, minutes: Minute, negative: bool)
        requires
            old(self).wf(),
            hours.wf(),
            minutes.wf(),
        ensures
            final(self).wf(),
            time_index(*final(self)) == if negative {
                (time_index(*old(self)) + 10080 - offset_amount(hours, minutes)) % 10080
            } else {
                (time_index(*old(self)) + offset_amount(hours, minutes)) % 10080
            },
            *final(self) == spec_shift_time(*old(self), hours, minutes, negative),
    {
        let delta: u32 = hours.0 as u32 * 60 + minutes.0 as u32;
        let idx: u32 = self.index();
        let shifted: u32 = if negative {
            (idx + 10080 - delta) % 10080
        } else {
            (idx + delta) % 10080
        };
        *self = Time::from_index(shifted);
        proof {
            lemma_time_index_inverse(*self);
        }
    }
}

/// The size of an offset, in minutes; always below one day.
pub open spec fn offset_amount(hours: Hour, minutes: Minute) -> int {
    hours.0 * 60 + minutes.0
}

/// The unique well-formed time with the given minute-of-week index.
pub open spec fn spec_time_of(idx: int) -> Time {
    Time {
        day: spec_day_of(idx / 1440),
        hour: Hour(((idx % 1440) / 60) as u8),
        minute: Minute((idx % 60) as u8),
    }
}

/// A well-formed time is determined by its minute-of-week index.
pub proof fn lemma_time_index_inverse(t: Time)
    requires
        t.wf(),
    ensures
        spec_time_of(time_index(t)) == t,
        0 <= time_index(t) < 10080,
{
    let idx = time_index(t);
    let d = day_ord(t.day);
    let r = t.hour.0 * 60 + t.minute.0;
    vstd::arithmetic::div_mod::lemma_fundamental_div_mod_converse_div(idx, 1440, d, r);
    vstd::arithmetic::div_mod::lemma_fundamental_div_mod_converse_mod(idx, 1440, d, r);
    vstd::arithmetic::div_mod::lemma_fundamental_div_mod_converse_div(r, 60, t.hour.0 as int, t.minute.0 as int);
    vstd::arithmetic::div_mod::lemma_fundamental_div_mod_converse_mod(
        idx,
        60,
        24 * d + t.hour.0,
        t.minute.0 as int,
    );
    assert((24 * d + t.hour.0) * 60 == d * 1440 + t.hour.0 * 60) by (nonlinear_arith);
}

/// The time shifted by the given hours and minutes, forwards or backwards,
/// wrapping around the week.
pub open spec fn spec_shift_time(t: Time, hours: Hour, minutes: Minute, negative: bool) -> Time {
    if negative {
        spec_time_of((time_index(t) + 10080 - offset_amount(hours, minutes)) % 10080)
    } else {
        spec_time_of((time_index(t) + offset_amount(hours, minutes)) % 10080)
    }
}

/// Two days with one ordinal are one day.
pub proof fn lemma_day_eq_of_ord(a: Day, b: Day)
    requires
        day_ord(a) == day_ord(b),
    ensures
        a == b,
{
}

/// The day whose ordinal is `o`.
pub open spec fn spec_day_of(o: int) -> Day {
    if o == 0 {
        Day::Monday
    } else if o == 1 {
        Day::Tuesday
    } else if o == 2 {
        Day::Wednesday
    } else if o == 3 {
        Day::Thursday
    } else if o == 4 {
        Day::Friday
    } else if o == 5 {
        Day::Saturday
    } else {
        Day::Sunday
    }
}

impl Byteable for Day {
    type Model = Day;

    open spec fn model(&self) -> Day {
        *self
    }

    open spec fn spec_wf(m: Day) -> bool {
        true
    }

    open spec fn spec_encodable(m: Day) -> bool {
        true
    }

    open spec fn spec_enc(m: Day) -> Seq<u8> {
        seq![day_ord(m) as u8]
    }

    open spec fn spec_dec(s: Seq<u8>) -> Option<(Day, int)> {
        if s.len() >= 1 && s[0] <= 6 {
            Some((spec_day_of(s[0] as int), 1int))
        } else {
            None
        }
    }

    proof fn lemma_dec_props(s: Seq<u8>) {
    }

    proof fn lemma_round_trip(m: Day, tail: Seq<u8>) {
    }

    fn encodable(&self) -> (b: bool) {
        true
    }

    fn enc_len(&self) -> (r: usize) {
        1
    }

    fn to_bytes(self) -> (r: Vec<u8>) {
        self.to_u8().to_bytes()
    }

    fn from_bytes(data: &mut Vec<u8>) -> (r: Result<Self, String>) {
        if data.len() == 0 {
            return Err("expected a day byte, found none".to_owned());
        }
        let b: u8 = data[0];
        if b > 6 {
            return Err("day ordinal must be between 0 and 6".to_owned());
        }
        drop_prefix(data, 1);
        Day::from_u8(b)
    }
}

impl Byteable for Hour {
    type Model = Hour;

    open spec fn model(&self) -> Hour {
        *self
    }

    open spec fn spec_wf(m: Hour) -> bool {
        m.wf()
    }

    open spec fn spec_encodable(m: Hour) -> bool {
        m.wf()
    }

    open spec fn spec_enc(m: Hour) -> Seq<u8> {
        seq![m.0]
    }

    open spec fn spec_dec(s: Seq<u8>) -> Option<(Hour, int)> {
        if s.len() >= 1 && s[0] < 24 {
            Some((Hour(s[0]), 1int))
        } else {
            None
        }
    }

    proof fn lemma_dec_props(s: Seq<u8>) {
    }

    proof fn lemma_round_trip(m: Hour, tail: Seq<u8>) {
    }

    fn encodable(&self) -> (b: bool) {
        self.0 < 24
    }

    fn enc_len(&self) -> (r: usize) {
        1
    }

    fn to_bytes(self) -> (r: Vec<u8>) {
        u8::to_bytes(self.0)
    }

    fn from_bytes(data: &mut Vec<u8>) -> (r: Result<Self, String>) {
        if data.len() == 0 {
            return Err("expected an hour byte, found none".to_owned());
        }
        let b: u8 = data[0];
        if b >= 24 {
            proof {
                assert(Self::spec_dec(old(data)@) is None);
            }
            return Err("hour must be below 24".to_owned());
        }
        drop_prefix(data, 1);
        proof {
            assert(Self::spec_dec(old(data)@) == Some((Hour(b), 1int)));
            assert(data@ == old(data)@.skip(1));
            assert(Ok::<Hour, String>(Hour(b))->Ok_0.model() == Hour(b));
        }
        Ok(Hour(b))
    }
}

impl Byteable for Minute {
    type Model = Minute;

    open spec fn model(&self) -> Minute {
        *self
    }

    open spec fn spec_wf(m: Minute) -> bool {
        m.wf()
    }

    open spec fn spec_encodable(m: Minute) -> bool {
        m.wf()
    }

    open spec fn spec_enc(m: Minute) -> Seq<u8> {
        seq![m.0]
    }

    open spec fn spec_dec(s: Seq<u8>) -> Option<(Minute, int)> {
        if s.len() >= 1 && s[0] < 60 {
            Some((Minute(s[0]), 1int))
        } else {
            None
        }
    }

    proof fn lemma_dec_props(s: Seq<u8>) {
    }

    proof fn lemma_round_trip(m: Minute, tail: Seq<u8>) {
    }

    fn encodable(&self) -> (b: bool) {
        self.0 < 60
    }

    fn enc_len(&self) -> (r: usize) {
        1
    }

    fn to_bytes(self) -> (r: Vec<u8>) {
        u8::to_bytes(self.0)
    }

    fn from_bytes(data: &mut Vec<u8>) -> (r: Result<Self, String>) {
        if data.len() == 0 {
            return Err("expected a minute byte, found none".to_owned());
        }
        let b: u8 = data[0];
        if b >= 60 {
            proof {
                assert(Self::spec_dec(old(data)@) is None);
            }
            return Err("minute must be below 60".to_owned());
        }
        drop_prefix(data, 1);
        proof {
            assert(Self::spec_dec(old(data)@) == Some((Minute(b), 1int)));
            assert(data@ == old(data)@.skip(1));
            assert(Ok::<Minute, String>(Minute(b))->Ok_0.model() == Minute(b));
        }
        Ok(Minute(b))
    }
}

impl Byteable for Time {
    type Model = Time;

    open spec fn model(&self) -> Time {
        *self
    }

    open spec fn spec_wf(m: Time) -> bool {
        m.wf()
    }

    open spec fn spec_encodable(m: Time) -> bool {
        m.wf()
    }

    open spec fn spec_enc(m: Time) -> Seq<u8> {
        seq![day_ord(m.day) as u8, m.hour.0, m.minute.0]
    }

    open spec fn spec_dec(s: Seq<u8>) -> Option<(Time, int)> {
        if s.len() >= 3 && s[0] <= 6 && s[1] < 24 && s[2] < 60 {
            Some((Time { day: spec_day_of(s[0] as int), hour: Hour(s[1]), minute: Minute(s[2]) }, 3int))
        } else {
            None
        }
    }

    proof fn lemma_dec_props(s: Seq<u8>) {
    }

    proof fn lemma_round_trip(m: Time, tail: Seq<u8>) {
        let s = Self::spec_enc(m) + tail;
        assert(s[0] == day_ord(m.day) as u8);
        assert(s[1] == m.hour.0);
        assert(s[2] == m.minute.0);
    }

    fn encodable(&self) -> (b: bool) {
        self.hour.0 < 24 && self.minute.0 < 60
    }

    fn enc_len(&self) -> (r: usize) {
        3
    }

    fn to_bytes(self) -> (r: Vec<u8>) {
        let mut r: Vec<u8> = Vec::new();
        r.push(self.day.to_u8());
        r.push(self.hour.0);
        r.push(self.minute.0);
        r
    }

    fn from_bytes(data: &mut Vec<u8>) -> (r: Result<Self, String>) {
        if data.len() < 3 {
            return Err("a time takes three bytes, found fewer".to_owned());
        }
        let b0: u8 = data[0];
        let b1: u8 = data[1];
        let b2: u8 = data[2];
        if b0 > 6 {
            return Err("day ordinal must be between 0 and 6".to_owned());
        }
        if b1 >= 24 {
            return Err("hour must be below 24".to_owned());
        }
        if b2 >= 60 {
            return Err("minute must be below 60".to_owned());
        }
        let day = match Day::from_u8(b0) {
            Ok(d) => d,
            Err(e) => {
                proof {
                    assert(false);
                }
                return Err(e);
            },
        };
        let t = Time { day, hour: Hour(b1), minute: Minute(b2) };
        drop_prefix(data, 3);
        proof {
            assert(Self::spec_dec(old(data)@) == Some((t, 3int))) by {
                crate::time::lemma_day_eq_of_ord(day, spec_day_of(b0 as int));
            }
        }
        Ok(t)
    }
}

} // verus!
