//! The in-memory booking store: one `Facility` holds non-overlapping,
//! single-day bookings under unique identifiers, and supports adding,
//! removing, shifting and extending them atomically.

use vstd::prelude::*;
use vstd::seq_lib::*;
use crate::ids::Uuid;
use crate::time::{
    day_ord, lemma_time_index_inverse, offset_amount, spec_day_of, spec_shift_time, spec_time_of,
    time_index, Day, Hour, Minute, Time,
};

verus! {

/// The booking identifier: a 128-bit universally unique identifier.
pub type BookingId = Uuid;

/// A booking, marked by a start and an end time on one day.
#[derive(Debug, Clone, Copy, PartialEq, Eq, Structural)]
pub struct Booking {
    pub start_time: Time,
    pub end_time: Time,
}

/// Two bookings overlap when their closed intervals intersect.
pub open spec fn spec_overlaps(a: Booking, b: Booking) -> bool {
    ||| time_index(a.start_time) <= time_index(b.start_time) <= time_index(a.end_time)
    ||| time_index(b.start_time) <= time_index(a.start_time) <= time_index(b.end_time)
}

/// The booking shifted whole by the given amount: both endpoints move.
pub open spec fn spec_offset_booking(b: Booking, hours: Hour, minutes: Minute, negative: bool) -> Booking {
    Booking {
        start_time: spec_shift_time(b.start_time, hours, minutes, negative),
        end_time: spec_shift_time(b.end_time, hours, minutes, negative),
    }
}

/// The booking lengthened by the given amount: only the end moves, forwards.
pub open spec fn spec_extend_booking(b: Booking, hours: Hour, minutes: Minute) -> Booking {
    Booking { start_time: b.start_time, end_time: spec_shift_time(b.end_time, hours, minutes, false) }
}

impl Booking {
    /// Starts before it ends, on the same day, with both endpoints in range.
    pub open spec fn wf(self) -> bool {
        &&& self.start_time.wf()
        &&& self.end_time.wf()
        &&& time_index(self.start_time) < time_index(self.end_time)
        &&& self.start_time.day == self.end_time.day
    }

    /// Creates the booking; rejects a start at or after the end, and
    /// endpoints on different days.
    pub fn new(start_time: Time, end_time: Time) -> (r: Result<Self, String>)
        requires
            start_time.wf(),
            end_time.wf(),
        ensures
            r is Ok <==> time_index(start_time) < time_index(end_time) && start_time.day
                == end_time.day,
            r is Ok ==> r->Ok_0 == (Booking { start_time, end_time }) && r->Ok_0.wf(),
    {
        if !start_time.lt(&end_time) {
            return Err("start time is at or after end time".to_owned());
        }
        if start_time.day.to_u8() != end_time.day.to_u8() {
            return Err("start and end must be on the same day".to_owned());
        }
        Ok(Self { start_time, end_time })
    }

    /// The start and end times of the booking.
    pub fn time(&self) -> (r: (&Time, &Time))
        ensures
            *r.0 == self.start_time,
            *r.1 == self.end_time,
    {
        (&self.start_time, &self.end_time)
    }

    /// Whether the two bookings' closed intervals intersect.
    pub fn overlaps(&self, other_booking: &Booking) -> (r: bool)
        requires
            self.wf(),
            other_booking.wf(),
        ensures
            r == spec_overlaps(*self, *other_booking),
    {
        (self.start_time.le(&other_booking.start_time) && other_booking.start_time.le(
            &self.end_time,
        )) || (other_booking.start_time.le(&self.start_time) && self.start_time.le(
            &other_booking.end_time,
        ))
    }

    /// Shifts both endpoints of the booking by the given amount.
    pub fn offset(&mut self, hours: Hour, minutes: Minute, negative: bool)
        requires
            old(self).start_time.wf(),
            old(self).end_time.wf(),
            hours.wf(),
            minutes.wf(),
        ensures
            *final(self) == spec_offset_booking(*old(self), hours, minutes, negative),
            final(self).start_time.wf(),
            final(self).end_time.wf(),
    {
        self.start_time.offset(hours, minutes, negative);
        self.end_time.offset(hours, minutes, negative);
    }
}

/// Every booking well-formed, pairwise non-overlapping, and every
/// identifier used at most once.
pub open spec fn bookings_wf(bs: Seq<(BookingId, Booking)>) -> bool {
    &&& forall|i: int| 0 <= i < bs.len() ==> (#[trigger] bs[i]).1.wf()
    &&& forall|i: int, j: int|
        0 <= i < bs.len() && 0 <= j < bs.len() && i != j ==> !spec_overlaps(
            (#[trigger] bs[i]).1,
            (#[trigger] bs[j]).1,
        )
    &&& forall|i: int, j: int|
        0 <= i < bs.len() && 0 <= j < bs.len() && i != j ==> (#[trigger] bs[i]).0 != (
        #[trigger] bs[j]).0
}

/// A named bookable resource and its current bookings.
pub struct Facility {
    pub name: String,
    pub bookings: Vec<(BookingId, Booking)>,
}

impl Facility {
    /// The store invariant holds of the bookings.
    pub open spec fn wf(&self) -> bool {
        bookings_wf(self.bookings@)
    }

    /// Whether some booking carries this identifier.
    pub open spec fn contains_id(&self, id: BookingId) -> bool {
        exists|i: int| 0 <= i < self.bookings@.len() && (#[trigger] self.bookings@[i]).0 == id
    }

    /// Creates a facility with no bookings.
    pub fn new(name: String) -> (r: Self)
        ensures
            r.name == name,
            r.bookings@.len() == 0,
            r.wf(),
    {
        Self { name, bookings: Vec::new() }
    }

    /// Finds the position of a booking identifier, if any.
    fn position_of(&self, booking_id: &BookingId) -> (r: Option<usize>)
        ensures
            match r {
                Some(i) => i < self.bookings@.len() && self.bookings@[i as int].0 == *booking_id,
                None => !self.contains_id(*booking_id),
            },
    {
        let mut i: usize = 0;
        while i < self.bookings.len()
            invariant
                i <= self.bookings@.len(),
                forall|j: int| 0 <= j < i ==> (#[trigger] self.bookings@[j]).0 != *booking_id,
            decreases self.bookings@.len() - i,
        {
            if self.bookings[i].0 == *booking_id {
                return Some(i);
            }
            i += 1;
        }
        None
    }

    /// Whether any current booking overlaps the given one.
    fn some_overlap(&self, booking: &Booking) -> (r: bool)
        requires
            self.wf(),
            booking.wf(),
        ensures
            r == exists|i: int|
                0 <= i < self.bookings@.len() && spec_overlaps(
                    (#[trigger] self.bookings@[i]).1,
                    *booking,
                ),
    {
        let mut i: usize = 0;
        while i < self.bookings.len()
            invariant
                self.wf(),
                booking.wf(),
                i <= self.bookings@.len(),
                forall|j: int|
                    0 <= j < i ==> !spec_overlaps((#[trigger] self.bookings@[j]).1, *booking),
            decreases self.bookings@.len() - i,
        {
            let entry = &self.bookings[i];
            if entry.1.overlaps(booking) {
                return true;
            }
            i += 1;
        }
        false
    }

    /// Adds a booking under the given identifier; rejects an identifier
    /// already in use and a booking that overlaps a current one, and then
    /// leaves the store unchanged.
    pub fn add_booking_with_id(&mut self, booking_id: BookingId, booking: Booking) -> (r: Result<
        (),
        String,
    >)
        requires
            old(self).wf(),
            booking.wf(),
        ensures
            final(self).wf(),
            final(self).name == old(self).name,
            r is Ok <==> !old(self).contains_id(booking_id) && (forall|i: int|
                0 <= i < old(self).bookings@.len() ==> !spec_overlaps(
                    (#[trigger] old(self).bookings@[i]).1,
                    booking,
                )),
            r is Ok ==> final(self).bookings@ == old(self).bookings@.push((booking_id, booking)),
            r is Err ==> final(self).bookings@ == old(self).bookings@,
    {
        if self.position_of(&booking_id).is_some() {
            return Err("a booking with this identifier already exists".to_owned());
        }
        if self.some_overlap(&booking) {
            return Err("the new booking overlaps a current booking".to_owned());
        }
        self.bookings.push((booking_id, booking));
        proof {
            let bs = self.bookings@;
            let n = bs.len() - 1;
            assert forall|i: int, j: int|
                0 <= i < bs.len() && 0 <= j < bs.len() && i != j implies !spec_overlaps(
                (#[trigger] bs[i]).1,
                (#[trigger] bs[j]).1,
            ) by {
                if i == n || j == n {
                    assert(forall|k: int|
                        0 <= k < n ==> !spec_overlaps(
                            (#[trigger] old(self).bookings@[k]).1,
                            booking,
                        ));
                }
            }
        }
        Ok(())
    }

    /// Adds a new booking under a freshly drawn random identifier;
    /// rejects a booking that overlaps a current one. Whether the drawn
    /// identifier is fresh is decided by `add_booking_with_id`: on the
    /// vanishingly rare collision the booking is rejected too, so a
    /// failure means an overlap or a store with an identifier to collide
    /// with — on an empty store, success is certain.
    pub fn add_new_booking(&mut self, new_booking: Booking) -> (r: Result<BookingId, String>)
        requires
            old(self).wf(),
            new_booking.wf(),
        ensures
            final(self).wf(),
            final(self).name == old(self).name,
            (exists|i: int|
                0 <= i < old(self).bookings@.len() && spec_overlaps(
                    (#[trigger] old(self).bookings@[i]).1,
                    new_booking,
                )) ==> r is Err,
            r is Err ==> (exists|i: int|
                0 <= i < old(self).bookings@.len() && spec_overlaps(
                    (#[trigger] old(self).bookings@[i]).1,
                    new_booking,
                )) || old(self).bookings@.len() > 0,
            r is Ok ==> !old(self).contains_id(r->Ok_0) && final(self).bookings@ == old(
                self,
            ).bookings@.push((r->Ok_0, new_booking)),
            r is Err ==> final(self).bookings@ == old(self).bookings@,
    {
        if self.some_overlap(&new_booking) {
            return Err("the new booking overlaps a current booking".to_owned());
        }
        let new_id = Uuid::new_v4();
        match self.add_booking_with_id(new_id, new_booking) {
            Ok(()) => Ok(new_id),
            Err(e) => {
                proof {
                    assert(old(self).contains_id(new_id));
                }
                Err(e)
            },
        }
    }

    /// The entry of a given booking identifier, if it exists.
    pub fn get_booking_details(&self, booking_id: &BookingId) -> (r: Option<&(Uuid, Booking)>)
        ensures
            match r {
                Some(entry) => exists|i: int|
                    0 <= i < self.bookings@.len() && #[trigger] self.bookings@[i] == *entry
                        && entry.0 == *booking_id,
                None => !self.contains_id(*booking_id),
            },
    {
        match self.position_of(booking_id) {
            Some(i) => Some(&self.bookings[i]),
            None => None,
        }
    }

    /// Removes the booking with the given identifier and returns it;
    /// rejects an identifier not in use and then leaves the store
    /// unchanged.
    pub fn remove_booking(&mut self, booking_id: BookingId) -> (r: Result<Booking, String>)
        requires
            old(self).wf(),
        ensures
            final(self).wf(),
            final(self).name == old(self).name,
            r is Ok <==> old(self).contains_id(booking_id),
            r is Ok ==> exists|i: int|
                0 <= i < old(self).bookings@.len() && #[trigger] old(self).bookings@[i] == (
                booking_id,
                r->Ok_0,
                ) && final(self).bookings@ == old(self).bookings@.remove(i),
            r is Err ==> final(self).bookings@ == old(self).bookings@,
    {
        match self.position_of(&booking_id) {
            Some(pos) => {
                let entry = self.bookings.remove(pos);
                proof {
                    lemma_bookings_wf_remove(old(self).bookings@, pos as int);
                }
                Ok(entry.1)
            },
            None => Err("no booking with this identifier exists".to_owned()),
        }
    }

    /// Shifts the booking with the given identifier by the given amount,
    /// atomically: on any failure the store holds the same bookings as
    /// before. Rejects an unknown identifier, a shift that leaves the
    /// booking's day, and a shift into another booking.
    pub fn offset_booking(
        &mut self,
        booking_id: BookingId,
        hours: Hour,
        minutes: Minute,
        negative: bool,
    ) -> (r: Result<(), String>)
        requires
            old(self).wf(),
            hours.wf(),
            minutes.wf(),
        ensures
            final(self).wf(),
            final(self).name == old(self).name,
            r is Err ==> final(self).bookings@.to_multiset() == old(
                self,
            ).bookings@.to_multiset(),
            r is Ok <==> exists|i: int|
                0 <= i < old(self).bookings@.len() && (#[trigger] old(self).bookings@[i]).0
                    == booking_id && offset_admissible(
                    old(self).bookings@,
                    i,
                    hours,
                    minutes,
                    negative,
                ),
            r is Ok ==> exists|i: int|
                0 <= i < old(self).bookings@.len() && (#[trigger] old(self).bookings@[i]).0
                    == booking_id && final(self).bookings@ == old(self).bookings@.remove(i).push(
                    (
                        booking_id,
                        spec_offset_booking(old(self).bookings@[i].1, hours, minutes, negative),
                    ),
                ),
    {
        let ghost bs0 = old(self).bookings@;
        proof {
            bs0.to_multiset_ensures();
        }
        let pos = match self.position_of(&booking_id) {
            Some(p) => p,
            None => {
                return Err("no booking with this identifier exists".to_owned());
            },
        };
        let ghost i = pos as int;
        let entry = self.bookings.remove(pos);
        proof {
            lemma_bookings_wf_remove(bs0, i);
        }
        let booking = entry.1;
        let mut shifted = booking;
        shifted.offset(hours, minutes, negative);
        let same_day = shifted.start_time.day.to_u8() == booking.start_time.day.to_u8()
            && shifted.end_time.day.to_u8() == booking.start_time.day.to_u8();
        if same_day {
            proof {
                lemma_offset_same_day_wf(booking, hours, minutes, negative);
            }
            match self.add_booking_with_id(booking_id, shifted) {
                Ok(()) => {
                    proof {
                        assert forall|j: int|
                            0 <= j < bs0.len() && j != i implies !spec_overlaps(
                            (#[trigger] bs0[j]).1,
                            shifted,
                        ) by {
                            let rs = bs0.remove(i);
                            if j < i {
                                assert(rs[j] == bs0[j]);
                            } else {
                                assert(rs[j - 1] == bs0[j]);
                            }
                        }
                    }
                    return Ok(());
                },
                Err(e) => {
                    let restored = self.add_booking_with_id(booking_id, booking);
                    proof {
                        lemma_remove_entry_clears(bs0, i);
                        assert(restored is Ok);
                        lemma_remove_push_same_multiset(bs0, i);
                    }
                    return Err(e);
                },
            }
        } else {
            let restored = self.add_booking_with_id(booking_id, booking);
            proof {
                lemma_remove_entry_clears(bs0, i);
                assert(restored is Ok);
                lemma_remove_push_same_multiset(bs0, i);
                assert forall|j: int|
                    0 <= j < bs0.len() && (#[trigger] bs0[j]).0 == booking_id implies
                    !offset_admissible(bs0, j, hours, minutes, negative) by {
                    assert(j == i);
                }
            }
            return Err("the shift would move the booking to a different day".to_owned());
        }
    }

    /// Lengthens the booking with the given identifier by moving only its
    /// end time forwards, atomically: on any failure the store holds the
    /// same bookings as before. Rejects an unknown identifier, an end
    /// that would cross the day boundary, and an end that runs into
    /// another booking.
    pub fn extend_booking(&mut self, booking_id: BookingId, hours: Hour, minutes: Minute) -> (r:
        Result<(), String>)
        requires
            old(self).wf(),
            hours.wf(),
            minutes.wf(),
        ensures
            final(self).wf(),
            final(self).name == old(self).name,
            r is Err ==> final(self).bookings@.to_multiset() == old(
                self,
            ).bookings@.to_multiset(),
            r is Ok <==> exists|i: int|
                0 <= i < old(self).bookings@.len() && (#[trigger] old(self).bookings@[i]).0
                    == booking_id && extend_admissible(old(self).bookings@, i, hours, minutes),
            r is Ok ==> exists|i: int|
                0 <= i < old(self).bookings@.len() && (#[trigger] old(self).bookings@[i]).0
                    == booking_id && final(self).bookings@ == old(self).bookings@.remove(i).push(
                    (booking_id, spec_extend_booking(old(self).bookings@[i].1, hours, minutes)),
                ),
    {
        let ghost bs0 = old(self).bookings@;
        proof {
            bs0.to_multiset_ensures();
        }
        let pos = match self.position_of(&booking_id) {
            Some(p) => p,
            None => {
                return Err("no booking with this identifier exists".to_owned());
            },
        };
        let ghost i = pos as int;
        let entry = self.bookings.remove(pos);
        proof {
            lemma_bookings_wf_remove(bs0, i);
        }
        let booking = entry.1;
        let mut new_end = booking.end_time;
        new_end.offset(hours, minutes, false);
        let extended = Booking { start_time: booking.start_time, end_time: new_end };
        let same_day = extended.end_time.day.to_u8() == booking.start_time.day.to_u8();
        if same_day {
            proof {
                lemma_extend_same_day_wf(booking, hours, minutes);
            }
            match self.add_booking_with_id(booking_id, extended) {
                Ok(()) => {
                    proof {
                        assert forall|j: int|
                            0 <= j < bs0.len() && j != i implies !spec_overlaps(
                            (#[trigger] bs0[j]).1,
                            extended,
                        ) by {
                            let rs = bs0.remove(i);
                            if j < i {
                                assert(rs[j] == bs0[j]);
                            } else {
                                assert(rs[j - 1] == bs0[j]);
                            }
                        }
                    }
                    return Ok(());
                },
                Err(e) => {
                    let restored = self.add_booking_with_id(booking_id, booking);
                    proof {
                        lemma_remove_entry_clears(bs0, i);
                        assert(restored is Ok);
                        lemma_remove_push_same_multiset(bs0, i);
                    }
                    return Err(e);
                },
            }
        } else {
            let restored = self.add_booking_with_id(booking_id, booking);
            proof {
                lemma_remove_entry_clears(bs0, i);
                assert(restored is Ok);
                lemma_remove_push_same_multiset(bs0, i);
                assert forall|j: int|
                    0 <= j < bs0.len() && (#[trigger] bs0[j]).0 == booking_id implies
                    !extend_admissible(bs0, j, hours, minutes) by {
                    assert(j == i);
                }
            }
            return Err("the extension would cross the day boundary".to_owned());
        }
    }
}

/// After removing entry `i` of a well-formed store, that entry's
/// identifier is free again and its booking clears everything left.
proof fn lemma_remove_entry_clears(bs: Seq<(BookingId, Booking)>, i: int)
    requires
        bookings_wf(bs),
        0 <= i < bs.len(),
    ensures
        forall|j: int|
            0 <= j < bs.remove(i).len() ==> (#[trigger] bs.remove(i)[j]).0 != bs[i].0,
        forall|j: int|
            0 <= j < bs.remove(i).len() ==> !spec_overlaps(
                (#[trigger] bs.remove(i)[j]).1,
                bs[i].1,
            ),
{
    let rs = bs.remove(i);
    assert forall|j: int| 0 <= j < rs.len() implies (#[trigger] rs[j]).0 != bs[i].0
        && !spec_overlaps(rs[j].1, bs[i].1) by {
        if j < i {
            assert(rs[j] == bs[j]);
        } else {
            assert(rs[j] == bs[j + 1]);
        }
    }
}

/// Removing an entry and pushing it back holds the same bookings.
proof fn lemma_remove_push_same_multiset(bs: Seq<(BookingId, Booking)>, i: int)
    requires
        0 <= i < bs.len(),
    ensures
        bs.remove(i).push(bs[i]).to_multiset() == bs.to_multiset(),
{
    bs.to_multiset_ensures();
    bs.remove(i).to_multiset_ensures();
    assert(bs.to_multiset().count(bs[i]) > 0) by {
        assert(bs.contains(bs[i]));
    }
    assert(bs.remove(i).push(bs[i]).to_multiset() =~= bs.to_multiset().remove(bs[i]).insert(
        bs[i],
    ));
    assert(bs.to_multiset().remove(bs[i]).insert(bs[i]) =~= bs.to_multiset());
}

/// Whether the booking at `i`, shifted whole by the given amount, stays
/// on its original day and clears every other booking.
pub open spec fn offset_admissible(
    bs: Seq<(BookingId, Booking)>,
    i: int,
    hours: Hour,
    minutes: Minute,
    negative: bool,
) -> bool {
    let b2 = spec_offset_booking(bs[i].1, hours, minutes, negative);
    &&& b2.start_time.day == bs[i].1.start_time.day
    &&& b2.end_time.day == bs[i].1.start_time.day
    &&& forall|j: int|
        0 <= j < bs.len() && j != i ==> !spec_overlaps((#[trigger] bs[j]).1, b2)
}

/// Whether the booking at `i`, lengthened by the given amount, stays on
/// its original day and clears every other booking.
pub open spec fn extend_admissible(
    bs: Seq<(BookingId, Booking)>,
    i: int,
    hours: Hour,
    minutes: Minute,
) -> bool {
    let b2 = spec_extend_booking(bs[i].1, hours, minutes);
    &&& b2.end_time.day == bs[i].1.start_time.day
    &&& forall|j: int|
        0 <= j < bs.len() && j != i ==> !spec_overlaps((#[trigger] bs[j]).1, b2)
}

/// A week index in `[0, 10080)` splits as day ordinal, hour and minute.
pub proof fn lemma_time_of_wf(idx: int)
    requires
        0 <= idx < 10080,
    ensures
        spec_time_of(idx).wf(),
        time_index(spec_time_of(idx)) == idx,
        day_ord(spec_time_of(idx).day) == idx / 1440,
{
    let t = spec_time_of(idx);
    vstd::arithmetic::div_mod::lemma_fundamental_div_mod(idx, 1440);
    vstd::arithmetic::div_mod::lemma_fundamental_div_mod(idx % 1440, 60);
    vstd::arithmetic::div_mod::lemma_fundamental_div_mod(idx, 60);
    assert(idx % 1440 == idx - 1440 * (idx / 1440));
    assert((idx % 1440) % 60 == idx % 60) by {
        vstd::arithmetic::div_mod::lemma_fundamental_div_mod_converse_mod(
            idx,
            60,
            24 * (idx / 1440) + (idx % 1440) / 60,
            (idx % 1440) % 60,
        );
        assert((24 * (idx / 1440) + (idx % 1440) / 60) * 60 == 1440 * (idx / 1440) + 60 * ((idx
            % 1440) / 60)) by (nonlinear_arith);
    }
    assert(0 <= idx / 1440 <= 6);
}

/// Reading the ordinal back from the day it names.
pub proof fn lemma_day_of_ord(o: int)
    requires
        0 <= o <= 6,
    ensures
        day_ord(spec_day_of(o)) == o,
{
}

/// The week wraps once at most: a sum below two weeks reduces by at most
/// one week.
proof fn lemma_mod_week(x: int)
    requires
        0 <= x < 2 * 10080,
    ensures
        x % 10080 == if x < 10080 {
            x
        } else {
            x - 10080
        },
{
    if x < 10080 {
        vstd::arithmetic::div_mod::lemma_fundamental_div_mod_converse_mod(x, 10080, 0, x);
    } else {
        vstd::arithmetic::div_mod::lemma_fundamental_div_mod_converse_mod(x, 10080, 1, x - 10080);
    }
}

/// A shifted time that lands on a given day did not wrap around the week
/// unless the whole week-wrap is consistent; in particular, when both
/// endpoints of a booking land back on the booking's own day, neither
/// endpoint wrapped, so their order and distance are kept.
pub proof fn lemma_offset_same_day_wf(b: Booking, hours: Hour, minutes: Minute, negative: bool)
    requires
        b.wf(),
        hours.wf(),
        minutes.wf(),
        spec_offset_booking(b, hours, minutes, negative).start_time.day == b.start_time.day,
        spec_offset_booking(b, hours, minutes, negative).end_time.day == b.start_time.day,
    ensures
        spec_offset_booking(b, hours, minutes, negative).wf(),
{
    let d = day_ord(b.start_time.day);
    let si = time_index(b.start_time);
    let ei = time_index(b.end_time);
    let delta = offset_amount(hours, minutes);
    lemma_time_index_inverse(b.start_time);
    lemma_time_index_inverse(b.end_time);
    lemma_shift_lands_on_day(si, d, delta, negative);
    lemma_shift_lands_on_day(ei, d, delta, negative);
}

/// One endpoint of the shift: if the shifted index names the same day as
/// the original, the shift moved the index by exactly the signed amount.
proof fn lemma_shift_lands_on_day(idx: int, d: int, delta: int, negative: bool)
    requires
        0 <= delta < 1440,
        0 <= d <= 6,
        1440 * d <= idx < 1440 * (d + 1),
        spec_time_of(
            if negative {
                (idx + 10080 - delta) % 10080
            } else {
                (idx + delta) % 10080
            },
        ).day == spec_day_of(d),
    ensures
        ({
            let shifted = if negative {
                (idx + 10080 - delta) % 10080
            } else {
                (idx + delta) % 10080
            };
            shifted == idx + if negative {
                -delta
            } else {
                delta
            } && spec_time_of(shifted).wf() && time_index(spec_time_of(shifted)) == shifted
        }),
{
    let x = if negative {
        idx + 10080 - delta
    } else {
        idx + delta
    };
    lemma_mod_week(x);
    let shifted = x % 10080;
    lemma_time_of_wf(shifted);
    lemma_day_of_ord(d);
    if negative {
        if x >= 10080 {
            assert(shifted == idx - delta);
        } else {
            assert(shifted == idx + 10080 - delta);
            assert(shifted >= 10080 - delta > 8640);
            assert(shifted / 1440 == day_ord(spec_time_of(shifted).day));
            assert(shifted / 1440 == d);
            assert(shifted < 1440 * (d + 1));
            assert(false);
        }
    } else {
        if x < 10080 {
            assert(shifted == idx + delta);
        } else {
            assert(shifted == idx + delta - 10080);
            assert(shifted < 1440);
            assert(shifted / 1440 == day_ord(spec_time_of(shifted).day));
            assert(shifted / 1440 == d);
            assert(idx >= 10080 - delta > 8640);
            assert(1440 * (d + 1) > 8640);
            assert(false);
        }
    }
}

/// As `lemma_offset_same_day_wf`, for an extension: only the end moves.
pub proof fn lemma_extend_same_day_wf(b: Booking, hours: Hour, minutes: Minute)
    requires
        b.wf(),
        hours.wf(),
        minutes.wf(),
        spec_extend_booking(b, hours, minutes).end_time.day == b.start_time.day,
    ensures
        spec_extend_booking(b, hours, minutes).wf(),
{
    let d = day_ord(b.start_time.day);
    let ei = time_index(b.end_time);
    let delta = offset_amount(hours, minutes);
    lemma_time_index_inverse(b.start_time);
    lemma_time_index_inverse(b.end_time);
    lemma_shift_lands_on_day(ei, d, delta, false);
}

/// A booking lies wholly on the given day.
pub open spec fn on_day(b: Booking, day: Day) -> bool {
    b.start_time.day == day && b.end_time.day == day
}

/// The minute-of-week index `m` lies in the closed interval of the slot.
pub open spec fn minute_in_slot(s: (Time, Time), m: int) -> bool {
    time_index(s.0) <= m <= time_index(s.1)
}

/// The minute-of-week index `m` lies in the closed interval of the booking.
pub open spec fn minute_in_booking(b: Booking, m: int) -> bool {
    time_index(b.start_time) <= m <= time_index(b.end_time)
}

/// The minute-of-week index `m` lies strictly inside the booking.
pub open spec fn minute_inside_booking(b: Booking, m: int) -> bool {
    time_index(b.start_time) < m < time_index(b.end_time)
}

/// A free slot: a well-formed closed interval lying on the given day.
pub open spec fn slot_on_day(s: (Time, Time), day: Day) -> bool {
    &&& s.0.wf()
    &&& s.1.wf()
    &&& s.0.day == day
    &&& s.1.day == day
    &&& time_index(s.0) <= time_index(s.1)
}

/// Bookings ordered by start time.
pub open spec fn sorted_by_start(s: Seq<Booking>) -> bool {
    forall|k: int, l: int|
        0 <= k <= l < s.len() ==> time_index((#[trigger] s[k]).start_time) <= time_index(
            (#[trigger] s[l]).start_time,
        )
}

impl Facility {
    /// The bookings lying on the given day, in some order.
    fn day_bookings(&self, day: Day) -> (db: Vec<Booking>)
        requires
            self.wf(),
        ensures
            forall|k: int|
                0 <= k < db@.len() ==> (#[trigger] db@[k]).wf() && on_day(db@[k], day) && exists|
                    j: int,
                |
                    0 <= j < self.bookings@.len() && (#[trigger] self.bookings@[j]).1 == db@[k],
            forall|j: int|
                0 <= j < self.bookings@.len() && on_day((#[trigger] self.bookings@[j]).1, day)
                    ==> db@.contains(self.bookings@[j].1),
            forall|k: int, l: int|
                0 <= k < db@.len() && 0 <= l < db@.len() && k != l ==> !spec_overlaps(
                    (#[trigger] db@[k]),
                    (#[trigger] db@[l]),
                ),
    {
        let mut db: Vec<Booking> = Vec::new();
        let mut i: usize = 0;
        while i < self.bookings.len()
            invariant
                self.wf(),
                i <= self.bookings@.len(),
                forall|k: int|
                    0 <= k < db@.len() ==> (#[trigger] db@[k]).wf() && on_day(db@[k], day)
                        && exists|j: int|
                        0 <= j < i && (#[trigger] self.bookings@[j]).1 == db@[k],
                forall|j: int|
                    0 <= j < i && on_day((#[trigger] self.bookings@[j]).1, day) ==> db@.contains(
                        self.bookings@[j].1,
                    ),
                forall|k: int, l: int|
                    0 <= k < db@.len() && 0 <= l < db@.len() && k != l ==> !spec_overlaps(
                        (#[trigger] db@[k]),
                        (#[trigger] db@[l]),
                    ),
            decreases self.bookings@.len() - i,
        {
            let entry = &self.bookings[i];
            if entry.1.start_time.day.to_u8() == day.to_u8() && entry.1.end_time.day.to_u8()
                == day.to_u8() {
                let ghost old_db = db@;
                db.push(entry.1);
                proof {
                    assert(entry.1.start_time.day == day && entry.1.end_time.day == day) by {
                        crate::time::lemma_day_eq_of_ord(entry.1.start_time.day, day);
                        crate::time::lemma_day_eq_of_ord(entry.1.end_time.day, day);
                    }
                    assert(db@[old_db.len() as int] == entry.1);
                    assert(db@.contains(self.bookings@[i as int].1));
                    assert forall|j: int|
                        0 <= j < i + 1 && on_day((#[trigger] self.bookings@[j]).1, day) implies
                        db@.contains(self.bookings@[j].1) by {
                        if j < i {
                            let k = choose|k: int|
                                0 <= k < old_db.len() && old_db[k] == self.bookings@[j].1;
                            assert(db@[k] == self.bookings@[j].1);
                        }
                    }
                    assert forall|k: int, l: int|
                        0 <= k < db@.len() && 0 <= l < db@.len() && k != l implies !spec_overlaps(
                        (#[trigger] db@[k]),
                        (#[trigger] db@[l]),
                    ) by {
                        if k == old_db.len() || l == old_db.len() {
                            let other = if k == old_db.len() {
                                l
                            } else {
                                k
                            };
                            let j = choose|j: int|
                                0 <= j < i && (#[trigger] self.bookings@[j]).1 == old_db[other];
                            assert(self.bookings@[i as int].1 == entry.1);
                            assert(!spec_overlaps(
                                self.bookings@[j].1,
                                self.bookings@[i as int].1,
                            ));
                        }
                    }
                }
            }
            i += 1;
        }
        db
    }
}

/// The minute-of-week index `m` falls in one of the slots, or in one of
/// the store's bookings lying on the given day.
pub open spec fn minute_covered(
    slots: Seq<(Time, Time)>,
    bs: Seq<(BookingId, Booking)>,
    day: Day,
    m: int,
) -> bool {
    ||| exists|k: int| 0 <= k < slots.len() && minute_in_slot(#[trigger] slots[k], m)
    ||| exists|i: int|
        0 <= i < bs.len() && on_day((#[trigger] bs[i]).1, day) && minute_in_booking(bs[i].1, m)
}

/// A slot whose ends stand on the day's bounds or on bookings of the
/// day: the start is 00:00 or some same-day booking's end, and the end
/// is 23:59 or some same-day booking's start. Together with order,
/// coverage and exactness this pins each slot as a whole maximal gap,
/// neither shortened nor split.
pub open spec fn slot_anchored(bs: Seq<(BookingId, Booking)>, day: Day, s: (Time, Time)) -> bool {
    &&& (time_index(s.0) == 1440 * day_ord(day) || exists|i: int|
        0 <= i < bs.len() && on_day((#[trigger] bs[i]).1, day) && time_index(bs[i].1.end_time)
            == time_index(s.0))
    &&& (time_index(s.1) == 1440 * day_ord(day) + 1439 || exists|i: int|
        0 <= i < bs.len() && on_day((#[trigger] bs[i]).1, day) && time_index(bs[i].1.start_time)
            == time_index(s.1))
}

/// The availability law, relating a booking store and a day to a listing
/// of free slots: every slot lies on the day, anchored at the day's
/// bounds or at bookings; the slots are ordered and pairwise disjoint;
/// every minute of the day falls in a slot or in a booking of the day;
/// and no slot minute falls strictly inside a booking of the day.
pub open spec fn avail_law(
    bs: Seq<(BookingId, Booking)>,
    day: Day,
    slots: Seq<(Time, Time)>,
) -> bool {
    &&& forall|k: int| 0 <= k < slots.len() ==> slot_on_day(#[trigger] slots[k], day)
    &&& forall|k: int| 0 <= k < slots.len() ==> slot_anchored(bs, day, #[trigger] slots[k])
    &&& forall|k: int, l: int|
        0 <= k < l < slots.len() ==> time_index((#[trigger] slots[k]).1) < time_index(
            (#[trigger] slots[l]).0,
        )
    &&& forall|m: int|
        1440 * day_ord(day) <= m <= 1440 * day_ord(day) + 1439 ==> #[trigger] minute_covered(
            slots,
            bs,
            day,
            m,
        )
    &&& forall|k: int, i: int, m: int|
        0 <= k < slots.len() && 0 <= i < bs.len() && on_day((#[trigger] bs[i]).1, day)
            && #[trigger] minute_in_slot(slots[k], m) ==> !minute_inside_booking(bs[i].1, m)
}

impl Facility {
    /// The free times of the day, walking the day's bookings in start
    /// order and emitting the gap before each one and the tail up to
    /// 23:59, all as closed intervals.
    ///
    /// The availability law: every returned slot lies on the requested
    /// day; the slots are ordered and pairwise disjoint; every minute of
    /// the day falls in a returned slot or in a booking of that day; and
    /// no minute of a returned slot falls strictly inside a booking of
    /// that day.
    #[verifier::loop_isolation(false)]
    pub fn available_slots(&self, day: Day) -> (slots: Vec<(Time, Time)>)
        requires
            self.wf(),
        ensures
            avail_law(self.bookings@, day, slots@),
    {
        let db = self.day_bookings(day);
        let ghost dbs = db@;
        let sorted = sort_by_start(db);
        let ghost n = sorted@.len();
        proof {
            dbs.to_multiset_ensures();
            sorted@.to_multiset_ensures();
            lemma_pairwise_no_overlap_transfer(dbs, sorted@);
            assert forall|k: int| 0 <= k < n implies (#[trigger] sorted@[k]).wf() && on_day(
                sorted@[k],
                day,
            ) && exists|jj: int|
                0 <= jj < self.bookings@.len() && (#[trigger] self.bookings@[jj]).1
                    == sorted@[k] by {
                assert(sorted@.contains(sorted@[k]));
                assert(sorted@.to_multiset().count(sorted@[k]) > 0);
                assert(dbs.to_multiset().count(sorted@[k]) > 0);
                assert(dbs.contains(sorted@[k]));
                let j = choose|j: int| 0 <= j < dbs.len() && dbs[j] == sorted@[k];
                assert(dbs[j].wf() && on_day(dbs[j], day));
                assert(exists|jj: int|
                    0 <= jj < self.bookings@.len() && (#[trigger] self.bookings@[jj]).1 == dbs[j]);
            }
            assert forall|j: int|
                0 <= j < self.bookings@.len() && on_day(
                    (#[trigger] self.bookings@[j]).1,
                    day,
                ) implies sorted@.contains(self.bookings@[j].1) by {
                assert(dbs.contains(self.bookings@[j].1));
                assert(dbs.to_multiset().count(self.bookings@[j].1) > 0);
                assert(sorted@.to_multiset().count(self.bookings@[j].1) > 0);
            }
        }
        let ghost ds = 1440 * day_ord(day);
        let day_start = Time { day, hour: Hour(0), minute: Minute(0) };
        let day_end = Time { day, hour: Hour(23), minute: Minute(59) };
        let mut slots: Vec<(Time, Time)> = Vec::new();
        let mut current = day_start;
        let mut i: usize = 0;
        while i < sorted.len()
            invariant
                i <= n,
                current.wf(),
                current.day == day,
                i == 0 ==> current == day_start,
                i > 0 ==> current == sorted@[i - 1].end_time,
                forall|j: int|
                    0 <= j < i ==> time_index((#[trigger] sorted@[j]).end_time) <= time_index(
                        current,
                    ),
                forall|k: int| 0 <= k < slots@.len() ==> slot_on_day(#[trigger] slots@[k], day),
                forall|k: int|
                    0 <= k < slots@.len() ==> slot_anchored(
                        self.bookings@,
                        day,
                        #[trigger] slots@[k],
                    ),
                forall|k: int|
                    0 <= k < slots@.len() ==> time_index((#[trigger] slots@[k]).1) < time_index(
                        current,
                    ),
                forall|k: int, l: int|
                    0 <= k < l < slots@.len() ==> time_index((#[trigger] slots@[k]).1)
                        < time_index((#[trigger] slots@[l]).0),
                forall|m: int|
                    i > 0 && ds <= m <= time_index(sorted@[i - 1].end_time) ==> #[trigger]
                    minute_covered(slots@, self.bookings@, day, m),
                forall|k: int, ii: int, m: int|
                    0 <= k < slots@.len() && 0 <= ii < self.bookings@.len() && on_day(
                        (#[trigger] self.bookings@[ii]).1,
                        day,
                    ) && #[trigger] minute_in_slot(slots@[k], m) ==> !minute_inside_booking(
                        self.bookings@[ii].1,
                        m,
                    ),
            decreases n - i,
        {
            let b = sorted[i];
            proof {
                assert(sorted@[i as int].wf() && on_day(sorted@[i as int], day));
                if i > 0 {
                    assert(!spec_overlaps(sorted@[i - 1], sorted@[i as int]));
                    assert(time_index(sorted@[i - 1].start_time) <= time_index(
                        sorted@[i as int].start_time,
                    ));
                    assert(time_index(current) < time_index(sorted@[i as int].start_time));
                }
            }
            let ghost old_slots = slots@;
            let ghost old_current = current;
            if current.lt(&b.start_time) {
                slots.push((current, b.start_time));
            }
            current = b.end_time;
            i += 1;
            proof {
                let bi = sorted@[i - 1];
                assert forall|k: int| 0 <= k < slots@.len() implies slot_anchored(
                    self.bookings@,
                    day,
                    #[trigger] slots@[k],
                ) by {
                    if k < old_slots.len() {
                        assert(slots@[k] == old_slots[k]);
                    } else {
                        assert(slots@[k] == (old_current, bi.start_time));
                        let j2 = choose|jj: int|
                            0 <= jj < self.bookings@.len() && (#[trigger] self.bookings@[jj]).1
                                == bi;
                        assert(on_day(self.bookings@[j2].1, day));
                        if i - 1 > 0 {
                            let prev = sorted@[i - 2];
                            assert(time_index(old_current) == time_index(prev.end_time));
                            let j1 = choose|jj: int|
                                0 <= jj < self.bookings@.len() && (#[trigger] self.bookings@[jj]).1
                                    == prev;
                            assert(on_day(self.bookings@[j1].1, day));
                        } else {
                            assert(time_index(old_current) == ds);
                        }
                    }
                }
                assert forall|k: int, ii: int, m: int|
                    0 <= k < slots@.len() && 0 <= ii < self.bookings@.len() && on_day(
                        (#[trigger] self.bookings@[ii]).1,
                        day,
                    ) && #[trigger] minute_in_slot(slots@[k], m) implies !minute_inside_booking(
                    self.bookings@[ii].1,
                    m,
                ) by {
                    if k < old_slots.len() {
                        assert(slots@[k] == old_slots[k]);
                    } else {
                        let bb = self.bookings@[ii].1;
                        assert(sorted@.contains(bb));
                        let j = choose|j: int| 0 <= j < n && sorted@[j] == bb;
                        assert(slots@[k] == (old_current, bi.start_time));
                        if j >= i - 1 {
                            assert(time_index(bi.start_time) <= time_index(
                                sorted@[j].start_time,
                            ));
                        } else {
                            assert(time_index((#[trigger] sorted@[j]).end_time) <= time_index(
                                old_current,
                            ));
                        }
                    }
                }
                assert forall|m: int|
                    ds <= m <= time_index(sorted@[i - 1].end_time) implies #[trigger]
                    minute_covered(slots@, self.bookings@, day, m) by {
                    let j = choose|j: int|
                        0 <= j < self.bookings@.len() && (#[trigger] self.bookings@[j]).1 == bi;
                    if time_index(bi.start_time) <= m <= time_index(bi.end_time) {
                        assert(on_day(self.bookings@[j].1, day) && minute_in_booking(
                            self.bookings@[j].1,
                            m,
                        ));
                    } else {
                        assert(m < time_index(bi.start_time));
                        if i - 1 > 0 && m <= time_index(sorted@[i - 2].end_time) {
                            assert(minute_covered(old_slots, self.bookings@, day, m));
                            if exists|k: int|
                                0 <= k < old_slots.len() && minute_in_slot(
                                    #[trigger] old_slots[k],
                                    m,
                                ) {
                                let k = choose|k: int|
                                    0 <= k < old_slots.len() && minute_in_slot(
                                        #[trigger] old_slots[k],
                                        m,
                                    );
                                assert(slots@[k] == old_slots[k]);
                                assert(minute_in_slot(slots@[k], m));
                            }
                        } else {
                            assert(time_index(old_current) <= m);
                            assert(time_index(old_current) < time_index(bi.start_time));
                            assert(slots@[slots@.len() - 1] == (old_current, bi.start_time));
                            assert(minute_in_slot(slots@[slots@.len() - 1], m));
                        }
                    }
                }
            }
        }
        proof {
            assert(time_index(current) <= ds + 1439);
            assert(time_index(day_end) == ds + 1439);
        }
        let ghost old_slots = slots@;
        let ghost old_current = current;
        if current.le(&day_end) {
            slots.push((current, day_end));
        }
        proof {
            assert(slots@[slots@.len() - 1] == (old_current, day_end));
            assert forall|k: int| 0 <= k < slots@.len() implies slot_anchored(
                self.bookings@,
                day,
                #[trigger] slots@[k],
            ) by {
                if k < old_slots.len() {
                    assert(slots@[k] == old_slots[k]);
                } else {
                    assert(slots@[k] == (old_current, day_end));
                    assert(time_index(day_end) == ds + 1439);
                    if n > 0 {
                        let prev = sorted@[n - 1];
                        assert(time_index(old_current) == time_index(prev.end_time));
                        let j1 = choose|jj: int|
                            0 <= jj < self.bookings@.len() && (#[trigger] self.bookings@[jj]).1
                                == prev;
                        assert(on_day(self.bookings@[j1].1, day));
                    } else {
                        assert(time_index(old_current) == ds);
                    }
                }
            }
            assert forall|k: int, ii: int, m: int|
                0 <= k < slots@.len() && 0 <= ii < self.bookings@.len() && on_day(
                    (#[trigger] self.bookings@[ii]).1,
                    day,
                ) && #[trigger] minute_in_slot(slots@[k], m) implies !minute_inside_booking(
                self.bookings@[ii].1,
                m,
            ) by {
                if k < old_slots.len() {
                    assert(slots@[k] == old_slots[k]);
                } else {
                    let bb = self.bookings@[ii].1;
                    assert(sorted@.contains(bb));
                    let j = choose|j: int| 0 <= j < n && sorted@[j] == bb;
                    assert(time_index((#[trigger] sorted@[j]).end_time) <= time_index(
                        old_current,
                    ));
                }
            }
            assert forall|m: int| ds <= m <= ds + 1439 implies #[trigger] minute_covered(
                slots@,
                self.bookings@,
                day,
                m,
            ) by {
                if m >= time_index(old_current) {
                    assert(minute_in_slot(slots@[slots@.len() - 1], m));
                } else {
                    assert(n > 0 && m <= time_index(sorted@[n - 1].end_time));
                    assert(minute_covered(old_slots, self.bookings@, day, m));
                    if exists|k: int|
                        0 <= k < old_slots.len() && minute_in_slot(#[trigger] old_slots[k], m) {
                        let k = choose|k: int|
                            0 <= k < old_slots.len() && minute_in_slot(#[trigger] old_slots[k], m);
                        assert(slots@[k] == old_slots[k]);
                        assert(minute_in_slot(slots@[k], m));
                    }
                }
            }
        }
        slots
    }

    /// The available times for the day, as the enumerated listing
    /// "i. Day, HH:MM - HH:MM", one line per free slot.
    pub fn get_availabilities(&self, day: Day) -> (r: String)
        requires
            self.wf(),
        ensures
            exists|slots: Seq<(Time, Time)>|
                #[trigger] avail_law(self.bookings@, day, slots) && r@ == crate::text::avail_text(
                    slots,
                ),
    {
        let slots = self.available_slots(day);
        let r = crate::text::render_slots(&slots, day);
        proof {
            assert(avail_law(self.bookings@, day, slots@) && r@ == crate::text::avail_text(
                slots@,
            ));
        }
        r
    }
}

/// Pairwise non-overlap carries over to any reordering of well-formed
/// bookings: a booking always overlaps itself, so a well-formed list has
/// no duplicates, and a permutation pairs the same distinct bookings.
proof fn lemma_pairwise_no_overlap_transfer(a: Seq<Booking>, b: Seq<Booking>)
    requires
        a.to_multiset() == b.to_multiset(),
        forall|k: int| 0 <= k < a.len() ==> (#[trigger] a[k]).wf(),
        forall|k: int, l: int|
            0 <= k < a.len() && 0 <= l < a.len() && k != l ==> !spec_overlaps(
                #[trigger] a[k],
                #[trigger] a[l],
            ),
    ensures
        forall|k: int, l: int|
            0 <= k < b.len() && 0 <= l < b.len() && k != l ==> !spec_overlaps(
                #[trigger] b[k],
                #[trigger] b[l],
            ),
{
    a.to_multiset_ensures();
    b.to_multiset_ensures();
    assert forall|k: int, l: int|
        0 <= k < b.len() && 0 <= l < b.len() && k != l implies !spec_overlaps(
        #[trigger] b[k],
        #[trigger] b[l],
    ) by {
        if b[k] == b[l] {
            let x = b[k];
            let bl = b.remove(k);
            bl.to_multiset_ensures();
            if l < k {
                assert(bl[l] == b[l]);
            } else {
                assert(bl[l - 1] == b[l]);
            }
            assert(bl.contains(x));
            assert(bl.to_multiset().count(x) > 0);
            assert(bl.to_multiset() =~= b.to_multiset().remove(x));
            assert(b.to_multiset().remove(x).count(x) == b.to_multiset().count(x) - 1) by {
                assert(b.to_multiset().contains(x)) by {
                    assert(b.contains(x));
                }
            }
            assert(b.to_multiset().count(x) >= 2);
            assert(a.to_multiset().count(x) >= 2);
            assert(a.contains(x));
            let i1 = choose|i: int| 0 <= i < a.len() && a[i] == x;
            let ar = a.remove(i1);
            ar.to_multiset_ensures();
            assert(ar.to_multiset() =~= a.to_multiset().remove(a[i1]));
            assert(a.to_multiset().remove(x).count(x) == a.to_multiset().count(x) - 1) by {
                assert(a.to_multiset().contains(x));
            }
            assert(ar.to_multiset().count(x) > 0);
            assert(ar.contains(x));
            let i2r = choose|i: int| 0 <= i < ar.len() && ar[i] == x;
            let i2 = if i2r < i1 {
                i2r
            } else {
                i2r + 1
            };
            assert(a[i2] == x) by {
                if i2r < i1 {
                    assert(ar[i2r] == a[i2r]);
                } else {
                    assert(ar[i2r] == a[i2r + 1]);
                }
            }
            assert(!spec_overlaps(a[i1], a[i2]));
            assert(a[i1].wf());
            assert(spec_overlaps(a[i1], a[i2]));
            assert(false);
        } else {
            assert(b.contains(b[k]) && b.contains(b[l]));
            assert(a.contains(b[k])) by {
                assert(a.to_multiset().count(b[k]) > 0);
            }
            assert(a.contains(b[l])) by {
                assert(a.to_multiset().count(b[l]) > 0);
            }
            let i1 = choose|i: int| 0 <= i < a.len() && a[i] == b[k];
            let i2 = choose|i: int| 0 <= i < a.len() && a[i] == b[l];
            assert(!spec_overlaps(a[i1], a[i2]));
        }
    }
}

/// The position of a booking with the earliest start.
fn argmin_by_start(v: &Vec<Booking>) -> (p: usize)
    requires
        v@.len() > 0,
        forall|k: int| 0 <= k < v@.len() ==> (#[trigger] v@[k]).start_time.wf(),
    ensures
        p < v@.len(),
        forall|k: int|
            0 <= k < v@.len() ==> time_index(v@[p as int].start_time) <= time_index(
                (#[trigger] v@[k]).start_time,
            ),
{
    let mut p: usize = 0;
    let mut i: usize = 1;
    while i < v.len()
        invariant
            p < i <= v@.len(),
            forall|k: int| 0 <= k < v@.len() ==> (#[trigger] v@[k]).start_time.wf(),
            forall|k: int|
                0 <= k < i ==> time_index(v@[p as int].start_time) <= time_index(
                    (#[trigger] v@[k]).start_time,
                ),
        decreases v@.len() - i,
    {
        if v[i].start_time.lt(&v[p].start_time) {
            p = i;
        }
        i += 1;
    }
    p
}

/// Sorts the bookings by start time by repeatedly extracting the
/// earliest; the result holds the same bookings.
fn sort_by_start(v: Vec<Booking>) -> (out: Vec<Booking>)
    requires
        forall|k: int| 0 <= k < v@.len() ==> (#[trigger] v@[k]).start_time.wf(),
    ensures
        out@.to_multiset() == v@.to_multiset(),
        sorted_by_start(out@),
{
    let ghost orig = v@;
    let mut rest = v;
    let mut out: Vec<Booking> = Vec::new();
    proof {
        assert(out@.to_multiset().add(rest@.to_multiset()) =~= orig.to_multiset()) by {
            out@.to_multiset_ensures();
            rest@.to_multiset_ensures();
            assert(out@.to_multiset().len() == 0);
        }
    }
    while rest.len() > 0
        invariant
            forall|k: int| 0 <= k < rest@.len() ==> (#[trigger] rest@[k]).start_time.wf(),
            out@.to_multiset().add(rest@.to_multiset()) == orig.to_multiset(),
            sorted_by_start(out@),
            forall|k: int, l: int|
                0 <= k < out@.len() && 0 <= l < rest@.len() ==> time_index(
                    (#[trigger] out@[k]).start_time,
                ) <= time_index((#[trigger] rest@[l]).start_time),
        decreases rest@.len(),
    {
        let p = argmin_by_start(&rest);
        let ghost rest0 = rest@;
        let ghost out0 = out@;
        let x = rest.remove(p);
        out.push(x);
        proof {
            rest0.to_multiset_ensures();
            out0.to_multiset_ensures();
            assert(rest@.to_multiset() =~= rest0.to_multiset().remove(x));
            assert(out@.to_multiset() =~= out0.to_multiset().insert(x));
            assert(rest0.to_multiset().count(x) > 0) by {
                assert(rest0.contains(x));
            }
            assert(out@.to_multiset().add(rest@.to_multiset()) =~= orig.to_multiset());
            assert forall|k: int, l: int|
                0 <= k < out@.len() && 0 <= l < rest@.len() implies time_index(
                (#[trigger] out@[k]).start_time,
            ) <= time_index((#[trigger] rest@[l]).start_time) by {
                assert(rest@[l] == (if l < p {
                    rest0[l]
                } else {
                    rest0[l + 1]
                }));
                if k < out0.len() {
                    assert(out@[k] == out0[k]);
                } else {
                    assert(out@[k] == x);
                }
            }
            assert forall|k: int, l: int| 0 <= k <= l < out@.len() implies time_index(
                (#[trigger] out@[k]).start_time,
            ) <= time_index((#[trigger] out@[l]).start_time) by {
                if l == out0.len() && k < l {
                    assert(out@[k] == out0[k]);
                    assert(time_index(out0[k].start_time) <= time_index(rest0[p as int].start_time));
                }
            }
            assert forall|k: int| 0 <= k < rest@.len() implies (
            #[trigger] rest@[k]).start_time.wf() by {
                assert(rest@[k] == (if k < p {
                    rest0[k]
                } else {
                    rest0[k + 1]
                }));
            }
        }
    }
    proof {
        rest@.to_multiset_ensures();
        assert(rest@.to_multiset().len() == 0);
        assert(out@.to_multiset() =~= orig.to_multiset());
    }
    out
}

/// Removing an entry preserves the store invariant.
pub proof fn lemma_bookings_wf_remove(bs: Seq<(BookingId, Booking)>, i: int)
    requires
        bookings_wf(bs),
        0 <= i < bs.len(),
    ensures
        bookings_wf(bs.remove(i)),
{
    let rs = bs.remove(i);
    assert forall|j: int| 0 <= j < rs.len() implies (#[trigger] rs[j])
        == (if j < i {
        bs[j]
    } else {
        bs[j + 1]
    }) by {}
}

} // verus!
