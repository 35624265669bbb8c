//! The request dispatcher: it owns the facilities and the monitor
//! subscriptions, maps each decoded request to a store operation, forms
//! the response, and on every state change lists the notifications owed
//! to the facility's unexpired subscribers.

use vstd::prelude::*;
use vstd::seq_lib::*;
use vstd::string::StringExecFns;
use crate::codec::Byteable;
use crate::facilities::{
    avail_law, extend_admissible, offset_admissible, spec_extend_booking, spec_offset_booking,
    Booking, Facility,
};
use crate::ids::Uuid;
use crate::requests::{
    AvailabilityModel, AvailabilityRequest, BookModel, BookRequest, CancelBookingRequest,
    ExtendBookingRequest, MonitorFacilityRequest, MonitorModel, OffsetBookingRequest, RawRequest,
    RequestType,
};
use crate::responses::RawResponse;
use crate::text::{avail_text, day_text, spec_uuid_text};
use crate::time::{day_ord, time_index, Day};

verus! {

/// One monitor subscription: who listens, to which facility, until when.
pub struct MonitorEntry {
    pub addr: String,
    pub facility_name: String,
    pub expires_at_ms: u64,
}

/// One notification owed to a subscriber.
pub struct Notification {
    pub addr: String,
    pub response: RawResponse,
}

/// `i` is the first position of a facility with the given name.
pub open spec fn first_named(fs: Seq<Facility>, name: Seq<char>, i: int) -> bool {
    &&& 0 <= i < fs.len()
    &&& fs[i].name@ == name
    &&& forall|j: int| 0 <= j < i ==> (#[trigger] fs[j]).name@ != name
}

/// Some facility has the given name.
pub open spec fn has_named(fs: Seq<Facility>, name: Seq<char>) -> bool {
    exists|i: int| 0 <= i < fs.len() && (#[trigger] fs[i]).name@ == name
}

/// `i` is the first position of a facility holding the given booking.
pub open spec fn first_with_id(fs: Seq<Facility>, id: Uuid, i: int) -> bool {
    &&& 0 <= i < fs.len()
    &&& fs[i].contains_id(id)
    &&& forall|j: int| 0 <= j < i ==> !(#[trigger] fs[j]).contains_id(id)
}

/// Some facility holds the given booking.
pub open spec fn some_has_id(fs: Seq<Facility>, id: Uuid) -> bool {
    exists|i: int| 0 <= i < fs.len() && (#[trigger] fs[i]).contains_id(id)
}

/// `txt` is an availability listing of the store for the day.
pub open spec fn day_slots_text(
    bs: Seq<(crate::facilities::BookingId, Booking)>,
    day: Day,
    txt: Seq<char>,
) -> bool {
    exists|slots: Seq<(crate::time::Time, crate::time::Time)>|
        #[trigger] avail_law(bs, day, slots) && txt == avail_text(slots)
}

/// The push message sent to monitoring subscribers.
pub open spec fn monitor_msg_text(day: Day, avail: Seq<char>) -> Seq<char> {
    "A booking was updated on "@ + day_text(day) + "; new availabilities: "@ + avail
}

/// One availability block of the reply, wrapped in rules.
pub open spec fn block_wrap(txt: Seq<char>) -> Seq<char> {
    "-----\n "@ + txt + "\n -----\n"@
}

/// The concatenation of wrapped availability blocks.
pub open spec fn blocks_concat(strs: Seq<Seq<char>>) -> Seq<char>
    decreases strs.len(),
{
    if strs.len() == 0 {
        Seq::empty()
    } else {
        block_wrap(strs[0]) + blocks_concat(strs.skip(1))
    }
}

/// Days in strictly ascending order, so each day at most once.
pub open spec fn ascending_days(ds: Seq<Day>) -> bool {
    forall|k: int, l: int|
        0 <= k < l < ds.len() ==> day_ord(#[trigger] ds[k]) < day_ord(#[trigger] ds[l])
}

/// The availability reply: one wrapped block per requested day, the days
/// taken each once in ascending order, each block an availability listing
/// of the first facility with the requested name.
pub open spec fn avail_reply_with(
    fs: Seq<Facility>,
    q: AvailabilityModel,
    msg: Seq<char>,
    i: int,
    ds: Seq<Day>,
    strs: Seq<Seq<char>>,
) -> bool {
    &&& first_named(fs, q.facility_name, i)
    &&& ascending_days(ds)
    &&& forall|d: Day| ds.contains(d) <==> q.days.contains(d)
    &&& strs.len() == ds.len()
    &&& forall|j: int|
        0 <= j < ds.len() ==> #[trigger] day_slots_text(fs[i].bookings@, ds[j], strs[j])
    &&& msg == blocks_concat(strs)
}

pub open spec fn avail_reply(fs: Seq<Facility>, q: AvailabilityModel, msg: Seq<char>) -> bool {
    exists|i: int, ds: Seq<Day>, strs: Seq<Seq<char>>|
        #[trigger] avail_reply_with(fs, q, msg, i, ds, strs)
}

/// The subscriptions not yet expired at `now`, in order.
pub open spec fn retained(subs: Seq<MonitorEntry>, now: u64) -> Seq<MonitorEntry>
    decreases subs.len(),
{
    if subs.len() == 0 {
        Seq::empty()
    } else if subs[0].expires_at_ms > now {
        seq![subs[0]] + retained(subs.skip(1), now)
    } else {
        retained(subs.skip(1), now)
    }
}

/// The subscriptions of the given facility, in order.
pub open spec fn named_subs(subs: Seq<MonitorEntry>, fname: Seq<char>) -> Seq<MonitorEntry>
    decreases subs.len(),
{
    if subs.len() == 0 {
        Seq::empty()
    } else if subs[0].facility_name@ == fname {
        seq![subs[0]] + named_subs(subs.skip(1), fname)
    } else {
        named_subs(subs.skip(1), fname)
    }
}

/// Every retained subscription is one of the originals, unexpired.
pub proof fn lemma_retained_props(subs: Seq<MonitorEntry>, now: u64)
    ensures
        forall|k: int|
            0 <= k < retained(subs, now).len() ==> (#[trigger] retained(subs, now)[k]).expires_at_ms
                > now && subs.contains(retained(subs, now)[k]),
    decreases subs.len(),
{
    if subs.len() > 0 {
        lemma_retained_props(subs.skip(1), now);
        let r = retained(subs, now);
        let rt = retained(subs.skip(1), now);
        assert forall|k: int| 0 <= k < r.len() implies (#[trigger] r[k]).expires_at_ms > now
            && subs.contains(r[k]) by {
            if subs[0].expires_at_ms > now && k == 0 {
                assert(r[k] == subs[0]);
            } else {
                let kk = if subs[0].expires_at_ms > now {
                    k - 1
                } else {
                    k
                };
                assert(r[k] == rt[kk]);
                assert(subs.skip(1).contains(rt[kk]));
                let j = choose|j: int| 0 <= j < subs.skip(1).len() && subs.skip(1)[j] == rt[kk];
                assert(subs[j + 1] == rt[kk]);
            }
        }
    }
}

/// Every facility subscription is one of the originals, for the facility.
pub proof fn lemma_named_subs_props(subs: Seq<MonitorEntry>, fname: Seq<char>)
    ensures
        forall|k: int|
            0 <= k < named_subs(subs, fname).len() ==> (#[trigger] named_subs(subs, fname)[k]).facility_name@
                == fname && subs.contains(named_subs(subs, fname)[k]),
    decreases subs.len(),
{
    if subs.len() > 0 {
        lemma_named_subs_props(subs.skip(1), fname);
        let r = named_subs(subs, fname);
        let rt = named_subs(subs.skip(1), fname);
        assert forall|k: int| 0 <= k < r.len() implies (#[trigger] r[k]).facility_name@ == fname
            && subs.contains(r[k]) by {
            if subs[0].facility_name@ == fname && k == 0 {
                assert(r[k] == subs[0]);
            } else {
                let kk = if subs[0].facility_name@ == fname {
                    k - 1
                } else {
                    k
                };
                assert(r[k] == rt[kk]);
                assert(subs.skip(1).contains(rt[kk]));
                let j = choose|j: int| 0 <= j < subs.skip(1).len() && subs.skip(1)[j] == rt[kk];
                assert(subs[j + 1] == rt[kk]);
            }
        }
    }
}

/// What the notifications of one state change look like: one per
/// subscription of the facility retained at `now`, in subscription
/// order, never an error, all carrying the facility's fresh availability
/// listing for the updated day; where the facility does not exist,
/// nothing is sent.
pub open spec fn notes_post(
    h1: Handler,
    fname: Seq<char>,
    day: Day,
    now: u64,
    notes: Seq<Notification>,
) -> bool {
    let matching = named_subs(h1.monitoring_addresses@, fname);
    &&& has_named(h1.facilities@, fname) ==> notes.len() == matching.len()
    &&& !has_named(h1.facilities@, fname) ==> notes.len() == 0
    &&& forall|k: int|
        0 <= k < notes.len() && k < matching.len() ==> (#[trigger] notes[k]).addr@
            == matching[k].addr@ && !notes[k].response.is_error
    &&& forall|k: int|
        0 <= k < notes.len() ==> exists|e: int|
            0 <= e < h1.monitoring_addresses@.len() && (#[trigger] h1.monitoring_addresses@[e]).expires_at_ms
                > now && h1.monitoring_addresses@[e].addr@ == (#[trigger] notes[k]).addr@
    &&& forall|i: int|
        #[trigger] first_named(h1.facilities@, fname, i) ==> exists|txt: Seq<char>|
            #[trigger] day_slots_text(h1.facilities@[i].bookings@, day, txt) && (forall|k: int|
                0 <= k < notes.len() ==> (#[trigger] notes[k]).response.message@
                    == monitor_msg_text(day, txt))
}

/// The expiry stamp of a subscription taken at `now` for a number of
/// seconds, saturating at the largest stamp.
pub open spec fn spec_expiry(now: u64, seconds: u8) -> u64 {
    if now + seconds * 1000 <= u64::MAX {
        (now + seconds * 1000) as u64
    } else {
        u64::MAX
    }
}

/// Appending one block to the reply appends one wrapped listing.
pub proof fn lemma_blocks_concat_push(strs: Seq<Seq<char>>, x: Seq<char>)
    ensures
        blocks_concat(strs.push(x)) == blocks_concat(strs) + block_wrap(x),
    decreases strs.len(),
{
    if strs.len() == 0 {
        assert(strs.push(x)[0] == x);
        assert(strs.push(x).skip(1) =~= Seq::<Seq<char>>::empty());
        assert(blocks_concat(strs.push(x).skip(1)) == Seq::<char>::empty()) by {
            assert(strs.push(x).skip(1).len() == 0);
        }
        assert(blocks_concat(strs.push(x)) == block_wrap(x) + blocks_concat(
            strs.push(x).skip(1),
        ));
        assert(blocks_concat(strs.push(x)) =~= blocks_concat(strs) + block_wrap(x));
    } else {
        assert(strs.push(x).skip(1) =~= strs.skip(1).push(x));
        lemma_blocks_concat_push(strs.skip(1), x);
        assert(strs.push(x)[0] == strs[0]);
        assert(blocks_concat(strs.push(x)) == block_wrap(strs[0]) + blocks_concat(
            strs.skip(1).push(x),
        ));
        assert(blocks_concat(strs.push(x)) =~= blocks_concat(strs) + block_wrap(x));
    }
}

/// The requested days, each taken once, in ascending order.
fn sorted_unique_days(days: &Vec<Day>) -> (ds: Vec<Day>)
    ensures
        ascending_days(ds@),
        forall|d: Day| ds@.contains(d) <==> days@.contains(d),
{
    let mut ds: Vec<Day> = Vec::new();
    let mut o: u8 = 0;
    while o < 7
        invariant
            o <= 7,
            forall|k: int, l: int|
                0 <= k < l < ds@.len() ==> day_ord(#[trigger] ds@[k]) < day_ord(#[trigger] ds@[l]),
            forall|k: int| 0 <= k < ds@.len() ==> day_ord(#[trigger] ds@[k]) < o,
            forall|d: Day| ds@.contains(d) ==> days@.contains(d),
            forall|d: Day| days@.contains(d) && day_ord(d) < o ==> ds@.contains(d),
        decreases 7 - o,
    {
        let mut found = false;
        let mut i: usize = 0;
        while i < days.len()
            invariant
                i <= days@.len(),
                found <==> exists|j: int|
                    0 <= j < i && day_ord(#[trigger] days@[j]) == o,
            decreases days@.len() - i,
        {
            if days[i].to_u8() == o {
                found = true;
            }
            i += 1;
        }
        if found {
            let ghost ds0 = ds@;
            let d = match Day::from_u8(o) {
                Ok(d) => d,
                Err(_) => {
                    proof {
                        assert(false);
                    }
                    Day::Monday
                },
            };
            ds.push(d);
            proof {
                let j = choose|j: int| 0 <= j < days@.len() && day_ord(#[trigger] days@[j]) == o;
                crate::time::lemma_day_eq_of_ord(days@[j], d);
                assert(ds@.contains(d)) by {
                    assert(ds@[ds0.len() as int] == d);
                }
                assert forall|dd: Day| ds@.contains(dd) implies days@.contains(dd) by {
                    let k = choose|k: int| 0 <= k < ds@.len() && ds@[k] == dd;
                    if k < ds0.len() {
                        assert(ds0[k] == dd);
                        assert(ds0.contains(dd));
                    }
                }
                assert forall|dd: Day| days@.contains(dd) && day_ord(dd) < o + 1 implies
                    ds@.contains(dd) by {
                    if day_ord(dd) < o {
                        assert(ds0.contains(dd));
                        let k = choose|k: int| 0 <= k < ds0.len() && ds0[k] == dd;
                        assert(ds@[k] == dd);
                    } else {
                        crate::time::lemma_day_eq_of_ord(dd, d);
                        assert(ds@[ds0.len() as int] == dd);
                    }
                }
            }
        } else {
            proof {
                assert forall|dd: Day| days@.contains(dd) && day_ord(dd) < o + 1 implies
                    ds@.contains(dd) by {
                    if day_ord(dd) == o {
                        let j = choose|j: int| 0 <= j < days@.len() && days@[j] == dd;
                        assert(day_ord(days@[j]) == o);
                        assert(false);
                    }
                }
            }
        }
        o += 1;
    }
    proof {
        assert forall|d: Day| days@.contains(d) implies ds@.contains(d) by {
            assert(day_ord(d) < 7);
        }
    }
    ds
}

/// The dispatcher's state: the fixed facilities and the live monitor
/// subscriptions.
pub struct Handler {
    pub facilities: Vec<Facility>,
    pub monitoring_addresses: Vec<MonitorEntry>,
}

impl Handler {
    /// Every facility's store invariant holds.
    pub open spec fn wf(&self) -> bool {
        forall|i: int| 0 <= i < self.facilities@.len() ==> (#[trigger] self.facilities@[i]).wf()
    }

    /// Creates the dispatcher over the five fixed meeting rooms, with no
    /// bookings and no subscriptions.
    pub fn new() -> (h: Handler)
        ensures
            h.wf(),
            h.facilities@.len() == 5,
            forall|i: int| 0 <= i < 5 ==> (#[trigger] h.facilities@[i]).bookings@.len() == 0,
            h.facilities@[0].name@ == "MR1"@,
            h.facilities@[1].name@ == "MR2"@,
            h.facilities@[2].name@ == "MR3"@,
            h.facilities@[3].name@ == "MR4"@,
            h.facilities@[4].name@ == "MR5"@,
            h.monitoring_addresses@.len() == 0,
    {
        let mut facilities: Vec<Facility> = Vec::new();
        facilities.push(Facility::new(String::from_str("MR1")));
        facilities.push(Facility::new(String::from_str("MR2")));
        facilities.push(Facility::new(String::from_str("MR3")));
        facilities.push(Facility::new(String::from_str("MR4")));
        facilities.push(Facility::new(String::from_str("MR5")));
        Handler { facilities, monitoring_addresses: Vec::new() }
    }

    /// Finds the first facility with the given name.
    fn find_facility(&self, name: &String) -> (r: Option<usize>)
        ensures
            match r {
                Some(i) => first_named(self.facilities@, name@, i as int),
                None => !has_named(self.facilities@, name@),
            },
    {
        let mut i: usize = 0;
        while i < self.facilities.len()
            invariant
                i <= self.facilities@.len(),
                forall|j: int| 0 <= j < i ==> (#[trigger] self.facilities@[j]).name@ != name@,
            decreases self.facilities@.len() - i,
        {
            if self.facilities[i].name == *name {
                return Some(i);
            }
            i += 1;
        }
        None
    }

    /// Finds the first facility holding the given booking.
    fn find_facility_with_id(&self, id: &Uuid) -> (r: Option<usize>)
        ensures
            match r {
                Some(i) => first_with_id(self.facilities@, *id, i as int),
                None => !some_has_id(self.facilities@, *id),
            },
    {
        let mut i: usize = 0;
        while i < self.facilities.len()
            invariant
                i <= self.facilities@.len(),
                forall|j: int| 0 <= j < i ==> !(#[trigger] self.facilities@[j]).contains_id(*id),
            decreases self.facilities@.len() - i,
        {
            if self.facilities[i].get_booking_details(id).is_some() {
                return Some(i);
            }
            i += 1;
        }
        None
    }

    /// Drops every subscription that has expired at `now`.
    #[verifier::loop_isolation(false)]
    fn evict_expired(&mut self, now_ms: u64)
        ensures
            final(self).facilities == old(self).facilities,
            final(self).monitoring_addresses@ == retained(
                old(self).monitoring_addresses@,
                now_ms,
            ),
    {
        let ghost subs0 = old(self).monitoring_addresses@;
        let mut kept: Vec<MonitorEntry> = Vec::new();
        proof {
            assert(kept@ + retained(subs0, now_ms) =~= retained(subs0, now_ms));
        }
        while self.monitoring_addresses.len() > 0
            invariant
                self.facilities == old(self).facilities,
                subs0.len() >= self.monitoring_addresses@.len(),
                self.monitoring_addresses@ == subs0.skip(
                    subs0.len() - self.monitoring_addresses@.len(),
                ),
                kept@ + retained(self.monitoring_addresses@, now_ms) == retained(subs0, now_ms),
            decreases self.monitoring_addresses@.len(),
        {
            let ghost cur = self.monitoring_addresses@;
            let e = self.monitoring_addresses.remove(0);
            proof {
                assert(e == cur[0]);
                assert(self.monitoring_addresses@ =~= cur.skip(1));
                assert(self.monitoring_addresses@ =~= subs0.skip(
                    subs0.len() - self.monitoring_addresses@.len(),
                ));
                assert(retained(cur, now_ms) == (if cur[0].expires_at_ms > now_ms {
                    seq![cur[0]] + retained(cur.skip(1), now_ms)
                } else {
                    retained(cur.skip(1), now_ms)
                }));
            }
            if e.expires_at_ms > now_ms {
                kept.push(e);
                proof {
                    assert(kept@ + retained(self.monitoring_addresses@, now_ms) =~= retained(
                        subs0,
                        now_ms,
                    ));
                }
            }
        }
        proof {
            assert(retained(self.monitoring_addresses@, now_ms) =~= Seq::<MonitorEntry>::empty());
            assert(kept@ =~= retained(subs0, now_ms));
        }
        self.monitoring_addresses = kept;
    }

    /// Evicts the expired subscriptions and lists one notification per
    /// remaining subscriber of the facility, each carrying the
    /// facility's fresh availability for the updated day.
    #[verifier::loop_isolation(false)]
    pub fn send_monitor_message(
        &mut self,
        facility_name: &String,
        updated_day: Day,
        now_ms: u64,
    ) -> (notes: Vec<Notification>)
        requires
            old(self).wf(),
        ensures
            final(self).wf(),
            final(self).facilities == old(self).facilities,
            final(self).monitoring_addresses@ == retained(
                old(self).monitoring_addresses@,
                now_ms,
            ),
            notes_post(*final(self), facility_name@, updated_day, now_ms, notes@),
    {
        self.evict_expired(now_ms);
        let mut notes: Vec<Notification> = Vec::new();
        let fi = match self.find_facility(facility_name) {
            Some(i) => i,
            None => {
                proof {
                    lemma_retained_props(old(self).monitoring_addresses@, now_ms);
                }
                return notes;
            },
        };
        let avail = self.facilities[fi].get_availabilities(updated_day);
        let mut msg = String::from_str("A booking was updated on ");
        let day_name = updated_day.to_text();
        msg.append(day_name.as_str());
        msg.append("; new availabilities: ");
        msg.append(avail.as_str());
        proof {
            assert(msg@ =~= monitor_msg_text(updated_day, avail@));
        }
        let fresh_id = Uuid::new_v4();
        let ghost subs = self.monitoring_addresses@;
        let n = self.monitoring_addresses.len();
        let mut i: usize = 0;
        proof {
            assert(subs.take(0int) =~= Seq::<MonitorEntry>::empty());
        }
        while i < n
            invariant
                i <= n,
                self.monitoring_addresses@ == subs,
                notes@.len() == named_subs(subs.take(i as int), facility_name@).len(),
                forall|k: int|
                    0 <= k < notes@.len() ==> (#[trigger] notes@[k]).addr@ == named_subs(
                        subs.take(i as int),
                        facility_name@,
                    )[k].addr@ && !notes@[k].response.is_error && notes@[k].response.message@
                        == monitor_msg_text(updated_day, avail@),
            decreases n - i,
        {
            let ghost pre = subs.take(i as int);
            proof {
                lemma_named_subs_push(pre, subs[i as int], facility_name@);
                assert(subs.take(i as int + 1) =~= pre.push(subs[i as int]));
            }
            if self.monitoring_addresses[i].facility_name == *facility_name {
                let note = Notification {
                    addr: self.monitoring_addresses[i].addr.clone(),
                    response: RawResponse {
                        request_id: fresh_id,
                        is_error: false,
                        message: msg.clone(),
                    },
                };
                notes.push(note);
                proof {
                    assert(named_subs(subs.take(i as int + 1), facility_name@) =~= named_subs(
                        pre,
                        facility_name@,
                    ).push(subs[i as int]));
                }
            }
            i += 1;
        }
        proof {
            assert(subs.take(n as int) =~= subs);
            let matching = named_subs(subs, facility_name@);
            lemma_named_subs_props(subs, facility_name@);
            lemma_retained_props(old(self).monitoring_addresses@, now_ms);
            assert forall|k: int|
                0 <= k < notes@.len() implies exists|e: int|
                    0 <= e < self.monitoring_addresses@.len()
                        && (#[trigger] self.monitoring_addresses@[e]).expires_at_ms > now_ms
                        && self.monitoring_addresses@[e].addr@ == (#[trigger] notes@[k]).addr@ by {
                assert(subs.contains(matching[k]));
                let e = choose|e: int| 0 <= e < subs.len() && subs[e] == matching[k];
                assert(subs[e].expires_at_ms > now_ms);
            }
            assert forall|ii: int|
                #[trigger] first_named(self.facilities@, facility_name@, ii) implies exists|
                txt: Seq<char>,
            |
                #[trigger] day_slots_text(self.facilities@[ii].bookings@, updated_day, txt) && (
                forall|k: int|
                    0 <= k < notes@.len() ==> (#[trigger] notes@[k]).response.message@
                        == monitor_msg_text(updated_day, txt)) by {
                assert(ii == fi as int);
                assert(day_slots_text(self.facilities@[fi as int].bookings@, updated_day, avail@));
            }
        }
        notes
    }
}

/// Scanning one more subscription appends it to the facility's list
/// exactly when the facility matches.
pub proof fn lemma_named_subs_push(subs: Seq<MonitorEntry>, x: MonitorEntry, fname: Seq<char>)
    ensures
        named_subs(subs.push(x), fname) == if x.facility_name@ == fname {
            named_subs(subs, fname).push(x)
        } else {
            named_subs(subs, fname)
        },
    decreases subs.len(),
{
    if subs.len() == 0 {
        assert(subs.push(x)[0] == x);
        assert(subs.push(x).skip(1) =~= Seq::<MonitorEntry>::empty());
        assert(named_subs(subs.push(x).skip(1), fname) == Seq::<MonitorEntry>::empty()) by {
            assert(subs.push(x).skip(1).len() == 0);
        }
        if x.facility_name@ == fname {
            assert(named_subs(subs.push(x), fname) == seq![x] + named_subs(
                subs.push(x).skip(1),
                fname,
            ));
            assert(named_subs(subs.push(x), fname) =~= named_subs(subs, fname).push(x));
        } else {
            assert(named_subs(subs.push(x), fname) =~= named_subs(subs, fname));
        }
    } else {
        assert(subs.push(x)[0] == subs[0]);
        assert(subs.push(x).skip(1) =~= subs.skip(1).push(x));
        lemma_named_subs_push(subs.skip(1), x, fname);
        if subs[0].facility_name@ == fname {
            assert(named_subs(subs.push(x), fname) == seq![subs[0]] + named_subs(
                subs.skip(1).push(x),
                fname,
            ));
        } else {
            assert(named_subs(subs.push(x), fname) == named_subs(subs.skip(1).push(x), fname));
        }
        if x.facility_name@ == fname {
            assert(named_subs(subs.push(x), fname) =~= named_subs(subs, fname).push(x));
        } else {
            assert(named_subs(subs.push(x), fname) =~= named_subs(subs, fname));
        }
    }
}

/// Two facilities with one name and one booking list.
pub open spec fn fac_eq(a: Facility, b: Facility) -> bool {
    a.name@ == b.name@ && a.bookings@ == b.bookings@
}

/// Facility lists equal store for store.
pub open spec fn facs_eq(a: Seq<Facility>, b: Seq<Facility>) -> bool {
    a.len() == b.len() && forall|k: int| 0 <= k < a.len() ==> fac_eq(#[trigger] a[k], b[k])
}

/// Facility lists equal except at `i`, where only the bookings differ.
pub open spec fn facs_eq_but(a: Seq<Facility>, b: Seq<Facility>, i: int) -> bool {
    &&& a.len() == b.len()
    &&& forall|k: int| 0 <= k < a.len() && k != i ==> fac_eq(#[trigger] a[k], b[k])
    &&& 0 <= i < a.len() && a[i].name@ == b[i].name@
}

/// Facility lists with the same bookings, though possibly reordered
/// within each facility.
pub open spec fn facs_same_bookings(a: Seq<Facility>, b: Seq<Facility>) -> bool {
    &&& a.len() == b.len()
    &&& forall|k: int|
        0 <= k < a.len() ==> (#[trigger] a[k]).name@ == b[k].name@
            && a[k].bookings@.to_multiset() == b[k].bookings@.to_multiset()
}

/// The outcome of an availability request: nothing changes, and the
/// request succeeds exactly on a known facility, with the listing reply.
pub open spec fn availability_outcome(
    h0: Handler,
    h1: Handler,
    q: AvailabilityModel,
    ok: bool,
    msg: Seq<char>,
    notes: Seq<Notification>,
) -> bool {
    &&& h1 == h0
    &&& notes.len() == 0
    &&& ok == has_named(h0.facilities@, q.facility_name)
    &&& ok ==> avail_reply(h0.facilities@, q, msg)
}

/// A successful booking, witnessed by the facility position and the
/// fresh identifier: the booking is appended there, everything else
/// stands, the expired subscriptions are evicted and the facility's
/// subscribers are notified for the booked day.
pub open spec fn book_success(
    h0: Handler,
    h1: Handler,
    q: BookModel,
    now: u64,
    msg: Seq<char>,
    notes: Seq<Notification>,
    i: int,
    id: Uuid,
) -> bool {
    let b = Booking { start_time: q.start_time, end_time: q.end_time };
    &&& first_named(h0.facilities@, q.facility_name, i)
    &&& b.wf()
    &&& facs_eq_but(h0.facilities@, h1.facilities@, i)
    &&& h1.facilities@[i].bookings@ == h0.facilities@[i].bookings@.push((id, b))
    &&& !h0.facilities@[i].contains_id(id)
    &&& msg == "Successfully added new booking with ID: "@ + spec_uuid_text(id.v as int)
    &&& h1.monitoring_addresses@ == retained(h0.monitoring_addresses@, now)
    &&& notes_post(h1, q.facility_name, q.start_time.day, now, notes)
}

/// The outcome of a booking request. An unknown facility, an invalid
/// interval and an overlap are each rejected and change nothing; only a
/// collision of the freshly drawn identifier can otherwise fail it, so
/// on an empty store a valid booking is owed success.
pub open spec fn book_outcome(
    h0: Handler,
    h1: Handler,
    q: BookModel,
    now: u64,
    ok: bool,
    msg: Seq<char>,
    notes: Seq<Notification>,
) -> bool {
    &&& !ok ==> facs_eq(h0.facilities@, h1.facilities@) && h1.monitoring_addresses
        == h0.monitoring_addresses && notes.len() == 0
    &&& !has_named(h0.facilities@, q.facility_name) ==> !ok
    &&& forall|i: int|
        #[trigger] first_named(h0.facilities@, q.facility_name, i) ==> {
            let bs = h0.facilities@[i].bookings@;
            let b = Booking { start_time: q.start_time, end_time: q.end_time };
            &&& (!(time_index(q.start_time) < time_index(q.end_time) && q.start_time.day
                == q.end_time.day) ==> !ok)
            &&& ((exists|j: int|
                0 <= j < bs.len() && crate::facilities::spec_overlaps((#[trigger] bs[j]).1, b))
                ==> !ok)
            &&& (bs.len() == 0 && time_index(q.start_time) < time_index(q.end_time)
                && q.start_time.day == q.end_time.day ==> ok)
        }
    &&& ok ==> exists|i: int, id: Uuid| #[trigger] book_success(h0, h1, q, now, msg, notes, i, id)
}

/// A successful shift, witnessed by the facility position and the entry
/// position: the entry is replaced by its shifted copy, everything else
/// stands, and the facility's subscribers are notified for the booking's
/// original day.
pub open spec fn offset_success(
    h0: Handler,
    h1: Handler,
    q: OffsetBookingRequest,
    now: u64,
    msg: Seq<char>,
    notes: Seq<Notification>,
    i: int,
    j: int,
) -> bool {
    let bs = h0.facilities@[i].bookings@;
    &&& first_with_id(h0.facilities@, q.booking_id, i)
    &&& 0 <= j < bs.len() && bs[j].0 == q.booking_id
    &&& facs_eq_but(h0.facilities@, h1.facilities@, i)
    &&& h1.facilities@[i].bookings@ == bs.remove(j).push(
        (q.booking_id, spec_offset_booking(bs[j].1, q.offset_hours, q.offset_min, q.negative)),
    )
    &&& msg == "Facility "@ + h0.facilities@[i].name@ + " successfully offsetted"@
    &&& h1.monitoring_addresses@ == retained(h0.monitoring_addresses@, now)
    &&& notes_post(h1, h0.facilities@[i].name@, bs[j].1.start_time.day, now, notes)
}

/// The outcome of a shift request: it succeeds exactly when some
/// facility holds the booking and the shift keeps its day and clears
/// every other booking; on failure the stores hold the same bookings.
pub open spec fn offset_outcome(
    h0: Handler,
    h1: Handler,
    q: OffsetBookingRequest,
    now: u64,
    ok: bool,
    msg: Seq<char>,
    notes: Seq<Notification>,
) -> bool {
    &&& !ok ==> facs_same_bookings(h0.facilities@, h1.facilities@) && h1.monitoring_addresses
        == h0.monitoring_addresses && notes.len() == 0
    &&& !some_has_id(h0.facilities@, q.booking_id) ==> !ok
    &&& forall|i: int|
        #[trigger] first_with_id(h0.facilities@, q.booking_id, i) ==> (ok <==> exists|j: int|
            0 <= j < h0.facilities@[i].bookings@.len() && (#[trigger] h0.facilities@[i].bookings@[j]).0
                == q.booking_id && offset_admissible(
                h0.facilities@[i].bookings@,
                j,
                q.offset_hours,
                q.offset_min,
                q.negative,
            ))
    &&& ok ==> exists|i: int, j: int| #[trigger] offset_success(h0, h1, q, now, msg, notes, i, j)
}

/// A successful extension, witnessed like a successful shift.
pub open spec fn extend_success(
    h0: Handler,
    h1: Handler,
    q: ExtendBookingRequest,
    now: u64,
    msg: Seq<char>,
    notes: Seq<Notification>,
    i: int,
    j: int,
) -> bool {
    let bs = h0.facilities@[i].bookings@;
    &&& first_with_id(h0.facilities@, q.booking_id, i)
    &&& 0 <= j < bs.len() && bs[j].0 == q.booking_id
    &&& facs_eq_but(h0.facilities@, h1.facilities@, i)
    &&& h1.facilities@[i].bookings@ == bs.remove(j).push(
        (q.booking_id, spec_extend_booking(bs[j].1, q.extend_hours, q.extend_min)),
    )
    &&& msg == "Facility "@ + h0.facilities@[i].name@ + " successfully offsetted"@
    &&& h1.monitoring_addresses@ == retained(h0.monitoring_addresses@, now)
    &&& notes_post(h1, h0.facilities@[i].name@, bs[j].1.start_time.day, now, notes)
}

/// The outcome of an extension request: it succeeds exactly when some
/// facility holds the booking and the longer end stays on the day and
/// clears every other booking; on failure the stores hold the same
/// bookings.
pub open spec fn extend_outcome(
    h0: Handler,
    h1: Handler,
    q: ExtendBookingRequest,
    now: u64,
    ok: bool,
    msg: Seq<char>,
    notes: Seq<Notification>,
) -> bool {
    &&& !ok ==> facs_same_bookings(h0.facilities@, h1.facilities@) && h1.monitoring_addresses
        == h0.monitoring_addresses && notes.len() == 0
    &&& !some_has_id(h0.facilities@, q.booking_id) ==> !ok
    &&& forall|i: int|
        #[trigger] first_with_id(h0.facilities@, q.booking_id, i) ==> (ok <==> exists|j: int|
            0 <= j < h0.facilities@[i].bookings@.len() && (#[trigger] h0.facilities@[i].bookings@[j]).0
                == q.booking_id && extend_admissible(
                h0.facilities@[i].bookings@,
                j,
                q.extend_hours,
                q.extend_min,
            ))
    &&& ok ==> exists|i: int, j: int| #[trigger] extend_success(h0, h1, q, now, msg, notes, i, j)
}

/// A successful cancellation, witnessed by the facility position and the
/// entry position: the entry is removed, everything else stands, and the
/// facility's subscribers are notified for the booking's day.
pub open spec fn cancel_success(
    h0: Handler,
    h1: Handler,
    q: CancelBookingRequest,
    now: u64,
    msg: Seq<char>,
    notes: Seq<Notification>,
    i: int,
    j: int,
) -> bool {
    let bs = h0.facilities@[i].bookings@;
    &&& first_with_id(h0.facilities@, q.booking_id, i)
    &&& 0 <= j < bs.len() && bs[j].0 == q.booking_id
    &&& facs_eq_but(h0.facilities@, h1.facilities@, i)
    &&& h1.facilities@[i].bookings@ == bs.remove(j)
    &&& msg == "Booking "@ + spec_uuid_text(q.booking_id.v as int) + " successfully cancelled"@
    &&& h1.monitoring_addresses@ == retained(h0.monitoring_addresses@, now)
    &&& notes_post(h1, h0.facilities@[i].name@, bs[j].1.start_time.day, now, notes)
}

/// The outcome of a cancellation: it succeeds exactly when some facility
/// holds the booking; on failure nothing changes.
pub open spec fn cancel_outcome(
    h0: Handler,
    h1: Handler,
    q: CancelBookingRequest,
    now: u64,
    ok: bool,
    msg: Seq<char>,
    notes: Seq<Notification>,
) -> bool {
    &&& ok == some_has_id(h0.facilities@, q.booking_id)
    &&& !ok ==> h1 == h0 && notes.len() == 0
    &&& ok ==> exists|i: int, j: int| #[trigger] cancel_success(h0, h1, q, now, msg, notes, i, j)
}

/// The outcome of a monitor registration: it succeeds exactly on a known
/// facility, appending one subscription for the caller that expires
/// `seconds` later; nothing else changes and nothing is notified.
pub open spec fn monitor_outcome(
    h0: Handler,
    h1: Handler,
    q: MonitorModel,
    addr: Seq<char>,
    now: u64,
    ok: bool,
    msg: Seq<char>,
    notes: Seq<Notification>,
) -> bool {
    &&& ok == has_named(h0.facilities@, q.facility_name)
    &&& notes.len() == 0
    &&& !ok ==> h1 == h0
    &&& ok ==> {
        &&& h1.facilities == h0.facilities
        &&& h1.monitoring_addresses@.len() == h0.monitoring_addresses@.len() + 1
        &&& h1.monitoring_addresses@.take(h0.monitoring_addresses@.len() as int)
            == h0.monitoring_addresses@
        &&& h1.monitoring_addresses@.last().addr@ == addr
        &&& h1.monitoring_addresses@.last().facility_name@ == q.facility_name
        &&& h1.monitoring_addresses@.last().expires_at_ms == spec_expiry(
            now,
            q.seconds_to_monitor,
        )
        &&& msg == "Successfully registered "@ + addr + " for monitoring facility "@
            + q.facility_name
    }
}

/// The outcome of dispatching one decoded request, by its kind.
pub open spec fn dispatch_outcome(
    h0: Handler,
    h1: Handler,
    req: RawRequest,
    addr: Seq<char>,
    now: u64,
    ok: bool,
    msg: Seq<char>,
    notes: Seq<Notification>,
) -> bool {
    match req.request_type {
        RequestType::Availability(q) => availability_outcome(h0, h1, q.model(), ok, msg, notes),
        RequestType::Book(q) => book_outcome(h0, h1, q.model(), now, ok, msg, notes),
        RequestType::Offset(q) => offset_outcome(h0, h1, q, now, ok, msg, notes),
        RequestType::Monitor(q) => monitor_outcome(h0, h1, q.model(), addr, now, ok, msg, notes),
        RequestType::Cancel(q) => cancel_outcome(h0, h1, q, now, ok, msg, notes),
        RequestType::Extend(q) => extend_outcome(h0, h1, q, now, ok, msg, notes),
    }
}

/// Two first positions for one name are one position.
proof fn lemma_first_named_unique(fs: Seq<Facility>, name: Seq<char>, a: int, b: int)
    requires
        first_named(fs, name, a),
        first_named(fs, name, b),
    ensures
        a == b,
{
    if a < b {
        assert(fs[a].name@ == name);
        assert(false);
    }
    if b < a {
        assert(fs[b].name@ == name);
        assert(false);
    }
}

/// Two first positions for one booking are one position.
proof fn lemma_first_with_id_unique(fs: Seq<Facility>, id: Uuid, a: int, b: int)
    requires
        first_with_id(fs, id, a),
        first_with_id(fs, id, b),
    ensures
        a == b,
{
    if a < b {
        assert(fs[a].contains_id(id));
        assert(false);
    }
    if b < a {
        assert(fs[b].contains_id(id));
        assert(false);
    }
}

/// Taking a facility out and putting one back at its place touches no
/// other position.
proof fn lemma_remove_insert(fs0: Seq<Facility>, i: int, f: Facility)
    requires
        0 <= i < fs0.len(),
    ensures
        fs0.remove(i).insert(i, f).len() == fs0.len(),
        fs0.remove(i).insert(i, f)[i] == f,
        forall|k: int|
            0 <= k < fs0.len() && k != i ==> #[trigger] fs0.remove(i).insert(i, f)[k] == fs0[k],
{
    let fs1 = fs0.remove(i).insert(i, f);
    assert forall|k: int| 0 <= k < fs0.len() && k != i implies #[trigger] fs1[k] == fs0[k] by {
        if k < i {
            assert(fs0.remove(i)[k] == fs0[k]);
        } else {
            assert(fs0.remove(i)[k - 1] == fs0[k]);
        }
    }
}

impl Handler {
    /// Answers an availability request: for each requested day, taken
    /// once in ascending order, one wrapped availability block of the
    /// named facility; an unknown facility is rejected.
    #[verifier::loop_isolation(false)]
    pub fn handle_availability_request(&self, req: AvailabilityRequest) -> (r: Result<
        String,
        String,
    >)
        requires
            self.wf(),
        ensures
            r is Ok == has_named(self.facilities@, req.facility_name@),
            r is Ok ==> avail_reply(self.facilities@, req.model(), r->Ok_0@),
    {
        let fi = match self.find_facility(&req.facility_name) {
            Some(i) => i,
            None => {
                return Err("No such facility found".to_owned());
            },
        };
        let ds = sorted_unique_days(&req.days);
        let mut msg = String::new();
        let ghost mut strs: Seq<Seq<char>> = Seq::empty();
        let mut k: usize = 0;
        proof {
            assert(msg@ =~= blocks_concat(strs));
        }
        while k < ds.len()
            invariant
                k <= ds@.len(),
                strs.len() == k,
                forall|j: int|
                    0 <= j < k ==> day_slots_text(
                        self.facilities@[fi as int].bookings@,
                        ds@[j],
                        #[trigger] strs[j],
                    ),
                msg@ == blocks_concat(strs),
            decreases ds@.len() - k,
        {
            let avail = self.facilities[fi].get_availabilities(ds[k]);
            msg.append("-----\n ");
            msg.append(avail.as_str());
            msg.append("\n -----\n");
            proof {
                lemma_blocks_concat_push(strs, avail@);
                strs = strs.push(avail@);
                assert(msg@ =~= blocks_concat(strs));
            }
            k += 1;
        }
        proof {
            assert(avail_reply_with(
                self.facilities@,
                req.model(),
                msg@,
                fi as int,
                ds@,
                strs,
            ));
        }
        Ok(msg)
    }

    /// Books the facility between the two times; rejects an unknown
    /// facility, an invalid interval and an overlap, and then changes
    /// nothing. On success the facility's subscribers are notified.
    pub fn handle_booking_request(&mut self, req: BookRequest, now_ms: u64) -> (r: (
        Result<String, String>,
        Vec<Notification>,
    ))
        requires
            old(self).wf(),
            req.start_time.wf(),
            req.end_time.wf(),
        ensures
            final(self).wf(),
            book_outcome(
                *old(self),
                *final(self),
                req.model(),
                now_ms,
                r.0 is Ok,
                (match r.0 {
                    Ok(m) => m@,
                    Err(m) => m@,
                }),
                r.1@,
            ),
    {
        let fi = match self.find_facility(&req.facility_name) {
            Some(i) => i,
            None => {
                proof {
                    assert forall|i: int|
                        !(#[trigger] first_named(
                            self.facilities@,
                            req.facility_name@,
                            i,
                        )) by {
                        if first_named(self.facilities@, req.facility_name@, i) {
                            assert(has_named(self.facilities@, req.facility_name@)) by {
                                assert((#[trigger] self.facilities@[i]).name@
                                    == req.facility_name@);
                            }
                        }
                    }
                }
                return (Err("No such facility found".to_owned()), Vec::new());
            },
        };
        let booking_day = req.start_time.day;
        let fname = req.facility_name.clone();
        let new_booking = match Booking::new(req.start_time, req.end_time) {
            Ok(b) => b,
            Err(e) => {
                return (Err(e), Vec::new());
            },
        };
        let ghost fs0 = self.facilities@;
        let mut fac = self.facilities.remove(fi);
        let new_id = match fac.add_new_booking(new_booking) {
            Ok(id) => id,
            Err(e) => {
                self.facilities.insert(fi, fac);
                proof {
                    lemma_remove_insert(fs0, fi as int, fac);
                    assert(self.facilities@ =~= fs0.remove(fi as int).insert(fi as int, fac));
                    assert forall|i: int|
                        #[trigger] first_named(fs0, req.facility_name@, i) implies fs0[i].bookings@.len()
                        > 0 by {
                        lemma_first_named_unique(fs0, req.facility_name@, i, fi as int);
                    }
                }
                return (Err(e), Vec::new());
            },
        };
        let mut msg = String::from_str("Successfully added new booking with ID: ");
        let idt = new_id.to_text();
        msg.append(idt.as_str());
        self.facilities.insert(fi, fac);
        proof {
            lemma_remove_insert(fs0, fi as int, fac);
            assert(self.facilities@ =~= fs0.remove(fi as int).insert(fi as int, fac));
        }
        let notes = self.send_monitor_message(&fname, booking_day, now_ms);
        proof {
            assert(book_success(
                *old(self),
                *self,
                req.model(),
                now_ms,
                msg@,
                notes@,
                fi as int,
                new_id,
            ));
            assert forall|i: int|
                #[trigger] first_named(fs0, req.facility_name@, i) implies i == fi as int by {
                lemma_first_named_unique(fs0, req.facility_name@, i, fi as int);
            }
        }
        (Ok(msg), notes)
    }

    /// Shifts the booking wherever it is; rejects an unknown booking, a
    /// shift off its day and a shift into another booking, and then
    /// leaves every store's bookings as they were. On success the
    /// facility's subscribers are notified.
    pub fn handle_offset_request(&mut self, req: OffsetBookingRequest, now_ms: u64) -> (r: (
        Result<String, String>,
        Vec<Notification>,
    ))
        requires
            old(self).wf(),
            req.offset_hours.wf(),
            req.offset_min.wf(),
        ensures
            final(self).wf(),
            offset_outcome(
                *old(self),
                *final(self),
                req,
                now_ms,
                r.0 is Ok,
                (match r.0 {
                    Ok(m) => m@,
                    Err(m) => m@,
                }),
                r.1@,
            ),
    {
        let fi = match self.find_facility_with_id(&req.booking_id) {
            Some(i) => i,
            None => {
                let mut e = String::from_str("No booking ID ");
                let idt = req.booking_id.to_text();
                e.append(idt.as_str());
                e.append(" found in any facility");
                return (Err(e), Vec::new());
            },
        };
        let ghost fs0 = self.facilities@;
        let fname = self.facilities[fi].name.clone();
        let booking_day = match self.facilities[fi].get_booking_details(&req.booking_id) {
            Some(entry) => entry.1.start_time.day,
            None => {
                proof {
                    assert(false);
                }
                Day::Monday
            },
        };
        let mut fac = self.facilities.remove(fi);
        match fac.offset_booking(req.booking_id, req.offset_hours, req.offset_min, req.negative) {
            Ok(()) => {
                self.facilities.insert(fi, fac);
                proof {
                    lemma_remove_insert(fs0, fi as int, fac);
                    assert(self.facilities@ =~= fs0.remove(fi as int).insert(fi as int, fac));
                }
                let notes = self.send_monitor_message(&fname, booking_day, now_ms);
                let mut msg = String::from_str("Facility ");
                msg.append(fname.as_str());
                msg.append(" successfully offsetted");
                proof {
                    let j = choose|j: int|
                        0 <= j < fs0[fi as int].bookings@.len() && (
                        #[trigger] fs0[fi as int].bookings@[j]).0 == req.booking_id
                            && self.facilities@[fi as int].bookings@ == fs0[fi as int].bookings@.remove(j).push(
                            (
                                req.booking_id,
                                spec_offset_booking(
                                    fs0[fi as int].bookings@[j].1,
                                    req.offset_hours,
                                    req.offset_min,
                                    req.negative,
                                ),
                            ),
                        );
                    assert(fs0[fi as int].bookings@[j].1.start_time.day == booking_day) by {
                        let jj = choose|jj: int|
                            0 <= jj < fs0[fi as int].bookings@.len() && (
                            #[trigger] fs0[fi as int].bookings@[jj]).0 == req.booking_id && fs0[fi as int].bookings@[jj].1.start_time.day == booking_day;
                        assert(jj == j);
                    }
                    assert(offset_success(
                        *old(self),
                        *self,
                        req,
                        now_ms,
                        msg@,
                        notes@,
                        fi as int,
                        j,
                    ));
                    assert forall|i: int|
                        #[trigger] first_with_id(fs0, req.booking_id, i) implies i == fi as int by {
                        lemma_first_with_id_unique(fs0, req.booking_id, i, fi as int);
                    }
                }
                (Ok(msg), notes)
            },
            Err(e) => {
                self.facilities.insert(fi, fac);
                proof {
                    lemma_remove_insert(fs0, fi as int, fac);
                    assert(self.facilities@ =~= fs0.remove(fi as int).insert(fi as int, fac));
                    assert forall|i: int|
                        #[trigger] first_with_id(fs0, req.booking_id, i) implies i == fi as int by {
                        lemma_first_with_id_unique(fs0, req.booking_id, i, fi as int);
                    }
                }
                (Err(e), Vec::new())
            },
        }
    }

    /// Lengthens the booking wherever it is; rejects an unknown booking,
    /// an end past the day boundary and an overlap, and then leaves
    /// every store's bookings as they were. On success the facility's
    /// subscribers are notified.
    pub fn handle_extend_request(&mut self, req: ExtendBookingRequest, now_ms: u64) -> (r: (
        Result<String, String>,
        Vec<Notification>,
    ))
        requires
            old(self).wf(),
            req.extend_hours.wf(),
            req.extend_min.wf(),
        ensures
            final(self).wf(),
            extend_outcome(
                *old(self),
                *final(self),
                req,
                now_ms,
                r.0 is Ok,
                (match r.0 {
                    Ok(m) => m@,
                    Err(m) => m@,
                }),
                r.1@,
            ),
    {
        let fi = match self.find_facility_with_id(&req.booking_id) {
            Some(i) => i,
            None => {
                let mut e = String::from_str("No booking ID ");
                let idt = req.booking_id.to_text();
                e.append(idt.as_str());
                e.append(" found in any facility");
                return (Err(e), Vec::new());
            },
        };
        let ghost fs0 = self.facilities@;
        let fname = self.facilities[fi].name.clone();
        let booking_day = match self.facilities[fi].get_booking_details(&req.booking_id) {
            Some(entry) => entry.1.start_time.day,
            None => {
                proof {
                    assert(false);
                }
                Day::Monday
            },
        };
        let mut fac = self.facilities.remove(fi);
        match fac.extend_booking(req.booking_id, req.extend_hours, req.extend_min) {
            Ok(()) => {
                self.facilities.insert(fi, fac);
                proof {
                    lemma_remove_insert(fs0, fi as int, fac);
                    assert(self.facilities@ =~= fs0.remove(fi as int).insert(fi as int, fac));
                }
                let notes = self.send_monitor_message(&fname, booking_day, now_ms);
                let mut msg = String::from_str("Facility ");
                msg.append(fname.as_str());
                msg.append(" successfully offsetted");
                proof {
                    let j = choose|j: int|
                        0 <= j < fs0[fi as int].bookings@.len() && (
                        #[trigger] fs0[fi as int].bookings@[j]).0 == req.booking_id
                            && self.facilities@[fi as int].bookings@ == fs0[fi as int].bookings@.remove(j).push(
                            (
                                req.booking_id,
                                spec_extend_booking(
                                    fs0[fi as int].bookings@[j].1,
                                    req.extend_hours,
                                    req.extend_min,
                                ),
                            ),
                        );
                    assert(fs0[fi as int].bookings@[j].1.start_time.day == booking_day) by {
                        let jj = choose|jj: int|
                            0 <= jj < fs0[fi as int].bookings@.len() && (
                            #[trigger] fs0[fi as int].bookings@[jj]).0 == req.booking_id && fs0[fi as int].bookings@[jj].1.start_time.day == booking_day;
                        assert(jj == j);
                    }
                    assert(extend_success(
                        *old(self),
                        *self,
                        req,
                        now_ms,
                        msg@,
                        notes@,
                        fi as int,
                        j,
                    ));
                    assert forall|i: int|
                        #[trigger] first_with_id(fs0, req.booking_id, i) implies i == fi as int by {
                        lemma_first_with_id_unique(fs0, req.booking_id, i, fi as int);
                    }
                }
                (Ok(msg), notes)
            },
            Err(e) => {
                self.facilities.insert(fi, fac);
                proof {
                    lemma_remove_insert(fs0, fi as int, fac);
                    assert(self.facilities@ =~= fs0.remove(fi as int).insert(fi as int, fac));
                    assert forall|i: int|
                        #[trigger] first_with_id(fs0, req.booking_id, i) implies i == fi as int by {
                        lemma_first_with_id_unique(fs0, req.booking_id, i, fi as int);
                    }
                }
                (Err(e), Vec::new())
            },
        }
    }

    /// Cancels the booking wherever it is; rejects an unknown booking
    /// and then changes nothing. On success the facility's subscribers
    /// are notified.
    pub fn handle_cancel_request(&mut self, req: CancelBookingRequest, now_ms: u64) -> (r: (
        Result<String, String>,
        Vec<Notification>,
    ))
        requires
            old(self).wf(),
        ensures
            final(self).wf(),
            cancel_outcome(
                *old(self),
                *final(self),
                req,
                now_ms,
                r.0 is Ok,
                (match r.0 {
                    Ok(m) => m@,
                    Err(m) => m@,
                }),
                r.1@,
            ),
    {
        let fi = match self.find_facility_with_id(&req.booking_id) {
            Some(i) => i,
            None => {
                let mut e = String::from_str("No booking with ID ");
                let idt = req.booking_id.to_text();
                e.append(idt.as_str());
                e.append(" found");
                return (Err(e), Vec::new());
            },
        };
        let ghost fs0 = self.facilities@;
        let fname = self.facilities[fi].name.clone();
        let mut fac = self.facilities.remove(fi);
        let removed = match fac.remove_booking(req.booking_id) {
            Ok(b) => b,
            Err(e) => {
                proof {
                    assert(false);
                }
                self.facilities.insert(fi, fac);
                return (Err(e), Vec::new());
            },
        };
        let booking_day = removed.start_time.day;
        self.facilities.insert(fi, fac);
        proof {
            lemma_remove_insert(fs0, fi as int, fac);
            assert(self.facilities@ =~= fs0.remove(fi as int).insert(fi as int, fac));
        }
        let notes = self.send_monitor_message(&fname, booking_day, now_ms);
        let mut msg = String::from_str("Booking ");
        let idt = req.booking_id.to_text();
        msg.append(idt.as_str());
        msg.append(" successfully cancelled");
        proof {
            let j = choose|j: int|
                0 <= j < fs0[fi as int].bookings@.len() && #[trigger] fs0[fi as int].bookings@[j]
                    == (req.booking_id, removed) && self.facilities@[fi as int].bookings@ == fs0[fi as int].bookings@.remove(j);
            assert(cancel_success(*old(self), *self, req, now_ms, msg@, notes@, fi as int, j));
        }
        (Ok(msg), notes)
    }

    /// Registers the caller to monitor the facility for the given number
    /// of seconds; rejects an unknown facility and then changes nothing.
    pub fn handle_monitor_request(
        &mut self,
        req: MonitorFacilityRequest,
        source_addr: &str,
        now_ms: u64,
    ) -> (r: Result<String, String>)
        requires
            old(self).wf(),
        ensures
            final(self).wf(),
            monitor_outcome(
                *old(self),
                *final(self),
                req.model(),
                source_addr@,
                now_ms,
                r is Ok,
                (match r {
                    Ok(m) => m@,
                    Err(m) => m@,
                }),
                Seq::empty(),
            ),
    {
        if self.find_facility(&req.facility_name).is_none() {
            let mut e = String::from_str("No facility ");
            e.append(req.facility_name.as_str());
            e.append(" found");
            return Err(e);
        }
        let add_ms: u64 = (req.seconds_to_monitor as u64) * 1000;
        let expiry: u64 = if now_ms > u64::MAX - add_ms {
            u64::MAX
        } else {
            now_ms + add_ms
        };
        let ghost subs0 = self.monitoring_addresses@;
        let entry = MonitorEntry {
            addr: source_addr.to_owned(),
            facility_name: req.facility_name.clone(),
            expires_at_ms: expiry,
        };
        self.monitoring_addresses.push(entry);
        let mut msg = String::from_str("Successfully registered ");
        msg.append(source_addr);
        msg.append(" for monitoring facility ");
        msg.append(req.facility_name.as_str());
        proof {
            assert(self.monitoring_addresses@.take(subs0.len() as int) =~= subs0);
            assert(msg@ =~= "Successfully registered "@ + source_addr@
                + " for monitoring facility "@ + req.facility_name@);
        }
        Ok(msg)
    }

    /// Handles one decoded request at `now`: dispatches it, and returns
    /// the response carrying the request's identifier together with the
    /// notifications owed to monitoring subscribers.
    pub fn handle_message(&mut self, req: RawRequest, source_addr: &str, now_ms: u64) -> (r: (
        RawResponse,
        Vec<Notification>,
    ))
        requires
            old(self).wf(),
            RawRequest::spec_wf(req.model()),
        ensures
            final(self).wf(),
            r.0.request_id == req.request_id,
            dispatch_outcome(
                *old(self),
                *final(self),
                req,
                source_addr@,
                now_ms,
                !r.0.is_error,
                r.0.message@,
                r.1@,
            ),
    {
        let request_id = req.request_id;
        let (result, notes): (Result<String, String>, Vec<Notification>) = match req.request_type {
            RequestType::Availability(q) => (self.handle_availability_request(q), Vec::new()),
            RequestType::Book(q) => self.handle_booking_request(q, now_ms),
            RequestType::Offset(q) => self.handle_offset_request(q, now_ms),
            RequestType::Monitor(q) => (
                self.handle_monitor_request(q, source_addr, now_ms),
                Vec::new(),
            ),
            RequestType::Cancel(q) => self.handle_cancel_request(q, now_ms),
            RequestType::Extend(q) => self.handle_extend_request(q, now_ms),
        };
        let response = match result {
            Ok(message) => RawResponse { request_id, is_error: false, message },
            Err(err) => RawResponse { request_id, is_error: true, message: err },
        };
        (response, notes)
    }
}

} // verus!