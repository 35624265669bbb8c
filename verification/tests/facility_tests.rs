use facility_booking::facilities::{Booking, Facility};
use facility_booking::time::{Day, Hour, Minute, Time};

fn t(day: Day, h: u8, m: u8) -> Time {
    Time { day, hour: Hour(h), minute: Minute(m) }
}

fn booking(day: Day, h1: u8, m1: u8, h2: u8, m2: u8) -> Booking {
    Booking::new(t(day, h1, m1), t(day, h2, m2)).unwrap()
}

#[test]
fn booking_rejects_reversed_and_cross_day_intervals() {
    assert!(Booking::new(t(Day::Monday, 10, 0), t(Day::Monday, 9, 0)).is_err());
    assert!(Booking::new(t(Day::Monday, 9, 0), t(Day::Monday, 9, 0)).is_err());
    assert!(Booking::new(t(Day::Monday, 9, 0), t(Day::Tuesday, 10, 0)).is_err());
    assert!(Booking::new(t(Day::Monday, 9, 0), t(Day::Monday, 10, 0)).is_ok());
}

#[test]
fn overlap_is_closed_at_the_ends() {
    let a = booking(Day::Monday, 9, 0, 10, 0);
    let b = booking(Day::Monday, 10, 0, 11, 0);
    let c = booking(Day::Monday, 10, 1, 11, 0);
    assert!(a.overlaps(&b));
    assert!(!a.overlaps(&c));
    assert!(!a.overlaps(&booking(Day::Tuesday, 9, 0, 10, 0)));
}

#[test]
fn overlapping_booking_is_rejected() {
    let mut f = Facility::new(String::from("MR1"));
    f.add_new_booking(booking(Day::Monday, 9, 0, 10, 0)).unwrap();
    assert!(f.add_new_booking(booking(Day::Monday, 9, 30, 10, 30)).is_err());
    assert_eq!(f.bookings.len(), 1);
}

#[test]
fn availability_lists_the_free_gaps() {
    let mut f = Facility::new(String::from("MR1"));
    f.add_new_booking(booking(Day::Monday, 9, 0, 10, 0)).unwrap();
    assert_eq!(
        f.get_availabilities(Day::Monday),
        "1. Mon, 00:00 - 09:00\n2. Mon, 10:00 - 23:59"
    );
    assert_eq!(f.get_availabilities(Day::Tuesday), "1. Tue, 00:00 - 23:59");
}

#[test]
fn availability_sorts_bookings_by_start() {
    let mut f = Facility::new(String::from("MR1"));
    f.add_new_booking(booking(Day::Monday, 14, 0, 15, 0)).unwrap();
    f.add_new_booking(booking(Day::Monday, 9, 0, 10, 0)).unwrap();
    assert_eq!(
        f.get_availabilities(Day::Monday),
        "1. Mon, 00:00 - 09:00\n2. Mon, 10:00 - 14:00\n3. Mon, 15:00 - 23:59"
    );
}

#[test]
fn offset_moves_the_booking_and_checks_the_day() {
    let mut f = Facility::new(String::from("MR1"));
    let id = f.add_new_booking(booking(Day::Monday, 9, 0, 10, 0)).unwrap();
    f.offset_booking(id, Hour(2), Minute(0), false).unwrap();
    assert_eq!(
        f.get_availabilities(Day::Monday),
        "1. Mon, 00:00 - 11:00\n2. Mon, 12:00 - 23:59"
    );
    assert!(f.offset_booking(id, Hour(20), Minute(0), false).is_err());
    let entry = f.get_booking_details(&id).unwrap();
    assert_eq!(entry.1.start_time, t(Day::Monday, 11, 0));
    assert_eq!(entry.1.end_time, t(Day::Monday, 12, 0));
}

#[test]
fn offset_rejects_a_shift_into_another_booking() {
    let mut f = Facility::new(String::from("MR1"));
    let id = f.add_new_booking(booking(Day::Monday, 9, 0, 10, 0)).unwrap();
    f.add_new_booking(booking(Day::Monday, 11, 0, 12, 0)).unwrap();
    assert!(f.offset_booking(id, Hour(2), Minute(0), false).is_err());
    let entry = f.get_booking_details(&id).unwrap();
    assert_eq!(entry.1.start_time, t(Day::Monday, 9, 0));
    assert_eq!(f.bookings.len(), 2);
}

#[test]
fn extend_lengthens_the_end_and_checks_the_day() {
    let mut f = Facility::new(String::from("MR1"));
    let id = f.add_new_booking(booking(Day::Monday, 9, 0, 10, 0)).unwrap();
    f.extend_booking(id, Hour(0), Minute(30)).unwrap();
    let entry = f.get_booking_details(&id).unwrap();
    assert_eq!(entry.1.start_time, t(Day::Monday, 9, 0));
    assert_eq!(entry.1.end_time, t(Day::Monday, 10, 30));
    assert!(f.extend_booking(id, Hour(14), Minute(0)).is_err());
    let entry = f.get_booking_details(&id).unwrap();
    assert_eq!(entry.1.end_time, t(Day::Monday, 10, 30));
}

#[test]
fn remove_booking_deletes_exactly_one() {
    let mut f = Facility::new(String::from("MR1"));
    let id = f.add_new_booking(booking(Day::Monday, 9, 0, 10, 0)).unwrap();
    let removed = f.remove_booking(id).unwrap();
    assert_eq!(removed.start_time, t(Day::Monday, 9, 0));
    assert!(f.remove_booking(id).is_err());
    assert!(f.get_booking_details(&id).is_none());
}

#[test]
fn add_booking_with_id_rejects_a_used_identifier() {
    let mut f = Facility::new(String::from("MR1"));
    let id = facility_booking::ids::Uuid { v: 5 };
    f.add_booking_with_id(id, booking(Day::Monday, 9, 0, 10, 0)).unwrap();
    assert!(f.add_booking_with_id(id, booking(Day::Tuesday, 9, 0, 10, 0)).is_err());
}

#[test]
fn a_whole_day_booking_leaves_only_the_last_minute() {
    let mut f = Facility::new(String::from("MR1"));
    f.add_new_booking(booking(Day::Monday, 0, 0, 23, 59)).unwrap();
    assert_eq!(f.get_availabilities(Day::Monday), "1. Mon, 23:59 - 23:59");
}

#[test]
fn booking_an_empty_store_succeeds() {
    let mut f = Facility::new(String::from("MR1"));
    let r = f.add_new_booking(booking(Day::Monday, 9, 0, 10, 0));
    assert!(r.is_ok());
    assert_eq!(f.bookings.len(), 1);
}
