use facility_booking::time::{Day, Hour, Minute, Time};

fn t(day: Day, h: u8, m: u8) -> Time {
    Time { day, hour: Hour(h), minute: Minute(m) }
}

#[test]
fn hour_and_minute_reject_out_of_range() {
    assert!(Hour::new(23).is_ok());
    assert!(Hour::new(24).is_err());
    assert!(Minute::new(59).is_ok());
    assert!(Minute::new(60).is_err());
}

#[test]
fn day_ordinals_round_trip() {
    for o in 0u8..7 {
        let d = Day::from_u8(o).unwrap();
        assert_eq!(d.to_u8(), o);
    }
    assert!(Day::from_u8(7).is_err());
}

#[test]
fn offset_forwards_within_day() {
    let mut x = t(Day::Monday, 9, 45);
    x.offset(Hour(0), Minute(30), false);
    assert_eq!(x, t(Day::Monday, 10, 15));
}

#[test]
fn offset_backwards_borrows_hour() {
    let mut x = t(Day::Monday, 1, 10);
    x.offset(Hour(0), Minute(30), true);
    assert_eq!(x, t(Day::Monday, 0, 40));
}

#[test]
fn offset_wraps_sunday_to_monday() {
    let mut x = t(Day::Sunday, 23, 45);
    x.offset(Hour(0), Minute(30), false);
    assert_eq!(x, t(Day::Monday, 0, 15));
}

#[test]
fn offset_wraps_monday_to_sunday() {
    let mut x = t(Day::Monday, 0, 30);
    x.offset(Hour(1), Minute(0), true);
    assert_eq!(x, t(Day::Sunday, 23, 30));
}

#[test]
fn offset_carries_days_forwards() {
    let mut x = t(Day::Tuesday, 20, 0);
    x.offset(Hour(6), Minute(0), false);
    assert_eq!(x, t(Day::Wednesday, 2, 0));
}

#[test]
fn time_text_pads_to_two_digits() {
    assert_eq!(t(Day::Monday, 9, 5).to_text(), "Mon, 09:05");
    assert_eq!(t(Day::Saturday, 23, 59).to_text(), "Sat, 23:59");
}
