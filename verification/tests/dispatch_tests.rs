use facility_booking::handler::Handler;
use facility_booking::ids::Uuid;
use facility_booking::requests::{
    AvailabilityRequest, BookRequest, CancelBookingRequest, MonitorFacilityRequest, RawRequest,
    RequestType,
};
use facility_booking::time::{Day, Hour, Minute, Time};

fn t(day: Day, h: u8, m: u8) -> Time {
    Time { day, hour: Hour(h), minute: Minute(m) }
}

fn book_req(id: u128, facility: &str, start: Time, end: Time) -> RawRequest {
    RawRequest {
        request_id: Uuid { v: id },
        request_type: RequestType::Book(BookRequest {
            facility_name: String::from(facility),
            start_time: start,
            end_time: end,
        }),
    }
}

fn avail_req(id: u128, facility: &str, days: Vec<Day>) -> RawRequest {
    RawRequest {
        request_id: Uuid { v: id },
        request_type: RequestType::Availability(AvailabilityRequest {
            facility_name: String::from(facility),
            days,
        }),
    }
}

#[test]
fn booking_then_availability_shows_two_gaps() {
    let mut h = Handler::new();
    let (resp, _) = h.handle_message(
        book_req(1, "MR1", t(Day::Monday, 9, 0), t(Day::Monday, 10, 0)),
        "127.0.0.1:40001",
        0,
    );
    assert!(!resp.is_error);
    assert!(resp.message.starts_with("Successfully added new booking with ID: "));

    let (overlap, _) = h.handle_message(
        book_req(2, "MR1", t(Day::Monday, 9, 30), t(Day::Monday, 10, 30)),
        "127.0.0.1:40001",
        0,
    );
    assert!(overlap.is_error);

    let (avail, notes) = h.handle_message(
        avail_req(3, "MR1", vec![Day::Monday]),
        "127.0.0.1:40001",
        0,
    );
    assert!(!avail.is_error);
    assert!(notes.is_empty());
    assert_eq!(
        avail.message,
        "-----\n 1. Mon, 00:00 - 09:00\n2. Mon, 10:00 - 23:59\n -----\n"
    );
}

#[test]
fn availability_takes_each_day_once_in_order() {
    let mut h = Handler::new();
    let (avail, _) = h.handle_message(
        avail_req(1, "MR2", vec![Day::Friday, Day::Monday, Day::Friday]),
        "127.0.0.1:40001",
        0,
    );
    assert!(!avail.is_error);
    assert_eq!(
        avail.message,
        "-----\n 1. Mon, 00:00 - 23:59\n -----\n-----\n 1. Fri, 00:00 - 23:59\n -----\n"
    );
}

#[test]
fn unknown_facility_is_an_error() {
    let mut h = Handler::new();
    let (resp, notes) = h.handle_message(
        book_req(1, "MR9", t(Day::Monday, 9, 0), t(Day::Monday, 10, 0)),
        "127.0.0.1:40001",
        0,
    );
    assert!(resp.is_error);
    assert!(notes.is_empty());
    let (resp2, _) = h.handle_message(avail_req(2, "MR9", vec![Day::Monday]), "c", 0);
    assert!(resp2.is_error);
}

#[test]
fn invalid_interval_is_an_error() {
    let mut h = Handler::new();
    let (resp, _) = h.handle_message(
        book_req(1, "MR1", t(Day::Monday, 10, 0), t(Day::Monday, 9, 0)),
        "c",
        0,
    );
    assert!(resp.is_error);
    let (resp2, _) = h.handle_message(
        book_req(2, "MR1", t(Day::Monday, 23, 0), t(Day::Tuesday, 1, 0)),
        "c",
        0,
    );
    assert!(resp2.is_error);
}

#[test]
fn monitor_pushes_updates_until_expiry() {
    let mut h = Handler::new();
    let mon = RawRequest {
        request_id: Uuid { v: 1 },
        request_type: RequestType::Monitor(MonitorFacilityRequest {
            facility_name: String::from("MR1"),
            seconds_to_monitor: 5,
        }),
    };
    let (resp, notes) = h.handle_message(mon, "10.0.0.5:9000", 1_000);
    assert!(!resp.is_error);
    assert!(resp.message.contains("10.0.0.5:9000"));
    assert!(notes.is_empty());

    let (resp2, notes2) = h.handle_message(
        book_req(2, "MR1", t(Day::Monday, 14, 0), t(Day::Monday, 15, 0)),
        "10.0.0.6:9001",
        2_000,
    );
    assert!(!resp2.is_error);
    assert_eq!(notes2.len(), 1);
    assert_eq!(notes2[0].addr, "10.0.0.5:9000");
    assert!(!notes2[0].response.is_error);
    assert!(notes2[0].response.message.contains("A booking was updated on Mon"));
    assert!(notes2[0].response.message.contains("1. Mon, 00:00 - 14:00"));

    let (resp3, notes3) = h.handle_message(
        book_req(3, "MR1", t(Day::Tuesday, 14, 0), t(Day::Tuesday, 15, 0)),
        "10.0.0.6:9001",
        7_000,
    );
    assert!(!resp3.is_error);
    assert!(notes3.is_empty());
}

#[test]
fn monitor_only_notifies_its_own_facility() {
    let mut h = Handler::new();
    let mon = RawRequest {
        request_id: Uuid { v: 1 },
        request_type: RequestType::Monitor(MonitorFacilityRequest {
            facility_name: String::from("MR2"),
            seconds_to_monitor: 60,
        }),
    };
    h.handle_message(mon, "10.0.0.5:9000", 0);
    let (_, notes) = h.handle_message(
        book_req(2, "MR1", t(Day::Monday, 9, 0), t(Day::Monday, 10, 0)),
        "c",
        100,
    );
    assert!(notes.is_empty());
}

#[test]
fn cancel_frees_the_whole_day() {
    let mut h = Handler::new();
    let id = {
        let fac = &mut h.facilities[0];
        fac.add_new_booking(
            facility_booking::facilities::Booking::new(
                t(Day::Monday, 9, 0),
                t(Day::Monday, 10, 0),
            )
            .unwrap(),
        )
        .unwrap()
    };
    let cancel = RawRequest {
        request_id: Uuid { v: 4 },
        request_type: RequestType::Cancel(CancelBookingRequest { booking_id: id }),
    };
    let (resp, _) = h.handle_message(cancel, "c", 0);
    assert!(!resp.is_error);
    assert!(resp.message.ends_with(" successfully cancelled"));
    assert_eq!(h.facilities[0].bookings.len(), 0);
    let cancel2 = RawRequest {
        request_id: Uuid { v: 5 },
        request_type: RequestType::Cancel(CancelBookingRequest { booking_id: id }),
    };
    let (resp2, _) = h.handle_message(cancel2, "c", 0);
    assert!(resp2.is_error);
}
