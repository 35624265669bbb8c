use facility_booking::codec::Byteable;
use facility_booking::ids::Uuid;
use facility_booking::requests::{
    AvailabilityRequest, BookRequest, CancelBookingRequest, ExtendBookingRequest,
    MonitorFacilityRequest, OffsetBookingRequest, RawRequest, RequestType,
};
use facility_booking::responses::RawResponse;
use facility_booking::time::{Day, Hour, Minute, Time};

fn t(day: Day, h: u8, m: u8) -> Time {
    Time { day, hour: Hour(h), minute: Minute(m) }
}

#[test]
fn u16_encodes_little_endian() {
    let bytes = 0x1234u16.to_bytes();
    assert_eq!(bytes, vec![0x34, 0x12]);
    let mut buf = bytes;
    assert_eq!(u16::from_bytes(&mut buf).unwrap(), 0x1234);
    assert!(buf.is_empty());
}

#[test]
fn bool_decodes_any_nonzero_as_true() {
    let mut buf = vec![7u8];
    assert_eq!(bool::from_bytes(&mut buf).unwrap(), true);
    let mut buf = vec![0u8];
    assert_eq!(bool::from_bytes(&mut buf).unwrap(), false);
    let mut empty: Vec<u8> = Vec::new();
    assert!(bool::from_bytes(&mut empty).is_err());
}

#[test]
fn string_encoding_has_length_prefix() {
    let s = String::from("AB");
    let bytes = s.to_bytes();
    assert_eq!(bytes, vec![2, 0, 65, 66]);
    let mut buf = bytes;
    assert_eq!(String::from_bytes(&mut buf).unwrap(), "AB");
}

#[test]
fn string_round_trip_keeps_unicode() {
    let s = String::from("zimmer \u{00e9}\u{20ac}");
    let mut buf = s.clone().to_bytes();
    assert_eq!(String::from_bytes(&mut buf).unwrap(), s);
    assert!(buf.is_empty());
}

#[test]
fn string_decode_rejects_invalid_utf8() {
    let mut buf = vec![1, 0, 0xFF];
    assert!(String::from_bytes(&mut buf).is_err());
}

#[test]
fn uuid_round_trip_is_sixteen_bytes() {
    let id = Uuid { v: 0x0123456789abcdef0123456789abcdef };
    let bytes = id.to_bytes();
    assert_eq!(bytes.len(), 16);
    let mut buf = bytes;
    assert_eq!(Uuid::from_bytes(&mut buf).unwrap(), id);
    let mut short = vec![0u8; 15];
    assert!(Uuid::from_bytes(&mut short).is_err());
}

#[test]
fn time_encodes_as_three_ordinals() {
    let bytes = t(Day::Monday, 9, 0).to_bytes();
    assert_eq!(bytes, vec![0, 9, 0]);
    let mut buf = bytes;
    assert_eq!(Time::from_bytes(&mut buf).unwrap(), t(Day::Monday, 9, 0));
}

#[test]
fn time_decode_rejects_out_of_range_fields() {
    let mut bad_day = vec![7u8, 0, 0];
    assert!(Time::from_bytes(&mut bad_day).is_err());
    let mut bad_hour = vec![0u8, 24, 0];
    assert!(Time::from_bytes(&mut bad_hour).is_err());
    let mut bad_minute = vec![0u8, 0, 60];
    assert!(Time::from_bytes(&mut bad_minute).is_err());
}

#[test]
fn day_list_round_trip() {
    let days = vec![Day::Monday, Day::Friday, Day::Sunday];
    let mut buf = days.clone().to_bytes();
    assert_eq!(Vec::<Day>::from_bytes(&mut buf).unwrap(), days);
}

#[test]
fn request_round_trip_every_variant() {
    let variants: Vec<RequestType> = vec![
        RequestType::Availability(AvailabilityRequest {
            facility_name: String::from("MR1"),
            days: vec![Day::Monday, Day::Tuesday],
        }),
        RequestType::Book(BookRequest {
            facility_name: String::from("MR2"),
            start_time: t(Day::Monday, 9, 0),
            end_time: t(Day::Monday, 10, 0),
        }),
        RequestType::Offset(OffsetBookingRequest {
            booking_id: Uuid { v: 42 },
            offset_hours: Hour(2),
            offset_min: Minute(30),
            negative: true,
        }),
        RequestType::Monitor(MonitorFacilityRequest {
            facility_name: String::from("MR3"),
            seconds_to_monitor: 5,
        }),
        RequestType::Cancel(CancelBookingRequest { booking_id: Uuid { v: 7 } }),
        RequestType::Extend(ExtendBookingRequest {
            booking_id: Uuid { v: 9 },
            extend_hours: Hour(0),
            extend_min: Minute(30),
        }),
    ];
    for (n, request_type) in variants.into_iter().enumerate() {
        let req = RawRequest { request_id: Uuid { v: n as u128 }, request_type };
        let mut buf = req.clone().to_bytes();
        let back = RawRequest::from_bytes(&mut buf).unwrap();
        assert!(buf.is_empty());
        assert_eq!(back.request_id, req.request_id);
        let again = back.to_bytes();
        assert_eq!(again, req.to_bytes());
    }
}

#[test]
fn request_decode_ignores_trailing_bytes() {
    let req = RawRequest {
        request_id: Uuid { v: 3 },
        request_type: RequestType::Cancel(CancelBookingRequest { booking_id: Uuid { v: 8 } }),
    };
    let mut buf = req.clone().to_bytes();
    buf.extend(vec![0u8; 40]);
    let back = RawRequest::from_bytes(&mut buf).unwrap();
    assert_eq!(back.request_id, req.request_id);
    assert_eq!(buf.len(), 40);
}

#[test]
fn request_decode_rejects_unknown_discriminant() {
    let mut buf = Uuid { v: 1 }.to_bytes();
    buf.push(6);
    assert!(RawRequest::from_bytes(&mut buf).is_err());
}

#[test]
fn response_round_trip() {
    let resp = RawResponse {
        request_id: Uuid { v: 11 },
        is_error: true,
        message: String::from("no such facility"),
    };
    let mut buf = resp.clone().to_bytes();
    let back = RawResponse::from_bytes(&mut buf).unwrap();
    assert!(buf.is_empty());
    assert_eq!(back.request_id, resp.request_id);
    assert_eq!(back.is_error, resp.is_error);
    assert_eq!(back.message, resp.message);
}

#[test]
fn response_decode_rejects_truncation() {
    let resp = RawResponse {
        request_id: Uuid { v: 11 },
        is_error: false,
        message: String::from("done"),
    };
    let bytes = resp.to_bytes();
    for cut in [0, 10, 16, 17, 18, bytes.len() - 1] {
        let mut buf = bytes[..cut].to_vec();
        assert!(RawResponse::from_bytes(&mut buf).is_err());
    }
}

#[test]
fn uuid_text_is_hyphenated_hex() {
    assert_eq!(Uuid { v: 0 }.to_text(), "00000000-0000-0000-0000-000000000000");
    assert_eq!(
        Uuid { v: 0x0123456789abcdef0123456789abcdef }.to_text(),
        "01234567-89ab-cdef-0123-456789abcdef"
    );
}

#[test]
fn request_discriminants_are_fixed() {
    let cases: Vec<(u8, RequestType)> = vec![
        (0, RequestType::Availability(AvailabilityRequest {
            facility_name: String::from("MR1"),
            days: vec![],
        })),
        (1, RequestType::Book(BookRequest {
            facility_name: String::from("MR1"),
            start_time: t(Day::Monday, 9, 0),
            end_time: t(Day::Monday, 10, 0),
        })),
        (2, RequestType::Offset(OffsetBookingRequest {
            booking_id: Uuid { v: 1 },
            offset_hours: Hour(1),
            offset_min: Minute(0),
            negative: false,
        })),
        (3, RequestType::Monitor(MonitorFacilityRequest {
            facility_name: String::from("MR1"),
            seconds_to_monitor: 1,
        })),
        (4, RequestType::Cancel(CancelBookingRequest { booking_id: Uuid { v: 1 } })),
        (5, RequestType::Extend(ExtendBookingRequest {
            booking_id: Uuid { v: 1 },
            extend_hours: Hour(1),
            extend_min: Minute(0),
        })),
    ];
    for (disc, request_type) in cases {
        let bytes = request_type.to_bytes();
        assert_eq!(bytes[0], disc);
    }
}

#[test]
fn failed_decodes_leave_the_buffer_unchanged() {
    // invalid UTF-8 behind a valid length prefix
    let mut buf = vec![2u8, 0, 0xFF, 0xFE];
    let before = buf.clone();
    assert!(String::from_bytes(&mut buf).is_err());
    assert_eq!(buf, before);

    // unknown discriminant behind a valid identifier
    let mut buf = Uuid { v: 1 }.to_bytes();
    buf.push(6);
    let before = buf.clone();
    assert!(RawRequest::from_bytes(&mut buf).is_err());
    assert_eq!(buf, before);

    // response truncated in the middle of the message
    let resp = RawResponse {
        request_id: Uuid { v: 11 },
        is_error: false,
        message: String::from("done"),
    };
    let bytes = resp.to_bytes();
    let mut buf = bytes[..bytes.len() - 1].to_vec();
    let before = buf.clone();
    assert!(RawResponse::from_bytes(&mut buf).is_err());
    assert_eq!(buf, before);

    // booking request whose second time is out of range
    let good = RawRequest {
        request_id: Uuid { v: 2 },
        request_type: RequestType::Book(BookRequest {
            facility_name: String::from("MR1"),
            start_time: t(Day::Monday, 9, 0),
            end_time: t(Day::Monday, 10, 0),
        }),
    };
    let mut buf = good.to_bytes();
    let last = buf.len() - 1;
    buf[last] = 60;
    let before = buf.clone();
    assert!(RawRequest::from_bytes(&mut buf).is_err());
    assert_eq!(buf, before);
}
