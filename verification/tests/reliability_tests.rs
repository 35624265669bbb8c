use facility_booking::duplicates::DuplicatesCache;
use facility_booking::handler::Handler;
use facility_booking::ids::Uuid;
use facility_booking::log::Log;
use facility_booking::requests::{BookRequest, RawRequest, RequestType};
use facility_booking::retry::{SendAction, SendEvent, SendState};
use facility_booking::server::{Server, ServerStep};
use facility_booking::time::{Day, Hour, Minute, Time};

fn t(day: Day, h: u8, m: u8) -> Time {
    Time { day, hour: Hour(h), minute: Minute(m) }
}

fn book_req(id: u128, start: Time, end: Time) -> RawRequest {
    RawRequest {
        request_id: Uuid { v: id },
        request_type: RequestType::Book(BookRequest {
            facility_name: String::from("MR1"),
            start_time: start,
            end_time: end,
        }),
    }
}

fn bookings_total(h: &Handler) -> usize {
    h.facilities.iter().map(|f| f.bookings.len()).sum()
}

#[test]
fn replay_returns_the_logged_bytes_and_changes_nothing() {
    let mut server = Server::new(true);
    let req = book_req(77, t(Day::Monday, 9, 0), t(Day::Monday, 10, 0));
    let resp = match server.process_datagram(req.clone(), "c", 0) {
        ServerStep::Deliver(resp, _) => resp,
        ServerStep::Replay(_) => panic!("a fresh request must be dispatched"),
    };
    assert!(!resp.is_error);
    let bytes = server.log_response(&resp).unwrap();
    assert_eq!(bookings_total(&server.handler), 1);

    let replayed = match server.process_datagram(req.clone(), "c", 1) {
        ServerStep::Replay(b) => b,
        ServerStep::Deliver(_, _) => panic!("a logged request must be replayed"),
    };
    assert_eq!(replayed, bytes);
    assert_eq!(bookings_total(&server.handler), 1);
}

#[test]
fn without_reliability_nothing_is_replayed() {
    let mut server = Server::new(false);
    let req = book_req(77, t(Day::Monday, 9, 0), t(Day::Monday, 10, 0));
    let resp = match server.process_datagram(req.clone(), "c", 0) {
        ServerStep::Deliver(resp, _) => resp,
        ServerStep::Replay(_) => panic!(),
    };
    server.log_response(&resp).unwrap();
    match server.process_datagram(req.clone(), "c", 1) {
        ServerStep::Deliver(resp2, _) => assert!(resp2.is_error),
        ServerStep::Replay(_) => panic!("replay needs reliability"),
    }
    assert_eq!(bookings_total(&server.handler), 1);
}

#[test]
fn lossy_exchange_settles_on_one_booking() {
    let mut server = Server::new(true);
    let req = book_req(5, t(Day::Monday, 9, 0), t(Day::Monday, 10, 0));
    let mut st = SendState::new(req.request_id);

    // First transmission: the server drops the datagram, the receive
    // times out, and the client backs off and retransmits.
    assert!(matches!(st.step(SendEvent::Rolled(false)), SendAction::Receive));
    match st.step(SendEvent::TimedOut) {
        SendAction::Backoff(ms) => assert_eq!(ms, 500),
        _ => panic!("a timeout within the budget must back off"),
    }

    // Second transmission: the duplicate roll skips the receive, so the
    // datagram goes out twice.
    assert!(matches!(st.step(SendEvent::Rolled(true)), SendAction::Transmit));

    // The server sees both copies: one is dispatched, one is replayed.
    let resp = match server.process_datagram(req.clone(), "c", 0) {
        ServerStep::Deliver(resp, _) => resp,
        ServerStep::Replay(_) => panic!(),
    };
    let bytes = server.log_response(&resp).unwrap();
    match server.process_datagram(req.clone(), "c", 1) {
        ServerStep::Replay(b) => assert_eq!(b, bytes),
        ServerStep::Deliver(_, _) => panic!(),
    }

    // The client receives the response and finishes successfully.
    assert!(matches!(st.step(SendEvent::Rolled(false)), SendAction::Receive));
    match st.step(SendEvent::Got(resp)) {
        SendAction::Finish(Ok(r)) => assert!(!r.is_error),
        _ => panic!("the matching response must finish the exchange"),
    }
    assert_eq!(bookings_total(&server.handler), 1);
}

#[test]
fn retry_budget_ends_in_a_timeout_error() {
    let mut st = SendState::new(Uuid { v: 9 });
    for k in 0..9u64 {
        assert!(matches!(st.step(SendEvent::Rolled(false)), SendAction::Receive));
        match st.step(SendEvent::TimedOut) {
            SendAction::Backoff(ms) => assert_eq!(ms, 500 * (k + 1)),
            _ => panic!("expected a backoff"),
        }
    }
    assert!(matches!(st.step(SendEvent::Rolled(false)), SendAction::Receive));
    match st.step(SendEvent::TimedOut) {
        SendAction::Finish(Err(_)) => {},
        _ => panic!("the spent budget must end the exchange"),
    }
}

#[test]
fn mismatched_responses_are_discarded() {
    let mut st = SendState::new(Uuid { v: 9 });
    assert!(matches!(st.step(SendEvent::Rolled(false)), SendAction::Receive));
    let stray = facility_booking::responses::RawResponse {
        request_id: Uuid { v: 10 },
        is_error: false,
        message: String::from("for someone else"),
    };
    assert!(matches!(st.step(SendEvent::Got(stray)), SendAction::Receive));
    let mine = facility_booking::responses::RawResponse {
        request_id: Uuid { v: 9 },
        is_error: false,
        message: String::from("for this exchange"),
    };
    match st.step(SendEvent::Got(mine)) {
        SendAction::Finish(Ok(r)) => assert_eq!(r.message, "for this exchange"),
        _ => panic!(),
    }
}

#[test]
fn receive_failure_aborts_the_exchange() {
    let mut st = SendState::new(Uuid { v: 9 });
    assert!(matches!(st.step(SendEvent::Rolled(false)), SendAction::Receive));
    match st.step(SendEvent::Failed(String::from("socket closed"))) {
        SendAction::Finish(Err(e)) => assert_eq!(e, "socket closed"),
        _ => panic!(),
    }
}

#[test]
fn log_evicts_the_oldest_entry_at_capacity() {
    let mut log = Log::new();
    for n in 0..51u128 {
        log.insert(&Uuid { v: n }, &vec![n as u8]);
    }
    assert!(log.check(&Uuid { v: 0 }).is_none());
    assert_eq!(log.check(&Uuid { v: 1 }).unwrap(), &vec![1u8]);
    assert_eq!(log.check(&Uuid { v: 50 }).unwrap(), &vec![50u8]);
    assert_eq!(log.log.len(), 50);
}

#[test]
fn duplicates_cache_keeps_only_the_latest_exchange_per_peer() {
    let mut cache = DuplicatesCache::new();
    let peer = String::from("10.0.0.5:9000");
    cache.insert_entry(&peer, &Uuid { v: 1 }, &vec![1]);
    assert_eq!(cache.check(&peer, &Uuid { v: 1 }), Some(vec![1]));
    assert_eq!(cache.check(&peer, &Uuid { v: 2 }), None);
    assert_eq!(cache.check(&String::from("other"), &Uuid { v: 1 }), None);
    cache.insert_entry(&peer, &Uuid { v: 2 }, &vec![2]);
    assert_eq!(cache.check(&peer, &Uuid { v: 1 }), None);
    assert_eq!(cache.check(&peer, &Uuid { v: 2 }), Some(vec![2]));
    assert_eq!(cache.entries.len(), 1);
}
