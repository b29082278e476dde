use nettu_scheduler::booking::{
    contains_id, create_booking_intent, handle_booking_request, hosts_for_request, is_slot_instant,
    request_window, restrict_hosts, BookingAttempt, BookingRequest,
};
use nettu_scheduler::calendar_view::InvalidTimespanError;
use nettu_scheduler::booking_slots::{BookingSlotsOptions, UserFreeEvents};
use nettu_scheduler::interval::Interval;
use nettu_scheduler::reservation::{ReservationBook, ReservationState};
use nettu_scheduler::round_robin::{NoHostAvailableError, RoundRobinAlgorithm, ServiceEvent};

const MINUTE: i64 = 1000 * 60;
const HOUR: i64 = 60 * MINUTE;

fn s(text: &str) -> String {
    text.to_string()
}

fn user(id: &str, free: Vec<(i64, i64)>) -> UserFreeEvents {
    UserFreeEvents {
        free_events: free.into_iter().map(|(start_ts, end_ts)| Interval { start_ts, end_ts }).collect(),
        user_id: s(id),
    }
}

fn request(timestamp: i64, host_user_ids: Option<Vec<&str>>) -> BookingRequest {
    BookingRequest {
        service_id: s("svc"),
        timestamp,
        duration: 30 * MINUTE,
        interval: 30 * MINUTE,
        host_user_ids: host_user_ids.map(|ids| ids.into_iter().map(s).collect()),
    }
}

fn users() -> Vec<UserFreeEvents> {
    vec![user("a", vec![(0, 2 * HOUR)]), user("b", vec![(HOUR, 3 * HOUR)]), user("c", vec![(0, 3 * HOUR)])]
}

#[test]
fn only_steps_of_the_range_are_slot_instants() {
    let options = BookingSlotsOptions { start_ts: 10, end_ts: 100, duration: 5, interval: 30 };
    assert!(is_slot_instant(&options, 10));
    assert!(is_slot_instant(&options, 40));
    assert!(is_slot_instant(&options, 70));
    assert!(!is_slot_instant(&options, 100));
    assert!(!is_slot_instant(&options, 41));
    assert!(!is_slot_instant(&options, -20));
    assert!(!is_slot_instant(&options, 130));
    let options = BookingSlotsOptions { start_ts: i64::MIN, end_ts: i64::MAX, duration: 5, interval: 2 };
    assert!(is_slot_instant(&options, 0));
    assert!(!is_slot_instant(&options, i64::MAX - 2));
    assert!(is_slot_instant(&options, i64::MAX - 1));
    let options = BookingSlotsOptions { start_ts: 10, end_ts: 100, duration: 5, interval: 0 };
    assert!(!is_slot_instant(&options, 10));
}

#[test]
fn hosts_are_recomputed_for_the_request() {
    assert_eq!(hosts_for_request(&users(), 0, 3 * HOUR, &request(0, None)), vec![s("a"), s("c")]);
    assert_eq!(hosts_for_request(&users(), 0, 3 * HOUR, &request(HOUR, None)), vec![s("a"), s("b"), s("c")]);
    assert_eq!(hosts_for_request(&users(), 0, 3 * HOUR, &request(2 * HOUR, None)), vec![s("b"), s("c")]);
    assert!(hosts_for_request(&users(), 0, 3 * HOUR, &request(HOUR + 1, None)).is_empty());
    assert!(hosts_for_request(&users(), 0, 3 * HOUR, &request(3 * HOUR, None)).is_empty());
    assert!(hosts_for_request(&users(), 0, 2 * HOUR, &request(2 * HOUR, None)).is_empty());
}

#[test]
fn a_client_may_name_the_hosts_it_accepts() {
    assert_eq!(hosts_for_request(&users(), 0, 3 * HOUR, &request(HOUR, Some(vec!["c", "a"]))), vec![s("a"), s("c")]);
    assert_eq!(hosts_for_request(&users(), 0, 3 * HOUR, &request(0, Some(vec!["b", "c"]))), vec![s("c")]);
    assert!(hosts_for_request(&users(), 0, 3 * HOUR, &request(0, Some(vec!["b"]))).is_empty());
    assert!(hosts_for_request(&users(), 0, 3 * HOUR, &request(0, Some(vec![]))).is_empty());
    assert_eq!(restrict_hosts(&vec![s("a"), s("b")], &None), vec![s("a"), s("b")]);
    assert!(contains_id(&vec![s("a"), s("b")], &s("b")));
    assert!(!contains_id(&vec![s("a"), s("b")], &s("c")));
}

#[test]
fn a_request_reserves_the_host_that_the_policy_picks() {
    let mut book = ReservationBook::new();
    let intent = handle_booking_request(
        &mut book,
        &request(HOUR, None),
        &users(),
        0,
        3 * HOUR,
        RoundRobinAlgorithm::Availability,
        &vec![],
        0,
    )
    .unwrap();
    assert_eq!(intent.selected_host, "a");
    assert!(intent.create_event_for_hosts);
    assert_eq!(book.find(&s("svc"), HOUR, &s("a")), Some(ReservationState::Pending));
    assert_eq!(book.len(), 1);
}

#[test]
fn hosts_that_are_held_are_passed_over() {
    let mut book = ReservationBook::new();
    book.create_intent(&s("svc"), HOUR, &s("a")).unwrap();
    book.create_intent(&s("svc"), HOUR, &s("b")).unwrap();
    book.confirm(&s("svc"), HOUR, &s("b")).unwrap();
    let eligible = vec![s("a"), s("b"), s("c")];
    let intent =
        create_booking_intent(&mut book, &s("svc"), HOUR, &eligible, RoundRobinAlgorithm::Availability, &vec![], 0)
            .unwrap();
    assert_eq!(intent.selected_host, "c");
    assert_eq!(
        create_booking_intent(&mut book, &s("svc"), HOUR, &eligible, RoundRobinAlgorithm::Availability, &vec![], 0)
            .unwrap_err(),
        NoHostAvailableError
    );
    assert_eq!(book.len(), 3);
    book.release(&s("svc"), HOUR, &s("a")).unwrap();
    let intent =
        create_booking_intent(&mut book, &s("svc"), HOUR, &eligible, RoundRobinAlgorithm::Availability, &vec![], 0)
            .unwrap();
    assert_eq!(intent.selected_host, "a");
}

#[test]
fn no_eligible_host_no_booking() {
    let mut book = ReservationBook::new();
    let r = handle_booking_request(
        &mut book,
        &request(HOUR + 1, None),
        &users(),
        0,
        3 * HOUR,
        RoundRobinAlgorithm::EqualDistribution,
        &vec![],
        0,
    );
    assert_eq!(r.unwrap_err(), NoHostAvailableError);
    let r = create_booking_intent(&mut book, &s("svc"), 0, &vec![], RoundRobinAlgorithm::Availability, &vec![], 0);
    assert_eq!(r.unwrap_err(), NoHostAvailableError);
    assert_eq!(book.len(), 0);
}

#[test]
fn an_attempt_tries_each_host_once_in_the_order_of_the_policy() {
    let eligible = vec![s("a"), s("b"), s("c"), s("d")];
    let events = vec![
        ServiceEvent { host_user_id: s("a"), start_ts: 100 },
        ServiceEvent { host_user_id: s("a"), start_ts: 200 },
        ServiceEvent { host_user_id: s("c"), start_ts: 100 },
        ServiceEvent { host_user_id: s("b"), start_ts: 5 },
        ServiceEvent { host_user_id: s("d"), start_ts: 10 },
    ];
    let mut attempt = BookingAttempt::start(RoundRobinAlgorithm::EqualDistribution, &eligible, &events, 10);
    assert_eq!(attempt.weights, vec![2, 0, 1, 1]);
    let mut tried = vec![];
    while let Some(position) = attempt.next_position() {
        tried.push(position);
        attempt.give_up_on(position);
    }
    assert_eq!(tried, vec![1, 2, 3, 0]);
    assert_eq!(attempt.next_position(), None);
    let mut attempt = BookingAttempt::start(RoundRobinAlgorithm::Availability, &eligible, &events, 10);
    let mut tried = vec![];
    while let Some(position) = attempt.next_position() {
        tried.push(position);
        attempt.give_up_on(position);
    }
    assert_eq!(tried, vec![0, 1, 2, 3]);
}

#[test]
fn a_request_is_answered_in_the_utc_day_of_its_instant() {
    let day = 24 * HOUR;
    let midnight = 1613865600000;
    for timestamp in [midnight, midnight + 1, midnight + 13 * HOUR, midnight + day - 1] {
        let window = request_window(timestamp).unwrap();
        assert_eq!((window.get_start(), window.get_end()), (midnight, midnight + day));
    }
    let window = request_window(midnight - 1).unwrap();
    assert_eq!((window.get_start(), window.get_end()), (midnight - day, midnight));
    let window = request_window(0).unwrap();
    assert_eq!((window.get_start(), window.get_end()), (0, day));
    let window = request_window(-1).unwrap();
    assert_eq!((window.get_start(), window.get_end()), (-day, 0));
    let window = request_window(-day).unwrap();
    assert_eq!((window.get_start(), window.get_end()), (-day, 0));
}

#[test]
fn a_day_that_leaves_the_timestamps_is_refused() {
    let day = 24 * HOUR;
    let last_start = i64::MAX - i64::MAX % day;
    assert_eq!(request_window(i64::MAX).unwrap_err(), InvalidTimespanError(last_start, i64::MAX));
    assert_eq!(request_window(last_start).unwrap_err(), InvalidTimespanError(last_start, i64::MAX));
    let window = request_window(last_start - 1).unwrap();
    assert_eq!((window.get_start(), window.get_end()), (last_start - day, last_start));
    let first_end = i64::MIN - i64::MIN % day;
    assert_eq!(request_window(i64::MIN).unwrap_err(), InvalidTimespanError(i64::MIN, first_end));
    assert_eq!(request_window(first_end - 1).unwrap_err(), InvalidTimespanError(i64::MIN, first_end));
    let window = request_window(first_end).unwrap();
    assert_eq!((window.get_start(), window.get_end()), (first_end, first_end + day));
}
