use nettu_scheduler::booking_slots::{
    booking_range, eligible_hosts_at, get_service_bookingslots, get_service_bookingslots_within,
    BookingHorizon, BookingSlotsOptions, ServiceBookingSlot, UserFreeEvents,
};
use nettu_scheduler::interval::Interval;

const MINUTE: i64 = 1000 * 60;
const HOUR: i64 = 60 * MINUTE;
const DAY: i64 = 24 * HOUR;
const TOMORROW: i64 = 1613952000000;

fn user(id: &str, free: Vec<(i64, i64)>) -> UserFreeEvents {
    UserFreeEvents {
        free_events: free.into_iter().map(|(start_ts, end_ts)| Interval { start_ts, end_ts }).collect(),
        user_id: id.to_string(),
    }
}

fn week() -> BookingSlotsOptions {
    BookingSlotsOptions {
        start_ts: TOMORROW,
        end_ts: TOMORROW + 7 * DAY,
        duration: 30 * MINUTE,
        interval: 30 * MINUTE,
    }
}

fn plain(slots: &Vec<ServiceBookingSlot>) -> Vec<(i64, Vec<String>)> {
    slots.iter().map(|s| (s.timestamp, s.eligible_hosts.clone())).collect()
}

#[test]
fn no_participants_no_slots() {
    assert!(get_service_bookingslots(vec![], &week()).is_empty());
}

#[test]
fn a_free_participant_is_eligible_at_every_step() {
    let slots = get_service_bookingslots(vec![user("a", vec![(TOMORROW, TOMORROW + 7 * DAY)])], &week());
    assert_eq!(slots.len(), 7 * 48);
    for (k, slot) in slots.iter().enumerate() {
        assert_eq!(slot.timestamp, TOMORROW + (k as i64) * 30 * MINUTE);
        assert_eq!(slot.eligible_hosts, vec!["a".to_string()]);
    }
}

#[test]
fn a_slot_needs_room_for_the_whole_duration() {
    let options = BookingSlotsOptions { start_ts: 0, end_ts: 4 * HOUR, duration: 45 * MINUTE, interval: 30 * MINUTE };
    let users = vec![user("a", vec![(0, HOUR), (2 * HOUR, 3 * HOUR + 15 * MINUTE)]), user("b", vec![(30 * MINUTE, 2 * HOUR + 45 * MINUTE)])];
    let slots = get_service_bookingslots(users, &options);
    assert_eq!(
        plain(&slots),
        vec![
            (0, vec!["a".to_string()]),
            (30 * MINUTE, vec!["b".to_string()]),
            (HOUR, vec!["b".to_string()]),
            (HOUR + 30 * MINUTE, vec!["b".to_string()]),
            (2 * HOUR, vec!["a".to_string(), "b".to_string()]),
            (2 * HOUR + 30 * MINUTE, vec!["a".to_string()]),
        ]
    );
}

#[test]
fn steps_without_hosts_give_no_slot() {
    let options = BookingSlotsOptions { start_ts: 0, end_ts: 3 * HOUR, duration: HOUR, interval: HOUR };
    let slots = get_service_bookingslots(vec![user("a", vec![(2 * HOUR, 3 * HOUR)])], &options);
    assert_eq!(plain(&slots), vec![(2 * HOUR, vec!["a".to_string()])]);
}

#[test]
fn a_step_that_is_not_positive_gives_no_slots() {
    let free = vec![(0, DAY)];
    let options = BookingSlotsOptions { start_ts: 0, end_ts: DAY, duration: HOUR, interval: 0 };
    assert!(get_service_bookingslots(vec![user("a", free.clone())], &options).is_empty());
    let options = BookingSlotsOptions { start_ts: 0, end_ts: DAY, duration: HOUR, interval: -HOUR };
    assert!(get_service_bookingslots(vec![user("a", free)], &options).is_empty());
}

#[test]
fn stepping_stops_at_the_end_of_the_timestamps() {
    let options = BookingSlotsOptions { start_ts: i64::MAX - 90 * MINUTE, end_ts: i64::MAX, duration: 30 * MINUTE, interval: HOUR };
    let slots = get_service_bookingslots(vec![user("a", vec![(i64::MAX - 2 * HOUR, i64::MAX)])], &options);
    assert_eq!(
        plain(&slots),
        vec![(i64::MAX - 90 * MINUTE, vec!["a".to_string()]), (i64::MAX - 30 * MINUTE, vec!["a".to_string()])]
    );
}

#[test]
fn the_horizon_clamps_the_range() {
    let options = BookingSlotsOptions { start_ts: 0, end_ts: 6 * HOUR, duration: HOUR, interval: HOUR };
    let free = vec![(0, 6 * HOUR)];
    let horizon = BookingHorizon { now: -HOUR, closest_booking_time: Some(2 * HOUR + 30 * MINUTE), furthest_booking_time: Some(5 * HOUR) };
    let slots = get_service_bookingslots_within(vec![user("a", free.clone())], &options, &horizon);
    assert_eq!(
        plain(&slots),
        vec![
            (HOUR + 30 * MINUTE, vec!["a".to_string()]),
            (2 * HOUR + 30 * MINUTE, vec!["a".to_string()]),
            (3 * HOUR + 30 * MINUTE, vec!["a".to_string()]),
        ]
    );
    let horizon = BookingHorizon { now: 0, closest_booking_time: None, furthest_booking_time: None };
    assert_eq!(get_service_bookingslots_within(vec![user("a", free.clone())], &options, &horizon).len(), 6);
    let horizon = BookingHorizon { now: -DAY, closest_booking_time: Some(HOUR), furthest_booking_time: Some(30 * DAY) };
    assert_eq!(get_service_bookingslots_within(vec![user("a", free.clone())], &options, &horizon).len(), 6);
    let horizon = BookingHorizon { now: i64::MAX, closest_booking_time: Some(1), furthest_booking_time: None };
    assert!(get_service_bookingslots_within(vec![user("a", free.clone())], &options, &horizon).is_empty());
    let horizon = BookingHorizon { now: i64::MIN, closest_booking_time: None, furthest_booking_time: Some(-1) };
    assert!(get_service_bookingslots_within(vec![user("a", free.clone())], &options, &horizon).is_empty());
    let horizon = BookingHorizon { now: 0, closest_booking_time: None, furthest_booking_time: Some(0) };
    assert!(get_service_bookingslots_within(vec![user("a", free)], &options, &horizon).is_empty());
}

#[test]
fn eligible_hosts_keep_the_order_of_the_users() {
    let users = vec![user("c", vec![(0, HOUR)]), user("a", vec![(0, 30 * MINUTE)]), user("b", vec![(0, 2 * HOUR)])];
    assert_eq!(eligible_hosts_at(&users, 0, HOUR), vec!["c".to_string(), "b".to_string()]);
    assert_eq!(eligible_hosts_at(&users, 0, 30 * MINUTE), vec!["c".to_string(), "a".to_string(), "b".to_string()]);
    assert!(eligible_hosts_at(&users, 0, 3 * HOUR).is_empty());
}

#[test]
fn the_horizon_leaves_a_range_of_the_window() {
    let options = BookingSlotsOptions { start_ts: 0, end_ts: 6 * HOUR, duration: HOUR, interval: HOUR };
    let horizon = |now, closest_booking_time, furthest_booking_time| BookingHorizon {
        now,
        closest_booking_time,
        furthest_booking_time,
    };
    assert_eq!(booking_range(&options, &horizon(0, None, None)), Some((0, 6 * HOUR)));
    assert_eq!(booking_range(&options, &horizon(HOUR, Some(HOUR), Some(3 * HOUR))), Some((2 * HOUR, 4 * HOUR)));
    assert_eq!(booking_range(&options, &horizon(-DAY, Some(HOUR), Some(30 * DAY))), Some((0, 6 * HOUR)));
    assert_eq!(booking_range(&options, &horizon(DAY, Some(HOUR), None)), Some((DAY + HOUR, 6 * HOUR)));
    assert_eq!(booking_range(&options, &horizon(i64::MAX, Some(1), None)), None);
    assert_eq!(booking_range(&options, &horizon(i64::MIN, None, Some(-1))), None);
    assert_eq!(booking_range(&options, &horizon(i64::MIN, Some(-1), None)), Some((0, 6 * HOUR)));
    assert_eq!(booking_range(&options, &horizon(i64::MAX, None, Some(1))), Some((0, 6 * HOUR)));
}
