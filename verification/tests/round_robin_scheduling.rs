use nettu_scheduler::booking::{handle_booking_request, BookingRequest};
use nettu_scheduler::booking_slots::{
    get_service_bookingslots, BookingSlotsOptions, ServiceBookingSlot, UserFreeEvents,
};
use nettu_scheduler::calendar_view::CalendarView;
use nettu_scheduler::freebusy::{service_free_events, Participant, ParticipantAnswers, TimePlan};
use nettu_scheduler::interval::Interval;
use nettu_scheduler::reservation::ReservationBook;
use nettu_scheduler::round_robin::{RoundRobinAlgorithm, ServiceEvent};

const MINUTE: i64 = 1000 * 60;
const HOUR: i64 = 60 * MINUTE;
const DAY: i64 = 24 * HOUR;
const NOW: i64 = 1613901600000;
const TOMORROW: i64 = 1613952000000;

/// A service with its hosts, their calendars and its reservations, all in memory.
struct App {
    service_id: String,
    algorithm: RoundRobinAlgorithm,
    hosts: Vec<Participant>,
    busy: Vec<Vec<Interval>>,
    events: Vec<ServiceEvent>,
    book: ReservationBook,
}

impl App {
    fn new(users_count: usize, algorithm: RoundRobinAlgorithm) -> App {
        let mut hosts = vec![];
        let mut busy = vec![];
        for i in 0..users_count {
            hosts.push(Participant {
                user_id: format!("host-{}", i),
                availability: TimePlan::Schedule(format!("schedule-{}", i)),
                busy_sources: vec![format!("calendar-{}", i)],
                buffer_before: 0,
                buffer_after: 0,
            });
            busy.push(vec![]);
        }
        App { service_id: "service".to_string(), algorithm, hosts, busy, events: vec![], book: ReservationBook::new() }
    }

    fn window(&self) -> CalendarView {
        CalendarView::create(TOMORROW, TOMORROW + 7 * DAY).unwrap()
    }

    /// Working hours from nine to five on every day of the window.
    fn free_events(&self) -> Vec<UserFreeEvents> {
        let mut answers = vec![];
        for busy in &self.busy {
            let mut schedule = vec![];
            for day in 0..7 {
                schedule.push(Interval {
                    start_ts: TOMORROW + day * DAY + 9 * HOUR,
                    end_ts: TOMORROW + day * DAY + 17 * HOUR,
                });
            }
            answers.push(ParticipantAnswers { schedule_free: Some(schedule), busy: Some(busy.clone()) });
        }
        service_free_events(&self.hosts, &self.window(), &answers)
    }

    fn bookingslots(&self, duration: i64, interval: i64) -> Vec<ServiceBookingSlot> {
        let options = BookingSlotsOptions { start_ts: TOMORROW, end_ts: TOMORROW + 7 * DAY, duration, interval };
        get_service_bookingslots(self.free_events(), &options)
    }

    fn create_booking_intend(&mut self, timestamp: i64, duration: i64, interval: i64) -> (String, bool) {
        let request = BookingRequest {
            service_id: self.service_id.clone(),
            timestamp,
            duration,
            interval,
            host_user_ids: None,
        };
        let users_free = self.free_events();
        let intent = handle_booking_request(
            &mut self.book,
            &request,
            &users_free,
            TOMORROW,
            TOMORROW + 7 * DAY,
            self.algorithm,
            &self.events,
            NOW,
        )
        .expect("To create booking intend");
        (intent.selected_host, intent.create_event_for_hosts)
    }

    fn create_service_event(&mut self, host: &str, start_ts: i64, duration: i64) {
        let i = self.hosts.iter().position(|h| h.user_id == host).expect("To find selected host");
        self.busy[i].push(Interval { start_ts, end_ts: start_ts + duration });
        self.events.push(ServiceEvent { host_user_id: host.to_string(), start_ts });
    }
}

#[test]
fn round_robin_scheduling_simple_test() {
    let users_count_list: Vec<usize> = vec![0, 1, 5, 10];
    let round_robin_algos = vec![RoundRobinAlgorithm::Availability, RoundRobinAlgorithm::EqualDistribution];
    for users_count in users_count_list {
        for alg in round_robin_algos.clone() {
            let mut app = App::new(users_count, alg);
            let duration = 1000 * 60 * 30;
            let interval = 1000 * 60 * 30;
            let bookingslots = app.bookingslots(duration, interval);
            if users_count == 0 {
                assert!(bookingslots.is_empty());
                continue;
            }
            let available_slot = bookingslots[0].timestamp;

            let mut booked_users = vec![];
            for _ in 0..users_count {
                let bookingslots = app.bookingslots(duration, interval);
                assert_eq!(bookingslots[0].timestamp, available_slot);

                let (selected_host, _) = app.create_booking_intend(available_slot, duration, interval);
                booked_users.push(selected_host.clone());
                app.create_service_event(&selected_host, available_slot, duration);
            }
            // Every host was booked once and only once
            let mut hosts: Vec<String> = app.hosts.iter().map(|h| h.user_id.clone()).collect();
            hosts.sort();
            booked_users.sort();
            assert_eq!(booked_users, hosts);

            // All hosts are taken for that instant, so the first slot is another one
            let bookingslots = app.bookingslots(duration, interval);
            assert_ne!(bookingslots[0].timestamp, available_slot);
        }
    }
}

#[test]
fn round_robin_equal_distribution_scheduling() {
    // Each test case is a list of upcoming service events for a host
    let test_cases: Vec<Vec<usize>> = vec![
        vec![3, 0, 1, 5],
        vec![0],
        vec![],
        vec![2, 1, 1, 1, 1, 4],
        vec![1, 1, 0],
        vec![2, 7, 4],
        vec![1, 1, 1],
    ];

    for upcoming_service_events_per_host in test_cases {
        let users_count = upcoming_service_events_per_host.len();
        let mut app = App::new(users_count, RoundRobinAlgorithm::EqualDistribution);
        let duration = 1000 * 60 * 30;
        let interval = 1000 * 60 * 30;
        let bookingslots = app.bookingslots(duration, interval);
        if users_count == 0 {
            assert!(bookingslots.is_empty());
            continue;
        }
        let available_slot = bookingslots[0].timestamp;
        let some_time_later = available_slot + 14 * 24 * 60 * 60 * 1000;

        let hosts: Vec<String> = app.hosts.iter().map(|h| h.user_id.clone()).collect();
        for (upcoming_service_events, host) in upcoming_service_events_per_host.iter().zip(&hosts) {
            for _ in 0..*upcoming_service_events {
                app.create_service_event(host, some_time_later, duration);
            }
        }

        let min_upcoming_events = upcoming_service_events_per_host.iter().min().unwrap();
        let mut hosts_with_min_upcoming_events = hosts
            .iter()
            .zip(&upcoming_service_events_per_host)
            .filter(|(_, count)| *count == min_upcoming_events)
            .map(|(h, _)| h.clone())
            .collect::<Vec<_>>();

        for _ in 0..hosts_with_min_upcoming_events.len() {
            let (selected_host, create_event_for_hosts) =
                app.create_booking_intend(available_slot, duration, interval);
            assert!(create_event_for_hosts);
            assert!(hosts_with_min_upcoming_events.contains(&selected_host));
            hosts_with_min_upcoming_events = hosts_with_min_upcoming_events
                .into_iter()
                .filter(|host_id| host_id != &selected_host)
                .collect();
            app.create_service_event(&selected_host, some_time_later, duration);
        }
    }
}

#[test]
fn equal_distribution_picks_the_host_with_the_fewest_upcoming_bookings() {
    let mut app = App::new(4, RoundRobinAlgorithm::EqualDistribution);
    let duration = 30 * MINUTE;
    let slot = app.bookingslots(duration, duration)[0].timestamp;
    assert_eq!(slot, TOMORROW + 9 * HOUR);
    let later = slot + 14 * DAY;
    for (host, count) in [("host-0", 3), ("host-1", 0), ("host-2", 1), ("host-3", 5)] {
        for _ in 0..count {
            app.create_service_event(host, later, duration);
        }
    }
    let (first, _) = app.create_booking_intend(slot, duration, duration);
    assert_eq!(first, "host-1");
    app.create_service_event("host-1", later, duration);
    app.book.release(&"service".to_string(), slot, &"host-1".to_string()).unwrap();
    // host-1 and host-2 are tied at one upcoming booking each
    let (second, _) = app.create_booking_intend(slot, duration, duration);
    assert_eq!(second, "host-1");
    let (third, _) = app.create_booking_intend(slot, duration, duration);
    assert_eq!(third, "host-2");
}
