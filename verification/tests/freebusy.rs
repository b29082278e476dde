use nettu_scheduler::calendar_view::CalendarView;
use nettu_scheduler::freebusy::{
    participant_free_intervals, service_free_events, widen_all, Participant, ParticipantAnswers,
    TimePlan,
};
use nettu_scheduler::interval::Interval;

const HOUR: i64 = 1000 * 60 * 60;

fn iv(start_ts: i64, end_ts: i64) -> Interval {
    Interval { start_ts, end_ts }
}

fn participant(availability: TimePlan, buffer_before: i64, buffer_after: i64) -> Participant {
    Participant {
        user_id: "host".to_string(),
        availability,
        busy_sources: vec!["calendar".to_string()],
        buffer_before,
        buffer_after,
    }
}

fn day() -> CalendarView {
    CalendarView::create(0, 24 * HOUR).unwrap()
}

#[test]
fn always_available_is_free_for_the_whole_window() {
    let p = participant(TimePlan::AlwaysAvailable, 0, 0);
    let free = participant_free_intervals(&p, &day(), &None, &Some(vec![]));
    assert_eq!(free, vec![iv(0, 24 * HOUR)]);
}

#[test]
fn always_busy_is_never_free() {
    let p = participant(TimePlan::AlwaysBusy, 0, 0);
    let free = participant_free_intervals(&p, &day(), &Some(vec![iv(0, HOUR)]), &Some(vec![]));
    assert_eq!(free, vec![]);
}

#[test]
fn schedule_is_cut_to_the_window() {
    let p = participant(TimePlan::Schedule("schedule".to_string()), 0, 0);
    let hours = Some(vec![iv(-HOUR, HOUR), iv(9 * HOUR, 17 * HOUR), iv(23 * HOUR, 30 * HOUR)]);
    let free = participant_free_intervals(&p, &day(), &hours, &Some(vec![]));
    assert_eq!(free, vec![iv(0, HOUR), iv(9 * HOUR, 17 * HOUR), iv(23 * HOUR, 24 * HOUR)]);
}

#[test]
fn busy_time_and_buffers_are_taken_out() {
    let p = participant(TimePlan::Schedule("schedule".to_string()), 600_000, 900_000);
    let hours = Some(vec![iv(9 * HOUR, 17 * HOUR)]);
    let busy = Some(vec![iv(12 * HOUR, 13 * HOUR), iv(16 * HOUR, 18 * HOUR), iv(8 * HOUR, 9 * HOUR)]);
    let free = participant_free_intervals(&p, &day(), &hours, &busy);
    assert_eq!(
        free,
        vec![iv(9 * HOUR + 900_000, 12 * HOUR - 600_000), iv(13 * HOUR + 900_000, 16 * HOUR - 600_000)]
    );
}

#[test]
fn touching_busy_time_leaves_no_gap_and_no_overlap() {
    let p = participant(TimePlan::AlwaysAvailable, 0, 0);
    let busy = Some(vec![iv(HOUR, 2 * HOUR), iv(2 * HOUR, 3 * HOUR)]);
    let free = participant_free_intervals(&p, &day(), &None, &busy);
    assert_eq!(free, vec![iv(0, HOUR), iv(3 * HOUR, 24 * HOUR)]);
}

#[test]
fn a_store_without_answer_leaves_nothing_free() {
    let p = participant(TimePlan::AlwaysAvailable, 0, 0);
    assert_eq!(participant_free_intervals(&p, &day(), &None, &None), vec![]);
    let p = participant(TimePlan::Schedule("schedule".to_string()), 0, 0);
    assert_eq!(participant_free_intervals(&p, &day(), &None, &Some(vec![])), vec![]);
}

#[test]
fn widening_stays_inside_the_range_of_timestamps() {
    let wide = widen_all(&vec![iv(i64::MIN + 5, i64::MAX - 5), iv(100, 200)], 10, 20);
    assert_eq!(wide, vec![iv(i64::MIN, i64::MAX), iv(90, 220)]);
    let wide = widen_all(&vec![iv(100, 200)], -10, -20);
    assert_eq!(wide, vec![iv(110, 180)]);
}

#[test]
fn free_time_is_computed_for_each_participant() {
    let mut a = participant(TimePlan::AlwaysAvailable, 0, 0);
    a.user_id = "a".to_string();
    let mut b = participant(TimePlan::Schedule("s".to_string()), 0, 0);
    b.user_id = "b".to_string();
    let mut c = participant(TimePlan::AlwaysAvailable, 0, 0);
    c.user_id = "c".to_string();
    let mut d = participant(TimePlan::AlwaysAvailable, 0, 0);
    d.user_id = "d".to_string();
    let answers = vec![
        ParticipantAnswers { schedule_free: None, busy: Some(vec![iv(HOUR, 2 * HOUR)]) },
        ParticipantAnswers { schedule_free: Some(vec![iv(9 * HOUR, 10 * HOUR)]), busy: Some(vec![]) },
        ParticipantAnswers { schedule_free: None, busy: None },
    ];
    let out = service_free_events(&vec![a, b, c, d], &day(), &answers);
    let plain: Vec<(String, Vec<Interval>)> =
        out.iter().map(|u| (u.user_id.clone(), u.free_events.clone())).collect();
    assert_eq!(
        plain,
        vec![
            ("a".to_string(), vec![iv(0, HOUR), iv(2 * HOUR, 24 * HOUR)]),
            ("b".to_string(), vec![iv(9 * HOUR, 10 * HOUR)]),
            ("c".to_string(), vec![]),
            ("d".to_string(), vec![]),
        ]
    );
}
