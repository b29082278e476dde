use nettu_scheduler::reminder::{
    create_reminders_for_accounts, dedup_reminders, get_account_ids, get_event_ids,
    sort_by_priority, Account, CalendarEvent, GetUpcomingRemindersUseCase, Reminder,
};

fn reminder_factory(event_id: &str, priority: i64) -> Reminder {
    Reminder {
        account_id: "1".into(),
        event_id: event_id.into(),
        id: format!("{}-{}", event_id, priority),
        priority,
        remind_at: 200,
    }
}

#[test]
fn should_dedup_reminders() {
    let mut reminders = vec![];
    dedup_reminders(&mut reminders);
    assert_eq!(reminders.len(), 0);

    let mut reminders = vec![reminder_factory("1", 0), reminder_factory("2", 0)];
    dedup_reminders(&mut reminders);
    assert_eq!(reminders.len(), 2);

    let mut reminders = vec![reminder_factory("1", 1), reminder_factory("1", 0)];
    dedup_reminders(&mut reminders);
    assert_eq!(reminders.len(), 1);

    let mut reminders = vec![reminder_factory("1", 0), reminder_factory("1", 1)];
    dedup_reminders(&mut reminders);
    assert_eq!(reminders.len(), 1);
}

fn ids(reminders: &Vec<Reminder>) -> Vec<String> {
    reminders.iter().map(|r| r.id.clone()).collect()
}

#[test]
fn dedup_keeps_the_most_urgent_reminder_of_each_event() {
    let mut reminders = vec![
        reminder_factory("1", 1),
        reminder_factory("2", 3),
        reminder_factory("1", 0),
        reminder_factory("3", 2),
        reminder_factory("2", 3),
        reminder_factory("2", 1),
    ];
    dedup_reminders(&mut reminders);
    assert_eq!(ids(&reminders), vec!["1-0", "2-1", "3-2"]);
}

#[test]
fn dedup_keeps_the_first_of_equally_urgent_reminders() {
    let mut first = reminder_factory("1", 0);
    first.id = "first".into();
    let mut second = reminder_factory("1", 0);
    second.id = "second".into();
    let mut reminders = vec![first, second];
    dedup_reminders(&mut reminders);
    assert_eq!(ids(&reminders), vec!["first"]);
}

#[test]
fn sorting_by_priority_is_stable() {
    let mut reminders = vec![
        reminder_factory("a", 2),
        reminder_factory("b", 0),
        reminder_factory("c", 2),
        reminder_factory("d", 1),
        reminder_factory("e", 0),
        reminder_factory("f", -1),
    ];
    sort_by_priority(&mut reminders);
    assert_eq!(ids(&reminders), vec!["f--1", "b-0", "e-0", "d-1", "a-2", "c-2"]);
}

#[test]
fn reminders_are_sent_every_minute() {
    assert_eq!(GetUpcomingRemindersUseCase::get_config().send_interval, 60 * 1000);
    assert_eq!(GetUpcomingRemindersUseCase::due_until(1613862000000), 1613862060000);
    assert_eq!(GetUpcomingRemindersUseCase::due_until(i64::MAX - 5), i64::MAX);
}

fn reminder_of(account_id: &str, event_id: &str) -> Reminder {
    Reminder {
        account_id: account_id.into(),
        event_id: event_id.into(),
        id: format!("{}/{}", account_id, event_id),
        priority: 0,
        remind_at: 200,
    }
}

fn event(id: &str) -> CalendarEvent {
    CalendarEvent { id: id.into(), user_id: "user".into(), start_ts: 0, duration: 10 }
}

#[test]
fn events_are_collected_for_each_account() {
    let reminders = vec![
        reminder_of("b", "e1"),
        reminder_of("a", "e2"),
        reminder_of("b", "e3"),
        reminder_of("unknown", "e4"),
        reminder_of("a", "missing"),
        reminder_of("a", "e1"),
        reminder_of("c", "e5"),
    ];
    assert_eq!(get_account_ids(&reminders), vec!["b", "a", "b", "unknown", "a", "a", "c"]);
    assert_eq!(get_event_ids(&reminders), vec!["e1", "e2", "e3", "e4", "missing", "e1", "e5"]);
    let events = vec![event("e5"), event("e4"), event("e3"), event("e2"), event("e1")];
    let accounts = vec![Account { id: "a".into() }, Account { id: "b".into() }, Account { id: "c".into() }];
    let out = create_reminders_for_accounts(reminders, events, &accounts);
    let plain: Vec<(String, Vec<String>)> = out
        .iter()
        .map(|(account, group)| (account.id.clone(), group.events.iter().map(|e| e.id.clone()).collect()))
        .collect();
    assert_eq!(
        plain,
        vec![
            ("b".to_string(), vec!["e1".to_string(), "e3".to_string()]),
            ("a".to_string(), vec!["e2".to_string()]),
            ("c".to_string(), vec!["e5".to_string()]),
        ]
    );
    assert!(create_reminders_for_accounts(vec![], vec![event("e1")], &accounts).is_empty());
}
