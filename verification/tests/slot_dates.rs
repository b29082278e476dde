use nettu_scheduler::booking_slots::ServiceBookingSlot;
use nettu_scheduler::slot_dates::{
    date_slots, dated_slot, group_by_date, group_slots_by_date, DatedSlot, SlotDate,
};
use nettu_scheduler::timezone::LocalDateTime;

const HOUR: i64 = 1000 * 60 * 60;
const MIDNIGHT_UTC: i64 = 1613865600000;

fn slot(timestamp: i64) -> ServiceBookingSlot {
    ServiceBookingSlot { timestamp, eligible_hosts: vec!["a".to_string()] }
}

fn date(year: i32, month: u32, day: u32) -> SlotDate {
    SlotDate { year, month, day }
}

#[test]
fn slots_are_grouped_by_their_local_day() {
    let slots = vec![slot(MIDNIGHT_UTC - 2 * HOUR), slot(MIDNIGHT_UTC - HOUR), slot(MIDNIGHT_UTC), slot(MIDNIGHT_UTC + 30 * HOUR)];
    let days = group_slots_by_date(&slots, "UTC").unwrap();
    let plain: Vec<(SlotDate, Vec<i64>)> =
        days.iter().map(|d| (d.date, d.slots.iter().map(|s| s.timestamp).collect())).collect();
    assert_eq!(
        plain,
        vec![
            (date(2021, 2, 20), vec![MIDNIGHT_UTC - 2 * HOUR, MIDNIGHT_UTC - HOUR]),
            (date(2021, 2, 21), vec![MIDNIGHT_UTC]),
            (date(2021, 2, 22), vec![MIDNIGHT_UTC + 30 * HOUR]),
        ]
    );
    assert_eq!(days[0].slots[0].eligible_hosts, vec!["a".to_string()]);
    let days = group_slots_by_date(&slots, "Europe/Oslo").unwrap();
    let plain: Vec<(SlotDate, usize)> = days.iter().map(|d| (d.date, d.slots.len())).collect();
    assert_eq!(plain, vec![(date(2021, 2, 20), 1), (date(2021, 2, 21), 2), (date(2021, 2, 22), 1)]);
}

#[test]
fn an_unknown_zone_gives_no_days() {
    assert!(group_slots_by_date(&vec![slot(0)], "Nowhere/None").is_none());
    assert!(date_slots(&vec![slot(0)], "").is_none());
    assert!(group_slots_by_date(&vec![slot(i64::MAX)], "UTC").is_none());
    assert_eq!(group_slots_by_date(&vec![], "Nowhere/None").unwrap().len(), 0);
}

#[test]
fn only_neighbours_share_a_group() {
    let dated = vec![
        DatedSlot { date: date(2021, 1, 1), slot: slot(1) },
        DatedSlot { date: date(2021, 1, 2), slot: slot(2) },
        DatedSlot { date: date(2021, 1, 2), slot: slot(3) },
        DatedSlot { date: date(2021, 1, 1), slot: slot(4) },
    ];
    let days = group_by_date(&dated);
    let plain: Vec<(SlotDate, Vec<i64>)> =
        days.iter().map(|d| (d.date, d.slots.iter().map(|s| s.timestamp).collect())).collect();
    assert_eq!(
        plain,
        vec![(date(2021, 1, 1), vec![1]), (date(2021, 1, 2), vec![2, 3]), (date(2021, 1, 1), vec![4])]
    );
    assert!(group_by_date(&vec![]).is_empty());
}

#[test]
fn a_dated_slot_carries_the_day_of_its_local_time() {
    let at = LocalDateTime { year: 2021, month: 2, day: 21, hour: 23, minute: 59, second: 59, millisecond: 999 };
    let dated = dated_slot(&slot(5), at);
    assert_eq!(dated.date, date(2021, 2, 21));
    assert_eq!(dated.slot.timestamp, 5);
}
