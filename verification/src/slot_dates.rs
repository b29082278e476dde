//! Slots grouped by the calendar day on which they start, as a client in a
//! time zone sees them.

use crate::booking_slots::{names, ServiceBookingSlot, SlotView};
use crate::timezone::{local_datetime, local_datetime_at, LocalDateTime};
use vstd::prelude::*;

verus! {

/// A day of the calendar.
#[derive(Clone, Copy, Debug, PartialEq, Eq, Structural)]
pub struct SlotDate {
    pub year: i32,
    pub month: u32,
    pub day: u32,
}

/// A slot and the day on which it starts.
#[derive(Debug)]
pub struct DatedSlot {
    pub date: SlotDate,
    pub slot: ServiceBookingSlot,
}

/// The slots that start on one day, in chronological order.
#[derive(Debug)]
pub struct ServiceBookingSlotsDate {
    pub date: SlotDate,
    pub slots: Vec<ServiceBookingSlot>,
}

/// The slots of one day as plain values.
pub struct SlotsDateView {
    pub date: SlotDate,
    pub slots: Seq<SlotView>,
}

impl View for ServiceBookingSlotsDate {
    type V = SlotsDateView;

    open spec fn view(&self) -> SlotsDateView {
        SlotsDateView {
            date: self.date,
            slots: self.slots@.map_values(|slot: ServiceBookingSlot| slot@),
        }
    }
}

/// The plain values of a list of days.
pub open spec fn date_views(days: Seq<ServiceBookingSlotsDate>) -> Seq<SlotsDateView> {
    days.map_values(|day: ServiceBookingSlotsDate| day@)
}

/// The day of a local date and time.
pub open spec fn date_of(at: LocalDateTime) -> SlotDate {
    SlotDate { year: at.year, month: at.month, day: at.day }
}

/// The day on which an instant falls in a zone, where it can be shown.
pub open spec fn local_date(tz: Seq<char>, timestamp: int) -> Option<SlotDate> {
    match local_datetime(tz, timestamp) {
        Some(at) => Some(date_of(at)),
        None => None,
    }
}

/// Runs of neighbours with the same day, each run under its day.
pub open spec fn grouped_by_date(dated: Seq<DatedSlot>) -> Seq<SlotsDateView>
    decreases dated.len(),
{
    if dated.len() == 0 {
        Seq::empty()
    } else {
        let earlier = grouped_by_date(dated.drop_last());
        let last = dated.last();
        if earlier.len() > 0 && earlier.last().date == last.date {
            earlier.update(
                earlier.len() - 1,
                SlotsDateView { date: last.date, slots: earlier.last().slots.push(last.slot@) },
            )
        } else {
            earlier.push(SlotsDateView { date: last.date, slots: seq![last.slot@] })
        }
    }
}

/// All slots of all days, in the order of the days.
pub open spec fn flattened(days: Seq<SlotsDateView>) -> Seq<SlotView>
    decreases days.len(),
{
    if days.len() == 0 {
        Seq::empty()
    } else {
        flattened(days.drop_last()) + days.last().slots
    }
}

fn copy_slot(slot: &ServiceBookingSlot) -> (copy: ServiceBookingSlot)
    ensures
        copy@ == slot@,
{
    let mut hosts: Vec<String> = Vec::new();
    let mut i: usize = 0;
    while i < slot.eligible_hosts.len()
        invariant
            i <= slot.eligible_hosts.len(),
            hosts@.len() == i,
            forall|k: int| 0 <= k < i ==> (#[trigger] hosts@[k])@ == slot.eligible_hosts@[k]@,
        decreases slot.eligible_hosts.len() - i,
    {
        hosts.push(slot.eligible_hosts[i].clone());
        i = i + 1;
    }
    assert(names(hosts@) =~= names(slot.eligible_hosts@));
    ServiceBookingSlot { timestamp: slot.timestamp, eligible_hosts: hosts }
}

/// Puts a slot under the day of a local date and time.
pub fn dated_slot(slot: &ServiceBookingSlot, at: LocalDateTime) -> (dated: DatedSlot)
    ensures
        dated.date == date_of(at),
        dated.slot@ == slot@,
{
    DatedSlot {
        date: SlotDate { year: at.year, month: at.month, day: at.day },
        slot: copy_slot(slot),
    }
}

/// Finds the day on which each slot starts in the zone `tz`. Nothing when
/// the day of some slot cannot be had, because the zone is unknown or
/// because the slot starts at an instant that cannot be shown as a date. A
/// list without slots gives a list without days, whatever the zone.
pub fn date_slots(slots: &Vec<ServiceBookingSlot>, tz: &str) -> (r: Option<Vec<DatedSlot>>)
    ensures
        match r {
            Some(dated) => {
                &&& dated@.len() == slots@.len()
                &&& forall|i: int|
                    0 <= i < slots@.len() ==> (#[trigger] dated@[i]).slot@ == slots@[i]@
                &&& forall|i: int|
                    0 <= i < slots@.len() ==> local_date(tz@, slots@[i].timestamp as int) == Some(
                        (#[trigger] dated@[i]).date,
                    )
            },
            None => exists|i: int|
                0 <= i < slots@.len() && local_date(tz@, (#[trigger] slots@[i]).timestamp as int)
                    is None,
        },
{
    let mut dated: Vec<DatedSlot> = Vec::new();
    let mut i: usize = 0;
    while i < slots.len()
        invariant
            i <= slots.len(),
            dated@.len() == i,
            forall|k: int| 0 <= k < i ==> (#[trigger] dated@[k]).slot@ == slots@[k]@,
            forall|k: int|
                0 <= k < i ==> local_date(tz@, slots@[k].timestamp as int) == Some(
                    (#[trigger] dated@[k]).date,
                ),
        decreases slots.len() - i,
    {
        match local_datetime_at(tz, slots[i].timestamp) {
            Some(at) => {
                dated.push(dated_slot(&slots[i], at));
            },
            None => {
                assert(local_date(tz@, slots@[i as int].timestamp as int) is None);
                return None;
            },
        }
        i = i + 1;
    }
    Some(dated)
}

/// Groups slots by day: neighbours with the same day go under that day, in
/// their order.
pub fn group_by_date(dated: &Vec<DatedSlot>) -> (days: Vec<ServiceBookingSlotsDate>)
    ensures
        date_views(days@) == grouped_by_date(dated@),
{
    let mut days: Vec<ServiceBookingSlotsDate> = Vec::new();
    let mut open: Vec<ServiceBookingSlot> = Vec::new();
    let mut open_date: SlotDate = SlotDate { year: 0, month: 0, day: 0 };
    let mut i: usize = 0;
    assert(date_views(days@) =~= Seq::empty());
    while i < dated.len()
        invariant
            i <= dated.len(),
            i == 0 ==> open@.len() == 0 && days@.len() == 0,
            i > 0 ==> {
                &&& open@.len() > 0
                &&& grouped_by_date(dated@.take(i as int)).len() > 0
                &&& date_views(days@) == grouped_by_date(dated@.take(i as int)).drop_last()
                &&& grouped_by_date(dated@.take(i as int)).last() == (SlotsDateView {
                    date: open_date,
                    slots: open@.map_values(|slot: ServiceBookingSlot| slot@),
                })
            },
        decreases dated.len() - i,
    {
        let ghost before = grouped_by_date(dated@.take(i as int));
        let ghost open_before = open@.map_values(|slot: ServiceBookingSlot| slot@);
        proof {
            assert(dated@.take(i as int + 1).drop_last() =~= dated@.take(i as int));
            assert(dated@.take(i as int + 1).last() == dated@[i as int]);
        }
        let date: SlotDate = dated[i].date;
        let slot: ServiceBookingSlot = copy_slot(&dated[i].slot);
        if i > 0 && open_date == date {
            open.push(slot);
            proof {
                let after = grouped_by_date(dated@.take(i as int + 1));
                assert(open@.map_values(|slot: ServiceBookingSlot| slot@) =~= open_before.push(
                    slot@,
                ));
                assert(after.drop_last() =~= before.drop_last());
            }
        } else {
            if i > 0 {
                let ghost days_before = date_views(days@);
                let day = ServiceBookingSlotsDate { date: open_date, slots: open };
                days.push(day);
                proof {
                    assert(date_views(days@) =~= days_before.push(day@));
                    assert(before =~= before.drop_last().push(before.last()));
                }
            }
            open = Vec::new();
            open.push(slot);
            open_date = date;
            proof {
                let after = grouped_by_date(dated@.take(i as int + 1));
                assert(open@.map_values(|slot: ServiceBookingSlot| slot@) =~= seq![slot@]);
                assert(after.drop_last() =~= before);
            }
        }
        i = i + 1;
    }
    proof {
        assert(dated@.take(dated.len() as int) =~= dated@);
    }
    if i > 0 {
        let ghost days_before = date_views(days@);
        let ghost all = grouped_by_date(dated@);
        let day = ServiceBookingSlotsDate { date: open_date, slots: open };
        days.push(day);
        proof {
            assert(date_views(days@) =~= days_before.push(day@));
            assert(all =~= all.drop_last().push(all.last()));
        }
    }
    days
}

/// The plain values of the slots of a list of dated slots.
pub open spec fn dated_slot_views(dated: Seq<DatedSlot>) -> Seq<SlotView> {
    dated.map_values(|d: DatedSlot| d.slot@)
}

/// Grouping keeps every slot, in order: the days, read one after the other,
/// hold the slots that were grouped. No day is empty.
pub proof fn lemma_grouping_keeps_slots(dated: Seq<DatedSlot>)
    ensures
        flattened(grouped_by_date(dated)) == dated_slot_views(dated),
        forall|k: int|
            0 <= k < grouped_by_date(dated).len() ==> (#[trigger] grouped_by_date(
                dated,
            )[k]).slots.len() > 0,
        dated.len() > 0 ==> grouped_by_date(dated).len() > 0 && grouped_by_date(dated).last().date
            == dated.last().date,
    decreases dated.len(),
{
    if dated.len() == 0 {
        assert(dated_slot_views(dated) =~= Seq::empty());
    } else {
        let rest = dated.drop_last();
        let last = dated.last();
        lemma_grouping_keeps_slots(rest);
        let earlier = grouped_by_date(rest);
        let all = grouped_by_date(dated);
        assert(dated_slot_views(dated) =~= dated_slot_views(rest).push(last.slot@));
        if earlier.len() > 0 && earlier.last().date == last.date {
            assert(all.drop_last() =~= earlier.drop_last());
            assert(flattened(all) =~= flattened(earlier.drop_last()) + (earlier.last().slots.push(
                last.slot@,
            )));
            assert(flattened(earlier) =~= flattened(earlier.drop_last()) + earlier.last().slots);
            assert forall|k: int| 0 <= k < all.len() implies (#[trigger] all[k]).slots.len() > 0 by {
                if k < all.len() - 1 {
                    assert(all[k] == earlier[k]);
                }
            }
        } else {
            assert(all.drop_last() =~= earlier);
            assert(flattened(all) =~= flattened(earlier) + seq![last.slot@]);
            assert forall|k: int| 0 <= k < all.len() implies (#[trigger] all[k]).slots.len() > 0 by {
                if k < all.len() - 1 {
                    assert(all[k] == earlier[k]);
                }
            }
        }
    }
}

/// Two days that follow each other in a grouping are different days.
pub proof fn lemma_neighbour_days_differ(dated: Seq<DatedSlot>, k: int)
    requires
        0 <= k < grouped_by_date(dated).len() - 1,
    ensures
        grouped_by_date(dated)[k].date != grouped_by_date(dated)[k + 1].date,
    decreases dated.len(),
{
    let rest = dated.drop_last();
    let last = dated.last();
    let earlier = grouped_by_date(rest);
    let all = grouped_by_date(dated);
    lemma_grouping_keeps_slots(rest);
    if earlier.len() > 0 && earlier.last().date == last.date {
        if k < earlier.len() - 1 {
            lemma_neighbour_days_differ(rest, k);
        }
        if k + 1 < earlier.len() - 1 {
            assert(all[k + 1] == earlier[k + 1]);
        }
        assert(all[k] == earlier[k]);
    } else {
        if k < earlier.len() - 1 {
            lemma_neighbour_days_differ(rest, k);
            assert(all[k] == earlier[k]);
            assert(all[k + 1] == earlier[k + 1]);
        } else {
            assert(all[k] == earlier[k]);
        }
    }
}

/// The slots of a service grouped by the day on which they start in the
/// zone `tz`. Nothing when the day of some slot cannot be had, because the
/// zone is unknown or the slot cannot be dated; no slots give no days,
/// whatever the zone.
pub fn group_slots_by_date(slots: &Vec<ServiceBookingSlot>, tz: &str) -> (r: Option<
    Vec<ServiceBookingSlotsDate>,
>)
    ensures
        match r {
            Some(days) => exists|dated: Seq<DatedSlot>|
                {
                    &&& #[trigger] grouped_by_date(dated) == date_views(days@)
                    &&& dated.len() == slots@.len()
                    &&& forall|i: int|
                        0 <= i < slots@.len() ==> (#[trigger] dated[i]).slot@ == slots@[i]@
                    &&& forall|i: int|
                        0 <= i < slots@.len() ==> local_date(tz@, slots@[i].timestamp as int)
                            == Some((#[trigger] dated[i]).date)
                },
            None => exists|i: int|
                0 <= i < slots@.len() && local_date(tz@, (#[trigger] slots@[i]).timestamp as int)
                    is None,
        },
{
    match date_slots(slots, tz) {
        Some(dated) => {
            let days = group_by_date(&dated);
            assert(grouped_by_date(dated@) == date_views(days@));
            Some(days)
        },
        None => None,
    }
}

} // verus!
