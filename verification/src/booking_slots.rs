//! Validation of a booking-slots query and the slots that a service offers.

use crate::calendar_view::{valid_timespan, CalendarView, InvalidTimespanError};
use crate::date::{day_after, is_valid_date, next_day, parsed_date};
use crate::interval::{covers_span, is_free_for, Interval};
use crate::timezone::{local_midnight, local_midnight_millis, timezone_is_known, timezone_known};
use vstd::arithmetic::div_mod::{lemma_mod_add_multiples_vanish, lemma_small_mod};
use vstd::prelude::*;
use vstd::string::StringExecFns;

verus! {

/// Shortest step between two slots: ten minutes, in milliseconds.
pub const MIN_SLOT_INTERVAL: i64 = 600_000;

/// Longest step between two slots: sixty minutes, in milliseconds.
pub const MAX_SLOT_INTERVAL: i64 = 3_600_000;

/// What a client asks: the slots of one calendar day, seen from a time zone.
#[derive(Debug)]
pub struct BookingSlotsQuery {
    pub date: String,
    pub iana_tz: Option<String>,
    pub interval: i64,
    pub duration: i64,
}

/// Why a query is refused.
#[derive(Debug)]
pub enum BookingQueryError {
    /// The step is not between ten and sixty minutes.
    InvalidIntervalError,
    /// The duration is not positive.
    InvalidDurationError,
    /// The text, as given, names no day of the calendar in the zone.
    InvalidDateError(String),
    /// The name, as given, is no zone of the database.
    InvalidTimezoneError(String),
    /// The day does not span between one hour and forty days.
    InvalidTimespanError(InvalidTimespanError),
}

/// A step between slots of ten to sixty minutes.
pub open spec fn valid_slots_interval(interval: int) -> bool {
    MIN_SLOT_INTERVAL <= interval <= MAX_SLOT_INTERVAL
}

/// Whether a step between slots is between ten and sixty minutes, both
/// bounds allowed, in milliseconds.
pub fn validate_slots_interval(interval: i64) -> (ok: bool)
    ensures
        ok == valid_slots_interval(interval as int),
{
    interval >= MIN_SLOT_INTERVAL && interval <= MAX_SLOT_INTERVAL
}

/// The zone that a query is read in: the one it names, or UTC.
pub open spec fn query_zone(query: BookingSlotsQuery) -> Seq<char> {
    match query.iana_tz {
        Some(name) => name@,
        None => "UTC"@,
    }
}

/// The instants at which the day of a query begins and ends in its zone:
/// local midnight of that day and of the next. Nothing unless the text names
/// a calendar day and both midnights exist.
pub open spec fn query_day_bounds(query: BookingSlotsQuery) -> Option<(i64, i64)> {
    match parsed_date(query.date@) {
        Some((year, month, day)) => {
            let next = day_after(year, month, day);
            match (
                local_midnight(query_zone(query), year, month, day),
                local_midnight(query_zone(query), next.0, next.1, next.2),
            ) {
                (Some(start), Some(end)) => Some((start, end)),
                _ => None,
            }
        },
        None => None,
    }
}

/// Turns the two midnights that bound a day into the window of that day.
/// A missing midnight makes the date invalid; bounds that are not between one
/// hour and forty days apart are refused with those bounds.
pub fn window_from_day_bounds(date: &String, start: Option<i64>, end: Option<i64>) -> (r: Result<
    CalendarView,
    BookingQueryError,
>)
    ensures
        match r {
            Ok(view) => start == Some(view.start()) && end == Some(view.end()) && valid_timespan(
                view.start() as int,
                view.end() as int,
            ),
            Err(BookingQueryError::InvalidDateError(text)) => (start is None || end is None)
                && text@ == date@,
            Err(BookingQueryError::InvalidTimespanError(e)) => start == Some(e.0) && end == Some(
                e.1,
            ) && !valid_timespan(e.0 as int, e.1 as int),
            Err(_) => false,
        },
{
    match (start, end) {
        (Some(start_ts), Some(end_ts)) => match CalendarView::create(start_ts, end_ts) {
            Ok(view) => Ok(view),
            Err(e) => Err(BookingQueryError::InvalidTimespanError(e)),
        },
        _ => Err(BookingQueryError::InvalidDateError(date.clone())),
    }
}

/// Checks a query and resolves it to the window of its day.
///
/// The checks run in this order, and the first that fails decides the error:
/// the interval, the time zone, the date, the span of the day, the duration.
pub fn validate_bookingslots_query(query: &BookingSlotsQuery) -> (r: Result<
    CalendarView,
    BookingQueryError,
>)
    ensures
        match r {
            Ok(view) => {
                &&& valid_slots_interval(query.interval as int)
                &&& timezone_known(query_zone(*query))
                &&& query_day_bounds(*query) == Some((view.start(), view.end()))
                &&& valid_timespan(view.start() as int, view.end() as int)
                &&& query.duration > 0
            },
            Err(BookingQueryError::InvalidIntervalError) => !valid_slots_interval(
                query.interval as int,
            ),
            Err(BookingQueryError::InvalidTimezoneError(name)) => {
                &&& valid_slots_interval(query.interval as int)
                &&& !timezone_known(query_zone(*query))
                &&& name@ == query_zone(*query)
            },
            Err(BookingQueryError::InvalidDateError(text)) => {
                &&& valid_slots_interval(query.interval as int)
                &&& timezone_known(query_zone(*query))
                &&& query_day_bounds(*query) is None
                &&& text@ == query.date@
            },
            Err(BookingQueryError::InvalidTimespanError(e)) => {
                &&& valid_slots_interval(query.interval as int)
                &&& timezone_known(query_zone(*query))
                &&& query_day_bounds(*query) == Some((e.0, e.1))
                &&& !valid_timespan(e.0 as int, e.1 as int)
            },
            Err(BookingQueryError::InvalidDurationError) => {
                &&& valid_slots_interval(query.interval as int)
                &&& timezone_known(query_zone(*query))
                &&& query_day_bounds(*query) matches Some((start, end))
                &&& valid_timespan(start as int, end as int)
                &&& query.duration <= 0
            },
        },
{
    if !validate_slots_interval(query.interval) {
        return Err(BookingQueryError::InvalidIntervalError);
    }
    let zone: String = match &query.iana_tz {
        Some(name) => name.clone(),
        None => String::from_str("UTC"),
    };
    if !timezone_is_known(zone.as_str()) {
        return Err(BookingQueryError::InvalidTimezoneError(zone));
    }
    let (year, month, day) = match is_valid_date(query.date.as_str()) {
        Some(fields) => fields,
        None => {
            return Err(BookingQueryError::InvalidDateError(query.date.clone()));
        },
    };
    let next: (i32, u32, u32) = next_day(year, month, day);
    let start: Option<i64> = local_midnight_millis(zone.as_str(), year, month, day);
    let end: Option<i64> = local_midnight_millis(zone.as_str(), next.0, next.1, next.2);
    let view: CalendarView = match window_from_day_bounds(&query.date, start, end) {
        Ok(view) => view,
        Err(e) => {
            return Err(e);
        },
    };
    if query.duration <= 0 {
        return Err(BookingQueryError::InvalidDurationError);
    }
    Ok(view)
}

/// The free time of one participant, as the aggregator computed it.
#[derive(Debug)]
pub struct UserFreeEvents {
    pub free_events: Vec<Interval>,
    pub user_id: String,
}

/// The range to step through and how: from `start_ts` up to, not reaching,
/// `end_ts`, every `interval` milliseconds, for bookings of `duration`.
#[derive(Clone, Copy, Debug)]
pub struct BookingSlotsOptions {
    pub start_ts: i64,
    pub end_ts: i64,
    pub duration: i64,
    pub interval: i64,
}

/// How close to now and how far from now a service takes bookings, as offsets
/// from `now` in milliseconds. An offset that is not set leaves that side of
/// the window open.
#[derive(Clone, Copy, Debug)]
pub struct BookingHorizon {
    pub now: i64,
    pub closest_booking_time: Option<i64>,
    pub furthest_booking_time: Option<i64>,
}

/// One bookable instant and the hosts who are free for it.
#[derive(Debug)]
pub struct ServiceBookingSlot {
    pub timestamp: i64,
    pub eligible_hosts: Vec<String>,
}

/// A slot as a plain value.
pub struct SlotView {
    pub timestamp: int,
    pub eligible_hosts: Seq<Seq<char>>,
}

/// The texts of a list of strings.
pub open spec fn names(ids: Seq<String>) -> Seq<Seq<char>> {
    ids.map_values(|id: String| id@)
}

impl View for ServiceBookingSlot {
    type V = SlotView;

    open spec fn view(&self) -> SlotView {
        SlotView { timestamp: self.timestamp as int, eligible_hosts: names(self.eligible_hosts@) }
    }
}

/// The plain values of a list of slots.
pub open spec fn slot_views(slots: Seq<ServiceBookingSlot>) -> Seq<SlotView> {
    slots.map_values(|slot: ServiceBookingSlot| slot@)
}

/// The users, in the order given, who are free for all of `[t, t + duration)`.
pub open spec fn eligible_hosts(users: Seq<UserFreeEvents>, t: int, duration: int) -> Seq<
    Seq<char>,
>
    decreases users.len(),
{
    if users.len() == 0 {
        Seq::empty()
    } else {
        let before = eligible_hosts(users.drop_last(), t, duration);
        if covers_span(users.last().free_events@, t, duration) {
            before.push(users.last().user_id@)
        } else {
            before
        }
    }
}

/// How far `t` is below `end`.
pub open spec fn remaining(t: int, end: int) -> nat {
    if t < end {
        (end - t) as nat
    } else {
        0
    }
}

/// The slots at `t`, `t + interval`, ... below `end`, each with the hosts
/// eligible at that instant; instants without an eligible host give no slot.
pub open spec fn slots_from(
    users: Seq<UserFreeEvents>,
    t: int,
    end: int,
    interval: int,
    duration: int,
) -> Seq<SlotView>
    decreases remaining(t, end),
{
    if t >= end || interval <= 0 {
        Seq::empty()
    } else {
        let hosts = eligible_hosts(users, t, duration);
        let later = slots_from(users, t + interval, end, interval, duration);
        if hosts.len() > 0 {
            seq![SlotView { timestamp: t, eligible_hosts: hosts }] + later
        } else {
            later
        }
    }
}

/// First instant that may be booked: the later of the start of the window and
/// of `now` plus the closest booking time.
pub open spec fn range_start(options: BookingSlotsOptions, horizon: BookingHorizon) -> int {
    match horizon.closest_booking_time {
        Some(offset) => if horizon.now + offset > options.start_ts {
            horizon.now + offset
        } else {
            options.start_ts as int
        },
        None => options.start_ts as int,
    }
}

/// First instant that may no longer be booked: the earlier of the end of the
/// window and of `now` plus the furthest booking time.
pub open spec fn range_end(options: BookingSlotsOptions, horizon: BookingHorizon) -> int {
    match horizon.furthest_booking_time {
        Some(offset) => if horizon.now + offset < options.end_ts {
            horizon.now + offset
        } else {
            options.end_ts as int
        },
        None => options.end_ts as int,
    }
}

/// The users who are free for all of `[t, t + duration)`, in the order given.
pub fn eligible_hosts_at(users: &Vec<UserFreeEvents>, t: i64, duration: i64) -> (hosts: Vec<String>)
    ensures
        names(hosts@) == eligible_hosts(users@, t as int, duration as int),
{
    let mut hosts: Vec<String> = Vec::new();
    let mut i: usize = 0;
    while i < users.len()
        invariant
            i <= users.len(),
            names(hosts@) == eligible_hosts(users@.take(i as int), t as int, duration as int),
        decreases users.len() - i,
    {
        proof {
            assert(users@.take(i as int + 1).drop_last() =~= users@.take(i as int));
        }
        if is_free_for(&users[i].free_events, t, duration) {
            let ghost before = hosts@;
            hosts.push(users[i].user_id.clone());
            proof {
                assert(names(hosts@) =~= names(before).push(users@[i as int].user_id@));
            }
        }
        i = i + 1;
    }
    proof {
        assert(users@.take(users.len() as int) =~= users@);
    }
    hosts
}

/// The slots that a service offers: one for each step of the range at which at
/// least one user is free for the whole duration, in chronological order. A
/// step that is not positive gives no slots.
pub fn get_service_bookingslots(users_free: Vec<UserFreeEvents>, options: &BookingSlotsOptions) -> (slots:
    Vec<ServiceBookingSlot>)
    ensures
        slot_views(slots@) == slots_from(
            users_free@,
            options.start_ts as int,
            options.end_ts as int,
            options.interval as int,
            options.duration as int,
        ),
{
    let mut slots: Vec<ServiceBookingSlot> = Vec::new();
    if options.interval <= 0 {
        assert(slot_views(slots@) =~= Seq::empty());
        return slots;
    }
    let end: i64 = options.end_ts;
    let step: i64 = options.interval;
    let duration: i64 = options.duration;
    let mut t: i64 = options.start_ts;
    assert(slot_views(slots@) =~= Seq::empty());
    while t < end
        invariant
            step > 0,
            slot_views(slots@) + slots_from(
                users_free@,
                t as int,
                end as int,
                step as int,
                duration as int,
            ) == slots_from(
                users_free@,
                options.start_ts as int,
                end as int,
                step as int,
                duration as int,
            ),
        decreases remaining(t as int, end as int),
    {
        let hosts: Vec<String> = eligible_hosts_at(&users_free, t, duration);
        let ghost before = slot_views(slots@);
        let ghost later = slots_from(
            users_free@,
            t + step,
            end as int,
            step as int,
            duration as int,
        );
        if hosts.len() > 0 {
            let slot = ServiceBookingSlot { timestamp: t, eligible_hosts: hosts };
            slots.push(slot);
            proof {
                assert(slot_views(slots@) =~= before.push(slot@));
                assert(before.push(slot@) + later =~= before + (seq![slot@] + later));
            }
        }
        assert(slot_views(slots@) + later == slots_from(
            users_free@,
            options.start_ts as int,
            end as int,
            step as int,
            duration as int,
        ));
        match t.checked_add(step) {
            Some(next) => {
                t = next;
            },
            None => {
                // No further step fits below `end`.
                assert(later =~= Seq::empty());
                t = end;
            },
        }
    }
    proof {
        assert(slot_views(slots@) + Seq::<SlotView>::empty() =~= slot_views(slots@));
    }
    slots
}

/// The range that a booking horizon leaves of the range of the options: its
/// first instant and the first instant after it. Nothing where the horizon
/// lies wholly beyond the timestamps there are, in which case no instant is
/// left.
pub fn booking_range(options: &BookingSlotsOptions, horizon: &BookingHorizon) -> (r: Option<
    (i64, i64),
>)
    ensures
        match r {
            Some((start_ts, end_ts)) => start_ts == range_start(*options, *horizon) && end_ts
                == range_end(*options, *horizon),
            None => range_start(*options, *horizon) > i64::MAX || range_end(*options, *horizon)
                < i64::MIN,
        },
{
    let mut start_ts: i64 = options.start_ts;
    let mut end_ts: i64 = options.end_ts;
    match horizon.closest_booking_time {
        Some(offset) => match horizon.now.checked_add(offset) {
            Some(earliest) => {
                if earliest > start_ts {
                    start_ts = earliest;
                }
            },
            None => {
                if offset > 0 {
                    // The earliest instant lies after every timestamp.
                    return None;
                }
            },
        },
        None => {},
    }
    match horizon.furthest_booking_time {
        Some(offset) => match horizon.now.checked_add(offset) {
            Some(latest) => {
                if latest < end_ts {
                    end_ts = latest;
                }
            },
            None => {
                if offset < 0 {
                    // The latest instant lies before every timestamp.
                    return None;
                }
            },
        },
        None => {},
    }
    Some((start_ts, end_ts))
}

/// The slots of a service that its booking horizon admits: those of the
/// window that are neither closer to `now` than the closest booking time nor
/// further from it than the furthest.
pub fn get_service_bookingslots_within(
    users_free: Vec<UserFreeEvents>,
    options: &BookingSlotsOptions,
    horizon: &BookingHorizon,
) -> (slots: Vec<ServiceBookingSlot>)
    ensures
        slot_views(slots@) == slots_from(
            users_free@,
            range_start(*options, *horizon),
            range_end(*options, *horizon),
            options.interval as int,
            options.duration as int,
        ),
{
    match booking_range(options, horizon) {
        Some((start_ts, end_ts)) => get_service_bookingslots(
            users_free,
            &BookingSlotsOptions {
                start_ts,
                end_ts,
                duration: options.duration,
                interval: options.interval,
            },
        ),
        None => {
            let none: Vec<ServiceBookingSlot> = Vec::new();
            assert(slot_views(none@) =~= Seq::empty());
            none
        },
    }
}

/// Every eligible host is a user who is free for the whole span.
pub proof fn lemma_eligible_hosts_are_free(
    users: Seq<UserFreeEvents>,
    t: int,
    duration: int,
    h: int,
)
    requires
        0 <= h < eligible_hosts(users, t, duration).len(),
    ensures
        exists|u: int|
            0 <= u < users.len() && (#[trigger] users[u]).user_id@ == eligible_hosts(
                users,
                t,
                duration,
            )[h] && covers_span(users[u].free_events@, t, duration),
    decreases users.len(),
{
    let before = eligible_hosts(users.drop_last(), t, duration);
    if covers_span(users.last().free_events@, t, duration) && h == before.len() {
        let u = users.len() - 1;
        assert(users[u].user_id@ == eligible_hosts(users, t, duration)[h]);
    } else {
        lemma_eligible_hosts_are_free(users.drop_last(), t, duration, h);
        let u = choose|u: int|
            0 <= u < users.drop_last().len() && (#[trigger] users.drop_last()[u]).user_id@
                == before[h] && covers_span(users.drop_last()[u].free_events@, t, duration);
        assert(users[u] == users.drop_last()[u]);
    }
}

/// Every user who is free for the whole span is an eligible host.
pub proof fn lemma_free_users_are_eligible(
    users: Seq<UserFreeEvents>,
    t: int,
    duration: int,
    u: int,
)
    requires
        0 <= u < users.len(),
        covers_span(users[u].free_events@, t, duration),
    ensures
        eligible_hosts(users, t, duration).contains(users[u].user_id@),
    decreases users.len(),
{
    let before = eligible_hosts(users.drop_last(), t, duration);
    let all = eligible_hosts(users, t, duration);
    if u == users.len() - 1 {
        assert(all[before.len() as int] == users[u].user_id@);
    } else {
        lemma_free_users_are_eligible(users.drop_last(), t, duration, u);
        let k = choose|k: int| 0 <= k < before.len() && before[k] == users[u].user_id@;
        assert(all[k] == users[u].user_id@);
    }
}

/// Each slot stands on a step of the range, and holds exactly the hosts that
/// are eligible at its instant, of which there is at least one.
pub proof fn lemma_slots_are_steps(
    users: Seq<UserFreeEvents>,
    t: int,
    end: int,
    interval: int,
    duration: int,
    k: int,
)
    requires
        0 <= k < slots_from(users, t, end, interval, duration).len(),
    ensures
        interval > 0,
        t <= slots_from(users, t, end, interval, duration)[k].timestamp < end,
        (slots_from(users, t, end, interval, duration)[k].timestamp - t) % interval == 0,
        slots_from(users, t, end, interval, duration)[k].eligible_hosts == eligible_hosts(
            users,
            slots_from(users, t, end, interval, duration)[k].timestamp,
            duration,
        ),
        slots_from(users, t, end, interval, duration)[k].eligible_hosts.len() > 0,
    decreases remaining(t, end),
{
    let hosts = eligible_hosts(users, t, duration);
    let later = slots_from(users, t + interval, end, interval, duration);
    if hosts.len() > 0 && k == 0 {
        assert(interval > 0);
        lemma_small_mod(0, interval as nat);
    } else {
        let shifted = if hosts.len() > 0 {
            k - 1
        } else {
            k
        };
        lemma_slots_are_steps(users, t + interval, end, interval, duration, shifted);
        let ts = later[shifted].timestamp;
        // One step more from `t` leaves the remainder as it is.
        lemma_mod_add_multiples_vanish(ts - (t + interval), interval);
        assert(interval + (ts - (t + interval)) == ts - t);
    }
}

/// Each step of the range at which a host is eligible has its slot.
pub proof fn lemma_steps_have_slots(
    users: Seq<UserFreeEvents>,
    t: int,
    end: int,
    interval: int,
    duration: int,
    ts: int,
)
    requires
        interval > 0,
        t <= ts < end,
        (ts - t) % interval == 0,
        eligible_hosts(users, ts, duration).len() > 0,
    ensures
        exists|k: int|
            0 <= k < slots_from(users, t, end, interval, duration).len() && (#[trigger] slots_from(
                users,
                t,
                end,
                interval,
                duration,
            )[k]).timestamp == ts,
    decreases remaining(t, end),
{
    let all = slots_from(users, t, end, interval, duration);
    let hosts = eligible_hosts(users, t, duration);
    let later = slots_from(users, t + interval, end, interval, duration);
    if ts == t {
        assert(all[0].timestamp == ts);
    } else {
        // A distance from `t` that is a multiple of the step is at least one step.
        if ts - t < interval {
            lemma_small_mod((ts - t) as nat, interval as nat);
        }
        lemma_mod_add_multiples_vanish(ts - (t + interval), interval);
        assert(interval + (ts - (t + interval)) == ts - t);
        lemma_steps_have_slots(users, t + interval, end, interval, duration, ts);
        let k = choose|k: int| 0 <= k < later.len() && (#[trigger] later[k]).timestamp == ts;
        if hosts.len() > 0 {
            assert(all[k + 1] == later[k]);
        } else {
            assert(all[k] == later[k]);
        }
    }
}

/// Slots come in strictly chronological order.
pub proof fn lemma_slots_are_chronological(
    users: Seq<UserFreeEvents>,
    t: int,
    end: int,
    interval: int,
    duration: int,
    i: int,
    j: int,
)
    requires
        0 <= i < j < slots_from(users, t, end, interval, duration).len(),
    ensures
        slots_from(users, t, end, interval, duration)[i].timestamp < slots_from(
            users,
            t,
            end,
            interval,
            duration,
        )[j].timestamp,
    decreases remaining(t, end),
{
    let hosts = eligible_hosts(users, t, duration);
    let later = slots_from(users, t + interval, end, interval, duration);
    if hosts.len() > 0 {
        if i == 0 {
            lemma_slots_are_steps(users, t + interval, end, interval, duration, j - 1);
        } else {
            lemma_slots_are_chronological(users, t + interval, end, interval, duration, i - 1, j - 1);
        }
    } else {
        lemma_slots_are_chronological(users, t + interval, end, interval, duration, i, j);
    }
}

/// Every host of every slot is a user whose free time holds the whole
/// booking, from the instant of the slot to the end of the duration.
pub proof fn lemma_slot_hosts_are_free(
    users: Seq<UserFreeEvents>,
    t: int,
    end: int,
    interval: int,
    duration: int,
    k: int,
    h: int,
)
    requires
        0 <= k < slots_from(users, t, end, interval, duration).len(),
        0 <= h < slots_from(users, t, end, interval, duration)[k].eligible_hosts.len(),
    ensures
        exists|u: int|
            0 <= u < users.len() && (#[trigger] users[u]).user_id@ == slots_from(
                users,
                t,
                end,
                interval,
                duration,
            )[k].eligible_hosts[h] && covers_span(
                users[u].free_events@,
                slots_from(users, t, end, interval, duration)[k].timestamp,
                duration,
            ),
{
    lemma_slots_are_steps(users, t, end, interval, duration, k);
    lemma_eligible_hosts_are_free(
        users,
        slots_from(users, t, end, interval, duration)[k].timestamp,
        duration,
        h,
    );
}

/// Without users there are no slots.
pub proof fn lemma_no_users_no_slots(t: int, end: int, interval: int, duration: int)
    ensures
        slots_from(Seq::<UserFreeEvents>::empty(), t, end, interval, duration).len() == 0,
    decreases remaining(t, end),
{
    if t < end && interval > 0 {
        lemma_no_users_no_slots(t + interval, end, interval, duration);
    }
}

/// The slots lie in `[first, last)`, each a whole number of steps after
/// `first`, each with a host, in strictly chronological order.
pub open spec fn are_steps_of(slots: Seq<SlotView>, first: int, last: int, interval: int) -> bool {
    &&& forall|k: int| 0 <= k < slots.len() ==> first <= (#[trigger] slots[k]).timestamp < last
    &&& forall|k: int|
        0 <= k < slots.len() ==> ((#[trigger] slots[k]).timestamp - first) % interval == 0
    &&& forall|k: int| 0 <= k < slots.len() ==> (#[trigger] slots[k]).eligible_hosts.len() > 0
    &&& forall|i: int, j: int|
        #![trigger slots[i], slots[j]]
        0 <= i < j < slots.len() ==> slots[i].timestamp < slots[j].timestamp
}

/// Some user with the id `host` is free for all of `[t, t + duration)`.
pub open spec fn is_free_user(users: Seq<UserFreeEvents>, host: Seq<char>, t: int, duration: int) -> bool {
    exists|u: int|
        0 <= u < users.len() && (#[trigger] users[u]).user_id@ == host && covers_span(
            users[u].free_events@,
            t,
            duration,
        )
}

/// Every host of every slot is a user who is free for the whole booking.
pub open spec fn hosts_are_free(users: Seq<UserFreeEvents>, slots: Seq<SlotView>, duration: int) -> bool {
    forall|k: int, h: int|
        0 <= k < slots.len() && 0 <= h < slots[k].eligible_hosts.len() ==> is_free_user(
            users,
            #[trigger] slots[k].eligible_hosts[h],
            slots[k].timestamp,
            duration,
        )
}

/// Some slot stands at the instant `t`.
pub open spec fn has_slot_at(slots: Seq<SlotView>, t: int) -> bool {
    exists|k: int| 0 <= k < slots.len() && (#[trigger] slots[k]).timestamp == t
}

/// Every step of `[first, last)` at which some user is free for the whole
/// booking has its slot, with the users who are free as its hosts.
pub open spec fn has_every_step(
    users: Seq<UserFreeEvents>,
    slots: Seq<SlotView>,
    first: int,
    last: int,
    interval: int,
    duration: int,
) -> bool {
    forall|t: int|
        interval > 0 && first <= t < last && (t - first) % interval == 0 && eligible_hosts(
            users,
            t,
            duration,
        ).len() > 0 ==> #[trigger] has_slot_at(slots, t)
}

/// What the slots of a range are, said directly: they stand on the steps of
/// the range in chronological order, every host of a slot is free for the
/// whole booking, and no step at which somebody is free is left out.
pub proof fn lemma_slots_are_sound(
    users: Seq<UserFreeEvents>,
    first: int,
    last: int,
    interval: int,
    duration: int,
)
    ensures
        are_steps_of(slots_from(users, first, last, interval, duration), first, last, interval),
        hosts_are_free(users, slots_from(users, first, last, interval, duration), duration),
        has_every_step(
            users,
            slots_from(users, first, last, interval, duration),
            first,
            last,
            interval,
            duration,
        ),
{
    let slots = slots_from(users, first, last, interval, duration);
    assert forall|k: int| 0 <= k < slots.len() implies first <= (#[trigger] slots[k]).timestamp
        < last && (slots[k].timestamp - first) % interval == 0 && slots[k].eligible_hosts.len()
        > 0 by {
        lemma_slots_are_steps(users, first, last, interval, duration, k);
    }
    assert forall|i: int, j: int|
        #![trigger slots[i], slots[j]]
        0 <= i < j < slots.len() implies slots[i].timestamp < slots[j].timestamp by {
        lemma_slots_are_chronological(users, first, last, interval, duration, i, j);
    }
    assert forall|k: int, h: int|
        0 <= k < slots.len() && 0 <= h < slots[k].eligible_hosts.len() implies is_free_user(
        users,
        #[trigger] slots[k].eligible_hosts[h],
        slots[k].timestamp,
        duration,
    ) by {
        lemma_slot_hosts_are_free(users, first, last, interval, duration, k, h);
    }
    assert forall|t: int|
        interval > 0 && first <= t < last && (t - first) % interval == 0 && eligible_hosts(
            users,
            t,
            duration,
        ).len() > 0 implies #[trigger] has_slot_at(slots, t) by {
        lemma_steps_have_slots(users, first, last, interval, duration, t);
    }
}

} // verus!
