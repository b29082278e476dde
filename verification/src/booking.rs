//! A booking request: from the instant that a client asks for to the host
//! that is reserved for it.
//!
//! Eligibility is computed anew when the request arrives. A host is picked
//! by the policy of the service and claimed in the book of reservations.
//! Where the claim is refused, the host is closed to the choice and the next
//! one is picked, so that each eligible host is tried at most once.

use crate::booking_slots::{
    eligible_hosts, eligible_hosts_at, lemma_eligible_hosts_are_free, lemma_slots_are_steps,
    lemma_steps_have_slots, names, slots_from, BookingSlotsOptions, UserFreeEvents,
};
use crate::calendar_view::{CalendarView, InvalidTimespanError};
use crate::freebusy::clamp_ts;
use crate::interval::{covers, covers_span};
use vstd::arithmetic::div_mod::lemma_mod_multiples_vanish;
use crate::reservation::{
    is_held, key_of, ReservationBook, ReservationKey, ReservationState,
};
use crate::round_robin::{
    choose_position, host_weights, is_choice, none_closed, weigh_hosts, weight_values,
    NoHostAvailableError, RoundRobinAlgorithm, ServiceEvent,
};
use vstd::prelude::*;

verus! {

/// What a client asks for: one booking of a service at an instant.
#[derive(Debug)]
pub struct BookingRequest {
    pub service_id: String,
    pub timestamp: i64,
    pub duration: i64,
    pub interval: i64,
    /// The only hosts that the client accepts, if it names any.
    pub host_user_ids: Option<Vec<String>>,
}

/// The host that was reserved, and whether the caller is to create the
/// calendar event of the booking for it.
#[derive(Debug)]
pub struct BookingIntent {
    pub selected_host: String,
    pub create_event_for_hosts: bool,
}

/// The length of a day in UTC, in milliseconds.
pub const DAY_MILLIS: i64 = 86_400_000;

/// The instant at which the day in UTC begins on which `timestamp` falls.
pub open spec fn utc_day_start(timestamp: int) -> int {
    timestamp - timestamp % (DAY_MILLIS as int)
}

/// The window in which a booking request is answered: the day in UTC on
/// which the instant asked for falls. An instant so close to the ends of the
/// timestamps that its day does not fit is refused with the bounds of that
/// day, cut to the timestamps there are.
pub fn request_window(timestamp: i64) -> (r: Result<CalendarView, InvalidTimespanError>)
    ensures
        match r {
            Ok(view) => {
                &&& view.start() == utc_day_start(timestamp as int)
                &&& view.end() == utc_day_start(timestamp as int) + DAY_MILLIS
            },
            Err(e) => {
                &&& utc_day_start(timestamp as int) < i64::MIN || utc_day_start(timestamp as int)
                    + DAY_MILLIS > i64::MAX
                &&& e == InvalidTimespanError(
                    clamp_ts(utc_day_start(timestamp as int)),
                    clamp_ts(utc_day_start(timestamp as int) + DAY_MILLIS),
                )
            },
        },
{
    // A whole number of days that lifts every timestamp above zero.
    let days: i128 = 106_751_991_168;
    let day: i128 = 86_400_000;
    let lifted: i128 = day * days + timestamp as i128;
    let into_day: i128 = lifted % day;
    proof {
        lemma_mod_multiples_vanish(days as int, timestamp as int, day as int);
    }
    let start: i128 = timestamp as i128 - into_day;
    let end: i128 = start + day;
    if start < i64::MIN as i128 {
        return Err(InvalidTimespanError(i64::MIN, end as i64));
    }
    if end > i64::MAX as i128 {
        return Err(InvalidTimespanError(start as i64, i64::MAX));
    }
    match CalendarView::create(start as i64, end as i64) {
        Ok(view) => Ok(view),
        Err(e) => Err(e),
    }
}

/// `t` is one of the instants `start`, `start + interval`, ... below `end`.
pub open spec fn is_step(start: int, end: int, interval: int, t: int) -> bool {
    interval > 0 && start <= t < end && (t - start) % interval == 0
}

/// Whether the slot generator steps on the instant `t`.
pub fn is_slot_instant(options: &BookingSlotsOptions, t: i64) -> (r: bool)
    ensures
        r == is_step(
            options.start_ts as int,
            options.end_ts as int,
            options.interval as int,
            t as int,
        ),
{
    if options.interval <= 0 || t < options.start_ts || t >= options.end_ts {
        return false;
    }
    let delta: i128 = t as i128 - options.start_ts as i128;
    delta % (options.interval as i128) == 0
}

/// Whether `id` is the text of one of `ids`.
pub fn contains_id(ids: &Vec<String>, id: &String) -> (r: bool)
    ensures
        r == names(ids@).contains(id@),
{
    let mut i: usize = 0;
    while i < ids.len()
        invariant
            i <= ids.len(),
            forall|k: int| 0 <= k < i ==> (#[trigger] ids@[k])@ != id@,
        decreases ids.len() - i,
    {
        if ids[i] == *id {
            assert(names(ids@)[i as int] == id@);
            return true;
        }
        i = i + 1;
    }
    proof {
        if names(ids@).contains(id@) {
            let k = choose|k: int| 0 <= k < names(ids@).len() && names(ids@)[k] == id@;
            assert(ids@[k]@ == id@);
        }
    }
    false
}

/// The hosts of `eligible`, in their order, that a client accepts: all of
/// them where it names none, else those that it names.
pub open spec fn accepted_hosts(eligible: Seq<Seq<char>>, wanted: Option<Seq<Seq<char>>>) -> Seq<
    Seq<char>,
>
    decreases eligible.len(),
{
    if eligible.len() == 0 {
        Seq::empty()
    } else {
        let before = accepted_hosts(eligible.drop_last(), wanted);
        match wanted {
            Some(list) => if list.contains(eligible.last()) {
                before.push(eligible.last())
            } else {
                before
            },
            None => before.push(eligible.last()),
        }
    }
}

/// The texts of the hosts that a client names, if it names any.
pub open spec fn wanted_names(wanted: Option<Vec<String>>) -> Option<Seq<Seq<char>>> {
    match wanted {
        Some(list) => Some(names(list@)),
        None => None,
    }
}

/// Keeps the eligible hosts that the client accepts.
pub fn restrict_hosts(eligible: &Vec<String>, wanted: &Option<Vec<String>>) -> (kept: Vec<String>)
    ensures
        names(kept@) == accepted_hosts(names(eligible@), wanted_names(*wanted)),
{
    let mut kept: Vec<String> = Vec::new();
    let mut i: usize = 0;
    while i < eligible.len()
        invariant
            i <= eligible.len(),
            names(kept@) == accepted_hosts(names(eligible@).take(i as int), wanted_names(*wanted)),
        decreases eligible.len() - i,
    {
        proof {
            assert(names(eligible@).take(i as int + 1).drop_last() =~= names(eligible@).take(
                i as int,
            ));
            assert(names(eligible@).take(i as int + 1).last() == eligible@[i as int]@);
        }
        let keep: bool = match wanted {
            Some(list) => contains_id(list, &eligible[i]),
            None => true,
        };
        if keep {
            let ghost before = kept@;
            kept.push(eligible[i].clone());
            proof {
                assert(names(kept@) =~= names(before).push(eligible@[i as int]@));
            }
        }
        i = i + 1;
    }
    proof {
        assert(names(eligible@).take(eligible.len() as int) =~= names(eligible@));
    }
    kept
}

/// The hosts that can take a request, computed when the request arrives: the
/// hosts free for the whole duration at the instant asked for, as far as the
/// client accepts them. Nobody can take a request for an instant that the
/// slot generator does not step on.
pub open spec fn request_hosts(
    users: Seq<UserFreeEvents>,
    start_ts: int,
    end_ts: int,
    request: BookingRequest,
) -> Seq<Seq<char>> {
    if is_step(start_ts, end_ts, request.interval as int, request.timestamp as int) {
        accepted_hosts(
            eligible_hosts(users, request.timestamp as int, request.duration as int),
            wanted_names(request.host_user_ids),
        )
    } else {
        Seq::empty()
    }
}

/// Computes the hosts that can take a request in the range `[start_ts, end_ts)`.
pub fn hosts_for_request(
    users_free: &Vec<UserFreeEvents>,
    start_ts: i64,
    end_ts: i64,
    request: &BookingRequest,
) -> (hosts: Vec<String>)
    ensures
        names(hosts@) == request_hosts(users_free@, start_ts as int, end_ts as int, *request),
{
    let options = BookingSlotsOptions {
        start_ts,
        end_ts,
        duration: request.duration,
        interval: request.interval,
    };
    if !is_slot_instant(&options, request.timestamp) {
        let none: Vec<String> = Vec::new();
        assert(names(none@) =~= Seq::empty());
        return none;
    }
    let eligible: Vec<String> = eligible_hosts_at(users_free, request.timestamp, request.duration);
    restrict_hosts(&eligible, &request.host_user_ids)
}

/// How many positions are not closed.
pub open spec fn open_count(closed: Seq<bool>) -> nat
    decreases closed.len(),
{
    if closed.len() == 0 {
        0
    } else {
        open_count(closed.drop_last()) + if closed.last() {
            0nat
        } else {
            1nat
        }
    }
}

proof fn lemma_open_count_bound(closed: Seq<bool>)
    ensures
        open_count(closed) <= closed.len(),
    decreases closed.len(),
{
    if closed.len() > 0 {
        lemma_open_count_bound(closed.drop_last());
    }
}

proof fn lemma_closing_one(closed: Seq<bool>, i: int)
    requires
        0 <= i < closed.len(),
        !closed[i],
    ensures
        open_count(closed.update(i, true)) + 1 == open_count(closed),
    decreases closed.len(),
{
    let next = closed.update(i, true);
    if i == closed.len() - 1 {
        assert(next.drop_last() =~= closed.drop_last());
    } else {
        assert(next.drop_last() =~= closed.drop_last().update(i, true));
        lemma_closing_one(closed.drop_last(), i);
    }
}

/// The state of one booking request while a host is sought for it: the
/// weight of each eligible host, and the hosts whose claim was refused.
///
/// The caller asks for the next position, claims the host at that position
/// in its store, and reports a refusal with `give_up_on`. With every refusal
/// one more host is closed, so there are never more attempts than hosts.
#[derive(Debug)]
pub struct BookingAttempt {
    pub weights: Vec<usize>,
    pub refused: Vec<bool>,
}

impl BookingAttempt {
    /// Every host has its weight and its mark.
    pub open spec fn wf(&self) -> bool {
        self.refused@.len() == self.weights@.len()
    }

    /// The attempts that are left at most.
    pub open spec fn attempts_left(&self) -> nat {
        open_count(self.refused@)
    }

    /// Weighs the eligible hosts of a request; no host is refused yet.
    pub fn start(
        algorithm: RoundRobinAlgorithm,
        eligible: &Vec<String>,
        events: &Vec<ServiceEvent>,
        now: i64,
    ) -> (attempt: BookingAttempt)
        ensures
            attempt.wf(),
            weight_values(attempt.weights@) == host_weights(
                algorithm,
                eligible@,
                events@,
                now as int,
            ),
            attempt.refused@.len() == eligible@.len(),
            forall|i: int| 0 <= i < eligible@.len() ==> !#[trigger] attempt.refused@[i],
            attempt.attempts_left() <= eligible@.len(),
    {
        let weights: Vec<usize> = weigh_hosts(algorithm, eligible, events, now);
        let refused: Vec<bool> = none_closed(eligible.len());
        proof {
            assert(weight_values(weights@) =~= host_weights(
                algorithm,
                eligible@,
                events@,
                now as int,
            ));
            lemma_open_count_bound(refused@);
        }
        BookingAttempt { weights, refused }
    }

    /// The position of the host to claim next: the choice among the hosts
    /// that were not refused. Nothing once every host was refused.
    pub fn next_position(&self) -> (r: Option<usize>)
        requires
            self.wf(),
        ensures
            r is None <==> (forall|i: int|
                0 <= i < self.refused@.len() ==> #[trigger] self.refused@[i]),
            r matches Some(i) ==> is_choice(weight_values(self.weights@), self.refused@, i as int),
    {
        choose_position(&self.weights, &self.refused)
    }

    /// Records that the claim of the host at `position` was refused.
    pub fn give_up_on(&mut self, position: usize)
        requires
            old(self).wf(),
            position < old(self).refused@.len(),
            !old(self).refused@[position as int],
        ensures
            final(self).wf(),
            final(self).weights@ == old(self).weights@,
            final(self).refused@ == old(self).refused@.update(position as int, true),
            final(self).attempts_left() + 1 == old(self).attempts_left(),
    {
        proof {
            lemma_closing_one(self.refused@, position as int);
        }
        self.refused.set(position, true);
    }
}

/// For each eligible host, whether a reservation holds it at the instant.
pub open spec fn held_hosts(
    book: Map<ReservationKey, ReservationState>,
    service_id: Seq<char>,
    timestamp: int,
    eligible: Seq<String>,
) -> Seq<bool> {
    Seq::new(eligible.len(), |i: int| is_held(book, key_of(service_id, timestamp, eligible[i]@)))
}

/// Reserves one of the eligible hosts of an instant.
///
/// The host is the choice of the policy among the eligible hosts that no
/// reservation holds at the instant; it is left with a pending reservation.
/// Where every eligible host is held, or none is eligible, the book stays as
/// it was and the answer is `NoHostAvailableError`.
pub fn create_booking_intent(
    book: &mut ReservationBook,
    service_id: &String,
    timestamp: i64,
    eligible: &Vec<String>,
    algorithm: RoundRobinAlgorithm,
    events: &Vec<ServiceEvent>,
    now: i64,
) -> (r: Result<BookingIntent, NoHostAvailableError>)
    requires
        old(book).wf(),
    ensures
        final(book).wf(),
        match r {
            Ok(intent) => exists|i: int|
                {
                    &&& #[trigger] is_choice(
                        host_weights(algorithm, eligible@, events@, now as int),
                        held_hosts(old(book)@, service_id@, timestamp as int, eligible@),
                        i,
                    )
                    &&& intent.selected_host@ == eligible@[i]@
                    &&& intent.create_event_for_hosts
                    &&& final(book)@ == old(book)@.insert(
                        key_of(service_id@, timestamp as int, eligible@[i]@),
                        ReservationState::Pending,
                    )
                },
            Err(_) => {
                &&& final(book)@ == old(book)@
                &&& forall|i: int|
                    0 <= i < eligible@.len() ==> #[trigger] held_hosts(
                        old(book)@,
                        service_id@,
                        timestamp as int,
                        eligible@,
                    )[i]
            },
        },
{
    let mut attempt: BookingAttempt = BookingAttempt::start(algorithm, eligible, events, now);
    let ghost held = held_hosts(old(book)@, service_id@, timestamp as int, eligible@);
    let ghost weights = host_weights(algorithm, eligible@, events@, now as int);
    loop
        invariant
            attempt.wf(),
            attempt.refused@.len() == eligible@.len(),
            weight_values(attempt.weights@) == weights,
            weights == host_weights(algorithm, eligible@, events@, now as int),
            held == held_hosts(old(book)@, service_id@, timestamp as int, eligible@),
            book.wf(),
            book@ == old(book)@,
            forall|i: int| 0 <= i < eligible@.len() && #[trigger] attempt.refused@[i] ==> held[i],
        decreases attempt.attempts_left(),
    {
        let position: usize = match attempt.next_position() {
            Some(i) => i,
            None => {
                proof {
                    assert forall|i: int| 0 <= i < eligible@.len() implies #[trigger] held[i] by {
                        assert(attempt.refused@[i]);
                    }
                }
                return Err(NoHostAvailableError);
            },
        };
        match book.create_intent(service_id, timestamp, &eligible[position]) {
            Ok(()) => {
                proof {
                    let i = position as int;
                    assert(!held[i]);
                    assert forall|j: int| 0 <= j < weights.len() && !held[j] implies weights[i]
                        <= #[trigger] weights[j] by {
                        assert(!attempt.refused@[j]);
                    }
                    assert forall|j: int| 0 <= j < i && !held[j] implies weights[i]
                        < #[trigger] weights[j] by {
                        assert(!attempt.refused@[j]);
                    }
                    assert(is_choice(weights, held, i));
                }
                return Ok(
                    BookingIntent {
                        selected_host: eligible[position].clone(),
                        create_event_for_hosts: true,
                    },
                );
            },
            Err(_) => {
                proof {
                    assert(held[position as int]);
                }
                attempt.give_up_on(position);
            },
        }
    }
}

/// Answers a booking request: computes the hosts that can take it, and
/// reserves the one that the policy picks among those that are not held.
pub fn handle_booking_request(
    book: &mut ReservationBook,
    request: &BookingRequest,
    users_free: &Vec<UserFreeEvents>,
    start_ts: i64,
    end_ts: i64,
    algorithm: RoundRobinAlgorithm,
    events: &Vec<ServiceEvent>,
    now: i64,
) -> (r: Result<BookingIntent, NoHostAvailableError>)
    requires
        old(book).wf(),
    ensures
        final(book).wf(),
        match r {
            Ok(intent) => exists|hosts: Seq<String>, i: int|
                {
                    &&& names(hosts) == request_hosts(
                        users_free@,
                        start_ts as int,
                        end_ts as int,
                        *request,
                    )
                    &&& #[trigger] is_choice(
                        host_weights(algorithm, hosts, events@, now as int),
                        held_hosts(old(book)@, request.service_id@, request.timestamp as int, hosts),
                        i,
                    )
                    &&& intent.selected_host@ == hosts[i]@
                    &&& intent.create_event_for_hosts
                    &&& final(book)@ == old(book)@.insert(
                        key_of(request.service_id@, request.timestamp as int, hosts[i]@),
                        ReservationState::Pending,
                    )
                },
            Err(_) => {
                &&& final(book)@ == old(book)@
                &&& forall|host: Seq<char>|
                    request_hosts(users_free@, start_ts as int, end_ts as int, *request).contains(
                        host,
                    ) ==> is_held(
                        old(book)@,
                        #[trigger] key_of(request.service_id@, request.timestamp as int, host),
                    )
            },
        },
{
    let hosts: Vec<String> = hosts_for_request(users_free, start_ts, end_ts, request);
    let r = create_booking_intent(
        book,
        &request.service_id,
        request.timestamp,
        &hosts,
        algorithm,
        events,
        now,
    );
    proof {
        if r is Err {
            let held = held_hosts(
                old(book)@,
                request.service_id@,
                request.timestamp as int,
                hosts@,
            );
            assert forall|host: Seq<char>| names(hosts@).contains(host) implies is_held(
                old(book)@,
                #[trigger] key_of(request.service_id@, request.timestamp as int, host),
            ) by {
                let k = choose|k: int| 0 <= k < names(hosts@).len() && names(hosts@)[k] == host;
                assert(held[k]);
            }
        }
    }
    r
}

/// No two users have the same id.
pub open spec fn distinct_users(users: Seq<UserFreeEvents>) -> bool {
    forall|u: int, v: int|
        #![trigger users[u], users[v]]
        0 <= u < v < users.len() ==> users[u].user_id@ != users[v].user_id@
}

/// The users before and after a booking of `host` for `[t, t + duration)`:
/// the booking has made `host` busy for its whole time, and nobody else has
/// changed.
pub open spec fn is_booked(
    before: Seq<UserFreeEvents>,
    after: Seq<UserFreeEvents>,
    host: Seq<char>,
    t: int,
    duration: int,
) -> bool {
    &&& after.len() == before.len()
    &&& forall|u: int|
        0 <= u < before.len() ==> (#[trigger] after[u]).user_id@ == before[u].user_id@
    &&& forall|u: int|
        0 <= u < before.len() && before[u].user_id@ != host ==> (#[trigger] after[u]).free_events@
            == before[u].free_events@
    &&& forall|u: int, x: int|
        0 <= u < before.len() && before[u].user_id@ == host && t <= x < t + duration
            ==> !#[trigger] covers(after[u].free_events@, x)
}

/// A run of bookings of one instant: `states[k]` are the users before
/// booking `k`, which goes to `hosts[k]`, one of the hosts eligible at that
/// point, whichever the policy picked.
pub open spec fn is_booking_run(
    states: Seq<Seq<UserFreeEvents>>,
    hosts: Seq<Seq<char>>,
    t: int,
    duration: int,
) -> bool {
    &&& states.len() == hosts.len() + 1
    &&& forall|k: int|
        0 <= k < hosts.len() ==> eligible_hosts(#[trigger] states[k], t, duration).contains(
            hosts[k],
        )
    &&& forall|k: int|
        0 <= k < hosts.len() ==> is_booked(#[trigger] states[k], states[k + 1], hosts[k], t, duration)
}

proof fn lemma_same_users_same_hosts(
    before: Seq<UserFreeEvents>,
    after: Seq<UserFreeEvents>,
    t: int,
    duration: int,
)
    requires
        after.len() == before.len(),
        forall|u: int|
            0 <= u < before.len() ==> (#[trigger] after[u]).user_id@ == before[u].user_id@,
        forall|u: int|
            0 <= u < before.len() ==> (#[trigger] after[u]).free_events@ == before[u].free_events@,
    ensures
        eligible_hosts(after, t, duration) == eligible_hosts(before, t, duration),
    decreases before.len(),
{
    if before.len() > 0 {
        let n = before.len() - 1;
        assert(after[n].user_id@ == before[n].user_id@);
        assert(after[n].free_events@ == before[n].free_events@);
        assert forall|u: int| 0 <= u < before.drop_last().len() implies (#[trigger] after.drop_last()[u]).user_id@
            == before.drop_last()[u].user_id@ by {
            assert(after[u].user_id@ == before[u].user_id@);
        }
        assert forall|u: int| 0 <= u < before.drop_last().len() implies (#[trigger] after.drop_last()[u]).free_events@
            == before.drop_last()[u].free_events@ by {
            assert(after[u].free_events@ == before[u].free_events@);
        }
        lemma_same_users_same_hosts(before.drop_last(), after.drop_last(), t, duration);
    }
}

proof fn lemma_eligible_hosts_are_users(users: Seq<UserFreeEvents>, t: int, duration: int, host: Seq<char>)
    requires
        eligible_hosts(users, t, duration).contains(host),
    ensures
        exists|u: int|
            0 <= u < users.len() && (#[trigger] users[u]).user_id@ == host && covers_span(
                users[u].free_events@,
                t,
                duration,
            ),
{
    let e = eligible_hosts(users, t, duration);
    let h = choose|h: int| 0 <= h < e.len() && e[h] == host;
    lemma_eligible_hosts_are_free(users, t, duration, h);
}

proof fn lemma_distinct_users_distinct_hosts(users: Seq<UserFreeEvents>, t: int, duration: int)
    requires
        distinct_users(users),
    ensures
        eligible_hosts(users, t, duration).no_duplicates(),
    decreases users.len(),
{
    if users.len() > 0 {
        let rest = users.drop_last();
        assert forall|u: int, v: int|
            #![trigger rest[u], rest[v]]
            0 <= u < v < rest.len() implies rest[u].user_id@ != rest[v].user_id@ by {
            assert(users[u].user_id@ != users[v].user_id@);
        }
        lemma_distinct_users_distinct_hosts(rest, t, duration);
        let before = eligible_hosts(rest, t, duration);
        if before.contains(users.last().user_id@) {
            lemma_eligible_hosts_are_users(rest, t, duration, users.last().user_id@);
            let u = choose|u: int|
                0 <= u < rest.len() && (#[trigger] rest[u]).user_id@ == users.last().user_id@
                    && covers_span(rest[u].free_events@, t, duration);
            assert(users[u].user_id@ != users[users.len() - 1].user_id@);
        }
        let all = eligible_hosts(users, t, duration);
        assert forall|i: int, j: int| 0 <= i < all.len() && 0 <= j < all.len() && i != j implies all[i]
            != all[j] by {
            if i < before.len() && j < before.len() {
                assert(before[i] != before[j]);
            } else if i < before.len() {
                assert(before.contains(before[i]));
            } else if j < before.len() {
                assert(before.contains(before[j]));
            }
        }
    }
}

/// A booking closes the host that it goes to, and nobody else: the hosts
/// eligible after it are those eligible before it without that host.
pub proof fn lemma_booking_closes_its_host(
    before: Seq<UserFreeEvents>,
    after: Seq<UserFreeEvents>,
    host: Seq<char>,
    t: int,
    duration: int,
)
    requires
        duration > 0,
        distinct_users(before),
        is_booked(before, after, host, t, duration),
        eligible_hosts(before, t, duration).contains(host),
    ensures
        exists|i: int|
            0 <= i < eligible_hosts(before, t, duration).len() && #[trigger] eligible_hosts(
                before,
                t,
                duration,
            )[i] == host && eligible_hosts(after, t, duration) == eligible_hosts(
                before,
                t,
                duration,
            ).remove(i),
    decreases before.len(),
{
    let e = eligible_hosts(before, t, duration);
    let n = before.len() - 1;
    assert(before.len() > 0);
    let rest = before.drop_last();
    let rest_after = after.drop_last();
    let e_rest = eligible_hosts(rest, t, duration);
    assert(after[n].user_id@ == before[n].user_id@);
    assert forall|u: int| 0 <= u < rest.len() implies (#[trigger] rest_after[u]).user_id@
        == rest[u].user_id@ by {
        assert(after[u].user_id@ == before[u].user_id@);
    }
    if before[n].user_id@ == host {
        // The last user is the host: nobody before it has changed.
        assert forall|u: int| 0 <= u < rest.len() implies (#[trigger] rest_after[u]).free_events@
            == rest[u].free_events@ by {
            assert(before[u].user_id@ != before[n].user_id@);
            assert(after[u].free_events@ == before[u].free_events@);
        }
        lemma_same_users_same_hosts(rest, rest_after, t, duration);
        lemma_eligible_hosts_are_users(before, t, duration, host);
        let w = choose|w: int|
            0 <= w < before.len() && (#[trigger] before[w]).user_id@ == host && covers_span(
                before[w].free_events@,
                t,
                duration,
            );
        if w < n {
            assert(before[w].user_id@ != before[n].user_id@);
        }
        assert(covers_span(before[n].free_events@, t, duration));
        if covers_span(after[n].free_events@, t, duration) {
            let f = after[n].free_events@;
            let k = choose|k: int| 0 <= k < f.len() && #[trigger] f[k].contains_span(t, duration);
            assert(f[k].contains(t));
            assert(covers(f, t));
        }
        let i = e_rest.len() as int;
        assert(e[i] == host);
        assert(eligible_hosts(after, t, duration) =~= e.remove(i));
    } else {
        assert(after[n].free_events@ == before[n].free_events@);
        assert forall|u: int, v: int|
            #![trigger rest[u], rest[v]]
            0 <= u < v < rest.len() implies rest[u].user_id@ != rest[v].user_id@ by {
            assert(before[u].user_id@ != before[v].user_id@);
        }
        assert forall|u: int|
            0 <= u < rest.len() && rest[u].user_id@ != host implies (#[trigger] rest_after[u]).free_events@
            == rest[u].free_events@ by {
            assert(after[u].free_events@ == before[u].free_events@);
        }
        assert forall|u: int, x: int|
            0 <= u < rest.len() && rest[u].user_id@ == host && t <= x < t + duration
            implies !#[trigger] covers(rest_after[u].free_events@, x) by {
            assert(rest_after[u] == after[u]);
            assert(!covers(after[u].free_events@, x));
        }
        let k = choose|k: int| 0 <= k < e.len() && e[k] == host;
        if k >= e_rest.len() {
            assert(e[k] == before[n].user_id@);
        }
        assert(e_rest[k] == host);
        lemma_booking_closes_its_host(rest, rest_after, host, t, duration);
        let i = choose|i: int|
            0 <= i < e_rest.len() && #[trigger] e_rest[i] == host && eligible_hosts(
                rest_after,
                t,
                duration,
            ) == e_rest.remove(i);
        assert(e[i] == host);
        assert(eligible_hosts(after, t, duration) =~= e.remove(i));
    }
}

proof fn lemma_remove_keeps_the_rest(s: Seq<Seq<char>>, i: int)
    requires
        s.no_duplicates(),
        0 <= i < s.len(),
    ensures
        s.remove(i).no_duplicates(),
        forall|x: Seq<char>| #[trigger] s.remove(i).contains(x) <==> s.contains(x) && x != s[i],
{
    let r = s.remove(i);
    assert forall|a: int, b: int| 0 <= a < r.len() && 0 <= b < r.len() && a != b implies r[a]
        != r[b] by {
        let a2 = if a < i {
            a
        } else {
            a + 1
        };
        let b2 = if b < i {
            b
        } else {
            b + 1
        };
        assert(r[a] == s[a2] && r[b] == s[b2]);
    }
    assert forall|x: Seq<char>| #[trigger] r.contains(x) <==> s.contains(x) && x != s[i] by {
        if r.contains(x) {
            let a = choose|a: int| 0 <= a < r.len() && r[a] == x;
            let a2 = if a < i {
                a
            } else {
                a + 1
            };
            assert(s[a2] == x);
        }
        if s.contains(x) && x != s[i] {
            let a = choose|a: int| 0 <= a < s.len() && s[a] == x;
            let a2 = if a < i {
                a
            } else {
                a - 1
            };
            assert(r[a2] == x);
        }
    }
}

/// What holds after any run of bookings of one instant: no host was booked
/// twice, only hosts eligible at the start were booked, and the hosts still
/// eligible are those of the start that were not booked.
pub proof fn lemma_booking_run(
    states: Seq<Seq<UserFreeEvents>>,
    hosts: Seq<Seq<char>>,
    t: int,
    duration: int,
)
    requires
        duration > 0,
        is_booking_run(states, hosts, t, duration),
        distinct_users(states[0]),
    ensures
        distinct_users(states.last()),
        hosts.no_duplicates(),
        eligible_hosts(states.last(), t, duration).no_duplicates(),
        eligible_hosts(states.last(), t, duration).len() + hosts.len() == eligible_hosts(
            states[0],
            t,
            duration,
        ).len(),
        forall|x: Seq<char>|
            #[trigger] eligible_hosts(states[0], t, duration).contains(x) <==> eligible_hosts(
                states.last(),
                t,
                duration,
            ).contains(x) || hosts.contains(x),
        forall|x: Seq<char>|
            !(eligible_hosts(states.last(), t, duration).contains(x) && #[trigger] hosts.contains(x)),
    decreases hosts.len(),
{
    let first = eligible_hosts(states[0], t, duration);
    if hosts.len() == 0 {
        lemma_distinct_users_distinct_hosts(states[0], t, duration);
        assert forall|x: Seq<char>| !#[trigger] hosts.contains(x) by {
            if hosts.contains(x) {
                let k = choose|k: int| 0 <= k < hosts.len() && hosts[k] == x;
            }
        }
    } else {
        let n = hosts.len() - 1;
        let earlier_states = states.drop_last();
        let earlier = hosts.drop_last();
        assert(earlier_states[0] == states[0]);
        assert forall|k: int| 0 <= k < earlier.len() implies eligible_hosts(
            #[trigger] earlier_states[k],
            t,
            duration,
        ).contains(earlier[k]) by {
            assert(eligible_hosts(states[k], t, duration).contains(hosts[k]));
        }
        assert forall|k: int| 0 <= k < earlier.len() implies is_booked(
            #[trigger] earlier_states[k],
            earlier_states[k + 1],
            earlier[k],
            t,
            duration,
        ) by {
            assert(is_booked(states[k], states[k + 1], hosts[k], t, duration));
        }
        lemma_booking_run(earlier_states, earlier, t, duration);
        let before = states[n];
        let after = states[n + 1];
        assert(earlier_states.last() == before);
        assert(states.last() == after);
        let host = hosts[n];
        assert(is_booked(states[n], states[n + 1], hosts[n], t, duration));
        assert(eligible_hosts(states[n], t, duration).contains(hosts[n]));
        let open = eligible_hosts(before, t, duration);
        lemma_booking_closes_its_host(before, after, host, t, duration);
        let i = choose|i: int|
            0 <= i < open.len() && #[trigger] open[i] == host && eligible_hosts(after, t, duration)
                == open.remove(i);
        lemma_remove_keeps_the_rest(open, i);
        let left = eligible_hosts(after, t, duration);
        assert forall|u: int, v: int|
            #![trigger after[u], after[v]]
            0 <= u < v < after.len() implies after[u].user_id@ != after[v].user_id@ by {
            assert(before[u].user_id@ != before[v].user_id@);
            assert(after[u].user_id@ == before[u].user_id@);
            assert(after[v].user_id@ == before[v].user_id@);
        }
        assert forall|x: Seq<char>| #[trigger] hosts.contains(x) <==> earlier.contains(x) || x
            == host by {
            if hosts.contains(x) {
                let k = choose|k: int| 0 <= k < hosts.len() && hosts[k] == x;
                if k < n {
                    assert(earlier[k] == x);
                }
            }
            if earlier.contains(x) {
                let k = choose|k: int| 0 <= k < earlier.len() && earlier[k] == x;
                assert(hosts[k] == x);
            }
            if x == host {
                assert(hosts[n] == x);
            }
        }
        assert(open.contains(host));
        assert(!earlier.contains(host));
        assert forall|a: int, b: int| 0 <= a < hosts.len() && 0 <= b < hosts.len() && a
            != b implies hosts[a] != hosts[b] by {
            if a < n && b < n {
                assert(earlier[a] != earlier[b]);
            } else if a < n {
                assert(earlier.contains(earlier[a]));
            } else if b < n {
                assert(earlier.contains(earlier[b]));
            }
        }
        assert forall|x: Seq<char>| #[trigger] first.contains(x) <==> left.contains(x)
            || hosts.contains(x) by {
            assert(first.contains(x) <==> open.contains(x) || earlier.contains(x));
            assert(left.contains(x) <==> open.contains(x) && x != open[i]);
            assert(hosts.contains(x) <==> earlier.contains(x) || x == host);
        }
        assert forall|x: Seq<char>| !(left.contains(x) && #[trigger] hosts.contains(x)) by {
            assert(left.contains(x) <==> open.contains(x) && x != open[i]);
            assert(hosts.contains(x) <==> earlier.contains(x) || x == host);
            assert(!(open.contains(x) && earlier.contains(x)));
        }
    }
}

/// Booking one instant again and again, each booking making its host busy,
/// goes through every host that was eligible at the start exactly once. After
/// as many bookings as there were eligible hosts, nobody is eligible any
/// more. This holds whichever eligible host each booking picks.
pub proof fn lemma_every_host_is_booked_once(
    states: Seq<Seq<UserFreeEvents>>,
    hosts: Seq<Seq<char>>,
    t: int,
    duration: int,
)
    requires
        duration > 0,
        is_booking_run(states, hosts, t, duration),
        distinct_users(states[0]),
    ensures
        hosts.len() <= eligible_hosts(states[0], t, duration).len(),
        hosts.no_duplicates(),
        forall|x: Seq<char>| #[trigger]
            hosts.contains(x) ==> eligible_hosts(states[0], t, duration).contains(x),
        hosts.len() == eligible_hosts(states[0], t, duration).len() ==> {
            &&& eligible_hosts(states.last(), t, duration).len() == 0
            &&& forall|x: Seq<char>|
                #[trigger] eligible_hosts(states[0], t, duration).contains(x) ==> hosts.contains(x)
        },
{
    lemma_booking_run(states, hosts, t, duration);
    let first = eligible_hosts(states[0], t, duration);
    let left = eligible_hosts(states.last(), t, duration);
    assert forall|x: Seq<char>| #[trigger] hosts.contains(x) implies first.contains(x) by {
        assert(first.contains(x) <==> left.contains(x) || hosts.contains(x));
    }
    if hosts.len() == first.len() {
        assert(left.len() == 0);
        assert forall|x: Seq<char>| #[trigger] first.contains(x) implies hosts.contains(x) by {
            assert(first.contains(x) <==> left.contains(x) || hosts.contains(x));
            if left.contains(x) {
                let k = choose|k: int| 0 <= k < left.len() && left[k] == x;
            }
        }
    }
}

proof fn lemma_all_hosts_accepted(eligible: Seq<Seq<char>>)
    ensures
        accepted_hosts(eligible, None) == eligible,
    decreases eligible.len(),
{
    if eligible.len() > 0 {
        lemma_all_hosts_accepted(eligible.drop_last());
        assert(eligible.drop_last().push(eligible.last()) =~= eligible);
    } else {
        assert(eligible =~= Seq::empty());
    }
}

/// A request that names no hosts can be taken by somebody exactly when the
/// slot generator has a slot at the instant of the request, and the hosts
/// who can take it are the hosts of that slot.
pub proof fn lemma_request_matches_a_slot(
    users: Seq<UserFreeEvents>,
    start_ts: int,
    end_ts: int,
    request: BookingRequest,
)
    requires
        request.host_user_ids is None,
    ensures
        request_hosts(users, start_ts, end_ts, request).len() > 0 <==> (exists|k: int|
            0 <= k < slots_from(
                users,
                start_ts,
                end_ts,
                request.interval as int,
                request.duration as int,
            ).len() && (#[trigger] slots_from(
                users,
                start_ts,
                end_ts,
                request.interval as int,
                request.duration as int,
            )[k]).timestamp == request.timestamp),
        forall|k: int|
            0 <= k < slots_from(
                users,
                start_ts,
                end_ts,
                request.interval as int,
                request.duration as int,
            ).len() && (#[trigger] slots_from(
                users,
                start_ts,
                end_ts,
                request.interval as int,
                request.duration as int,
            )[k]).timestamp == request.timestamp ==> slots_from(
                users,
                start_ts,
                end_ts,
                request.interval as int,
                request.duration as int,
            )[k].eligible_hosts == request_hosts(users, start_ts, end_ts, request),
{
    let interval = request.interval as int;
    let duration = request.duration as int;
    let t = request.timestamp as int;
    let slots = slots_from(users, start_ts, end_ts, interval, duration);
    let hosts = request_hosts(users, start_ts, end_ts, request);
    lemma_all_hosts_accepted(eligible_hosts(users, t, duration));
    if hosts.len() > 0 {
        lemma_steps_have_slots(users, start_ts, end_ts, interval, duration, t);
    }
    assert forall|k: int| 0 <= k < slots.len() && (#[trigger] slots[k]).timestamp == t implies slots[k].eligible_hosts
        == hosts && hosts.len() > 0 by {
        lemma_slots_are_steps(users, start_ts, end_ts, interval, duration, k);
    }
}

} // verus!
