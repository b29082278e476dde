//! Free time of one participant of a service inside a booking window.
//!
//! A participant is nominally free according to a time plan. Busy intervals,
//! each widened by the participant's buffers, are taken out of that. Where a
//! source of schedules or of busy time gave no answer, the participant has no
//! free time at all.

use crate::booking_slots::UserFreeEvents;
use crate::calendar_view::CalendarView;
use crate::interval::{
    covers, covers_span, intersect, lemma_covers_push, lemma_span_is_pointwise, normalized,
    subtract, within, Interval,
};
use vstd::prelude::*;

verus! {

/// Where the nominal availability of a participant comes from.
#[derive(Debug)]
pub enum TimePlan {
    /// The working hours of the schedule with this id.
    Schedule(String),
    AlwaysAvailable,
    AlwaysBusy,
}

/// A user who can host the bookings of a service.
#[derive(Debug)]
pub struct Participant {
    pub user_id: String,
    pub availability: TimePlan,
    /// The calendars whose events make the user busy.
    pub busy_sources: Vec<String>,
    /// Time kept free before each busy interval, in milliseconds.
    pub buffer_before: i64,
    /// Time kept free after each busy interval, in milliseconds.
    pub buffer_after: i64,
}

/// The timestamp nearest to `v`.
pub open spec fn clamp_ts(v: int) -> i64 {
    if v < i64::MIN {
        i64::MIN
    } else if v > i64::MAX {
        i64::MAX
    } else {
        v as i64
    }
}

/// A busy interval with `before` taken off its start and `after` put on its
/// end, each bound kept inside the range of timestamps.
pub open spec fn widened(busy: Interval, before: int, after: int) -> Interval {
    Interval { start_ts: clamp_ts(busy.start_ts - before), end_ts: clamp_ts(busy.end_ts + after) }
}

/// Some widened busy interval holds the instant `t`.
pub open spec fn busy_at(busy: Seq<Interval>, before: int, after: int, t: int) -> bool {
    exists|i: int| 0 <= i < busy.len() && (#[trigger] widened(busy[i], before, after)).contains(t)
}

/// The plan alone makes the participant free at `t`: `t` is in the window
/// and the plan allows it. A schedule that gave no answer allows nothing.
pub open spec fn nominally_free(
    plan: TimePlan,
    schedule_free: Option<Vec<Interval>>,
    window: CalendarView,
    t: int,
) -> bool {
    &&& window.start() <= t < window.end()
    &&& match plan {
        TimePlan::AlwaysAvailable => true,
        TimePlan::AlwaysBusy => false,
        TimePlan::Schedule(_) => schedule_free matches Some(free) && covers(free@, t),
    }
}

/// The participant is free at `t`: nominally free, and no widened busy
/// interval holds `t`. Busy time that gave no answer leaves nothing free.
pub open spec fn free_at(
    participant: Participant,
    window: CalendarView,
    schedule_free: Option<Vec<Interval>>,
    busy: Option<Vec<Interval>>,
    t: int,
) -> bool {
    &&& nominally_free(participant.availability, schedule_free, window, t)
    &&& busy matches Some(b) && !busy_at(
        b@,
        participant.buffer_before as int,
        participant.buffer_after as int,
        t,
    )
}

/// What the aggregator answers for a participant: the normalized set of the
/// instants at which the participant is free.
pub open spec fn is_free_busy_result(
    out: Seq<Interval>,
    participant: Participant,
    window: CalendarView,
    schedule_free: Option<Vec<Interval>>,
    busy: Option<Vec<Interval>>,
) -> bool {
    &&& normalized(out)
    &&& forall|t: int| #[trigger]
        covers(out, t) <==> free_at(participant, window, schedule_free, busy, t)
}

fn shift_back(ts: i64, by: i64) -> (r: i64)
    ensures
        r == clamp_ts(ts - by),
{
    match ts.checked_sub(by) {
        Some(v) => v,
        None => if by > 0 {
            i64::MIN
        } else {
            i64::MAX
        },
    }
}

fn shift_forward(ts: i64, by: i64) -> (r: i64)
    ensures
        r == clamp_ts(ts + by),
{
    match ts.checked_add(by) {
        Some(v) => v,
        None => if by > 0 {
            i64::MAX
        } else {
            i64::MIN
        },
    }
}

/// Widens every busy interval by the two buffers.
pub fn widen_all(busy: &Vec<Interval>, before: i64, after: i64) -> (out: Vec<Interval>)
    ensures
        out@.len() == busy@.len(),
        forall|i: int|
            0 <= i < busy@.len() ==> #[trigger] out@[i] == widened(
                busy@[i],
                before as int,
                after as int,
            ),
{
    let mut out: Vec<Interval> = Vec::new();
    let mut i: usize = 0;
    while i < busy.len()
        invariant
            i <= busy.len(),
            out@.len() == i,
            forall|k: int|
                0 <= k < i ==> #[trigger] out@[k] == widened(busy@[k], before as int, after as int),
        decreases busy.len() - i,
    {
        let b: Interval = busy[i];
        out.push(
            Interval {
                start_ts: shift_back(b.start_ts, before),
                end_ts: shift_forward(b.end_ts, after),
            },
        );
        i = i + 1;
    }
    out
}

proof fn lemma_widened_covers(
    busy: Seq<Interval>,
    wide: Seq<Interval>,
    before: int,
    after: int,
    t: int,
)
    requires
        wide.len() == busy.len(),
        forall|i: int| 0 <= i < busy.len() ==> #[trigger] wide[i] == widened(busy[i], before, after),
    ensures
        covers(wide, t) <==> busy_at(busy, before, after, t),
{
    if covers(wide, t) {
        let i = choose|i: int| 0 <= i < wide.len() && #[trigger] wide[i].contains(t);
        assert(widened(busy[i], before, after).contains(t));
    }
    if busy_at(busy, before, after, t) {
        let i = choose|i: int|
            0 <= i < busy.len() && (#[trigger] widened(busy[i], before, after)).contains(t);
        assert(wide[i].contains(t));
    }
}

/// The free time of a participant inside a window.
///
/// `schedule_free` is the answer of the schedule store for the window: the
/// working hours of the participant's schedule, already expanded; it is read
/// only for a participant with a schedule. `busy` is the answer of the
/// calendar store: the busy intervals of the participant's calendars. `None`
/// stands for a store that gave no answer.
pub fn participant_free_intervals(
    participant: &Participant,
    window: &CalendarView,
    schedule_free: &Option<Vec<Interval>>,
    busy: &Option<Vec<Interval>>,
) -> (out: Vec<Interval>)
    ensures
        is_free_busy_result(out@, *participant, *window, *schedule_free, *busy),
        within(out@, window.start() as int, window.end() as int),
{
    let start_ts: i64 = window.get_start();
    let end_ts: i64 = start_ts + window.span();
    let empty: Vec<Interval> = Vec::new();
    let mut whole: Vec<Interval> = Vec::new();
    whole.push(Interval { start_ts, end_ts });
    proof {
        assert forall|t: int| #[trigger] covers(whole@, t) <==> start_ts <= t < end_ts by {
            lemma_covers_push(Seq::<Interval>::empty(), whole@[0], t);
            assert(whole@ =~= Seq::<Interval>::empty().push(whole@[0]));
        }
    }
    let nominal: Vec<Interval> = match &participant.availability {
        TimePlan::AlwaysAvailable => whole,
        TimePlan::AlwaysBusy => empty,
        TimePlan::Schedule(_) => match schedule_free {
            Some(free) => intersect(&whole, free),
            None => empty,
        },
    };
    proof {
        assert forall|t: int| #[trigger]
            covers(nominal@, t) <==> nominally_free(
                participant.availability,
                *schedule_free,
                *window,
                t,
            ) by {
            assert(covers(whole@, t) <==> start_ts <= t < end_ts);
        }
    }
    let out: Vec<Interval> = match busy {
        Some(b) => {
            let wide: Vec<Interval> = widen_all(b, participant.buffer_before, participant.buffer_after);
            let out: Vec<Interval> = subtract(&nominal, &wide);
            proof {
                assert forall|t: int| #[trigger]
                    covers(out@, t) <==> free_at(
                        *participant,
                        *window,
                        *schedule_free,
                        *busy,
                        t,
                    ) by {
                    lemma_widened_covers(
                        b@,
                        wide@,
                        participant.buffer_before as int,
                        participant.buffer_after as int,
                        t,
                    );
                    assert(covers(nominal@, t) <==> nominally_free(
                        participant.availability,
                        *schedule_free,
                        *window,
                        t,
                    ));
                }
            }
            out
        },
        None => Vec::new(),
    };
    proof {
        lemma_free_time_in_window(out@, *participant, *window, *schedule_free, *busy);
    }
    out
}

/// Free time never leaves the window.
pub proof fn lemma_free_time_in_window(
    out: Seq<Interval>,
    participant: Participant,
    window: CalendarView,
    schedule_free: Option<Vec<Interval>>,
    busy: Option<Vec<Interval>>,
)
    requires
        is_free_busy_result(out, participant, window, schedule_free, busy),
    ensures
        within(out, window.start() as int, window.end() as int),
{
    assert forall|i: int| 0 <= i < out.len() implies window.start() <= (#[trigger] out[i]).start_ts
        && out[i].end_ts <= window.end() by {
        assert(out[i].wf());
        assert(out[i].contains(out[i].start_ts as int));
        assert(out[i].contains(out[i].end_ts - 1));
        assert(covers(out, out[i].start_ts as int));
        assert(covers(out, out[i].end_ts - 1));
    }
}

/// The free intervals of a participant are sorted and do not overlap, no free
/// instant is busy, and every instant of the window is free, busy (buffers
/// counted), or outside the participant's nominal availability.
pub proof fn lemma_free_and_busy_fill_window(
    out: Seq<Interval>,
    participant: Participant,
    window: CalendarView,
    schedule_free: Option<Vec<Interval>>,
    busy: Vec<Interval>,
)
    requires
        is_free_busy_result(out, participant, window, schedule_free, Some(busy)),
    ensures
        forall|i: int, j: int|
            #![trigger out[i], out[j]]
            0 <= i < j < out.len() ==> out[i].start_ts < out[i].end_ts && out[i].end_ts
                < out[j].start_ts,
        forall|t: int|
            !(#[trigger] covers(out, t) && busy_at(
                busy@,
                participant.buffer_before as int,
                participant.buffer_after as int,
                t,
            )),
        forall|t: int|
            window.start() <= t < window.end() ==> #[trigger] covers(out, t) || busy_at(
                busy@,
                participant.buffer_before as int,
                participant.buffer_after as int,
                t,
            ) || !nominally_free(participant.availability, schedule_free, window, t),
{
    assert forall|i: int, j: int|
        #![trigger out[i], out[j]]
        0 <= i < j < out.len() implies out[i].start_ts < out[i].end_ts && out[i].end_ts
        < out[j].start_ts by {
        assert(out[i].wf());
    }
    assert forall|t: int|
        !(#[trigger] covers(out, t) && busy_at(
            busy@,
            participant.buffer_before as int,
            participant.buffer_after as int,
            t,
        )) by {
        assert(covers(out, t) <==> free_at(participant, window, schedule_free, Some(busy), t));
    }
    assert forall|t: int| window.start() <= t < window.end() implies #[trigger] covers(out, t)
        || busy_at(
        busy@,
        participant.buffer_before as int,
        participant.buffer_after as int,
        t,
    ) || !nominally_free(participant.availability, schedule_free, window, t) by {
        assert(covers(out, t) <==> free_at(participant, window, schedule_free, Some(busy), t));
    }
}

/// What the stores answered for one participant: the working hours of the
/// participant's schedule and the busy intervals of the participant's
/// calendars, each expanded for the window. `None` stands for a store
/// that gave no answer.
#[derive(Debug)]
pub struct ParticipantAnswers {
    pub schedule_free: Option<Vec<Interval>>,
    pub busy: Option<Vec<Interval>>,
}

/// The users are the participants, in their order, each with the free time
/// that the answers give it. A participant without answers has no free time.
pub open spec fn is_service_free_events(
    users: Seq<UserFreeEvents>,
    participants: Seq<Participant>,
    window: CalendarView,
    answers: Seq<ParticipantAnswers>,
) -> bool {
    &&& users.len() == participants.len()
    &&& forall|i: int|
        0 <= i < participants.len() ==> (#[trigger] users[i]).user_id@ == participants[i].user_id@
    &&& forall|i: int|
        0 <= i < participants.len() && i < answers.len() ==> is_free_busy_result(
            (#[trigger] users[i]).free_events@,
            participants[i],
            window,
            answers[i].schedule_free,
            answers[i].busy,
        )
    &&& forall|i: int|
        answers.len() <= i < participants.len() ==> (#[trigger] users[i]).free_events@.len() == 0
}

/// The free time of every participant of a service, in the order of the
/// participants. A participant for whom there are no answers has no free
/// time.
pub fn service_free_events(
    participants: &Vec<Participant>,
    window: &CalendarView,
    answers: &Vec<ParticipantAnswers>,
) -> (out: Vec<UserFreeEvents>)
    ensures
        is_service_free_events(out@, participants@, *window, answers@),
        out@.len() == participants@.len(),
        forall|i: int|
            0 <= i < participants@.len() ==> (#[trigger] out@[i]).user_id@
                == participants@[i].user_id@,
        forall|i: int|
            0 <= i < participants@.len() && i < answers@.len() ==> is_free_busy_result(
                (#[trigger] out@[i]).free_events@,
                participants@[i],
                *window,
                answers@[i].schedule_free,
                answers@[i].busy,
            ),
        forall|i: int|
            answers@.len() <= i < participants@.len() ==> (#[trigger] out@[i]).free_events@.len()
                == 0,
{
    let mut out: Vec<UserFreeEvents> = Vec::new();
    let mut i: usize = 0;
    while i < participants.len()
        invariant
            i <= participants.len(),
            out@.len() == i,
            forall|k: int|
                0 <= k < i ==> (#[trigger] out@[k]).user_id@ == participants@[k].user_id@,
            forall|k: int|
                0 <= k < i && k < answers@.len() ==> is_free_busy_result(
                    (#[trigger] out@[k]).free_events@,
                    participants@[k],
                    *window,
                    answers@[k].schedule_free,
                    answers@[k].busy,
                ),
            forall|k: int| answers@.len() <= k < i ==> (#[trigger] out@[k]).free_events@.len() == 0,
        decreases participants.len() - i,
    {
        let free_events: Vec<Interval> = if i < answers.len() {
            participant_free_intervals(
                &participants[i],
                window,
                &answers[i].schedule_free,
                &answers[i].busy,
            )
        } else {
            Vec::new()
        };
        out.push(UserFreeEvents { free_events, user_id: participants[i].user_id.clone() });
        i = i + 1;
    }
    out
}

/// A participant whose free intervals hold a whole booking is free at each
/// of its instants: nominally available, and not busy, buffers counted.
pub proof fn lemma_free_span_is_free_throughout(
    out: Seq<Interval>,
    participant: Participant,
    window: CalendarView,
    schedule_free: Option<Vec<Interval>>,
    busy: Option<Vec<Interval>>,
    t: int,
    duration: int,
)
    requires
        is_free_busy_result(out, participant, window, schedule_free, busy),
        duration > 0,
        covers_span(out, t, duration),
    ensures
        forall|x: int|
            t <= x < t + duration ==> #[trigger] free_at(
                participant,
                window,
                schedule_free,
                busy,
                x,
            ),
{
    lemma_span_is_pointwise(out, t, duration);
    assert forall|x: int| t <= x < t + duration implies #[trigger] free_at(
        participant,
        window,
        schedule_free,
        busy,
        x,
    ) by {
        assert(covers(out, x));
    }
}

} // verus!
