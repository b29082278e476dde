//! Reminders of calendar events that are due to be sent.

use vstd::prelude::*;

verus! {

/// A reminder of one event, to be sent at `remind_at`.
#[derive(Debug)]
pub struct Reminder {
    pub id: String,
    pub remind_at: i64,
    pub event_id: String,
    pub account_id: String,
    pub priority: i64,
}

/// Collects the reminders that are due in the next interval.
#[derive(Debug)]
pub struct GetUpcomingRemindersUseCase {}

/// How often reminders are sent.
#[derive(Clone, Copy, Debug)]
pub struct SendEventRemindersConfig {
    /// Milliseconds between two runs.
    pub send_interval: i64,
}

/// One minute, in milliseconds.
pub const SEND_INTERVAL: i64 = 60_000;

impl GetUpcomingRemindersUseCase {
    /// Reminders are sent every minute.
    pub fn get_config() -> (config: SendEventRemindersConfig)
        ensures
            config.send_interval == SEND_INTERVAL,
    {
        SendEventRemindersConfig { send_interval: SEND_INTERVAL }
    }

    /// The instant up to which reminders are due at `now`: one interval
    /// ahead, or the last timestamp there is.
    pub fn due_until(now: i64) -> (ts: i64)
        ensures
            ts == (if now + SEND_INTERVAL > i64::MAX {
                i64::MAX
            } else {
                (now + SEND_INTERVAL) as i64
            }),
    {
        match now.checked_add(Self::get_config().send_interval) {
            Some(ts) => ts,
            None => i64::MAX,
        }
    }
}

/// How many reminders at the front of `sorted` are at most as urgent as
/// `priority`: the place at which a reminder of that priority goes, behind
/// those of its own priority that are there already.
pub open spec fn rank(sorted: Seq<Reminder>, priority: int) -> int
    decreases sorted.len(),
{
    if sorted.len() == 0 || sorted[0].priority > priority {
        0
    } else {
        1 + rank(sorted.drop_first(), priority)
    }
}

/// The reminders in the order of their priority, lowest number first;
/// reminders of one priority stay in the order in which they came.
pub open spec fn sorted_by_priority(reminders: Seq<Reminder>) -> Seq<Reminder>
    decreases reminders.len(),
{
    if reminders.len() == 0 {
        Seq::empty()
    } else {
        let earlier = sorted_by_priority(reminders.drop_last());
        earlier.insert(rank(earlier, reminders.last().priority as int), reminders.last())
    }
}

/// Some reminder of the list is for the event `event_id`.
pub open spec fn has_event(reminders: Seq<Reminder>, event_id: Seq<char>) -> bool {
    exists|k: int| 0 <= k < reminders.len() && (#[trigger] reminders[k]).event_id@ == event_id
}

/// For each event the first reminder of the list that is for it, in the
/// order of the list.
pub open spec fn first_of_each_event(reminders: Seq<Reminder>) -> Seq<Reminder>
    decreases reminders.len(),
{
    if reminders.len() == 0 {
        Seq::empty()
    } else {
        let earlier = first_of_each_event(reminders.drop_last());
        if has_event(reminders.drop_last(), reminders.last().event_id@) {
            earlier
        } else {
            earlier.push(reminders.last())
        }
    }
}

proof fn lemma_rank_skip(sorted: Seq<Reminder>, priority: int, p: int)
    requires
        0 <= p <= sorted.len(),
        forall|k: int| 0 <= k < p ==> (#[trigger] sorted[k]).priority <= priority,
    ensures
        rank(sorted, priority) == p + rank(sorted.skip(p), priority),
    decreases p,
{
    if p == 0 {
        assert(sorted.skip(0) =~= sorted);
    } else {
        assert(sorted[0].priority <= priority);
        let rest = sorted.drop_first();
        assert forall|k: int| 0 <= k < p - 1 implies (#[trigger] rest[k]).priority <= priority by {
            assert(rest[k] == sorted[k + 1]);
        }
        lemma_rank_skip(rest, priority, p - 1);
        assert(rest.skip(p - 1) =~= sorted.skip(p));
    }
}

/// The first reminders of each event are for the same events as the list.
pub proof fn lemma_first_of_each_event_keeps_events(reminders: Seq<Reminder>, event_id: Seq<char>)
    ensures
        has_event(first_of_each_event(reminders), event_id) <==> has_event(reminders, event_id),
    decreases reminders.len(),
{
    if reminders.len() > 0 {
        let rest = reminders.drop_last();
        let last = reminders.last();
        let kept = first_of_each_event(reminders);
        let earlier = first_of_each_event(rest);
        lemma_first_of_each_event_keeps_events(rest, event_id);
        lemma_first_of_each_event_keeps_events(rest, last.event_id@);
        if has_event(kept, event_id) {
            let k = choose|k: int| 0 <= k < kept.len() && (#[trigger] kept[k]).event_id@ == event_id;
            if k < earlier.len() {
                assert(earlier[k].event_id@ == event_id);
                let j = choose|j: int| 0 <= j < rest.len() && (#[trigger] rest[j]).event_id@ == event_id;
                assert(reminders[j].event_id@ == event_id);
            } else {
                assert(reminders[reminders.len() - 1].event_id@ == event_id);
            }
        }
        if has_event(reminders, event_id) {
            let j = choose|j: int|
                0 <= j < reminders.len() && (#[trigger] reminders[j]).event_id@ == event_id;
            if j < rest.len() {
                assert(rest[j].event_id@ == event_id);
                let k = choose|k: int| 0 <= k < earlier.len() && (#[trigger] earlier[k]).event_id@ == event_id;
                assert(kept[k].event_id@ == event_id);
            } else if has_event(rest, last.event_id@) {
                let k = choose|k: int| 0 <= k < earlier.len() && (#[trigger] earlier[k]).event_id@ == event_id;
                assert(kept[k].event_id@ == event_id);
            } else {
                assert(kept[earlier.len() as int].event_id@ == event_id);
            }
        }
    }
}

/// No two of the first reminders of each event are for the same event.
pub proof fn lemma_first_of_each_event_is_distinct(reminders: Seq<Reminder>, i: int, j: int)
    requires
        0 <= i < j < first_of_each_event(reminders).len(),
    ensures
        first_of_each_event(reminders)[i].event_id@ != first_of_each_event(reminders)[j].event_id@,
    decreases reminders.len(),
{
    let rest = reminders.drop_last();
    let earlier = first_of_each_event(rest);
    if j < earlier.len() {
        lemma_first_of_each_event_is_distinct(rest, i, j);
    } else {
        lemma_first_of_each_event_keeps_events(rest, reminders.last().event_id@);
        if earlier[i].event_id@ == reminders.last().event_id@ {
            assert(has_event(earlier, reminders.last().event_id@));
        }
    }
}

proof fn lemma_rank_splits(sorted: Seq<Reminder>, priority: int)
    ensures
        0 <= rank(sorted, priority) <= sorted.len(),
        forall|k: int|
            0 <= k < rank(sorted, priority) ==> (#[trigger] sorted[k]).priority <= priority,
        rank(sorted, priority) < sorted.len() ==> sorted[rank(sorted, priority)].priority
            > priority,
    decreases sorted.len(),
{
    if sorted.len() > 0 && sorted[0].priority <= priority {
        let rest = sorted.drop_first();
        lemma_rank_splits(rest, priority);
        assert forall|k: int| 0 <= k < rank(sorted, priority) implies (#[trigger] sorted[k]).priority
            <= priority by {
            if k > 0 {
                assert(rest[k - 1].priority <= priority);
            }
        }
        if rank(sorted, priority) < sorted.len() {
            assert(rest[rank(rest, priority)] == sorted[rank(sorted, priority)]);
        }
    }
}

/// For each place of the sorted list, the place in the list as it came of
/// the reminder that stands there.
pub open spec fn sort_order(reminders: Seq<Reminder>) -> Seq<int>
    decreases reminders.len(),
{
    if reminders.len() == 0 {
        Seq::empty()
    } else {
        let earlier = sorted_by_priority(reminders.drop_last());
        sort_order(reminders.drop_last()).insert(
            rank(earlier, reminders.last().priority as int),
            reminders.len() - 1,
        )
    }
}

/// Some place of the sorted list holds the reminder that came at place `i`.
pub open spec fn is_source(order: Seq<int>, i: int) -> bool {
    exists|k: int| 0 <= k < order.len() && #[trigger] order[k] == i
}

/// What sorting by priority does, said directly. The sorted list holds the
/// reminders of the list as it came, each once: place `k` holds the reminder
/// that came at place `sort_order[k]`, and every place of the list as it came
/// is the source of some place. Priorities do not fall along the sorted list,
/// and reminders of one priority stand in the order in which they came.
pub proof fn lemma_sorting_is_stable(reminders: Seq<Reminder>)
    ensures
        sorted_by_priority(reminders).len() == reminders.len(),
        sort_order(reminders).len() == reminders.len(),
        forall|k: int|
            0 <= k < reminders.len() ==> 0 <= (#[trigger] sort_order(reminders)[k])
                < reminders.len(),
        forall|k: int|
            0 <= k < reminders.len() ==> (#[trigger] sorted_by_priority(reminders)[k])
                == reminders[sort_order(reminders)[k]],
        forall|i: int| 0 <= i < reminders.len() ==> #[trigger] is_source(sort_order(reminders), i),
        forall|a: int, b: int|
            #![trigger sort_order(reminders)[a], sort_order(reminders)[b]]
            0 <= a < b < reminders.len() ==> {
                ||| sorted_by_priority(reminders)[a].priority < sorted_by_priority(
                    reminders,
                )[b].priority
                ||| sorted_by_priority(reminders)[a].priority == sorted_by_priority(
                    reminders,
                )[b].priority && sort_order(reminders)[a] < sort_order(reminders)[b]
            },
    decreases reminders.len(),
{
    if reminders.len() > 0 {
        let n = reminders.len() as int;
        let rest = reminders.drop_last();
        let last = reminders.last();
        let earlier = sorted_by_priority(rest);
        let earlier_order = sort_order(rest);
        let r = rank(earlier, last.priority as int);
        let out = sorted_by_priority(reminders);
        let order = sort_order(reminders);
        lemma_sorting_is_stable(rest);
        lemma_rank_splits(earlier, last.priority as int);
        assert(out.len() == n && order.len() == n);
        assert forall|k: int| 0 <= k < n implies 0 <= (#[trigger] order[k]) < n && out[k]
            == reminders[order[k]] by {
            if k < r {
                assert(order[k] == earlier_order[k]);
                assert(out[k] == earlier[k]);
                assert(rest[earlier_order[k]] == reminders[earlier_order[k]]);
            } else if k > r {
                assert(order[k] == earlier_order[k - 1]);
                assert(out[k] == earlier[k - 1]);
                assert(rest[earlier_order[k - 1]] == reminders[earlier_order[k - 1]]);
            }
        }
        assert forall|i: int| 0 <= i < n implies #[trigger] is_source(order, i) by {
            if i == n - 1 {
                assert(order[r] == i);
            } else {
                assert(is_source(earlier_order, i));
                let k = choose|k: int|
                    0 <= k < earlier_order.len() && #[trigger] earlier_order[k] == i;
                if k < r {
                    assert(order[k] == i);
                } else {
                    assert(order[k + 1] == i);
                }
            }
        }
        assert forall|a: int, b: int|
            #![trigger order[a], order[b]]
            0 <= a < b < n implies {
            ||| out[a].priority < out[b].priority
            ||| out[a].priority == out[b].priority && order[a] < order[b]
        } by {
            let a0 = if a < r {
                a
            } else {
                a - 1
            };
            let b0 = if b < r {
                b
            } else {
                b - 1
            };
            if a != r && b != r {
                assert(order[a] == earlier_order[a0] && order[b] == earlier_order[b0]);
                assert(out[a] == earlier[a0] && out[b] == earlier[b0]);
                assert({
                    ||| earlier[a0].priority < earlier[b0].priority
                    ||| earlier[a0].priority == earlier[b0].priority && earlier_order[a0]
                        < earlier_order[b0]
                });
            } else if a == r {
                // Everything behind the new reminder is less urgent than it.
                assert(out[b] == earlier[b0]);
                assert(earlier[r].priority > last.priority);
                if b0 > r {
                    assert(order[r + 1] == earlier_order[r]);
                    assert({
                        ||| earlier[r].priority < earlier[b0].priority
                        ||| earlier[r].priority == earlier[b0].priority && earlier_order[r]
                            < earlier_order[b0]
                    });
                }
            } else {
                // Everything before the new reminder came before it.
                assert(out[a] == earlier[a]);
                assert(earlier[a].priority <= last.priority);
                assert(order[a] == earlier_order[a]);
                assert(0 <= earlier_order[a] < n - 1);
            }
        }
    }
}

/// Each of the first reminders of each event stands in the list, and no
/// reminder before it in the list is for its event.
pub proof fn lemma_first_of_each_event_is_first(reminders: Seq<Reminder>, k: int)
    requires
        0 <= k < first_of_each_event(reminders).len(),
    ensures
        exists|m: int|
            0 <= m < reminders.len() && #[trigger] reminders[m] == first_of_each_event(
                reminders,
            )[k] && forall|before: int|
                0 <= before < m ==> (#[trigger] reminders[before]).event_id@
                    != reminders[m].event_id@,
    decreases reminders.len(),
{
    let rest = reminders.drop_last();
    let earlier = first_of_each_event(rest);
    if k < earlier.len() {
        lemma_first_of_each_event_is_first(rest, k);
        let m = choose|m: int|
            0 <= m < rest.len() && #[trigger] rest[m] == earlier[k] && forall|before: int|
                0 <= before < m ==> (#[trigger] rest[before]).event_id@ != rest[m].event_id@;
        assert(reminders[m] == rest[m]);
        assert forall|before: int| 0 <= before < m implies (#[trigger] reminders[before]).event_id@
            != reminders[m].event_id@ by {
            assert(rest[before].event_id@ != rest[m].event_id@);
        }
    } else {
        let m = reminders.len() - 1;
        assert(reminders[m] == first_of_each_event(reminders)[k]);
        assert forall|before: int| 0 <= before < m implies (#[trigger] reminders[before]).event_id@
            != reminders[m].event_id@ by {
            assert(rest[before] == reminders[before]);
        }
    }
}

/// What is left of a list of reminders once the doubles are dropped.
pub open spec fn deduplicated(reminders: Seq<Reminder>) -> Seq<Reminder> {
    first_of_each_event(sorted_by_priority(reminders))
}

/// Of the reminders of one event the most urgent one stays, and where several
/// are as urgent, the one that came first: every reminder that stays came
/// in the list, and no reminder of its event in the list has a lower priority
/// number, or the same number and an earlier place.
pub proof fn lemma_dedup_keeps_the_most_urgent(reminders: Seq<Reminder>, k: int)
    requires
        0 <= k < deduplicated(reminders).len(),
    ensures
        exists|i: int|
            0 <= i < reminders.len() && #[trigger] reminders[i] == deduplicated(reminders)[k]
                && forall|j: int|
                0 <= j < reminders.len() && (#[trigger] reminders[j]).event_id@
                    == reminders[i].event_id@ ==> reminders[i].priority < reminders[j].priority
                    || (reminders[i].priority == reminders[j].priority && i <= j),
{
    let sorted = sorted_by_priority(reminders);
    let order = sort_order(reminders);
    lemma_sorting_is_stable(reminders);
    lemma_first_of_each_event_is_first(sorted, k);
    let m = choose|m: int|
        0 <= m < sorted.len() && #[trigger] sorted[m] == first_of_each_event(sorted)[k]
            && forall|before: int|
            0 <= before < m ==> (#[trigger] sorted[before]).event_id@ != sorted[m].event_id@;
    let i = order[m];
    assert(sorted[m] == reminders[i]);
    assert forall|j: int|
        0 <= j < reminders.len() && (#[trigger] reminders[j]).event_id@
            == reminders[i].event_id@ implies reminders[i].priority < reminders[j].priority || (
    reminders[i].priority == reminders[j].priority && i <= j) by {
        assert(is_source(order, j));
        let m2 = choose|m2: int| 0 <= m2 < order.len() && #[trigger] order[m2] == j;
        assert(sorted[m2] == reminders[j]);
        if m2 < m {
            assert(sorted[m2].event_id@ != sorted[m].event_id@);
        } else if m2 > m {
            assert({
                ||| sorted[m].priority < sorted[m2].priority
                ||| sorted[m].priority == sorted[m2].priority && order[m] < order[m2]
            });
        }
    }
}

/// Every event of which the list reminds keeps a reminder, and what stays
/// reminds of no other event.
pub proof fn lemma_dedup_keeps_every_event(reminders: Seq<Reminder>, event_id: Seq<char>)
    ensures
        has_event(deduplicated(reminders), event_id) <==> has_event(reminders, event_id),
{
    let sorted = sorted_by_priority(reminders);
    let order = sort_order(reminders);
    lemma_sorting_is_stable(reminders);
    lemma_first_of_each_event_keeps_events(sorted, event_id);
    if has_event(sorted, event_id) {
        let k = choose|k: int| 0 <= k < sorted.len() && (#[trigger] sorted[k]).event_id@ == event_id;
        assert(reminders[order[k]].event_id@ == event_id);
    }
    if has_event(reminders, event_id) {
        let j = choose|j: int|
            0 <= j < reminders.len() && (#[trigger] reminders[j]).event_id@ == event_id;
        assert(is_source(order, j));
        let k = choose|k: int| 0 <= k < order.len() && #[trigger] order[k] == j;
        assert(sorted[k].event_id@ == event_id);
    }
}

/// Sorting keeps every reminder as often as it came.
pub proof fn lemma_sorting_is_a_permutation(reminders: Seq<Reminder>)
    ensures
        sorted_by_priority(reminders).to_multiset() == reminders.to_multiset(),
    decreases reminders.len(),
{
    if reminders.len() > 0 {
        let rest = reminders.drop_last();
        let last = reminders.last();
        let earlier = sorted_by_priority(rest);
        lemma_sorting_is_a_permutation(rest);
        lemma_rank_splits(earlier, last.priority as int);
        let r = rank(earlier, last.priority as int);
        vstd::seq_lib::to_multiset_insert(earlier, r, last);
        vstd::seq_lib::to_multiset_build(rest, last);
        assert(rest.push(last) =~= reminders);
        assert(sorted_by_priority(reminders) == earlier.insert(r, last));
        assert(earlier.insert(r, last).to_multiset() == earlier.to_multiset().insert(last));
        assert(rest.push(last).to_multiset() == rest.to_multiset().insert(last));
    } else {
        assert(reminders =~= Seq::empty());
    }
}

fn contains_event(reminders: &Vec<Reminder>, event_id: &String) -> (r: bool)
    ensures
        r == has_event(reminders@, event_id@),
{
    let mut k: usize = 0;
    while k < reminders.len()
        invariant
            k <= reminders.len(),
            forall|j: int| 0 <= j < k ==> (#[trigger] reminders@[j]).event_id@ != event_id@,
        decreases reminders.len() - k,
    {
        if reminders[k].event_id == *event_id {
            return true;
        }
        k = k + 1;
    }
    false
}

/// Puts the reminders in the order of their priority, lowest number first,
/// and keeps reminders of equal priority in the order in which they came.
pub fn sort_by_priority(reminders: &mut Vec<Reminder>)
    ensures
        final(reminders)@ == sorted_by_priority(old(reminders)@),
{
    let ghost all = reminders@;
    let mut sorted: Vec<Reminder> = Vec::new();
    let ghost mut done: int = 0;
    while reminders.len() > 0
        invariant
            0 <= done <= all.len(),
            reminders@ == all.skip(done),
            sorted@ == sorted_by_priority(all.take(done)),
        decreases reminders.len(),
    {
        let x: Reminder = reminders.remove(0);
        let mut p: usize = 0;
        while p < sorted.len() && sorted[p].priority <= x.priority
            invariant
                p <= sorted.len(),
                forall|k: int| 0 <= k < p ==> (#[trigger] sorted@[k]).priority <= x.priority,
            decreases sorted.len() - p,
        {
            p = p + 1;
        }
        proof {
            lemma_rank_skip(sorted@, x.priority as int, p as int);
            assert(x == all[done]);
            assert(all.take(done + 1).drop_last() =~= all.take(done));
            assert(all.take(done + 1).last() == x);
            assert(all.skip(done).remove(0) =~= all.skip(done + 1));
            if p < sorted.len() {
                assert(sorted@.skip(p as int)[0] == sorted@[p as int]);
            }
            done = done + 1;
        }
        sorted.insert(p, x);
    }
    proof {
        assert(all.take(all.len() as int) =~= all);
    }
    *reminders = sorted;
}

/// Drops the reminders that say the same thing twice: of the reminders of
/// one event only the one with the lowest priority number stays, and where
/// several have that number, the one that came first. What stays is in the
/// order of priority.
pub fn dedup_reminders(reminders: &mut Vec<Reminder>)
    ensures
        final(reminders)@ == deduplicated(old(reminders)@),
{
    sort_by_priority(reminders);
    let ghost sorted = reminders@;
    let mut kept: Vec<Reminder> = Vec::new();
    let ghost mut done: int = 0;
    while reminders.len() > 0
        invariant
            0 <= done <= sorted.len(),
            reminders@ == sorted.skip(done),
            kept@ == first_of_each_event(sorted.take(done)),
        decreases reminders.len(),
    {
        let x: Reminder = reminders.remove(0);
        proof {
            assert(x == sorted[done]);
            assert(sorted.take(done + 1).drop_last() =~= sorted.take(done));
            assert(sorted.take(done + 1).last() == x);
            assert(sorted.skip(done).remove(0) =~= sorted.skip(done + 1));
            lemma_first_of_each_event_keeps_events(sorted.take(done), x.event_id@);
            done = done + 1;
        }
        if !contains_event(&kept, &x.event_id) {
            kept.push(x);
        }
    }
    proof {
        assert(sorted.take(sorted.len() as int) =~= sorted);
    }
    *reminders = kept;
}

/// An account of the scheduler.
#[derive(Debug)]
pub struct Account {
    pub id: String,
}

/// An event of a calendar.
#[derive(Debug)]
pub struct CalendarEvent {
    pub id: String,
    pub user_id: String,
    pub start_ts: i64,
    pub duration: i64,
}

/// The events of which one account is to be reminded.
#[derive(Debug)]
pub struct AccountEventReminders {
    pub events: Vec<CalendarEvent>,
}

/// Position `i` is marked and no position before it is.
pub open spec fn is_first_marked(marks: Seq<bool>, i: int) -> bool {
    &&& 0 <= i < marks.len()
    &&& marks[i]
    &&& forall|k: int| 0 <= k < i ==> !#[trigger] marks[k]
}

/// The first marked position, if any position is marked.
pub open spec fn first_marked(marks: Seq<bool>) -> Option<int> {
    if exists|i: int| is_first_marked(marks, i) {
        Some(choose|i: int| is_first_marked(marks, i))
    } else {
        None
    }
}

proof fn lemma_first_marked(marks: Seq<bool>, i: int)
    requires
        is_first_marked(marks, i),
    ensures
        first_marked(marks) == Some(i),
{
    let j = choose|j: int| is_first_marked(marks, j);
    if i < j {
        assert(!marks[i]);
    } else if j < i {
        assert(!marks[j]);
    }
}

proof fn lemma_none_marked(marks: Seq<bool>)
    requires
        forall|k: int| 0 <= k < marks.len() ==> !#[trigger] marks[k],
    ensures
        first_marked(marks) is None,
{
    if exists|i: int| is_first_marked(marks, i) {
        let i = choose|i: int| is_first_marked(marks, i);
        assert(!marks[i]);
    }
}

/// The accounts that have the id `id`, marked.
pub open spec fn accounts_with_id(accounts: Seq<Account>, id: Seq<char>) -> Seq<bool> {
    Seq::new(accounts.len(), |k: int| accounts[k].id@ == id)
}

/// The events that have the id `id`, marked.
pub open spec fn events_with_id(events: Seq<CalendarEvent>, id: Seq<char>) -> Seq<bool> {
    Seq::new(events.len(), |k: int| events[k].id@ == id)
}

/// The events collected for one account, which is known by its position in
/// the list of accounts.
pub struct AccountGroup {
    pub account: int,
    pub events: Seq<CalendarEvent>,
}

/// The groups that are for the account at position `account`, marked.
pub open spec fn groups_of_account(groups: Seq<AccountGroup>, account: int) -> Seq<bool> {
    Seq::new(groups.len(), |k: int| groups[k].account == account)
}

/// The groups made so far, and the events that are not yet in a group.
pub struct Grouping {
    pub groups: Seq<AccountGroup>,
    pub remaining: Seq<CalendarEvent>,
}

/// Takes one reminder into a grouping. The reminder is passed over unless
/// its account is known and its event is still there. Else the event leaves
/// the remaining events and goes to the group of the account, which is made
/// at the end of the groups where the account has none yet.
pub open spec fn group_reminder(state: Grouping, accounts: Seq<Account>, reminder: Reminder) -> Grouping {
    match (
        first_marked(accounts_with_id(accounts, reminder.account_id@)),
        first_marked(events_with_id(state.remaining, reminder.event_id@)),
    ) {
        (Some(a), Some(e)) => {
            let event = state.remaining[e];
            let remaining = state.remaining.remove(e);
            match first_marked(groups_of_account(state.groups, a)) {
                Some(g) => Grouping {
                    groups: state.groups.update(
                        g,
                        AccountGroup { account: a, events: state.groups[g].events.push(event) },
                    ),
                    remaining,
                },
                None => Grouping {
                    groups: state.groups.push(AccountGroup { account: a, events: seq![event] }),
                    remaining,
                },
            }
        },
        _ => state,
    }
}

/// The grouping after all reminders of a list, taken in their order.
pub open spec fn grouped_reminders(
    reminders: Seq<Reminder>,
    events: Seq<CalendarEvent>,
    accounts: Seq<Account>,
) -> Grouping
    decreases reminders.len(),
{
    if reminders.len() == 0 {
        Grouping { groups: Seq::empty(), remaining: events }
    } else {
        group_reminder(
            grouped_reminders(reminders.drop_last(), events, accounts),
            accounts,
            reminders.last(),
        )
    }
}

proof fn lemma_marked_has_first(marks: Seq<bool>, k: int)
    requires
        0 <= k < marks.len(),
        marks[k],
    ensures
        exists|i: int| is_first_marked(marks, i),
    decreases k,
{
    if exists|j: int| 0 <= j < k && #[trigger] marks[j] {
        let j = choose|j: int| 0 <= j < k && #[trigger] marks[j];
        lemma_marked_has_first(marks, j);
    } else {
        assert(is_first_marked(marks, k));
    }
}

proof fn lemma_first_marked_is_first(marks: Seq<bool>)
    ensures
        first_marked(marks) matches Some(i) ==> is_first_marked(marks, i),
        first_marked(marks) is None ==> forall|k: int| 0 <= k < marks.len() ==> !#[trigger] marks[k],
{
    if first_marked(marks) is None {
        assert forall|k: int| 0 <= k < marks.len() implies !#[trigger] marks[k] by {
            if marks[k] {
                lemma_marked_has_first(marks, k);
            }
        }
    }
}

/// How many events of a list have the id `id`.
pub open spec fn events_with(events: Seq<CalendarEvent>, id: Seq<char>) -> nat
    decreases events.len(),
{
    if events.len() == 0 {
        0
    } else {
        events_with(events.drop_last(), id) + if events.last().id@ == id {
            1nat
        } else {
            0nat
        }
    }
}

/// How many events with the id `id` the groups hold, all groups together.
pub open spec fn handed_out(groups: Seq<AccountGroup>, id: Seq<char>) -> nat
    decreases groups.len(),
{
    if groups.len() == 0 {
        0
    } else {
        handed_out(groups.drop_last(), id) + events_with(groups.last().events, id)
    }
}

/// No account before position `a` has the id of the account at `a`.
pub open spec fn is_first_with_its_id(accounts: Seq<Account>, a: int) -> bool {
    &&& 0 <= a < accounts.len()
    &&& forall|k: int| 0 <= k < a ==> (#[trigger] accounts[k]).id@ != accounts[a].id@
}

/// What holds of every grouping: no group is empty; each group is for an
/// account of the list, known by the first position that has its id; no two
/// groups are for the same account; and each event of the lookup is either
/// in one group or still among the remaining events, so that for every id the
/// groups and the remaining events together hold as many events as the lookup
/// held.
pub open spec fn is_sound_grouping(
    state: Grouping,
    events: Seq<CalendarEvent>,
    accounts: Seq<Account>,
) -> bool {
    &&& forall|g: int| 0 <= g < state.groups.len() ==> (#[trigger] state.groups[g]).events.len() > 0
    &&& forall|g: int|
        0 <= g < state.groups.len() ==> is_first_with_its_id(
            accounts,
            (#[trigger] state.groups[g]).account,
        )
    &&& forall|g: int, h: int|
        #![trigger state.groups[g], state.groups[h]]
        0 <= g < h < state.groups.len() ==> state.groups[g].account != state.groups[h].account
    &&& forall|id: Seq<char>|
        handed_out(state.groups, id) + events_with(state.remaining, id) == #[trigger] events_with(
            events,
            id,
        )
}

proof fn lemma_events_with_remove(events: Seq<CalendarEvent>, e: int, id: Seq<char>)
    requires
        0 <= e < events.len(),
    ensures
        events_with(events.remove(e), id) + (if events[e].id@ == id {
            1nat
        } else {
            0nat
        }) == events_with(events, id),
    decreases events.len(),
{
    if e == events.len() - 1 {
        assert(events.remove(e) =~= events.drop_last());
    } else {
        assert(events.remove(e).drop_last() =~= events.drop_last().remove(e));
        assert(events.remove(e).last() == events.last());
        lemma_events_with_remove(events.drop_last(), e, id);
    }
}

proof fn lemma_events_with_push(events: Seq<CalendarEvent>, x: CalendarEvent, id: Seq<char>)
    ensures
        events_with(events.push(x), id) == events_with(events, id) + (if x.id@ == id {
            1nat
        } else {
            0nat
        }),
{
    assert(events.push(x).drop_last() =~= events);
}

proof fn lemma_handed_out_update(
    groups: Seq<AccountGroup>,
    g: int,
    group: AccountGroup,
    id: Seq<char>,
)
    requires
        0 <= g < groups.len(),
    ensures
        handed_out(groups.update(g, group), id) + events_with(groups[g].events, id) == handed_out(
            groups,
            id,
        ) + events_with(group.events, id),
    decreases groups.len(),
{
    if g == groups.len() - 1 {
        assert(groups.update(g, group).drop_last() =~= groups.drop_last());
    } else {
        assert(groups.update(g, group).drop_last() =~= groups.drop_last().update(g, group));
        lemma_handed_out_update(groups.drop_last(), g, group, id);
    }
}

proof fn lemma_group_reminder_is_sound(
    state: Grouping,
    events: Seq<CalendarEvent>,
    accounts: Seq<Account>,
    reminder: Reminder,
)
    requires
        is_sound_grouping(state, events, accounts),
    ensures
        is_sound_grouping(group_reminder(state, accounts, reminder), events, accounts),
{
    let account_marks = accounts_with_id(accounts, reminder.account_id@);
    let event_marks = events_with_id(state.remaining, reminder.event_id@);
    lemma_first_marked_is_first(account_marks);
    lemma_first_marked_is_first(event_marks);
    if first_marked(account_marks) is Some && first_marked(event_marks) is Some {
        let a = first_marked(account_marks)->0;
        let e = first_marked(event_marks)->0;
        let next = group_reminder(state, accounts, reminder);
        let event = state.remaining[e];
        let group_marks = groups_of_account(state.groups, a);
        lemma_first_marked_is_first(group_marks);
        assert(is_first_with_its_id(accounts, a)) by {
            assert forall|k: int| 0 <= k < a implies (#[trigger] accounts[k]).id@
                != accounts[a].id@ by {
                assert(!account_marks[k]);
            }
        }
        assert(next.remaining == state.remaining.remove(e));
        if first_marked(group_marks) is Some {
            let g = first_marked(group_marks)->0;
            let group = AccountGroup { account: a, events: state.groups[g].events.push(event) };
            assert(next.groups == state.groups.update(g, group));
            assert(state.groups[g].account == a);
            assert forall|k: int| 0 <= k < next.groups.len() implies (#[trigger] next.groups[k]).events.len()
                > 0 && is_first_with_its_id(accounts, next.groups[k].account) by {
                if k != g {
                    assert(next.groups[k] == state.groups[k]);
                }
            }
            assert forall|k: int, h: int|
                #![trigger next.groups[k], next.groups[h]]
                0 <= k < h < next.groups.len() implies next.groups[k].account
                != next.groups[h].account by {
                assert(state.groups[k].account != state.groups[h].account);
            }
            assert forall|id: Seq<char>|
                handed_out(next.groups, id) + events_with(next.remaining, id)
                    == #[trigger] events_with(events, id) by {
                lemma_handed_out_update(state.groups, g, group, id);
                lemma_events_with_push(state.groups[g].events, event, id);
                lemma_events_with_remove(state.remaining, e, id);
            }
        } else {
            let group = AccountGroup { account: a, events: seq![event] };
            assert(next.groups == state.groups.push(group));
            assert forall|k: int| 0 <= k < next.groups.len() implies (#[trigger] next.groups[k]).events.len()
                > 0 && is_first_with_its_id(accounts, next.groups[k].account) by {
                if k < state.groups.len() {
                    assert(next.groups[k] == state.groups[k]);
                }
            }
            assert forall|k: int, h: int|
                #![trigger next.groups[k], next.groups[h]]
                0 <= k < h < next.groups.len() implies next.groups[k].account
                != next.groups[h].account by {
                if h < state.groups.len() {
                    assert(state.groups[k].account != state.groups[h].account);
                } else {
                    assert(!group_marks[k]);
                }
            }
            assert forall|id: Seq<char>|
                handed_out(next.groups, id) + events_with(next.remaining, id)
                    == #[trigger] events_with(events, id) by {
                assert(next.groups.drop_last() =~= state.groups);
                assert(seq![event] =~= Seq::<CalendarEvent>::empty().push(event));
                lemma_events_with_push(Seq::<CalendarEvent>::empty(), event, id);
                lemma_events_with_remove(state.remaining, e, id);
            }
        }
    }
}

/// Every grouping of reminders is sound: no group is empty, no account has
/// two groups, and every event of the lookup is handed out once at most and
/// is otherwise left among the remaining events.
pub proof fn lemma_grouping_is_sound(
    reminders: Seq<Reminder>,
    events: Seq<CalendarEvent>,
    accounts: Seq<Account>,
)
    ensures
        is_sound_grouping(grouped_reminders(reminders, events, accounts), events, accounts),
    decreases reminders.len(),
{
    if reminders.len() == 0 {
        let state = grouped_reminders(reminders, events, accounts);
        assert(state.groups.len() == 0);
    } else {
        lemma_grouping_is_sound(reminders.drop_last(), events, accounts);
        lemma_group_reminder_is_sound(
            grouped_reminders(reminders.drop_last(), events, accounts),
            events,
            accounts,
            reminders.last(),
        );
    }
}

/// No two groups are for accounts with the same id.
pub proof fn lemma_groups_have_different_accounts(
    reminders: Seq<Reminder>,
    events: Seq<CalendarEvent>,
    accounts: Seq<Account>,
    g: int,
    h: int,
)
    requires
        0 <= g < h < grouped_reminders(reminders, events, accounts).groups.len(),
    ensures
        accounts[grouped_reminders(reminders, events, accounts).groups[g].account].id@
            != accounts[grouped_reminders(reminders, events, accounts).groups[h].account].id@,
{
    lemma_grouping_is_sound(reminders, events, accounts);
    let groups = grouped_reminders(reminders, events, accounts).groups;
    let a = groups[g].account;
    let b = groups[h].account;
    assert(is_first_with_its_id(accounts, a) && is_first_with_its_id(accounts, b));
    assert(a != b);
    if a < b {
        assert(accounts[a].id@ != accounts[b].id@);
    } else {
        assert(accounts[b].id@ != accounts[a].id@);
    }
}

proof fn lemma_events_with_bound(events: Seq<CalendarEvent>, id: Seq<char>)
    requires
        forall|i: int, j: int|
            #![trigger events[i], events[j]]
            0 <= i < j < events.len() ==> events[i].id@ != events[j].id@,
    ensures
        events_with(events, id) <= 1,
        events_with(events, id) == 1 ==> exists|i: int|
            0 <= i < events.len() && (#[trigger] events[i]).id@ == id,
    decreases events.len(),
{
    if events.len() > 0 {
        let rest = events.drop_last();
        assert forall|i: int, j: int|
            #![trigger rest[i], rest[j]]
            0 <= i < j < rest.len() implies rest[i].id@ != rest[j].id@ by {
            assert(events[i].id@ != events[j].id@);
        }
        lemma_events_with_bound(rest, id);
        if events_with(rest, id) == 1 {
            let i = choose|i: int| 0 <= i < rest.len() && (#[trigger] rest[i]).id@ == id;
            assert(events[i].id@ == id);
            assert(events[i].id@ != events[events.len() - 1].id@);
        } else if events.last().id@ == id {
            assert(events[events.len() - 1].id@ == id);
        }
    }
}

/// Where no two events of the lookup have the same id, as in a lookup by
/// id, no id is handed out twice: a second reminder of an event finds the
/// event gone and is passed over.
pub proof fn lemma_each_event_is_handed_out_once(
    reminders: Seq<Reminder>,
    events: Seq<CalendarEvent>,
    accounts: Seq<Account>,
    id: Seq<char>,
)
    requires
        forall|i: int, j: int|
            #![trigger events[i], events[j]]
            0 <= i < j < events.len() ==> events[i].id@ != events[j].id@,
    ensures
        handed_out(grouped_reminders(reminders, events, accounts).groups, id) <= 1,
        handed_out(grouped_reminders(reminders, events, accounts).groups, id) + events_with(
            grouped_reminders(reminders, events, accounts).remaining,
            id,
        ) == events_with(events, id),
{
    lemma_grouping_is_sound(reminders, events, accounts);
    lemma_events_with_bound(events, id);
}

fn find_account(accounts: &Vec<Account>, id: &String) -> (r: Option<usize>)
    ensures
        match r {
            Some(i) => first_marked(accounts_with_id(accounts@, id@)) == Some(i as int),
            None => first_marked(accounts_with_id(accounts@, id@)) is None,
        },
{
    let mut i: usize = 0;
    while i < accounts.len()
        invariant
            i <= accounts.len(),
            forall|k: int| 0 <= k < i ==> (#[trigger] accounts@[k]).id@ != id@,
        decreases accounts.len() - i,
    {
        if accounts[i].id == *id {
            proof {
                lemma_first_marked(accounts_with_id(accounts@, id@), i as int);
            }
            return Some(i);
        }
        i = i + 1;
    }
    proof {
        lemma_none_marked(accounts_with_id(accounts@, id@));
    }
    None
}

fn find_event(events: &Vec<CalendarEvent>, id: &String) -> (r: Option<usize>)
    ensures
        match r {
            Some(i) => first_marked(events_with_id(events@, id@)) == Some(i as int) && i
                < events@.len(),
            None => first_marked(events_with_id(events@, id@)) is None,
        },
{
    let mut i: usize = 0;
    while i < events.len()
        invariant
            i <= events.len(),
            forall|k: int| 0 <= k < i ==> (#[trigger] events@[k]).id@ != id@,
        decreases events.len() - i,
    {
        if events[i].id == *id {
            proof {
                lemma_first_marked(events_with_id(events@, id@), i as int);
            }
            return Some(i);
        }
        i = i + 1;
    }
    proof {
        lemma_none_marked(events_with_id(events@, id@));
    }
    None
}

fn find_group(group_accounts: &Vec<usize>, account: usize, Ghost(groups): Ghost<Seq<AccountGroup>>) -> (r:
    Option<usize>)
    requires
        group_accounts@.len() == groups.len(),
        forall|k: int| 0 <= k < groups.len() ==> (#[trigger] group_accounts@[k]) == groups[k].account,
    ensures
        match r {
            Some(g) => first_marked(groups_of_account(groups, account as int)) == Some(g as int)
                && g < groups.len(),
            None => first_marked(groups_of_account(groups, account as int)) is None,
        },
{
    let mut g: usize = 0;
    while g < group_accounts.len()
        invariant
            g <= group_accounts.len(),
            group_accounts@.len() == groups.len(),
            forall|k: int|
                0 <= k < groups.len() ==> (#[trigger] group_accounts@[k]) == groups[k].account,
            forall|k: int| 0 <= k < g ==> (#[trigger] group_accounts@[k]) != account,
        decreases group_accounts.len() - g,
    {
        if group_accounts[g] == account {
            proof {
                let marks = groups_of_account(groups, account as int);
                assert forall|k: int| 0 <= k < g implies !#[trigger] marks[k] by {
                    assert(group_accounts@[k] != account);
                }
                lemma_first_marked(marks, g as int);
            }
            return Some(g);
        }
        g = g + 1;
    }
    proof {
        let marks = groups_of_account(groups, account as int);
        assert forall|k: int| 0 <= k < marks.len() implies !#[trigger] marks[k] by {
            assert(group_accounts@[k] != account);
        }
        lemma_none_marked(marks);
    }
    None
}

/// Collects, for each account, the events of which it is to be reminded.
///
/// The reminders are taken in their order. A reminder is passed over where
/// its account is not among `accounts` or its event is not, or no longer,
/// among `event_lookup`: an event is handed out once. The accounts come in
/// the order in which each got its first event.
pub fn create_reminders_for_accounts(
    reminders: Vec<Reminder>,
    event_lookup: Vec<CalendarEvent>,
    accounts: &Vec<Account>,
) -> (out: Vec<(Account, AccountEventReminders)>)
    ensures
        out@.len() == grouped_reminders(reminders@, event_lookup@, accounts@).groups.len(),
        forall|g: int|
            0 <= g < out@.len() ==> 0 <= (#[trigger] grouped_reminders(
                reminders@,
                event_lookup@,
                accounts@,
            ).groups[g]).account < accounts@.len(),
        forall|g: int|
            0 <= g < out@.len() ==> (#[trigger] out@[g]).0.id@ == accounts@[grouped_reminders(
                reminders@,
                event_lookup@,
                accounts@,
            ).groups[g].account].id@,
        forall|g: int|
            0 <= g < out@.len() ==> (#[trigger] out@[g]).1.events@ == grouped_reminders(
                reminders@,
                event_lookup@,
                accounts@,
            ).groups[g].events,
{
    let mut out: Vec<(Account, AccountEventReminders)> = Vec::new();
    let mut group_accounts: Vec<usize> = Vec::new();
    let mut remaining: Vec<CalendarEvent> = event_lookup;
    let mut i: usize = 0;
    while i < reminders.len()
        invariant
            i <= reminders.len(),
            remaining@ == grouped_reminders(
                reminders@.take(i as int),
                event_lookup@,
                accounts@,
            ).remaining,
            out@.len() == grouped_reminders(
                reminders@.take(i as int),
                event_lookup@,
                accounts@,
            ).groups.len(),
            group_accounts@.len() == out@.len(),
            forall|g: int|
                0 <= g < out@.len() ==> (#[trigger] group_accounts@[g]) == grouped_reminders(
                    reminders@.take(i as int),
                    event_lookup@,
                    accounts@,
                ).groups[g].account,
            forall|g: int| 0 <= g < out@.len() ==> (#[trigger] group_accounts@[g]) < accounts@.len(),
            forall|g: int|
                0 <= g < out@.len() ==> (#[trigger] out@[g]).0.id@
                    == accounts@[group_accounts@[g] as int].id@,
            forall|g: int|
                0 <= g < out@.len() ==> (#[trigger] out@[g]).1.events@ == grouped_reminders(
                    reminders@.take(i as int),
                    event_lookup@,
                    accounts@,
                ).groups[g].events,
        decreases reminders.len() - i,
    {
        let ghost state = grouped_reminders(reminders@.take(i as int), event_lookup@, accounts@);
        proof {
            assert(reminders@.take(i as int + 1).drop_last() =~= reminders@.take(i as int));
            assert(reminders@.take(i as int + 1).last() == reminders@[i as int]);
        }
        let ghost next = group_reminder(state, accounts@, reminders@[i as int]);
        match find_account(accounts, &reminders[i].account_id) {
            Some(a) => match find_event(&remaining, &reminders[i].event_id) {
                Some(e) => {
                    let event: CalendarEvent = remaining.remove(e);
                    match find_group(&group_accounts, a, Ghost(state.groups)) {
                        Some(g) => {
                            let ghost before = out@;
                            out[g].1.events.push(event);
                            proof {
                                assert forall|k: int| 0 <= k < out@.len() implies (#[trigger] out@[k]).1.events@
                                    == next.groups[k].events by {
                                    if k != g {
                                        assert(out@[k] == before[k]);
                                    }
                                }
                                assert forall|k: int| 0 <= k < out@.len() implies (#[trigger] out@[k]).0.id@
                                    == accounts@[group_accounts@[k] as int].id@ by {
                                    if k != g {
                                        assert(out@[k] == before[k]);
                                    } else {
                                        assert(out@[k].0 == before[k].0);
                                    }
                                }
                            }
                        },
                        None => {
                            let mut events: Vec<CalendarEvent> = Vec::new();
                            events.push(event);
                            let account = Account { id: accounts[a].id.clone() };
                            out.push((account, AccountEventReminders { events }));
                            group_accounts.push(a);
                            proof {
                                assert(events@ =~= seq![event]);
                            }
                        },
                    }
                },
                None => {},
            },
            None => {},
        }
        i = i + 1;
    }
    proof {
        assert(reminders@.take(reminders.len() as int) =~= reminders@);
        let groups = grouped_reminders(reminders@, event_lookup@, accounts@).groups;
        assert forall|g: int| 0 <= g < out@.len() implies 0 <= (#[trigger] groups[g]).account
            < accounts@.len() by {
            assert(group_accounts@[g] == groups[g].account);
        }
        assert forall|g: int| 0 <= g < out@.len() implies (#[trigger] out@[g]).0.id@
            == accounts@[groups[g].account].id@ by {
            assert(group_accounts@[g] == groups[g].account);
        }
    }
    out
}

/// The ids of the accounts of the reminders, one for each reminder, in order.
pub open spec fn account_ids(reminders: Seq<Reminder>) -> Seq<Seq<char>> {
    Seq::new(reminders.len(), |k: int| reminders[k].account_id@)
}

/// The ids of the events of the reminders, one for each reminder, in order.
pub open spec fn event_ids(reminders: Seq<Reminder>) -> Seq<Seq<char>> {
    Seq::new(reminders.len(), |k: int| reminders[k].event_id@)
}

/// The texts of a list of ids.
pub open spec fn id_texts(ids: Seq<String>) -> Seq<Seq<char>> {
    Seq::new(ids.len(), |k: int| ids[k]@)
}

/// The ids of the accounts to look up for a list of reminders.
pub fn get_account_ids(reminders: &Vec<Reminder>) -> (ids: Vec<String>)
    ensures
        id_texts(ids@) == account_ids(reminders@),
{
    let mut ids: Vec<String> = Vec::new();
    let mut i: usize = 0;
    while i < reminders.len()
        invariant
            i <= reminders.len(),
            ids@.len() == i,
            forall|k: int| 0 <= k < i ==> (#[trigger] ids@[k])@ == reminders@[k].account_id@,
        decreases reminders.len() - i,
    {
        ids.push(reminders[i].account_id.clone());
        i = i + 1;
    }
    assert(id_texts(ids@) =~= account_ids(reminders@));
    ids
}

/// The ids of the events to look up for a list of reminders.
pub fn get_event_ids(reminders: &Vec<Reminder>) -> (ids: Vec<String>)
    ensures
        id_texts(ids@) == event_ids(reminders@),
{
    let mut ids: Vec<String> = Vec::new();
    let mut i: usize = 0;
    while i < reminders.len()
        invariant
            i <= reminders.len(),
            ids@.len() == i,
            forall|k: int| 0 <= k < i ==> (#[trigger] ids@[k])@ == reminders@[k].event_id@,
        decreases reminders.len() - i,
    {
        ids.push(reminders[i].event_id.clone());
        i = i + 1;
    }
    assert(id_texts(ids@) =~= event_ids(reminders@));
    ids
}

} // verus!
