//! Reservations: provisional holds on a slot of one host.
//!
//! A reservation is known by the service, the instant and the host that it
//! holds. The book keeps one record for each such tuple, so a tuple is never
//! held twice. As a plain value the book is a map from tuples to states.

use vstd::prelude::*;

verus! {

/// Where a reservation stands between claim and booking.
#[derive(Clone, Copy, Debug, PartialEq, Eq, Structural)]
pub enum ReservationState {
    /// Claimed; the calendar event is not yet known to exist.
    Pending,
    /// The calendar event exists.
    Confirmed,
    /// Given up by the client.
    Released,
    /// Reclaimed by the sweep without ever being confirmed.
    Expired,
}

/// A hold on one instant of one host of a service.
#[derive(Debug)]
pub struct Reservation {
    pub service_id: String,
    pub timestamp: i64,
    pub host_user_id: String,
    pub state: ReservationState,
}

/// What a reservation holds, as a plain value.
pub struct ReservationKey {
    pub service_id: Seq<char>,
    pub timestamp: int,
    pub host_user_id: Seq<char>,
}

/// Why the book refuses a step.
#[derive(Clone, Copy, Debug, PartialEq, Eq, Structural)]
pub enum ReservationError {
    /// The tuple is held by a pending or confirmed reservation.
    SlotAlreadyReservedError,
    /// The reservation was reclaimed before it was confirmed.
    ReservationExpiredError,
    /// No reservation of the tuple is pending or confirmed.
    ReservationNotFoundError,
}

impl Reservation {
    /// The tuple that the reservation holds.
    pub open spec fn key(self) -> ReservationKey {
        ReservationKey {
            service_id: self.service_id@,
            timestamp: self.timestamp as int,
            host_user_id: self.host_user_id@,
        }
    }
}

/// A reservation in this state keeps others from claiming its tuple.
pub open spec fn holds_slot(state: ReservationState) -> bool {
    state == ReservationState::Pending || state == ReservationState::Confirmed
}

/// The tuple `key` is held in `book`.
pub open spec fn is_held(book: Map<ReservationKey, ReservationState>, key: ReservationKey) -> bool {
    book.contains_key(key) && holds_slot(book[key])
}

/// The book and the answer after a claim of `key`.
pub open spec fn after_create_intent(
    book: Map<ReservationKey, ReservationState>,
    key: ReservationKey,
) -> (Map<ReservationKey, ReservationState>, Result<(), ReservationError>) {
    if is_held(book, key) {
        (book, Err(ReservationError::SlotAlreadyReservedError))
    } else {
        (book.insert(key, ReservationState::Pending), Ok(()))
    }
}

/// The book and the answer after `key` is confirmed.
pub open spec fn after_confirm(
    book: Map<ReservationKey, ReservationState>,
    key: ReservationKey,
) -> (Map<ReservationKey, ReservationState>, Result<(), ReservationError>) {
    if !book.contains_key(key) {
        (book, Err(ReservationError::ReservationNotFoundError))
    } else {
        match book[key] {
            ReservationState::Pending => (book.insert(key, ReservationState::Confirmed), Ok(())),
            ReservationState::Confirmed => (book, Ok(())),
            ReservationState::Expired => (book, Err(ReservationError::ReservationExpiredError)),
            ReservationState::Released => (book, Err(ReservationError::ReservationNotFoundError)),
        }
    }
}

/// The book and the answer after `key` is released.
pub open spec fn after_release(
    book: Map<ReservationKey, ReservationState>,
    key: ReservationKey,
) -> (Map<ReservationKey, ReservationState>, Result<(), ReservationError>) {
    if !book.contains_key(key) {
        (book, Err(ReservationError::ReservationNotFoundError))
    } else {
        match book[key] {
            ReservationState::Pending => (book.insert(key, ReservationState::Released), Ok(())),
            ReservationState::Confirmed => (book, Ok(())),
            _ => (book, Err(ReservationError::ReservationNotFoundError)),
        }
    }
}

/// The sweep at `ts` reclaims the reservation of `key`.
pub open spec fn is_reclaimed(
    book: Map<ReservationKey, ReservationState>,
    ts: int,
    key: ReservationKey,
) -> bool {
    book.contains_key(key) && book[key] == ReservationState::Pending && key.timestamp <= ts
}

/// The book after the sweep at `ts`.
pub open spec fn after_expire_before(book: Map<ReservationKey, ReservationState>, ts: int) -> Map<
    ReservationKey,
    ReservationState,
> {
    Map::new(
        |key: ReservationKey| book.contains_key(key),
        |key: ReservationKey|
            if is_reclaimed(book, ts, key) {
                ReservationState::Expired
            } else {
                book[key]
            },
    )
}

/// No two records hold the same tuple.
pub open spec fn distinct_keys(records: Seq<Reservation>) -> bool {
    forall|i: int, j: int|
        #![trigger records[i], records[j]]
        0 <= i < j < records.len() ==> records[i].key() != records[j].key()
}

/// Some record holds the tuple `key`.
pub open spec fn has_key(records: Seq<Reservation>, key: ReservationKey) -> bool {
    exists|i: int| 0 <= i < records.len() && (#[trigger] records[i]).key() == key
}

/// The records as a map from what they hold to their state.
pub open spec fn record_map(records: Seq<Reservation>) -> Map<ReservationKey, ReservationState> {
    Map::new(
        |key: ReservationKey| has_key(records, key),
        |key: ReservationKey|
            records[choose|i: int| 0 <= i < records.len() && (#[trigger] records[i]).key() == key].state,
    )
}

proof fn lemma_record_lookup(records: Seq<Reservation>, i: int)
    requires
        distinct_keys(records),
        0 <= i < records.len(),
    ensures
        record_map(records).contains_key(records[i].key()),
        record_map(records)[records[i].key()] == records[i].state,
{
    let key = records[i].key();
    assert(has_key(records, key));
    let j = choose|j: int| 0 <= j < records.len() && (#[trigger] records[j]).key() == key;
    if i < j {
        assert(records[i].key() != records[j].key());
    } else if j < i {
        assert(records[j].key() != records[i].key());
    }
}

proof fn lemma_record_push(records: Seq<Reservation>, r: Reservation)
    requires
        distinct_keys(records),
        !has_key(records, r.key()),
    ensures
        distinct_keys(records.push(r)),
        record_map(records.push(r)) == record_map(records).insert(r.key(), r.state),
{
    let next = records.push(r);
    assert forall|i: int, j: int|
        #![trigger next[i], next[j]]
        0 <= i < j < next.len() implies next[i].key() != next[j].key() by {
        if j < records.len() {
            assert(records[i].key() != records[j].key());
        } else {
            assert(next[i] == records[i]);
            assert(records[i].key() != r.key());
        }
    }
    let expected = record_map(records).insert(r.key(), r.state);
    assert forall|key: ReservationKey| record_map(next).contains_key(key) == expected.contains_key(
        key,
    ) by {
        if has_key(next, key) {
            let i = choose|i: int| 0 <= i < next.len() && (#[trigger] next[i]).key() == key;
            if i < records.len() {
                assert(records[i].key() == key);
            }
        }
        if has_key(records, key) {
            let i = choose|i: int| 0 <= i < records.len() && (#[trigger] records[i]).key() == key;
            assert(next[i].key() == key);
        }
        if key == r.key() {
            assert(next[records.len() as int].key() == key);
        }
    }
    assert forall|key: ReservationKey| expected.contains_key(key) implies record_map(next)[key]
        == expected[key] by {
        let i = choose|i: int| 0 <= i < next.len() && (#[trigger] next[i]).key() == key;
        assert(has_key(next, key));
        lemma_record_lookup(next, i);
        if i < records.len() {
            lemma_record_lookup(records, i);
        }
    }
    assert(record_map(next) =~= expected);
}

proof fn lemma_record_update(records: Seq<Reservation>, i: int, r: Reservation)
    requires
        distinct_keys(records),
        0 <= i < records.len(),
        r.key() == records[i].key(),
    ensures
        distinct_keys(records.update(i, r)),
        record_map(records.update(i, r)) == record_map(records).insert(r.key(), r.state),
{
    let next = records.update(i, r);
    assert forall|a: int, b: int|
        #![trigger next[a], next[b]]
        0 <= a < b < next.len() implies next[a].key() != next[b].key() by {
        assert(records[a].key() != records[b].key());
    }
    let expected = record_map(records).insert(r.key(), r.state);
    assert forall|key: ReservationKey| record_map(next).contains_key(key) == expected.contains_key(
        key,
    ) by {
        if has_key(next, key) {
            let j = choose|j: int| 0 <= j < next.len() && (#[trigger] next[j]).key() == key;
            assert(records[j].key() == key);
        }
        if has_key(records, key) {
            let j = choose|j: int| 0 <= j < records.len() && (#[trigger] records[j]).key() == key;
            assert(next[j].key() == key);
        }
        if key == r.key() {
            assert(next[i].key() == key);
        }
    }
    assert forall|key: ReservationKey| expected.contains_key(key) implies record_map(next)[key]
        == expected[key] by {
        let j = choose|j: int| 0 <= j < next.len() && (#[trigger] next[j]).key() == key;
        assert(has_key(next, key));
        lemma_record_lookup(next, j);
        lemma_record_lookup(records, j);
        if j != i {
            if j < i {
                assert(records[j].key() != records[i].key());
            } else {
                assert(records[i].key() != records[j].key());
            }
        }
    }
    assert(record_map(next) =~= expected);
}

/// The record is pending and its instant is at or before `ts`.
pub open spec fn due(r: Reservation, ts: int) -> bool {
    r.state == ReservationState::Pending && r.timestamp <= ts
}

/// The state of a record after the sweep at `ts`.
pub open spec fn swept(r: Reservation, ts: int) -> ReservationState {
    if due(r, ts) {
        ReservationState::Expired
    } else {
        r.state
    }
}

proof fn lemma_swept_map(before: Seq<Reservation>, after: Seq<Reservation>, ts: int)
    requires
        distinct_keys(before),
        after.len() == before.len(),
        forall|k: int| 0 <= k < before.len() ==> (#[trigger] after[k]).key() == before[k].key(),
        forall|k: int| 0 <= k < before.len() ==> (#[trigger] after[k]).state == swept(before[k], ts),
    ensures
        distinct_keys(after),
        record_map(after) == after_expire_before(record_map(before), ts),
{
    assert forall|a: int, b: int|
        #![trigger after[a], after[b]]
        0 <= a < b < after.len() implies after[a].key() != after[b].key() by {
        assert(before[a].key() != before[b].key());
    }
    let expected = after_expire_before(record_map(before), ts);
    assert forall|key: ReservationKey| record_map(after).contains_key(key) == expected.contains_key(
        key,
    ) by {
        if has_key(after, key) {
            let k = choose|k: int| 0 <= k < after.len() && (#[trigger] after[k]).key() == key;
            assert(before[k].key() == key);
        }
        if has_key(before, key) {
            let k = choose|k: int| 0 <= k < before.len() && (#[trigger] before[k]).key() == key;
            assert(after[k].key() == key);
        }
    }
    assert forall|key: ReservationKey| expected.contains_key(key) implies record_map(after)[key]
        == expected[key] by {
        let k = choose|k: int| 0 <= k < before.len() && (#[trigger] before[k]).key() == key;
        assert(after[k].key() == key);
        lemma_record_lookup(before, k);
        lemma_record_lookup(after, k);
    }
    assert(record_map(after) =~= expected);
}

/// The book after `n` claims of `key` in a row, and how many of them succeeded.
pub open spec fn after_claims(
    book: Map<ReservationKey, ReservationState>,
    key: ReservationKey,
    n: nat,
) -> (Map<ReservationKey, ReservationState>, nat)
    decreases n,
{
    if n == 0 {
        (book, 0)
    } else {
        let (next, answer) = after_create_intent(book, key);
        let (last, won) = after_claims(next, key, (n - 1) as nat);
        (last, if answer is Ok {
            won + 1
        } else {
            won
        })
    }
}

/// However many callers claim one free tuple, whatever the order in which
/// the book serves them, exactly one of them gets the reservation and every
/// other one is told that the slot is already reserved. None of them gets a
/// tuple that is held.
pub proof fn lemma_one_claim_wins(
    book: Map<ReservationKey, ReservationState>,
    key: ReservationKey,
    n: nat,
)
    ensures
        is_held(book, key) ==> after_claims(book, key, n) == (book, 0nat),
        !is_held(book, key) && n > 0 ==> after_claims(book, key, n) == (
            book.insert(key, ReservationState::Pending),
            1nat,
        ),
    decreases n,
{
    if n > 0 {
        let (next, answer) = after_create_intent(book, key);
        lemma_one_claim_wins(next, key, (n - 1) as nat);
        if !is_held(book, key) {
            assert(is_held(next, key));
            if n == 1 {
                assert(after_claims(next, key, 0) == (next, 0nat));
            }
        }
    }
}

/// A claim that is refused is refused as already reserved, and leaves the
/// book as it was.
pub proof fn lemma_refused_claim(book: Map<ReservationKey, ReservationState>, key: ReservationKey)
    ensures
        after_create_intent(book, key).1 is Err ==> after_create_intent(book, key) == (
            book,
            Err::<(), ReservationError>(ReservationError::SlotAlreadyReservedError),
        ),
{
}

/// A claim of one tuple neither holds nor frees any other tuple: other hosts
/// stay bookable at the same instant.
pub proof fn lemma_claim_leaves_others(
    book: Map<ReservationKey, ReservationState>,
    key: ReservationKey,
    other: ReservationKey,
)
    requires
        other != key,
    ensures
        is_held(after_create_intent(book, key).0, other) == is_held(book, other),
        after_create_intent(book, other).1 == after_create_intent(
            after_create_intent(book, key).0,
            other,
        ).1,
{
}

/// Confirming twice is confirming once: after a confirmation that succeeded,
/// another one succeeds and changes nothing.
pub proof fn lemma_confirm_is_idempotent(
    book: Map<ReservationKey, ReservationState>,
    key: ReservationKey,
)
    ensures
        after_confirm(book, key).1 is Ok ==> after_confirm(after_confirm(book, key).0, key) == (
            after_confirm(book, key).0,
            Ok::<(), ReservationError>(()),
        ),
        book.contains_key(key) && book[key] == ReservationState::Confirmed ==> after_confirm(
            book,
            key,
        ) == (book, Ok::<(), ReservationError>(())),
{
}

/// A reservation that the sweep reclaimed cannot be confirmed any more.
pub proof fn lemma_expired_is_not_confirmed(
    book: Map<ReservationKey, ReservationState>,
    ts: int,
    key: ReservationKey,
)
    requires
        is_reclaimed(book, ts, key),
    ensures
        after_confirm(after_expire_before(book, ts), key) == (
            after_expire_before(book, ts),
            Err::<(), ReservationError>(ReservationError::ReservationExpiredError),
        ),
        !is_held(after_expire_before(book, ts), key),
{
}

/// A release frees the tuple of a pending reservation for the next claim.
pub proof fn lemma_release_frees(book: Map<ReservationKey, ReservationState>, key: ReservationKey)
    requires
        book.contains_key(key),
        book[key] == ReservationState::Pending,
    ensures
        after_release(book, key).1 is Ok,
        after_create_intent(after_release(book, key).0, key).1 is Ok,
{
}

/// One step that a client or the sweep takes on the book.
pub enum BookStep {
    Claim(ReservationKey),
    Confirm(ReservationKey),
    Release(ReservationKey),
    Sweep(int),
}

/// The book and the answer after one step.
pub open spec fn after_step(book: Map<ReservationKey, ReservationState>, step: BookStep) -> (
    Map<ReservationKey, ReservationState>,
    Result<(), ReservationError>,
) {
    match step {
        BookStep::Claim(key) => after_create_intent(book, key),
        BookStep::Confirm(key) => after_confirm(book, key),
        BookStep::Release(key) => after_release(book, key),
        BookStep::Sweep(ts) => (after_expire_before(book, ts), Ok(())),
    }
}

/// How many claims of `key` succeed when the steps are taken one after the
/// other, in the order in which the book serves them.
pub open spec fn claims_won(
    book: Map<ReservationKey, ReservationState>,
    steps: Seq<BookStep>,
    key: ReservationKey,
) -> nat
    decreases steps.len(),
{
    if steps.len() == 0 {
        0
    } else {
        let (next, answer) = after_step(book, steps[0]);
        let later = claims_won(next, steps.drop_first(), key);
        if steps[0] == BookStep::Claim(key) && answer is Ok {
            later + 1
        } else {
            later
        }
    }
}

/// The step can take a pending reservation of `key` away: it releases it, or
/// sweeps at or after its instant.
pub open spec fn may_free(step: BookStep, key: ReservationKey) -> bool {
    match step {
        BookStep::Release(other) => other == key,
        BookStep::Sweep(ts) => key.timestamp <= ts,
        _ => false,
    }
}

/// While nobody frees a tuple, callers who claim it at the same time, among
/// whatever else goes on in the book, get it at most once: exactly once where
/// the tuple was free and somebody claims it, never where it was held.
pub proof fn lemma_claims_exclude_each_other(
    book: Map<ReservationKey, ReservationState>,
    steps: Seq<BookStep>,
    key: ReservationKey,
)
    requires
        forall|i: int| 0 <= i < steps.len() ==> !may_free(#[trigger] steps[i], key),
    ensures
        is_held(book, key) ==> claims_won(book, steps, key) == 0,
        !is_held(book, key) ==> claims_won(book, steps, key) == (if exists|i: int|
            0 <= i < steps.len() && #[trigger] steps[i] == BookStep::Claim(key) {
            1nat
        } else {
            0nat
        }),
    decreases steps.len(),
{
    if steps.len() > 0 {
        let (next, answer) = after_step(book, steps[0]);
        let rest = steps.drop_first();
        assert(!may_free(steps[0], key));
        assert forall|i: int| 0 <= i < rest.len() implies !may_free(#[trigger] rest[i], key) by {
            assert(rest[i] == steps[i + 1]);
        }
        lemma_claims_exclude_each_other(next, rest, key);
        // A held tuple stays held, and a free one stays free unless it is claimed.
        if is_held(book, key) {
            assert(is_held(next, key));
        } else if steps[0] == BookStep::Claim(key) {
            assert(is_held(next, key));
            assert(answer is Ok);
        } else {
            assert(!is_held(next, key));
            if exists|i: int| 0 <= i < steps.len() && #[trigger] steps[i] == BookStep::Claim(key) {
                let i = choose|i: int|
                    0 <= i < steps.len() && #[trigger] steps[i] == BookStep::Claim(key);
                assert(rest[i - 1] == BookStep::Claim(key));
            }
            if exists|i: int| 0 <= i < rest.len() && #[trigger] rest[i] == BookStep::Claim(key) {
                let i = choose|i: int|
                    0 <= i < rest.len() && #[trigger] rest[i] == BookStep::Claim(key);
                assert(steps[i + 1] == BookStep::Claim(key));
            }
        }
    }
}

/// The tuple of a service, an instant and a host, as a plain value.
pub open spec fn key_of(service_id: Seq<char>, timestamp: int, host_user_id: Seq<char>) -> ReservationKey {
    ReservationKey { service_id, timestamp, host_user_id }
}

/// All reservations of a scheduler, one record for each tuple ever claimed.
#[derive(Debug)]
pub struct ReservationBook {
    records: Vec<Reservation>,
}

impl View for ReservationBook {
    type V = Map<ReservationKey, ReservationState>;

    closed spec fn view(&self) -> Map<ReservationKey, ReservationState> {
        record_map(self.records@)
    }
}

impl ReservationBook {
    /// The records of the book, in the order in which their tuples were first claimed.
    pub closed spec fn records(&self) -> Seq<Reservation> {
        self.records@
    }

    /// No two records hold the same tuple.
    pub closed spec fn wf(&self) -> bool {
        distinct_keys(self.records@)
    }

    /// The map of a book is the map of its records.
    pub proof fn lemma_view_of_records(&self)
        ensures
            self@ == record_map(self.records()),
            self.wf() == distinct_keys(self.records()),
    {
    }

    /// An empty book.
    pub fn new() -> (book: ReservationBook)
        ensures
            book.wf(),
            book@ == Map::<ReservationKey, ReservationState>::empty(),
            book.records().len() == 0,
    {
        let book = ReservationBook { records: Vec::new() };
        assert(book@ =~= Map::<ReservationKey, ReservationState>::empty());
        book
    }

    fn position(&self, service_id: &String, timestamp: i64, host_user_id: &String) -> (r: Option<
        usize,
    >)
        ensures
            match r {
                Some(i) => i < self.records@.len() && self.records@[i as int].key() == key_of(
                    service_id@,
                    timestamp as int,
                    host_user_id@,
                ),
                None => !has_key(
                    self.records@,
                    key_of(service_id@, timestamp as int, host_user_id@),
                ),
            },
    {
        let mut i: usize = 0;
        while i < self.records.len()
            invariant
                i <= self.records@.len(),
                forall|k: int|
                    0 <= k < i ==> (#[trigger] self.records@[k]).key() != key_of(
                        service_id@,
                        timestamp as int,
                        host_user_id@,
                    ),
            decreases self.records@.len() - i,
        {
            let r = &self.records[i];
            if r.timestamp == timestamp && r.service_id == *service_id && r.host_user_id
                == *host_user_id {
                return Some(i);
            }
            i = i + 1;
        }
        None
    }

    fn set_state(&mut self, i: usize, state: ReservationState)
        requires
            old(self).wf(),
            i < old(self).records@.len(),
        ensures
            final(self).wf(),
            final(self)@ == old(self)@.insert(old(self).records@[i as int].key(), state),
            final(self).records@.len() == old(self).records@.len(),
            forall|k: int|
                0 <= k < old(self).records@.len() ==> (#[trigger] final(self).records@[k]).key()
                    == old(self).records@[k].key(),
            forall|k: int|
                0 <= k < old(self).records@.len() && k != i ==> (#[trigger] final(self).records@[k])
                    .state == old(self).records@[k].state,
            final(self).records@[i as int].state == state,
    {
        let r = Reservation {
            service_id: self.records[i].service_id.clone(),
            timestamp: self.records[i].timestamp,
            host_user_id: self.records[i].host_user_id.clone(),
            state,
        };
        proof {
            lemma_record_update(self.records@, i as int, r);
        }
        self.records.set(i, r);
    }

    /// The state of the reservation of a tuple, if the tuple was ever claimed.
    pub fn find(&self, service_id: &String, timestamp: i64, host_user_id: &String) -> (r: Option<
        ReservationState,
    >)
        requires
            self.wf(),
        ensures
            r == (if self@.contains_key(key_of(service_id@, timestamp as int, host_user_id@)) {
                Some(self@[key_of(service_id@, timestamp as int, host_user_id@)])
            } else {
                None
            }),
    {
        match self.position(service_id, timestamp, host_user_id) {
            Some(i) => {
                proof {
                    lemma_record_lookup(self.records@, i as int);
                }
                Some(self.records[i].state)
            },
            None => None,
        }
    }

    /// Claims a tuple: leaves a pending reservation of it, unless a pending
    /// or confirmed one holds it already.
    pub fn create_intent(&mut self, service_id: &String, timestamp: i64, host_user_id: &String) -> (r:
        Result<(), ReservationError>)
        requires
            old(self).wf(),
        ensures
            final(self).wf(),
            (final(self)@, r) == after_create_intent(
                old(self)@,
                key_of(service_id@, timestamp as int, host_user_id@),
            ),
    {
        match self.position(service_id, timestamp, host_user_id) {
            Some(i) => {
                proof {
                    lemma_record_lookup(self.records@, i as int);
                }
                match self.records[i].state {
                    ReservationState::Pending | ReservationState::Confirmed => Err(
                        ReservationError::SlotAlreadyReservedError,
                    ),
                    _ => {
                        self.set_state(i, ReservationState::Pending);
                        Ok(())
                    },
                }
            },
            None => {
                let r = Reservation {
                    service_id: service_id.clone(),
                    timestamp,
                    host_user_id: host_user_id.clone(),
                    state: ReservationState::Pending,
                };
                proof {
                    lemma_record_push(self.records@, r);
                }
                self.records.push(r);
                Ok(())
            },
        }
    }

    /// Confirms the pending reservation of a tuple. Confirming a confirmed
    /// reservation changes nothing and succeeds; an expired one is refused.
    pub fn confirm(&mut self, service_id: &String, timestamp: i64, host_user_id: &String) -> (r:
        Result<(), ReservationError>)
        requires
            old(self).wf(),
        ensures
            final(self).wf(),
            (final(self)@, r) == after_confirm(
                old(self)@,
                key_of(service_id@, timestamp as int, host_user_id@),
            ),
    {
        match self.position(service_id, timestamp, host_user_id) {
            Some(i) => {
                proof {
                    lemma_record_lookup(self.records@, i as int);
                }
                match self.records[i].state {
                    ReservationState::Pending => {
                        self.set_state(i, ReservationState::Confirmed);
                        Ok(())
                    },
                    ReservationState::Confirmed => Ok(()),
                    ReservationState::Expired => Err(ReservationError::ReservationExpiredError),
                    ReservationState::Released => Err(ReservationError::ReservationNotFoundError),
                }
            },
            None => Err(ReservationError::ReservationNotFoundError),
        }
    }

    /// Releases the pending reservation of a tuple, which frees the tuple for
    /// other callers. A confirmed reservation stays as it is.
    pub fn release(&mut self, service_id: &String, timestamp: i64, host_user_id: &String) -> (r:
        Result<(), ReservationError>)
        requires
            old(self).wf(),
        ensures
            final(self).wf(),
            (final(self)@, r) == after_release(
                old(self)@,
                key_of(service_id@, timestamp as int, host_user_id@),
            ),
    {
        match self.position(service_id, timestamp, host_user_id) {
            Some(i) => {
                proof {
                    lemma_record_lookup(self.records@, i as int);
                }
                match self.records[i].state {
                    ReservationState::Pending => {
                        self.set_state(i, ReservationState::Released);
                        Ok(())
                    },
                    ReservationState::Confirmed => Ok(()),
                    _ => Err(ReservationError::ReservationNotFoundError),
                }
            },
            None => Err(ReservationError::ReservationNotFoundError),
        }
    }

    /// Reclaims every pending reservation of an instant at or before `ts`, and
    /// hands back the reclaimed reservations, each once, in their new state.
    pub fn expire_before(&mut self, ts: i64) -> (reclaimed: Vec<Reservation>)
        requires
            old(self).wf(),
        ensures
            final(self).wf(),
            final(self)@ == after_expire_before(old(self)@, ts as int),
            distinct_keys(reclaimed@),
            forall|j: int|
                0 <= j < reclaimed@.len() ==> is_reclaimed(
                    old(self)@,
                    ts as int,
                    (#[trigger] reclaimed@[j]).key(),
                ) && reclaimed@[j].state == ReservationState::Expired,
            forall|key: ReservationKey|
                is_reclaimed(old(self)@, ts as int, key) ==> has_key(reclaimed@, key),
    {
        let n: usize = self.records.len();
        let ghost before = self.records@;
        let ghost mut picked: Seq<int> = Seq::empty();
        let mut reclaimed: Vec<Reservation> = Vec::new();
        let mut i: usize = 0;
        while i < n
            invariant
                i <= n,
                n == before.len(),
                self.records@.len() == n,
                distinct_keys(before),
                self.wf(),
                forall|k: int| 0 <= k < n ==> (#[trigger] self.records@[k]).key() == before[k].key(),
                forall|k: int|
                    0 <= k < i ==> (#[trigger] self.records@[k]).state == swept(before[k], ts as int),
                forall|k: int| i <= k < n ==> (#[trigger] self.records@[k]).state == before[k].state,
                picked.len() == reclaimed@.len(),
                forall|j: int| 0 <= j < picked.len() ==> 0 <= #[trigger] picked[j] < i,
                forall|j: int|
                    0 <= j < picked.len() ==> (#[trigger] reclaimed@[j]).key()
                        == before[picked[j]].key(),
                forall|j: int|
                    0 <= j < picked.len() ==> (#[trigger] reclaimed@[j]).state
                        == ReservationState::Expired,
                forall|j: int| 0 <= j < picked.len() ==> due(before[#[trigger] picked[j]], ts as int),
                forall|a: int, b: int|
                    #![trigger picked[a], picked[b]]
                    0 <= a < b < picked.len() ==> picked[a] < picked[b],
                forall|k: int|
                    0 <= k < i && due(#[trigger] before[k], ts as int) ==> has_key(
                        reclaimed@,
                        before[k].key(),
                    ),
            decreases n - i,
        {
            let expired: bool = match self.records[i].state {
                ReservationState::Pending => self.records[i].timestamp <= ts,
                _ => false,
            };
            if expired {
                let copy = Reservation {
                    service_id: self.records[i].service_id.clone(),
                    timestamp: self.records[i].timestamp,
                    host_user_id: self.records[i].host_user_id.clone(),
                    state: ReservationState::Expired,
                };
                self.set_state(i, ReservationState::Expired);
                let ghost earlier = reclaimed@;
                reclaimed.push(copy);
                proof {
                    assert(self.records@[i as int].key() == before[i as int].key());
                    assert(copy.key() == before[i as int].key());
                    assert(due(before[i as int], ts as int));
                    let ghost chosen = picked;
                    picked = picked.push(i as int);
                    assert forall|j: int| 0 <= j < picked.len() implies 0 <= #[trigger] picked[j]
                        < i + 1 by {
                        if j < chosen.len() {
                            assert(picked[j] == chosen[j]);
                        }
                    }
                    assert forall|j: int| 0 <= j < picked.len() implies (#[trigger] reclaimed@[j]).key()
                        == before[picked[j]].key() by {
                        if j < chosen.len() {
                            assert(picked[j] == chosen[j]);
                            assert(reclaimed@[j] == earlier[j]);
                        }
                    }
                    assert forall|j: int| 0 <= j < picked.len() implies (#[trigger] reclaimed@[j]).state
                        == ReservationState::Expired by {
                        if j < chosen.len() {
                            assert(reclaimed@[j] == earlier[j]);
                        }
                    }
                    assert forall|j: int| 0 <= j < picked.len() implies due(
                        before[#[trigger] picked[j]],
                        ts as int,
                    ) by {
                        if j < chosen.len() {
                            assert(picked[j] == chosen[j]);
                        }
                    }
                    assert forall|a: int, b: int|
                        #![trigger picked[a], picked[b]]
                        0 <= a < b < picked.len() implies picked[a] < picked[b] by {
                        assert(picked[a] == chosen[a]);
                        if b < chosen.len() {
                            assert(picked[b] == chosen[b]);
                        }
                    }
                    assert forall|k: int|
                        0 <= k < i + 1 && due(#[trigger] before[k], ts as int) implies has_key(
                        reclaimed@,
                        before[k].key(),
                    ) by {
                        if k < i {
                            let j = choose|j: int|
                                0 <= j < earlier.len() && (#[trigger] earlier[j]).key()
                                    == before[k].key();
                            assert(reclaimed@[j].key() == before[k].key());
                        } else {
                            assert(reclaimed@[earlier.len() as int].key() == before[k].key());
                        }
                    }
                }
            }
            i = i + 1;
        }
        proof {
            assert forall|a: int, b: int|
                #![trigger reclaimed@[a], reclaimed@[b]]
                0 <= a < b < reclaimed@.len() implies reclaimed@[a].key() != reclaimed@[b].key() by {
                assert(picked[a] < picked[b]);
                assert(before[picked[a]].key() != before[picked[b]].key());
            }
            lemma_swept_map(before, self.records@, ts as int);
            assert forall|j: int| 0 <= j < reclaimed@.len() implies is_reclaimed(
                record_map(before),
                ts as int,
                (#[trigger] reclaimed@[j]).key(),
            ) && reclaimed@[j].state == ReservationState::Expired by {
                assert(0 <= picked[j] < n);
                lemma_record_lookup(before, picked[j]);
            }
            assert forall|key: ReservationKey|
                is_reclaimed(record_map(before), ts as int, key) implies has_key(
                reclaimed@,
                key,
            ) by {
                let k = choose|k: int| 0 <= k < before.len() && (#[trigger] before[k]).key() == key;
                lemma_record_lookup(before, k);
            }
        }
        reclaimed
    }

    /// Releases one pending reservation of a service at an instant, whoever
    /// the host is, and names the host that it freed.
    pub fn remove_one(&mut self, service_id: &String, timestamp: i64) -> (r: Result<
        String,
        ReservationError,
    >)
        requires
            old(self).wf(),
        ensures
            final(self).wf(),
            match r {
                Ok(host) => {
                    let key = key_of(service_id@, timestamp as int, host@);
                    &&& old(self)@.contains_key(key)
                    &&& old(self)@[key] == ReservationState::Pending
                    &&& final(self)@ == old(self)@.insert(key, ReservationState::Released)
                },
                Err(e) => {
                    &&& e == ReservationError::ReservationNotFoundError
                    &&& final(self)@ == old(self)@
                    &&& forall|host: Seq<char>|
                        #![trigger key_of(service_id@, timestamp as int, host)]
                        !is_reclaimed(
                            old(self)@,
                            timestamp as int,
                            key_of(service_id@, timestamp as int, host),
                        )
                },
            },
    {
        let mut i: usize = 0;
        while i < self.records.len()
            invariant
                i <= self.records@.len(),
                self.records@ == old(self).records@,
                self.wf(),
                forall|k: int|
                    0 <= k < i ==> !((#[trigger] self.records@[k]).service_id@ == service_id@
                        && self.records@[k].timestamp == timestamp && self.records@[k].state
                        == ReservationState::Pending),
            decreases self.records@.len() - i,
        {
            let pending: bool = match self.records[i].state {
                ReservationState::Pending => true,
                _ => false,
            };
            if pending && self.records[i].timestamp == timestamp && self.records[i].service_id
                == *service_id {
                let host: String = self.records[i].host_user_id.clone();
                proof {
                    lemma_record_lookup(self.records@, i as int);
                }
                self.set_state(i, ReservationState::Released);
                return Ok(host);
            }
            i = i + 1;
        }
        proof {
            assert forall|host: Seq<char>|
                #![trigger key_of(service_id@, timestamp as int, host)]
                !is_reclaimed(
                    old(self)@,
                    timestamp as int,
                    key_of(service_id@, timestamp as int, host),
                ) by {
                let key = key_of(service_id@, timestamp as int, host);
                if old(self)@.contains_key(key) {
                    let k = choose|k: int|
                        0 <= k < self.records@.len() && (#[trigger] self.records@[k]).key() == key;
                    lemma_record_lookup(self.records@, k);
                }
            }
        }
        Err(ReservationError::ReservationNotFoundError)
    }

    /// How many tuples the book has a record of.
    pub fn len(&self) -> (n: usize)
        ensures
            n == self.records().len(),
    {
        self.records.len()
    }

    /// Two records of a book never hold the same tuple: a tuple has at most
    /// one reservation, and so at most one that is pending or confirmed.
    pub proof fn lemma_one_record_per_tuple(&self, i: int, j: int)
        requires
            self.wf(),
            0 <= i < self.records().len(),
            0 <= j < self.records().len(),
            self.records()[i].key() == self.records()[j].key(),
        ensures
            i == j,
    {
        if i < j {
            assert(self.records@[i].key() != self.records@[j].key());
        } else if j < i {
            assert(self.records@[j].key() != self.records@[i].key());
        }
    }
}

} // verus!
