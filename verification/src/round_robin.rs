//! Choice of one host among the hosts that are eligible for a slot.
//!
//! Hosts are weighed by the policy of the service. The host of least weight
//! wins, and among hosts of equal weight the one that stands first in the
//! list of eligible hosts. A host may be closed to the choice, for example
//! because a reservation already holds it.

use vstd::prelude::*;

verus! {

/// The fairness policy of a service.
#[derive(Clone, Copy, Debug, PartialEq, Eq, Structural)]
pub enum RoundRobinAlgorithm {
    /// Any eligible host will do: all hosts weigh the same.
    Availability,
    /// A host weighs as much as it has upcoming bookings of the service.
    EqualDistribution,
}

/// No host is open for the instant that was asked for.
#[derive(Clone, Copy, Debug, PartialEq, Eq, Structural)]
pub struct NoHostAvailableError;

/// A confirmed booking of the service, held by one host.
#[derive(Debug)]
pub struct ServiceEvent {
    pub host_user_id: String,
    pub start_ts: i64,
}

/// The number of bookings that `host` holds and that start at `now` or later.
pub open spec fn upcoming_count(events: Seq<ServiceEvent>, host: Seq<char>, now: int) -> nat
    decreases events.len(),
{
    if events.len() == 0 {
        0
    } else {
        let earlier = upcoming_count(events.drop_last(), host, now);
        if events.last().host_user_id@ == host && events.last().start_ts >= now {
            earlier + 1
        } else {
            earlier
        }
    }
}

/// The weight of each eligible host under a policy.
pub open spec fn host_weights(
    algorithm: RoundRobinAlgorithm,
    eligible: Seq<String>,
    events: Seq<ServiceEvent>,
    now: int,
) -> Seq<nat> {
    Seq::new(
        eligible.len(),
        |i: int|
            match algorithm {
                RoundRobinAlgorithm::Availability => 0,
                RoundRobinAlgorithm::EqualDistribution => upcoming_count(events, eligible[i]@, now),
            },
    )
}

/// Position `i` is open, no open position weighs less, and every open position
/// before it weighs more.
pub open spec fn is_choice(weights: Seq<nat>, closed: Seq<bool>, i: int) -> bool {
    &&& 0 <= i < weights.len()
    &&& !closed[i]
    &&& forall|j: int| 0 <= j < weights.len() && !closed[j] ==> weights[i] <= #[trigger] weights[j]
    &&& forall|j: int| 0 <= j < i && !closed[j] ==> weights[i] < #[trigger] weights[j]
}

/// No position at all is closed.
pub open spec fn all_open(len: nat) -> Seq<bool> {
    Seq::new(len, |i: int| false)
}

/// At most one position is the choice.
pub proof fn lemma_choice_is_unique(weights: Seq<nat>, closed: Seq<bool>, i: int, j: int)
    requires
        is_choice(weights, closed, i),
        is_choice(weights, closed, j),
    ensures
        i == j,
{
    if i < j {
        assert(weights[j] < weights[i]);
        assert(weights[i] <= weights[j]);
    } else if j < i {
        assert(weights[i] < weights[j]);
        assert(weights[j] <= weights[i]);
    }
}

/// Counts the bookings that `host` holds and that start at `now` or later.
pub fn count_upcoming(events: &Vec<ServiceEvent>, host: &String, now: i64) -> (count: usize)
    ensures
        count == upcoming_count(events@, host@, now as int),
{
    let mut count: usize = 0;
    let mut i: usize = 0;
    while i < events.len()
        invariant
            i <= events.len(),
            count <= i,
            count == upcoming_count(events@.take(i as int), host@, now as int),
        decreases events.len() - i,
    {
        proof {
            assert(events@.take(i as int + 1).drop_last() =~= events@.take(i as int));
        }
        if events[i].host_user_id == *host && events[i].start_ts >= now {
            count = count + 1;
        }
        i = i + 1;
    }
    proof {
        assert(events@.take(events.len() as int) =~= events@);
    }
    count
}

/// The weight of every eligible host, in the order of the list.
pub fn weigh_hosts(
    algorithm: RoundRobinAlgorithm,
    eligible: &Vec<String>,
    events: &Vec<ServiceEvent>,
    now: i64,
) -> (weights: Vec<usize>)
    ensures
        weights@.len() == eligible@.len(),
        forall|i: int|
            0 <= i < eligible@.len() ==> #[trigger] weights@[i] == host_weights(
                algorithm,
                eligible@,
                events@,
                now as int,
            )[i],
{
    let mut weights: Vec<usize> = Vec::new();
    let mut i: usize = 0;
    while i < eligible.len()
        invariant
            i <= eligible.len(),
            weights@.len() == i,
            forall|k: int|
                0 <= k < i ==> #[trigger] weights@[k] == host_weights(
                    algorithm,
                    eligible@,
                    events@,
                    now as int,
                )[k],
        decreases eligible.len() - i,
    {
        let weight: usize = match algorithm {
            RoundRobinAlgorithm::Availability => 0,
            RoundRobinAlgorithm::EqualDistribution => count_upcoming(events, &eligible[i], now),
        };
        weights.push(weight);
        i = i + 1;
    }
    weights
}

/// The plain values of a list of weights.
pub open spec fn weight_values(weights: Seq<usize>) -> Seq<nat> {
    Seq::new(weights.len(), |i: int| weights[i] as nat)
}

/// The position of the choice among the open positions, if any is open.
pub fn choose_position(weights: &Vec<usize>, closed: &Vec<bool>) -> (r: Option<usize>)
    requires
        closed@.len() == weights@.len(),
    ensures
        r is None <==> (forall|i: int| 0 <= i < closed@.len() ==> #[trigger] closed@[i]),
        r matches Some(i) ==> is_choice(weight_values(weights@), closed@, i as int),
{
    let mut best: Option<usize> = None;
    let mut i: usize = 0;
    while i < weights.len()
        invariant
            i <= weights.len(),
            closed@.len() == weights@.len(),
            best is None <==> (forall|k: int| 0 <= k < i ==> #[trigger] closed@[k]),
            best matches Some(b) ==> {
                &&& b < i
                &&& !closed@[b as int]
                &&& forall|j: int| 0 <= j < i && !closed@[j] ==> weights@[b as int] <= #[trigger] weights@[j]
                &&& forall|j: int| 0 <= j < b && !closed@[j] ==> weights@[b as int] < #[trigger] weights@[j]
            },
        decreases weights.len() - i,
    {
        if !closed[i] {
            match best {
                Some(b) => {
                    if weights[i] < weights[b] {
                        best = Some(i);
                    }
                },
                None => {
                    best = Some(i);
                },
            }
        }
        i = i + 1;
    }
    proof {
        if let Some(b) = best {
            let values = weight_values(weights@);
            assert forall|j: int| 0 <= j < values.len() && !closed@[j] implies values[b as int]
                <= #[trigger] values[j] by {
                assert(weights@[b as int] <= weights@[j]);
            }
            assert forall|j: int| 0 <= j < b && !closed@[j] implies values[b as int]
                < #[trigger] values[j] by {
                assert(weights@[b as int] < weights@[j]);
            }
        }
    }
    best
}

/// A list that closes no position of `len`.
pub fn none_closed(len: usize) -> (closed: Vec<bool>)
    ensures
        closed@ == all_open(len as nat),
{
    let mut closed: Vec<bool> = Vec::new();
    let mut i: usize = 0;
    while i < len
        invariant
            i <= len,
            closed@.len() == i,
            forall|k: int| 0 <= k < i ==> !#[trigger] closed@[k],
        decreases len - i,
    {
        closed.push(false);
        i = i + 1;
    }
    assert(closed@ =~= all_open(len as nat));
    closed
}

/// Picks one host from the eligible hosts of a slot.
///
/// Under `Availability` the first host of the list is picked. Under
/// `EqualDistribution` the host with the fewest upcoming bookings is picked,
/// and among several such hosts the first of the list. An empty list gives
/// `NoHostAvailableError`.
pub fn select_host(
    algorithm: RoundRobinAlgorithm,
    eligible: &Vec<String>,
    events: &Vec<ServiceEvent>,
    now: i64,
) -> (r: Result<String, NoHostAvailableError>)
    ensures
        r is Err <==> eligible@.len() == 0,
        r matches Ok(host) ==> exists|i: int|
            #[trigger] is_choice(
                host_weights(algorithm, eligible@, events@, now as int),
                all_open(eligible@.len()),
                i,
            ) && host@ == eligible@[i]@,
{
    let weights: Vec<usize> = weigh_hosts(algorithm, eligible, events, now);
    let closed: Vec<bool> = none_closed(eligible.len());
    match choose_position(&weights, &closed) {
        Some(i) => {
            proof {
                assert(weight_values(weights@) =~= host_weights(
                    algorithm,
                    eligible@,
                    events@,
                    now as int,
                ));
            }
            Ok(eligible[i].clone())
        },
        None => {
            proof {
                if eligible@.len() > 0 {
                    assert(closed@[0]);
                }
            }
            Err(NoHostAvailableError)
        },
    }
}

} // verus!
