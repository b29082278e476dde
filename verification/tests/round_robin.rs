use nettu_scheduler::round_robin::{
    choose_position, count_upcoming, select_host, weigh_hosts, NoHostAvailableError,
    RoundRobinAlgorithm, ServiceEvent,
};

fn s(text: &str) -> String {
    text.to_string()
}

fn events(counts: &[(&str, usize)], start_ts: i64) -> Vec<ServiceEvent> {
    let mut out = vec![];
    for (host, count) in counts {
        for _ in 0..*count {
            out.push(ServiceEvent { host_user_id: s(host), start_ts });
        }
    }
    out
}

#[test]
fn only_upcoming_bookings_count() {
    let list = vec![
        ServiceEvent { host_user_id: s("a"), start_ts: 9 },
        ServiceEvent { host_user_id: s("a"), start_ts: 10 },
        ServiceEvent { host_user_id: s("a"), start_ts: 11 },
        ServiceEvent { host_user_id: s("b"), start_ts: 11 },
    ];
    assert_eq!(count_upcoming(&list, &s("a"), 10), 2);
    assert_eq!(count_upcoming(&list, &s("b"), 10), 1);
    assert_eq!(count_upcoming(&list, &s("c"), 10), 0);
    assert_eq!(count_upcoming(&list, &s("a"), 12), 0);
    assert_eq!(count_upcoming(&vec![], &s("a"), 0), 0);
}

#[test]
fn hosts_weigh_their_upcoming_bookings_under_equal_distribution_only() {
    let eligible = vec![s("a"), s("b"), s("c"), s("d")];
    let list = events(&[("a", 3), ("c", 1), ("d", 5)], 100);
    assert_eq!(weigh_hosts(RoundRobinAlgorithm::EqualDistribution, &eligible, &list, 0), vec![3, 0, 1, 5]);
    assert_eq!(weigh_hosts(RoundRobinAlgorithm::Availability, &eligible, &list, 0), vec![0, 0, 0, 0]);
}

#[test]
fn the_host_with_the_fewest_upcoming_bookings_is_selected() {
    let eligible = vec![s("a"), s("b"), s("c"), s("d")];
    let mut list = events(&[("a", 3), ("c", 1), ("d", 5)], 100);
    assert_eq!(select_host(RoundRobinAlgorithm::EqualDistribution, &eligible, &list, 0), Ok(s("b")));
    // Once "b" is booked it is tied with "c", and the first of the two is selected.
    list.push(ServiceEvent { host_user_id: s("b"), start_ts: 100 });
    assert_eq!(select_host(RoundRobinAlgorithm::EqualDistribution, &eligible, &list, 0), Ok(s("b")));
    list.push(ServiceEvent { host_user_id: s("b"), start_ts: 100 });
    assert_eq!(select_host(RoundRobinAlgorithm::EqualDistribution, &eligible, &list, 0), Ok(s("c")));
    // Bookings of the past do not count.
    assert_eq!(select_host(RoundRobinAlgorithm::EqualDistribution, &eligible, &list, 101), Ok(s("a")));
}

#[test]
fn availability_selects_the_first_eligible_host() {
    let eligible = vec![s("c"), s("a"), s("b")];
    let list = events(&[("c", 9)], 100);
    assert_eq!(select_host(RoundRobinAlgorithm::Availability, &eligible, &list, 0), Ok(s("c")));
}

#[test]
fn no_eligible_host_is_an_error() {
    assert_eq!(select_host(RoundRobinAlgorithm::Availability, &vec![], &vec![], 0), Err(NoHostAvailableError));
    assert_eq!(
        select_host(RoundRobinAlgorithm::EqualDistribution, &vec![], &events(&[("a", 1)], 5), 0),
        Err(NoHostAvailableError)
    );
}

#[test]
fn closed_positions_are_never_chosen() {
    assert_eq!(choose_position(&vec![3, 0, 1, 5], &vec![false, false, false, false]), Some(1));
    assert_eq!(choose_position(&vec![3, 0, 1, 5], &vec![false, true, false, false]), Some(2));
    assert_eq!(choose_position(&vec![3, 0, 1, 5], &vec![false, true, true, false]), Some(0));
    assert_eq!(choose_position(&vec![3, 0, 1, 5], &vec![true, true, true, false]), Some(3));
    assert_eq!(choose_position(&vec![3, 0, 1, 5], &vec![true, true, true, true]), None);
    assert_eq!(choose_position(&vec![1, 1, 1], &vec![false, false, false]), Some(0));
    assert_eq!(choose_position(&vec![], &vec![]), None);
}
