use nettu_scheduler::interval::{
    add_interval, intersect, is_free_for, normalize, subtract, subtract_interval, Interval,
};

fn iv(start_ts: i64, end_ts: i64) -> Interval {
    Interval { start_ts, end_ts }
}

#[test]
fn new_interval_needs_a_positive_length() {
    assert_eq!(Interval::new(1, 2), Some(iv(1, 2)));
    assert_eq!(Interval::new(2, 2), None);
    assert_eq!(Interval::new(3, 2), None);
}

#[test]
fn normalize_sorts_and_merges() {
    let out = normalize(&vec![iv(30, 40), iv(0, 10), iv(5, 20), iv(50, 50), iv(70, 60)]);
    assert_eq!(out, vec![iv(0, 20), iv(30, 40)]);
    assert_eq!(normalize(&vec![]), vec![]);
}

#[test]
fn touching_intervals_are_joined() {
    assert_eq!(normalize(&vec![iv(0, 10), iv(10, 20)]), vec![iv(0, 20)]);
    assert_eq!(normalize(&vec![iv(10, 20), iv(0, 10), iv(20, 30)]), vec![iv(0, 30)]);
    assert_eq!(normalize(&vec![iv(0, 10), iv(11, 20)]), vec![iv(0, 10), iv(11, 20)]);
}

#[test]
fn add_interval_joins_everything_it_reaches() {
    let norm = vec![iv(0, 10), iv(20, 30), iv(40, 50), iv(60, 70)];
    assert_eq!(add_interval(&norm, iv(25, 45)), vec![iv(0, 10), iv(20, 50), iv(60, 70)]);
    assert_eq!(add_interval(&norm, iv(10, 20)), vec![iv(0, 30), iv(40, 50), iv(60, 70)]);
    assert_eq!(
        add_interval(&norm, iv(12, 18)),
        vec![iv(0, 10), iv(12, 18), iv(20, 30), iv(40, 50), iv(60, 70)]
    );
    assert_eq!(add_interval(&norm, iv(-5, 100)), vec![iv(-5, 100)]);
    assert_eq!(
        add_interval(&norm, iv(80, 90)),
        vec![iv(0, 10), iv(20, 30), iv(40, 50), iv(60, 70), iv(80, 90)]
    );
    assert_eq!(add_interval(&vec![], iv(1, 2)), vec![iv(1, 2)]);
}

#[test]
fn subtract_cuts_busy_time_out() {
    let free = vec![iv(0, 100)];
    assert_eq!(subtract_interval(&free, iv(40, 60)), vec![iv(0, 40), iv(60, 100)]);
    assert_eq!(subtract_interval(&free, iv(-10, 10)), vec![iv(10, 100)]);
    assert_eq!(subtract_interval(&free, iv(90, 110)), vec![iv(0, 90)]);
    assert_eq!(subtract_interval(&free, iv(0, 100)), vec![]);
    assert_eq!(subtract_interval(&free, iv(100, 200)), vec![iv(0, 100)]);
    assert_eq!(subtract_interval(&free, iv(60, 40)), vec![iv(0, 100)]);
    assert_eq!(subtract_interval(&free, iv(50, 50)), vec![iv(0, 100)]);
    let free = vec![iv(0, 10), iv(20, 30), iv(40, 50)];
    assert_eq!(subtract(&free, &vec![iv(5, 25), iv(45, 47)]), vec![iv(0, 5), iv(25, 30), iv(40, 45), iv(47, 50)]);
    assert_eq!(subtract(&free, &vec![]), free);
}

#[test]
fn intersect_keeps_shared_time() {
    let a = vec![iv(0, 10), iv(20, 30)];
    assert_eq!(intersect(&a, &vec![iv(5, 25)]), vec![iv(5, 10), iv(20, 25)]);
    assert_eq!(intersect(&a, &vec![iv(10, 20)]), vec![]);
    assert_eq!(intersect(&a, &vec![iv(0, 5), iv(5, 10)]), vec![iv(0, 10)]);
    assert_eq!(intersect(&a, &vec![]), vec![]);
}

#[test]
fn a_span_is_free_only_inside_one_interval() {
    let free = vec![iv(0, 10), iv(10, 20), iv(30, 40)];
    assert!(is_free_for(&free, 0, 10));
    assert!(!is_free_for(&free, 5, 10));
    assert!(is_free_for(&free, 30, 10));
    assert!(!is_free_for(&free, 31, 10));
    assert!(!is_free_for(&free, 25, 1));
    assert!(!is_free_for(&free, i64::MAX - 1, 10));
    assert!(!is_free_for(&vec![], 0, 1));
}
