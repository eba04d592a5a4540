use brawlfast::prefetch::{run_in_order, unit_succeeds, Prefetch};

#[test]
fn window_never_exceeds_limit_and_counts_all() {
    let mut p = Prefetch::start(10, 3);
    assert_eq!(p.in_flight, 3);
    let mut max_in_flight = p.in_flight;
    let mut started = vec![0usize, 1, 2];
    let mut k = 0;
    while p.in_flight > 0 {
        let ok = k % 3 != 0;
        if let Some(id) = p.complete(ok) {
            started.push(id);
        }
        max_in_flight = max_in_flight.max(p.in_flight);
        assert!(p.in_flight <= 3);
        k += 1;
    }
    assert_eq!(max_in_flight, 3);
    assert_eq!(started, (0..10).collect::<Vec<_>>());
    assert_eq!(p.success + p.failed, 10);
    assert_eq!(p.failed, 4);
}

#[test]
fn run_counts_every_outcome() {
    let outcomes = vec![true, false, false, true, true, false, false, false, true, false];
    let r = run_in_order(10, 3, &outcomes);
    assert_eq!(r.success + r.failed, 10);
    assert_eq!(r.success, 4);
    let r = run_in_order(0, 8, &vec![]);
    assert_eq!((r.success, r.failed), (0, 0));
}

#[test]
fn fewer_ids_than_limit() {
    let p = Prefetch::start(2, 8);
    assert_eq!((p.next, p.in_flight), (2, 2));
}

#[test]
fn unit_needs_ok_status_and_body() {
    assert!(unit_succeeds(200, "{}"));
    assert!(!unit_succeeds(200, ""));
    assert!(!unit_succeeds(500, "{}"));
}
