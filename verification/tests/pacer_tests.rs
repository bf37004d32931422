use shardlink::pacer::Pacer;

#[test]
fn pacer_first_tick_immediate() {
    let mut p = Pacer::new(0, 100);
    assert_eq!(p.wait_next(0), 100);
}

#[test]
fn pacer_no_drift_under_jitter() {
    let mut p = Pacer::new(0, 100);
    let d1 = p.wait_next(0);
    assert_eq!(d1, 100);
    // woken 30ms late: the next deadline still sits on the grid
    let d2 = p.wait_next(130);
    assert_eq!(d2, 200);
    let d3 = p.wait_next(205);
    assert_eq!(d3, 300);
    // a long run of jittered wakes keeps at least one interval of spacing
    // from each previous scheduled deadline
    let mut prev = d3;
    let mut now = 305u64;
    for _ in 0..150 {
        let d = p.wait_next(now);
        assert!(d >= prev + 100);
        prev = d;
        now = d + 7;
    }
}

#[test]
fn pacer_idle_schedules_from_now() {
    let mut p = Pacer::new(0, 100);
    // after a long idle spell the next tick is due at the current time,
    // not at every missed grid point
    assert_eq!(p.wait_next(10_000), 10_000);
    assert_eq!(p.wait_next(10_000), 10_100);
}

#[test]
fn pacer_set_interval_applies_to_next_wait() {
    let mut p = Pacer::new(0, 100);
    assert_eq!(p.wait_next(0), 100);
    p.set_interval(50);
    assert_eq!(p.wait_next(0), 150);
    p.set_interval(1000);
    assert_eq!(p.wait_next(0), 1150);
}
