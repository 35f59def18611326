use gridiron::scheduling::RoundRobin;

#[test]
fn round_robin_is_fair() {
    // Sixteen jobs without a hint over four workers: each worker gets
    // exactly four, dealt out cyclically.
    let mut pool = RoundRobin::new(4);
    let mut counts = [0usize; 4];
    for t in 0..16 {
        let w = pool.assign(None);
        assert_eq!(w, t % 4);
        counts[w] += 1;
    }
    assert_eq!(counts, [4, 4, 4, 4]);
}

#[test]
fn affinity_hint_pins_worker() {
    // Four hinted jobs all run on worker 2 and leave the round-robin
    // cursor untouched.
    let mut pool = RoundRobin::new(4);
    for _ in 0..4 {
        assert_eq!(pool.assign(Some(2)), 2);
    }
    assert_eq!(pool.assign(None), 0);
}

#[test]
fn hinted_and_unhinted_jobs_interleave() {
    let mut pool = RoundRobin::new(2);
    assert_eq!(pool.num_workers(), 2);
    assert_eq!(pool.assign(None), 0);
    assert_eq!(pool.assign(Some(0)), 0);
    assert_eq!(pool.assign(None), 1);
    assert_eq!(pool.assign(None), 0);
}
