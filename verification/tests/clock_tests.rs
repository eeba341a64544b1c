use crsl::timestamp::{MonotonicClock, next_monotonic_timestamp};

#[test]
fn timestamps_are_monotonic() {
    let mut clock = MonotonicClock::new();
    let a = next_monotonic_timestamp(&mut clock);
    let b = next_monotonic_timestamp(&mut clock);
    let c = next_monotonic_timestamp(&mut clock);

    assert!(a < b);
    assert!(b < c);
}

#[test]
fn handles_same_tick() {
    let mut clock = MonotonicClock::new();
    let mut last = next_monotonic_timestamp(&mut clock);
    for _ in 0..100 {
        let current = next_monotonic_timestamp(&mut clock);
        assert!(current > last);
        last = current;
    }
}
