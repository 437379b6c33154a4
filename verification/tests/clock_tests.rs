use distributed_queue_mini::clock::{Snapshot, VectorClock};

fn snapshot(pairs: &[(&str, u64)]) -> Snapshot {
    let mut s = Snapshot::new();
    for (node, time) in pairs {
        s.insert(node.to_string(), *time);
    }
    s
}

/// A clock of `local` that knows `others`, with the counters of `counters`.
fn clock_with(local: &str, others: &[&str], counters: &[(&str, u64)]) -> VectorClock {
    let mut clock = VectorClock::new(local, others);
    let mut own = 0;
    for (node, time) in counters {
        if *node == local {
            own = *time;
        }
    }
    assert!(own >= 1);
    for _ in 0..own - 1 {
        clock.tick();
    }
    clock.update(&snapshot(counters));
    assert!(clock.snapshot().equals(&snapshot(counters)));
    clock
}

#[test]
fn single_node_clock_starts_at_zero() {
    let clock = VectorClock::new_single("n1");
    assert_eq!(clock.now(), 0);
    assert!(clock.snapshot().equals(&snapshot(&[("n1", 0)])));
    assert_eq!(clock.snapshot().len(), 1);
}

#[test]
fn clock_with_peers_starts_at_zero_everywhere() {
    let clock = VectorClock::new("c", &["a", "b"]);
    assert!(clock.snapshot().equals(&snapshot(&[("a", 0), ("b", 0), ("c", 0)])));
    let again = VectorClock::new("a", &["a", "b", "b"]);
    assert!(again.snapshot().equals(&snapshot(&[("a", 0), ("b", 0)])));
    assert_eq!(again.snapshot().len(), 2);
}

#[test]
fn tick_raises_only_the_local_counter_by_one() {
    let mut clock = VectorClock::new("n1", &["n2"]);
    assert_eq!(clock.tick(), 1);
    assert_eq!(clock.tick(), 2);
    assert_eq!(clock.now(), 2);
    assert!(clock.snapshot().equals(&snapshot(&[("n1", 2), ("n2", 0)])));
}

#[test]
fn tick_snapshot_shows_the_tick() {
    let mut clock = VectorClock::new("n1", &["n2"]);
    let s = clock.tick_snapshot();
    assert!(s.equals(&snapshot(&[("n1", 1), ("n2", 0)])));
    assert_eq!(clock.now(), 1);
}

#[test]
fn snapshot_is_not_touched_by_later_ticks() {
    let mut clock = VectorClock::new_single("n1");
    clock.tick();
    let s = clock.snapshot();
    clock.tick();
    clock.update(&snapshot(&[("n1", 40)]));
    assert!(s.equals(&snapshot(&[("n1", 1)])));
    assert_eq!(clock.now(), 40);
}

#[test]
fn update_ticks_then_takes_the_larger_of_shared_counters() {
    let mut clock = VectorClock::new("n1", &["n2", "n3"]);
    clock.tick();
    clock.tick();
    clock.update(&snapshot(&[("n1", 10), ("n2", 5), ("n9", 7)]));
    assert!(clock.snapshot().equals(&snapshot(&[("n1", 10), ("n2", 5), ("n3", 0)])));
    clock.update(&snapshot(&[("n1", 1), ("n2", 4), ("n3", 1)]));
    assert!(clock.snapshot().equals(&snapshot(&[("n1", 11), ("n2", 5), ("n3", 1)])));
}

#[test]
fn update_with_an_empty_clock_only_ticks() {
    let mut clock = VectorClock::new("n1", &["n2"]);
    clock.update(&Snapshot::new());
    assert!(clock.snapshot().equals(&snapshot(&[("n1", 1), ("n2", 0)])));
}

#[test]
fn update_never_lowers_a_counter() {
    let mut clock = clock_with("n1", &["n2", "n3"], &[("n1", 3), ("n2", 8), ("n3", 2)]);
    let before = clock.snapshot();
    clock.update(&snapshot(&[("n1", 0), ("n2", 1), ("n3", 2)]));
    let after = clock.snapshot();
    for i in 0..before.len() {
        assert!(after.get(before.key(i)).unwrap() >= before.value(i));
    }
    assert_eq!(clock.now(), 4);
}

#[test]
fn add_node_adds_unknown_nodes_only() {
    let mut clock = VectorClock::new_single("n1");
    clock.tick();
    clock.add_node("n2");
    assert!(clock.snapshot().equals(&snapshot(&[("n1", 1), ("n2", 0)])));
    clock.update(&snapshot(&[("n2", 6)]));
    clock.add_node("n2");
    clock.add_node("n1");
    assert!(clock.snapshot().equals(&snapshot(&[("n1", 2), ("n2", 6)])));
}

#[test]
fn happened_before_needs_no_larger_and_one_smaller_counter() {
    let a = clock_with("n1", &["n2"], &[("n1", 1), ("n2", 0)]);
    assert!(a.happened_before(&snapshot(&[("n1", 1), ("n2", 1)])));
    assert!(a.happened_before(&snapshot(&[("n1", 2), ("n2", 0)])));
    assert!(!a.happened_before(&snapshot(&[("n1", 1), ("n2", 0)])));
    assert!(!a.happened_before(&snapshot(&[("n1", 0), ("n2", 5)])));
    assert!(!a.happened_before(&snapshot(&[("n2", 5)])));
    assert!(!a.happened_before(&Snapshot::new()));
}

#[test]
fn happened_before_counts_unknown_nodes_above_zero() {
    let a = clock_with("n1", &[], &[("n1", 1)]);
    assert!(a.happened_before(&snapshot(&[("n1", 1), ("n3", 4)])));
    assert!(!a.happened_before(&snapshot(&[("n1", 1), ("n3", 0)])));
    assert!(!a.happened_before(&snapshot(&[("n1", 0), ("n3", 4)])));
}

#[test]
fn happened_before_is_transitive_and_asymmetric_on_examples() {
    let a = clock_with("n1", &["n2"], &[("n1", 1), ("n2", 0)]);
    let b = clock_with("n1", &["n2"], &[("n1", 1), ("n2", 2)]);
    let c = clock_with("n1", &["n2"], &[("n1", 3), ("n2", 2)]);
    assert!(a.happened_before(&b.snapshot()));
    assert!(b.happened_before(&c.snapshot()));
    assert!(a.happened_before(&c.snapshot()));
    assert!(!b.happened_before(&a.snapshot()));
    assert!(!c.happened_before(&b.snapshot()));
    assert!(!c.happened_before(&a.snapshot()));
    let x = clock_with("n1", &["n2"], &[("n1", 2), ("n2", 0)]);
    let y = clock_with("n1", &["n2"], &[("n1", 1), ("n2", 1)]);
    assert!(!x.happened_before(&y.snapshot()));
    assert!(!y.happened_before(&x.snapshot()));
}
