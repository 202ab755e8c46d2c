use agent_sim::StatsRegistry;

#[test]
fn registry_starts_empty() {
    let reg = StatsRegistry::new(4);
    assert_eq!(reg.len(), 4);
    for id in 0..4 {
        assert!(!reg.has_entry(id));
        assert_eq!(reg.eat_count(id), 0);
        assert_eq!(reg.think_count(id), 0);
    }
}

#[test]
fn registry_creates_entry_lazily() {
    let mut reg = StatsRegistry::new(3);
    assert!(!reg.has_entry(1));
    reg.record_think(1);
    assert!(reg.has_entry(1));
    assert!(!reg.has_entry(0));
    assert!(!reg.has_entry(2));
    assert_eq!(reg.think_count(1), 1);
    assert_eq!(reg.eat_count(1), 0);
}

#[test]
fn registry_counts_events_per_identity() {
    let mut reg = StatsRegistry::new(3);
    reg.record_think(0);
    reg.record_think(0);
    reg.record_eat(0);
    reg.record_eat(2);
    assert_eq!(reg.think_count(0), 2);
    assert_eq!(reg.eat_count(0), 1);
    assert_eq!(reg.think_count(2), 0);
    assert_eq!(reg.eat_count(2), 1);
    assert_eq!(reg.think_count(1), 0);
    assert_eq!(reg.eat_count(1), 0);
}

#[test]
fn registry_snapshot_is_consistent_copy() {
    let mut reg = StatsRegistry::new(2);
    reg.record_think(0);
    reg.record_eat(0);
    let snap = reg.snapshot();
    assert_eq!(snap.len(), 2);
    let c0 = snap[0].expect("entry 0 present");
    assert_eq!(c0.eats, 1);
    assert_eq!(c0.thinks, 1);
    assert!(snap[1].is_none());
    // mutating after the snapshot does not change the copy
    reg.record_eat(0);
    let c0_again = snap[0].expect("entry 0 present");
    assert_eq!(c0_again.eats, 1);
}

#[test]
fn registry_counts_never_decrease() {
    let mut reg = StatsRegistry::new(2);
    let mut last_eats: u64 = 0;
    let mut last_thinks: u64 = 0;
    for round in 0..20 {
        if round % 3 == 0 {
            reg.record_eat(1);
        } else {
            reg.record_think(1);
        }
        let eats = reg.eat_count(1);
        let thinks = reg.think_count(1);
        assert!(eats >= last_eats);
        assert!(thinks >= last_thinks);
        last_eats = eats;
        last_thinks = thinks;
    }
}
