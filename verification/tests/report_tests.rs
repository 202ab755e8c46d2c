use agent_sim::StatsRegistry;
use agent_sim::report;

#[test]
fn report_of_empty_registry_is_empty() {
    let reg = StatsRegistry::new(5);
    let lines = report(&reg);
    assert!(lines.is_empty());
}

#[test]
fn report_skips_absent_entries() {
    let mut reg = StatsRegistry::new(4);
    reg.record_think(2);
    reg.record_eat(0);
    let lines = report(&reg);
    assert_eq!(lines.len(), 2);
    assert_eq!(lines[0].id, 0);
    assert_eq!(lines[0].eats, 1);
    assert_eq!(lines[0].thinks, 0);
    assert_eq!(lines[1].id, 2);
    assert_eq!(lines[1].eats, 0);
    assert_eq!(lines[1].thinks, 1);
}

#[test]
fn report_orders_identities_ascending() {
    let mut reg = StatsRegistry::new(6);
    // record in a scrambled identity order
    for id in [5, 1, 3, 0, 4, 2] {
        reg.record_think(id);
    }
    let lines = report(&reg);
    assert_eq!(lines.len(), 6);
    for (k, line) in lines.iter().enumerate() {
        assert_eq!(line.id, k);
        assert_eq!(line.thinks, 1);
        assert_eq!(line.eats, 0);
    }
    for pair in lines.windows(2) {
        assert!(pair[0].id < pair[1].id);
    }
}

#[test]
fn report_carries_exact_counts() {
    let mut reg = StatsRegistry::new(3);
    reg.record_think(1);
    reg.record_think(1);
    reg.record_think(1);
    reg.record_eat(1);
    reg.record_eat(1);
    let lines = report(&reg);
    assert_eq!(lines.len(), 1);
    assert_eq!(lines[0].id, 1);
    assert_eq!(lines[0].eats, 2);
    assert_eq!(lines[0].thinks, 3);
}
