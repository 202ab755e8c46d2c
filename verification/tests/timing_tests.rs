use agent_sim::random_duration;

#[test]
fn duration_stays_below_bound() {
    for _ in 0..200 {
        assert!(random_duration(100) < 100);
    }
}

#[test]
fn duration_with_unit_bound_is_zero() {
    for _ in 0..20 {
        assert_eq!(random_duration(1), 0);
    }
}

#[test]
fn duration_respects_small_bounds() {
    for bound in 1..=16u64 {
        for _ in 0..50 {
            assert!(random_duration(bound) < bound);
        }
    }
}
