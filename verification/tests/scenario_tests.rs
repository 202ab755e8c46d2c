use agent_sim::AgentState;
use agent_sim::SystemModel;
use agent_sim::report;

/// Advances agent `i` by one step of its cycle, admitting it only when a
/// slot is free, and returns whether it took a step.
fn advance(sys: &mut SystemModel, i: usize) -> bool {
    match sys.agent_phase(i) {
        AgentState::Thinking => {
            sys.step_think(i);
            true
        }
        AgentState::AwaitingPermit => {
            if sys.can_admit() {
                sys.step_admit(i);
                true
            } else {
                false
            }
        }
        AgentState::Eating => {
            sys.step_finish_eat(i);
            true
        }
        AgentState::Stopped => false,
    }
}

fn eating_agents(sys: &SystemModel) -> usize {
    let mut count = 0;
    for i in 0..sys.num_agents() {
        if sys.agent_phase(i) == AgentState::Eating {
            count += 1;
        }
    }
    count
}

#[test]
fn exclusion_with_single_slot() {
    // three agents over a gate of capacity one: never two eating at once
    let mut sys = SystemModel::new(3, 1);
    for i in 0..3 {
        sys.step_think(i);
    }
    for round in 0..6 {
        let i = round % 3;
        if sys.agent_phase(i) == AgentState::AwaitingPermit && sys.can_admit() {
            sys.step_admit(i);
        }
        assert!(sys.holders() <= 1);
        assert!(eating_agents(&sys) <= 1);
        // with one agent admitted, no further admission is possible
        if sys.holders() == 1 {
            assert!(!sys.can_admit());
        }
        if sys.agent_phase(i) == AgentState::Eating {
            sys.step_finish_eat(i);
            sys.step_think(i);
        }
        assert!(sys.holders() <= 1);
    }
}

#[test]
fn no_contention_when_capacity_equals_population() {
    // three agents, three slots: admission never has to wait
    let mut sys = SystemModel::new(3, 3);
    for i in 0..3 {
        sys.step_think(i);
    }
    for i in 0..3 {
        // a slot is free before every admission, so no agent suspends
        assert!(sys.can_admit());
        sys.step_admit(i);
    }
    assert_eq!(sys.holders(), 3);
    assert_eq!(sys.available_slots(), 0);
    for i in 0..3 {
        sys.step_finish_eat(i);
    }
    assert_eq!(sys.available_slots(), 3);
}

#[test]
fn immediate_cancellation_reports_nothing() {
    // cancellation before any agent completes a phase: no entry recorded
    let mut sys = SystemModel::new(5, 2);
    for i in 0..5 {
        sys.step_cancel(i);
    }
    assert!(sys.all_stopped());
    assert_eq!(sys.available_slots(), sys.gate_capacity());
    let lines = report(sys.stats());
    assert!(lines.is_empty());
    for i in 0..5 {
        assert_eq!(sys.eat_count(i), 0);
        assert_eq!(sys.think_count(i), 0);
    }
}

#[test]
fn cancellation_mid_eat_releases_the_permit() {
    // stop agents from every phase; no slot may stay lost
    let mut sys = SystemModel::new(3, 2);
    sys.step_think(0);
    sys.step_think(1);
    sys.step_admit(0); // agent 0 eats
    assert_eq!(sys.available_slots(), 1);
    sys.step_cancel(0); // cancelled while holding a permit
    assert_eq!(sys.available_slots(), 2);
    sys.step_cancel(1); // cancelled while awaiting admission
    sys.step_cancel(2); // cancelled while thinking
    assert!(sys.all_stopped());
    assert_eq!(sys.available_slots(), 2);
    assert_eq!(sys.holders(), 0);
    // the one completed admission is on record
    assert_eq!(sys.eat_count(0), 1);
}

#[test]
fn load_run_respects_capacity_and_stops_cleanly() {
    // one hundred agents over five slots, many deterministic rounds
    let n = 100;
    let k = 5;
    let mut sys = SystemModel::new(n, k);
    let mut last_eats = vec![0u64; n];
    let mut last_thinks = vec![0u64; n];
    for _round in 0..40 {
        for i in 0..n {
            advance(&mut sys, i);
            // the capacity bound holds at every sampled instant
            assert!(sys.holders() <= k);
            assert!(eating_agents(&sys) <= k);
        }
        // counters never decrease over the run
        for i in 0..n {
            let e = sys.eat_count(i);
            let t = sys.think_count(i);
            assert!(e >= last_eats[i]);
            assert!(t >= last_thinks[i]);
            last_eats[i] = e;
            last_thinks[i] = t;
        }
    }
    // external cancellation reaches every agent, wherever it stands
    for i in 0..n {
        sys.step_cancel(i);
        assert!(sys.holders() <= k);
    }
    assert!(sys.all_stopped());
    assert_eq!(sys.holders(), 0);
    assert_eq!(sys.available_slots(), k);
    // the report covers exactly the agents with recorded events, in order
    let lines = report(sys.stats());
    for pair in lines.windows(2) {
        assert!(pair[0].id < pair[1].id);
    }
}

#[test]
fn eat_count_rises_exactly_at_admission() {
    let mut sys = SystemModel::new(2, 1);
    sys.step_think(0);
    assert_eq!(sys.eat_count(0), 0);
    assert_eq!(sys.think_count(0), 1);
    let before = sys.eat_count(0);
    sys.step_admit(0);
    // the increment happens at the admission, while the permit is held
    assert_eq!(sys.eat_count(0), before + 1);
    assert_eq!(sys.agent_phase(0), AgentState::Eating);
    sys.step_finish_eat(0);
    // finishing the eat phase does not count another eat event
    assert_eq!(sys.eat_count(0), before + 1);
    assert_eq!(sys.agent_phase(0), AgentState::Thinking);
    // the other agent's counters are untouched throughout
    assert_eq!(sys.eat_count(1), 0);
    assert_eq!(sys.think_count(1), 0);
}

#[test]
fn full_cycles_leave_no_permit_outstanding() {
    let mut sys = SystemModel::new(4, 2);
    for _ in 0..5 {
        for i in 0..4 {
            sys.step_think(i);
            assert!(sys.can_admit());
            sys.step_admit(i);
            sys.step_finish_eat(i);
        }
        assert_eq!(sys.available_slots(), 2);
    }
    for i in 0..4 {
        assert_eq!(sys.eat_count(i), 5);
        assert_eq!(sys.think_count(i), 5);
    }
}
