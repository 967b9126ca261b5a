use ferricula::memory::{archive_phase, forgive_phase, ArchiveFacts, LifecycleFacts};
use ferricula::memory::{archive_transition, forgive_transition, resonates, LifecycleState, ResonanceGate};

#[test]
fn lifecycle_moves_forward_only() {
    assert_eq!(forgive_transition(LifecycleState::Active), (true, LifecycleState::Forgiven));
    assert_eq!(forgive_transition(LifecycleState::Forgiven), (false, LifecycleState::Forgiven));
    assert_eq!(forgive_transition(LifecycleState::Archived), (false, LifecycleState::Archived));
    assert_eq!(archive_transition(LifecycleState::Forgiven), (true, LifecycleState::Archived));
    assert_eq!(archive_transition(LifecycleState::Active), (false, LifecycleState::Active));
    assert_eq!(archive_transition(LifecycleState::Archived), (false, LifecycleState::Archived));
}

#[test]
fn keystone_always_resonates() {
    let gates = [ResonanceGate::Fidelity, ResonanceGate::Lifecycle, ResonanceGate::Temporal, ResonanceGate::AgentCapacity];
    assert!(resonates(true, false, LifecycleState::Archived, 0, false, &gates));
}

#[test]
fn gates_filter_non_keystones() {
    assert!(resonates(false, false, LifecycleState::Archived, 0, false, &[]));
    assert!(!resonates(false, false, LifecycleState::Active, 10_000, true, &[ResonanceGate::Fidelity]));
    assert!(!resonates(false, true, LifecycleState::Forgiven, 10_000, true, &[ResonanceGate::Lifecycle]));
    assert!(!resonates(false, true, LifecycleState::Active, 10_000, false, &[ResonanceGate::AgentCapacity]));
    assert!(resonates(false, true, LifecycleState::Active, 10_000, true, &[ResonanceGate::Fidelity, ResonanceGate::Lifecycle, ResonanceGate::AgentCapacity]));
}

#[test]
fn entropy_bytes_select_below_threshold() {
    let ids = [1u32, 2, 3, 4];
    let seed = [0u8, 200, 50, 255];
    assert_eq!(ferricula::memory::select_by_entropy_bytes(&ids, &seed, 127), vec![1, 3]);
    let short = [10u8, 200];
    assert_eq!(ferricula::memory::select_by_entropy_bytes(&[5, 6, 7, 8, 9], &short, 100), vec![5, 7, 9]);
    assert!(ferricula::memory::select_by_entropy_bytes(&ids, &seed, 0).is_empty());
}

#[test]
fn lifecycle_transitions() {
    // A new record starts Active.
    let mut state = LifecycleState::default();
    assert_eq!(state, LifecycleState::Active);

    // Can't archive from Active
    let (moved, next) = archive_transition(state);
    assert!(!moved);
    state = next;
    assert_eq!(state, LifecycleState::Active);

    // Active → Forgiven
    let (moved, next) = forgive_transition(state);
    assert!(moved);
    state = next;
    assert_eq!(state, LifecycleState::Forgiven);

    // Can't forgive again
    let (moved, next) = forgive_transition(state);
    assert!(!moved);
    state = next;

    // Forgiven → Archived
    let (moved, next) = archive_transition(state);
    assert!(moved);
    state = next;
    assert_eq!(state, LifecycleState::Archived);

    // Can't archive again
    let (moved, _) = archive_transition(state);
    assert!(!moved);
}

const FIDELITY_GATE: f32 = 0.75;
const HEAT_CEILING: f32 = 10.0;

/// A fresh memory's resonance: the fidelity and heat held against their
/// thresholds, recalled long enough ago to be in phase.
fn fresh_resonates(keystone: bool, fidelity: f32, state: LifecycleState, heat: f32, gates: &[ResonanceGate]) -> bool {
    resonates(keystone, fidelity >= FIDELITY_GATE, state, 10_000, heat <= HEAT_CEILING, gates)
}

#[test]
fn resonance_keystone_always_passes() {
    assert!(fresh_resonates(
        true,
        0.01,
        LifecycleState::Active,
        100.0,
        &[ResonanceGate::Fidelity, ResonanceGate::AgentCapacity]
    ));
}

#[test]
fn resonance_fidelity_gate() {
    assert!(fresh_resonates(false, FIDELITY_GATE + 0.01, LifecycleState::Active, 0.0, &[ResonanceGate::Fidelity]));
    assert!(!fresh_resonates(false, FIDELITY_GATE - 0.01, LifecycleState::Active, 0.0, &[ResonanceGate::Fidelity]));
}

#[test]
fn resonance_lifecycle_gate() {
    assert!(fresh_resonates(false, 1.0, LifecycleState::Active, 0.0, &[ResonanceGate::Lifecycle]));
    let (_, forgiven) = forgive_transition(LifecycleState::Active);
    assert!(!fresh_resonates(false, 1.0, forgiven, 0.0, &[ResonanceGate::Lifecycle]));
}

#[test]
fn resonance_agent_capacity_gate() {
    assert!(fresh_resonates(false, 1.0, LifecycleState::Active, 9.0, &[ResonanceGate::AgentCapacity]));
    assert!(!fresh_resonates(false, 1.0, LifecycleState::Active, 11.0, &[ResonanceGate::AgentCapacity]));
}

#[test]
fn resonance_no_gates_always_passes() {
    let (_, forgiven) = forgive_transition(LifecycleState::Active);
    // No gates = everything passes (dormant archetypes)
    assert!(fresh_resonates(false, 0.01, forgiven, 100.0, &[]));
}

#[test]
fn select_by_entropy_with_seed() {
    let ids = vec![1, 2, 3, 4];
    // At intensity 0.5, threshold = 127. Bytes < 127 are selected.
    let seed = vec![0, 200, 50, 255];
    let threshold = (0.5f32 * 255.0) as u8;
    assert_eq!(threshold, 127);
    let selected = ferricula::memory::select_by_entropy_bytes(&ids, &seed, threshold);
    assert_eq!(selected, vec![1, 3]);
}

#[test]
fn forgiving_phase_moves_records_below_the_gate() {
    let fact = |id: u32, state: LifecycleState, keystone: bool, above_gate: bool| LifecycleFacts {
        id,
        state,
        keystone,
        above_gate,
    };
    let mut records = vec![
        fact(1, LifecycleState::Active, false, false),
        fact(2, LifecycleState::Active, true, true),
        fact(3, LifecycleState::Forgiven, false, false),
        fact(4, LifecycleState::Active, false, true),
        fact(5, LifecycleState::Archived, false, false),
        fact(6, LifecycleState::Active, false, false),
    ];
    let ids = forgive_phase(&mut records);
    assert_eq!(ids, vec![1, 6]);
    let states: Vec<LifecycleState> = records.iter().map(|r| r.state).collect();
    assert_eq!(
        states,
        vec![
            LifecycleState::Forgiven,
            LifecycleState::Active,
            LifecycleState::Forgiven,
            LifecycleState::Active,
            LifecycleState::Archived,
            LifecycleState::Forgiven,
        ]
    );
    assert!(records[1].keystone);
}

#[test]
fn archiving_phase_archives_stale_forgiven_records() {
    let fact = |id: u32, state: LifecycleState, staleness: u64| ArchiveFacts { id, state, staleness };
    let mut records = vec![
        fact(1, LifecycleState::Forgiven, 3601),
        fact(2, LifecycleState::Forgiven, 3600),
        fact(3, LifecycleState::Archived, 9000),
        fact(4, LifecycleState::Forgiven, 10),
    ];
    assert_eq!(archive_phase(&mut records), vec![1, 3]);
    let states: Vec<LifecycleState> = records.iter().map(|r| r.state).collect();
    assert_eq!(
        states,
        vec![LifecycleState::Archived, LifecycleState::Forgiven, LifecycleState::Archived, LifecycleState::Forgiven]
    );
}
