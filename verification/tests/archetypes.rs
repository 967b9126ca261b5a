use ferricula::archetypes::{cast_all_archetypes, ActivationTier, ArchetypeRole, ArchetypeState};

#[test]
fn cast_all_produces_five() {
    let entropy = [42u8, 128, 200, 10, 180, 90, 55, 100, 30, 250];
    let archetypes = cast_all_archetypes(&entropy, 1772150400);
    assert_eq!(archetypes.len(), 5);

    // Each should have unique seeds (very likely with different entropy)
    let seeds: Vec<u32> = archetypes.iter().map(|a| a.seed).collect();
    for (i, s) in seeds.iter().enumerate() {
        for (j, t) in seeds.iter().enumerate() {
            if i != j {
                assert_ne!(s, t, "archetypes {i} and {j} have same seed");
            }
        }
    }
}

#[test]
fn cast_all_roles_correct() {
    let entropy = [42u8, 128, 200, 10, 180, 90];
    let archetypes = cast_all_archetypes(&entropy, 1000);
    assert_eq!(archetypes[0].role, ArchetypeRole::Intuition);
    assert_eq!(archetypes[1].role, ArchetypeRole::Fortune);
    assert_eq!(archetypes[2].role, ArchetypeRole::Craft);
    assert_eq!(archetypes[3].role, ArchetypeRole::Ethics);
    assert_eq!(archetypes[4].role, ArchetypeRole::Advocate);
}

#[test]
fn all_start_dormant() {
    let entropy = [42u8; 6];
    let archetypes = cast_all_archetypes(&entropy, 1000);
    for a in &archetypes {
        assert_eq!(a.state, ArchetypeState::Dormant);
        assert!(!a.active);
    }
}

#[test]
fn tier_active_roles() {
    assert!(ActivationTier::Minimal.active_roles().is_empty());
    assert_eq!(ActivationTier::Moderate.active_roles().len(), 2);
    assert_eq!(ActivationTier::Full.active_roles().len(), 5);
}

#[test]
fn activate_then_deactivate_returns_to_dormant() {
    let entropy = [7u8; 6];
    let mut archetypes = cast_all_archetypes(&entropy, 0);
    let a = &mut archetypes[2];
    a.activate();
    assert!(a.active);
    assert_eq!(a.state, ArchetypeState::Listening);
    a.deactivate();
    assert!(!a.active);
    assert_eq!(a.state, ArchetypeState::Dormant);
}

#[test]
fn archetype_names() {
    assert_eq!(ArchetypeRole::Intuition.name(), "Intuition");
    assert_eq!(ArchetypeState::Dormant.name(), "Dormant");
    assert_eq!(ArchetypeRole::all().len(), 5);
}
