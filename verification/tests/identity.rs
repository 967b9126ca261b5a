use ferricula::archetypes::{ActivationTier, ArchetypeRole, ArchetypeState};
use ferricula::ec_key::public_from_private;
use ferricula::identity::{
    activate_for_tier, activate_named, active_resonance_gates, agent_id, identity_cast_bytes,
    identity_private_key, transform_key_seed, Identity,
};
use ferricula::memory::ResonanceGate;

#[test]
fn agent_id_is_eight_hex_digits() {
    assert_eq!(agent_id(0xdeadbeef), "ferricula-deadbeef");
    assert_eq!(agent_id(1), "ferricula-00000001");
    assert_eq!(agent_id(0), "ferricula-00000000");
}

#[test]
fn short_entropy_falls_back_to_time_bytes() {
    assert_eq!(identity_cast_bytes(&[1, 2, 3], 0x0605_0403_0201), vec![1, 2, 3, 4, 5, 6]);
    assert_eq!(identity_cast_bytes(&[9, 8, 7, 6, 5, 4, 3], 0), vec![9, 8, 7, 6, 5, 4, 3]);
}

#[test]
fn private_key_mixes_seed_and_cast_bytes() {
    let key = identity_private_key(0x0403_0201, &[0xff, 0x00]);
    assert_eq!(key[0], 0x01 ^ 0xff);
    assert_eq!(key[1], 0x02);
    assert_eq!(key[2], 0x03 ^ 0xff);
    assert_eq!(key[3], 0x04);
    assert_eq!(key[4], 0x01 ^ 0xff);
}

#[test]
fn created_identity_is_consistent() {
    let entropy = [42u8, 128, 200, 10, 180, 90];
    let id = Identity::create(&entropy, 1_772_150_400);
    assert_eq!(id.agent_id, agent_id(id.identity_seed));
    assert!(id.hexagram.number >= 1 && id.hexagram.number <= 64);
    assert_eq!(id.name, format!("{} ({})", id.hexagram.name, id.horoscope.sign_name));
    assert!(!id.primary_emotion.is_empty());
    assert_eq!(id.archetypes.len(), 5);
    assert_eq!(id.created_at, 1_772_150_400);
    assert_eq!(id.private_key, identity_private_key(id.identity_seed, &entropy));
    assert_eq!(id.public_key, public_from_private(&id.private_key));
    let again = Identity::create(&entropy, 1_772_150_400);
    assert_eq!(again.identity_seed, id.identity_seed);
}

#[test]
fn transform_key_depends_on_seed() {
    assert_eq!(transform_key_seed(7), transform_key_seed(7));
    assert_ne!(transform_key_seed(7), transform_key_seed(8));
}

#[test]
fn archetypes_follow_reported_names_and_tiers() {
    let id = Identity::create(&[1, 2, 3, 4, 5, 6, 7, 8], 1_000_000);
    let names = vec!["Ethics".to_string(), "Advocate".to_string()];
    let arch = activate_named(id.archetypes, &names);
    for a in &arch {
        let on = a.role == ArchetypeRole::Ethics || a.role == ArchetypeRole::Advocate;
        assert_eq!(a.active, on);
        assert_eq!(a.state, if on { ArchetypeState::Listening } else { ArchetypeState::Dormant });
    }
    assert_eq!(active_resonance_gates(&arch), vec![ResonanceGate::Lifecycle, ResonanceGate::Fidelity]);
    let moderate = activate_for_tier(arch, ActivationTier::Moderate);
    assert_eq!(active_resonance_gates(&moderate), vec![ResonanceGate::Temporal, ResonanceGate::AgentCapacity]);
    let none = activate_for_tier(moderate, ActivationTier::Minimal);
    assert!(active_resonance_gates(&none).is_empty());
    let full = activate_for_tier(none, ActivationTier::Full);
    assert_eq!(active_resonance_gates(&full).len(), 4);
}
