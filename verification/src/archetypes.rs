//! Archetype sub-agents — five roles cast from identity entropy.
//!
//! Each archetype has its own hexagram, horoscope, and emotion profile.
use vstd::prelude::*;

use crate::casting::{
    cast_hexagram, civil_from_days, identity_seed, is_cast_of, is_horoscope_of, trigram_emotion,
    trigram_emotion_spec, zodiac_from_epoch, HexagramCast, HoroscopeCast,
};
use std::collections::hash_map::DefaultHasher;
use vstd::std_specs::hash::DefaultHasherAdditionalSpecFns;
use crate::casting::seed_input;

verus! {

/// The five archetype roles.
#[derive(Debug, Clone, Copy, PartialEq, Eq, Structural)]
pub enum ArchetypeRole {
    Intuition,
    Fortune,
    Craft,
    Ethics,
    Advocate,
}

/// Roles in their canonical order.
pub open spec fn role_order() -> Seq<ArchetypeRole> {
    seq![
        ArchetypeRole::Intuition,
        ArchetypeRole::Fortune,
        ArchetypeRole::Craft,
        ArchetypeRole::Ethics,
        ArchetypeRole::Advocate,
    ]
}

impl ArchetypeRole {
    pub fn name(self) -> (r: &'static str)
        ensures
            r == (match self {
                ArchetypeRole::Intuition => "Intuition",
                ArchetypeRole::Fortune => "Fortune",
                ArchetypeRole::Craft => "Craft",
                ArchetypeRole::Ethics => "Ethics",
                ArchetypeRole::Advocate => "Advocate",
            }),
    {
        match self {
            ArchetypeRole::Intuition => "Intuition",
            ArchetypeRole::Fortune => "Fortune",
            ArchetypeRole::Craft => "Craft",
            ArchetypeRole::Ethics => "Ethics",
            ArchetypeRole::Advocate => "Advocate",
        }
    }

    pub fn all() -> (r: [ArchetypeRole; 5])
        ensures
            r@ == role_order(),
    {
        let r = [
            ArchetypeRole::Intuition,
            ArchetypeRole::Fortune,
            ArchetypeRole::Craft,
            ArchetypeRole::Ethics,
            ArchetypeRole::Advocate,
        ];
        assert(r@ =~= role_order());
        r
    }
}

/// Archetype state machine.
#[derive(Debug, Clone, Copy, PartialEq, Eq, Structural)]
pub enum ArchetypeState {
    Dormant,
    Listening,
    Engaged,
    Reflecting,
}

impl ArchetypeState {
    pub fn name(self) -> (r: &'static str)
        ensures
            r == (match self {
                ArchetypeState::Dormant => "Dormant",
                ArchetypeState::Listening => "Listening",
                ArchetypeState::Engaged => "Engaged",
                ArchetypeState::Reflecting => "Reflecting",
            }),
    {
        match self {
            ArchetypeState::Dormant => "Dormant",
            ArchetypeState::Listening => "Listening",
            ArchetypeState::Engaged => "Engaged",
            ArchetypeState::Reflecting => "Reflecting",
        }
    }
}

/// A single archetype with its own identity cast.
#[derive(Debug, Clone)]
pub struct Archetype {
    pub role: ArchetypeRole,
    pub hexagram: HexagramCast,
    pub horoscope: HoroscopeCast,
    pub primary_emotion: String,
    pub secondary_emotion: String,
    pub seed: u32,
    pub active: bool,
    pub state: ArchetypeState,
}

impl Archetype {
    pub fn activate(&mut self)
        ensures
            final(self).active,
            final(self).state == ArchetypeState::Listening,
            final(self).role == old(self).role,
            final(self).seed == old(self).seed,
            final(self).hexagram == old(self).hexagram,
            final(self).horoscope == old(self).horoscope,
            final(self).primary_emotion == old(self).primary_emotion,
            final(self).secondary_emotion == old(self).secondary_emotion,
    {
        self.active = true;
        self.state = ArchetypeState::Listening;
    }

    pub fn deactivate(&mut self)
        ensures
            !final(self).active,
            final(self).state == ArchetypeState::Dormant,
            final(self).role == old(self).role,
            final(self).seed == old(self).seed,
            final(self).hexagram == old(self).hexagram,
            final(self).horoscope == old(self).horoscope,
            final(self).primary_emotion == old(self).primary_emotion,
            final(self).secondary_emotion == old(self).secondary_emotion,
    {
        self.active = false;
        self.state = ArchetypeState::Dormant;
    }
}

/// The six entropy bytes of the archetype at `role_index`: identity bytes
/// taken cyclically from offset `6 * role_index`, XORed with `37 * role_index`
/// (missing entropy reads as zero).
pub open spec fn archetype_entropy(identity_entropy: Seq<u8>, role_index: int) -> Seq<u8> {
    Seq::new(
        6,
        |j: int|
            {
                let n = if identity_entropy.len() > 0 { identity_entropy.len() as int } else { 1 };
                let b = if identity_entropy.len() > 0 {
                    identity_entropy[(role_index * 6 + j) % n]
                } else {
                    0u8
                };
                b ^ ((role_index * 37) as u8)
            },
    )
}

/// What the archetype at `role_index` holds, cast from identity entropy and epoch.
pub open spec fn is_archetype_cast(
    a: Archetype,
    identity_entropy: Seq<u8>,
    identity_epoch: u64,
    role_index: int,
) -> bool {
    let days = (identity_epoch + role_index * 3600) / 86400;
    &&& a.role == role_order()[role_index]
    &&& is_cast_of(a.hexagram, archetype_entropy(identity_entropy, role_index))
    &&& is_horoscope_of(
        a.horoscope,
        civil_from_days(days).1 as u32,
        civil_from_days(days).2 as u32,
    )
    &&& a.primary_emotion@ == trigram_emotion_spec(a.hexagram.upper_trigram)@
    &&& a.secondary_emotion@ == trigram_emotion_spec(a.hexagram.lower_trigram)@
    &&& a.seed == DefaultHasher::spec_finish(
        seq![
            seed_input(
                a.hexagram.number,
                a.hexagram.lines@,
                (identity_epoch + role_index) as u64,
            ),
            seq![0xffu8],
        ],
    ) as u32
    &&& !a.active
    &&& a.state == ArchetypeState::Dormant
}

/// Cast all 5 archetypes from identity entropy.
///
/// Each archetype gets 6 entropy bytes offset by its role index.
/// Horoscope uses identity epoch + role offset (each born an hour apart).
pub fn cast_all_archetypes(identity_entropy: &[u8], identity_epoch: u64) -> (r: Vec<Archetype>)
    requires
        identity_epoch <= u64::MAX - 4 * 3600,
    ensures
        r.len() == 5,
        forall|i: int|
            0 <= i < 5 ==> is_archetype_cast(#[trigger] r@[i], identity_entropy@, identity_epoch, i),
{
    let roles = ArchetypeRole::all();
    let mut out: Vec<Archetype> = Vec::new();
    let n = identity_entropy.len();
    let modulus: usize = if n > 0 { n } else { 1 };
    let mut i: usize = 0;
    while i < 5
        invariant
            i <= 5,
            n == identity_entropy.len(),
            modulus == (if n > 0 { n } else { 1 }),
            roles@ == role_order(),
            identity_epoch <= u64::MAX - 4 * 3600,
            out.len() == i,
            forall|k: int|
                0 <= k < i ==> is_archetype_cast(
                    #[trigger] out@[k],
                    identity_entropy@,
                    identity_epoch,
                    k,
                ),
        decreases 5 - i,
    {
        // Derive 6 bytes for this archetype by offsetting + wrapping
        let mut entropy: Vec<u8> = Vec::new();
        let mut j: usize = 0;
        let xor_mask: u8 = (i as u8) * 37;
        while j < 6
            invariant
                i < 5,
                j <= 6,
                n == identity_entropy.len(),
                modulus == (if n > 0 { n } else { 1 }),
                xor_mask == (i * 37) as u8,
                entropy@ == archetype_entropy(identity_entropy@, i as int).subrange(0, j as int),
            decreases 6 - j,
        {
            let idx = (i * 6 + j) % modulus;
            let b: u8 = if idx < n { identity_entropy[idx] } else { 0 };
            entropy.push(b ^ xor_mask);
            assert(entropy@ =~= archetype_entropy(identity_entropy@, i as int).subrange(
                0,
                j + 1,
            ));
            j = j + 1;
        }
        assert(entropy@ =~= archetype_entropy(identity_entropy@, i as int));
        let hexagram = cast_hexagram(entropy.as_slice());
        let horoscope = zodiac_from_epoch(identity_epoch + (i as u64) * 3600);
        let primary_emotion = trigram_emotion(hexagram.upper_trigram).to_owned();
        let secondary_emotion = trigram_emotion(hexagram.lower_trigram).to_owned();
        let seed = identity_seed(hexagram.number, &hexagram.lines, identity_epoch + i as u64);
        let a = Archetype {
            role: roles[i],
            hexagram,
            horoscope,
            primary_emotion,
            secondary_emotion,
            seed,
            active: false,
            state: ArchetypeState::Dormant,
        };
        out.push(a);
        i = i + 1;
    }
    out
}

/// Which archetypes should activate at each tier.
#[derive(Debug, Clone, Copy, PartialEq, Eq, Structural)]
pub enum ActivationTier {
    /// < 0.25: decay only (thermodynamic minimum)
    Minimal,
    /// 0.25..0.75: decay + Intuition + Fortune hints
    Moderate,
    /// >= 0.75: full dream + all 5 archetype hints
    Full,
}

impl ActivationTier {
    /// Which roles are active at this tier.
    pub fn active_roles(self) -> (r: Vec<ArchetypeRole>)
        ensures
            r@ == (match self {
                ActivationTier::Minimal => Seq::<ArchetypeRole>::empty(),
                ActivationTier::Moderate => seq![ArchetypeRole::Intuition, ArchetypeRole::Fortune],
                ActivationTier::Full => role_order(),
            }),
    {
        match self {
            ActivationTier::Minimal => Vec::new(),
            ActivationTier::Moderate => {
                let r = vec![ArchetypeRole::Intuition, ArchetypeRole::Fortune];
                assert(r@ =~= seq![ArchetypeRole::Intuition, ArchetypeRole::Fortune]);
                r
            },
            ActivationTier::Full => {
                let r = vec![
                    ArchetypeRole::Intuition,
                    ArchetypeRole::Fortune,
                    ArchetypeRole::Craft,
                    ArchetypeRole::Ethics,
                    ArchetypeRole::Advocate,
                ];
                assert(r@ =~= role_order());
                r
            },
        }
    }
}

} // verus!
