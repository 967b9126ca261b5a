//! The agent's identity: cast once from entropy when it is created, then kept
//! in the data directory by the application (which also keeps its
//! floating-point parts: the cognitive heat and the vector transforms).
use vstd::prelude::*;
use vstd::std_specs::hash::DefaultHasherAdditionalSpecFns;
use vstd::utf8::encode_utf8;

use std::collections::hash_map::DefaultHasher;

use crate::archetypes::{cast_all_archetypes, is_archetype_cast, ActivationTier, Archetype, ArchetypeRole};
use crate::casting::{
    cast_hexagram, civil_from_days, identity_seed, is_cast_of, is_horoscope_of, seed_input, trigram_emotion,
    trigram_emotion_spec, zodiac_from_epoch, HexagramCast, HoroscopeCast,
};
use crate::ec_key::{hkdf_sha256, hkdf_sha256_32, public_from_private, x25519_public};
use crate::memory::ResonanceGate;
use crate::text::str_eq;

verus! {

/// What an identity is cast from, and what it is.
pub struct Identity {
    pub agent_id: String,
    pub name: String,
    pub hexagram: HexagramCast,
    pub horoscope: HoroscopeCast,
    pub primary_emotion: String,
    pub secondary_emotion: String,
    pub identity_seed: u32,
    pub created_at: u64,
    pub archetypes: Vec<Archetype>,
    pub private_key: [u8; 32],
    pub public_key: [u8; 32],
}

/// The bytes of `now`, least significant first, as many as a cast needs.
pub open spec fn time_bytes(now: u64) -> Seq<u8> {
    seq![
        (now & 0xff) as u8,
        ((now >> 8u64) & 0xff) as u8,
        ((now >> 16u64) & 0xff) as u8,
        ((now >> 24u64) & 0xff) as u8,
        ((now >> 32u64) & 0xff) as u8,
        ((now >> 40u64) & 0xff) as u8,
    ]
}

/// The bytes an identity is cast from: the entropy where it has at least
/// six bytes, else the creation time's.
pub open spec fn cast_entropy(entropy: Seq<u8>, now: u64) -> Seq<u8> {
    if entropy.len() >= 6 {
        entropy
    } else {
        time_bytes(now)
    }
}

/// Byte `k` (0 to 3, least significant first) of a seed.
pub open spec fn seed_byte(seed: u32, k: int) -> u8 {
    if k == 0 {
        (seed & 0xff) as u8
    } else if k == 1 {
        ((seed >> 8u32) & 0xff) as u8
    } else if k == 2 {
        ((seed >> 16u32) & 0xff) as u8
    } else {
        ((seed >> 24u32) & 0xff) as u8
    }
}

/// The private key of an identity: the seed's bytes, repeated, XORed with
/// the cast bytes, repeated.
pub open spec fn private_key_of(seed: u32, cast: Seq<u8>) -> Seq<u8> {
    Seq::new(32, |i: int| seed_byte(seed, i % 4) ^ cast[i % (cast.len() as int)])
}

/// The lowercase hexadecimal digit of `d` (below 16).
pub open spec fn hex_digit(d: u32) -> char {
    if d == 0 { '0' }
    else if d == 1 { '1' }
    else if d == 2 { '2' }
    else if d == 3 { '3' }
    else if d == 4 { '4' }
    else if d == 5 { '5' }
    else if d == 6 { '6' }
    else if d == 7 { '7' }
    else if d == 8 { '8' }
    else if d == 9 { '9' }
    else if d == 10 { 'a' }
    else if d == 11 { 'b' }
    else if d == 12 { 'c' }
    else if d == 13 { 'd' }
    else if d == 14 { 'e' }
    else { 'f' }
}

/// A seed as eight lowercase hexadecimal digits, most significant first.
pub open spec fn hex8(seed: u32) -> Seq<char> {
    Seq::new(8, |k: int| hex_digit(((seed as int / pow16(7 - k)) % 16) as u32))
}

/// `16` to the power `e`.
pub open spec fn pow16(e: int) -> int
    decreases e,
{
    if e <= 0 {
        1
    } else {
        16 * pow16(e - 1)
    }
}

/// The identifier of the agent with this seed.
pub open spec fn agent_id_of(seed: u32) -> Seq<char> {
    "ferricula-"@ + hex8(seed)
}

fn hex_char(d: u32) -> (c: char)
    requires
        d < 16,
    ensures
        c == hex_digit(d),
{
    match d {
        0 => '0',
        1 => '1',
        2 => '2',
        3 => '3',
        4 => '4',
        5 => '5',
        6 => '6',
        7 => '7',
        8 => '8',
        9 => '9',
        10 => 'a',
        11 => 'b',
        12 => 'c',
        13 => 'd',
        14 => 'e',
        _ => 'f',
    }
}

/// The identifier of the agent with this seed: `ferricula-` and the seed in
/// eight hexadecimal digits.
pub fn agent_id(seed: u32) -> (r: String)
    ensures
        r@ == agent_id_of(seed),
{
    let mut r = "ferricula-".to_owned();
    proof {
        reveal_strlit("ferricula-");
    }
    let ghost prefix = r@;
    let mut div: u32 = 0x1000_0000;
    let mut k: usize = 0;
    proof {
        reveal_with_fuel(pow16, 8);
        assert(pow16(7) == 0x1000_0000);
    }
    while k < 8
        invariant
            k <= 8,
            prefix == "ferricula-"@,
            div as int == pow16(7 - k as int),
            k < 8 ==> div >= 1,
            r@ == prefix + hex8(seed).take(k as int),
        decreases 8 - k,
    {
        let d = (seed / div) % 16;
        let c = hex_char(d);
        let ghost before = r@;
        crate::text::push_char(&mut r, c);
        proof {
            assert(hex8(seed).take(k + 1) =~= hex8(seed).take(k as int).push(hex8(seed)[k as int]));
            assert(r@ =~= prefix + hex8(seed).take(k + 1));
            if k < 7 {
                assert(pow16(7 - k as int) == 16 * pow16(7 - k as int - 1));
            }
        }
        if k < 7 {
            div = div / 16;
        }
        k = k + 1;
    }
    proof {
        assert(hex8(seed).take(8) =~= hex8(seed));
    }
    r
}

fn seed_byte_exec(seed: u32, k: usize) -> (r: u8)
    requires
        k < 4,
    ensures
        r == seed_byte(seed, k as int),
{
    if k == 0 {
        (seed & 0xff) as u8
    } else if k == 1 {
        ((seed >> 8u32) & 0xff) as u8
    } else if k == 2 {
        ((seed >> 16u32) & 0xff) as u8
    } else {
        ((seed >> 24u32) & 0xff) as u8
    }
}

/// The bytes an identity is cast from.
pub fn identity_cast_bytes(entropy: &[u8], now: u64) -> (r: Vec<u8>)
    ensures
        r@ == cast_entropy(entropy@, now),
{
    if entropy.len() >= 6 {
        return vstd::slice::slice_to_vec(entropy);
    }
    let r = vec![
        (now & 0xff) as u8,
        ((now >> 8u64) & 0xff) as u8,
        ((now >> 16u64) & 0xff) as u8,
        ((now >> 24u64) & 0xff) as u8,
        ((now >> 32u64) & 0xff) as u8,
        ((now >> 40u64) & 0xff) as u8,
    ];
    assert(r@ =~= time_bytes(now));
    r
}

/// The private key of the identity with this seed, cast from these bytes.
pub fn identity_private_key(seed: u32, cast: &[u8]) -> (r: [u8; 32])
    requires
        cast@.len() > 0,
    ensures
        r@ == private_key_of(seed, cast@),
{
    let mut r = [0u8; 32];
    let mut i: usize = 0;
    while i < 32
        invariant
            i <= 32,
            cast@.len() > 0,
            r@.len() == 32,
            forall|j: int| 0 <= j < i ==> r@[j] == #[trigger] private_key_of(seed, cast@)[j],
        decreases 32 - i,
    {
        let b = seed_byte_exec(seed, i % 4) ^ cast[i % cast.len()];
        r[i] = b;
        i = i + 1;
    }
    assert(r@ =~= private_key_of(seed, cast@));
    r
}

/// The salt and info of the transform key expansion.
pub open spec fn transform_key_salt() -> Seq<u8> {
    encode_utf8("ferricula-identity"@)
}

pub open spec fn transform_key_info() -> Seq<u8> {
    encode_utf8("ferricula-vector-transform"@)
}

/// The 32-byte key of the identity's vector transforms: HKDF-SHA256 of the
/// seed's little-endian bytes.
pub fn transform_key_seed(seed: u32) -> (r: [u8; 32])
    ensures
        r@ == hkdf_sha256_32(
            transform_key_salt(),
            seq![seed_byte(seed, 0), seed_byte(seed, 1), seed_byte(seed, 2), seed_byte(seed, 3)],
            transform_key_info(),
        ),
{
    let ikm = [seed_byte_exec(seed, 0), seed_byte_exec(seed, 1), seed_byte_exec(seed, 2), seed_byte_exec(seed, 3)];
    let salt = "ferricula-identity".as_bytes();
    let info = "ferricula-vector-transform".as_bytes();
    assert(ikm@ =~= seq![seed_byte(seed, 0), seed_byte(seed, 1), seed_byte(seed, 2), seed_byte(seed, 3)]);
    hkdf_sha256(salt, &ikm, info)
}

impl Identity {
    /// Casts a new identity from entropy at time `now`: the hexagram from
    /// the cast bytes, the horoscope from the date, the emotions from the
    /// trigrams, the seed from the hexagram and time, the five archetypes,
    /// and the key pair.
    pub fn create(entropy: &[u8], now: u64) -> (r: Self)
        requires
            now <= u64::MAX - 4 * 3600,
        ensures
            ({
                let cast = cast_entropy(entropy@, now);
                &&& is_cast_of(r.hexagram, cast)
                &&& is_horoscope_of(
                    r.horoscope,
                    civil_from_days(now as int / 86400).1 as u32,
                    civil_from_days(now as int / 86400).2 as u32,
                )
                &&& r.primary_emotion@ == trigram_emotion_spec(
                    if r.hexagram.upper_trigram < 7 { r.hexagram.upper_trigram } else { 7 },
                )@
                &&& r.secondary_emotion@ == trigram_emotion_spec(
                    if r.hexagram.lower_trigram < 7 { r.hexagram.lower_trigram } else { 7 },
                )@
                &&& r.identity_seed == DefaultHasher::spec_finish(
                    seq![seed_input(r.hexagram.number, r.hexagram.lines@, now), seq![0xffu8]],
                ) as u32
                &&& r.agent_id@ == agent_id_of(r.identity_seed)
                &&& r.name@ == r.hexagram.name@ + " ("@ + r.horoscope.sign_name@ + ")"@
                &&& r.created_at == now
                &&& r.archetypes@.len() == 5
                &&& forall|i: int| 0 <= i < 5 ==> is_archetype_cast(#[trigger] r.archetypes@[i], cast, now, i)
                &&& r.private_key@ == private_key_of(r.identity_seed, cast)
                &&& r.public_key@ == x25519_public(r.private_key@)
            }),
    {
        let cast = identity_cast_bytes(entropy, now);
        let hexagram = cast_hexagram(cast.as_slice());
        let horoscope = zodiac_from_epoch(now);
        let primary_emotion = trigram_emotion(hexagram.upper_trigram).to_owned();
        let secondary_emotion = trigram_emotion(hexagram.lower_trigram).to_owned();
        let seed = identity_seed(hexagram.number, &hexagram.lines, now);
        let agent = agent_id(seed);
        let mut name = hexagram.name.clone();
        name.append(" (");
        name.append(horoscope.sign_name.as_str());
        name.append(")");
        proof {
            reveal_strlit(" (");
            reveal_strlit(")");
        }
        let archetypes = cast_all_archetypes(cast.as_slice(), now);
        let private_key = identity_private_key(seed, cast.as_slice());
        let public_key = public_from_private(&private_key);
        Identity {
            agent_id: agent,
            name,
            hexagram,
            horoscope,
            primary_emotion,
            secondary_emotion,
            identity_seed: seed,
            created_at: now,
            archetypes,
            private_key,
            public_key,
        }
    }
}

/// Whether `names` holds the name of `role`.
pub open spec fn names_role(names: Seq<String>, role: ArchetypeRole) -> bool {
    exists|k: int| 0 <= k < names.len() && names[k]@ == role_name(role)@
}

/// The name of a role.
pub open spec fn role_name(role: ArchetypeRole) -> &'static str {
    match role {
        ArchetypeRole::Intuition => "Intuition",
        ArchetypeRole::Fortune => "Fortune",
        ArchetypeRole::Craft => "Craft",
        ArchetypeRole::Ethics => "Ethics",
        ArchetypeRole::Advocate => "Advocate",
    }
}

/// `a` with the same cast, active (listening) or dormant.
pub open spec fn with_activity(b: Archetype, a: Archetype, active: bool) -> bool {
    &&& b.role == a.role
    &&& b.seed == a.seed
    &&& b.hexagram == a.hexagram
    &&& b.horoscope == a.horoscope
    &&& b.primary_emotion == a.primary_emotion
    &&& b.secondary_emotion == a.secondary_emotion
    &&& b.active == active
    &&& b.state == (if active { crate::archetypes::ArchetypeState::Listening } else { crate::archetypes::ArchetypeState::Dormant })
}

fn names_contain(names: &Vec<String>, n: &str) -> (r: bool)
    ensures
        r == exists|k: int| 0 <= k < names@.len() && names@[k]@ == n@,
{
    let mut k: usize = 0;
    while k < names.len()
        invariant
            k <= names@.len(),
            forall|j: int| 0 <= j < k ==> names@[j]@ != n@,
        decreases names.len() - k,
    {
        if str_eq(names[k].as_str(), n) {
            return true;
        }
        k = k + 1;
    }
    false
}

/// Activates the archetypes a dream reported as active (by role name) and
/// puts the others to rest.
pub fn activate_named(archetypes: Vec<Archetype>, names: &Vec<String>) -> (r: Vec<Archetype>)
    ensures
        r@.len() == archetypes@.len(),
        forall|i: int|
            0 <= i < r@.len() ==> with_activity(
                #[trigger] r@[i],
                archetypes@[i],
                names_role(names@, archetypes@[i].role),
            ),
{
    let ghost orig = archetypes@;
    let mut rest = archetypes;
    let mut out: Vec<Archetype> = Vec::new();
    while rest.len() > 0
        invariant
            out@.len() + rest@.len() == orig.len(),
            rest@ == orig.skip(out@.len() as int),
            forall|i: int|
                0 <= i < out@.len() ==> with_activity(#[trigger] out@[i], orig[i], names_role(names@, orig[i].role)),
        decreases rest.len(),
    {
        let ghost n = out@.len();
        let mut a = rest.remove(0);
        proof {
            assert(a == orig[n as int]);
            assert(rest@ =~= orig.skip(n as int + 1));
        }
        let on = names_contain(names, a.role.name());
        if on {
            a.activate();
        } else {
            a.deactivate();
        }
        out.push(a);
    }
    out
}

/// The roles a tier wakes.
pub open spec fn tier_roles(tier: ActivationTier) -> Seq<ArchetypeRole> {
    match tier {
        ActivationTier::Minimal => Seq::<ArchetypeRole>::empty(),
        ActivationTier::Moderate => seq![ArchetypeRole::Intuition, ArchetypeRole::Fortune],
        ActivationTier::Full => crate::archetypes::role_order(),
    }
}

/// Activates the archetypes of the roles a tier wakes and puts the others to
/// rest.
pub fn activate_for_tier(archetypes: Vec<Archetype>, tier: ActivationTier) -> (r: Vec<Archetype>)
    ensures
        r@.len() == archetypes@.len(),
        forall|i: int|
            0 <= i < r@.len() ==> with_activity(
                #[trigger] r@[i],
                archetypes@[i],
                tier_roles(tier).contains(archetypes@[i].role),
            ),
{
    let roles = tier.active_roles();
    let ghost orig = archetypes@;
    let mut rest = archetypes;
    let mut out: Vec<Archetype> = Vec::new();
    while rest.len() > 0
        invariant
            out@.len() + rest@.len() == orig.len(),
            rest@ == orig.skip(out@.len() as int),
            roles@ == tier_roles(tier),
            forall|i: int|
                0 <= i < out@.len() ==> with_activity(
                    #[trigger] out@[i],
                    orig[i],
                    tier_roles(tier).contains(orig[i].role),
                ),
        decreases rest.len(),
    {
        let ghost n = out@.len();
        let mut a = rest.remove(0);
        proof {
            assert(a == orig[n as int]);
            assert(rest@ =~= orig.skip(n as int + 1));
        }
        let mut on = false;
        let mut k: usize = 0;
        while k < roles.len()
            invariant
                k <= roles@.len(),
                on == exists|j: int| 0 <= j < k && roles@[j] == a.role,
            decreases roles.len() - k,
        {
            if roles[k] == a.role {
                on = true;
            }
            k = k + 1;
        }
        proof {
            if roles@.contains(a.role) {
                let j = choose|j: int| 0 <= j < roles@.len() && roles@[j] == a.role;
            }
        }
        if on {
            a.activate();
        } else {
            a.deactivate();
        }
        out.push(a);
    }
    out
}

/// The recall gate each role stands for, where it stands for one.
pub open spec fn role_gate(role: ArchetypeRole) -> Option<ResonanceGate> {
    match role {
        ArchetypeRole::Advocate => Some(ResonanceGate::Fidelity),
        ArchetypeRole::Ethics => Some(ResonanceGate::Lifecycle),
        ArchetypeRole::Intuition => Some(ResonanceGate::Temporal),
        ArchetypeRole::Fortune => Some(ResonanceGate::AgentCapacity),
        ArchetypeRole::Craft => None,
    }
}

/// The gates of the active archetypes, in archetype order.
pub open spec fn gates_of(archetypes: Seq<Archetype>) -> Seq<ResonanceGate>
    decreases archetypes.len(),
{
    if archetypes.len() == 0 {
        Seq::empty()
    } else {
        let prev = gates_of(archetypes.drop_last());
        let a = archetypes.last();
        if a.active && role_gate(a.role) is Some {
            prev.push(role_gate(a.role)->0)
        } else {
            prev
        }
    }
}

/// The recall gates of the active archetypes; dormant archetypes do not gate.
pub fn active_resonance_gates(archetypes: &Vec<Archetype>) -> (r: Vec<ResonanceGate>)
    ensures
        r@ == gates_of(archetypes@),
{
    let mut r: Vec<ResonanceGate> = Vec::new();
    let mut i: usize = 0;
    while i < archetypes.len()
        invariant
            i <= archetypes@.len(),
            r@ == gates_of(archetypes@.take(i as int)),
        decreases archetypes.len() - i,
    {
        proof {
            assert(archetypes@.take(i + 1).drop_last() =~= archetypes@.take(i as int));
            assert(archetypes@.take(i + 1).last() == archetypes@[i as int]);
        }
        if archetypes[i].active {
            match archetypes[i].role {
                ArchetypeRole::Advocate => r.push(ResonanceGate::Fidelity),
                ArchetypeRole::Ethics => r.push(ResonanceGate::Lifecycle),
                ArchetypeRole::Intuition => r.push(ResonanceGate::Temporal),
                ArchetypeRole::Fortune => r.push(ResonanceGate::AgentCapacity),
                ArchetypeRole::Craft => {},
            }
        }
        i = i + 1;
    }
    proof {
        assert(archetypes@.take(archetypes@.len() as int) =~= archetypes@);
    }
    r
}

} // verus!
