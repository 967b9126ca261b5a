//! Memory lifecycle and recall gating.
//!
//! The thermodynamic quantities of a memory (fidelity, decay rate, heat) are
//! floating point and are kept by the application; the decisions taken on
//! them — the one-way lifecycle and which gates a recall must pass — are here.
use vstd::prelude::*;

verus! {

/// Gates that control whether a memory responds to a recall query.
#[derive(Debug, Clone, Copy, PartialEq, Eq, Structural)]
pub enum ResonanceGate {
    /// Fidelity check.
    Fidelity,
    /// The memory must be in the Active lifecycle state.
    Lifecycle,
    /// Not recalled too recently, not neglected too long.
    Temporal,
    /// The agent has capacity to absorb (heat check).
    AgentCapacity,
}

/// One-way lifecycle: Active → Forgiven → Archived.
#[derive(Debug, Clone, Copy, PartialEq, Eq, Structural)]
pub enum LifecycleState {
    Active,
    Forgiven,
    Archived,
}

/// A new record's lifecycle starts Active.
impl Default for LifecycleState {
    fn default() -> (r: Self)
        ensures
            r == LifecycleState::Active,
    {
        LifecycleState::Active
    }
}

#[derive(Debug, Clone, PartialEq)]
pub struct Emotion {
    pub primary: String,
    pub secondary: Option<String>,
}

#[derive(Debug, Clone, PartialEq)]
pub enum Provenance {
    Ingested,
    Consolidated { from: Vec<u32> },
    Revived { seed_id: u32 },
}

/// Position of a state along the lifecycle.
pub open spec fn lifecycle_rank(s: LifecycleState) -> int {
    match s {
        LifecycleState::Active => 0,
        LifecycleState::Forgiven => 1,
        LifecycleState::Archived => 2,
    }
}

/// Active → Forgiven.  Returns whether the transition happened, and the new state.
pub fn forgive_transition(state: LifecycleState) -> (r: (bool, LifecycleState))
    ensures
        r.0 == (state == LifecycleState::Active),
        r.1 == (if state == LifecycleState::Active { LifecycleState::Forgiven } else { state }),
{
    if state != LifecycleState::Active {
        return (false, state);
    }
    (true, LifecycleState::Forgiven)
}

/// Forgiven → Archived.  Returns whether the transition happened, and the new state.
pub fn archive_transition(state: LifecycleState) -> (r: (bool, LifecycleState))
    ensures
        r.0 == (state == LifecycleState::Forgiven),
        r.1 == (if state == LifecycleState::Forgiven { LifecycleState::Archived } else { state }),
{
    if state != LifecycleState::Forgiven {
        return (false, state);
    }
    (true, LifecycleState::Archived)
}

/// The lifecycle only moves forward: neither transition lowers the rank,
/// a successful one raises it by exactly one, and Archived is final.
pub proof fn lifecycle_is_one_way(state: LifecycleState)
    ensures
        ({
            let (ok, next) = if state == LifecycleState::Active {
                (true, LifecycleState::Forgiven)
            } else {
                (false, state)
            };
            lifecycle_rank(next) >= lifecycle_rank(state) && (ok ==> lifecycle_rank(next)
                == lifecycle_rank(state) + 1)
        }),
        ({
            let (ok, next) = if state == LifecycleState::Forgiven {
                (true, LifecycleState::Archived)
            } else {
                (false, state)
            };
            lifecycle_rank(next) >= lifecycle_rank(state) && (ok ==> lifecycle_rank(next)
                == lifecycle_rank(state) + 1)
        }),
        state == LifecycleState::Archived ==> state != LifecycleState::Active && state
            != LifecycleState::Forgiven,
{
}

/// What the forgiving phase of a dream reads of one memory record.
#[derive(Debug, Clone, Copy, PartialEq, Eq, Structural)]
pub struct LifecycleFacts {
    pub id: u32,
    pub state: LifecycleState,
    pub keystone: bool,
    /// Whether the record's fidelity is at or above the fidelity gate.
    pub above_gate: bool,
}

/// Whether the forgiving phase forgives a record: it is Active and below
/// the fidelity gate.
pub open spec fn forgiven_now(f: LifecycleFacts) -> bool {
    f.state == LifecycleState::Active && !f.above_gate
}

/// A record after the forgiving phase.
pub open spec fn after_forgiving(f: LifecycleFacts) -> LifecycleFacts {
    LifecycleFacts { state: if forgiven_now(f) { LifecycleState::Forgiven } else { f.state }, ..f }
}

/// The ids the forgiving phase forgives, in the records' order.
pub open spec fn forgiven_ids(fs: Seq<LifecycleFacts>) -> Seq<u32>
    decreases fs.len(),
{
    if fs.len() == 0 {
        Seq::empty()
    } else if forgiven_now(fs.last()) {
        forgiven_ids(fs.drop_last()).push(fs.last().id)
    } else {
        forgiven_ids(fs.drop_last())
    }
}

/// The forgiving phase of a dream: every Active record below the fidelity
/// gate becomes Forgiven; the others are left as they are.  Returns the ids
/// forgiven, in order.
pub fn forgive_phase(records: &mut Vec<LifecycleFacts>) -> (ids: Vec<u32>)
    ensures
        final(records)@.len() == old(records)@.len(),
        forall|i: int| 0 <= i < old(records)@.len() ==> #[trigger] final(records)@[i] == after_forgiving(old(records)@[i]),
        ids@ == forgiven_ids(old(records)@),
{
    let ghost orig = records@;
    let mut ids: Vec<u32> = Vec::new();
    let mut i: usize = 0;
    while i < records.len()
        invariant
            i <= records@.len(),
            records@.len() == orig.len(),
            forall|k: int| 0 <= k < i ==> #[trigger] records@[k] == after_forgiving(orig[k]),
            forall|k: int| i <= k < orig.len() ==> #[trigger] records@[k] == orig[k],
            ids@ == forgiven_ids(orig.subrange(0, i as int)),
        decreases records.len() - i,
    {
        let f = records[i];
        assert(orig.subrange(0, i + 1).drop_last() =~= orig.subrange(0, i as int));
        let (moved, next) = if f.above_gate {
            (false, f.state)
        } else {
            forgive_transition(f.state)
        };
        if moved {
            ids.push(f.id);
        }
        records.set(i, LifecycleFacts { state: next, ..f });
        i = i + 1;
    }
    assert(orig.subrange(0, i as int) =~= orig);
    ids
}

/// The forgiving phase only moves records forward along the lifecycle, by
/// at most one step, never touches their ids or keystone marks, and leaves
/// every record at or above the fidelity gate (keystones among them) as it
/// was; what it reports is exactly the records it moved.
pub proof fn forgiving_moves_forward(fs: Seq<LifecycleFacts>)
    ensures
        forall|i: int| 0 <= i < fs.len() ==> {
            let g = #[trigger] after_forgiving(fs[i]);
            &&& lifecycle_rank(fs[i].state) <= lifecycle_rank(g.state) <= lifecycle_rank(fs[i].state) + 1
            &&& g.id == fs[i].id && g.keystone == fs[i].keystone && g.above_gate == fs[i].above_gate
            &&& fs[i].above_gate ==> g == fs[i]
            &&& (g.state != fs[i].state <==> forgiven_now(fs[i]))
        },
        forall|v: u32| forgiven_ids(fs).contains(v) <==> exists|i: int|
            0 <= i < fs.len() && #[trigger] fs[i].id == v && forgiven_now(fs[i]),
    decreases fs.len(),
{
    if fs.len() > 0 {
        forgiving_moves_forward(fs.drop_last());
        let p = fs.drop_last();
        let ip = forgiven_ids(p);
        let last = fs[fs.len() - 1];
        assert(last == fs.last());
        if forgiven_now(last) {
            assert(forgiven_ids(fs) == ip.push(last.id));
        } else {
            assert(forgiven_ids(fs) == ip);
        }
        assert forall|v: u32| forgiven_ids(fs).contains(v) <==> exists|i: int|
            0 <= i < fs.len() && #[trigger] fs[i].id == v && forgiven_now(fs[i]) by {
            if forgiven_ids(fs).contains(v) {
                let k = choose|k: int| 0 <= k < forgiven_ids(fs).len() && forgiven_ids(fs)[k] == v;
                if k < ip.len() {
                    assert(ip[k] == v);
                    assert(ip.contains(v));
                    let i = choose|i: int| 0 <= i < p.len() && #[trigger] p[i].id == v && forgiven_now(p[i]);
                    assert(fs[i] == p[i]);
                } else {
                    assert(fs[fs.len() - 1].id == v && forgiven_now(fs[fs.len() - 1]));
                }
            }
            if exists|i: int| 0 <= i < fs.len() && #[trigger] fs[i].id == v && forgiven_now(fs[i]) {
                let i = choose|i: int| 0 <= i < fs.len() && #[trigger] fs[i].id == v && forgiven_now(fs[i]);
                if i < fs.len() - 1 {
                    assert(p[i] == fs[i]);
                    assert(ip.contains(v));
                    let k = choose|k: int| 0 <= k < ip.len() && ip[k] == v;
                    assert(forgiven_ids(fs)[k] == v);
                } else {
                    assert(forgiven_ids(fs)[ip.len() as int] == v);
                }
            }
        }
    }
}

/// Seconds without a recall after which a record forgiven before a dream is
/// archived by it.
pub const ARCHIVE_AFTER_SECS: u64 = 3600;

/// What the archiving phase of a dream reads of a record that was Forgiven
/// when the dream began.
#[derive(Debug, Clone, Copy, PartialEq, Eq, Structural)]
pub struct ArchiveFacts {
    pub id: u32,
    pub state: LifecycleState,
    /// Seconds since the record was last recalled.
    pub staleness: u64,
}

/// A record after the archiving phase: a stale one is archived, if it is
/// still Forgiven.
pub open spec fn after_archiving(f: ArchiveFacts) -> ArchiveFacts {
    ArchiveFacts {
        state: if f.staleness > ARCHIVE_AFTER_SECS && f.state == LifecycleState::Forgiven {
            LifecycleState::Archived
        } else {
            f.state
        },
        ..f
    }
}

/// The ids of the stale records, in order: those the phase reports.
pub open spec fn stale_ids(fs: Seq<ArchiveFacts>) -> Seq<u32>
    decreases fs.len(),
{
    if fs.len() == 0 {
        Seq::empty()
    } else if fs.last().staleness > ARCHIVE_AFTER_SECS {
        stale_ids(fs.drop_last()).push(fs.last().id)
    } else {
        stale_ids(fs.drop_last())
    }
}

/// The archiving phase of a dream, on the records that were Forgiven when
/// it began: each one left unrecalled for more than `ARCHIVE_AFTER_SECS`
/// is archived.  Returns the ids of those stale records, in order.
pub fn archive_phase(records: &mut Vec<ArchiveFacts>) -> (ids: Vec<u32>)
    ensures
        final(records)@.len() == old(records)@.len(),
        forall|i: int| 0 <= i < old(records)@.len() ==> #[trigger] final(records)@[i] == after_archiving(old(records)@[i]),
        ids@ == stale_ids(old(records)@),
{
    let ghost orig = records@;
    let mut ids: Vec<u32> = Vec::new();
    let mut i: usize = 0;
    while i < records.len()
        invariant
            i <= records@.len(),
            records@.len() == orig.len(),
            forall|k: int| 0 <= k < i ==> #[trigger] records@[k] == after_archiving(orig[k]),
            forall|k: int| i <= k < orig.len() ==> #[trigger] records@[k] == orig[k],
            ids@ == stale_ids(orig.subrange(0, i as int)),
        decreases records.len() - i,
    {
        let f = records[i];
        assert(orig.subrange(0, i + 1).drop_last() =~= orig.subrange(0, i as int));
        if f.staleness > ARCHIVE_AFTER_SECS {
            let (_, next) = archive_transition(f.state);
            records.set(i, ArchiveFacts { state: next, ..f });
            ids.push(f.id);
        }
        i = i + 1;
    }
    assert(orig.subrange(0, i as int) =~= orig);
    ids
}

/// The archiving phase only moves records forward along the lifecycle, by
/// at most one step, and never touches their ids.
pub proof fn archiving_moves_forward(f: ArchiveFacts)
    ensures
        lifecycle_rank(f.state) <= lifecycle_rank(after_archiving(f).state) <= lifecycle_rank(f.state) + 1,
        after_archiving(f).id == f.id,
        after_archiving(f).state != f.state ==> f.state == LifecycleState::Forgiven,
{
}

/// Seconds since the last recall below which a memory is saturated.
pub const RESONANCE_MIN_IDLE_SECS: u64 = 2;

/// Seconds since the last recall above which a memory is out of phase (48h).
pub const RESONANCE_MAX_IDLE_SECS: u64 = 172800;

/// What a recall gate requires of a memory.
pub open spec fn gate_passes(
    gate: ResonanceGate,
    above_fidelity_gate: bool,
    state: LifecycleState,
    secs_since_recall: u64,
    heat_within_ceiling: bool,
) -> bool {
    match gate {
        ResonanceGate::Fidelity => above_fidelity_gate,
        ResonanceGate::Lifecycle => state == LifecycleState::Active,
        ResonanceGate::Temporal => RESONANCE_MIN_IDLE_SECS <= secs_since_recall
            <= RESONANCE_MAX_IDLE_SECS,
        ResonanceGate::AgentCapacity => heat_within_ceiling,
    }
}

/// Resonance check: keystones always resonate; other memories must pass
/// every active gate.  `above_fidelity_gate` and `heat_within_ceiling` are the
/// memory's fidelity and the agent's heat held against their thresholds.
pub fn resonates(
    keystone: bool,
    above_fidelity_gate: bool,
    state: LifecycleState,
    secs_since_recall: u64,
    heat_within_ceiling: bool,
    active_gates: &[ResonanceGate],
) -> (r: bool)
    ensures
        r == (keystone || forall|i: int|
            0 <= i < active_gates@.len() ==> gate_passes(
                #[trigger] active_gates@[i],
                above_fidelity_gate,
                state,
                secs_since_recall,
                heat_within_ceiling,
            )),
{
    if keystone {
        return true;
    }
    let mut i: usize = 0;
    while i < active_gates.len()
        invariant
            !keystone,
            i <= active_gates.len(),
            forall|j: int|
                0 <= j < i ==> gate_passes(
                    #[trigger] active_gates@[j],
                    above_fidelity_gate,
                    state,
                    secs_since_recall,
                    heat_within_ceiling,
                ),
        decreases active_gates.len() - i,
    {
        let ok = match active_gates[i] {
            ResonanceGate::Fidelity => above_fidelity_gate,
            ResonanceGate::Lifecycle => state == LifecycleState::Active,
            ResonanceGate::Temporal => {
                // saturated when recalled too recently, out of phase after 48h
                secs_since_recall >= RESONANCE_MIN_IDLE_SECS && secs_since_recall
                    <= RESONANCE_MAX_IDLE_SECS
            },
            ResonanceGate::AgentCapacity => heat_within_ceiling,
        };
        assert(ok == gate_passes(
            active_gates@[i as int],
            above_fidelity_gate,
            state,
            secs_since_recall,
            heat_within_ceiling,
        ));
        if !ok {
            return false;
        }
        i = i + 1;
    }
    true
}

/// The ids kept by entropy selection: the id at position `i` stays where
/// the seed byte at `i` (the seed repeated) is below `threshold`.
pub open spec fn entropy_selected(ids: Seq<u32>, seed: Seq<u8>, threshold: u8) -> Seq<u32>
    decreases ids.len(),
{
    if ids.len() == 0 {
        Seq::empty()
    } else {
        let prev = entropy_selected(ids.drop_last(), seed, threshold);
        if seed[(ids.len() - 1) % (seed.len() as int)] < threshold {
            prev.push(ids.last())
        } else {
            prev
        }
    }
}

/// Selects the ids the dream's decay tick reaches, one seed byte per id
/// (the seed repeated as needed) compared with `threshold`.
pub fn select_by_entropy_bytes(ids: &[u32], seed: &[u8], threshold: u8) -> (r: Vec<u32>)
    requires
        seed@.len() > 0,
    ensures
        r@ == entropy_selected(ids@, seed@, threshold),
{
    let mut r: Vec<u32> = Vec::new();
    let mut i: usize = 0;
    while i < ids.len()
        invariant
            i <= ids@.len(),
            seed@.len() > 0,
            r@ == entropy_selected(ids@.take(i as int), seed@, threshold),
        decreases ids.len() - i,
    {
        proof {
            assert(ids@.take(i + 1).drop_last() =~= ids@.take(i as int));
            assert(ids@.take(i + 1).last() == ids@[i as int]);
        }
        if seed[i % seed.len()] < threshold {
            r.push(ids[i]);
        }
        i = i + 1;
    }
    proof {
        assert(ids@.take(ids@.len() as int) =~= ids@);
    }
    r
}

} // verus!
