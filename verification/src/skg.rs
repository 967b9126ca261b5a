//! The semantic knowledge graph: canonical keys for pairs of terms, the
//! ring buffer of each pair's history, and the choice of the terms sampled on
//! each update.
//!
//! The Jaccard dynamics tracked for each pair are floating point and are
//! computed by the application.
use vstd::prelude::*;

use roaring::RoaringBitmap;

use crate::bitmap::{bitmap_members, bm_is_disjoint, bm_len};
use crate::prime_tree::{members_under, root_for, root_terms, PrimeTree, TreeView};
use crate::text::{chars_of, str_eq};

verus! {

/// Lexicographic order on strings by character (Unicode scalar value), which
/// is the order of Rust's `str` comparison.
pub open spec fn seq_le(a: Seq<char>, b: Seq<char>) -> bool
    decreases a.len(),
{
    if a.len() == 0 {
        true
    } else if b.len() == 0 {
        false
    } else if a[0] != b[0] {
        (a[0] as int) < (b[0] as int)
    } else {
        seq_le(a.drop_first(), b.drop_first())
    }
}

/// The order is total.
pub proof fn seq_le_total(a: Seq<char>, b: Seq<char>)
    ensures
        seq_le(a, b) || seq_le(b, a),
    decreases a.len(),
{
    if a.len() > 0 && b.len() > 0 && a[0] == b[0] {
        seq_le_total(a.drop_first(), b.drop_first());
    }
}

/// The order is antisymmetric.
pub proof fn seq_le_antisymmetric(a: Seq<char>, b: Seq<char>)
    requires
        seq_le(a, b),
        seq_le(b, a),
    ensures
        a == b,
    decreases a.len(),
{
    if a.len() > 0 {
        seq_le_antisymmetric(a.drop_first(), b.drop_first());
        assert(a =~= seq![a[0]] + a.drop_first());
        assert(b =~= seq![b[0]] + b.drop_first());
    } else {
        assert(b.len() == 0);
        assert(a =~= b);
    }
}

/// The order is transitive.
pub proof fn seq_le_transitive(a: Seq<char>, b: Seq<char>, c: Seq<char>)
    requires
        seq_le(a, b),
        seq_le(b, c),
    ensures
        seq_le(a, c),
    decreases a.len(),
{
    if a.len() > 0 && b.len() > 0 && c.len() > 0 && a[0] == b[0] && b[0] == c[0] {
        seq_le_transitive(a.drop_first(), b.drop_first(), c.drop_first());
    }
}

pub fn chars_le(a: &[char], b: &[char]) -> (r: bool)
    ensures
        r == seq_le(a@, b@),
{
    let mut i: usize = 0;
    proof {
        assert(a@.skip(0) =~= a@);
        assert(b@.skip(0) =~= b@);
    }
    while i < a.len() && i < b.len()
        invariant
            i <= a.len(),
            i <= b.len(),
            forall|j: int| 0 <= j < i ==> a@[j] == b@[j],
            seq_le(a@, b@) == seq_le(a@.skip(i as int), b@.skip(i as int)),
        decreases a.len() - i,
    {
        if a[i] != b[i] {
            proof {
                assert(a@.skip(i as int)[0] == a@[i as int]);
                assert(b@.skip(i as int)[0] == b@[i as int]);
            }
            return a[i] < b[i];
        }
        proof {
            assert(a@.skip(i as int).drop_first() =~= a@.skip(i + 1));
            assert(b@.skip(i as int).drop_first() =~= b@.skip(i + 1));
        }
        i = i + 1;
    }
    i == a.len()
}

/// Canonical term pair key: `a` is the smaller term, `b` the larger.
#[derive(Debug, Clone, PartialEq, Eq, Hash)]
pub struct TermPairKey {
    pub a: String,
    pub b: String,
}

impl TermPairKey {
    /// The key of a pair of terms, whichever order they come in.
    pub fn new(x: &str, y: &str) -> (r: Self)
        ensures
            seq_le(x@, y@) ==> r.a@ == x@ && r.b@ == y@,
            !seq_le(x@, y@) ==> r.a@ == y@ && r.b@ == x@,
    {
        let xs = chars_of(x);
        let ys = chars_of(y);
        if chars_le(xs.as_slice(), ys.as_slice()) {
            TermPairKey { a: x.to_owned(), b: y.to_owned() }
        } else {
            TermPairKey { a: y.to_owned(), b: x.to_owned() }
        }
    }

    /// Whether `term` is one of the pair's two terms.
    pub fn touches(&self, term: &str) -> (r: bool)
        ensures
            r == (self.a@ == term@ || self.b@ == term@),
    {
        str_eq(self.a.as_str(), term) || str_eq(self.b.as_str(), term)
    }
}

/// The key of a pair does not depend on the order of the terms, and holds
/// them in order.
pub proof fn term_pair_key_is_canonical(x: Seq<char>, y: Seq<char>)
    ensures
        ({
            let (a1, b1) = if seq_le(x, y) { (x, y) } else { (y, x) };
            let (a2, b2) = if seq_le(y, x) { (y, x) } else { (x, y) };
            &&& a1 == a2
            &&& b1 == b2
            &&& seq_le(a1, b1)
        }),
{
    seq_le_total(x, y);
    if seq_le(x, y) && seq_le(y, x) {
        seq_le_antisymmetric(x, y);
    }
}

/// How many observations a pair's history keeps.
pub const HISTORY_CAP: usize = 16;

/// Ring buffer of `(dream_tick, jaccard_score)` observations for one term
/// pair, keeping the most recent `HISTORY_CAP`.  Each score is held as the
/// bit pattern of its `f32` (`f32::to_bits`); the dynamics computed from the
/// scores (velocity, acceleration, the Weber bracket) are the application's.
pub struct JaccardHistory {
    entries: [(u64, u32); 16],
    head: usize,
    len: usize,
}

/// The history after one more observation: it is appended, and the oldest
/// is dropped once there are more than `HISTORY_CAP`.
pub open spec fn pushed(h: Seq<(u64, u32)>, e: (u64, u32)) -> Seq<(u64, u32)> {
    if h.len() < HISTORY_CAP {
        h.push(e)
    } else {
        h.push(e).drop_first()
    }
}

impl JaccardHistory {
    /// Index of the oldest stored observation.
    closed spec fn start(&self) -> int {
        if self.len < HISTORY_CAP {
            0
        } else {
            self.head as int
        }
    }

    /// The stored observations, oldest first.
    pub closed spec fn observations(&self) -> Seq<(u64, u32)> {
        Seq::new(self.len as nat, |i: int| self.entries@[(self.start() + i) % 16])
    }

    /// The ring's indices stay in range, and an unfilled ring is filled from
    /// the front.
    pub closed spec fn wf(&self) -> bool {
        &&& self.head < HISTORY_CAP
        &&& self.len <= HISTORY_CAP
        &&& self.len < HISTORY_CAP ==> self.head == self.len
    }

    /// An empty history.
    pub fn new() -> (r: Self)
        ensures
            r.wf(),
            r.observations() == Seq::<(u64, u32)>::empty(),
    {
        let r = JaccardHistory { entries: [(0u64, 0u32); 16], head: 0, len: 0 };
        assert(r.observations() =~= Seq::<(u64, u32)>::empty());
        r
    }

    /// Records an observation, dropping the oldest when full.
    pub fn push(&mut self, tick: u64, score_bits: u32)
        requires
            old(self).wf(),
        ensures
            final(self).wf(),
            final(self).observations() == pushed(old(self).observations(), (tick, score_bits)),
    {
        let ghost before = self.observations();
        let ghost old_entries = self.entries@;
        let ghost old_head = self.head;
        let ghost old_len = self.len;
        self.entries[self.head] = (tick, score_bits);
        self.head = (self.head + 1) % HISTORY_CAP;
        if self.len < HISTORY_CAP {
            self.len = self.len + 1;
        }
        proof {
            let e = (tick, score_bits);
            let want = pushed(before, e);
            assert(self.entries@ == old_entries.update(old_head as int, e));
            if old_len < 16 {
                assert forall|i: int| 0 <= i < self.len implies #[trigger] self.observations()[i]
                    == want[i] by {
                    assert(self.start() == 0);
                    assert((self.start() + i) % 16 == i);
                    if i < old_len {
                        assert(before[i] == old_entries[i % 16]);
                        assert(i % 16 == i);
                    }
                }
            } else {
                assert forall|i: int| 0 <= i < 16 implies #[trigger] self.observations()[i]
                    == want[i] by {
                    assert(self.start() == (old_head + 1) % 16);
                    if i < 15 {
                        assert(want[i] == before[i + 1]);
                        assert(before[i + 1] == old_entries[(old_head + i + 1) % 16]);
                        assert((self.start() + i) % 16 == (old_head + i + 1) % 16);
                        assert((old_head + i + 1) % 16 != old_head);
                    } else {
                        assert((self.start() + i) % 16 == old_head);
                    }
                }
            }
            assert(self.observations() =~= want);
        }
    }

    /// Number of observations stored.
    pub fn len(&self) -> (r: usize)
        requires
            self.wf(),
        ensures
            r == self.observations().len(),
    {
        self.len
    }

    /// The most recent tick, 0 when nothing is stored.
    pub fn last_tick(&self) -> (r: u64)
        requires
            self.wf(),
        ensures
            r == (if self.observations().len() == 0 {
                0
            } else {
                self.observations().last().0
            }),
    {
        if self.len == 0 {
            return 0;
        }
        let idx = if self.head == 0 {
            HISTORY_CAP - 1
        } else {
            self.head - 1
        };
        proof {
            assert((self.start() + self.len - 1) % 16 == idx);
        }
        self.entries[idx].0
    }

    /// The `i`-th oldest observation (0 is the oldest), if there is one.
    pub fn get_ordered(&self, i: usize) -> (r: Option<(u64, u32)>)
        requires
            self.wf(),
        ensures
            r == (if i < self.observations().len() {
                Some(self.observations()[i as int])
            } else {
                None::<(u64, u32)>
            }),
    {
        if i >= self.len {
            return None;
        }
        let start = if self.len < HISTORY_CAP {
            0
        } else {
            self.head
        };
        let idx = (start + i) % HISTORY_CAP;
        Some(self.entries[idx])
    }
}

impl Default for JaccardHistory {
    fn default() -> (r: Self)
        ensures
            r.wf(),
            r.observations() == Seq::<(u64, u32)>::empty(),
    {
        JaccardHistory::new()
    }
}

/// The history keeps exactly the most recent observations: after any
/// sequence of pushes into an empty history, it holds the last
/// `min(n, HISTORY_CAP)` of them, oldest first.
pub proof fn history_keeps_most_recent(es: Seq<(u64, u32)>)
    ensures
        pushes(es) == es.subrange(
            if es.len() > HISTORY_CAP { es.len() - HISTORY_CAP } else { 0 },
            es.len() as int,
        ),
    decreases es.len(),
{
    if es.len() > 0 {
        history_keeps_most_recent(es.drop_last());
        let p = es.drop_last();
        let lo = if p.len() > HISTORY_CAP { p.len() - HISTORY_CAP } else { 0 };
        let lo2 = if es.len() > HISTORY_CAP { es.len() - HISTORY_CAP } else { 0 };
        assert(pushes(es) =~= es.subrange(lo2, es.len() as int)) by {
            assert(p.subrange(lo, p.len() as int).push(es.last()) =~= es.subrange(lo, es.len() as int));
        }
    } else {
        assert(es.subrange(0, 0) =~= Seq::<(u64, u32)>::empty());
    }
}

/// The observations held after pushing `es`, in order, into an empty history.
pub open spec fn pushes(es: Seq<(u64, u32)>) -> Seq<(u64, u32)>
    decreases es.len(),
{
    if es.len() == 0 {
        Seq::empty()
    } else {
        pushed(pushes(es.drop_last()), es.last())
    }
}

/// The ids held under the root node of `term`, if there is one.
pub open spec fn term_members(t: TreeView, term: Seq<char>) -> Set<u32> {
    match root_for(t, term) {
        Some(id) => members_under(t.nodes, id),
        None => Set::empty(),
    }
}

/// The terms of `terms` whose ids meet `keys`, each with its number of ids,
/// in order.
pub open spec fn keyed_terms(t: TreeView, keys: Set<u32>, terms: Seq<Seq<char>>) -> Seq<(Seq<char>, nat)>
    decreases terms.len(),
{
    if terms.len() == 0 {
        Seq::empty()
    } else {
        let prev = keyed_terms(t, keys, terms.drop_last());
        let m = term_members(t, terms.last());
        if !m.disjoint(keys) {
            prev.push((terms.last(), m.len()))
        } else {
            prev
        }
    }
}

/// The first position at or after `i` whose count is below `k`.
pub open spec fn first_below(s: Seq<(Seq<char>, nat)>, k: nat, i: int) -> int
    decreases s.len() - i,
{
    if i >= s.len() {
        s.len() as int
    } else if s[i].1 < k {
        i
    } else {
        first_below(s, k, i + 1)
    }
}

/// A stable sort by count, largest first.
pub open spec fn by_count_desc(s: Seq<(Seq<char>, nat)>) -> Seq<(Seq<char>, nat)>
    decreases s.len(),
{
    if s.len() == 0 {
        s
    } else {
        let r = by_count_desc(s.drop_last());
        r.insert(first_below(r, s.last().1, 0), s.last())
    }
}

/// The terms an update samples: those whose ids meet the keystones, the
/// largest first (ties in root order), at most `max_terms` of them.
pub open spec fn sampled_terms(t: TreeView, keystones: Set<u32>, max_terms: nat) -> Seq<Seq<char>> {
    let sorted = by_count_desc(keyed_terms(t, keystones, root_terms(t, t.roots.len())));
    let n = if max_terms < sorted.len() { max_terms as int } else { sorted.len() as int };
    sorted.take(n).map_values(|p: (Seq<char>, nat)| p.0)
}

proof fn first_below_bounds(s: Seq<(Seq<char>, nat)>, k: nat, i: int)
    requires
        0 <= i <= s.len(),
    ensures
        i <= first_below(s, k, i) <= s.len(),
    decreases s.len() - i,
{
    if i < s.len() {
        first_below_bounds(s, k, i + 1);
    }
}

/// Chooses the terms a knowledge-graph update samples.
pub fn select_sampled_terms(tree: &PrimeTree, keystones: &RoaringBitmap, max_terms: usize) -> (r: Vec<String>)
    requires
        tree.wf(),
    ensures
        r@.map_values(|s: String| s@) == sampled_terms(tree@, bitmap_members(*keystones), max_terms as nat),
{
    let all = tree.terms();
    let ghost tv = root_terms(tree@, tree@.roots.len());
    let ghost keys = bitmap_members(*keystones);
    let mut sorted: Vec<(String, u64)> = Vec::new();
    let mut i: usize = 0;
    proof {
        assert(all@.map_values(|s: String| s@) == tv);
        assert(tv.take(0) =~= Seq::<Seq<char>>::empty());
    }
    while i < all.len()
        invariant
            i <= all@.len(),
            all@.map_values(|s: String| s@) == tv,
            tree.wf(),
            keys == bitmap_members(*keystones),
            tv == root_terms(tree@, tree@.roots.len()),
            sorted@.map_values(|p: (String, u64)| (p.0@, p.1 as nat)) == by_count_desc(
                keyed_terms(tree@, keys, tv.take(i as int)),
            ),
        decreases all.len() - i,
    {
        proof {
            assert(all@.map_values(|s: String| s@)[i as int] == all@[i as int]@);
            assert(tv.take(i + 1).drop_last() =~= tv.take(i as int));
            assert(tv.take(i + 1).last() == tv[i as int]);
        }
        let members = tree.search_exact(all[i].as_str());
        let ghost prev = keyed_terms(tree@, keys, tv.take(i as int));
        proof {
            assert(bitmap_members(members) == term_members(tree@, tv[i as int]));
        }
        if !bm_is_disjoint(&members, keystones) {
            let card = bm_len(&members);
            let ghost sv = sorted@.map_values(|p: (String, u64)| (p.0@, p.1 as nat));
            let mut p: usize = 0;
            proof {
                first_below_bounds(sv, card as nat, 0);
            }
            while p < sorted.len() && sorted[p].1 >= card
                invariant
                    p <= sorted@.len(),
                    sv == sorted@.map_values(|p: (String, u64)| (p.0@, p.1 as nat)),
                    first_below(sv, card as nat, 0) == first_below(sv, card as nat, p as int),
                decreases sorted.len() - p,
            {
                proof {
                    assert(sv[p as int].1 == sorted@[p as int].1);
                }
                p = p + 1;
            }
            proof {
                if p < sorted@.len() {
                    assert(sv[p as int].1 == sorted@[p as int].1);
                }
                assert(first_below(sv, card as nat, p as int) == p);
            }
            let entry = (all[i].clone(), card);
            sorted.insert(p, entry);
            proof {
                assert(sorted@.map_values(|p: (String, u64)| (p.0@, p.1 as nat)) =~= sv.insert(
                    p as int,
                    (tv[i as int], card as nat),
                ));
                let x = (tv[i as int], card as nat);
                assert(keyed_terms(tree@, keys, tv.take(i + 1)) == prev.push(x));
                assert(prev.push(x).drop_last() =~= prev);
                assert(prev.push(x).last() == x);
            }
        } else {
            proof {
                assert(keyed_terms(tree@, keys, tv.take(i + 1)) == prev);
            }
        }
        i = i + 1;
    }
    proof {
        assert(tv.take(all@.len() as int) =~= tv);
    }
    let ghost sv = sorted@.map_values(|p: (String, u64)| (p.0@, p.1 as nat));
    let n = if max_terms < sorted.len() { max_terms } else { sorted.len() };
    let mut r: Vec<String> = Vec::new();
    let mut k: usize = 0;
    while k < n
        invariant
            k <= n,
            n <= sorted@.len(),
            sv == sorted@.map_values(|p: (String, u64)| (p.0@, p.1 as nat)),
            r@.map_values(|s: String| s@) == sv.take(k as int).map_values(|p: (Seq<char>, nat)| p.0),
        decreases n - k,
    {
        let ghost before = r@;
        r.push(sorted[k].0.clone());
        proof {
            assert(sv[k as int] == (sorted@[k as int].0@, sorted@[k as int].1 as nat));
            assert(sv.take(k + 1) =~= sv.take(k as int).push(sv[k as int]));
            before.lemma_push_map_commute(|s: String| s@, r@.last());
            sv.take(k as int).lemma_push_map_commute(|p: (Seq<char>, nat)| p.0, sv[k as int]);
            assert(r@.map_values(|s: String| s@) =~= sv.take(k + 1).map_values(|p: (Seq<char>, nat)| p.0));
        }
        k = k + 1;
    }
    r
}

// ---------------------------------------------------------------------------
// The bookkeeping of an update
// ---------------------------------------------------------------------------

/// How many dream ticks a pair may go unobserved and still be tracked.
pub const STALE_TICKS: u64 = 32;

/// The dream tick that follows `tick`; it stays at `u64::MAX` once there.
pub fn next_dream_tick(tick: u64) -> (r: u64)
    ensures
        r == (if tick < u64::MAX { tick + 1 } else { tick as int }),
{
    tick.saturating_add(1)
}

/// Whether a pair last observed at tick `last` is still tracked at tick
/// `tick`: at most `STALE_TICKS` ticks have passed (none, if `last` is
/// later).
pub fn still_tracked(tick: u64, last: u64) -> (r: bool)
    ensures
        r == ((if tick >= last { tick - last } else { 0 }) <= STALE_TICKS),
{
    tick.saturating_sub(last) <= STALE_TICKS
}

/// The pairs `(i, j)` with `j` after `i`, below `n`.
pub open spec fn pair_row(i: nat, n: nat) -> Seq<(usize, usize)> {
    Seq::new(
        (if i + 1 < n { n - i - 1 } else { 0 }) as nat,
        |k: int| (i as usize, (i + 1 + k) as usize),
    )
}

/// The pairs of the first `i` rows: every `(a, b)` with `a < i` and
/// `a < b < n`, by `a` and then by `b`.
pub open spec fn pairs_upto(i: nat, n: nat) -> Seq<(usize, usize)>
    decreases i,
{
    if i == 0 {
        Seq::empty()
    } else {
        pairs_upto((i - 1) as nat, n) + pair_row((i - 1) as nat, n)
    }
}

/// The index pairs an update samples among `n` terms: each pair of
/// distinct positions once, the first position before the second, in order.
pub fn sampled_pairs(n: usize) -> (r: Vec<(usize, usize)>)
    ensures
        r@ == pairs_upto(n as nat, n as nat),
{
    let mut out: Vec<(usize, usize)> = Vec::new();
    let mut i: usize = 0;
    while i < n
        invariant
            i <= n,
            out@ == pairs_upto(i as nat, n as nat),
        decreases n - i,
    {
        let ghost before = out@;
        let mut j: usize = i + 1;
        while j < n
            invariant
                i < n,
                i + 1 <= j <= n,
                out@ == before + pair_row(i as nat, n as nat).subrange(0, j - i - 1),
            decreases n - j,
        {
            out.push((i, j));
            proof {
                let row = pair_row(i as nat, n as nat);
                assert(row[j - i - 1] == (i, j));
                assert(row.subrange(0, j - i) =~= row.subrange(0, j - i - 1).push((i, j)));
            }
            j = j + 1;
        }
        proof {
            let row = pair_row(i as nat, n as nat);
            assert(row.subrange(0, j - i - 1) =~= row);
            assert(pairs_upto((i + 1) as nat, n as nat) == pairs_upto(i as nat, n as nat) + row);
        }
        i = i + 1;
    }
    out
}

/// An update samples `n (n - 1) / 2` pairs of `n` terms, every pair of
/// distinct positions once, the smaller position first.
pub proof fn sampled_pair_count(i: nat, n: nat)
    requires
        i <= n,
        n <= usize::MAX,
    ensures
        pairs_upto(i, n).len() * 2 == i * (2 * n - i - 1),
        forall|k: int| 0 <= k < pairs_upto(i, n).len() ==> {
            let p = #[trigger] pairs_upto(i, n)[k];
            p.0 < i && p.0 < p.1 && p.1 < n
        },
    decreases i,
{
    if i > 0 {
        sampled_pair_count((i - 1) as nat, n);
        let prev = pairs_upto((i - 1) as nat, n);
        let row = pair_row((i - 1) as nat, n);
        assert(row.len() == n - i);
        assert(prev.len() * 2 == (i - 1) * (2 * n - (i - 1) - 1));
        assert((i - 1) * (2 * n - (i - 1) - 1) + 2 * (n - i) == i * (2 * n - i - 1)) by (nonlinear_arith)
            requires
                i >= 1,
                i <= n,
        ;
        assert forall|k: int| 0 <= k < pairs_upto(i, n).len() implies {
            let p = #[trigger] pairs_upto(i, n)[k];
            p.0 < i && p.0 < p.1 && p.1 < n
        } by {
            if k >= prev.len() {
                let m = k - prev.len();
                assert(pairs_upto(i, n)[k] == row[m]);
                assert(row[m] == ((i - 1) as usize, (i + m) as usize));
                assert(i + m < n);
            } else {
                assert(pairs_upto(i, n)[k] == prev[k]);
            }
        }
    }
}

} // verus!
