//! A small table from terms to counts, with no term twice.
//!
//! It is modelled by a `Map` from each term's characters to its count.
use vstd::prelude::*;

use crate::text::str_eq;

verus! {

/// The map that a list of `(term, count)` entries stands for: a later entry
/// overrides an earlier one under the same term.
pub open spec fn entries_map<V>(s: Seq<(String, V)>) -> Map<Seq<char>, V>
    decreases s.len(),
{
    if s.len() == 0 {
        Map::empty()
    } else {
        entries_map(s.drop_last()).insert(s.last().0@, s.last().1)
    }
}

/// No term occurs in two entries.
pub open spec fn distinct_terms<V>(s: Seq<(String, V)>) -> bool {
    forall|i: int, j: int| 0 <= i < s.len() && 0 <= j < s.len() && i != j ==> s[i].0@ != s[j].0@
}

/// With distinct terms, the map holds exactly the entries' terms, each with
/// its entry's count.
proof fn lemma_entries_map<V>(s: Seq<(String, V)>)
    requires
        distinct_terms(s),
    ensures
        forall|k: Seq<char>|
            #[trigger] entries_map(s).contains_key(k) <==> exists|i: int|
                0 <= i < s.len() && s[i].0@ == k,
        forall|i: int| 0 <= i < s.len() ==> #[trigger] entries_map(s)[s[i].0@] == s[i].1,
    decreases s.len(),
{
    if s.len() > 0 {
        let p = s.drop_last();
        assert(distinct_terms(p));
        lemma_entries_map(p);
        assert forall|k: Seq<char>| #[trigger] entries_map(s).contains_key(k) <==> exists|i: int|
            0 <= i < s.len() && s[i].0@ == k by {
            if entries_map(p).contains_key(k) {
                let i = choose|i: int| 0 <= i < p.len() && p[i].0@ == k;
                assert(s[i] == p[i]);
            }
            if exists|i: int| 0 <= i < s.len() && s[i].0@ == k {
                let i = choose|i: int| 0 <= i < s.len() && s[i].0@ == k;
                if i < s.len() - 1 {
                    assert(p[i] == s[i]);
                }
            }
        }
        assert forall|i: int| 0 <= i < s.len() implies #[trigger] entries_map(s)[s[i].0@] == s[i].1 by {
            if i < s.len() - 1 {
                assert(p[i] == s[i]);
                assert(s[i].0@ != s.last().0@);
                assert(entries_map(p)[p[i].0@] == p[i].1);
            } else {
                assert(s[i] == s.last());
            }
        }
    }
}

/// With distinct terms, the map has one key per entry.
proof fn lemma_entries_len<V>(s: Seq<(String, V)>)
    requires
        distinct_terms(s),
    ensures
        entries_map(s).len() == s.len(),
{
    lemma_entries_map(s);
    let keys = s.map_values(|e: (String, V)| e.0@);
    assert(keys.no_duplicates());
    assert(keys.to_set() =~= entries_map(s).dom()) by {
        assert forall|k: Seq<char>| keys.to_set().contains(k) implies entries_map(s).dom().contains(k) by {
            let i = choose|i: int| 0 <= i < keys.len() && keys[i] == k;
            assert(s[i].0@ == k);
        }
        assert forall|k: Seq<char>| entries_map(s).dom().contains(k) implies keys.to_set().contains(k) by {
            let i = choose|i: int| 0 <= i < s.len() && s[i].0@ == k;
            assert(keys[i] == k);
        }
    }
    keys.unique_seq_to_set();
}

/// Dropping entry `i` drops its term from the map.
proof fn lemma_remove_entry<V>(s: Seq<(String, V)>, i: int)
    requires
        distinct_terms(s),
        0 <= i < s.len(),
    ensures
        distinct_terms(s.remove(i)),
        entries_map(s.remove(i)) == entries_map(s).remove(s[i].0@),
{
    let r = s.remove(i);
    assert forall|a: int, b: int| 0 <= a < r.len() && 0 <= b < r.len() && a != b implies r[a].0@
        != r[b].0@ by {
        let a0 = if a < i { a } else { a + 1 };
        let b0 = if b < i { b } else { b + 1 };
        assert(r[a] == s[a0]);
        assert(r[b] == s[b0]);
    }
    lemma_entries_map(s);
    lemma_entries_map(r);
    assert forall|k: Seq<char>| #[trigger] entries_map(r).contains_key(k) <==> entries_map(s).remove(
        s[i].0@,
    ).contains_key(k) by {
        if entries_map(r).contains_key(k) {
            let j = choose|j: int| 0 <= j < r.len() && r[j].0@ == k;
            let j0 = if j < i { j } else { j + 1 };
            assert(s[j0] == r[j]);
        }
        if entries_map(s).contains_key(k) && k != s[i].0@ {
            let j = choose|j: int| 0 <= j < s.len() && s[j].0@ == k;
            let j1 = if j < i { j } else { j - 1 };
            assert(r[j1] == s[j]);
        }
    }
    assert forall|k: Seq<char>| #[trigger] entries_map(r).contains_key(k) implies entries_map(r)[k]
        == entries_map(s).remove(s[i].0@)[k] by {
        let j = choose|j: int| 0 <= j < r.len() && r[j].0@ == k;
        let j0 = if j < i { j } else { j + 1 };
        assert(s[j0] == r[j]);
    }
    assert(entries_map(r) =~= entries_map(s).remove(s[i].0@));
}

/// Appending an entry for a term not yet held keeps the terms distinct.
proof fn lemma_push_entry<V>(s: Seq<(String, V)>, e: (String, V))
    requires
        distinct_terms(s),
        !entries_map(s).contains_key(e.0@),
    ensures
        distinct_terms(s.push(e)),
        entries_map(s.push(e)) == entries_map(s).insert(e.0@, e.1),
{
    let r = s.push(e);
    assert(r.drop_last() == s);
    lemma_entries_map(s);
    assert forall|a: int, b: int| 0 <= a < r.len() && 0 <= b < r.len() && a != b implies r[a].0@
        != r[b].0@ by {
        if a == s.len() as int {
            assert(entries_map(s).contains_key(r[b].0@) || r[b].0@ != e.0@);
            assert(r[b] == s[b]);
        } else if b == s.len() as int {
            assert(r[a] == s[a]);
        } else {
            assert(r[a] == s[a]);
            assert(r[b] == s[b]);
        }
    }
}

/// A table from terms to values, holding each term once.
pub struct TermTable<V> {
    entries: Vec<(String, V)>,
}

/// A table of term counts.
pub type TermCounts = TermTable<u32>;

impl<V> View for TermTable<V> {
    type V = Map<Seq<char>, V>;

    closed spec fn view(&self) -> Map<Seq<char>, V> {
        entries_map(self.entries@)
    }
}

impl<V> TermTable<V> {
    /// No term is held twice.
    pub closed spec fn wf(&self) -> bool {
        distinct_terms(self.entries@)
    }

    /// An empty table.
    pub fn new() -> (r: Self)
        ensures
            r.wf(),
            r@ == Map::<Seq<char>, V>::empty(),
    {
        TermTable { entries: Vec::new() }
    }

    fn find(&self, t: &str) -> (r: Option<usize>)
        requires
            self.wf(),
        ensures
            match r {
                Some(i) => i < self.entries@.len() && self.entries@[i as int].0@ == t@
                    && self@.contains_key(t@) && self@[t@] == self.entries@[i as int].1,
                None => !self@.contains_key(t@),
            },
    {
        proof {
            lemma_entries_map(self.entries@);
        }
        let mut i: usize = 0;
        while i < self.entries.len()
            invariant
                self.wf(),
                i <= self.entries@.len(),
                forall|j: int| 0 <= j < i ==> self.entries@[j].0@ != t@,
            decreases self.entries.len() - i,
        {
            if str_eq(self.entries[i].0.as_str(), t) {
                proof {
                    lemma_entries_map(self.entries@);
                }
                return Some(i);
            }
            i = i + 1;
        }
        None
    }

    /// The value held for `t`, if any.
    pub fn get(&self, t: &str) -> (r: Option<&V>)
        requires
            self.wf(),
        ensures
            match r {
                Some(v) => self@.contains_key(t@) && *v == self@[t@],
                None => !self@.contains_key(t@),
            },
    {
        match self.find(t) {
            Some(i) => Some(&self.entries[i].1),
            None => None,
        }
    }

    /// Whether `t` is held.
    pub fn contains_key(&self, t: &str) -> (r: bool)
        requires
            self.wf(),
        ensures
            r == self@.contains_key(t@),
    {
        self.find(t).is_some()
    }

    /// The number of terms held.
    pub fn len(&self) -> (r: usize)
        requires
            self.wf(),
        ensures
            r == self@.len(),
    {
        proof {
            lemma_entries_len(self.entries@);
        }
        self.entries.len()
    }

    /// Whether the table holds no term.
    pub fn is_empty(&self) -> (r: bool)
        requires
            self.wf(),
        ensures
            r == (self@ == Map::<Seq<char>, V>::empty()),
    {
        proof {
            lemma_entries_map(self.entries@);
            if self.entries@.len() == 0 {
                assert(self@ =~= Map::<Seq<char>, V>::empty());
            } else {
                assert(self@.contains_key(self.entries@[0].0@));
            }
        }
        self.entries.len() == 0
    }

    /// Stores `v` for `t`, replacing what `t` held.
    pub fn insert(&mut self, t: &str, v: V)
        requires
            old(self).wf(),
        ensures
            final(self).wf(),
            final(self)@ == old(self)@.insert(t@, v),
    {
        match self.find(t) {
            Some(i) => {
                let ghost s = self.entries@;
                let (name, _) = self.entries.remove(i);
                proof {
                    lemma_remove_entry(s, i as int);
                }
                self.entries.push((name, v));
                proof {
                    lemma_push_entry(s.remove(i as int), (name, v));
                    assert(self.entries@ == s.remove(i as int).push((name, v)));
                    assert(self@ =~= old(self)@.insert(t@, v));
                }
            },
            None => {
                let ghost s = self.entries@;
                let name = t.to_owned();
                self.entries.push((name, v));
                proof {
                    lemma_push_entry(s, (name, v));
                }
            },
        }
    }

    /// Takes the value held for `t` out of the table.
    pub fn remove(&mut self, t: &str) -> (r: Option<V>)
        requires
            old(self).wf(),
        ensures
            final(self).wf(),
            final(self)@ == old(self)@.remove(t@),
            match r {
                Some(v) => old(self)@.contains_key(t@) && v == old(self)@[t@],
                None => !old(self)@.contains_key(t@),
            },
    {
        match self.find(t) {
            Some(i) => {
                let ghost s = self.entries@;
                let (_, v) = self.entries.remove(i);
                proof {
                    lemma_remove_entry(s, i as int);
                }
                Some(v)
            },
            None => {
                proof {
                    assert(self@ =~= old(self)@.remove(t@));
                }
                None
            },
        }
    }

    /// The terms held, each once.
    pub fn keys(&self) -> (r: Vec<String>)
        requires
            self.wf(),
        ensures
            r@.len() == self@.len(),
            forall|i: int, j: int| 0 <= i < r@.len() && 0 <= j < r@.len() && i != j ==> r@[i]@ != r@[j]@,
            forall|k: Seq<char>| #[trigger] self@.contains_key(k) <==> exists|i: int|
                0 <= i < r@.len() && r@[i]@ == k,
    {
        proof {
            lemma_entries_map(self.entries@);
            lemma_entries_len(self.entries@);
        }
        let mut r: Vec<String> = Vec::new();
        let mut i: usize = 0;
        while i < self.entries.len()
            invariant
                i <= self.entries@.len(),
                r@.len() == i,
                forall|j: int| 0 <= j < i ==> r@[j]@ == self.entries@[j].0@,
            decreases self.entries.len() - i,
        {
            r.push(self.entries[i].0.clone());
            i = i + 1;
        }
        proof {
            assert forall|k: Seq<char>| #[trigger] self@.contains_key(k) <==> exists|i: int|
                0 <= i < r@.len() && r@[i]@ == k by {
                if self@.contains_key(k) {
                    let j = choose|j: int| 0 <= j < self.entries@.len() && self.entries@[j].0@ == k;
                    assert(r@[j]@ == k);
                }
            }
        }
        r
    }
}

impl TermTable<u32> {
    /// Adds one to the count of `t`, which starts at zero where `t` is not
    /// held.
    pub fn increment(&mut self, t: &str)
        requires
            old(self).wf(),
            old(self)@.contains_key(t@) ==> old(self)@[t@] < u32::MAX,
        ensures
            final(self).wf(),
            final(self)@ == old(self)@.insert(
                t@,
                if old(self)@.contains_key(t@) { (old(self)@[t@] + 1) as u32 } else { 1u32 },
            ),
    {
        let c = match self.get(t) {
            Some(c) => *c + 1,
            None => 1,
        };
        self.insert(t, c);
    }

    /// Takes one from the count of `t`, stopping at zero, and drops `t` once
    /// its count is zero; nothing happens where `t` is not held.
    pub fn decrement(&mut self, t: &str)
        requires
            old(self).wf(),
        ensures
            final(self).wf(),
            final(self)@ == (if !old(self)@.contains_key(t@) {
                old(self)@
            } else if old(self)@[t@] <= 1 {
                old(self)@.remove(t@)
            } else {
                old(self)@.insert(t@, (old(self)@[t@] - 1) as u32)
            }),
    {
        match self.get(t) {
            Some(c) => {
                let c = *c;
                if c <= 1 {
                    self.remove(t);
                } else {
                    self.insert(t, c - 1);
                }
            },
            None => {},
        }
    }
}

/// How many times `t` occurs in `s`.
pub open spec fn occurrences(s: Seq<Seq<char>>, t: Seq<char>) -> nat
    decreases s.len(),
{
    if s.len() == 0 {
        0
    } else {
        occurrences(s.drop_last(), t) + if s.last() == t { 1nat } else { 0nat }
    }
}

/// Each distinct term of `s` with the number of times it occurs.
pub open spec fn count_terms(s: Seq<Seq<char>>) -> Map<Seq<char>, u32> {
    Map::new(|t: Seq<char>| s.contains(t), |t: Seq<char>| occurrences(s, t) as u32)
}

/// The characters of each term.
pub open spec fn term_seqs(terms: Seq<String>) -> Seq<Seq<char>> {
    terms.map_values(|s: String| s@)
}

proof fn lemma_occurrences_push(s: Seq<Seq<char>>, x: Seq<char>, t: Seq<char>)
    ensures
        occurrences(s.push(x), t) == occurrences(s, t) + if x == t { 1nat } else { 0nat },
{
    assert(s.push(x).drop_last() == s);
}

proof fn lemma_occurrences_absent(s: Seq<Seq<char>>, t: Seq<char>)
    requires
        !s.contains(t),
    ensures
        occurrences(s, t) == 0,
    decreases s.len(),
{
    if s.len() > 0 {
        assert(!s.drop_last().contains(t)) by {
            if s.drop_last().contains(t) {
                let a = choose|a: int| 0 <= a < s.drop_last().len() && s.drop_last()[a] == t;
                assert(s[a] == t);
            }
        }
        lemma_occurrences_absent(s.drop_last(), t);
    }
}

proof fn lemma_occurrences_bound(s: Seq<Seq<char>>, t: Seq<char>)
    ensures
        occurrences(s, t) <= s.len(),
    decreases s.len(),
{
    if s.len() > 0 {
        lemma_occurrences_bound(s.drop_last(), t);
    }
}



/// Counts the occurrences of each term of `terms`.
pub fn term_counts(terms: &[String]) -> (r: TermCounts)
    requires
        terms@.len() <= u32::MAX,
    ensures
        r.wf(),
        r@ == count_terms(term_seqs(terms@)),
{
    let ghost tv = term_seqs(terms@);
    let mut term_freqs = TermCounts::new();
    let mut i: usize = 0;
    while i < terms.len()
        invariant
            term_freqs.wf(),
            i <= terms@.len(),
            tv == term_seqs(terms@),
            terms@.len() <= u32::MAX,
            term_freqs@ == count_terms(tv.take(i as int)),
        decreases terms.len() - i,
    {
        let ghost t = terms@[i as int]@;
        proof {
            assert(tv.take(i + 1) == tv.take(i as int).push(t));
            if term_freqs@.contains_key(t) {
                lemma_occurrences_bound(tv.take(i as int), t);
            }
        }
        term_freqs.increment(terms[i].as_str());
        proof {
            assert forall|x: Seq<char>| #[trigger] tv.take(i + 1).contains(x) <==> (tv.take(
                i as int,
            ).contains(x) || x == t) by {
                if tv.take(i + 1).contains(x) && x != t {
                    let a = choose|a: int| 0 <= a < i + 1 && #[trigger] tv.take(i + 1)[a] == x;
                    assert(tv.take(i as int)[a] == x);
                }
                if tv.take(i as int).contains(x) {
                    let a = choose|a: int| 0 <= a < i && #[trigger] tv.take(i as int)[a] == x;
                    assert(tv.take(i + 1)[a] == x);
                }
                if x == t {
                    assert(tv.take(i + 1)[i as int] == x);
                }
            }
            assert forall|x: Seq<char>| #[trigger] term_freqs@.contains_key(x) implies term_freqs@[x]
                == count_terms(tv.take(i + 1))[x] by {
                lemma_occurrences_push(tv.take(i as int), t, x);
                lemma_occurrences_bound(tv.take(i as int), x);
                if x == t && !tv.take(i as int).contains(t) {
                    lemma_occurrences_absent(tv.take(i as int), t);
                }
            }
            assert(term_freqs@ =~= count_terms(tv.take(i + 1)));
        }
        i = i + 1;
    }
    proof {
        assert(tv.take(terms@.len() as int) == tv);
    }
    term_freqs
}

} // verus!
