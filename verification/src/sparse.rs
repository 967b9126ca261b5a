//! A sparse inverted index from terms to postings, for term-based scoring.
use vstd::prelude::*;

use std::collections::HashMap;

use crate::terms::{count_terms, term_counts, term_seqs, TermTable};

verus! {

broadcast use vstd::std_specs::hash::group_hash_axioms;

/// One document's entry in a term's posting list.
#[derive(Debug, Default, Clone, Copy, PartialEq, Eq, Structural)]
pub struct Posting {
    pub doc_id: u32,
    pub term_freq: u32,
}

/// Per-document statistics of the index.
#[derive(Debug, Default, Clone, Copy, PartialEq, Eq, Structural)]
pub struct DocStats {
    pub length: u32,
}

/// Inverted index: term → postings.
pub struct InvertedIndex {
    pub postings: TermTable<Vec<Posting>>,
    pub doc_stats: HashMap<u32, DocStats>,
    pub total_len: u64,
}

/// The abstract state of an index.
pub struct IndexView {
    pub postings: Map<Seq<char>, Seq<Posting>>,
    pub doc_stats: Map<u32, DocStats>,
    pub total_len: u64,
}

/// The posting lists after a document `doc_id` with term counts `tf`: each of
/// its terms gets one posting at the end of its list.
pub open spec fn with_postings(
    p: Map<Seq<char>, Seq<Posting>>,
    doc_id: u32,
    tf: Map<Seq<char>, u32>,
) -> Map<Seq<char>, Seq<Posting>> {
    Map::new(
        |t: Seq<char>| p.contains_key(t) || tf.contains_key(t),
        |t: Seq<char>|
            if tf.contains_key(t) {
                (if p.contains_key(t) { p[t] } else { Seq::empty() }).push(
                    Posting { doc_id, term_freq: tf[t] },
                )
            } else {
                p[t]
            },
    )
}

impl IndexView {
    /// The index after adding document `doc_id` made of `terms`.
    pub open spec fn with_doc(self, doc_id: u32, terms: Seq<Seq<char>>) -> IndexView {
        IndexView {
            postings: with_postings(self.postings, doc_id, count_terms(terms)),
            doc_stats: self.doc_stats.insert(doc_id, DocStats { length: terms.len() as u32 }),
            total_len: (self.total_len + terms.len()) as u64,
        }
    }
}

impl View for InvertedIndex {
    type V = IndexView;

    closed spec fn view(&self) -> IndexView {
        IndexView {
            postings: self.postings@.map_values(|v: Vec<Posting>| v@),
            doc_stats: self.doc_stats@,
            total_len: self.total_len,
        }
    }
}

impl InvertedIndex {
    /// The posting table holds each term once.
    pub closed spec fn wf(&self) -> bool {
        self.postings.wf()
    }

    /// An empty index.
    pub fn new() -> (r: Self)
        ensures
            r.wf(),
            r@.postings == Map::<Seq<char>, Seq<Posting>>::empty(),
            r@.doc_stats == Map::<u32, DocStats>::empty(),
            r@.total_len == 0,
    {
        let r = InvertedIndex {
            postings: TermTable::new(),
            doc_stats: HashMap::new(),
            total_len: 0,
        };
        proof {
            assert(r@.postings =~= Map::<Seq<char>, Seq<Posting>>::empty());
        }
        r
    }

    /// Adds a document: each distinct term gets a posting with its count in
    /// the document, and the document's length (its number of terms) is
    /// recorded and added to the total.
    pub fn add_doc(&mut self, doc_id: u32, terms: Vec<String>)
        requires
            old(self).wf(),
            terms@.len() <= u32::MAX,
            old(self)@.total_len + terms@.len() <= u64::MAX,
        ensures
            final(self).wf(),
            final(self)@ == old(self)@.with_doc(doc_id, term_seqs(terms@)),
    {
        let ghost tv = term_seqs(terms@);
        let tf = term_counts(terms.as_slice());
        let keys = tf.keys();
        let ghost p0 = self@.postings;
        let mut j: usize = 0;
        while j < keys.len()
            invariant
                self.postings.wf(),
                tf.wf(),
                self.doc_stats@ == old(self).doc_stats@,
                self.total_len == old(self).total_len,
                p0 == old(self)@.postings,
                j <= keys@.len(),
                forall|a: int, b: int|
                    0 <= a < keys@.len() && 0 <= b < keys@.len() && a != b ==> keys@[a]@ != keys@[b]@,
                forall|k: Seq<char>| #[trigger] tf@.contains_key(k) <==> exists|a: int|
                    0 <= a < keys@.len() && keys@[a]@ == k,
                self@.postings == with_postings(
                    p0,
                    doc_id,
                    tf@.restrict(Set::new(|t: Seq<char>| exists|a: int| 0 <= a < j && keys@[a]@ == t)),
                ),
            decreases keys.len() - j,
        {
            let ghost k = keys@[j as int]@;
            let ghost before = self.postings@;
            let ghost pv = self@.postings;
            proof {
                let s0 = Set::new(|t: Seq<char>| exists|a: int| 0 <= a < j && keys@[a]@ == t);
                assert(!s0.contains(k)) by {
                    if s0.contains(k) {
                        let a = choose|a: int| 0 <= a < j && keys@[a]@ == k;
                        assert(a != j);
                    }
                }
                assert(before.contains_key(k) <==> p0.contains_key(k)) by {
                    assert(pv.contains_key(k) <==> before.contains_key(k));
                }
                if before.contains_key(k) {
                    assert(pv[k] == before[k]@);
                    assert(pv[k] == p0[k]);
                }
            }
            let key = keys[j].as_str();
            let freq = match tf.get(key) {
                Some(f) => *f,
                None => 0,
            };
            let mut list = match self.postings.remove(key) {
                Some(l) => l,
                None => Vec::new(),
            };
            list.push(Posting { doc_id, term_freq: freq });
            self.postings.insert(key, list);
            proof {
                let s0 = Set::new(|t: Seq<char>| exists|a: int| 0 <= a < j && keys@[a]@ == t);
                let s1 = Set::new(|t: Seq<char>| exists|a: int| 0 <= a < j + 1 && keys@[a]@ == t);
                assert(!s0.contains(k));
                assert(s1 =~= s0.insert(k));
                assert(tf@.contains_key(k));
                assert(freq == tf@[k]);
                assert(self.postings@ == before.remove(k).insert(k, list));
                let w = with_postings(p0, doc_id, tf@.restrict(s1));
                assert(list@ == w[k]);
                assert forall|t: Seq<char>| #[trigger] self@.postings.contains_key(t) == w.contains_key(t)
                    && (self@.postings.contains_key(t) ==> self@.postings[t] == w[t]) by {
                    assert(self.postings@.contains_key(t) == self@.postings.contains_key(t));
                    if t != k {
                        assert(s1.contains(t) == s0.contains(t));
                        assert(tf@.restrict(s1).contains_key(t) == tf@.restrict(s0).contains_key(t));
                        assert(pv.contains_key(t) == before.contains_key(t));
                        assert(self.postings@.contains_key(t) == before.contains_key(t));
                        if self@.postings.contains_key(t) {
                            assert(self@.postings[t] == self.postings@[t]@);
                            assert(self.postings@[t] == before[t]);
                            assert(pv[t] == before[t]@);
                            assert(w[t] == with_postings(p0, doc_id, tf@.restrict(s0))[t]);
                        }
                    } else {
                        assert(self@.postings[t] == self.postings@[t]@);
                    }
                }
                assert(self@.postings =~= w);
            }
            j = j + 1;
        }
        proof {
            let s = Set::new(|t: Seq<char>| exists|a: int| 0 <= a < keys@.len() && keys@[a]@ == t);
            assert(tf@.restrict(s) =~= tf@);
        }
        let len = terms.len() as u32;
        self.doc_stats.insert(doc_id, DocStats { length: len });
        self.total_len = self.total_len + len as u64;
    }

    /// The number of documents whose postings hold `term`, as a `u32`.
    pub fn df(&self, term: &str) -> (r: u32)
        requires
            self.wf(),
        ensures
            r == (if self@.postings.contains_key(term@) {
                self@.postings[term@].len() as u32
            } else {
                0
            }),
    {
        match self.postings.get(term) {
            Some(p) => p.len() as u32,
            None => 0,
        }
    }
}

impl Default for InvertedIndex {
    fn default() -> (r: Self)
        ensures
            r.wf(),
            r@.postings == Map::<Seq<char>, Seq<Posting>>::empty(),
            r@.doc_stats == Map::<u32, DocStats>::empty(),
            r@.total_len == 0,
    {
        InvertedIndex::new()
    }
}

} // verus!
