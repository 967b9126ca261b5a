//! Corpus statistics for BM25 scoring, kept up to date as documents come and
//! go.
//!
//! The scoring itself (BM25, sigmoid calibration, Bayesian priors) is
//! floating point and is computed by the application from these counts.
use vstd::prelude::*;

use std::collections::HashMap;

use crate::terms::{count_terms, term_counts, term_seqs, TermCounts};

verus! {

broadcast use vstd::std_specs::hash::group_hash_axioms;

/// Document frequencies after one more document holding each term of `ts`.
pub open spec fn bumped(df: Map<Seq<char>, u32>, ts: Set<Seq<char>>) -> Map<Seq<char>, u32> {
    Map::new(
        |t: Seq<char>| df.contains_key(t) || ts.contains(t),
        |t: Seq<char>|
            if ts.contains(t) {
                if df.contains_key(t) {
                    (df[t] + 1) as u32
                } else {
                    1u32
                }
            } else {
                df[t]
            },
    )
}

/// Document frequencies after one document holding each term of `ts` leaves:
/// each such count goes down by one, stopping at zero, and a term whose count
/// reaches zero is dropped.
pub open spec fn lowered(df: Map<Seq<char>, u32>, ts: Set<Seq<char>>) -> Map<Seq<char>, u32> {
    Map::new(
        |t: Seq<char>| df.contains_key(t) && !(ts.contains(t) && df[t] <= 1),
        |t: Seq<char>|
            if ts.contains(t) {
                (df[t] - 1) as u32
            } else {
                df[t]
            },
    )
}

/// Per-document statistics for BM25 computation.
pub struct DocStats {
    pub doc_len: u32,
    pub term_freqs: TermCounts,
}

/// The abstract state of a document's statistics.
pub struct DocView {
    pub doc_len: u32,
    pub term_freqs: Map<Seq<char>, u32>,
}

/// Corpus-level statistics maintained incrementally.
pub struct CorpusStats {
    pub n_docs: u32,
    pub total_doc_len: u64,
    pub doc_stats: HashMap<u32, DocStats>,
    /// Term → number of documents holding it.
    pub df: TermCounts,
}

/// The abstract state of a corpus.
pub struct CorpusView {
    pub n_docs: u32,
    pub total_doc_len: u64,
    pub docs: Map<u32, DocView>,
    pub df: Map<Seq<char>, u32>,
}

/// The statistics of the documents of `m`.
pub open spec fn doc_views(m: Map<u32, DocStats>) -> Map<u32, DocView> {
    m.map_values(|d: DocStats| DocView { doc_len: d.doc_len, term_freqs: d.term_freqs@ })
}

impl CorpusView {
    /// The corpus without document `id`; unchanged when it holds no such
    /// document.
    pub open spec fn without_doc(self, id: u32) -> CorpusView {
        if self.docs.contains_key(id) {
            CorpusView {
                n_docs: if self.n_docs == 0 { 0 } else { (self.n_docs - 1) as u32 },
                total_doc_len: if self.total_doc_len < self.docs[id].doc_len {
                    0
                } else {
                    (self.total_doc_len - self.docs[id].doc_len) as u64
                },
                docs: self.docs.remove(id),
                df: lowered(self.df, self.docs[id].term_freqs.dom()),
            }
        } else {
            self
        }
    }

    /// The corpus with a new document `id` made of `terms`.
    pub open spec fn with_doc(self, id: u32, terms: Seq<Seq<char>>) -> CorpusView {
        CorpusView {
            n_docs: (self.n_docs + 1) as u32,
            total_doc_len: (self.total_doc_len + terms.len()) as u64,
            docs: self.docs.insert(
                id,
                DocView { doc_len: terms.len() as u32, term_freqs: count_terms(terms) },
            ),
            df: bumped(self.df, terms.to_set()),
        }
    }

    /// What adding a document of `terms` under `id` needs so that no count
    /// overflows.
    pub open spec fn can_add(self, id: u32, terms: Seq<Seq<char>>) -> bool {
        let c = self.without_doc(id);
        &&& terms.len() <= u32::MAX
        &&& c.n_docs < u32::MAX
        &&& c.total_doc_len + terms.len() <= u64::MAX
        &&& forall|t: Seq<char>| #[trigger] terms.contains(t) && c.df.contains_key(t) ==> c.df[t] < u32::MAX
    }
}

/// The ids of the documents of `docs` that hold `t`.
pub open spec fn docs_with(docs: Map<u32, DocView>, t: Seq<char>) -> Set<u32> {
    docs.dom().filter(|d: u32| docs[d].term_freqs.contains_key(t))
}

/// The sum of the lengths of the documents of `docs`.
pub open spec fn total_len(docs: Map<u32, DocView>) -> int
    decreases docs.dom().len(),
    when docs.dom().finite()
{
    if docs.dom().len() == 0 {
        0
    } else {
        let k = docs.dom().choose();
        docs[k].doc_len + total_len(docs.remove(k))
    }
}

/// The total length is any one document's length plus that of the others.
proof fn lemma_total_len_remove(docs: Map<u32, DocView>, k: u32)
    requires
        docs.dom().finite(),
        docs.contains_key(k),
    ensures
        total_len(docs) == docs[k].doc_len + total_len(docs.remove(k)),
        total_len(docs.remove(k)) >= 0,
    decreases docs.dom().len(),
{
    assert(docs.dom().contains(k));
    let c = docs.dom().choose();
    if c != k {
        lemma_total_len_remove(docs.remove(c), k);
        lemma_total_len_remove(docs.remove(k), c);
        assert(docs.remove(c).remove(k) =~= docs.remove(k).remove(c));
    } else {
        lemma_total_len_nonneg(docs.remove(k));
    }
}

proof fn lemma_total_len_nonneg(docs: Map<u32, DocView>)
    requires
        docs.dom().finite(),
    ensures
        total_len(docs) >= 0,
    decreases docs.dom().len(),
{
    if docs.dom().len() > 0 {
        let c = docs.dom().choose();
        lemma_total_len_nonneg(docs.remove(c));
    }
}

impl CorpusView {
    /// The counters agree with the documents: `n_docs` is their number,
    /// `total_doc_len` the sum of their lengths, and each term's document
    /// frequency is the number of documents holding it, with no entry for a
    /// term that no document holds.
    pub open spec fn consistent(self) -> bool {
        &&& self.docs.dom().finite()
        &&& self.n_docs == self.docs.len()
        &&& self.total_doc_len == total_len(self.docs)
        &&& forall|t: Seq<char>| #[trigger] self.df.contains_key(t) <==> docs_with(self.docs, t).len() > 0
        &&& forall|t: Seq<char>| #[trigger] self.df.contains_key(t) ==> self.df[t] == docs_with(self.docs, t).len()
    }
}

proof fn lemma_docs_with_insert(docs: Map<u32, DocView>, id: u32, d: DocView, t: Seq<char>)
    requires
        docs.dom().finite(),
        !docs.contains_key(id),
    ensures
        docs_with(docs.insert(id, d), t) == if d.term_freqs.contains_key(t) {
            docs_with(docs, t).insert(id)
        } else {
            docs_with(docs, t)
        },
        !docs_with(docs, t).contains(id),
        docs_with(docs, t).finite(),
{
    assert(docs_with(docs.insert(id, d), t) =~= if d.term_freqs.contains_key(t) {
        docs_with(docs, t).insert(id)
    } else {
        docs_with(docs, t)
    });
}

proof fn lemma_docs_with_remove(docs: Map<u32, DocView>, id: u32, t: Seq<char>)
    requires
        docs.dom().finite(),
        docs.contains_key(id),
    ensures
        docs_with(docs.remove(id), t) == docs_with(docs, t).remove(id),
        docs_with(docs, t).contains(id) == docs[id].term_freqs.contains_key(t),
        docs_with(docs, t).finite(),
{
    assert(docs_with(docs.remove(id), t) =~= docs_with(docs, t).remove(id));
}

/// Removing a document keeps the counters in agreement with the documents.
pub proof fn remove_keeps_counts_consistent(c: CorpusView, id: u32)
    requires
        c.consistent(),
    ensures
        c.without_doc(id).consistent(),
{
    if c.docs.contains_key(id) {
        let r = c.without_doc(id);
        lemma_total_len_remove(c.docs, id);
        assert(c.docs.dom().contains(id));
        assert(r.docs.dom() =~= c.docs.dom().remove(id));
        assert forall|t: Seq<char>| #[trigger] r.df.contains_key(t) <==> docs_with(r.docs, t).len() > 0 by {
            lemma_docs_with_remove(c.docs, id, t);
        }
        assert forall|t: Seq<char>| #[trigger] r.df.contains_key(t) implies r.df[t] == docs_with(r.docs, t).len() by {
            lemma_docs_with_remove(c.docs, id, t);
        }
    }
}

/// Adding a document under a new id keeps the counters in agreement with
/// the documents.
pub proof fn add_keeps_counts_consistent(c: CorpusView, id: u32, terms: Seq<Seq<char>>)
    requires
        c.consistent(),
        !c.docs.contains_key(id),
        c.n_docs < u32::MAX,
        terms.len() <= u32::MAX,
        c.total_doc_len + terms.len() <= u64::MAX,
        forall|t: Seq<char>| #[trigger] terms.contains(t) && c.df.contains_key(t) ==> c.df[t] < u32::MAX,
    ensures
        c.with_doc(id, terms).consistent(),
{
    let r = c.with_doc(id, terms);
    let d = DocView { doc_len: terms.len() as u32, term_freqs: count_terms(terms) };
    lemma_total_len_remove(c.docs.insert(id, d), id);
    assert(c.docs.insert(id, d).remove(id) =~= c.docs);
    assert(r.docs.dom() =~= c.docs.dom().insert(id));
    assert forall|t: Seq<char>| #[trigger] r.df.contains_key(t) <==> docs_with(r.docs, t).len() > 0 by {
        lemma_docs_with_insert(c.docs, id, d, t);
        assert(terms.to_set().contains(t) == terms.contains(t));
    }
    assert forall|t: Seq<char>| #[trigger] r.df.contains_key(t) implies r.df[t] == docs_with(r.docs, t).len() by {
        lemma_docs_with_insert(c.docs, id, d, t);
        assert(terms.to_set().contains(t) == terms.contains(t));
    }
}

/// Adding a document keeps the counters in agreement with the documents,
/// whether its id is new or replaces an earlier document, as long as no
/// counter overflows: the document's statistics are its length and term
/// counts, and the document count grows only for a new id.
pub proof fn add_document_keeps_counts_consistent(c: CorpusView, id: u32, terms: Seq<Seq<char>>)
    requires
        c.consistent(),
        c.can_add(id, terms),
    ensures
        c.without_doc(id).with_doc(id, terms).consistent(),
        c.without_doc(id).with_doc(id, terms).docs[id] == (DocView {
            doc_len: terms.len() as u32,
            term_freqs: count_terms(terms),
        }),
        c.without_doc(id).with_doc(id, terms).n_docs == if c.docs.contains_key(id) {
            c.n_docs as int
        } else {
            c.n_docs + 1
        },
{
    remove_keeps_counts_consistent(c, id);
    add_keeps_counts_consistent(c.without_doc(id), id, terms);
    if c.docs.contains_key(id) {
        assert(c.docs.dom().contains(id));
        assert(c.docs.len() >= 1);
    }
}

/// Adding a document under a new id and removing it again gives the corpus
/// back, when every counted term has a positive count.
pub proof fn remove_undoes_add(c: CorpusView, id: u32, terms: Seq<Seq<char>>)
    requires
        !c.docs.contains_key(id),
        forall|t: Seq<char>| #[trigger] c.df.contains_key(t) ==> c.df[t] >= 1,
        c.n_docs < u32::MAX,
        c.total_doc_len + terms.len() <= u64::MAX,
        terms.len() <= u32::MAX,
        forall|t: Seq<char>| #[trigger] terms.contains(t) && c.df.contains_key(t) ==> c.df[t] < u32::MAX,
    ensures
        c.with_doc(id, terms).without_doc(id) == c,
{
    let r = c.with_doc(id, terms).without_doc(id);
    assert(count_terms(terms).dom() =~= terms.to_set());
    assert(r.docs =~= c.docs);
    assert forall|t: Seq<char>| #[trigger] r.df.contains_key(t) <==> c.df.contains_key(t) by {
        assert(terms.to_set().contains(t) == terms.contains(t));
    }
    assert(r.df =~= c.df);
}

impl View for CorpusStats {
    type V = CorpusView;

    closed spec fn view(&self) -> CorpusView {
        CorpusView {
            n_docs: self.n_docs,
            total_doc_len: self.total_doc_len,
            docs: doc_views(self.doc_stats@),
            df: self.df@,
        }
    }
}

impl CorpusStats {
    /// Every table in the corpus holds each term once.
    pub closed spec fn wf(&self) -> bool {
        &&& self.df.wf()
        &&& forall|k: u32| #[trigger] self.doc_stats@.contains_key(k) ==> self.doc_stats@[k].term_freqs.wf()
    }

    /// An empty corpus.
    pub fn new() -> (r: Self)
        ensures
            r.wf(),
            r@.n_docs == 0,
            r@.total_doc_len == 0,
            r@.docs == Map::<u32, DocView>::empty(),
            r@.df == Map::<Seq<char>, u32>::empty(),
            r@.consistent(),
    {
        let r = CorpusStats {
            n_docs: 0,
            total_doc_len: 0,
            doc_stats: HashMap::new(),
            df: TermCounts::new(),
        };
        proof {
            assert(r@.docs =~= Map::<u32, DocView>::empty());
            assert forall|t: Seq<char>| #[trigger] r@.df.contains_key(t) <==> docs_with(r@.docs, t).len() > 0 by {
                assert(docs_with(r@.docs, t) =~= Set::<u32>::empty());
            }
        }
        r
    }

    /// Removes a document from the corpus: its length leaves the total, the
    /// count of documents goes down by one, and each of its terms loses one
    /// from its document frequency.  Nothing happens for an unknown id.
    pub fn remove_document(&mut self, id: u32)
        requires
            old(self).wf(),
        ensures
            final(self).wf(),
            final(self)@ == old(self)@.without_doc(id),
    {
        let removed = self.doc_stats.remove(&id);
        match removed {
            Some(stats) => {
                proof {
                    assert(old(self).doc_stats@.contains_key(id));
                    assert(old(self).doc_stats@[id] == stats);
                }
                self.total_doc_len = self.total_doc_len.saturating_sub(stats.doc_len as u64);
                self.n_docs = self.n_docs.saturating_sub(1);
                let keys = stats.term_freqs.keys();
                let ghost df0 = self.df@;
                let ghost ts = stats.term_freqs@.dom();
                let ghost n1 = self.n_docs;
                let ghost t1 = self.total_doc_len;
                let mut j: usize = 0;
                while j < keys.len()
                    invariant
                        self.df.wf(),
                        self.n_docs == n1,
                        self.total_doc_len == t1,
                        self.doc_stats@ == old(self).doc_stats@.remove(id),
                        forall|k: u32| #[trigger] self.doc_stats@.contains_key(k)
                            ==> self.doc_stats@[k].term_freqs.wf(),
                        df0 == old(self).df@,
                        ts == stats.term_freqs@.dom(),
                        forall|k: Seq<char>| #[trigger] stats.term_freqs@.contains_key(k) <==> exists|a: int|
                            0 <= a < keys@.len() && keys@[a]@ == k,
                        j <= keys@.len(),
                        forall|a: int, b: int|
                            0 <= a < keys@.len() && 0 <= b < keys@.len() && a != b ==> keys@[a]@
                                != keys@[b]@,
                        self.df@ == lowered(
                            df0,
                            Set::new(|t: Seq<char>| exists|a: int| 0 <= a < j && keys@[a]@ == t),
                        ),
                    decreases keys.len() - j,
                {
                    let ghost before = self.df@;
                    let ghost k = keys@[j as int]@;
                    self.df.decrement(keys[j].as_str());
                    proof {
                        let s0 = Set::new(|t: Seq<char>| exists|a: int| 0 <= a < j && keys@[a]@ == t);
                        let s1 = Set::new(|t: Seq<char>| exists|a: int| 0 <= a < j + 1 && keys@[a]@ == t);
                        assert(!s0.contains(k));
                        assert(s1 =~= s0.insert(k));
                        assert(self.df@ =~= lowered(df0, s1));
                    }
                    j = j + 1;
                }
                proof {
                    let s = Set::new(|t: Seq<char>| exists|a: int| 0 <= a < keys@.len() && keys@[a]@ == t);
                    assert(s =~= ts);
                    assert(self@.docs =~= old(self)@.docs.remove(id));
                    assert(old(self)@.docs[id].term_freqs == stats.term_freqs@);
                }
            },
            None => {
                proof {
                    assert(!old(self).doc_stats@.contains_key(id));
                    assert(self.doc_stats@ =~= old(self).doc_stats@);
                }
            },
        }
    }

    /// Adds a document's terms to the corpus, replacing any earlier
    /// document under the same id: the document's length (its number of
    /// terms) joins the total, the count of documents goes up by one, and
    /// each distinct term gains one in document frequency.
    pub fn add_document(&mut self, id: u32, terms: &[String])
        requires
            old(self).wf(),
            old(self)@.can_add(id, term_seqs(terms@)),
        ensures
            final(self).wf(),
            final(self)@ == old(self)@.without_doc(id).with_doc(id, term_seqs(terms@)),
    {
        let ghost tv = term_seqs(terms@);
        if self.doc_stats.contains_key(&id) {
            self.remove_document(id);
        }
        proof {
            if !old(self).doc_stats@.contains_key(id) {
                assert(self@ == old(self)@.without_doc(id));
            }
        }
        let ghost c = self@;
        let term_freqs = term_counts(terms);
        let keys = term_freqs.keys();
        let ghost df0 = self.df@;
        let mut j: usize = 0;
        while j < keys.len()
            invariant
                self.df.wf(),
                term_freqs.wf(),
                self.n_docs == c.n_docs,
                self.total_doc_len == c.total_doc_len,
                doc_views(self.doc_stats@) == c.docs,
                forall|k: u32| #[trigger] self.doc_stats@.contains_key(k) ==> self.doc_stats@[k].term_freqs.wf(),
                tv == term_seqs(terms@),
                j <= keys@.len(),
                df0 == c.df,
                c == old(self)@.without_doc(id),
                old(self)@.can_add(id, tv),
                term_freqs@ == count_terms(tv),
                forall|a: int, b: int|
                    0 <= a < keys@.len() && 0 <= b < keys@.len() && a != b ==> keys@[a]@ != keys@[b]@,
                forall|k: Seq<char>| #[trigger] term_freqs@.contains_key(k) <==> exists|a: int|
                    0 <= a < keys@.len() && keys@[a]@ == k,
                self.df@ == bumped(
                    df0,
                    Set::new(|t: Seq<char>| exists|a: int| 0 <= a < j && keys@[a]@ == t),
                ),
            decreases keys.len() - j,
        {
            let ghost k = keys@[j as int]@;
            proof {
                let s0 = Set::new(|t: Seq<char>| exists|a: int| 0 <= a < j && keys@[a]@ == t);
                assert(!s0.contains(k));
                assert(term_freqs@.contains_key(k));
                assert(tv.contains(k));
            }
            self.df.increment(keys[j].as_str());
            proof {
                let s0 = Set::new(|t: Seq<char>| exists|a: int| 0 <= a < j && keys@[a]@ == t);
                let s1 = Set::new(|t: Seq<char>| exists|a: int| 0 <= a < j + 1 && keys@[a]@ == t);
                assert(s1 =~= s0.insert(k));
                assert(self.df@ =~= bumped(df0, s1));
            }
            j = j + 1;
        }
        proof {
            let s = Set::new(|t: Seq<char>| exists|a: int| 0 <= a < keys@.len() && keys@[a]@ == t);
            assert(s =~= tv.to_set());
        }
        let doc_len = terms.len() as u32;
        self.total_doc_len = self.total_doc_len + doc_len as u64;
        self.n_docs = self.n_docs + 1;
        self.doc_stats.insert(id, DocStats { doc_len, term_freqs });
        proof {
            assert(self@.docs =~= c.docs.insert(
                id,
                DocView { doc_len: tv.len() as u32, term_freqs: count_terms(tv) },
            ));
        }
    }
}

} // verus!
