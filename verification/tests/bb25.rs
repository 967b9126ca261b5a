use ferricula::bb25::CorpusStats;

#[test]
fn corpus_stats_incremental() {
    let mut cs = CorpusStats::new();
    cs.add_document(1, &["weber".into(), "bracket".into(), "forc".into()]);
    cs.add_document(2, &["weber".into(), "newton".into()]);
    assert_eq!(cs.n_docs, 2);
    assert_eq!(cs.df.get("weber"), Some(&2));
    assert_eq!(cs.df.get("bracket"), Some(&1));

    cs.remove_document(1);
    assert_eq!(cs.n_docs, 1);
    assert_eq!(cs.df.get("weber"), Some(&1));
    assert!(!cs.df.contains_key("bracket"));
}

#[test]
fn corpus_readd_replaces_document() {
    let mut cs = CorpusStats::new();
    cs.add_document(1, &["a".into(), "b".into(), "b".into()]);
    assert_eq!(cs.total_doc_len, 3);
    cs.add_document(1, &["b".into()]);
    assert_eq!(cs.n_docs, 1);
    assert_eq!(cs.total_doc_len, 1);
    assert!(!cs.df.contains_key("a"));
    assert_eq!(cs.df.get("b"), Some(&1));
    let doc = cs.doc_stats.get(&1).unwrap();
    assert_eq!(doc.doc_len, 1);
    assert_eq!(doc.term_freqs.get("b"), Some(&1));
}

#[test]
fn corpus_term_frequencies_counted() {
    let mut cs = CorpusStats::new();
    cs.add_document(5, &["x".into(), "y".into(), "x".into(), "x".into()]);
    let doc = cs.doc_stats.get(&5).unwrap();
    assert_eq!(doc.doc_len, 4);
    assert_eq!(doc.term_freqs.get("x"), Some(&3));
    assert_eq!(doc.term_freqs.get("y"), Some(&1));
    assert_eq!(doc.term_freqs.len(), 2);
    assert_eq!(cs.df.get("x"), Some(&1));
}

#[test]
fn corpus_remove_unknown_is_noop() {
    let mut cs = CorpusStats::new();
    cs.add_document(1, &["a".into()]);
    cs.remove_document(9);
    assert_eq!(cs.n_docs, 1);
    assert_eq!(cs.total_doc_len, 1);
    assert_eq!(cs.df.get("a"), Some(&1));
}

#[test]
fn corpus_add_then_remove_restores_empty() {
    let mut cs = CorpusStats::new();
    cs.add_document(3, &["p".into(), "q".into()]);
    cs.remove_document(3);
    assert_eq!(cs.n_docs, 0);
    assert_eq!(cs.total_doc_len, 0);
    assert_eq!(cs.df.len(), 0);
    assert!(cs.doc_stats.is_empty());
}
