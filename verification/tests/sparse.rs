use ferricula::sparse::InvertedIndex;

#[test]
fn inverted_index_counts_postings() {
    let mut idx = InvertedIndex::default();
    idx.add_doc(1, vec!["a".to_string(), "b".to_string(), "a".to_string()]);
    idx.add_doc(2, vec!["a".to_string()]);
    assert_eq!(idx.df("a"), 2);
    assert_eq!(idx.df("b"), 1);
    assert_eq!(idx.df("c"), 0);
    assert_eq!(idx.total_len, 4);
    assert_eq!(idx.doc_stats.get(&1).unwrap().length, 3);
    let a = idx.postings.get("a").unwrap();
    assert_eq!(a.len(), 2);
    assert_eq!(a[0].doc_id, 1);
    assert_eq!(a[0].term_freq, 2);
    assert_eq!(a[1].doc_id, 2);
    assert_eq!(a[1].term_freq, 1);
}

#[test]
fn inverted_index_empty_document() {
    let mut idx = InvertedIndex::new();
    idx.add_doc(7, Vec::new());
    assert_eq!(idx.total_len, 0);
    assert_eq!(idx.doc_stats.get(&7).unwrap().length, 0);
    assert_eq!(idx.postings.len(), 0);
}
