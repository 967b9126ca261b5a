use ferricula::graph::{EdgeKind, MemoryGraph};

fn w(x: f32) -> u32 {
    x.to_bits()
}

#[test]
fn semantic_connect_and_neighbors() {
    let mut g = MemoryGraph::new();
    g.connect(1, 2, "related".into(), w(1.0), EdgeKind::Semantic);
    g.connect(1, 3, "caused".into(), w(0.8), EdgeKind::Semantic);

    let n = g.neighbors(1);
    assert!(n.contains(2));
    assert!(n.contains(3));
    assert_eq!(n.len(), 2);

    // Bidirectional
    assert!(g.neighbors(2).contains(1));
}

#[test]
fn causal_edge_is_one_way() {
    let mut g = MemoryGraph::new();
    g.connect(1, 2, "caused".into(), w(1.0), EdgeKind::Causal);

    // from (1) can see to (2)
    assert!(g.neighbors(1).contains(2));

    // to (2) CANNOT see from (1) — arrow of time
    assert!(!g.neighbors(2).contains(1));

    // But 2 has 1 as a predecessor (for inspection, not traversal)
    assert!(g.predecessors(2).contains(1));
    assert!(g.predecessors(1).is_empty());
}

#[test]
fn disconnect_semantic() {
    let mut g = MemoryGraph::new();
    g.connect(1, 2, "x".into(), w(1.0), EdgeKind::Semantic);
    assert_eq!(g.edge_count(), 1);

    g.disconnect(1, 2);
    assert_eq!(g.edge_count(), 0);
    assert!(g.neighbors(1).is_empty());
    assert!(g.neighbors(2).is_empty());
}

#[test]
fn disconnect_causal() {
    let mut g = MemoryGraph::new();
    g.connect(1, 2, "caused".into(), w(1.0), EdgeKind::Causal);

    g.disconnect(1, 2);
    assert_eq!(g.edge_count(), 0);
    assert!(g.neighbors(1).is_empty());
    assert!(g.predecessors(2).is_empty());
}

#[test]
fn remove_node_cascades() {
    let mut g = MemoryGraph::new();
    g.connect(1, 2, "a".into(), w(1.0), EdgeKind::Semantic);
    g.connect(1, 3, "b".into(), w(1.0), EdgeKind::Causal);
    g.connect(2, 3, "c".into(), w(1.0), EdgeKind::Semantic);

    g.remove_node(1);
    assert_eq!(g.neighbors(1).len(), 0);
    assert!(!g.neighbors(2).contains(1));
    assert!(g.predecessors(3).is_empty()); // causal predecessor 1 removed
    // Edge between 2 and 3 survives
    assert!(g.neighbors(2).contains(3));
    assert_eq!(g.edge_count(), 1);
}

#[test]
fn degree_centrality() {
    let mut g = MemoryGraph::new();
    g.connect(1, 2, "a".into(), w(1.0), EdgeKind::Semantic);
    g.connect(1, 3, "b".into(), w(1.0), EdgeKind::Semantic);
    g.connect(1, 4, "c".into(), w(1.0), EdgeKind::Causal);

    assert_eq!(g.degree(1), 3); // all three forward
    assert_eq!(g.degree(2), 1); // semantic back to 1
    assert_eq!(g.degree(4), 0); // causal target — no forward edges
}

#[test]
fn two_hop_respects_direction() {
    let mut g = MemoryGraph::new();
    g.connect(1, 2, "a".into(), w(1.0), EdgeKind::Causal);
    g.connect(2, 3, "b".into(), w(1.0), EdgeKind::Causal);
    g.connect(3, 4, "c".into(), w(1.0), EdgeKind::Causal);

    let hood = g.neighborhood_2(1);
    assert!(hood.contains(2)); // 1-hop forward
    assert!(hood.contains(3)); // 2-hop forward
    assert!(!hood.contains(4)); // 3-hop, out of range
    assert!(!hood.contains(1)); // self excluded

    // Node 3 can NOT see backward to 1
    let hood3 = g.neighborhood_2(3);
    assert!(hood3.contains(4)); // forward
    assert!(!hood3.contains(2)); // causal predecessor — invisible
    assert!(!hood3.contains(1)); // causal predecessor — invisible
}

#[test]
fn edge_lookup() {
    let mut g = MemoryGraph::new();
    g.connect(5, 3, "link".into(), w(0.7), EdgeKind::Semantic);

    // Canonical key should work regardless of arg order
    let e = g.edge(3, 5).unwrap();
    assert_eq!(e.label, "link");
    assert!((f32::from_bits(e.weight) - 0.7).abs() < f32::EPSILON);
    assert_eq!(e.kind, EdgeKind::Semantic);
}

#[test]
fn causal_edge_preserves_direction_in_edge() {
    let mut g = MemoryGraph::new();
    g.connect(5, 3, "caused".into(), w(1.0), EdgeKind::Causal);

    let e = g.edge(3, 5).unwrap();
    assert_eq!(e.from, 5);
    assert_eq!(e.to, 3);
    assert_eq!(e.kind, EdgeKind::Causal);
}

#[test]
fn persistence_round_trip() {
    let mut g = MemoryGraph::new();
    g.connect(1, 2, "a".into(), w(1.0), EdgeKind::Semantic);
    g.connect(3, 4, "b".into(), w(0.5), EdgeKind::Causal);

    let edges = g.all_edges();
    let mut g2 = MemoryGraph::new();
    g2.load_edges(edges);

    assert_eq!(g2.edge_count(), 2);
    assert!(g2.neighbors(1).contains(2));
    assert!(g2.neighbors(2).contains(1)); // semantic — bidirectional
    assert!(g2.neighbors(3).contains(4));
    assert!(!g2.neighbors(4).contains(3)); // causal — one-way
    assert!(g2.predecessors(4).contains(3));
}

#[test]
fn mixed_edges_on_same_nodes() {
    // Can't have two edges between the same pair (canonical key collision).
    // The second connect overwrites the first.
    let mut g = MemoryGraph::new();
    g.connect(1, 2, "semantic".into(), w(1.0), EdgeKind::Semantic);
    assert!(g.neighbors(2).contains(1)); // bidirectional

    // Overwrite with causal — should update adjacency
    g.connect(1, 2, "caused".into(), w(1.0), EdgeKind::Causal);
    let e = g.edge(1, 2).unwrap();
    assert_eq!(e.kind, EdgeKind::Causal);
}

#[test]
fn causal_overwrite_takes_the_back_link_away() {
    let mut g = MemoryGraph::new();
    g.connect(1, 2, "semantic".into(), w(1.0), EdgeKind::Semantic);
    g.connect(1, 2, "caused".into(), w(1.0), EdgeKind::Causal);
    assert_eq!(g.edge_count(), 1);
    assert!(g.neighbors(1).contains(2));
    assert!(!g.neighbors(2).contains(1));
    assert!(g.predecessors(2).contains(1));
    // and back: a semantic overwrite drops the predecessor record
    g.connect(2, 1, "again".into(), w(1.0), EdgeKind::Semantic);
    assert!(g.neighbors(1).contains(2) && g.neighbors(2).contains(1));
    assert!(g.predecessors(2).is_empty());
    // a reversed causal overwrite leaves only the new arrow
    g.connect(2, 1, "back".into(), w(1.0), EdgeKind::Causal);
    assert!(!g.neighbors(1).contains(2));
    assert!(g.neighbors(2).contains(1));
    assert!(g.predecessors(1).contains(2));
}

#[test]
fn node_count_includes_causal_targets() {
    let mut g = MemoryGraph::new();
    g.connect(1, 2, "a".into(), w(1.0), EdgeKind::Causal);
    // Node 2 only in causal_predecessors, not adjacency
    assert!(g.node_count() >= 2);
}

#[test]
fn node_count_is_exact() {
    let mut g = MemoryGraph::new();
    assert_eq!(g.node_count(), 0);
    g.connect(1, 2, "a".into(), w(1.0), EdgeKind::Causal);
    assert_eq!(g.node_count(), 2);
    g.connect(2, 3, "b".into(), w(1.0), EdgeKind::Semantic);
    assert_eq!(g.node_count(), 3);
}

#[test]
fn connect_then_disconnect_restores_empty_graph() {
    let mut g = MemoryGraph::new();
    g.connect(7, 9, "x".into(), w(0.25), EdgeKind::Causal);
    g.disconnect(9, 7);
    assert_eq!(g.edge_count(), 0);
    assert_eq!(g.node_count(), 0);
    assert!(g.edge(7, 9).is_none());
}

#[test]
fn disconnect_missing_edge_changes_nothing() {
    let mut g = MemoryGraph::new();
    g.connect(1, 2, "a".into(), w(1.0), EdgeKind::Semantic);
    g.disconnect(1, 3);
    assert_eq!(g.edge_count(), 1);
    assert!(g.neighbors(1).contains(2));
}

#[test]
fn edge_weight_round_trips_bits() {
    let mut g = MemoryGraph::new();
    g.connect(4, 4, "self".into(), w(0.3), EdgeKind::Semantic);
    let e = g.edge(4, 4).unwrap();
    assert_eq!(e.weight, 0.3f32.to_bits());
    assert!(g.neighbors(4).contains(4));
}

#[test]
fn edge_kind_default_is_semantic() {
    assert_eq!(EdgeKind::default(), EdgeKind::Semantic);
}

#[test]
fn survivor_takes_over_absorbed_neighbours() {
    let mut g = MemoryGraph::new();
    g.connect(2, 3, "link".into(), w(1.0), EdgeKind::Semantic);
    g.connect(2, 4, "cause".into(), w(1.0), EdgeKind::Causal);
    g.connect(1, 2, "near".into(), w(0.9), EdgeKind::Semantic);
    // 2 sees 3, 4 and 1; the survivor itself is skipped.
    assert_eq!(g.absorb(1, 2), 3);
    let n1 = g.neighbors(1);
    assert!(n1.contains(3) && n1.contains(4) && n1.contains(2));
    assert!(g.neighbors(3).contains(1));
    assert!(g.neighbors(4).contains(1));
    let moved = g.edge(1, 3).unwrap();
    assert_eq!(moved.label, "consolidated");
    assert_eq!(moved.kind, EdgeKind::Semantic);
    assert_eq!(moved.weight, 0.5f32.to_bits());
    let audit = g.edge(1, 2).unwrap();
    assert_eq!((audit.from, audit.to), (1, 2));
    assert_eq!(audit.label, "absorbed");
    assert_eq!(audit.kind, EdgeKind::Causal);
    assert_eq!(audit.weight, 1.0f32.to_bits());
    assert!(g.neighbors(2).is_empty());
    assert!(g.predecessors(2).contains(1));
    assert!(g.edge(2, 3).is_none());
}

#[test]
fn absorbing_an_isolated_memory_only_links_it() {
    let mut g = MemoryGraph::new();
    assert_eq!(g.absorb(7, 8), 1);
    assert!(g.neighbors(7).contains(8));
    assert!(g.neighbors(8).is_empty());
    assert_eq!(g.edge_count(), 1);
}

#[test]
fn keystone_halo_reaches_eligible_neighbours() {
    let mut g = MemoryGraph::new();
    g.connect(1, 2, "a".into(), w(1.0), EdgeKind::Semantic);
    g.connect(1, 3, "b".into(), w(1.0), EdgeKind::Causal);
    g.connect(4, 5, "c".into(), w(1.0), EdgeKind::Semantic);
    g.connect(6, 1, "d".into(), w(1.0), EdgeKind::Causal);
    // Keystones 1 and 5; 3 is not eligible; 6 points at 1 but is not its neighbour.
    let halo = g.keystone_halo(&[1, 5], &[2, 4, 6, 7]);
    assert_eq!(halo.iter().collect::<Vec<u32>>(), vec![2, 4]);
    assert!(g.keystone_halo(&[], &[2, 4]).is_empty());
}
