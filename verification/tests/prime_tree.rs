use ferricula::prime_tree::PrimeTree;

#[test]
fn insert_creates_root_node() {
    let mut tree = PrimeTree::new();
    tree.insert("weather", 1);
    assert_eq!(tree.root_count(), 1);
    assert_eq!(tree.total_members(), 1);
}

#[test]
fn multiple_terms_create_multiple_roots() {
    let mut tree = PrimeTree::new();
    tree.insert("weather", 1);
    tree.insert("politics", 2);
    tree.insert("weather", 3);
    assert_eq!(tree.root_count(), 2);
    assert_eq!(tree.total_members(), 3);
}

#[test]
fn search_finds_members() {
    let mut tree = PrimeTree::new();
    tree.insert("weather", 1);
    tree.insert("weather", 2);
    tree.insert("politics", 3);

    let result = tree.search_exact("weather");
    assert!(result.contains(1));
    assert!(result.contains(2));
    assert!(!result.contains(3));
}

#[test]
fn split_distributes_members() {
    let mut tree = PrimeTree::new();
    // Prime at depth 0 is 2 — insert 3 members to trigger split
    tree.insert("topic", 1);
    tree.insert("topic", 2);
    tree.insert("topic", 3);

    // After auto-split, root should have children
    let root_id = tree.find_root_for_term("topic").unwrap();
    let root = tree.node(root_id).unwrap();
    assert!(!root.children.is_empty() || root.members.len() <= root.prime);

    // All members should still be findable
    let all = tree.collect_members(root_id);
    assert!(all.contains(1));
    assert!(all.contains(2));
    assert!(all.contains(3));
}

#[test]
fn merge_collapses_children() {
    let mut tree = PrimeTree::new();
    for i in 1..=5 {
        tree.insert("topic", i);
    }

    let root_id = tree.find_root_for_term("topic").unwrap();
    let before_nodes = tree.node_count();

    tree.merge(root_id);

    // After merge, should have fewer nodes
    assert!(tree.node_count() <= before_nodes);

    // All members preserved
    let root = tree.node(root_id).unwrap();
    assert!(root.children.is_empty());
    assert_eq!(root.members.len(), 5);
}

#[test]
fn remove_member_cleans_up() {
    let mut tree = PrimeTree::new();
    tree.insert("topic", 1);
    tree.insert("topic", 2);
    assert_eq!(tree.total_members(), 2);

    tree.remove_member(1);
    assert_eq!(tree.total_members(), 1);
    assert!(!tree.search_exact("topic").contains(1));
}

#[test]
fn terms_lists_root_terms() {
    let mut tree = PrimeTree::new();
    tree.insert("alpha", 1);
    tree.insert("beta", 2);
    tree.insert("gamma", 3);

    let mut terms = tree.terms();
    terms.sort();
    assert_eq!(terms, vec!["alpha", "beta", "gamma"]);
}

#[test]
fn prime_tree_snapshot_round_trip() {
    let mut tree = PrimeTree::new();
    tree.insert("x", 1);
    tree.insert("y", 2);
    tree.insert("x", 3);

    let snap = tree.snapshot();
    let mut tree2 = PrimeTree::new();
    tree2.load_snapshot(snap);

    assert_eq!(tree2.total_members(), 3);
    assert_eq!(tree2.root_count(), tree.root_count());
}

#[test]
fn split_children_named_by_bucket() {
    let mut tree = PrimeTree::new();
    let root = tree.insert("topic", 1);
    tree.insert("topic", 2);
    tree.insert("topic", 3);
    // depth-1 prime is 3: ids 1, 2, 3 fall in buckets 1, 2, 0 (ascending: 0, 1, 2)
    let node = tree.node(root).unwrap();
    assert_eq!(node.members.len(), 0);
    assert_eq!(node.children.len(), 3);
    let names: Vec<String> = node.children.iter().map(|c| tree.node(*c).unwrap().term.clone()).collect();
    assert_eq!(names, vec!["topic:0", "topic:1", "topic:2"]);
    let c0 = tree.node(node.children[0]).unwrap();
    assert!(c0.members.contains(3));
    assert_eq!(c0.depth, 1);
    assert_eq!(c0.prime, 3);
    // a later insert is routed to its bucket's child
    tree.insert("topic", 4);
    let c1 = tree.node(tree.node(root).unwrap().children[1]).unwrap();
    assert!(c1.members.contains(4));
    assert!(tree.is_well_formed());
}

#[test]
fn prefix_search_reaches_children() {
    let mut tree = PrimeTree::new();
    for i in 1..=3 {
        tree.insert("topic", i);
    }
    tree.insert("other", 9);
    let found = tree.search("topic");
    assert_eq!(found.len(), 3);
    assert!(tree.search("nothing").is_empty());
}

#[test]
fn remove_member_prunes_empty_roots() {
    let mut tree = PrimeTree::new();
    tree.insert("solo", 7);
    tree.remove_member(7);
    assert_eq!(tree.node_count(), 0);
    assert_eq!(tree.root_count(), 0);
    assert!(tree.terms().is_empty());
}
