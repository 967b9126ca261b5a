use ferricula::skg::{next_dream_tick, sampled_pairs, still_tracked};
use ferricula::skg::TermPairKey;

#[test]
fn term_pair_key_canonical() {
    let k1 = TermPairKey::new("beta", "alpha");
    let k2 = TermPairKey::new("alpha", "beta");
    assert_eq!(k1, k2);
    assert_eq!(k1.a, "alpha");
    assert_eq!(k1.b, "beta");
}

#[test]
fn term_pair_key_prefix_orders_first() {
    let k = TermPairKey::new("alphabet", "alpha");
    assert_eq!(k.a, "alpha");
    assert_eq!(k.b, "alphabet");
    let same = TermPairKey::new("x", "x");
    assert_eq!(same.a, "x");
    assert_eq!(same.b, "x");
}

#[test]
fn term_pair_key_matches_str_order() {
    let pairs = [("ṅa", "na"), ("Zeta", "alpha"), ("é", "z"), ("", "a")];
    for (x, y) in pairs {
        let k = TermPairKey::new(x, y);
        let (a, b) = if x <= y { (x, y) } else { (y, x) };
        assert_eq!(k.a, a);
        assert_eq!(k.b, b);
    }
}

use ferricula::skg::{JaccardHistory, HISTORY_CAP};

#[test]
fn ring_buffer_push_and_wrap() {
    let mut h = JaccardHistory::default();
    for i in 0..20u64 {
        h.push(i, (i as f32 * 0.05).to_bits());
    }
    // Should wrap at 16, keeping most recent 16
    assert_eq!(h.len(), HISTORY_CAP);
    // Oldest should be tick 4 (20 - 16)
    let oldest = h.get_ordered(0).unwrap();
    assert_eq!(oldest.0, 4);
    // Newest should be tick 19
    let newest = h.get_ordered(HISTORY_CAP - 1).unwrap();
    assert_eq!(newest.0, 19);
}

#[test]
fn ring_buffer_before_wrap_keeps_order() {
    let mut h = JaccardHistory::new();
    assert_eq!(h.last_tick(), 0);
    assert!(h.get_ordered(0).is_none());
    h.push(10, 0.5f32.to_bits());
    h.push(11, 0.25f32.to_bits());
    assert_eq!(h.len(), 2);
    assert_eq!(h.get_ordered(0), Some((10, 0.5f32.to_bits())));
    assert_eq!(h.get_ordered(1), Some((11, 0.25f32.to_bits())));
    assert!(h.get_ordered(2).is_none());
    assert_eq!(h.last_tick(), 11);
}

#[test]
fn sampled_terms_meet_keystones_largest_first() {
    let mut tree = ferricula::prime_tree::PrimeTree::new();
    for m in [1, 2] {
        tree.insert("alpha", m);
    }
    for m in [3, 4, 5] {
        tree.insert("beta", m);
    }
    for m in [6, 7] {
        tree.insert("gamma", m);
    }
    tree.insert("delta", 9);
    tree.insert("eps", 1);
    let mut keys = roaring::RoaringBitmap::new();
    for k in [1, 4, 7] {
        keys.insert(k);
    }
    let all = ferricula::skg::select_sampled_terms(&tree, &keys, 10);
    assert_eq!(all, vec!["beta".to_string(), "alpha".to_string(), "gamma".to_string(), "eps".to_string()]);
    let top = ferricula::skg::select_sampled_terms(&tree, &keys, 2);
    assert_eq!(top, vec!["beta".to_string(), "alpha".to_string()]);
    let none = ferricula::skg::select_sampled_terms(&tree, &roaring::RoaringBitmap::new(), 10);
    assert!(none.is_empty());
}

#[test]
fn update_bookkeeping() {
    assert_eq!(next_dream_tick(0), 1);
    assert_eq!(next_dream_tick(u64::MAX), u64::MAX);
    assert!(still_tracked(40, 8));
    assert!(!still_tracked(41, 8));
    assert!(still_tracked(3, 10));
    assert_eq!(sampled_pairs(0), vec![]);
    assert_eq!(sampled_pairs(1), vec![]);
    assert_eq!(sampled_pairs(3), vec![(0, 1), (0, 2), (1, 2)]);
    assert_eq!(sampled_pairs(20).len(), 190);
}

#[test]
fn pair_touches_its_terms() {
    let k = TermPairKey::new("weber", "newton");
    assert!(k.touches("weber"));
    assert!(k.touches("newton"));
    assert!(!k.touches("bracket"));
    assert!(!k.touches("Weber"));
}
