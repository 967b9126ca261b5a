use ferricula::tag_index::{DimMismatch, TagIndex};

fn tags(pairs: &[(&str, &str)]) -> Vec<(String, String)> {
    pairs.iter().map(|(f, v)| (f.to_string(), v.to_string())).collect()
}

fn ids(b: &roaring::RoaringBitmap) -> Vec<u32> {
    b.iter().collect()
}

fn three_rows() -> TagIndex {
    let mut idx = TagIndex::new();
    idx.upsert(1, 3, None, &tags(&[("region", "us"), ("tier", "gold")])).unwrap();
    idx.upsert(2, 3, None, &tags(&[("region", "us"), ("tier", "silver")])).unwrap();
    idx.upsert(3, 3, None, &tags(&[("region", "eu"), ("tier", "gold")])).unwrap();
    idx
}

#[test]
fn tag_eq_finds_rows_by_value() {
    let idx = three_rows();
    assert_eq!(ids(&idx.bitmap_for_tag_eq("region", "us")), vec![1, 2]);
    assert_eq!(ids(&idx.bitmap_for_tag_eq("tier", "gold")), vec![1, 3]);
    assert_eq!(ids(&idx.bitmap_for_tag_eq("REGION", "eu")), vec![3]);
    assert!(idx.bitmap_for_tag_eq("region", "US").is_empty());
    assert!(idx.bitmap_for_tag_eq("color", "red").is_empty());
    assert_eq!(ids(&idx.all_bitmap()), vec![1, 2, 3]);
}

#[test]
fn field_names_are_lowercased_on_insert() {
    let mut idx = TagIndex::new();
    idx.upsert(7, 2, None, &tags(&[("Region", "us")])).unwrap();
    assert_eq!(ids(&idx.bitmap_for_tag_eq("region", "us")), vec![7]);
}

#[test]
fn upsert_replaces_previous_tags() {
    let mut idx = three_rows();
    let old = tags(&[("region", "us"), ("tier", "gold")]);
    idx.upsert(1, 3, Some(&old), &tags(&[("region", "eu"), ("tier", "gold")])).unwrap();
    assert_eq!(ids(&idx.bitmap_for_tag_eq("region", "us")), vec![2]);
    assert_eq!(ids(&idx.bitmap_for_tag_eq("region", "eu")), vec![1, 3]);
    assert_eq!(ids(&idx.all_bitmap()), vec![1, 2, 3]);
}

#[test]
fn delete_drops_empty_values_and_fields() {
    let mut idx = three_rows();
    idx.delete(3, &tags(&[("region", "eu"), ("tier", "gold")]));
    assert!(idx.bitmap_for_tag_eq("region", "eu").is_empty());
    assert_eq!(idx.distinct_tag_values("region"), vec!["us".to_string()]);
    assert_eq!(ids(&idx.all_bitmap()), vec![1, 2]);
    idx.delete(1, &tags(&[("region", "us"), ("tier", "gold")]));
    idx.delete(2, &tags(&[("region", "us"), ("tier", "silver")]));
    assert!(idx.distinct_tag_values("region").is_empty());
    assert!(idx.distinct_tag_values("tier").is_empty());
    assert!(idx.all_bitmap().is_empty());
}

#[test]
fn vector_dimension_is_fixed_by_first_row() {
    let mut idx = three_rows();
    let err = idx.upsert(4, 2, None, &tags(&[("region", "ap")])).unwrap_err();
    assert_eq!(err, DimMismatch::Mismatch { expected: 3, got: 2 });
    assert!(idx.bitmap_for_tag_eq("region", "ap").is_empty());
    assert_eq!(ids(&idx.all_bitmap()), vec![1, 2, 3]);
}

#[test]
fn distinct_values_are_sorted() {
    let mut idx = TagIndex::new();
    idx.upsert(1, 1, None, &tags(&[("book", "zeta")])).unwrap();
    idx.upsert(2, 1, None, &tags(&[("book", "alpha")])).unwrap();
    idx.upsert(3, 1, None, &tags(&[("book", "Mid")])).unwrap();
    idx.upsert(4, 1, None, &tags(&[("book", "alpha")])).unwrap();
    assert_eq!(
        idx.distinct_tag_values("BOOK"),
        vec!["Mid".to_string(), "alpha".to_string(), "zeta".to_string()]
    );
    assert!(idx.distinct_tag_values("missing").is_empty());
}

#[test]
fn tag_range_reads_numbers_and_skips_text() {
    let mut idx = TagIndex::new();
    idx.upsert(1, 1, None, &tags(&[("page", "3")])).unwrap();
    idx.upsert(2, 1, None, &tags(&[("page", "10")])).unwrap();
    idx.upsert(3, 1, None, &tags(&[("page", "25")])).unwrap();
    idx.upsert(4, 1, None, &tags(&[("page", "intro")])).unwrap();
    idx.upsert(5, 1, None, &tags(&[("page", "+7")])).unwrap();
    assert_eq!(ids(&idx.bitmap_for_tag_range("page", Some(3), Some(10), true, true)), vec![1, 2, 5]);
    assert_eq!(ids(&idx.bitmap_for_tag_range("page", Some(3), Some(10), false, false)), vec![5]);
    assert_eq!(ids(&idx.bitmap_for_tag_range("page", None, None, true, true)), vec![1, 2, 3, 5]);
    assert_eq!(ids(&idx.bitmap_for_tag_range("page", Some(10), None, true, false)), vec![2, 3]);
    assert!(idx.bitmap_for_tag_range("chapter", None, None, true, true).is_empty());
}

#[test]
fn delete_after_upsert_restores_the_index() {
    let mut idx = three_rows();
    let fields = ["region", "tier", "color"];
    let before: Vec<(Vec<String>, Vec<Vec<u32>>)> = fields
        .iter()
        .map(|f| {
            let vals = idx.distinct_tag_values(f);
            let ids_per = vals.iter().map(|v| ids(&idx.bitmap_for_tag_eq(f, v))).collect();
            (vals, ids_per)
        })
        .collect();
    let new_tags = tags(&[("region", "ap"), ("tier", "gold"), ("Color", "red")]);
    idx.upsert(9, 3, None, &new_tags).unwrap();
    assert_eq!(ids(&idx.bitmap_for_tag_eq("color", "red")), vec![9]);
    idx.delete(9, &new_tags);
    let after: Vec<(Vec<String>, Vec<Vec<u32>>)> = fields
        .iter()
        .map(|f| {
            let vals = idx.distinct_tag_values(f);
            let ids_per = vals.iter().map(|v| ids(&idx.bitmap_for_tag_eq(f, v))).collect();
            (vals, ids_per)
        })
        .collect();
    assert_eq!(after, before);
    assert_eq!(ids(&idx.all_bitmap()), vec![1, 2, 3]);
}
