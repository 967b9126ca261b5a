use ferricula::model::{largest_id, slugify, slugify_lowercased, MemoryRef};

#[test]
fn memory_ref_default_is_empty() {
    assert!(MemoryRef::default().is_empty());
    let r = MemoryRef { page: Some(3), ..Default::default() };
    assert!(!r.is_empty());
}

#[test]
fn memory_ref_tags_in_order_with_chapter_id() {
    let r = MemoryRef {
        book: Some("The Count of Monte Cristo".into()),
        author: Some("Dumas".into()),
        volume: None,
        chapter: Some(5),
        page: Some(120),
        section: None,
        url: None,
        filename: Some("mc.txt".into()),
    };
    let tags = r.to_tags();
    let expected: Vec<(String, String)> = vec![
        ("book".into(), "The Count of Monte Cristo".into()),
        ("author".into(), "Dumas".into()),
        ("chapter".into(), "5".into()),
        ("chapter_id".into(), "the_count_of_monte_cristo_chapter_5".into()),
        ("page".into(), "120".into()),
        ("filename".into(), "mc.txt".into()),
    ];
    assert_eq!(tags, expected);
}

#[test]
fn slugify_collapses_separators() {
    assert_eq!(slugify("  Hello, World!! 42 "), "hello_world_42");
    assert_eq!(slugify("___"), "");
}

#[test]
fn lowercase_slug() {
    assert_eq!(slugify_lowercased("the art of war: vol. 2"), "the_art_of_war_vol_2");
    assert_eq!(slugify_lowercased("--"), "");
    assert_eq!(slugify("The Art of War: Vol. 2"), slugify_lowercased("the art of war: vol. 2"));
}

#[test]
fn largest_row_id() {
    assert_eq!(largest_id(&[]), 0);
    assert_eq!(largest_id(&[3, 17, 5]), 17);
    assert_eq!(largest_id(&[4]), 4);
}
