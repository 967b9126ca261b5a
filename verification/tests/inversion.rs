use ferricula::inversion::{parse_url, word_overlap};

#[test]
fn parse_url_http() {
    let p = parse_url("http://localhost:8080").unwrap();
    assert_eq!(p.host, "localhost");
    assert_eq!(p.port, 8080);
    assert!(!p.tls);
}

#[test]
fn parse_url_http_no_port() {
    let p = parse_url("http://localhost").unwrap();
    assert_eq!(p.host, "localhost");
    assert_eq!(p.port, 8080);
    assert!(!p.tls);
}

#[test]
fn parse_url_https() {
    let p = parse_url("https://shivvr.nuts.services").unwrap();
    assert_eq!(p.host, "shivvr.nuts.services");
    assert_eq!(p.port, 443);
    assert!(p.tls);
}

#[test]
fn parse_url_https_with_port() {
    let p = parse_url("https://example.com:8443").unwrap();
    assert_eq!(p.host, "example.com");
    assert_eq!(p.port, 8443);
    assert!(p.tls);
}

#[test]
fn parse_url_rejects_other_schemes() {
    assert!(parse_url("ftp://example.com").is_none());
}

/// Jaccard similarity of the word sets, from the counts the library gives.
fn similarity(a: &str, b: &str) -> f32 {
    let (common, either) = word_overlap(a, b);
    if either == 0 {
        1.0
    } else {
        common as f32 / either as f32
    }
}

#[test]
fn text_similarity_identical() {
    assert!((similarity("hello world", "hello world") - 1.0).abs() < f32::EPSILON);
}

#[test]
fn text_similarity_disjoint() {
    assert!((similarity("hello world", "foo bar") - 0.0).abs() < f32::EPSILON);
}

#[test]
fn text_similarity_partial() {
    let sim = similarity("hello world", "hello there");
    assert!((sim - 1.0 / 3.0).abs() < 0.01);
}

#[test]
fn text_similarity_empty() {
    assert!((similarity("", "") - 1.0).abs() < f32::EPSILON);
    assert!((similarity("hello", "") - 0.0).abs() < f32::EPSILON);
}

#[test]
fn text_similarity_ignores_punctuation() {
    let sim = similarity("hello, world!", "hello world");
    assert!((sim - 1.0).abs() < f32::EPSILON);
}

#[test]
fn word_overlap_counts_shared_and_all_words() {
    assert_eq!(word_overlap("hello world", "hello there"), (1, 3));
    assert_eq!(word_overlap("a a b", "b b c"), (1, 3));
    assert_eq!(word_overlap("", ""), (0, 0));
    assert_eq!(word_overlap("...", "hello"), (0, 1));
    assert_eq!(word_overlap("(x) y.", "x, y!"), (2, 2));
    assert_eq!(word_overlap("it's fine", "it's"), (1, 2));
}
