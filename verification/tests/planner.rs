use ferricula::planner::{is_sql, Planner, PlannerError, RewriteStep};

fn done(step: RewriteStep) -> Result<String, PlannerError> {
    match step {
        RewriteStep::Done(r) => r,
        RewriteStep::AskLlm { prompt } => panic!("unexpected language-model step for {prompt}"),
    }
}

#[test]
fn passthrough_sql() {
    let p = Planner::new(Some("test".into()));
    let r = done(p.rewrite_query("SELECT id FROM docs WHERE text = 'hello'")).unwrap();
    assert_eq!(r, "SELECT id FROM docs WHERE text = 'hello'");
}

#[test]
fn passthrough_with() {
    let p = Planner::new(Some("test".into()));
    let r = done(p.rewrite_query("WITH x AS (SELECT 1) SELECT * FROM x")).unwrap();
    assert_eq!(r, "WITH x AS (SELECT 1) SELECT * FROM x");
}

#[test]
fn empty_query() {
    let p = Planner::new(Some("test".into()));
    assert!(done(p.rewrite_query("")).is_err());
    assert!(done(p.rewrite_query("   ")).is_err());
}

#[test]
fn vector_literal() {
    let p = Planner::new(None);
    let r = done(p.rewrite_query("[0.1,0.2,0.3]")).unwrap();
    assert!(r.contains("vector_topk_cosine"));
}

#[test]
fn tag_query() {
    let p = Planner::new(None);
    let r = done(p.rewrite_query("channel = 'hearing'")).unwrap();
    assert_eq!(r, "SELECT id FROM docs WHERE channel = 'hearing'");
}

#[test]
fn boolean_operators() {
    let p = Planner::new(None);
    let r = done(p.rewrite_query("channel = 'hearing' AND text = 'test'")).unwrap();
    assert!(r.starts_with("SELECT id FROM docs WHERE"));
}

#[test]
fn freeform_text() {
    let p = Planner::new(None);
    let r = done(p.rewrite_query("memories about testing")).unwrap();
    assert!(r.contains("embed('memories about testing')"));
}

#[test]
fn no_key_passthrough() {
    let p = Planner::new(None);
    let r = done(p.rewrite_query("hello world")).unwrap();
    assert!(r.contains("vector_topk_cosine(embed("));
}

#[test]
fn escapes_quotes() {
    let p = Planner::new(None);
    let r = done(p.rewrite_query("it's a test")).unwrap();
    assert!(r.contains("it''s a test"));
}

#[test]
fn sync_rewrite_passthrough() {
    let p = Planner::new(Some("test".into()));
    let r = p.rewrite_query_sync("SELECT id FROM docs WHERE text = 'hello'").unwrap();
    assert_eq!(r, "SELECT id FROM docs WHERE text = 'hello'");
}

#[test]
fn needs_llm_detection() {
    let p = Planner::new(Some("test".into()));
    assert!(!p.needs_llm("SELECT id FROM docs WHERE text = 'hello'"));
    assert!(p.needs_llm("memories about testing"));

    let p_nokey = Planner::new(None);
    assert!(!p_nokey.needs_llm("memories about testing"));
}

#[test]
fn keyed_freeform_asks_language_model() {
    let p = Planner::new(Some("k".into()));
    match p.rewrite_query("  memories about testing ") {
        RewriteStep::AskLlm { prompt } => assert_eq!(prompt, "memories about testing"),
        RewriteStep::Done(_) => panic!("expected a language-model step"),
    }
}

#[test]
fn empty_query_error_message() {
    let p = Planner::new(None);
    let e = done(p.rewrite_query("")).unwrap_err();
    assert_eq!(e, PlannerError::EmptyQuery);
    assert_eq!(e.message(), "empty query");
}

#[test]
fn lowercase_sql_is_recognised() {
    assert!(is_sql("select id from docs"));
    assert!(is_sql("with x as (select 1) select * from x"));
    assert!(!is_sql("SELECT id FROM docs"));
    assert!(!is_sql("find the memories about rain"));
    assert!(!is_sql(""));
}
