use ferricula::memory::LifecycleState;
use ferricula::predicate::{fact_column_matches, CompareOp, RecordFacts};
use ferricula::query::{
    eval_filter, execute_statements, Filter, LiteralError, Operand, QueryBody, QueryError, SetOperator, Statement,
};
use ferricula::sql::{execute_sql, leaf_requests, literal_text, parse_sql, LeafRequest};
use ferricula::tag_index::TagIndex;
use roaring::RoaringBitmap;

fn tags(pairs: &[(&str, &str)]) -> Vec<(String, String)> {
    pairs.iter().map(|(f, v)| (f.to_string(), v.to_string())).collect()
}

fn col(name: &str) -> Operand {
    Operand { column: Some(name.to_string()), literal: Err(LiteralError::NotLiteral) }
}

fn lit(text: &str) -> Operand {
    Operand { column: None, literal: Ok(text.to_string()) }
}

fn cmp(field: &str, op: CompareOp, value: &str) -> Filter {
    Filter::Compare { left: col(field), op, right: lit(value), computed: None }
}

fn select(filter: Option<Filter>) -> QueryBody {
    QueryBody::Select { table: Some("docs".to_string()), selection: filter }
}

fn run(idx: &TagIndex, body: QueryBody) -> Result<Vec<u32>, QueryError> {
    execute_statements(idx, vec![Statement::Query(body)])
}

fn region_tier(rows: &[(u32, &str, &str)]) -> TagIndex {
    let mut idx = TagIndex::new();
    for (id, region, tier) in rows {
        idx.upsert(*id, 3, None, &tags(&[("region", region), ("tier", tier)])).unwrap();
    }
    idx
}

#[test]
fn set_ops_query_executes() {
    let idx = region_tier(&[(1, "us", "gold"), (2, "us", "silver"), (3, "eu", "gold")]);
    let sql = "SELECT id FROM docs WHERE region='us' INTERSECT SELECT id FROM docs WHERE tier='gold'";
    assert_eq!(execute_sql(&idx, sql, vec![]).unwrap(), vec![1]);
}

#[test]
fn existing_tag_queries_still_work() {
    let idx = region_tier(&[(1, "us", "gold"), (2, "eu", "silver")]);
    let sql = "SELECT id FROM docs WHERE region = 'us'";
    assert_eq!(execute_sql(&idx, sql, vec![]).unwrap(), vec![1]);
}

#[test]
fn set_operations_in_sql_text() {
    let idx = region_tier(&[(1, "us", "gold"), (2, "us", "silver"), (3, "eu", "gold")]);
    let union = "SELECT id FROM docs WHERE region = 'eu' UNION SELECT id FROM docs WHERE tier = 'silver'";
    assert_eq!(execute_sql(&idx, union, vec![]).unwrap(), vec![2, 3]);
    let except = "SELECT id FROM docs EXCEPT SELECT id FROM docs WHERE tier = 'gold'";
    assert_eq!(execute_sql(&idx, except, vec![]).unwrap(), vec![2]);
    let nested = "SELECT id FROM docs WHERE (region = 'us' OR tier = 'gold') AND NOT region = 'eu'";
    assert_eq!(execute_sql(&idx, nested, vec![]).unwrap(), vec![1, 2]);
}

#[test]
fn sql_text_errors() {
    let idx = region_tier(&[(1, "us", "gold")]);
    assert!(matches!(execute_sql(&idx, "SELEC id FROM", vec![]), Err(QueryError::Parse(_))));
    assert_eq!(
        execute_sql(&idx, "SELECT id FROM docs; SELECT id FROM docs", vec![]),
        Err(QueryError::NotOneStatement)
    );
    assert_eq!(execute_sql(&idx, "DROP TABLE docs", vec![]), Err(QueryError::NotAQuery));
    assert_eq!(
        execute_sql(&idx, "SELECT id FROM rows", vec![]),
        Err(QueryError::UnknownTable { table: "rows".to_string() })
    );
    assert_eq!(
        execute_sql(&idx, "SELECT id FROM docs WHERE page > 'ten'", vec![]),
        Err(QueryError::RefFieldNotInteger { field: "page".to_string(), value: "ten".to_string() })
    );
    assert_eq!(
        execute_sql(&idx, "SELECT id FROM docs WHERE page + 1", vec![]),
        Err(QueryError::Unsupported("unsupported binary operator in WHERE: Plus".to_string()))
    );
    assert!(matches!(
        execute_sql(&idx, "SELECT id FROM docs WHERE region LIKE 'u%'", vec![]),
        Err(QueryError::Unsupported(m)) if m.starts_with("unsupported WHERE expression in scaffold: ")
    ));
}

#[test]
fn leaves_are_listed_in_text_order() {
    let parsed = parse_sql(
        "SELECT id FROM docs WHERE state = 'Active' AND vector_topk_cosine('[1,0,0]', 2) AND region = 'us' OR keystone = true",
    )
    .unwrap();
    let requests = leaf_requests(&parsed);
    assert_eq!(requests.len(), 3);
    match &requests[0] {
        LeafRequest::Virtual { column, op, rhs } => {
            assert_eq!(column, "state");
            assert_eq!(*op, CompareOp::Eq);
            assert_eq!(rhs, "Active");
        }
        _ => panic!("expected a virtual column first"),
    }
    match &requests[1] {
        LeafRequest::Function { name, args } => {
            assert_eq!(name, "vector_topk_cosine");
            assert_eq!(args.len(), 2);
            assert_eq!(literal_text(args[0]), Ok("[1,0,0]".to_string()));
            assert_eq!(literal_text(args[1]), Ok("2".to_string()));
        }
        _ => panic!("expected the vector search second"),
    }
    match &requests[2] {
        LeafRequest::Virtual { column, rhs, .. } => {
            assert_eq!(column, "keystone");
            assert_eq!(rhs, "true");
        }
        _ => panic!("expected a virtual column third"),
    }
}

// --- Virtual columns and vector searches: the leaves are computed here as
// --- the application computes them, and the library answers the query.

struct Record {
    id: u32,
    facts: RecordFacts,
    fidelity: f32,
    vector: Vec<f32>,
}

fn record(id: u32, state: LifecycleState, keystone: bool, fidelity: f32) -> Record {
    Record {
        id,
        facts: RecordFacts {
            state,
            keystone,
            recall_count: 0,
            created_at: 0,
            last_recalled: 0,
            staleness: 1_700_000_000,
            age: 1_700_000_000,
            consolidation_depth: 0,
            emotion: None,
        },
        fidelity,
        vector: vec![1.0, 0.0, 0.0],
    }
}

fn compare_f32(lhs: f32, op: CompareOp, rhs: f32) -> bool {
    match op {
        CompareOp::Eq => (lhs - rhs).abs() < f32::EPSILON,
        CompareOp::NotEq => (lhs - rhs).abs() >= f32::EPSILON,
        CompareOp::Lt => lhs < rhs,
        CompareOp::Gt => lhs > rhs,
        CompareOp::LtEq => lhs <= rhs,
        CompareOp::GtEq => lhs >= rhs,
    }
}

fn cosine(a: &[f32], b: &[f32]) -> f32 {
    let dot: f32 = a.iter().zip(b).map(|(x, y)| x * y).sum();
    let na: f32 = a.iter().map(|x| x * x).sum::<f32>().sqrt();
    let nb: f32 = b.iter().map(|x| x * x).sum::<f32>().sqrt();
    dot / (na * nb)
}

fn leaves(sql: &str, store: Option<&[Record]>) -> Vec<Result<RoaringBitmap, String>> {
    let parsed = parse_sql(sql).unwrap();
    leaf_requests(&parsed)
        .into_iter()
        .map(|request| match request {
            LeafRequest::Virtual { column, op, rhs } => {
                let records = store.ok_or_else(|| format!("virtual column `{column}` requires memory store"))?;
                let mut ids = RoaringBitmap::new();
                for r in records {
                    let hit = match fact_column_matches(&column, op, &rhs, &r.facts) {
                        Ok(Some(m)) => m,
                        Ok(None) => compare_f32(r.fidelity, op, rhs.parse().unwrap()),
                        Err(e) => return Err(format!("{e:?}")),
                    };
                    if hit {
                        ids.insert(r.id);
                    }
                }
                Ok(ids)
            }
            LeafRequest::Function { args, .. } => {
                let records = store.unwrap();
                let text = literal_text(args[0]).unwrap();
                let query: Vec<f32> =
                    text.trim_matches(|c| c == '[' || c == ']').split(',').map(|x| x.trim().parse().unwrap()).collect();
                let k: usize = literal_text(args[1]).unwrap().parse().unwrap();
                let mut scored: Vec<(f32, u32)> = records.iter().map(|r| (cosine(&query, &r.vector), r.id)).collect();
                scored.sort_by(|a, b| b.0.partial_cmp(&a.0).unwrap());
                Ok(scored.into_iter().take(k).map(|(_, id)| id).collect())
            }
        })
        .collect()
}

fn all_gold(records: &[Record]) -> TagIndex {
    let rows: Vec<(u32, &str, &str)> = records.iter().map(|r| (r.id, "us", "gold")).collect();
    region_tier(&rows)
}

#[test]
fn vector_function_query_executes() {
    let mut store = vec![
        record(1, LifecycleState::Active, false, 1.0),
        record(2, LifecycleState::Active, false, 1.0),
        record(3, LifecycleState::Active, false, 1.0),
    ];
    store[1].vector = vec![0.5, 0.5, 0.0];
    store[2].vector = vec![0.0, 1.0, 0.0];
    let idx = region_tier(&[(1, "us", "gold"), (2, "us", "silver"), (3, "eu", "gold")]);
    let sql = "SELECT id FROM docs WHERE vector_topk_cosine('[1,0,0]', 2)";
    let ids = execute_sql(&idx, sql, leaves(sql, Some(&store))).unwrap();
    assert_eq!(ids.len(), 2);
    assert_eq!(ids[0], 1);
}

#[test]
fn virtual_fidelity_filter() {
    let store = vec![
        record(1, LifecycleState::Active, false, 0.9),
        record(2, LifecycleState::Active, false, 0.5),
        record(3, LifecycleState::Active, false, 0.7),
    ];
    let sql = "SELECT id FROM docs WHERE fidelity < 0.8";
    let mut ids = execute_sql(&all_gold(&store), sql, leaves(sql, Some(&store))).unwrap();
    ids.sort();
    assert_eq!(ids, vec![2, 3]);
}

#[test]
fn virtual_state_filter() {
    let store = vec![
        record(1, LifecycleState::Active, false, 1.0),
        record(2, LifecycleState::Forgiven, false, 1.0),
        record(3, LifecycleState::Archived, false, 1.0),
    ];
    let idx = all_gold(&store);
    let sql = "SELECT id FROM docs WHERE state = 'Active'";
    assert_eq!(execute_sql(&idx, sql, leaves(sql, Some(&store))).unwrap(), vec![1]);
    let sql = "SELECT id FROM docs WHERE state = 'Forgiven'";
    assert_eq!(execute_sql(&idx, sql, leaves(sql, Some(&store))).unwrap(), vec![2]);
}

#[test]
fn virtual_keystone_filter() {
    let store = vec![
        record(1, LifecycleState::Active, true, 1.0),
        record(2, LifecycleState::Active, false, 1.0),
        record(3, LifecycleState::Active, true, 1.0),
    ];
    let sql = "SELECT id FROM docs WHERE keystone = true";
    let mut ids = execute_sql(&all_gold(&store), sql, leaves(sql, Some(&store))).unwrap();
    ids.sort();
    assert_eq!(ids, vec![1, 3]);
}

#[test]
fn virtual_staleness_filter() {
    let store = vec![record(1, LifecycleState::Active, false, 1.0), record(2, LifecycleState::Active, false, 1.0)];
    let sql = "SELECT id FROM docs WHERE staleness > 0";
    let mut ids = execute_sql(&all_gold(&store), sql, leaves(sql, Some(&store))).unwrap();
    ids.sort();
    assert_eq!(ids, vec![1, 2]);
}

#[test]
fn virtual_compound_filter() {
    let store = vec![
        record(1, LifecycleState::Active, true, 0.9),
        record(2, LifecycleState::Active, false, 0.9),
        record(3, LifecycleState::Active, false, 0.3),
        record(4, LifecycleState::Active, false, 0.6),
    ];
    let sql = "SELECT id FROM docs WHERE fidelity > 0.5 AND keystone = false";
    let mut ids = execute_sql(&all_gold(&store), sql, leaves(sql, Some(&store))).unwrap();
    ids.sort();
    assert_eq!(ids, vec![2, 4]);
}

#[test]
fn virtual_mixed_with_tags() {
    let store = vec![
        record(1, LifecycleState::Active, false, 0.9),
        record(2, LifecycleState::Active, false, 0.3),
        record(3, LifecycleState::Active, false, 0.9),
    ];
    let mut idx = TagIndex::new();
    for (id, channel) in [(1, "hearing"), (2, "hearing"), (3, "vision")] {
        idx.upsert(id, 3, None, &tags(&[("channel", channel)])).unwrap();
    }
    let sql = "SELECT id FROM docs WHERE channel = 'hearing' AND fidelity > 0.5";
    assert_eq!(execute_sql(&idx, sql, leaves(sql, Some(&store))).unwrap(), vec![1]);
}

#[test]
fn virtual_column_requires_store() {
    let idx = region_tier(&[(1, "us", "gold")]);
    let sql = "SELECT id FROM docs WHERE fidelity > 0.5";
    let result = execute_sql(&idx, sql, leaves(sql, None));
    assert!(result.is_err());
    match result.unwrap_err() {
        QueryError::Computed(err) => assert!(err.contains("requires memory store"), "unexpected error: {err}"),
        other => panic!("unexpected error: {other:?}"),
    }
}

#[test]
fn union_and_except_combine_selects() {
    let idx = region_tier(&[(1, "us", "gold"), (2, "us", "silver"), (3, "eu", "gold")]);
    let union = QueryBody::SetOperation {
        left: Box::new(select(Some(cmp("region", CompareOp::Eq, "eu")))),
        op: SetOperator::Union,
        right: Box::new(select(Some(cmp("tier", CompareOp::Eq, "silver")))),
    };
    assert_eq!(run(&idx, union).unwrap(), vec![2, 3]);
    let except = QueryBody::SetOperation {
        left: Box::new(select(None)),
        op: SetOperator::Except,
        right: Box::new(select(Some(cmp("tier", CompareOp::Eq, "gold")))),
    };
    assert_eq!(run(&idx, except).unwrap(), vec![2]);
}

#[test]
fn value_may_stand_on_the_left() {
    let idx = region_tier(&[(1, "us", "gold"), (2, "eu", "gold")]);
    let f = Filter::Compare { left: lit("eu"), op: CompareOp::Eq, right: col("region"), computed: None };
    assert_eq!(run(&idx, select(Some(f))).unwrap(), vec![2]);
    let none = Filter::Compare { left: lit("eu"), op: CompareOp::Eq, right: lit("eu"), computed: None };
    assert_eq!(run(&idx, select(Some(none))), Err(QueryError::ExpectedFieldEqualsValue));
}

#[test]
fn and_or_not_follow_set_algebra() {
    let idx = region_tier(&[(1, "us", "gold"), (2, "us", "silver"), (3, "eu", "gold")]);
    let and = Filter::And(
        Box::new(cmp("region", CompareOp::Eq, "us")),
        Box::new(cmp("tier", CompareOp::Eq, "gold")),
    );
    assert_eq!(run(&idx, select(Some(and))).unwrap(), vec![1]);
    let or = Filter::Or(
        Box::new(cmp("region", CompareOp::Eq, "eu")),
        Box::new(cmp("tier", CompareOp::Eq, "silver")),
    );
    assert_eq!(run(&idx, select(Some(or))).unwrap(), vec![2, 3]);
    let not = Filter::Not(Box::new(cmp("region", CompareOp::Eq, "us")));
    assert_eq!(run(&idx, select(Some(not))).unwrap(), vec![3]);
}

fn pages() -> TagIndex {
    let mut idx = TagIndex::new();
    for (id, page, book) in [(1, "3", "a"), (2, "10", "a"), (3, "25", "b"), (4, "intro", "b")] {
        idx.upsert(id, 1, None, &tags(&[("page", page), ("book", book)])).unwrap();
    }
    idx
}

#[test]
fn ranges_on_numeric_reference_fields() {
    let idx = pages();
    assert_eq!(run(&idx, select(Some(cmp("page", CompareOp::Lt, "10")))).unwrap(), vec![1]);
    assert_eq!(run(&idx, select(Some(cmp("page", CompareOp::LtEq, "10")))).unwrap(), vec![1, 2]);
    assert_eq!(run(&idx, select(Some(cmp("page", CompareOp::Gt, "10")))).unwrap(), vec![3]);
    assert_eq!(run(&idx, select(Some(cmp("page", CompareOp::GtEq, "10")))).unwrap(), vec![2, 3]);
    assert_eq!(
        run(&idx, select(Some(cmp("page", CompareOp::Gt, "ten")))),
        Err(QueryError::RefFieldNotInteger { field: "page".to_string(), value: "ten".to_string() })
    );
    assert_eq!(
        run(&idx, select(Some(cmp("region", CompareOp::Gt, "1")))),
        Err(QueryError::ComparisonOnTag { field: "region".to_string() })
    );
}

#[test]
fn not_equal_on_reference_fields_only() {
    let idx = pages();
    assert_eq!(run(&idx, select(Some(cmp("book", CompareOp::NotEq, "a")))).unwrap(), vec![3, 4]);
    assert_eq!(run(&idx, select(Some(cmp("page", CompareOp::NotEq, "3")))).unwrap(), vec![2, 3, 4]);
    assert_eq!(
        run(&idx, select(Some(cmp("region", CompareOp::NotEq, "us")))),
        Err(QueryError::NotEqualOnTag { field: "region".to_string() })
    );
    let no_col = Filter::Compare { left: lit("a"), op: CompareOp::NotEq, right: lit("b"), computed: None };
    assert_eq!(run(&idx, select(Some(no_col))), Err(QueryError::NotEqualNeedsColumn));
}

#[test]
fn between_is_inclusive_and_may_be_negated() {
    let idx = pages();
    let between = |negated: bool, lo: &str, hi: &str| Filter::Between {
        column: Some("page".to_string()),
        negated,
        low: lit(lo),
        high: lit(hi),
    };
    assert_eq!(run(&idx, select(Some(between(false, "3", "10")))).unwrap(), vec![1, 2]);
    assert_eq!(run(&idx, select(Some(between(true, "3", "10")))).unwrap(), vec![3, 4]);
    assert_eq!(
        run(&idx, select(Some(between(false, "x", "10")))),
        Err(QueryError::BetweenLowerNotInteger { field: "page".to_string() })
    );
    let on_tag = Filter::Between { column: Some("book".to_string()), negated: false, low: lit("1"), high: lit("2") };
    assert_eq!(
        run(&idx, select(Some(on_tag))),
        Err(QueryError::BetweenOnNonNumeric { field: "book".to_string() })
    );
}

#[test]
fn virtual_columns_take_the_computed_ids() {
    let idx = region_tier(&[(1, "us", "gold"), (2, "us", "silver")]);
    let mut ids = roaring::RoaringBitmap::new();
    ids.insert(2);
    let f = Filter::Compare {
        left: col("fidelity"),
        op: CompareOp::Gt,
        right: lit("0.5"),
        computed: Some(Ok(ids)),
    };
    assert_eq!(run(&idx, select(Some(f))).unwrap(), vec![2]);
    let failed = Filter::Compare {
        left: col("fidelity"),
        op: CompareOp::Gt,
        right: lit("0.5"),
        computed: Some(Err("virtual column `fidelity` requires memory store".to_string())),
    };
    assert_eq!(
        run(&idx, select(Some(failed))),
        Err(QueryError::Computed("virtual column `fidelity` requires memory store".to_string()))
    );
}

#[test]
fn tag_jaccard_intersects_two_tags() {
    let idx = region_tier(&[(1, "us", "gold"), (2, "us", "silver"), (3, "eu", "gold")]);
    let f = Filter::Function {
        name: "tag_jaccard".to_string(),
        args: Ok(vec![lit("region"), lit("us"), lit("tier"), lit("gold")]),
        computed: None,
    };
    assert_eq!(run(&idx, select(Some(f))).unwrap(), vec![1]);
    let short = Filter::Function { name: "tag_jaccard".to_string(), args: Ok(vec![lit("region")]), computed: None };
    assert_eq!(run(&idx, select(Some(short))), Err(QueryError::TagJaccardArity));
}

#[test]
fn statement_shape_is_checked() {
    let idx = region_tier(&[(1, "us", "gold")]);
    assert_eq!(execute_statements(&idx, vec![]), Err(QueryError::NotOneStatement));
    assert_eq!(execute_statements(&idx, vec![Statement::Other]), Err(QueryError::NotAQuery));
    let other_table = QueryBody::Select { table: Some("rows".to_string()), selection: None };
    assert_eq!(run(&idx, other_table), Err(QueryError::UnknownTable { table: "rows".to_string() }));
    let no_from = QueryBody::Select { table: None, selection: None };
    assert_eq!(run(&idx, no_from), Err(QueryError::MissingFrom));
    assert_eq!(run(&idx, select(None)).unwrap(), vec![1]);
}

#[test]
fn filter_evaluates_on_the_given_universe() {
    let idx = region_tier(&[(1, "us", "gold"), (2, "us", "silver"), (3, "eu", "gold")]);
    let mut u = roaring::RoaringBitmap::new();
    u.insert(1);
    u.insert(3);
    let not = Filter::Not(Box::new(cmp("tier", CompareOp::Eq, "gold")));
    assert!(eval_filter(&idx, &u, not).unwrap().is_empty());
}

#[test]
fn same_text_and_leaves_same_answer() {
    let idx = region_tier(&[(1, "us", "gold"), (2, "us", "silver"), (3, "eu", "gold")]);
    let sql = "SELECT id FROM docs WHERE region = 'us' UNION SELECT id FROM docs WHERE tier = 'gold'";
    let a = execute_sql(&idx, sql, vec![]);
    let b = execute_sql(&idx, sql, vec![]);
    assert_eq!(a, b);
    assert_eq!(a.unwrap(), vec![1, 2, 3]);
}
