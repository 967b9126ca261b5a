//! Evaluation of the SQL subset the engine answers: `SELECT .. FROM docs
//! WHERE ..` with tag equality, numeric ranges and `!=` on reference fields,
//! `AND`/`OR`/`NOT`, `BETWEEN`, `tag_jaccard(..)`, and set operations between
//! selects.
//!
//! The application parses the SQL text and hands the statement here as a
//! [`Statement`]. Two kinds of leaves it computes itself, because they read
//! floating-point data: comparisons on the virtual columns of memory records,
//! and the vector search functions. Their ids (or error) stand in the leaf as
//! `computed`; this module decides whether a leaf is such a one.
use vstd::prelude::*;

use roaring::RoaringBitmap;

use crate::bitmap::{bitmap_members, bm_clone, bm_difference_with, bm_intersect_with, bm_to_vec, bm_union_with};
use crate::predicate::{is_virtual_column, virtual_columns, CompareOp};
use crate::tag_index::{ids_of, range_ids, values_of, TagIndex, TagMap};
use crate::text::{chars_of, parse_unsigned, parse_unsigned_spec, str_eq, str_lowercase};

verus! {

/// Why an operand is not a literal.
#[derive(Debug, Clone, Copy, PartialEq, Eq, Structural)]
pub enum LiteralError {
    /// It is some other expression.
    NotLiteral,
    /// A unary operator other than minus before a number.
    UnsupportedUnary,
    /// A literal of another kind than a string, number or boolean.
    UnsupportedValue,
}

/// An operand of a comparison.
pub struct Operand {
    /// The column it names, lowercased, where it is an identifier.
    pub column: Option<String>,
    /// Its text, where it is a string, number or boolean literal.
    pub literal: Result<String, LiteralError>,
}

/// A `WHERE` clause.
pub enum Filter {
    And(Box<Filter>, Box<Filter>),
    Or(Box<Filter>, Box<Filter>),
    Not(Box<Filter>),
    /// `left op right`; `computed` holds the ids the application found where
    /// `left` is a virtual column.
    Compare { left: Operand, op: CompareOp, right: Operand, computed: Option<Result<RoaringBitmap, String>> },
    /// `column [NOT] BETWEEN low AND high`.
    Between { column: Option<String>, negated: bool, low: Operand, high: Operand },
    /// A function call, its name lowercased; `computed` holds the ids the
    /// application found for a vector search function.
    Function {
        name: String,
        args: Result<Vec<Operand>, String>,
        computed: Option<Result<RoaringBitmap, String>>,
    },
    /// Any other expression, described.
    Unsupported(String),
}

/// How set operations combine two selects.
#[derive(Debug, Clone, Copy, PartialEq, Eq, Structural)]
pub enum SetOperator {
    Union,
    Intersect,
    Except,
}

/// The body of a query.
pub enum QueryBody {
    /// `SELECT .. FROM table WHERE selection`; `table` is the first relation
    /// of the `FROM` clause, lowercased, if there is one.
    Select { table: Option<String>, selection: Option<Filter> },
    SetOperation { left: Box<QueryBody>, op: SetOperator, right: Box<QueryBody> },
    /// Any other body, described.
    Unsupported(String),
}

/// A parsed SQL statement.
pub enum Statement {
    Query(QueryBody),
    Other,
}

/// Why a query was refused.
#[derive(Debug, Clone, PartialEq, Eq)]
pub enum QueryError {
    Literal(LiteralError),
    /// `<`, `>`, `<=`, `>=` without a column on the left.
    ComparisonNeedsColumn,
    /// `!=` without a column on the left.
    NotEqualNeedsColumn,
    /// A reference field compared with something that is not a `u32`.
    RefFieldNotInteger { field: String, value: String },
    /// An ordering comparison on an ordinary tag.
    ComparisonOnTag { field: String },
    /// `!=` on an ordinary tag.
    NotEqualOnTag { field: String },
    /// `=` with no column on either side.
    ExpectedFieldEqualsValue,
    BetweenNeedsColumn,
    BetweenOnNonNumeric { field: String },
    BetweenLowerNotInteger { field: String },
    BetweenUpperNotInteger { field: String },
    /// `tag_jaccard` takes four arguments.
    TagJaccardArity,
    /// A leaf the application computes was handed over without its result.
    NotComputed { name: String },
    /// An error the application met in a leaf it computes.
    Computed(String),
    Unsupported(String),
    MissingFrom,
    UnknownTable { table: String },
    NotOneStatement,
    NotAQuery,
    /// The SQL text did not parse: the parser's message.
    Parse(String),
}

/// The reference fields read as numbers.
pub open spec fn numeric_ref_fields() -> Seq<&'static str> {
    seq!["page", "chapter", "volume"]
}

/// The reference fields read as text.
pub open spec fn string_ref_fields() -> Seq<&'static str> {
    seq!["book", "author", "section", "url", "filename", "chapter_id"]
}

/// Whether `n` is one of the names of `list`.
pub open spec fn names(list: Seq<&'static str>, n: Seq<char>) -> bool {
    exists|i: int| 0 <= i < list.len() && #[trigger] list[i]@ == n
}

fn in_list(list: &Vec<&'static str>, name: &str) -> (r: bool)
    ensures
        r == names(list@, name@),
{
    let mut i: usize = 0;
    while i < list.len()
        invariant
            i <= list@.len(),
            forall|j: int| 0 <= j < i ==> #[trigger] list@[j]@ != name@,
        decreases list.len() - i,
    {
        if str_eq(list[i], name) {
            return true;
        }
        i = i + 1;
    }
    false
}

/// Whether `name` is a numeric reference field.
pub fn is_numeric_ref_field(name: &str) -> (r: bool)
    ensures
        r == names(numeric_ref_fields(), name@),
{
    let list: Vec<&'static str> = vec!["page", "chapter", "volume"];
    assert(list@ =~= numeric_ref_fields());
    in_list(&list, name)
}

/// Whether `name` is a text reference field.
pub fn is_string_ref_field(name: &str) -> (r: bool)
    ensures
        r == names(string_ref_fields(), name@),
{
    let list: Vec<&'static str> = vec!["book", "author", "section", "url", "filename", "chapter_id"];
    assert(list@ =~= string_ref_fields());
    in_list(&list, name)
}

/// The ids with tag `field` (lowercased) equal to `value`.
pub open spec fn tag_eq_ids(tags: TagMap, field: Seq<char>, value: Seq<char>) -> Set<u32> {
    ids_of(values_of(tags, str_lowercase(field)), value)
}

/// The ids of `u` whose reference field `field` compares with `n` by `op`.
pub open spec fn ref_range_ids(tags: TagMap, u: Set<u32>, field: Seq<char>, op: CompareOp, n: u32) -> Set<u32> {
    let vals = values_of(tags, str_lowercase(field));
    let ids = match op {
        CompareOp::Lt => range_ids(vals, None, Some(n), true, false),
        CompareOp::LtEq => range_ids(vals, None, Some(n), true, true),
        CompareOp::Gt => range_ids(vals, Some(n), None, false, true),
        _ => range_ids(vals, Some(n), None, true, true),
    };
    ids.intersect(u)
}

/// The value of a `u32` literal.
pub open spec fn u32_literal(s: Seq<char>) -> Option<u32> {
    match parse_unsigned_spec(s, u32::MAX as nat) {
        Some(n) => Some(n as u32),
        None => None,
    }
}

/// What a leaf computed by the application gives.
pub open spec fn computed_result(c: Option<Result<RoaringBitmap, String>>, name: String) -> Result<Set<u32>, QueryError> {
    match c {
        Some(Ok(b)) => Ok(bitmap_members(b)),
        Some(Err(s)) => Err(QueryError::Computed(s)),
        None => Err(QueryError::NotComputed { name }),
    }
}

/// `field = value` or `value = field` on a tag.
pub open spec fn eq_result(tags: TagMap, left: Operand, right: Operand) -> Result<Set<u32>, QueryError> {
    match left.column {
        Some(field) => match right.literal {
            Err(e) => Err(QueryError::Literal(e)),
            Ok(v) => Ok(tag_eq_ids(tags, field@, v@)),
        },
        None => match right.column {
            Some(field) => match left.literal {
                Err(e) => Err(QueryError::Literal(e)),
                Ok(v) => Ok(tag_eq_ids(tags, field@, v@)),
            },
            None => Err(QueryError::ExpectedFieldEqualsValue),
        },
    }
}

/// What a comparison gives on the ids `u`.
pub open spec fn compare_result(
    tags: TagMap,
    u: Set<u32>,
    left: Operand,
    op: CompareOp,
    right: Operand,
    computed: Option<Result<RoaringBitmap, String>>,
) -> Result<Set<u32>, QueryError> {
    match op {
        CompareOp::Eq => {
            if left.column is Some && names(virtual_columns(), left.column->0@) {
                match right.literal {
                    Err(e) => Err(QueryError::Literal(e)),
                    Ok(_) => computed_result(computed, left.column->0),
                }
            } else {
                eq_result(tags, left, right)
            }
        },
        CompareOp::NotEq => match left.column {
            None => Err(QueryError::NotEqualNeedsColumn),
            Some(field) => match right.literal {
                Err(e) => Err(QueryError::Literal(e)),
                Ok(rhs) => if names(virtual_columns(), field@) {
                    computed_result(computed, field)
                } else if names(numeric_ref_fields(), field@) || names(string_ref_fields(), field@) {
                    Ok(u.difference(tag_eq_ids(tags, field@, rhs@)))
                } else {
                    Err(QueryError::NotEqualOnTag { field })
                },
            },
        },
        _ => match left.column {
            None => Err(QueryError::ComparisonNeedsColumn),
            Some(field) => match right.literal {
                Err(e) => Err(QueryError::Literal(e)),
                Ok(rhs) => if names(virtual_columns(), field@) {
                    computed_result(computed, field)
                } else if names(numeric_ref_fields(), field@) {
                    match u32_literal(rhs@) {
                        None => Err(QueryError::RefFieldNotInteger { field, value: rhs }),
                        Some(n) => Ok(ref_range_ids(tags, u, field@, op, n)),
                    }
                } else {
                    Err(QueryError::ComparisonOnTag { field })
                },
            },
        },
    }
}

/// What `column [NOT] BETWEEN low AND high` gives on the ids `u`.
pub open spec fn between_result(
    tags: TagMap,
    u: Set<u32>,
    column: Option<String>,
    negated: bool,
    low: Operand,
    high: Operand,
) -> Result<Set<u32>, QueryError> {
    match column {
        None => Err(QueryError::BetweenNeedsColumn),
        Some(field) => if !names(numeric_ref_fields(), field@) {
            Err(QueryError::BetweenOnNonNumeric { field })
        } else {
            match low.literal {
                Err(e) => Err(QueryError::Literal(e)),
                Ok(l) => match u32_literal(l@) {
                    None => Err(QueryError::BetweenLowerNotInteger { field }),
                    Some(lo) => match high.literal {
                        Err(e) => Err(QueryError::Literal(e)),
                        Ok(h) => match u32_literal(h@) {
                            None => Err(QueryError::BetweenUpperNotInteger { field }),
                            Some(hi) => {
                                let r = range_ids(values_of(tags, str_lowercase(field@)), Some(lo), Some(hi), true, true).intersect(u);
                                Ok(if negated { u.difference(r) } else { r })
                            },
                        },
                    },
                },
            }
        },
    }
}

/// What a function call gives.
pub open spec fn function_result(
    tags: TagMap,
    name: String,
    args: Result<Vec<Operand>, String>,
    computed: Option<Result<RoaringBitmap, String>>,
) -> Result<Set<u32>, QueryError> {
    match args {
        Err(s) => Err(QueryError::Computed(s)),
        Ok(a) => if name@ == "tag_jaccard"@ {
            if a@.len() != 4 {
                Err(QueryError::TagJaccardArity)
            } else {
                match (a@[0].literal, a@[1].literal, a@[2].literal, a@[3].literal) {
                    (Err(e), _, _, _) => Err(QueryError::Literal(e)),
                    (Ok(_), Err(e), _, _) => Err(QueryError::Literal(e)),
                    (Ok(_), Ok(_), Err(e), _) => Err(QueryError::Literal(e)),
                    (Ok(_), Ok(_), Ok(_), Err(e)) => Err(QueryError::Literal(e)),
                    (Ok(f1), Ok(v1), Ok(f2), Ok(v2)) => Ok(
                        tag_eq_ids(tags, f1@, v1@).intersect(tag_eq_ids(tags, f2@, v2@)),
                    ),
                }
            }
        } else {
            computed_result(computed, name)
        },
    }
}

/// What a `WHERE` clause gives on the ids `u`.
pub open spec fn filter_result(tags: TagMap, u: Set<u32>, f: Filter) -> Result<Set<u32>, QueryError>
    decreases f,
{
    match f {
        Filter::And(l, r) => match filter_result(tags, u, *l) {
            Err(e) => Err(e),
            Ok(a) => match filter_result(tags, u, *r) {
                Err(e) => Err(e),
                Ok(b) => Ok(a.intersect(b)),
            },
        },
        Filter::Or(l, r) => match filter_result(tags, u, *l) {
            Err(e) => Err(e),
            Ok(a) => match filter_result(tags, u, *r) {
                Err(e) => Err(e),
                Ok(b) => Ok(a.union(b)),
            },
        },
        Filter::Not(x) => match filter_result(tags, u, *x) {
            Err(e) => Err(e),
            Ok(a) => Ok(u.difference(a)),
        },
        Filter::Compare { left, op, right, computed } => compare_result(tags, u, left, op, right, computed),
        Filter::Between { column, negated, low, high } => between_result(tags, u, column, negated, low, high),
        Filter::Function { name, args, computed } => function_result(tags, name, args, computed),
        Filter::Unsupported(s) => Err(QueryError::Unsupported(s)),
    }
}

/// What a query body gives, with `all` the ids of the rows.
pub open spec fn body_result(tags: TagMap, all: Set<u32>, b: QueryBody) -> Result<Set<u32>, QueryError>
    decreases b,
{
    match b {
        QueryBody::Select { table, selection } => match table {
            None => Err(QueryError::MissingFrom),
            Some(t) => if t@ != "docs"@ {
                Err(QueryError::UnknownTable { table: t })
            } else {
                match selection {
                    None => Ok(all),
                    Some(f) => filter_result(tags, all, f),
                }
            },
        },
        QueryBody::SetOperation { left, op, right } => match body_result(tags, all, *left) {
            Err(e) => Err(e),
            Ok(a) => match body_result(tags, all, *right) {
                Err(e) => Err(e),
                Ok(c) => Ok(
                    match op {
                        SetOperator::Union => a.union(c),
                        SetOperator::Intersect => a.intersect(c),
                        SetOperator::Except => a.difference(c),
                    },
                ),
            },
        },
        QueryBody::Unsupported(s) => Err(QueryError::Unsupported(s)),
    }
}

/// What a list of parsed statements gives: exactly one query is answered.
pub open spec fn statements_result(tags: TagMap, all: Set<u32>, s: Seq<Statement>) -> Result<Set<u32>, QueryError> {
    if s.len() != 1 {
        Err(QueryError::NotOneStatement)
    } else {
        match s[0] {
            Statement::Query(b) => body_result(tags, all, b),
            Statement::Other => Err(QueryError::NotAQuery),
        }
    }
}

/// The ids of a computed leaf, or its error.
fn take_computed(computed: Option<Result<RoaringBitmap, String>>, name: String) -> (r: Result<RoaringBitmap, QueryError>)
    ensures
        match r {
            Ok(b) => computed_result(computed, name) == Ok::<Set<u32>, QueryError>(bitmap_members(b)),
            Err(e) => computed_result(computed, name) == Err::<Set<u32>, QueryError>(e),
        },
{
    match computed {
        Some(Ok(b)) => Ok(b),
        Some(Err(s)) => Err(QueryError::Computed(s)),
        None => Err(QueryError::NotComputed { name }),
    }
}

/// Reads a `u32` literal.
fn read_u32(s: &str) -> (r: Option<u32>)
    ensures
        r == u32_literal(s@),
{
    let c = chars_of(s);
    match parse_unsigned(c.as_slice(), 0xffff_ffff) {
        Some(n) => Some(n as u32),
        None => None,
    }
}

fn eval_compare(
    index: &TagIndex,
    universe: &RoaringBitmap,
    left: Operand,
    op: CompareOp,
    right: Operand,
    computed: Option<Result<RoaringBitmap, String>>,
) -> (r: Result<RoaringBitmap, QueryError>)
    requires
        index.wf(),
    ensures
        match r {
            Ok(b) => compare_result(index@.tags, bitmap_members(*universe), left, op, right, computed) == Ok::<
                Set<u32>,
                QueryError,
            >(bitmap_members(b)),
            Err(e) => compare_result(index@.tags, bitmap_members(*universe), left, op, right, computed) == Err::<
                Set<u32>,
                QueryError,
            >(e),
        },
{
    let ghost l0 = left;
    let ghost r0 = right;
    let Operand { column, literal } = left;
    let Operand { column: rcolumn, literal: rliteral } = right;
    match op {
        CompareOp::Eq => match column {
            Some(field) => {
                if is_virtual_column(field.as_str()) {
                    return match rliteral {
                        Err(e) => Err(QueryError::Literal(e)),
                        Ok(_) => take_computed(computed, field),
                    };
                }
                match rliteral {
                    Err(e) => Err(QueryError::Literal(e)),
                    Ok(v) => Ok(index.bitmap_for_tag_eq(field.as_str(), v.as_str())),
                }
            },
            None => match rcolumn {
                Some(field) => match literal {
                    Err(e) => Err(QueryError::Literal(e)),
                    Ok(v) => Ok(index.bitmap_for_tag_eq(field.as_str(), v.as_str())),
                },
                None => Err(QueryError::ExpectedFieldEqualsValue),
            },
        },
        CompareOp::NotEq => match column {
            None => Err(QueryError::NotEqualNeedsColumn),
            Some(field) => match rliteral {
                Err(e) => Err(QueryError::Literal(e)),
                Ok(rhs) => {
                    if is_virtual_column(field.as_str()) {
                        return take_computed(computed, field);
                    }
                    if is_numeric_ref_field(field.as_str()) || is_string_ref_field(field.as_str()) {
                        let bm = index.bitmap_for_tag_eq(field.as_str(), rhs.as_str());
                        let mut out = bm_clone(universe);
                        bm_difference_with(&mut out, &bm);
                        return Ok(out);
                    }
                    Err(QueryError::NotEqualOnTag { field })
                },
            },
        },
        _ => match column {
            None => Err(QueryError::ComparisonNeedsColumn),
            Some(field) => match rliteral {
                Err(e) => Err(QueryError::Literal(e)),
                Ok(rhs) => {
                    if is_virtual_column(field.as_str()) {
                        return take_computed(computed, field);
                    }
                    if is_numeric_ref_field(field.as_str()) {
                        let n = match read_u32(rhs.as_str()) {
                            Some(n) => n,
                            None => {
                                return Err(QueryError::RefFieldNotInteger { field, value: rhs });
                            },
                        };
                        let mut bm = match op {
                            CompareOp::Lt => index.bitmap_for_tag_range(field.as_str(), None, Some(n), true, false),
                            CompareOp::LtEq => index.bitmap_for_tag_range(field.as_str(), None, Some(n), true, true),
                            CompareOp::Gt => index.bitmap_for_tag_range(field.as_str(), Some(n), None, false, true),
                            _ => index.bitmap_for_tag_range(field.as_str(), Some(n), None, true, true),
                        };
                        bm_intersect_with(&mut bm, universe);
                        return Ok(bm);
                    }
                    Err(QueryError::ComparisonOnTag { field })
                },
            },
        },
    }
}

fn eval_between(
    index: &TagIndex,
    universe: &RoaringBitmap,
    column: Option<String>,
    negated: bool,
    low: Operand,
    high: Operand,
) -> (r: Result<RoaringBitmap, QueryError>)
    requires
        index.wf(),
    ensures
        match r {
            Ok(b) => between_result(index@.tags, bitmap_members(*universe), column, negated, low, high) == Ok::<
                Set<u32>,
                QueryError,
            >(bitmap_members(b)),
            Err(e) => between_result(index@.tags, bitmap_members(*universe), column, negated, low, high) == Err::<
                Set<u32>,
                QueryError,
            >(e),
        },
{
    let field = match column {
        None => {
            return Err(QueryError::BetweenNeedsColumn);
        },
        Some(f) => f,
    };
    if !is_numeric_ref_field(field.as_str()) {
        return Err(QueryError::BetweenOnNonNumeric { field });
    }
    let lo = match low.literal {
        Err(e) => {
            return Err(QueryError::Literal(e));
        },
        Ok(l) => match read_u32(l.as_str()) {
            None => {
                return Err(QueryError::BetweenLowerNotInteger { field });
            },
            Some(n) => n,
        },
    };
    let hi = match high.literal {
        Err(e) => {
            return Err(QueryError::Literal(e));
        },
        Ok(h) => match read_u32(h.as_str()) {
            None => {
                return Err(QueryError::BetweenUpperNotInteger { field });
            },
            Some(n) => n,
        },
    };
    let mut bm = index.bitmap_for_tag_range(field.as_str(), Some(lo), Some(hi), true, true);
    bm_intersect_with(&mut bm, universe);
    if negated {
        let mut out = bm_clone(universe);
        bm_difference_with(&mut out, &bm);
        Ok(out)
    } else {
        Ok(bm)
    }
}

fn eval_function(
    index: &TagIndex,
    name: String,
    args: Result<Vec<Operand>, String>,
    computed: Option<Result<RoaringBitmap, String>>,
) -> (r: Result<RoaringBitmap, QueryError>)
    requires
        index.wf(),
    ensures
        match r {
            Ok(b) => function_result(index@.tags, name, args, computed) == Ok::<Set<u32>, QueryError>(
                bitmap_members(b),
            ),
            Err(e) => function_result(index@.tags, name, args, computed) == Err::<Set<u32>, QueryError>(e),
        },
{
    let a = match args {
        Err(s) => {
            return Err(QueryError::Computed(s));
        },
        Ok(a) => a,
    };
    if !str_eq(name.as_str(), "tag_jaccard") {
        return take_computed(computed, name);
    }
    if a.len() != 4 {
        return Err(QueryError::TagJaccardArity);
    }
    let f1 = match &a[0].literal {
        Err(e) => {
            return Err(QueryError::Literal(*e));
        },
        Ok(s) => s,
    };
    let v1 = match &a[1].literal {
        Err(e) => {
            return Err(QueryError::Literal(*e));
        },
        Ok(s) => s,
    };
    let f2 = match &a[2].literal {
        Err(e) => {
            return Err(QueryError::Literal(*e));
        },
        Ok(s) => s,
    };
    let v2 = match &a[3].literal {
        Err(e) => {
            return Err(QueryError::Literal(*e));
        },
        Ok(s) => s,
    };
    let mut left = index.bitmap_for_tag_eq(f1.as_str(), v1.as_str());
    let right = index.bitmap_for_tag_eq(f2.as_str(), v2.as_str());
    bm_intersect_with(&mut left, &right);
    Ok(left)
}

/// Evaluates a `WHERE` clause on the ids of `universe`.
pub fn eval_filter(index: &TagIndex, universe: &RoaringBitmap, f: Filter) -> (r: Result<RoaringBitmap, QueryError>)
    requires
        index.wf(),
    ensures
        match r {
            Ok(b) => filter_result(index@.tags, bitmap_members(*universe), f) == Ok::<Set<u32>, QueryError>(
                bitmap_members(b),
            ),
            Err(e) => filter_result(index@.tags, bitmap_members(*universe), f) == Err::<Set<u32>, QueryError>(e),
        },
    decreases f,
{
    match f {
        Filter::And(l, r) => {
            let mut a = match eval_filter(index, universe, *l) {
                Err(e) => {
                    return Err(e);
                },
                Ok(a) => a,
            };
            let b = match eval_filter(index, universe, *r) {
                Err(e) => {
                    return Err(e);
                },
                Ok(b) => b,
            };
            bm_intersect_with(&mut a, &b);
            Ok(a)
        },
        Filter::Or(l, r) => {
            let mut a = match eval_filter(index, universe, *l) {
                Err(e) => {
                    return Err(e);
                },
                Ok(a) => a,
            };
            let b = match eval_filter(index, universe, *r) {
                Err(e) => {
                    return Err(e);
                },
                Ok(b) => b,
            };
            bm_union_with(&mut a, &b);
            Ok(a)
        },
        Filter::Not(x) => match eval_filter(index, universe, *x) {
            Err(e) => Err(e),
            Ok(a) => {
                let mut out = bm_clone(universe);
                bm_difference_with(&mut out, &a);
                Ok(out)
            },
        },
        Filter::Compare { left, op, right, computed } => eval_compare(index, universe, left, op, right, computed),
        Filter::Between { column, negated, low, high } => eval_between(index, universe, column, negated, low, high),
        Filter::Function { name, args, computed } => eval_function(index, name, args, computed),
        Filter::Unsupported(s) => Err(QueryError::Unsupported(s)),
    }
}

/// Evaluates a query body over the rows of the index.
pub fn eval_body(index: &TagIndex, b: QueryBody) -> (r: Result<RoaringBitmap, QueryError>)
    requires
        index.wf(),
    ensures
        match r {
            Ok(s) => body_result(index@.tags, index@.all, b) == Ok::<Set<u32>, QueryError>(bitmap_members(s)),
            Err(e) => body_result(index@.tags, index@.all, b) == Err::<Set<u32>, QueryError>(e),
        },
    decreases b,
{
    match b {
        QueryBody::Select { table, selection } => {
            let t = match table {
                None => {
                    return Err(QueryError::MissingFrom);
                },
                Some(t) => t,
            };
            if !str_eq(t.as_str(), "docs") {
                return Err(QueryError::UnknownTable { table: t });
            }
            let all = index.all_bitmap();
            match selection {
                None => Ok(all),
                Some(f) => eval_filter(index, &all, f),
            }
        },
        QueryBody::SetOperation { left, op, right } => {
            let mut a = match eval_body(index, *left) {
                Err(e) => {
                    return Err(e);
                },
                Ok(a) => a,
            };
            let c = match eval_body(index, *right) {
                Err(e) => {
                    return Err(e);
                },
                Ok(c) => c,
            };
            match op {
                SetOperator::Union => bm_union_with(&mut a, &c),
                SetOperator::Intersect => bm_intersect_with(&mut a, &c),
                SetOperator::Except => bm_difference_with(&mut a, &c),
            }
            Ok(a)
        },
        QueryBody::Unsupported(s) => Err(QueryError::Unsupported(s)),
    }
}

/// Answers a parsed SQL text: the ids it selects, in increasing order.
pub fn execute_statements(index: &TagIndex, statements: Vec<Statement>) -> (r: Result<Vec<u32>, QueryError>)
    requires
        index.wf(),
    ensures
        match r {
            Ok(ids) => {
                &&& statements_result(index@.tags, index@.all, statements@) == Ok::<Set<u32>, QueryError>(
                    ids@.to_set(),
                )
                &&& forall|i: int, j: int| 0 <= i < j < ids@.len() ==> ids@[i] < ids@[j]
            },
            Err(e) => statements_result(index@.tags, index@.all, statements@) == Err::<Set<u32>, QueryError>(e),
        },
{
    let ghost s0 = statements@;
    if statements.len() != 1 {
        return Err(QueryError::NotOneStatement);
    }
    let mut statements = statements;
    let st = statements.pop().unwrap();
    proof {
        assert(st == s0[0]);
    }
    match st {
        Statement::Query(b) => match eval_body(index, b) {
            Err(e) => Err(e),
            Ok(bm) => Ok(bm_to_vec(&bm)),
        },
        Statement::Other => Err(QueryError::NotAQuery),
    }
}

} // verus!
