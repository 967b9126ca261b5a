//! SQL text to answers: the text is parsed with `sqlparser` into the parts
//! of its syntax tree that the query logic reads, those parts are turned into
//! a [`crate::query::Statement`], and the statement is answered from the tag
//! index.
//!
//! Two kinds of leaves read floating-point data and are computed by the
//! application: comparisons on the virtual columns of memory records, and the
//! vector search functions. [`leaf_requests`] lists them in the order of the
//! text; their results are handed back in that order.
use vstd::prelude::*;

use roaring::RoaringBitmap;
use sqlparser::ast as sa;
use sqlparser::dialect::GenericDialect;
use sqlparser::ast::SetOperator as ParsedSetOperator;
use sqlparser::ast::Statement as ParsedStatement;
use sqlparser::parser::Parser;

use crate::predicate::{is_virtual_column, virtual_columns, CompareOp};
use crate::query as q;
use crate::query::{names, statements_result, Filter, LiteralError, Operand, QueryBody, QueryError};
use crate::tag_index::{TagIndex, TagMap};
use crate::text::{str_eq, str_lowercase, to_lowercase};


verus! {

// ---------------------------------------------------------------------------
// The parts of a parsed statement that the query logic reads
// ---------------------------------------------------------------------------

/// A literal value.
pub enum SqlValue {
    SingleQuoted(String),
    DoubleQuoted(String),
    /// A number, as written.
    Number(String),
    Boolean(bool),
    /// Any other kind of value.
    Other,
}

/// A unary operator.
#[derive(Debug, Clone, Copy, PartialEq, Eq, Structural)]
pub enum SqlUnaryOp {
    Minus,
    Not,
    Other,
}

/// A binary operator.
pub enum SqlBinaryOp {
    And,
    Or,
    Eq,
    NotEq,
    Lt,
    Gt,
    LtEq,
    GtEq,
    /// Any other operator, as the parser describes it.
    Other(String),
}

/// One argument of a function call.
pub enum SqlFunctionArg {
    /// An expression, named or not.
    Expr(SqlExpr),
    /// A named argument that is not an expression (a wildcard).
    NamedOther,
    /// Any other unnamed argument (a wildcard).
    Other,
}

/// The arguments of a function call.
pub enum SqlFunctionArgs {
    List(Vec<SqlFunctionArg>),
    /// No list (`f` without parentheses) or a subquery.
    Other,
}

/// An expression.  Where the query logic may describe an expression in a
/// message, its `debug` text is what the parser's `Debug` gives for it.
pub enum SqlExpr {
    Identifier { value: String, debug: String },
    /// A dotted name, its parts in order.
    CompoundIdentifier { parts: Vec<String>, debug: String },
    Value { value: SqlValue, debug: String },
    UnaryOp { op: SqlUnaryOp, expr: Box<SqlExpr>, debug: String },
    BinaryOp { left: Box<SqlExpr>, op: SqlBinaryOp, right: Box<SqlExpr> },
    Nested(Box<SqlExpr>),
    Between { expr: Box<SqlExpr>, negated: bool, low: Box<SqlExpr>, high: Box<SqlExpr> },
    /// A function call: its name as written, and its arguments.
    Function { name: String, args: SqlFunctionArgs },
    /// Any other expression.
    Other { debug: String },
}

/// A set operator.
#[derive(Debug, Clone, Copy, PartialEq, Eq, Structural)]
pub enum SqlSetOperator {
    Union,
    Except,
    Intersect,
    Minus,
}

/// The body of a query.
pub enum SqlSetExpr {
    /// A `SELECT`: the first relation of its `FROM`, as written, and its
    /// `WHERE` clause.
    Select { from: Option<String>, selection: Option<SqlExpr> },
    /// A parenthesised query: its body.
    Query(Box<SqlSetExpr>),
    SetOperation { left: Box<SqlSetExpr>, op: SqlSetOperator, right: Box<SqlSetExpr> },
    Values,
    Other,
}

/// A statement.
pub enum SqlStatement {
    /// A query: its body.
    Query(SqlSetExpr),
    Other,
}

/// Why a text did not parse: the parser's message.
#[derive(Debug, Clone, PartialEq, Eq)]
pub struct SqlParseError {
    pub message: String,
}

// ---------------------------------------------------------------------------
// Parsing, by `sqlparser`
// ---------------------------------------------------------------------------

#[verifier::external_type_specification]
#[verifier::external_body]
pub struct ExSqlStatement(ParsedStatement);

#[verifier::external_type_specification]
#[verifier::external_body]
pub struct ExSetExpr(sa::SetExpr);

#[verifier::external_type_specification]
#[verifier::external_body]
pub struct ExSetOperator(ParsedSetOperator);

#[verifier::external_type_specification]
#[verifier::external_body]
pub struct ExExpr(sa::Expr);

#[verifier::external_type_specification]
#[verifier::external_body]
pub struct ExValue(sa::Value);

#[verifier::external_type_specification]
#[verifier::external_body]
pub struct ExBinaryOperator(sa::BinaryOperator);

#[verifier::external_type_specification]
#[verifier::external_body]
pub struct ExUnaryOperator(sa::UnaryOperator);

#[verifier::external_type_specification]
#[verifier::external_body]
pub struct ExFunctionArguments(sa::FunctionArguments);

#[verifier::external_type_specification]
#[verifier::external_body]
pub struct ExFunctionArg(sa::FunctionArg);

/// What `sqlparser` parses an SQL text into (with its generic dialect),
/// seen through the parts the query logic reads.
pub uninterp spec fn sql_parse(sql: Seq<char>) -> Result<Seq<SqlStatement>, SqlParseError>;

/// `Parser::parse_sql` with the generic dialect, from `sqlparser`.  Its
/// result, each statement written out as the parts the query logic reads (or
/// the error's message), is named by `sql_parse`.
#[verifier::external_body]
pub fn parse_sql(sql: &str) -> (r: Result<Vec<SqlStatement>, SqlParseError>)
    ensures
        r is Ok <==> sql_parse(sql@) is Ok,
        r is Ok ==> sql_parse(sql@)->Ok_0 == r->Ok_0@,
        r is Err ==> sql_parse(sql@) == Err::<Seq<SqlStatement>, SqlParseError>(r->Err_0),
{
    match Parser::parse_sql(&GenericDialect {}, sql) {
        Ok(statements) => Ok(statements.iter().map(statement_parts).collect()),
        Err(e) => Err(SqlParseError { message: e.to_string() }),
    }
}

/// Part of `parse_sql`: a statement's parts.
#[verifier::external_body]
fn statement_parts(s: &ParsedStatement) -> SqlStatement {
    match s {
        ParsedStatement::Query(q) => SqlStatement::Query(set_expr_parts(&q.body)),
        _ => SqlStatement::Other,
    }
}

/// Part of `parse_sql`: a query body's parts.
#[verifier::external_body]
fn set_expr_parts(b: &sa::SetExpr) -> SqlSetExpr {
    match b {
        sa::SetExpr::Select(s) => SqlSetExpr::Select {
            from: s.from.first().map(|f| f.relation.to_string()),
            selection: s.selection.as_ref().map(expr_parts),
        },
        sa::SetExpr::Query(q) => SqlSetExpr::Query(Box::new(set_expr_parts(&q.body))),
        sa::SetExpr::SetOperation { left, op, right, .. } => SqlSetExpr::SetOperation {
            left: Box::new(set_expr_parts(left)),
            op: set_operator_parts(op),
            right: Box::new(set_expr_parts(right)),
        },
        sa::SetExpr::Values(_) => SqlSetExpr::Values,
        _ => SqlSetExpr::Other,
    }
}

/// Part of `parse_sql`: a set operator.
#[verifier::external_body]
fn set_operator_parts(op: &ParsedSetOperator) -> SqlSetOperator {
    match op {
        ParsedSetOperator::Union => SqlSetOperator::Union,
        ParsedSetOperator::Except => SqlSetOperator::Except,
        ParsedSetOperator::Intersect => SqlSetOperator::Intersect,
        ParsedSetOperator::Minus => SqlSetOperator::Minus,
    }
}

/// Part of `parse_sql`: an expression's parts (names, literals and unary
/// operators here, the rest in `operator_expr_parts`).
#[verifier::external_body]
fn expr_parts(e: &sa::Expr) -> SqlExpr {
    let debug = format!("{e:?}");
    match e {
        sa::Expr::Identifier(i) => SqlExpr::Identifier { value: i.value.clone(), debug },
        sa::Expr::CompoundIdentifier(is) => SqlExpr::CompoundIdentifier { parts: is.iter().map(|i| i.value.clone()).collect(), debug },
        sa::Expr::Value(v) => SqlExpr::Value { value: value_parts(&v.value), debug },
        sa::Expr::UnaryOp { op, expr } => SqlExpr::UnaryOp { op: unary_parts(op), expr: Box::new(expr_parts(expr)), debug },
        _ => operator_expr_parts(e, debug),
    }
}

/// Part of `parse_sql`: the parts of an expression that is no name, literal
/// or unary operator; `debug` is its debug text.
#[verifier::external_body]
fn operator_expr_parts(e: &sa::Expr, debug: String) -> SqlExpr {
    match e {
        sa::Expr::BinaryOp { left, op, right } => SqlExpr::BinaryOp { left: Box::new(expr_parts(left)), op: binary_parts(op), right: Box::new(expr_parts(right)) },
        sa::Expr::Nested(x) => SqlExpr::Nested(Box::new(expr_parts(x))),
        sa::Expr::Between { expr, negated, low, high } => SqlExpr::Between { expr: Box::new(expr_parts(expr)), negated: *negated, low: Box::new(expr_parts(low)), high: Box::new(expr_parts(high)) },
        sa::Expr::Function(f) => SqlExpr::Function { name: f.name.to_string(), args: args_parts(&f.args) },
        _ => SqlExpr::Other { debug },
    }
}

/// Part of `parse_sql`: a literal's parts.
#[verifier::external_body]
fn value_parts(v: &sa::Value) -> SqlValue {
    match v {
        sa::Value::SingleQuotedString(s) => SqlValue::SingleQuoted(s.clone()),
        sa::Value::DoubleQuotedString(s) => SqlValue::DoubleQuoted(s.clone()),
        sa::Value::Number(n, _) => SqlValue::Number(n.clone()),
        sa::Value::Boolean(x) => SqlValue::Boolean(*x),
        _ => SqlValue::Other,
    }
}

/// Part of `parse_sql`: a unary operator.
#[verifier::external_body]
fn unary_parts(op: &sa::UnaryOperator) -> SqlUnaryOp {
    match op {
        sa::UnaryOperator::Minus => SqlUnaryOp::Minus,
        sa::UnaryOperator::Not => SqlUnaryOp::Not,
        _ => SqlUnaryOp::Other,
    }
}

/// Part of `parse_sql`: a binary operator.
#[verifier::external_body]
fn binary_parts(op: &sa::BinaryOperator) -> SqlBinaryOp {
    match op {
        sa::BinaryOperator::And => SqlBinaryOp::And,
        sa::BinaryOperator::Or => SqlBinaryOp::Or,
        sa::BinaryOperator::Eq => SqlBinaryOp::Eq,
        sa::BinaryOperator::NotEq => SqlBinaryOp::NotEq,
        sa::BinaryOperator::Lt => SqlBinaryOp::Lt,
        sa::BinaryOperator::Gt => SqlBinaryOp::Gt,
        sa::BinaryOperator::LtEq => SqlBinaryOp::LtEq,
        sa::BinaryOperator::GtEq => SqlBinaryOp::GtEq,
        other => SqlBinaryOp::Other(format!("{other:?}")),
    }
}

/// Part of `parse_sql`: a function's arguments.
#[verifier::external_body]
fn args_parts(a: &sa::FunctionArguments) -> SqlFunctionArgs {
    match a {
        sa::FunctionArguments::List(l) => SqlFunctionArgs::List(l.args.iter().map(arg_parts).collect()),
        _ => SqlFunctionArgs::Other,
    }
}

/// Part of `parse_sql`: one function argument.
#[verifier::external_body]
fn arg_parts(a: &sa::FunctionArg) -> SqlFunctionArg {
    match a {
        sa::FunctionArg::Unnamed(sa::FunctionArgExpr::Expr(e)) => SqlFunctionArg::Expr(expr_parts(e)),
        sa::FunctionArg::Named { arg: sa::FunctionArgExpr::Expr(e), .. } => SqlFunctionArg::Expr(expr_parts(e)),
        sa::FunctionArg::ExprNamed { arg: sa::FunctionArgExpr::Expr(e), .. } => SqlFunctionArg::Expr(expr_parts(e)),
        sa::FunctionArg::Named { .. } | sa::FunctionArg::ExprNamed { .. } => SqlFunctionArg::NamedOther,
        _ => SqlFunctionArg::Other,
    }
}

// ---------------------------------------------------------------------------
// From the parts to a query
// ---------------------------------------------------------------------------

/// The column an expression names: an identifier, or the last part of a
/// dotted name, lowercased.
pub open spec fn column_of(e: SqlExpr) -> Option<Seq<char>> {
    match e {
        SqlExpr::Identifier { value, .. } => Some(str_lowercase(value@)),
        SqlExpr::CompoundIdentifier { parts, .. } => if parts@.len() > 0 {
            Some(str_lowercase(parts@.last()@))
        } else {
            None
        },
        _ => None,
    }
}

/// The text of a literal value.
pub open spec fn value_literal(v: SqlValue) -> Result<Seq<char>, LiteralError> {
    match v {
        SqlValue::SingleQuoted(s) => Ok(s@),
        SqlValue::DoubleQuoted(s) => Ok(s@),
        SqlValue::Number(n) => Ok(n@),
        SqlValue::Boolean(b) => Ok(if b { "true"@ } else { "false"@ }),
        SqlValue::Other => Err(LiteralError::UnsupportedValue),
    }
}

/// The text of a literal expression: a string, number or boolean, or a
/// minus sign before a number.
pub open spec fn literal_of(e: SqlExpr) -> Result<Seq<char>, LiteralError> {
    match e {
        SqlExpr::Value { value, .. } => value_literal(value),
        SqlExpr::UnaryOp { op: SqlUnaryOp::Minus, expr, .. } => match *expr {
            SqlExpr::Value { value: SqlValue::Number(n), .. } => Ok("-"@ + n@),
            _ => Err(LiteralError::UnsupportedUnary),
        },
        _ => Err(LiteralError::NotLiteral),
    }
}

pub open spec fn opt_view(o: Option<String>) -> Option<Seq<char>> {
    match o {
        Some(s) => Some(s@),
        None => None,
    }
}

pub open spec fn literal_view(l: Result<String, LiteralError>) -> Result<Seq<char>, LiteralError> {
    match l {
        Ok(s) => Ok(s@),
        Err(e) => Err(e),
    }
}

/// `o` is the operand that expression `e` gives.
pub open spec fn operand_of(o: Operand, e: SqlExpr) -> bool {
    &&& opt_view(o.column) == column_of(e)
    &&& literal_view(o.literal) == literal_of(e)
}

/// The comparison a binary operator stands for.
pub open spec fn compare_op(op: SqlBinaryOp) -> Option<CompareOp> {
    match op {
        SqlBinaryOp::Eq => Some(CompareOp::Eq),
        SqlBinaryOp::NotEq => Some(CompareOp::NotEq),
        SqlBinaryOp::Lt => Some(CompareOp::Lt),
        SqlBinaryOp::Gt => Some(CompareOp::Gt),
        SqlBinaryOp::LtEq => Some(CompareOp::LtEq),
        SqlBinaryOp::GtEq => Some(CompareOp::GtEq),
        _ => None,
    }
}

/// The expressions of an argument list, or why it is refused.
pub open spec fn arg_list(v: Seq<SqlFunctionArg>) -> Result<Seq<SqlExpr>, Seq<char>>
    decreases v.len(),
{
    if v.len() == 0 {
        Ok(Seq::empty())
    } else {
        match arg_list(v.drop_last()) {
            Err(m) => Err(m),
            Ok(p) => match v.last() {
                SqlFunctionArg::Expr(e) => Ok(p.push(e)),
                SqlFunctionArg::NamedOther => Err("unsupported named function arg"@),
                SqlFunctionArg::Other => Err("unsupported function arg type"@),
            },
        }
    }
}

/// The expressions of a function's arguments, or why they are refused.
pub open spec fn arg_exprs(a: SqlFunctionArgs) -> Result<Seq<SqlExpr>, Seq<char>> {
    match a {
        SqlFunctionArgs::List(v) => arg_list(v@),
        SqlFunctionArgs::Other => Err("unsupported function argument list"@),
    }
}

/// A comparison whose left side names a virtual column and whose right side
/// is a literal: the application computes it.
pub open spec fn is_virtual_leaf(left: SqlExpr, right: SqlExpr) -> bool {
    &&& column_of(left) is Some
    &&& names(virtual_columns(), column_of(left)->0)
    &&& literal_of(right) is Ok
}

/// A function call whose arguments are expressions, other than
/// `tag_jaccard`: the application computes it (the vector searches).
pub open spec fn is_function_leaf(name: String, args: SqlFunctionArgs) -> bool {
    arg_exprs(args) is Ok && str_lowercase(name@) != "tag_jaccard"@
}

/// How many leaves the application computes in a `WHERE` clause.
pub open spec fn filter_leaves(e: SqlExpr) -> nat
    decreases e,
{
    match e {
        SqlExpr::BinaryOp { left, op, right } => match op {
            SqlBinaryOp::And => filter_leaves(*left) + filter_leaves(*right),
            SqlBinaryOp::Or => filter_leaves(*left) + filter_leaves(*right),
            SqlBinaryOp::Other(_) => 0,
            _ => if is_virtual_leaf(*left, *right) {
                1
            } else {
                0
            },
        },
        SqlExpr::Nested(x) => filter_leaves(*x),
        SqlExpr::UnaryOp { op: SqlUnaryOp::Not, expr, .. } => filter_leaves(*expr),
        SqlExpr::Function { name, args } => if is_function_leaf(name, args) {
            1
        } else {
            0
        },
        _ => 0,
    }
}

/// The next computed leaf, if any is left.
pub open spec fn next_leaf(ls: Seq<Result<RoaringBitmap, String>>) -> Option<Result<RoaringBitmap, String>> {
    if ls.len() > 0 {
        Some(ls[0])
    } else {
        None
    }
}

/// The computed leaves left after `n` are taken.
pub open spec fn after(ls: Seq<Result<RoaringBitmap, String>>, n: nat) -> Seq<Result<RoaringBitmap, String>> {
    if n <= ls.len() {
        ls.subrange(n as int, ls.len() as int)
    } else {
        Seq::empty()
    }
}

/// `a` are the operands of the argument expressions `x`, or the same refusal.
pub open spec fn args_of(a: Result<Vec<Operand>, String>, x: Result<Seq<SqlExpr>, Seq<char>>) -> bool {
    match (a, x) {
        (Ok(v), Ok(es)) => v@.len() == es.len() && forall|i: int| 0 <= i < es.len() ==> operand_of(#[trigger] v@[i], es[i]),
        (Err(m), Err(t)) => m@ == t,
        _ => false,
    }
}

/// `f` is the `WHERE` clause that expression `e` gives, its computed leaves
/// taken in order from `ls`.
pub open spec fn filter_of(e: SqlExpr, ls: Seq<Result<RoaringBitmap, String>>, f: Filter) -> bool
    decreases e,
{
    match e {
        SqlExpr::BinaryOp { left, op, right } => match op {
            SqlBinaryOp::And => f matches Filter::And(a, b) && filter_of(*left, ls, *a) && filter_of(
                *right,
                after(ls, filter_leaves(*left)),
                *b,
            ),
            SqlBinaryOp::Or => f matches Filter::Or(a, b) && filter_of(*left, ls, *a) && filter_of(
                *right,
                after(ls, filter_leaves(*left)),
                *b,
            ),
            SqlBinaryOp::Other(d) => f matches Filter::Unsupported(m) && m@ == "unsupported binary operator in WHERE: "@
                + d@,
            _ => f matches Filter::Compare { left: lo, op: o, right: ro, computed } && compare_op(op) == Some(o)
                && operand_of(lo, *left) && operand_of(ro, *right) && computed == (if is_virtual_leaf(
                *left,
                *right,
            ) {
                next_leaf(ls)
            } else {
                None
            }),
        },
        SqlExpr::Nested(x) => filter_of(*x, ls, f),
        SqlExpr::UnaryOp { op: SqlUnaryOp::Not, expr, .. } => f matches Filter::Not(a) && filter_of(*expr, ls, *a),
        SqlExpr::Between { expr, negated, low, high } => f matches Filter::Between {
            column,
            negated: n,
            low: l,
            high: h,
        } && opt_view(column) == column_of(*expr) && n == negated && operand_of(l, *low) && operand_of(h, *high),
        SqlExpr::Function { name, args } => f matches Filter::Function { name: n, args: a, computed } && n@
            == str_lowercase(name@) && args_of(a, arg_exprs(args)) && computed == (if is_function_leaf(name, args) {
            next_leaf(ls)
        } else {
            None
        }),
        SqlExpr::Identifier { debug, .. } => unsupported_expr(f, debug),
        SqlExpr::CompoundIdentifier { debug, .. } => unsupported_expr(f, debug),
        SqlExpr::Value { debug, .. } => unsupported_expr(f, debug),
        SqlExpr::UnaryOp { debug, .. } => unsupported_expr(f, debug),
        SqlExpr::Other { debug } => unsupported_expr(f, debug),
    }
}

/// `f` refuses an expression that is no `WHERE` clause.
pub open spec fn unsupported_expr(f: Filter, debug: String) -> bool {
    f matches Filter::Unsupported(m) && m@ == "unsupported WHERE expression in scaffold: "@ + debug@
}

/// How many leaves the application computes in a query body.
pub open spec fn body_leaves(b: SqlSetExpr) -> nat
    decreases b,
{
    match b {
        SqlSetExpr::Select { selection, .. } => match selection {
            Some(e) => filter_leaves(e),
            None => 0,
        },
        SqlSetExpr::Query(x) => body_leaves(*x),
        SqlSetExpr::SetOperation { left, right, .. } => body_leaves(*left) + body_leaves(*right),
        _ => 0,
    }
}

/// The set operation a parsed one stands for.
pub open spec fn set_op(op: SqlSetOperator) -> q::SetOperator {
    match op {
        SqlSetOperator::Union => q::SetOperator::Union,
        SqlSetOperator::Intersect => q::SetOperator::Intersect,
        SqlSetOperator::Except => q::SetOperator::Except,
        SqlSetOperator::Minus => q::SetOperator::Except,
    }
}

/// `qb` is the query body that `b` gives, its computed leaves taken in
/// order from `ls`.
pub open spec fn body_of(b: SqlSetExpr, ls: Seq<Result<RoaringBitmap, String>>, qb: QueryBody) -> bool
    decreases b,
{
    match b {
        SqlSetExpr::Select { from, selection } => qb matches QueryBody::Select { table, selection: s } && opt_view(
            table,
        ) == (match from {
            Some(t) => Some(str_lowercase(t@)),
            None => None,
        }) && match selection {
            None => s is None,
            Some(e) => s matches Some(f) && filter_of(e, ls, f),
        },
        SqlSetExpr::Query(x) => body_of(*x, ls, qb),
        SqlSetExpr::SetOperation { left, op, right } => qb matches QueryBody::SetOperation { left: a, op: o, right: c }
            && o == set_op(op) && body_of(*left, ls, *a) && body_of(*right, after(ls, body_leaves(*left)), *c),
        SqlSetExpr::Values => qb matches QueryBody::Unsupported(m) && m@ == "VALUES is not supported"@,
        SqlSetExpr::Other => qb matches QueryBody::Unsupported(m) && m@ == "unsupported SELECT body in scaffold"@,
    }
}

/// `s` are the statements that the parsed ones give: a single query is
/// turned into the query form, its computed leaves taken in order from
/// `ls`; of several statements (or none) only their number matters.
pub open spec fn statements_of(
    ps: Seq<SqlStatement>,
    ls: Seq<Result<RoaringBitmap, String>>,
    s: Seq<q::Statement>,
) -> bool {
    &&& s.len() == ps.len()
    &&& ps.len() == 1 ==> match ps[0] {
        SqlStatement::Query(b) => s[0] matches q::Statement::Query(qb) && body_of(b, ls, qb),
        SqlStatement::Other => s[0] is Other,
    }
    &&& ps.len() != 1 ==> forall|i: int| 0 <= i < s.len() ==> #[trigger] s[i] is Other
}

/// `r` answers the parsed text `parsed` from the index, with the computed
/// leaves `ls`: a parse error is reported as such; otherwise the answer is
/// that of the statements the text gives, as a list of ids in increasing
/// order.
pub open spec fn answers(
    tags: TagMap,
    all: Set<u32>,
    parsed: Result<Seq<SqlStatement>, SqlParseError>,
    ls: Seq<Result<RoaringBitmap, String>>,
    r: Result<Vec<u32>, QueryError>,
) -> bool {
    match parsed {
        Err(e) => r == Err::<Vec<u32>, QueryError>(QueryError::Parse(e.message)),
        Ok(ps) => answers_statements(tags, all, ps, ls, r),
    }
}

/// `r` answers the parsed statements `ps`: it is the answer of the
/// statements they give with the computed leaves `ls`.
pub open spec fn answers_statements(
    tags: TagMap,
    all: Set<u32>,
    ps: Seq<SqlStatement>,
    ls: Seq<Result<RoaringBitmap, String>>,
    r: Result<Vec<u32>, QueryError>,
) -> bool {
    exists|s: Seq<q::Statement>| #[trigger] statements_of(ps, ls, s) && answer_of(tags, all, s, r)
}

/// `r` is the answer of the statements `s`, its ids in increasing order.
pub open spec fn answer_of(tags: TagMap, all: Set<u32>, s: Seq<q::Statement>, r: Result<Vec<u32>, QueryError>) -> bool {
    match r {
        Ok(ids) => {
            &&& statements_result(tags, all, s) == Ok::<Set<u32>, QueryError>(ids@.to_set())
            &&& forall|i: int, j: int| 0 <= i < j < ids@.len() ==> ids@[i] < ids@[j]
        },
        Err(e) => statements_result(tags, all, s) == Err::<Set<u32>, QueryError>(e),
    }
}

proof fn lemma_after_after(ls: Seq<Result<RoaringBitmap, String>>, a: nat, b: nat)
    ensures
        after(after(ls, a), b) == after(ls, a + b),
{
    assert(after(after(ls, a), b) =~= after(ls, a + b));
}

proof fn lemma_answers_ok(
    tags: TagMap,
    all: Set<u32>,
    ps: Seq<SqlStatement>,
    ls: Seq<Result<RoaringBitmap, String>>,
    s: Seq<q::Statement>,
    r: Result<Vec<u32>, QueryError>,
)
    requires
        statements_of(ps, ls, s),
        answer_of(tags, all, s, r),
    ensures
        answers(tags, all, Ok(ps), ls, r),
{
    assert(answers_statements(tags, all, ps, ls, r));
}

/// Takes the next computed leaf, if any is left.
fn take_leaf(leaves: &mut Vec<Result<RoaringBitmap, String>>) -> (r: Option<Result<RoaringBitmap, String>>)
    ensures
        r == next_leaf(old(leaves)@),
        final(leaves)@ == after(old(leaves)@, 1),
{
    if leaves.len() > 0 {
        let x = leaves.remove(0);
        proof {
            assert(leaves@ =~= after(old(leaves)@, 1));
        }
        Some(x)
    } else {
        proof {
            assert(leaves@ =~= after(old(leaves)@, 1));
        }
        None
    }
}

/// `prefix` followed by `d`.
fn message(prefix: &str, d: &String) -> (r: String)
    ensures
        r@ == prefix@ + d@,
{
    let mut m = prefix.to_owned();
    m.append(d.as_str());
    m
}

/// The column an expression names, lowercased.
pub fn column_name(e: &SqlExpr) -> (r: Option<String>)
    ensures
        opt_view(r) == column_of(*e),
{
    match e {
        SqlExpr::Identifier { value, .. } => Some(to_lowercase(value.as_str())),
        SqlExpr::CompoundIdentifier { parts, .. } => if parts.len() > 0 {
            Some(to_lowercase(parts[parts.len() - 1].as_str()))
        } else {
            None
        },
        _ => None,
    }
}

/// The text of a literal expression.
pub fn literal_text(e: &SqlExpr) -> (r: Result<String, LiteralError>)
    ensures
        literal_view(r) == literal_of(*e),
{
    match e {
        SqlExpr::Value { value, .. } => match value {
            SqlValue::SingleQuoted(s) => Ok(s.clone()),
            SqlValue::DoubleQuoted(s) => Ok(s.clone()),
            SqlValue::Number(n) => Ok(n.clone()),
            SqlValue::Boolean(b) => Ok(
                if *b {
                    "true".to_owned()
                } else {
                    "false".to_owned()
                },
            ),
            SqlValue::Other => Err(LiteralError::UnsupportedValue),
        },
        SqlExpr::UnaryOp { op: SqlUnaryOp::Minus, expr, .. } => match &**expr {
            SqlExpr::Value { value: SqlValue::Number(n), .. } => Ok(message("-", n)),
            _ => Err(LiteralError::UnsupportedUnary),
        },
        _ => Err(LiteralError::NotLiteral),
    }
}

fn operand_exec(e: &SqlExpr) -> (r: Operand)
    ensures
        operand_of(r, *e),
{
    Operand { column: column_name(e), literal: literal_text(e) }
}

fn compare_op_exec(op: &SqlBinaryOp) -> (r: Option<CompareOp>)
    ensures
        r == compare_op(*op),
{
    match op {
        SqlBinaryOp::Eq => Some(CompareOp::Eq),
        SqlBinaryOp::NotEq => Some(CompareOp::NotEq),
        SqlBinaryOp::Lt => Some(CompareOp::Lt),
        SqlBinaryOp::Gt => Some(CompareOp::Gt),
        SqlBinaryOp::LtEq => Some(CompareOp::LtEq),
        SqlBinaryOp::GtEq => Some(CompareOp::GtEq),
        _ => None,
    }
}

/// The argument expressions of a function call, or why they are refused.
pub fn argument_exprs<'a>(a: &'a SqlFunctionArgs) -> (r: Result<Vec<&'a SqlExpr>, String>)
    ensures
        match (r, arg_exprs(*a)) {
            (Ok(v), Ok(es)) => v@.map_values(|x: &SqlExpr| *x) == es,
            (Err(m), Err(t)) => m@ == t,
            _ => false,
        },
{
    let list = match a {
        SqlFunctionArgs::List(v) => v,
        SqlFunctionArgs::Other => {
            return Err("unsupported function argument list".to_owned());
        },
    };
    let mut out: Vec<&'a SqlExpr> = Vec::new();
    let mut i: usize = 0;
    proof {
        assert(list@.take(0) =~= Seq::<SqlFunctionArg>::empty());
        assert(out@.map_values(|x: &SqlExpr| *x) =~= Seq::<SqlExpr>::empty());
    }
    while i < list.len()
        invariant
            i <= list@.len(),
            *a == SqlFunctionArgs::List(*list),
            arg_list(list@.take(i as int)) == Ok::<Seq<SqlExpr>, Seq<char>>(out@.map_values(|x: &SqlExpr| *x)),
        decreases list.len() - i,
    {
        proof {
            assert(list@.take(i + 1).drop_last() =~= list@.take(i as int));
            assert(list@.take(i + 1).last() == list@[i as int]);
        }
        match &list[i] {
            SqlFunctionArg::Expr(e) => {
                let ghost before = out@;
                out.push(e);
                proof {
                    assert(out@.map_values(|x: &SqlExpr| *x) =~= before.map_values(|x: &SqlExpr| *x).push(*e));
                }
            },
            SqlFunctionArg::NamedOther => {
                proof {
                    lemma_arg_list_err(list@, i as int + 1);
                }
                return Err("unsupported named function arg".to_owned());
            },
            SqlFunctionArg::Other => {
                proof {
                    lemma_arg_list_err(list@, i as int + 1);
                }
                return Err("unsupported function arg type".to_owned());
            },
        }
        i = i + 1;
    }
    proof {
        assert(list@.take(list@.len() as int) =~= list@);
    }
    Ok(out)
}

/// Once a prefix of an argument list is refused, the whole list is, for the
/// same reason.
proof fn lemma_arg_list_err(v: Seq<SqlFunctionArg>, k: int)
    requires
        0 <= k <= v.len(),
        arg_list(v.take(k)) is Err,
    ensures
        arg_list(v) == arg_list(v.take(k)),
    decreases v.len() - k,
{
    if k < v.len() {
        assert(v.take(k + 1).drop_last() =~= v.take(k));
        lemma_arg_list_err(v, k + 1);
    } else {
        assert(v.take(k) =~= v);
    }
}

fn operands(v: &Vec<&SqlExpr>) -> (r: Vec<Operand>)
    ensures
        r@.len() == v@.len(),
        forall|i: int| 0 <= i < v@.len() ==> operand_of(#[trigger] r@[i], *v@[i]),
{
    let mut r: Vec<Operand> = Vec::new();
    let mut i: usize = 0;
    while i < v.len()
        invariant
            i <= v@.len(),
            r@.len() == i,
            forall|j: int| 0 <= j < i ==> operand_of(#[trigger] r@[j], *v@[j]),
        decreases v.len() - i,
    {
        r.push(operand_exec(v[i]));
        i = i + 1;
    }
    r
}

/// The `WHERE` clause an expression gives, its computed leaves taken in
/// order from the front of `leaves`.
pub fn filter_from(e: &SqlExpr, leaves: &mut Vec<Result<RoaringBitmap, String>>) -> (f: Filter)
    ensures
        filter_of(*e, old(leaves)@, f),
        final(leaves)@ == after(old(leaves)@, filter_leaves(*e)),
    decreases e,
{
    match e {
        SqlExpr::BinaryOp { left, op, right } => match op {
            SqlBinaryOp::And => {
                let a = filter_from(left, leaves);
                let b = filter_from(right, leaves);
                proof {
                    lemma_after_after(old(leaves)@, filter_leaves(**left), filter_leaves(**right));
                }
                Filter::And(Box::new(a), Box::new(b))
            },
            SqlBinaryOp::Or => {
                let a = filter_from(left, leaves);
                let b = filter_from(right, leaves);
                proof {
                    lemma_after_after(old(leaves)@, filter_leaves(**left), filter_leaves(**right));
                }
                Filter::Or(Box::new(a), Box::new(b))
            },
            SqlBinaryOp::Other(d) => {
                proof {
                    assert(leaves@ =~= after(old(leaves)@, 0));
                }
                Filter::Unsupported(message("unsupported binary operator in WHERE: ", d))
            },
            _ => {
                let o = compare_op_exec(op).unwrap();
                let lo = operand_exec(left);
                let ro = operand_exec(right);
                let leaf = match (&lo.column, &ro.literal) {
                    (Some(c), Ok(_)) => is_virtual_column(c.as_str()),
                    _ => false,
                };
                let computed = if leaf {
                    take_leaf(leaves)
                } else {
                    proof {
                        assert(leaves@ =~= after(old(leaves)@, 0));
                    }
                    None
                };
                Filter::Compare { left: lo, op: o, right: ro, computed }
            },
        },
        SqlExpr::Nested(x) => filter_from(x, leaves),
        SqlExpr::UnaryOp { op: SqlUnaryOp::Not, expr, .. } => Filter::Not(Box::new(filter_from(expr, leaves))),
        SqlExpr::Between { expr, negated, low, high } => {
            proof {
                assert(leaves@ =~= after(old(leaves)@, 0));
            }
            Filter::Between {
                column: column_name(expr),
                negated: *negated,
                low: operand_exec(low),
                high: operand_exec(high),
            }
        },
        SqlExpr::Function { name, args } => {
            let n = to_lowercase(name.as_str());
            let ax = argument_exprs(args);
            let leaf = ax.is_ok() && !str_eq(n.as_str(), "tag_jaccard");
            let computed = if leaf {
                take_leaf(leaves)
            } else {
                proof {
                    assert(leaves@ =~= after(old(leaves)@, 0));
                }
                None
            };
            let a = match ax {
                Ok(v) => Ok(operands(&v)),
                Err(m) => Err(m),
            };
            Filter::Function { name: n, args: a, computed }
        },
        SqlExpr::Identifier { debug, .. } | SqlExpr::CompoundIdentifier { debug, .. } | SqlExpr::Value {
            debug,
            ..
        } | SqlExpr::UnaryOp { debug, .. } | SqlExpr::Other { debug } => {
            proof {
                assert(leaves@ =~= after(old(leaves)@, 0));
            }
            Filter::Unsupported(message("unsupported WHERE expression in scaffold: ", debug))
        },
    }
}

fn set_op_exec(op: &SqlSetOperator) -> (r: q::SetOperator)
    ensures
        r == set_op(*op),
{
    match op {
        SqlSetOperator::Union => q::SetOperator::Union,
        SqlSetOperator::Intersect => q::SetOperator::Intersect,
        SqlSetOperator::Except => q::SetOperator::Except,
        SqlSetOperator::Minus => q::SetOperator::Except,
    }
}

/// The query body a parsed one gives, its computed leaves taken in order
/// from the front of `leaves`.
pub fn body_from(b: &SqlSetExpr, leaves: &mut Vec<Result<RoaringBitmap, String>>) -> (r: QueryBody)
    ensures
        body_of(*b, old(leaves)@, r),
        final(leaves)@ == after(old(leaves)@, body_leaves(*b)),
    decreases b,
{
    match b {
        SqlSetExpr::Select { from, selection } => {
            let table = match from {
                Some(t) => Some(to_lowercase(t.as_str())),
                None => None,
            };
            let sel = match selection {
                Some(e) => Some(filter_from(e, leaves)),
                None => {
                    proof {
                        assert(leaves@ =~= after(old(leaves)@, 0));
                    }
                    None
                },
            };
            QueryBody::Select { table, selection: sel }
        },
        SqlSetExpr::Query(x) => body_from(x, leaves),
        SqlSetExpr::SetOperation { left, op, right } => {
            let a = body_from(left, leaves);
            let c = body_from(right, leaves);
            proof {
                lemma_after_after(old(leaves)@, body_leaves(**left), body_leaves(**right));
            }
            QueryBody::SetOperation { left: Box::new(a), op: set_op_exec(op), right: Box::new(c) }
        },
        SqlSetExpr::Values => {
            proof {
                assert(leaves@ =~= after(old(leaves)@, 0));
            }
            QueryBody::Unsupported("VALUES is not supported".to_owned())
        },
        SqlSetExpr::Other => {
            proof {
                assert(leaves@ =~= after(old(leaves)@, 0));
            }
            QueryBody::Unsupported("unsupported SELECT body in scaffold".to_owned())
        },
    }
}

/// The statements the parsed ones give, with the computed leaves.
pub fn statements_from(ps: &Vec<SqlStatement>, leaves: Vec<Result<RoaringBitmap, String>>) -> (s: Vec<q::Statement>)
    ensures
        statements_of(ps@, leaves@, s@),
{
    let mut out: Vec<q::Statement> = Vec::new();
    if ps.len() == 1 {
        let mut ls = leaves;
        match &ps[0] {
            SqlStatement::Query(b) => {
                let qb = body_from(b, &mut ls);
                out.push(q::Statement::Query(qb));
            },
            SqlStatement::Other => {
                out.push(q::Statement::Other);
            },
        }
        return out;
    }
    let mut i: usize = 0;
    while i < ps.len()
        invariant
            i <= ps@.len(),
            out@.len() == i,
            forall|j: int| 0 <= j < i ==> #[trigger] out@[j] is Other,
        decreases ps.len() - i,
    {
        out.push(q::Statement::Other);
        i = i + 1;
    }
    out
}

/// The parsed statements as a sequence.
pub open spec fn parsed_view(p: Result<Vec<SqlStatement>, SqlParseError>) -> Result<Seq<SqlStatement>, SqlParseError> {
    match p {
        Ok(v) => Ok(v@),
        Err(e) => Err(e),
    }
}

/// Answers parsed SQL from the tag index, with the leaves the application
/// computed, in the order [`leaf_requests`] lists them.
pub fn execute_parsed(
    index: &TagIndex,
    parsed: Result<Vec<SqlStatement>, SqlParseError>,
    leaves: Vec<Result<RoaringBitmap, String>>,
) -> (r: Result<Vec<u32>, QueryError>)
    requires
        index.wf(),
    ensures
        answers(index@.tags, index@.all, parsed_view(parsed), leaves@, r),
{
    let ps = match parsed {
        Err(e) => {
            return Err(QueryError::Parse(e.message));
        },
        Ok(ps) => ps,
    };
    let ghost lv = leaves@;
    let s = statements_from(&ps, leaves);
    let ghost sv = s@;
    let r = q::execute_statements(index, s);
    proof {
        lemma_answers_ok(index@.tags, index@.all, ps@, lv, sv, r);
    }
    r
}

/// Answers an SQL text from the tag index: the text is parsed, and the
/// leaves the application computed stand in for the comparisons on virtual
/// columns and the vector searches, in the order they come in the text.
pub fn execute_sql(index: &TagIndex, sql: &str, leaves: Vec<Result<RoaringBitmap, String>>) -> (r: Result<
    Vec<u32>,
    QueryError,
>)
    requires
        index.wf(),
    ensures
        answers(index@.tags, index@.all, sql_parse(sql@), leaves@, r),
{
    let parsed = parse_sql(sql);
    proof {
        assert(parsed_view(parsed) == sql_parse(sql@));
    }
    execute_parsed(index, parsed, leaves)
}

// ---------------------------------------------------------------------------
// The leaves the application computes
// ---------------------------------------------------------------------------

/// A leaf the application computes.
pub enum LeafRequest<'a> {
    /// The ids of the rows whose memory record's virtual `column` compares
    /// with `rhs` by `op`.
    Virtual { column: String, op: CompareOp, rhs: String },
    /// The ids a function call selects (the vector searches), its name
    /// lowercased, with its argument expressions.
    Function { name: String, args: Vec<&'a SqlExpr> },
}

/// A leaf request, its texts as character sequences.
pub enum LeafView {
    Virtual(Seq<char>, CompareOp, Seq<char>),
    Function(Seq<char>, Seq<SqlExpr>),
}

pub open spec fn leaf_view(l: LeafRequest) -> LeafView {
    match l {
        LeafRequest::Virtual { column, op, rhs } => LeafView::Virtual(column@, op, rhs@),
        LeafRequest::Function { name, args } => LeafView::Function(name@, args@.map_values(|x: &SqlExpr| *x)),
    }
}

pub open spec fn requests_view(v: Seq<LeafRequest>) -> Seq<LeafView> {
    v.map_values(|l: LeafRequest| leaf_view(l))
}

/// The leaves of a `WHERE` clause that the application computes, in the
/// order of the text.
pub open spec fn filter_requests(e: SqlExpr) -> Seq<LeafView>
    decreases e,
{
    match e {
        SqlExpr::BinaryOp { left, op, right } => match op {
            SqlBinaryOp::And => filter_requests(*left) + filter_requests(*right),
            SqlBinaryOp::Or => filter_requests(*left) + filter_requests(*right),
            SqlBinaryOp::Other(_) => Seq::empty(),
            _ => if is_virtual_leaf(*left, *right) {
                seq![LeafView::Virtual(column_of(*left)->0, compare_op(op)->0, literal_of(*right)->Ok_0)]
            } else {
                Seq::empty()
            },
        },
        SqlExpr::Nested(x) => filter_requests(*x),
        SqlExpr::UnaryOp { op: SqlUnaryOp::Not, expr, .. } => filter_requests(*expr),
        SqlExpr::Function { name, args } => if is_function_leaf(name, args) {
            seq![LeafView::Function(str_lowercase(name@), arg_exprs(args)->Ok_0)]
        } else {
            Seq::empty()
        },
        _ => Seq::empty(),
    }
}

/// The leaves of a query body that the application computes, in order.
pub open spec fn body_requests(b: SqlSetExpr) -> Seq<LeafView>
    decreases b,
{
    match b {
        SqlSetExpr::Select { selection, .. } => match selection {
            Some(e) => filter_requests(e),
            None => Seq::empty(),
        },
        SqlSetExpr::Query(x) => body_requests(*x),
        SqlSetExpr::SetOperation { left, right, .. } => body_requests(*left) + body_requests(*right),
        _ => Seq::empty(),
    }
}

/// The leaves of parsed statements that the application computes: those of
/// a single query, none otherwise.
pub open spec fn statement_requests(ps: Seq<SqlStatement>) -> Seq<LeafView> {
    if ps.len() == 1 {
        match ps[0] {
            SqlStatement::Query(b) => body_requests(b),
            SqlStatement::Other => Seq::empty(),
        }
    } else {
        Seq::empty()
    }
}

/// A `WHERE` clause asks for as many computed leaves as it takes.
pub proof fn filter_requests_match_leaves(e: SqlExpr)
    ensures
        filter_requests(e).len() == filter_leaves(e),
    decreases e,
{
    match e {
        SqlExpr::BinaryOp { left, op, right } => {
            filter_requests_match_leaves(*left);
            filter_requests_match_leaves(*right);
        },
        SqlExpr::Nested(x) => filter_requests_match_leaves(*x),
        SqlExpr::UnaryOp { expr, .. } => filter_requests_match_leaves(*expr),
        _ => {},
    }
}

/// A query body asks for as many computed leaves as it takes.
pub proof fn body_requests_match_leaves(b: SqlSetExpr)
    ensures
        body_requests(b).len() == body_leaves(b),
    decreases b,
{
    match b {
        SqlSetExpr::Select { selection, .. } => match selection {
            Some(e) => filter_requests_match_leaves(e),
            None => {},
        },
        SqlSetExpr::Query(x) => body_requests_match_leaves(*x),
        SqlSetExpr::SetOperation { left, right, .. } => {
            body_requests_match_leaves(*left);
            body_requests_match_leaves(*right);
        },
        _ => {},
    }
}

fn filter_requests_into<'a>(e: &'a SqlExpr, out: &mut Vec<LeafRequest<'a>>)
    ensures
        requests_view(final(out)@) == requests_view(old(out)@) + filter_requests(*e),
    decreases e,
{
    let ghost before = requests_view(out@);
    match e {
        SqlExpr::BinaryOp { left, op, right } => match op {
            SqlBinaryOp::And | SqlBinaryOp::Or => {
                filter_requests_into(left, out);
                filter_requests_into(right, out);
                proof {
                    assert(requests_view(out@) =~= before + filter_requests(*e));
                }
            },
            SqlBinaryOp::Other(_) => {
                proof {
                    assert(requests_view(out@) =~= before + filter_requests(*e));
                }
            },
            _ => {
                let o = compare_op_exec(op).unwrap();
                let column = column_name(left);
                let rhs = literal_text(right);
                match (column, rhs) {
                    (Some(c), Ok(v)) => {
                        if is_virtual_column(c.as_str()) {
                            let ghost old_out = out@;
                            let l = LeafRequest::Virtual { column: c, op: o, rhs: v };
                            out.push(l);
                            proof {
                                assert(requests_view(out@) =~= requests_view(old_out).push(leaf_view(l)));
                                assert(requests_view(out@) =~= before + filter_requests(*e));
                            }
                        } else {
                            proof {
                                assert(requests_view(out@) =~= before + filter_requests(*e));
                            }
                        }
                    },
                    _ => {
                        proof {
                            assert(requests_view(out@) =~= before + filter_requests(*e));
                        }
                    },
                }
            },
        },
        SqlExpr::Nested(x) => filter_requests_into(x, out),
        SqlExpr::UnaryOp { op: SqlUnaryOp::Not, expr, .. } => filter_requests_into(expr, out),
        SqlExpr::Function { name, args } => {
            let n = to_lowercase(name.as_str());
            match argument_exprs(args) {
                Ok(v) => {
                    if !str_eq(n.as_str(), "tag_jaccard") {
                        let ghost old_out = out@;
                        let l = LeafRequest::Function { name: n, args: v };
                        out.push(l);
                        proof {
                            assert(requests_view(out@) =~= requests_view(old_out).push(leaf_view(l)));
                            assert(requests_view(out@) =~= before + filter_requests(*e));
                        }
                    } else {
                        proof {
                            assert(requests_view(out@) =~= before + filter_requests(*e));
                        }
                    }
                },
                Err(_) => {
                    proof {
                        assert(requests_view(out@) =~= before + filter_requests(*e));
                    }
                },
            }
        },
        _ => {
            proof {
                assert(requests_view(out@) =~= before + filter_requests(*e));
            }
        },
    }
}

fn body_requests_into<'a>(b: &'a SqlSetExpr, out: &mut Vec<LeafRequest<'a>>)
    ensures
        requests_view(final(out)@) == requests_view(old(out)@) + body_requests(*b),
    decreases b,
{
    let ghost before = requests_view(out@);
    match b {
        SqlSetExpr::Select { selection, .. } => match selection {
            Some(e) => filter_requests_into(e, out),
            None => {
                proof {
                    assert(requests_view(out@) =~= before + body_requests(*b));
                }
            },
        },
        SqlSetExpr::Query(x) => body_requests_into(x, out),
        SqlSetExpr::SetOperation { left, right, .. } => {
            body_requests_into(left, out);
            body_requests_into(right, out);
            proof {
                assert(requests_view(out@) =~= before + body_requests(*b));
            }
        },
        _ => {
            proof {
                assert(requests_view(out@) =~= before + body_requests(*b));
            }
        },
    }
}

/// The leaves of parsed statements that the application computes, in the
/// order of the text; their results go to [`execute_parsed`] in this order.
pub fn leaf_requests<'a>(ps: &'a Vec<SqlStatement>) -> (r: Vec<LeafRequest<'a>>)
    ensures
        requests_view(r@) == statement_requests(ps@),
{
    let mut out: Vec<LeafRequest<'a>> = Vec::new();
    if ps.len() == 1 {
        match &ps[0] {
            SqlStatement::Query(b) => {
                body_requests_into(b, &mut out);
                proof {
                    assert(requests_view(out@) =~= statement_requests(ps@));
                }
            },
            SqlStatement::Other => {
                proof {
                    assert(requests_view(out@) =~= statement_requests(ps@));
                }
            },
        }
    } else {
        proof {
            assert(requests_view(out@) =~= statement_requests(ps@));
        }
    }
    out
}

// ---------------------------------------------------------------------------
// The answer is determined by the text and the leaves
// ---------------------------------------------------------------------------

/// Two refusals that agree, the texts they hold compared by view.
pub open spec fn same_error(a: QueryError, b: QueryError) -> bool {
    match (a, b) {
        (
            QueryError::RefFieldNotInteger { field: f, value: v },
            QueryError::RefFieldNotInteger { field: g, value: w },
        ) => f@ == g@ && v@ == w@,
        (QueryError::ComparisonOnTag { field: f }, QueryError::ComparisonOnTag { field: g }) => f@ == g@,
        (QueryError::NotEqualOnTag { field: f }, QueryError::NotEqualOnTag { field: g }) => f@ == g@,
        (QueryError::BetweenOnNonNumeric { field: f }, QueryError::BetweenOnNonNumeric { field: g }) => f@ == g@,
        (QueryError::BetweenLowerNotInteger { field: f }, QueryError::BetweenLowerNotInteger { field: g }) => f@
            == g@,
        (QueryError::BetweenUpperNotInteger { field: f }, QueryError::BetweenUpperNotInteger { field: g }) => f@
            == g@,
        (QueryError::NotComputed { name: f }, QueryError::NotComputed { name: g }) => f@ == g@,
        (QueryError::Computed(f), QueryError::Computed(g)) => f@ == g@,
        (QueryError::Unsupported(f), QueryError::Unsupported(g)) => f@ == g@,
        (QueryError::UnknownTable { table: f }, QueryError::UnknownTable { table: g }) => f@ == g@,
        (QueryError::Parse(f), QueryError::Parse(g)) => f@ == g@,
        _ => a == b,
    }
}

/// Two results of a filter, body or statement list that agree.
pub open spec fn same_ids(a: Result<Set<u32>, QueryError>, b: Result<Set<u32>, QueryError>) -> bool {
    match (a, b) {
        (Ok(x), Ok(y)) => x == y,
        (Err(x), Err(y)) => same_error(x, y),
        _ => false,
    }
}

/// Two answers that agree: the same ids in the same order, or the same
/// refusal.
pub open spec fn same_answer(a: Result<Vec<u32>, QueryError>, b: Result<Vec<u32>, QueryError>) -> bool {
    match (a, b) {
        (Ok(x), Ok(y)) => x@ == y@,
        (Err(x), Err(y)) => same_error(x, y),
        _ => false,
    }
}

proof fn lemma_compare_same(
    tags: TagMap,
    u: Set<u32>,
    l1: Operand,
    r1: Operand,
    l2: Operand,
    r2: Operand,
    op: CompareOp,
    c: Option<Result<RoaringBitmap, String>>,
)
    requires
        opt_view(l1.column) == opt_view(l2.column),
        literal_view(l1.literal) == literal_view(l2.literal),
        opt_view(r1.column) == opt_view(r2.column),
        literal_view(r1.literal) == literal_view(r2.literal),
    ensures
        same_ids(q::compare_result(tags, u, l1, op, r1, c), q::compare_result(tags, u, l2, op, r2, c)),
{
    assert(l1.column is Some <==> l2.column is Some);
    assert(r1.column is Some <==> r2.column is Some);
    assert(l1.literal is Ok <==> l2.literal is Ok);
    assert(r1.literal is Ok <==> r2.literal is Ok);
    if l1.column is Some {
        assert(l1.column->0@ == l2.column->0@);
    }
    if r1.column is Some {
        assert(r1.column->0@ == r2.column->0@);
    }
    if l1.literal is Ok {
        assert(l1.literal->Ok_0@ == l2.literal->Ok_0@);
    } else {
        assert(l1.literal->Err_0 == l2.literal->Err_0);
    }
    if r1.literal is Ok {
        assert(r1.literal->Ok_0@ == r2.literal->Ok_0@);
    } else {
        assert(r1.literal->Err_0 == r2.literal->Err_0);
    }
}

proof fn lemma_between_same(
    tags: TagMap,
    u: Set<u32>,
    c1: Option<String>,
    c2: Option<String>,
    negated: bool,
    lo1: Operand,
    hi1: Operand,
    lo2: Operand,
    hi2: Operand,
)
    requires
        opt_view(c1) == opt_view(c2),
        literal_view(lo1.literal) == literal_view(lo2.literal),
        literal_view(hi1.literal) == literal_view(hi2.literal),
    ensures
        same_ids(
            q::between_result(tags, u, c1, negated, lo1, hi1),
            q::between_result(tags, u, c2, negated, lo2, hi2),
        ),
{
    assert(c1 is Some <==> c2 is Some);
    if c1 is Some {
        assert(c1->0@ == c2->0@);
    }
    assert(lo1.literal is Ok <==> lo2.literal is Ok);
    assert(hi1.literal is Ok <==> hi2.literal is Ok);
    if lo1.literal is Ok {
        assert(lo1.literal->Ok_0@ == lo2.literal->Ok_0@);
    } else {
        assert(lo1.literal->Err_0 == lo2.literal->Err_0);
    }
    if hi1.literal is Ok {
        assert(hi1.literal->Ok_0@ == hi2.literal->Ok_0@);
    } else {
        assert(hi1.literal->Err_0 == hi2.literal->Err_0);
    }
}

proof fn lemma_function_same(
    tags: TagMap,
    n1: String,
    n2: String,
    a1: Result<Vec<Operand>, String>,
    a2: Result<Vec<Operand>, String>,
    x: Result<Seq<SqlExpr>, Seq<char>>,
    c: Option<Result<RoaringBitmap, String>>,
)
    requires
        n1@ == n2@,
        args_of(a1, x),
        args_of(a2, x),
    ensures
        same_ids(q::function_result(tags, n1, a1, c), q::function_result(tags, n2, a2, c)),
{
    match (a1, a2) {
        (Ok(v1), Ok(v2)) => {
            if v1@.len() == 4 {
                assert forall|i: int| 0 <= i < 4 implies literal_view(#[trigger] v1@[i].literal) == literal_view(
                    v2@[i].literal,
                ) by {
                    assert(operand_of(v1@[i], x->Ok_0[i]));
                    assert(operand_of(v2@[i], x->Ok_0[i]));
                }
                assert(literal_view(v1@[0].literal) == literal_view(v2@[0].literal));
                assert(literal_view(v1@[1].literal) == literal_view(v2@[1].literal));
                assert(literal_view(v1@[2].literal) == literal_view(v2@[2].literal));
                assert(literal_view(v1@[3].literal) == literal_view(v2@[3].literal));
            }
        },
        _ => {},
    }
}

/// Two `WHERE` clauses that one expression gives, with the same computed
/// leaves, select the same ids or are refused alike.
proof fn lemma_filter_same(
    tags: TagMap,
    u: Set<u32>,
    e: SqlExpr,
    ls: Seq<Result<RoaringBitmap, String>>,
    f1: Filter,
    f2: Filter,
)
    requires
        filter_of(e, ls, f1),
        filter_of(e, ls, f2),
    ensures
        same_ids(q::filter_result(tags, u, f1), q::filter_result(tags, u, f2)),
    decreases e,
{
    match e {
        SqlExpr::BinaryOp { left, op, right } => match op {
            SqlBinaryOp::And | SqlBinaryOp::Or => {
                let (a1, b1, a2, b2) = match (f1, f2) {
                    (Filter::And(a1, b1), Filter::And(a2, b2)) => (*a1, *b1, *a2, *b2),
                    (Filter::Or(a1, b1), Filter::Or(a2, b2)) => (*a1, *b1, *a2, *b2),
                    _ => arbitrary(),
                };
                lemma_filter_same(tags, u, *left, ls, a1, a2);
                lemma_filter_same(tags, u, *right, after(ls, filter_leaves(*left)), b1, b2);
            },
            SqlBinaryOp::Other(_) => {},
            _ => {
                match (f1, f2) {
                    (
                        Filter::Compare { left: l1, op: o1, right: r1, computed: c1 },
                        Filter::Compare { left: l2, op: o2, right: r2, computed: c2 },
                    ) => {
                        lemma_compare_same(tags, u, l1, r1, l2, r2, o1, c1);
                    },
                    _ => {},
                }
            },
        },
        SqlExpr::Nested(x) => {
            lemma_filter_same(tags, u, *x, ls, f1, f2);
        },
        SqlExpr::UnaryOp { op: SqlUnaryOp::Not, expr, .. } => {
            match (f1, f2) {
                (Filter::Not(a1), Filter::Not(a2)) => {
                    lemma_filter_same(tags, u, *expr, ls, *a1, *a2);
                },
                _ => {},
            }
        },
        SqlExpr::Between { .. } => {
            match (f1, f2) {
                (
                    Filter::Between { column: c1, negated: n1, low: lo1, high: hi1 },
                    Filter::Between { column: c2, negated: n2, low: lo2, high: hi2 },
                ) => {
                    lemma_between_same(tags, u, c1, c2, n1, lo1, hi1, lo2, hi2);
                },
                _ => {},
            }
        },
        SqlExpr::Function { args, .. } => {
            match (f1, f2) {
                (
                    Filter::Function { name: n1, args: a1, computed: c1 },
                    Filter::Function { name: n2, args: a2, computed: c2 },
                ) => {
                    lemma_function_same(tags, n1, n2, a1, a2, arg_exprs(args), c1);
                },
                _ => {},
            }
        },
        _ => {},
    }
}

/// Two query bodies that one parsed body gives, with the same computed
/// leaves, select the same ids or are refused alike.
proof fn lemma_body_same(
    tags: TagMap,
    all: Set<u32>,
    b: SqlSetExpr,
    ls: Seq<Result<RoaringBitmap, String>>,
    qb1: QueryBody,
    qb2: QueryBody,
)
    requires
        body_of(b, ls, qb1),
        body_of(b, ls, qb2),
    ensures
        same_ids(q::body_result(tags, all, qb1), q::body_result(tags, all, qb2)),
    decreases b,
{
    match b {
        SqlSetExpr::Select { selection, .. } => {
            match (qb1, qb2) {
                (QueryBody::Select { table: t1, selection: s1 }, QueryBody::Select { table: t2, selection: s2 }) => {
                    if t1 is Some {
                        assert(t1->0@ == t2->0@);
                    }
                    match (selection, s1, s2) {
                        (Some(e), Some(f1), Some(f2)) => {
                            lemma_filter_same(tags, all, e, ls, f1, f2);
                        },
                        _ => {},
                    }
                },
                _ => {},
            }
        },
        SqlSetExpr::Query(x) => {
            lemma_body_same(tags, all, *x, ls, qb1, qb2);
        },
        SqlSetExpr::SetOperation { left, right, .. } => {
            match (qb1, qb2) {
                (
                    QueryBody::SetOperation { left: a1, op: o1, right: c1 },
                    QueryBody::SetOperation { left: a2, op: o2, right: c2 },
                ) => {
                    lemma_body_same(tags, all, *left, ls, *a1, *a2);
                    lemma_body_same(tags, all, *right, after(ls, body_leaves(*left)), *c1, *c2);
                },
                _ => {},
            }
        },
        _ => {},
    }
}

/// Two strictly increasing id lists with the same members are equal.
proof fn lemma_increasing_unique(x: Seq<u32>, y: Seq<u32>)
    requires
        forall|i: int, j: int| 0 <= i < j < x.len() ==> x[i] < x[j],
        forall|i: int, j: int| 0 <= i < j < y.len() ==> y[i] < y[j],
        x.to_set() == y.to_set(),
    ensures
        x == y,
    decreases x.len(),
{
    if x.len() == 0 {
        if y.len() > 0 {
            assert(y.to_set().contains(y[0]));
        }
        assert(x =~= y);
    } else {
        assert(x.to_set().contains(x[0]));
        assert(y.len() > 0);
        assert(y.to_set().contains(y[0]));
        let i = choose|i: int| 0 <= i < x.len() && x[i] == y[0];
        let j = choose|j: int| 0 <= j < y.len() && y[j] == x[0];
        assert(x[0] <= x[i]);
        assert(y[0] <= y[j]);
        assert(x[0] == y[0]);
        let xr = x.drop_first();
        let yr = y.drop_first();
        assert forall|v: u32| xr.to_set().contains(v) <==> yr.to_set().contains(v) by {
            if xr.to_set().contains(v) {
                let k = choose|k: int| 0 <= k < xr.len() && xr[k] == v;
                assert(x[k + 1] == v);
                assert(x.to_set().contains(v));
                assert(y.to_set().contains(v));
                let m = choose|m: int| 0 <= m < y.len() && y[m] == v;
                assert(m != 0);
                assert(yr[m - 1] == v);
            }
            if yr.to_set().contains(v) {
                let k = choose|k: int| 0 <= k < yr.len() && yr[k] == v;
                assert(y[k + 1] == v);
                assert(y.to_set().contains(v));
                assert(x.to_set().contains(v));
                let m = choose|m: int| 0 <= m < x.len() && x[m] == v;
                assert(m != 0);
                assert(xr[m - 1] == v);
            }
        }
        assert(xr.to_set() =~= yr.to_set());
        lemma_increasing_unique(xr, yr);
        assert forall|k: int| 0 < k < x.len() implies x[k] == y[k] by {
            assert(x[k] == xr[k - 1]);
            assert(y[k] == yr[k - 1]);
        }
        assert(x =~= y);
    }
}

/// The answer to a parsed SQL text is determined by the text and the
/// computed leaves: any two answers that meet the contract of
/// [`execute_parsed`] (and so of [`execute_sql`]) agree — the same ids in
/// the same order, or the same refusal with the same texts.
pub proof fn sql_answer_is_determined(
    tags: TagMap,
    all: Set<u32>,
    parsed: Result<Seq<SqlStatement>, SqlParseError>,
    ls: Seq<Result<RoaringBitmap, String>>,
    r1: Result<Vec<u32>, QueryError>,
    r2: Result<Vec<u32>, QueryError>,
)
    requires
        answers(tags, all, parsed, ls, r1),
        answers(tags, all, parsed, ls, r2),
    ensures
        same_answer(r1, r2),
{
    match parsed {
        Err(e) => {},
        Ok(ps) => {
            let s1 = choose|s: Seq<q::Statement>| #[trigger] statements_of(ps, ls, s) && answer_of(tags, all, s, r1);
            let s2 = choose|s: Seq<q::Statement>| #[trigger] statements_of(ps, ls, s) && answer_of(tags, all, s, r2);
            let x1 = q::statements_result(tags, all, s1);
            let x2 = q::statements_result(tags, all, s2);
            if ps.len() == 1 {
                match ps[0] {
                    SqlStatement::Query(b) => {
                        match (s1[0], s2[0]) {
                            (q::Statement::Query(qb1), q::Statement::Query(qb2)) => {
                                lemma_body_same(tags, all, b, ls, qb1, qb2);
                            },
                            _ => {},
                        }
                    },
                    SqlStatement::Other => {},
                }
            } else {
                if s1.len() == 1 {
                    assert(s1[0] is Other);
                }
            }
            assert(same_ids(x1, x2));
            match (r1, r2) {
                (Ok(a), Ok(b)) => {
                    lemma_increasing_unique(a@, b@);
                },
                _ => {},
            }
        },
    }
}

} // verus!
