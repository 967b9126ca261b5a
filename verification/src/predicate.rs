//! Comparisons behind the SQL filters on memory metadata.
//!
//! The SQL text is parsed by the application with `sqlparser`; the operator
//! it finds is handed here as a [`CompareOp`], and the virtual columns (computed
//! from memory records rather than stored as tags) are named here.
use vstd::prelude::*;

use crate::memory::LifecycleState;
use crate::skg::seq_le;
use crate::text::{chars_of, parse_unsigned, parse_unsigned_spec, str_eq};

verus! {

/// A comparison operator of a filter.
#[derive(Debug, Clone, Copy, PartialEq, Eq, Structural)]
pub enum CompareOp {
    Eq,
    NotEq,
    Lt,
    Gt,
    LtEq,
    GtEq,
}

/// The columns computed from memory records.
pub open spec fn virtual_columns() -> Seq<&'static str> {
    seq![
        "fidelity",
        "alpha",
        "decay_alpha",
        "effective_alpha",
        "state",
        "keystone",
        "recalls",
        "recall_count",
        "importance",
        "created_at",
        "last_recalled",
        "staleness",
        "age",
        "emotion",
        "consolidation_depth",
    ]
}

/// Whether `name` is one of the virtual columns.
pub fn is_virtual_column(name: &str) -> (r: bool)
    ensures
        r == exists|i: int| 0 <= i < virtual_columns().len() && #[trigger] virtual_columns()[i]@ == name@,
{
    let cols: Vec<&'static str> = vec![
        "fidelity",
        "alpha",
        "decay_alpha",
        "effective_alpha",
        "state",
        "keystone",
        "recalls",
        "recall_count",
        "importance",
        "created_at",
        "last_recalled",
        "staleness",
        "age",
        "emotion",
        "consolidation_depth",
    ];
    assert(cols@ =~= virtual_columns());
    let mut i: usize = 0;
    while i < cols.len()
        invariant
            cols@ == virtual_columns(),
            i <= cols@.len(),
            forall|j: int| 0 <= j < i ==> #[trigger] cols@[j]@ != name@,
        decreases cols.len() - i,
    {
        if str_eq(cols[i], name) {
            return true;
        }
        i = i + 1;
    }
    false
}

/// What `lhs op rhs` means on numbers.
pub open spec fn holds_int(lhs: int, op: CompareOp, rhs: int) -> bool {
    match op {
        CompareOp::Eq => lhs == rhs,
        CompareOp::NotEq => lhs != rhs,
        CompareOp::Lt => lhs < rhs,
        CompareOp::Gt => lhs > rhs,
        CompareOp::LtEq => lhs <= rhs,
        CompareOp::GtEq => lhs >= rhs,
    }
}

/// Compares two unsigned integers.
pub fn compare_u64(lhs: u64, op: CompareOp, rhs: u64) -> (r: bool)
    ensures
        r == holds_int(lhs as int, op, rhs as int),
{
    match op {
        CompareOp::Eq => lhs == rhs,
        CompareOp::NotEq => lhs != rhs,
        CompareOp::Lt => lhs < rhs,
        CompareOp::Gt => lhs > rhs,
        CompareOp::LtEq => lhs <= rhs,
        CompareOp::GtEq => lhs >= rhs,
    }
}

/// Compares two booleans; only `=` and `!=` apply, any other operator is
/// refused (`None`).
pub fn compare_bool(lhs: bool, op: CompareOp, rhs: bool) -> (r: Option<bool>)
    ensures
        r == match op {
            CompareOp::Eq => Some(lhs == rhs),
            CompareOp::NotEq => Some(lhs != rhs),
            _ => None::<bool>,
        },
{
    match op {
        CompareOp::Eq => Some(lhs == rhs),
        CompareOp::NotEq => Some(lhs != rhs),
        _ => None,
    }
}

/// What `lhs op rhs` means on strings, in lexicographic order.
pub open spec fn holds_seq(lhs: Seq<char>, op: CompareOp, rhs: Seq<char>) -> bool {
    match op {
        CompareOp::Eq => lhs == rhs,
        CompareOp::NotEq => lhs != rhs,
        CompareOp::Lt => seq_le(lhs, rhs) && lhs != rhs,
        CompareOp::Gt => seq_le(rhs, lhs) && lhs != rhs,
        CompareOp::LtEq => seq_le(lhs, rhs),
        CompareOp::GtEq => seq_le(rhs, lhs),
    }
}

/// Compares two strings, lexicographically for the orderings.
pub fn compare_str(lhs: &str, op: CompareOp, rhs: &str) -> (r: bool)
    ensures
        r == holds_seq(lhs@, op, rhs@),
{
    let a = chars_of(lhs);
    let b = chars_of(rhs);
    let eq = str_eq(lhs, rhs);
    match op {
        CompareOp::Eq => eq,
        CompareOp::NotEq => !eq,
        CompareOp::Lt => crate::skg::chars_le(a.as_slice(), b.as_slice()) && !eq,
        CompareOp::Gt => crate::skg::chars_le(b.as_slice(), a.as_slice()) && !eq,
        CompareOp::LtEq => crate::skg::chars_le(a.as_slice(), b.as_slice()),
        CompareOp::GtEq => crate::skg::chars_le(b.as_slice(), a.as_slice()),
    }
}

/// The fields of a memory record that the integer, boolean and text virtual
/// columns read (`staleness` and `age` taken at the time of the query).
pub struct RecordFacts {
    pub state: LifecycleState,
    pub keystone: bool,
    pub recall_count: u32,
    pub created_at: u64,
    pub last_recalled: u64,
    pub staleness: u64,
    pub age: u64,
    pub consolidation_depth: u32,
    /// The primary emotion, if any.
    pub emotion: Option<String>,
}

/// Why a virtual-column comparison was refused.
#[derive(Debug, Clone, Copy, PartialEq, Eq, Structural)]
pub enum ColumnError {
    /// The literal compared with an integer column is no `u64`.
    InvalidInteger,
    /// The literal compared with `keystone` is neither `true` nor `false`.
    InvalidBool,
    /// `keystone` is compared by an ordering.
    BoolOperator,
    /// No virtual column has this name.
    UnknownColumn,
}

/// The name a lifecycle state is written with.
pub open spec fn state_name(s: LifecycleState) -> Seq<char> {
    match s {
        LifecycleState::Active => "Active"@,
        LifecycleState::Forgiven => "Forgiven"@,
        LifecycleState::Archived => "Archived"@,
    }
}

/// What `str::parse::<bool>` gives.
pub open spec fn parse_bool_spec(s: Seq<char>) -> Option<bool> {
    if s == "true"@ {
        Some(true)
    } else if s == "false"@ {
        Some(false)
    } else {
        None
    }
}

/// An integer column compared with a literal.
pub open spec fn int_column(v: int, op: CompareOp, rhs: Seq<char>) -> Result<Option<bool>, ColumnError> {
    match parse_unsigned_spec(rhs, u64::MAX as nat) {
        Some(n) => Ok(Some(holds_int(v, op, n as int))),
        None => Err(ColumnError::InvalidInteger),
    }
}

/// Whether a virtual column holds its value as a floating-point number.
pub open spec fn is_float_column(column: Seq<char>) -> bool {
    column == "fidelity"@ || column == "alpha"@ || column == "decay_alpha"@ || column
        == "effective_alpha"@ || column == "importance"@
}

/// How a record's virtual column compares with a literal: `Ok(None)` for
/// the floating-point columns, which the caller compares.
pub open spec fn fact_column_spec(column: Seq<char>, op: CompareOp, rhs: Seq<char>, f: RecordFacts) -> Result<
    Option<bool>,
    ColumnError,
> {
    if is_float_column(column) {
        Ok(None)
    } else if column == "state"@ {
        Ok(Some(holds_seq(state_name(f.state), op, rhs)))
    } else if column == "keystone"@ {
        match parse_bool_spec(rhs) {
            None => Err(ColumnError::InvalidBool),
            Some(v) => match op {
                CompareOp::Eq => Ok(Some(f.keystone == v)),
                CompareOp::NotEq => Ok(Some(f.keystone != v)),
                _ => Err(ColumnError::BoolOperator),
            },
        }
    } else if column == "recalls"@ || column == "recall_count"@ {
        int_column(f.recall_count as int, op, rhs)
    } else if column == "created_at"@ {
        int_column(f.created_at as int, op, rhs)
    } else if column == "last_recalled"@ {
        int_column(f.last_recalled as int, op, rhs)
    } else if column == "staleness"@ {
        int_column(f.staleness as int, op, rhs)
    } else if column == "age"@ {
        int_column(f.age as int, op, rhs)
    } else if column == "consolidation_depth"@ {
        int_column(f.consolidation_depth as int, op, rhs)
    } else if column == "emotion"@ {
        Ok(Some(holds_seq(
            match f.emotion {
                Some(e) => e@,
                None => "null"@,
            },
            op,
            rhs,
        )))
    } else {
        Err(ColumnError::UnknownColumn)
    }
}

fn int_column_exec(v: u64, op: CompareOp, rhs: &str) -> (r: Result<Option<bool>, ColumnError>)
    ensures
        r == int_column(v as int, op, rhs@),
{
    let cs = chars_of(rhs);
    match parse_unsigned(cs.as_slice(), u64::MAX) {
        Some(n) => Ok(Some(compare_u64(v, op, n))),
        None => Err(ColumnError::InvalidInteger),
    }
}

/// Compares a record's integer, boolean or text virtual column with a
/// literal; the floating-point columns are left to the caller (`Ok(None)`).
pub fn fact_column_matches(column: &str, op: CompareOp, rhs: &str, facts: &RecordFacts) -> (r: Result<
    Option<bool>,
    ColumnError,
>)
    ensures
        r == fact_column_spec(column@, op, rhs@, *facts),
{
    if str_eq(column, "fidelity") || str_eq(column, "alpha") || str_eq(column, "decay_alpha") || str_eq(
        column,
        "effective_alpha",
    ) || str_eq(column, "importance") {
        Ok(None)
    } else if str_eq(column, "state") {
        let name = match facts.state {
            LifecycleState::Active => "Active",
            LifecycleState::Forgiven => "Forgiven",
            LifecycleState::Archived => "Archived",
        };
        Ok(Some(compare_str(name, op, rhs)))
    } else if str_eq(column, "keystone") {
        let v = if str_eq(rhs, "true") {
            true
        } else if str_eq(rhs, "false") {
            false
        } else {
            return Err(ColumnError::InvalidBool);
        };
        match compare_bool(facts.keystone, op, v) {
            Some(b) => Ok(Some(b)),
            None => Err(ColumnError::BoolOperator),
        }
    } else if str_eq(column, "recalls") || str_eq(column, "recall_count") {
        int_column_exec(facts.recall_count as u64, op, rhs)
    } else if str_eq(column, "created_at") {
        int_column_exec(facts.created_at, op, rhs)
    } else if str_eq(column, "last_recalled") {
        int_column_exec(facts.last_recalled, op, rhs)
    } else if str_eq(column, "staleness") {
        int_column_exec(facts.staleness, op, rhs)
    } else if str_eq(column, "age") {
        int_column_exec(facts.age, op, rhs)
    } else if str_eq(column, "consolidation_depth") {
        int_column_exec(facts.consolidation_depth as u64, op, rhs)
    } else if str_eq(column, "emotion") {
        let lhs: &str = match &facts.emotion {
            Some(e) => e.as_str(),
            None => "null",
        };
        Ok(Some(compare_str(lhs, op, rhs)))
    } else {
        Err(ColumnError::UnknownColumn)
    }
}

} // verus!
