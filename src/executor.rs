use crate::types::names_equal;
use vstd::prelude::*;

verus! {

/// What the planner made of one statement.
#[derive(Debug)]
pub enum Plan {
    StartTransaction,
    Rollback,
    Commit,
    SelectOne,
    Unsupported(String),
}

/// The parts of a parsed statement that the planner looks at.
#[derive(Debug)]
pub enum StatementShape {
    StartTransaction,
    Rollback,
    Commit,
    /// A query: its projection when that is one bare number literal, and
    /// whether it has a FROM clause.
    Query { number_literal: Option<String>, projection_len: usize, has_from: bool },
    /// Any other statement, as text.
    Other(String),
}

/// Why a statement could not be executed.
#[derive(Debug)]
pub enum ExecutorError {
    Parse(String),
    UnsupportedStatement(String),
    Execution(String),
}

/// The reply to one executed plan.
#[derive(Debug, PartialEq, Eq)]
pub enum Reply {
    /// A transaction began; the tag is "BEGIN".
    TransactionStart(String),
    /// A transaction ended; the tag is "COMMIT" or "ROLLBACK".
    TransactionEnd(String),
    /// One row of one INT4 column named `column`, holding `value`.
    SingleValue { column: String, value: i32 },
}

pub open spec fn is_select_one(shape: StatementShape) -> bool {
    shape matches StatementShape::Query { number_literal: Some(n), projection_len, has_from }
        && projection_len == 1 && !has_from && n@ == seq!['1']
}

/// Plans a statement: transaction control, `SELECT 1`, or unsupported.
pub fn plan(shape: &StatementShape) -> (r: Plan)
    ensures
        shape is StartTransaction <==> r is StartTransaction,
        shape is Rollback <==> r is Rollback,
        shape is Commit <==> r is Commit,
        is_select_one(*shape) <==> r is SelectOne,
        shape matches StatementShape::Other(t) ==> (r matches Plan::Unsupported(m) && m@ == t@),
        shape is Query && !is_select_one(*shape) ==> (r matches Plan::Unsupported(m) && m@ == "Only SELECT 1 is supported"@),
{
    let one = "1";
    proof {
        reveal_strlit("1");
        assert(one@ =~= seq!['1']);
    }
    match shape {
        StatementShape::StartTransaction => Plan::StartTransaction,
        StatementShape::Rollback => Plan::Rollback,
        StatementShape::Commit => Plan::Commit,
        StatementShape::Query { number_literal, projection_len, has_from } => {
            if *projection_len == 1 && !*has_from {
                if let Some(n) = number_literal {
                    if names_equal(n.as_str(), one) {
                        return Plan::SelectOne;
                    }
                }
            }
            Plan::Unsupported(String::from_str("Only SELECT 1 is supported"))
        },
        StatementShape::Other(text) => Plan::Unsupported(text.clone()),
    }
}

pub struct Executor {}

impl Executor {
    pub fn new() -> (r: Executor) {
        Executor {  }
    }

    /// The reply to a plan: transaction control is acknowledged with its
    /// tag, `SELECT 1` answers one INT4 value 1, anything else is an error.
    pub fn execute_plan(&self, plan: Plan) -> (r: Result<Reply, ExecutorError>)
        ensures
            plan is StartTransaction ==> (r matches Ok(Reply::TransactionStart(t)) && t@ == "BEGIN"@),
            plan is Rollback ==> (r matches Ok(Reply::TransactionEnd(t)) && t@ == "ROLLBACK"@),
            plan is Commit ==> (r matches Ok(Reply::TransactionEnd(t)) && t@ == "COMMIT"@),
            plan is SelectOne ==> (r matches Ok(Reply::SingleValue { column, value }) && value == 1
                && column@ == "?column?"@),
            plan matches Plan::Unsupported(m) ==> (r matches Err(ExecutorError::UnsupportedStatement(e)) && e@ == m@),
    {
        match plan {
            Plan::StartTransaction => Ok(Reply::TransactionStart(String::from_str("BEGIN"))),
            Plan::Rollback => Ok(Reply::TransactionEnd(String::from_str("ROLLBACK"))),
            Plan::Commit => Ok(Reply::TransactionEnd(String::from_str("COMMIT"))),
            Plan::SelectOne => Ok(Reply::SingleValue { column: String::from_str("?column?"), value: 1 }),
            Plan::Unsupported(msg) => Err(ExecutorError::UnsupportedStatement(msg)),
        }
    }
}

} // verus!
