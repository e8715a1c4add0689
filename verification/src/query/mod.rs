//! Regex analysis into a sparse-gram plan.

pub mod algebra;
pub mod analyze;
pub mod ast;
pub mod combine;
pub mod covers;
pub mod edges;
pub mod flush;
pub mod gram;
pub mod hir;
pub mod info;
pub mod needs;
pub mod order;
pub mod parser;
pub mod pattern;
pub mod plan;
pub mod planner;
pub mod settings;
pub mod simplest;
pub mod soundness;
pub mod strings;
pub mod utf8;
pub mod validate;

use vstd::prelude::*;

use crate::query::hir::Syntax;
use crate::query::parser::{pattern_syntax, query_flags};
use crate::query::plan::{QueryError, QueryPlan};
use crate::query::planner::{is_query_plan, QueryPlanner};
use crate::query::validate::{fits, too_long, PatternValidator};
use crate::table::WeightTable;

verus! {

/// Fold one regex into the plan every document it matches satisfies.
pub fn query(table: &WeightTable, pattern: &str) -> (out: Result<QueryPlan, QueryError>)
    ensures
        match out {
            Ok(plan) => fits(pattern) && is_query_plan(plan@, *table, pattern@),
            Err(QueryError::InvalidRegex(text)) => fits(pattern) && pattern_syntax(
                pattern@,
                query_flags(),
            ) == Err::<Syntax, Seq<char>>(text@),
            Err(err) => !fits(pattern) && err == too_long(pattern),
        },
{
    match PatternValidator::validate(pattern) {
        Ok(pattern) => QueryPlanner::new(table).plan(pattern),
        Err(err) => Err(err),
    }
}

} // verus!
