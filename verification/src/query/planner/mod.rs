//! Query planning from a regex tree to public plans.

pub mod lower;

use vstd::prelude::*;

use crate::query::analyze::fold::planned;
use crate::query::analyze::{Analyzer, PlanContext};
use crate::query::hir::{Regex, Syntax};
use crate::query::needs::RootNeeds;
use crate::query::parser::{pattern_syntax, query_flags, QueryParser};
use crate::query::pattern::inline_insensitive;
use crate::query::plan::{Expr, GramNeedle, PlanExpr, QueryError, QueryPlan, ScanNeed};
use crate::query::planner::lower::{expr_of, shapes_of};
use crate::query::settings::QuerySettings;
use crate::query::validate::ValidatedPattern;
use crate::table::WeightTable;

verus! {

/// Builds sparse-gram query plans against one weight table.
pub struct QueryPlanner<'a> {
    table: &'a WeightTable,
}

/// An expression with summary conditions that must hold as well.
pub open spec fn with_needs(e: Expr, needs: Seq<ScanNeed>) -> Expr {
    if needs.len() == 0 {
        e
    } else {
        match e {
            Expr::Nothing => e,
            Expr::All => Expr::AllOf { grams: Seq::empty(), needs, children: Seq::empty() },
            Expr::AllOf { grams, needs: own, children } => Expr::AllOf {
                grams,
                needs: own + needs,
                children,
            },
            other => Expr::AllOf { grams: Seq::empty(), needs, children: seq![other] },
        }
    }
}

/// `e` is the plan of the pattern: the analyzed query with its grams lowered
/// to keys, and beside it the conditions on the document's summary.
pub open spec fn is_plan(e: Expr, table: WeightTable, ctx: PlanContext, h: Regex) -> bool {
    exists|needs: RootNeeds| #[trigger]
        needs.describes(h) && e == with_needs(
            expr_of(planned(table, ctx, h), ctx.fold, shapes_of(h, ctx.fold)),
            needs.list(),
        )
}

/// The index format a pattern is planned for.
pub open spec fn context_of(pattern: Seq<char>) -> PlanContext {
    PlanContext {
        fold: QuerySettings::CASE_FOLDED_SUPPLEMENTS && inline_insensitive(pattern),
        line_sentinels: QuerySettings::LINE_SENTINELS,
    }
}

/// `e` is the plan of a pattern that parses.
pub open spec fn is_query_plan(e: Expr, table: WeightTable, pattern: Seq<char>) -> bool {
    exists|h: Regex|
        h.wf() && pattern_syntax(pattern, query_flags()) == Ok::<Syntax, Seq<char>>(h.syntax())
            && #[trigger] is_plan(e, table, context_of(pattern), h)
}

impl<'a> QueryPlanner<'a> {
    /// The table that plans are made against.
    pub closed spec fn bound(self) -> WeightTable {
        *self.table
    }

    /// Bind the planner to a weight table.
    #[must_use]
    pub fn new(table: &'a WeightTable) -> (planner: QueryPlanner<'a>)
        ensures
            planner.bound() == *table,
    {
        QueryPlanner { table }
    }

    /// Plan one validated regex pattern; it fails when regex parsing fails, and
    /// only then.
    pub fn plan(&self, pattern: ValidatedPattern<'_>) -> (out: Result<QueryPlan, QueryError>)
        ensures
            match out {
                Ok(plan) => is_query_plan(plan@, self.bound(), pattern.text()),
                Err(QueryError::InvalidRegex(text)) => pattern_syntax(
                    pattern.text(),
                    query_flags(),
                ) == Err::<Syntax, Seq<char>>(text@),
                Err(_) => false,
            },
    {
        let parsed = match QueryParser::parse(pattern) {
            Ok(parsed) => parsed,
            Err(err) => {
                return Err(err);
            },
        };
        let fold = QuerySettings::CASE_FOLDED_SUPPLEMENTS && parsed.uses_folded_space();
        let ctx = PlanContext { fold, line_sentinels: QuerySettings::LINE_SENTINELS };
        assert(ctx == context_of(pattern.text()));
        let expr = self.plan_hir(parsed.hir(), ctx);
        assert(is_plan(expr.expr(), self.bound(), ctx, parsed.tree()));
        Ok(QueryPlan::new(expr))
    }

    /// Plan a regex tree in an index format.
    pub fn plan_hir(&self, hir: &Regex, ctx: PlanContext) -> (expr: PlanExpr)
        requires
            hir.wf(),
        ensures
            is_plan(expr.expr(), self.bound(), ctx, *hir),
    {
        let mut analyzer = Analyzer::with_context(self.table, ctx);
        let analyzed = analyzer.plan(hir);
        let needs = RootNeeds::from_hir(hir);
        with_root_needs(lower::query(&analyzed, ctx.fold, hir), needs)
    }
}

fn with_root_needs(expr: PlanExpr, needs: RootNeeds) -> (out: PlanExpr)
    ensures
        out.expr() == with_needs(expr.expr(), needs.list()),
{
    let needs = needs.into_vec();
    if needs.len() == 0 || expr.is_none() {
        return expr;
    }
    append_root_needs(expr, needs)
}

fn append_root_needs(expr: PlanExpr, new_needs: Vec<ScanNeed>) -> (out: PlanExpr)
    requires
        new_needs@.len() > 0,
        !(expr.expr() is Nothing),
    ensures
        out.expr() == with_needs(expr.expr(), new_needs@),
{
    let ghost before = expr.expr();
    let ghost added = new_needs@;
    let mut new_needs = new_needs;
    let out = match expr {
        PlanExpr::All => {
            let grams: Vec<GramNeedle> = Vec::new();
            let children: Vec<PlanExpr> = Vec::new();
            PlanExpr::AllOf { grams, needs: new_needs, children }
        },
        PlanExpr::AllOf { grams, needs, children } => {
            let mut needs = needs;
            needs.append(&mut new_needs);
            PlanExpr::AllOf { grams, needs, children }
        },
        other => {
            let grams: Vec<GramNeedle> = Vec::new();
            let mut children: Vec<PlanExpr> = Vec::new();
            children.push(other);
            PlanExpr::AllOf { grams, needs: new_needs, children }
        },
    };
    proof {
        let goal = with_needs(before, added);
        assert(out.expr()->AllOf_grams =~= goal->AllOf_grams);
        assert(out.expr()->AllOf_needs =~= goal->AllOf_needs);
        assert(out.expr()->AllOf_children =~= goal->AllOf_children);
    }
    out
}

} // verus!
