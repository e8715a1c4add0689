//! Folding a regex tree bottom-up into a summary of its matches.

pub mod boundary;
pub mod classes;
pub mod fold;
pub mod looks;
pub mod reach;
pub mod repeat;
pub mod stages;

use vstd::prelude::*;

use crate::num::{add_to_max, clamp};
use crate::table::WeightTable;

verus! {

/// Flush the exact set once it holds more than this many strings.
///
/// Sparse grams keep gaining selectivity with window length, and broad finite
/// classes need to stay correlated across adjacent literals. The byte cap
/// below remains the practical limiter.
pub const MAX_EXACT: usize = 4096;

/// Upper bound on prefix and suffix set sizes.
pub const MAX_SET: usize = 128;

/// Upper bound on exact-set bytes retained before spilling into the query.
///
/// Sparse grams are variable-length, so retaining exact literals and classes
/// longer lets later concatenation form precise branch-specific covers before
/// the flush. This admits common two-slot source-code classes such as
/// `[A-Za-z][A-Za-z]` through a following literal while still rejecting larger
/// structured IDs before they can explode.
pub const MAX_EXACT_BYTES: usize = 65536;

/// Bytes a prefix/suffix string may grow to before its window is flushed;
/// wider windows cover to longer, rarer sparse grams before the bytes are
/// dropped.
pub const BOUNDARY_GROW: usize = 15;

/// Bytes of context kept when a prefix/suffix string is truncated after its
/// window flushes, so the next window overlaps the flushed one and adjacency
/// across the cut is not lost.
pub const BOUNDARY_KEEP: usize = 8;

/// Grams the whole plan may accumulate across every flush. Long case-folded
/// patterns chain hundreds of variant windows whose grams barely overlap;
/// each costs an index lookup, and windows past this budget add almost no
/// selectivity, so further flushes are skipped (each skip only widens the
/// over-approximation).
pub const PLAN_GRAM_BUDGET: usize = 4096;

/// Least share of the budget that one flush may spend.
pub const MIN_FLUSH_GRAMS: usize = 256;

/// Index-format facts the analyzer plans against.
#[derive(Debug, Clone, Copy, PartialEq, Eq, Structural)]
pub struct PlanContext {
    /// Plan in the folded gram space: every string byte is ASCII-folded.
    pub fold: bool,
    /// The index brackets documents with virtual `\n` sentinels, so edge
    /// anchors may demand terminator-bridging grams.
    pub line_sentinels: bool,
}

impl Default for PlanContext {
    fn default() -> (ctx: PlanContext)
        ensures
            ctx == (PlanContext { fold: false, line_sentinels: false }),
    {
        PlanContext { fold: false, line_sentinels: false }
    }
}

/// What stands around an expression in its pattern, where the index has
/// sentinels.
#[derive(Debug, Clone, Copy, PartialEq, Eq, Structural)]
pub struct Sides {
    /// A line break right before the expression is left to it: nothing before
    /// it in the pattern takes that break or stands for it.
    pub start: bool,
    /// A line break right behind the expression is left to it.
    pub end: bool,
    /// The expression may start where the text does.
    pub first: bool,
    /// The expression may end where the text does.
    pub last: bool,
    /// The pattern matches with nothing before the expression too.
    pub head: bool,
    /// The pattern matches with nothing behind the expression too.
    pub tail: bool,
}

/// The sides of a whole pattern.
pub open spec fn whole(ctx: PlanContext) -> Sides {
    let on = ctx.line_sentinels;
    Sides { start: on, end: on, first: on, last: on, head: on, tail: on }
}

/// Folds a regex tree into a conservative gram query using a weight table.
pub struct Analyzer<'a> {
    table: &'a WeightTable,
    /// Gram instances charged to the plan so far: covering-set flushes plus
    /// repetition-expansion replications, capped by [`PLAN_GRAM_BUDGET`].
    flushed: usize,
    /// Whether the final flush is underway: the whole pattern's own edges
    /// flush even on a spent budget (bounded by the flush-cap floor), so a
    /// long pattern's tail is never left entirely unconstrained.
    finalizing: bool,
    ctx: PlanContext,
}

/// Where an analysis stands: the table, the index format, and the budget.
pub ghost struct Stage {
    pub table: WeightTable,
    pub ctx: PlanContext,
    pub flushed: int,
    pub finalizing: bool,
}

/// A flush may proceed: within budget, or finalizing.
pub open spec fn can_flush(g: Stage) -> bool {
    g.flushed < PLAN_GRAM_BUDGET || g.finalizing
}

/// Grams the plan may still add.
pub open spec fn grams_left(g: Stage) -> int {
    if g.flushed < PLAN_GRAM_BUDGET {
        PLAN_GRAM_BUDGET - g.flushed
    } else {
        0
    }
}

/// Most grams one flush may spend.
pub open spec fn flush_limit(g: Stage) -> int {
    if grams_left(g) / 2 > MIN_FLUSH_GRAMS {
        grams_left(g) / 2
    } else {
        MIN_FLUSH_GRAMS as int
    }
}

/// The stage after `n` more grams.
pub open spec fn spent(g: Stage, n: int) -> Stage {
    Stage { flushed: clamp(g.flushed + n), ..g }
}

impl<'a> Analyzer<'a> {
    /// Where this analysis stands.
    pub closed spec fn stage(self) -> Stage {
        Stage {
            table: *self.table,
            ctx: self.ctx,
            flushed: self.flushed as int,
            finalizing: self.finalizing,
        }
    }

    /// Bind an analyzer to a weight table, for an index of plain texts.
    #[must_use]
    pub fn new(table: &'a WeightTable) -> (analyzer: Analyzer<'a>)
        ensures
            analyzer.stage() == (Stage {
                table: *table,
                ctx: PlanContext { fold: false, line_sentinels: false },
                flushed: 0,
                finalizing: false,
            }),
    {
        Analyzer::with_context(table, PlanContext::default())
    }

    /// Bind an analyzer with explicit index-format context.
    pub fn with_context(table: &'a WeightTable, ctx: PlanContext) -> (analyzer: Analyzer<'a>)
        ensures
            analyzer.stage() == (Stage { table: *table, ctx, flushed: 0, finalizing: false }),
    {
        Analyzer { table, flushed: 0, finalizing: false, ctx }
    }

    /// The weight table this analyzer covers literals with.
    pub fn table(&self) -> (table: &WeightTable)
        ensures
            *table == self.stage().table,
    {
        self.table
    }

    /// Whether the plan still has budget for more covering grams; `spend`
    /// records grams a flush just added.
    pub fn within_budget(&self) -> (within: bool)
        ensures
            within == (self.stage().flushed < PLAN_GRAM_BUDGET),
    {
        self.flushed < PLAN_GRAM_BUDGET
    }

    /// Record grams a flush added toward [`PLAN_GRAM_BUDGET`].
    pub fn spend(&mut self, grams: usize)
        ensures
            final(self).stage() == spent(old(self).stage(), grams as int),
    {
        self.flushed = add_to_max(self.flushed, grams);
    }

    /// Whether a flush may proceed: within budget, or finalizing.
    pub fn may_flush(&self) -> (may: bool)
        ensures
            may == can_flush(self.stage()),
    {
        self.within_budget() || self.finalizing
    }

    /// Enter the final flush of the whole pattern's edges.
    pub fn begin_final_flush(&mut self)
        ensures
            final(self).stage() == (Stage { finalizing: true, ..old(self).stage() }),
    {
        self.finalizing = true;
    }

    /// Grams the plan may still add before hitting [`PLAN_GRAM_BUDGET`].
    pub fn budget_left(&self) -> (left: usize)
        ensures
            left == grams_left(self.stage()),
    {
        if self.flushed < PLAN_GRAM_BUDGET {
            PLAN_GRAM_BUDGET - self.flushed
        } else {
            0
        }
    }

    /// Most grams one flush may spend: half the remaining budget, floored
    /// so a nearly spent budget still covers something meaningful. The
    /// geometric halving guarantees every region of a long pattern gets a
    /// share instead of the head spending everything.
    pub fn flush_cap(&self) -> (cap: usize)
        ensures
            cap == flush_limit(self.stage()),
            cap <= PLAN_GRAM_BUDGET,
    {
        let half: usize = self.budget_left() / 2;
        if half > MIN_FLUSH_GRAMS {
            half
        } else {
            MIN_FLUSH_GRAMS
        }
    }

    /// Whether the scan format brackets documents with line sentinels.
    pub fn line_sentinels(&self) -> (on: bool)
        ensures
            on == self.stage().ctx.line_sentinels,
    {
        self.ctx.line_sentinels
    }

    /// Whether the plan is made in the folded gram space.
    pub fn folds(&self) -> (on: bool)
        ensures
            on == self.stage().ctx.fold,
    {
        self.ctx.fold
    }
}

} // verus!
