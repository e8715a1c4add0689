//! A plan never turns away a document with a match.

use vstd::prelude::*;

use crate::extract::{emissions, has_gram, law_scan_emits_the_grams};
use crate::hashing::{gram_hash, HashKey, FOLD_SALT};
use crate::query::analyze::fold::planned;
use crate::query::analyze::PlanContext;
use crate::query::hir::{law_matches_by_syntax, matched, Regex, Syntax};
use crate::query::needs::RootNeeds;
use crate::query::plan::{all_needs_hold, expr_holds, Expr, GramKey, Index, ScanNeed, ScanSummary};
use crate::query::planner::lower::{expr_of, shapes_of};
use crate::query::parser::{pattern_syntax, query_flags};
use crate::query::planner::{context_of, is_plan, is_query_plan, with_needs};
use crate::query::soundness::lowered::{folded_at, index_of, indexed, key_at, lemma_lowered};
use crate::query::soundness::needed::{law_needs_never_miss, summarizes};
use crate::query::strings::lowered;
use crate::table::WeightTable;

verus! {

/// Conditions that hold may be put beside an expression that holds.
proof fn lemma_with_needs(e: Expr, needs: Seq<ScanNeed>, ix: Index)
    requires
        expr_holds(e, ix),
        all_needs_hold(needs, ix),
    ensures
        expr_holds(with_needs(e, needs), ix),
{
    if needs.len() > 0 {
        match e {
            Expr::AllOf { grams, needs: own, children } => {
                let all = own + needs;
                assert forall|i: int| 0 <= i < all.len() implies (ix.need)(#[trigger] all[i]) by {
                    if i < own.len() {
                        assert(all[i] == own[i]);
                    } else {
                        assert(all[i] == needs[i - own.len()]);
                    }
                }
                assert(all_needs_hold(all, ix));
            },
            Expr::AnyOf { grams, needs: own, children } => {
                assert(seq![e][0] == e);
            },
            _ => {},
        }
    }
}

/// A plan never misses: a document in which the pattern matches anywhere
/// satisfies the plan, whatever the table, by its grams, by where they stand
/// and by its summary.
///
/// The grams of the document are those of its bytes as they are, without line
/// sentinels around them, and those of its folded bytes.
pub proof fn law_matching_documents_pass(
    e: Expr,
    table: WeightTable,
    ctx: PlanContext,
    h: Regex,
    d: Seq<u8>,
    a: int,
    b: int,
    summary: ScanSummary,
)
    requires
        h.wf(),
        !ctx.line_sentinels,
        is_plan(e, table, ctx, h),
        matched(h, d, a, b),
        summarizes(summary, d),
    ensures
        expr_holds(e, index_of(table, d, summary)),
{
    let ix = index_of(table, d, summary);
    let q = expr_of(planned(table, ctx, h), ctx.fold, shapes_of(h, ctx.fold));
    let needs = choose|needs: RootNeeds| #[trigger]
        needs.describes(h) && e == with_needs(q, needs.list());
    lemma_lowered(table, ctx, h, d, a, b, summary);
    law_needs_never_miss(needs, h, d, a, b, summary);
    assert forall|i: int| 0 <= i < needs.list().len() implies (ix.need)(
        #[trigger] needs.list()[i],
    ) by {}
    lemma_with_needs(q, needs.list(), ix);
}

/// The pattern matches the span `a..b` of the document.
pub open spec fn pattern_matches(pattern: Seq<char>, d: Seq<u8>, a: int, b: int) -> bool {
    exists|h: Regex|
        pattern_syntax(pattern, query_flags()) == Ok::<Syntax, Seq<char>>(h.syntax())
            && #[trigger] matched(h, d, a, b)
}

/// What [`crate::query::query`] plans for a pattern, every document that the
/// pattern matches satisfies.
pub proof fn law_query_never_misses(
    e: Expr,
    table: WeightTable,
    pattern: Seq<char>,
    d: Seq<u8>,
    a: int,
    b: int,
    summary: ScanSummary,
)
    requires
        is_query_plan(e, table, pattern),
        pattern_matches(pattern, d, a, b),
        summarizes(summary, d),
    ensures
        expr_holds(e, index_of(table, d, summary)),
{
    let ctx = context_of(pattern);
    let h = choose|h: Regex|
        h.wf() && pattern_syntax(pattern, query_flags()) == Ok::<Syntax, Seq<char>>(h.syntax())
            && #[trigger] is_plan(e, table, ctx, h);
    let k = choose|k: Regex|
        pattern_syntax(pattern, query_flags()) == Ok::<Syntax, Seq<char>>(k.syntax())
            && #[trigger] matched(k, d, a, b);
    law_matches_by_syntax(k, h, d, a, b);
    law_matching_documents_pass(e, table, ctx, h, d, a, b, summary);
}

/// Some gram was emitted with this key.
pub open spec fn emitted(out: Seq<(Seq<u8>, u64)>, k: GramKey) -> bool {
    exists|j: int| 0 <= j < out.len() && (#[trigger] out[j]).1 == k.0
}

/// The keys of an index are those that scans emit: a scan of the text in the
/// primary space, and one of the folded text in the folded space.
pub proof fn law_indexed_keys_are_scanned(
    t: WeightTable,
    d: Seq<u8>,
    k: GramKey,
    primary: HashKey,
    folded: HashKey,
)
    requires
        indexed(t, d, k),
        primary.secret() == 0,
        folded.secret() == FOLD_SALT,
    ensures
        emitted(emissions(t, d, primary), k) || emitted(emissions(t, lowered(d), folded), k),
{
    if exists|p: int, e: int| key_at(t, d, k, p, e) {
        let (p, e) = choose|p: int, e: int| key_at(t, d, k, p, e);
        let g = d.subrange(p, e);
        assert(has_gram(t, d, g));
        law_scan_emits_the_grams(t, d, primary, g);
        let out = emissions(t, d, primary);
        let j = choose|j: int| 0 <= j < out.len() && out[j] == (g, gram_hash(g, primary));
        assert(out[j].1 == k.0);
    } else {
        let (p, e) = choose|p: int, e: int| folded_at(t, d, k, p, e);
        let g = lowered(d).subrange(p, e);
        assert(has_gram(t, lowered(d), g));
        law_scan_emits_the_grams(t, lowered(d), folded, g);
        let out = emissions(t, lowered(d), folded);
        let j = choose|j: int| 0 <= j < out.len() && out[j] == (g, gram_hash(g, folded));
        assert(out[j].1 == k.0);
    }
}

} // verus!
