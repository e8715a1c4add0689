//! What an analysis step leaves as it was: the table and the index format.

use vstd::prelude::*;

use crate::query::algebra::Tree;
use crate::query::analyze::fold::{
    alternation_upto, analyzed_in, begun, branches_finished, concat_finished, concat_upto,
    merged_from, relieved, row_joined, rows_joined, variant_joined, variants_crossed, variants_of,
    Progress, MAX_CONCAT_ALTERNATIVES,
};
use crate::query::analyze::looks::{junctions, trailing_split};
use crate::query::analyze::reach::{copy_sides, end_relief, part_relief, part_sides};
use crate::query::analyze::repeat::{copies_upto, counts_upto, expanded, powered, repeated};
use crate::query::analyze::{Sides, Stage};
use crate::query::combine::{alternated, concatenated, crosses_bounded};
use crate::query::covers::{and_set, with_set, with_truncated};
use crate::query::flush::{
    exact_added, exact_flushed, flush_spilled, large_flushed, set_simplified, sets_flushed,
    simplified,
};
use crate::query::hir::{Assertion, Regex};
use crate::query::info::Info;
use crate::query::order::Order;

verus! {

/// The two stages belong to the same table, index format and flush phase.
pub open spec fn kept(a: Stage, b: Stage) -> bool {
    a.table == b.table && a.ctx == b.ctx && a.finalizing == b.finalizing
}

proof fn kept_with_truncated(g: Stage, q: Tree, s: Seq<Seq<u8>>, order: Order, cap: int)
    ensures
        kept(g, with_truncated(g, q, s, order, cap).1),
    decreases crate::query::strings::max_len(s),
{
    let m = crate::query::strings::max_len(s);
    if m > 3 {
        let next = crate::query::order::cleaned(
            order,
            crate::query::strings::cut_all(order, s, m - 1),
        );
        crate::query::covers::lemma_cut_shrinks(order, s, m - 1);
        kept_with_truncated(g, q, next, order, cap);
    }
}

pub proof fn kept_with_set(g: Stage, q: Tree, s: Seq<Seq<u8>>, order: Order, windows: bool)
    ensures
        kept(g, with_set(g, q, s, order, windows).1),
    decreases (if windows { 1int } else { 0int }),
{
    kept_with_truncated(g, q, s, order, crate::query::analyze::flush_limit(g));
    if windows {
        if let Some(heads) = crate::query::covers::edge_of(s, Order::Prefix) {
            kept_with_set(g, q, heads, Order::Prefix, false);
        }
        let (q0, g0) = match crate::query::covers::edge_of(s, Order::Prefix) {
            Some(heads) => with_set(g, q, heads, Order::Prefix, false),
            None => (q, g),
        };
        if let Some(tails) = crate::query::covers::edge_of(s, Order::Suffix) {
            kept_with_set(g0, q0, tails, Order::Suffix, false);
        }
    }
}

/// A flush keeps the stage but for the budget.
pub proof fn kept_and_set(g: Stage, q: Tree, s: Seq<Seq<u8>>, order: Order)
    ensures
        kept(g, and_set(g, q, s, order).1),
{
    reveal(and_set);
    kept_with_set(g, q, s, order, true);
}

pub proof fn kept_exact_added(g: Stage, x: Info)
    ensures
        kept(g, exact_added(g, x).1),
{
    if let Some(e) = x.exact {
        kept_and_set(g, x.query, e, Order::Prefix);
    }
}

pub proof fn kept_sets_flushed(g: Stage, x: Info)
    ensures
        kept(g, sets_flushed(g, x).1),
{
    reveal(sets_flushed);
    kept_and_set(g, x.query, x.prefix, Order::Prefix);
    let (q1, g1) = and_set(g, x.query, x.prefix, Order::Prefix);
    kept_and_set(g1, q1, x.suffix, Order::Suffix);
}

pub proof fn kept_set_simplified(g: Stage, x: Info, order: Order, force: bool)
    ensures
        kept(g, set_simplified(g, x, order, force).1),
{
    let t = crate::query::order::cleaned(order, crate::query::flush::edge_set(x, order));
    let ((q1, g1), t1, flushed) = large_flushed(g, x.query, x.can_empty, t, order);
    kept_and_set(g1, q1, t1, order);
}

pub proof fn kept_simplified(g: Stage, x: Info, force: bool)
    ensures
        kept(g, simplified(g, x, force).1),
{
    reveal(simplified);
    let x1 = crate::query::flush::exact_cleaned(x);
    kept_exact_added(g, x1);
    let (x2, g2) = if crate::query::flush::exact_overflows(x1, force) {
        exact_flushed(g, x1)
    } else {
        (x1, g)
    };
    kept_set_simplified(g2, x2, Order::Prefix, force);
    let (x3, g3) = set_simplified(g2, x2, Order::Prefix, force);
    kept_set_simplified(g3, x3, Order::Suffix, force);
}

pub proof fn kept_flush_spilled(g: Stage, x: Info)
    ensures
        kept(g, flush_spilled(g, x).1),
{
    reveal(flush_spilled);
    kept_exact_added(g, x);
    let (y, g1) = exact_flushed(g, x);
    kept_simplified(g1, y, false);
}

pub proof fn kept_crosses_bounded(g: Stage, x: Info, y: Info)
    ensures
        kept(g, crosses_bounded(g, x, y).2),
{
    kept_flush_spilled(g, x);
    kept_flush_spilled(g, y);
}

pub proof fn kept_concatenated(g: Stage, x0: Info, y0: Info)
    ensures
        kept(g, concatenated(g, x0, y0).1),
{
    reveal(concatenated);
    kept_crosses_bounded(g, x0, y0);
    let (x, y, g1) = crosses_bounded(g, x0, y0);
    let q = crate::query::algebra::combined(x.query, y.query, crate::query::algebra::Op::And);
    let seam = crate::query::combine::seam_of(x, y);
    if let Some(boundary) = seam {
        kept_and_set(g1, q, boundary, Order::Prefix);
    }
    let (query, g2) = match seam {
        Some(boundary) => and_set(g1, q, boundary, Order::Prefix),
        None => (q, g1),
    };
    kept_simplified(
        g2,
        Info { query, ..crate::query::combine::joint_sets(x, y) },
        false,
    );
}

pub proof fn kept_alternated(g: Stage, x: Info, y: Info)
    ensures
        kept(g, alternated(g, x, y).1),
{
    reveal(alternated);
    kept_exact_added(g, x);
    kept_exact_added(g, y);
    let (qx, qy, g1) = if x.exact is Some && y.exact is None {
        let (x1, g1) = exact_added(g, x);
        (x1.query, y.query, g1)
    } else if y.exact is Some && x.exact is None {
        let (y1, g1) = exact_added(g, y);
        (x.query, y1.query, g1)
    } else {
        (x.query, y.query, g)
    };
    kept_simplified(
        g1,
        Info {
            query: crate::query::algebra::combined(qx, qy, crate::query::algebra::Op::Or),
            ..crate::query::combine::either_sets(x, y)
        },
        false,
    );
}

pub proof fn kept_powered(g: Stage, base: Info, k: int)
    ensures
        kept(g, powered(g, base, k).1),
    decreases k,
{
    if k > 0 {
        kept_powered(g, base, k - 1);
        let (x, g1) = powered(g, base, k - 1);
        kept_concatenated(g1, x, base);
    }
}

pub proof fn kept_copies_upto(g: Stage, base: Info, copies: int, whole: bool, n: int)
    ensures
        kept(g, copies_upto(g, base, copies, whole, n).1),
    decreases n,
{
    if n > 1 {
        kept_copies_upto(g, base, copies, whole, n - 1);
        let (x, g1) = copies_upto(g, base, copies, whole, n - 1);
        kept_concatenated(g1, x, base);
        kept_concatenated(g1, x, crate::query::analyze::repeat::plus_of(base));
    }
}

pub proof fn kept_expanded(g: Stage, base: Info, min: int, exact_count: bool)
    ensures
        kept(g, expanded(g, base, min, exact_count).1),
    decreases (if min == 2 { 1int } else { 0int }),
{
    let copies = crate::query::analyze::repeat::affordable(
        g,
        base,
        if min < crate::query::analyze::repeat::MAX_REPEAT_EXPAND {
            min
        } else {
            crate::query::analyze::repeat::MAX_REPEAT_EXPAND as int
        },
    );
    let whole = exact_count && copies == min;
    if min == 2 && !whole && copies == 2 {
        kept_powered(g, base, 2);
        let (two, g1) = powered(g, base, 2);
        kept_expanded(g1, base, 3, false);
        let (three, g2) = expanded(g1, base, 3, false);
        kept_sets_flushed(g2, three);
        let (flushed, g3) = sets_flushed(g2, three);
        kept_alternated(g3, two, flushed);
    } else {
        let extra = if copies >= 1 {
            copies - 1
        } else {
            0
        };
        let g1 = crate::query::analyze::spent(
            g,
            crate::num::clamp(crate::query::analyze::repeat::query_weight(base) * extra),
        );
        kept_copies_upto(g1, base, copies, whole, copies);
        let (x, g2) = copies_upto(g1, base, copies, whole, copies);
        kept_simplified(g2, x, false);
    }
}

pub proof fn kept_counts_upto(g: Stage, base: Info, min: int, n: int)
    ensures
        kept(g, counts_upto(g, base, min, n).1),
    decreases n - min,
{
    if n == min {
        kept_powered(g, base, n);
        let (x, g1) = powered(g, base, n);
        kept_sets_flushed(g1, x);
    } else if n > min {
        kept_counts_upto(g, base, min, n - 1);
        let (acc, g1) = counts_upto(g, base, min, n - 1);
        kept_powered(g1, base, n);
        let (x, g2) = powered(g1, base, n);
        kept_sets_flushed(g2, x);
        let (y, g3) = sets_flushed(g2, x);
        kept_alternated(g3, acc, y);
    }
}

pub proof fn kept_repeated(g: Stage, base: Info, min: int, max: Option<u32>)
    ensures
        kept(g, repeated(g, base, min, max).1),
{
    kept_expanded(g, base, min, false);
    kept_expanded(g, base, min, true);
    if let Some(m) = max {
        let g1 = crate::query::analyze::spent(
            g,
            crate::num::clamp(
                crate::query::analyze::repeat::query_weight(base)
                    * crate::query::analyze::repeat::sum_of(min, m as int),
            ),
        );
        kept_counts_upto(g1, base, min, m as int);
        if let Some(exact) = base.exact {
            if let Some(set) = crate::query::analyze::repeat::power_union(exact, min, m as int) {
                kept_simplified(
                    g,
                    Info {
                        can_empty: crate::query::analyze::repeat::has_empty(set),
                        exact: Some(set),
                        ..crate::query::info::blank()
                    },
                    false,
                );
            }
        }
    }
}

pub proof fn kept_merged_from(g: Stage, infos: Seq<Info>, i: int)
    ensures
        kept(g, merged_from(g, infos, i).1),
    decreases infos.len() - i,
{
    if i >= infos.len() - 1 {
        kept_sets_flushed(
            g,
            if infos.len() == 0 {
                crate::query::info::no_match()
            } else {
                infos.last()
            },
        );
    } else {
        kept_merged_from(g, infos, i + 1);
        let (acc, g1) = merged_from(g, infos, i + 1);
        kept_sets_flushed(g1, infos[i]);
        let (branch, g2) = sets_flushed(g1, infos[i]);
        kept_alternated(g2, branch, acc);
    }
}

pub proof fn kept_variant_joined(g: Stage, acc: Option<Info>, v: Info, pending: Seq<Assertion>)
    ensures
        kept(g, variant_joined(g, acc, v, pending).1),
{
    let (blocked, left, right) = junctions(pending, 0, acc, Some(v));
    if let Some(l) = left {
        kept_concatenated(g, l, right->0);
    }
}

pub proof fn kept_row_joined(
    g: Stage,
    acc: Option<Info>,
    vs: Seq<Info>,
    pending: Seq<Assertion>,
    m: int,
)
    ensures
        kept(g, row_joined(g, acc, vs, pending, m).1),
    decreases m,
{
    if m > 0 {
        kept_row_joined(g, acc, vs, pending, m - 1);
        let (row, g1) = row_joined(g, acc, vs, pending, m - 1);
        kept_variant_joined(g1, acc, vs[m - 1], pending);
    }
}

pub proof fn kept_rows_joined(
    g: Stage,
    accs: Seq<Option<Info>>,
    vs: Seq<Info>,
    pending: Seq<Assertion>,
    n: int,
)
    ensures
        kept(g, rows_joined(g, accs, vs, pending, n).1),
    decreases n,
{
    if n > 0 {
        kept_rows_joined(g, accs, vs, pending, n - 1);
        let (rows, g1) = rows_joined(g, accs, vs, pending, n - 1);
        kept_row_joined(g1, accs[n - 1], vs, pending, vs.len() as int);
    }
}

pub proof fn kept_variants_crossed(p: Progress, vs: Seq<Info>, g: Stage)
    ensures
        kept(g, variants_crossed(p, vs, g).stage),
{
    kept_merged_from(g, begun(p.accs), 0);
    let (accs, g1) = if p.accs.len() * vs.len() > MAX_CONCAT_ALTERNATIVES {
        let (m, g1) = crate::query::analyze::fold::merged(g, begun(p.accs));
        (seq![Some(m)], g1)
    } else {
        (p.accs, g)
    };
    kept_rows_joined(g1, accs, vs, p.pending, accs.len() as int);
}

pub proof fn kept_branches_finished(
    g: Stage,
    accs: Seq<Option<Info>>,
    trailing: Option<Info>,
    pending: Seq<Assertion>,
    n: int,
)
    ensures
        kept(g, branches_finished(g, accs, trailing, pending, n).1),
    decreases n,
{
    if n > 0 {
        kept_branches_finished(g, accs, trailing, pending, n - 1);
        let (infos, g1) = branches_finished(g, accs, trailing, pending, n - 1);
        if trailing is Some && accs[n - 1] is Some {
            kept_concatenated(g1, accs[n - 1]->0, trailing->0);
        }
    }
}

pub proof fn kept_concat_finished(p: Progress, trailing: Option<Info>)
    ensures
        kept(p.stage, concat_finished(p, trailing).1),
{
    kept_branches_finished(p.stage, p.accs, trailing, p.pending, p.accs.len() as int);
    let (infos, g) = branches_finished(
        p.stage,
        p.accs,
        trailing,
        p.pending,
        p.accs.len() as int,
    );
    kept_merged_from(g, infos, 0);
}

/// Analyzing an expression keeps the stage but for the budget.
pub proof fn kept_analyzed(g: Stage, h: Regex, e: Sides)
    ensures
        kept(g, analyzed_in(g, h, e).1),
    decreases h, 1int, 0int,
{
    match h {
        Regex::Capture(sub) => kept_analyzed(g, *sub, e),
        Regex::Concat(subs) => {
            let (n, trailing) = trailing_split(e.end, subs@);
            kept_concat_upto(g, h, e, n);
            let p = concat_upto(g, h, e, n);
            let relief = end_relief(g.ctx.line_sentinels, subs@, e, n);
            kept_concat_finished(relieved(p, relief), trailing);
        },
        Regex::Alternation(subs) => {
            if subs@.len() == 1 {
                kept_analyzed(g, subs@[0], e);
            } else if subs@.len() > 1 {
                kept_alternation_upto(g, h, e, subs@.len() as int);
            }
        },
        Regex::Repetition(rep) => {
            let copies = copy_sides(e, rep.max, *rep.sub);
            kept_analyzed(g, *rep.sub, copies);
            let (base, g1) = analyzed_in(g, *rep.sub, copies);
            kept_repeated(g1, base, rep.min as int, rep.max);
        },
        Regex::Literal(bytes) => kept_simplified(
            g,
            crate::query::analyze::fold::literal_folded(g.ctx, bytes@),
            false,
        ),
        Regex::Class(class) => kept_simplified(
            g,
            crate::query::analyze::fold::info_folded(
                g.ctx,
                crate::query::analyze::classes::class_info(class),
            ),
            false,
        ),
        _ => {},
    }
}

pub proof fn kept_variants_of(g: Stage, h: Regex, e: Sides)
    ensures
        kept(g, variants_of(g, h, e).1),
    decreases h, 2int, 0int,
{
    kept_analyzed(g, h, e);
}

pub proof fn kept_concat_upto(g: Stage, h: Regex, e: Sides, n: int)
    ensures
        kept(g, concat_upto(g, h, e, n).stage),
    decreases h, 0int, n,
{
    if let Regex::Concat(subs) = h {
        if 0 < n <= subs@.len() {
            kept_concat_upto(g, h, e, n - 1);
            let p = concat_upto(g, h, e, n - 1);
            if !p.dead && !(subs@[n - 1] is Look) {
                let on = g.ctx.line_sentinels;
                let part = part_sides(on, subs@, e, n);
                kept_variants_of(p.stage, subs@[n - 1], part);
                let (vs, g1) = variants_of(p.stage, subs@[n - 1], part);
                kept_variants_crossed(relieved(p, part_relief(on, subs@, e, n)), vs, g1);
            }
        }
    }
}

pub proof fn kept_alternation_upto(g: Stage, h: Regex, e: Sides, n: int)
    ensures
        kept(g, alternation_upto(g, h, e, n).1),
    decreases h, 0int, n,
{
    if let Regex::Alternation(subs) = h {
        if n == 1 && 1 <= subs@.len() {
            kept_analyzed(g, subs@[0], e);
            let (x, g1) = analyzed_in(g, subs@[0], e);
            kept_sets_flushed(g1, x);
        } else if 1 < n <= subs@.len() {
            kept_alternation_upto(g, h, e, n - 1);
            let (acc, g1) = alternation_upto(g, h, e, n - 1);
            kept_analyzed(g1, subs@[n - 1], e);
            let (x, g2) = analyzed_in(g1, subs@[n - 1], e);
            kept_sets_flushed(g2, x);
            let (y, g3) = sets_flushed(g2, x);
            kept_alternated(g3, acc, y);
        }
    }
}

} // verus!
