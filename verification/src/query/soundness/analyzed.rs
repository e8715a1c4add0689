//! A plan never misses a match: every text that holds a match of the pattern
//! satisfies the pattern's gram query.

use vstd::prelude::*;

use crate::extract::stream::document;
use crate::extract::ScanOptions;
use crate::query::algebra::{holds, tree_wf};
use crate::query::analyze::classes::{class_info, mixed_split};
use crate::query::analyze::fold::{
    alternation_upto, analyzed, analyzed_in, begun, branch_finished, branches_finished,
    concat_finished, concat_upto, info_folded, lemma_look_sides, literal_folded, merged,
    merged_from, planned, relieved, row_joined, rows_joined, trailing_joined, variant_joined,
    variants_crossed, variants_of, Progress, MAX_CONCAT_ALTERNATIVES,
};
use crate::query::analyze::looks::{
    end_terminator_strings, junctions, look_noted, start_terminator_strings, terminator,
    trailing_split,
};
use crate::query::analyze::reach::{
    bare_after, claimed, claims, closes_line, copy_sides, dropped_after, end_relief, ends_over,
    free_after, is_break, meets_break, near_after, only_looks, part_relief, part_sides, sees_crlf,
    trims, Relief,
};
use crate::query::analyze::stages::{
    kept_alternation_upto, kept_analyzed, kept_branches_finished, kept_concat_upto,
    kept_merged_from, kept_row_joined, kept_rows_joined, kept_sets_flushed, kept_simplified,
    kept_variants_of,
};
use crate::query::analyze::{whole, PlanContext, Sides, Stage};
use crate::query::edges::Edge;
use crate::query::flush::{sets_flushed, simplified};
use crate::query::hir::{concat_matches, look_holds, matched, repeats, split_at, Assertion, Regex};
use crate::query::info::{no_match, Info};
use crate::query::soundness::combined::{lemma_alternated, lemma_concatenated};
use crate::query::soundness::flushed::{lemma_exact_added, lemma_sets_flushed, lemma_simplified};
use crate::query::soundness::junctions::{
    fits_before, fits_behind, framed, lemma_empty_anywhere, lemma_framed, lemma_junctions_fit,
    lemma_junctions_settled, looks_fit, looks_hold, offset, stream_of,
};
use crate::query::soundness::members::{
    lemma_class_info, lemma_class_settled, lemma_folded_settled, lemma_info_folded,
    lemma_mixed_split, lists,
};
use crate::query::needs::facts::shortest;
use crate::query::soundness::needed::{lemma_last_copy, lemma_repeats_bounds, lemma_shortest};
use crate::query::soundness::reached::{
    lemma_after_claim, lemma_bare_before, lemma_claimed_on, lemma_concat_order, lemma_copies_end,
    lemma_dropped_before, lemma_drops, lemma_near_before, lemma_quiet, lemma_relieved,
    lemma_relieved_before, lemma_relieved_behind, lemma_span, lemma_stream_byte, lemma_trims,
    looks_true, quiet,
};
use crate::query::soundness::repeated::{chained, lemma_empty_string, lemma_repeated};
use crate::query::soundness::shown::lemma_shown;
use crate::query::soundness::{admits, present, settled};
use crate::query::strings::lowered;
use crate::table::WeightTable;

verus! {

/// An alternative that has begun admits the span so far; one that has not has
/// matched nothing yet.
pub open spec fn alternative_admits(
    acc: Option<Info>,
    t: WeightTable,
    f: Seq<u8>,
    a: int,
    m: int,
) -> bool {
    match acc {
        Some(x) => admits(x, t, f, a, m),
        None => a == m && 0 <= a <= f.len(),
    }
}

/// Some alternative admits the span so far.
pub open spec fn some_alternative(
    accs: Seq<Option<Info>>,
    t: WeightTable,
    f: Seq<u8>,
    a: int,
    m: int,
) -> bool {
    exists|i: int| #[trigger]
        split_at(i) && 0 <= i < accs.len() && alternative_admits(accs[i], t, f, a, m)
}

/// Some summary admits the span.
pub open spec fn some_admits(infos: Seq<Info>, t: WeightTable, f: Seq<u8>, a: int, b: int) -> bool {
    exists|i: int| #[trigger] split_at(i) && 0 <= i < infos.len() && admits(infos[i], t, f, a, b)
}

/// Every begun alternative is settled.
pub open spec fn alternatives_settled(accs: Seq<Option<Info>>) -> bool {
    forall|i: int| 0 <= i < accs.len() ==> (#[trigger] accs[i] matches Some(x) ==> settled(x))
}

/// Every summary is settled.
pub open spec fn all_settled(infos: Seq<Info>) -> bool {
    forall|i: int| 0 <= i < infos.len() ==> settled(#[trigger] infos[i])
}

proof fn lemma_variant_joined(
    g: Stage,
    acc: Option<Info>,
    v: Info,
    pending: Seq<Assertion>,
    d: Seq<u8>,
    a: int,
    k: int,
    b: int,
)
    requires
        acc matches Some(x) ==> settled(x),
        settled(v),
    ensures
        variant_joined(g, acc, v, pending).0 matches Some(x) ==> settled(x),
        ({
            let f = framed(g.ctx, d);
            alternative_admits(acc, g.table, f, a, k) && admits(v, g.table, f, k, b) && looks_fit(
                g.ctx,
                pending,
                d,
                a,
                k,
                b,
            ) ==> (variant_joined(g, acc, v, pending).0 matches Some(x) && admits(
                x,
                g.table,
                f,
                a,
                b,
            ))
        }),
{
    let f = framed(g.ctx, d);
    let (blocked, left, right) = junctions(pending, 0, acc, Some(v));
    lemma_junctions_settled(pending, 0, acc, Some(v));
    crate::query::analyze::fold::lemma_junctions_right(pending, 0, acc, Some(v));
    if let Some(l) = left {
        lemma_concatenated(g, f, l, right->0, a, k, b);
    }
    if alternative_admits(acc, g.table, f, a, k) && admits(v, g.table, f, k, b) && looks_fit(
        g.ctx,
        pending,
        d,
        a,
        k,
        b,
    ) {
        lemma_junctions_fit(pending, 0, acc, Some(v), g.table, g.ctx, d, a, k, b);
    }
}

proof fn lemma_row_joined(
    g: Stage,
    acc: Option<Info>,
    vs: Seq<Info>,
    pending: Seq<Assertion>,
    n: int,
    d: Seq<u8>,
    a: int,
    k: int,
    b: int,
)
    requires
        acc matches Some(x) ==> settled(x),
        all_settled(vs),
        0 <= n <= vs.len(),
    ensures
        all_settled(row_joined(g, acc, vs, pending, n).0),
        ({
            let f = framed(g.ctx, d);
            alternative_admits(acc, g.table, f, a, k) && looks_fit(g.ctx, pending, d, a, k, b)
                && some_admits(vs.take(n), g.table, f, k, b) ==> some_admits(
                row_joined(g, acc, vs, pending, n).0,
                g.table,
                f,
                a,
                b,
            )
        }),
    decreases n,
{
    let f = framed(g.ctx, d);
    if n > 0 {
        lemma_row_joined(g, acc, vs, pending, n - 1, d, a, k, b);
        kept_row_joined(g, acc, vs, pending, n - 1);
        let (row, g1) = row_joined(g, acc, vs, pending, n - 1);
        lemma_variant_joined(g1, acc, vs[n - 1], pending, d, a, k, b);
        let (next, g2) = variant_joined(g1, acc, vs[n - 1], pending);
        let all = row_joined(g, acc, vs, pending, n).0;
        if alternative_admits(acc, g.table, f, a, k) && looks_fit(g.ctx, pending, d, a, k, b)
            && some_admits(vs.take(n), g.table, f, k, b) {
            let j = choose|j: int| #[trigger]
                split_at(j) && 0 <= j < n && admits(vs.take(n)[j], g.table, f, k, b);
            if j == n - 1 {
                assert(split_at(row.len() as int));
                assert(admits(all[row.len() as int], g.table, f, a, b));
            } else {
                assert(split_at(j) && admits(vs.take(n - 1)[j], g.table, f, k, b));
                let i = choose|i: int| #[trigger]
                    split_at(i) && 0 <= i < row.len() && admits(row[i], g.table, f, a, b);
                assert(split_at(i) && admits(all[i], g.table, f, a, b));
            }
        }
    }
}

proof fn lemma_rows_joined(
    g: Stage,
    accs: Seq<Option<Info>>,
    vs: Seq<Info>,
    pending: Seq<Assertion>,
    n: int,
    d: Seq<u8>,
    a: int,
    k: int,
    b: int,
)
    requires
        alternatives_settled(accs),
        all_settled(vs),
        0 <= n <= accs.len(),
    ensures
        all_settled(rows_joined(g, accs, vs, pending, n).0),
        ({
            let f = framed(g.ctx, d);
            some_alternative(accs.take(n), g.table, f, a, k)
                && looks_fit(g.ctx, pending, d, a, k, b) && some_admits(vs, g.table, f, k, b) ==> some_admits(
                rows_joined(g, accs, vs, pending, n).0,
                g.table,
                f,
                a,
                b,
            )
        }),
    decreases n,
{
    let f = framed(g.ctx, d);
    if n > 0 {
        lemma_rows_joined(g, accs, vs, pending, n - 1, d, a, k, b);
        kept_rows_joined(g, accs, vs, pending, n - 1);
        let (rows, g1) = rows_joined(g, accs, vs, pending, n - 1);
        let acc = accs[n - 1];
        lemma_row_joined(g1, acc, vs, pending, vs.len() as int, d, a, k, b);
        let row = row_joined(g1, acc, vs, pending, vs.len() as int).0;
        let all = rows_joined(g, accs, vs, pending, n).0;
        assert(all == rows + row);
        assert(vs.take(vs.len() as int) =~= vs);
        if some_alternative(accs.take(n), g.table, f, a, k) && looks_fit(g.ctx, pending, d, a, k, b)
            && some_admits(vs, g.table, f, k, b) {
            let i = choose|i: int| #[trigger]
                split_at(i) && 0 <= i < n && alternative_admits(accs.take(n)[i], g.table, f, a, k);
            if i == n - 1 {
                let q = choose|q: int| #[trigger]
                    split_at(q) && 0 <= q < row.len() && admits(row[q], g.table, f, a, b);
                assert(split_at(rows.len() + q) && admits(all[rows.len() + q], g.table, f, a, b));
            } else {
                assert(split_at(i) && alternative_admits(accs.take(n - 1)[i], g.table, f, a, k));
                let q = choose|q: int| #[trigger]
                    split_at(q) && 0 <= q < rows.len() && admits(rows[q], g.table, f, a, b);
                assert(split_at(q) && admits(all[q], g.table, f, a, b));
            }
        }
    }
}

proof fn lemma_merged_from(g: Stage, f: Seq<u8>, infos: Seq<Info>, i: int, a: int, b: int)
    requires
        all_settled(infos),
        0 <= i,
    ensures
        settled(merged_from(g, infos, i).0),
        (exists|k: int| #[trigger]
            split_at(k) && i <= k < infos.len() && admits(infos[k], g.table, f, a, b)) ==> admits(
            merged_from(g, infos, i).0,
            g.table,
            f,
            a,
            b,
        ),
    decreases infos.len() - i,
{
    if i >= infos.len() - 1 {
        let x = if infos.len() == 0 {
            no_match()
        } else {
            infos.last()
        };
        lemma_sets_flushed(g, f, x, a, b);
        if exists|k: int| #[trigger]
            split_at(k) && i <= k < infos.len() && admits(infos[k], g.table, f, a, b) {
            let k = choose|k: int| #[trigger]
                split_at(k) && i <= k < infos.len() && admits(infos[k], g.table, f, a, b);
            assert(infos[k] == infos.last());
        }
    } else {
        lemma_merged_from(g, f, infos, i + 1, a, b);
        kept_merged_from(g, infos, i + 1);
        let (acc, g1) = merged_from(g, infos, i + 1);
        lemma_sets_flushed(g1, f, infos[i], a, b);
        kept_sets_flushed(g1, infos[i]);
        let (branch, g2) = sets_flushed(g1, infos[i]);
        lemma_alternated(g2, f, branch, acc, a, b);
        if exists|k: int| #[trigger]
            split_at(k) && i <= k < infos.len() && admits(infos[k], g.table, f, a, b) {
            let k = choose|k: int| #[trigger]
                split_at(k) && i <= k < infos.len() && admits(infos[k], g.table, f, a, b);
            if k > i {
                assert(split_at(k) && i + 1 <= k < infos.len() && admits(
                    infos[k],
                    g.table,
                    f,
                    a,
                    b,
                ));
            }
        }
    }
}

/// The alternatives so far: none lost, and the pending assertions are let hold
/// between the span `a..k` of the stream and the span `k..b`.
pub open spec fn on_track(
    p: Progress,
    t: WeightTable,
    ctx: PlanContext,
    d: Seq<u8>,
    a: int,
    k: int,
    b: int,
) -> bool {
    !p.dead && some_alternative(p.accs, t, framed(ctx, d), a, k) && looks_fit(
        ctx,
        p.pending,
        d,
        a,
        k,
        b,
    )
}

proof fn lemma_variants_crossed(
    p: Progress,
    vs: Seq<Info>,
    g: Stage,
    d: Seq<u8>,
    a: int,
    k: int,
    b: int,
)
    requires
        alternatives_settled(p.accs),
        all_settled(vs),
    ensures
        alternatives_settled(variants_crossed(p, vs, g).accs),
        ({
            let f = framed(g.ctx, d);
            on_track(p, g.table, g.ctx, d, a, k, b) && some_admits(vs, g.table, f, k, b) ==> {
                let next = variants_crossed(p, vs, g);
                !next.dead && next.pending.len() == 0 && some_alternative(
                    next.accs,
                    g.table,
                    f,
                    a,
                    b,
                )
            }
        }),
{
    let f = framed(g.ctx, d);
    let t = g.table;
    let begun_infos = begun(p.accs);
    let crowded = p.accs.len() * vs.len() > MAX_CONCAT_ALTERNATIVES;
    lemma_empty_string(t, f, 0);
    assert(all_settled(begun_infos)) by {
        assert forall|i: int| 0 <= i < begun_infos.len() implies settled(
            #[trigger] begun_infos[i],
        ) by {
            assert(p.accs[i] matches Some(x) ==> settled(x));
        }
    }
    lemma_merged_from(g, f, begun_infos, 0, a, k);
    kept_merged_from(g, begun_infos, 0);
    let (accs, g1) = if crowded {
        let (x, g1) = merged(g, begun_infos);
        (seq![Some(x)], g1)
    } else {
        (p.accs, g)
    };
    assert(alternatives_settled(accs));
    let good = on_track(p, t, g.ctx, d, a, k, b) && some_admits(vs, t, f, k, b);
    if good {
        let i = choose|i: int| #[trigger]
            split_at(i) && 0 <= i < p.accs.len() && alternative_admits(p.accs[i], t, f, a, k);
        if crowded {
            if p.accs[i] is None {
                lemma_empty_string(t, f, a);
            }
            assert(split_at(i) && 0 <= i < begun_infos.len() && admits(begun_infos[i], t, f, a, k));
            assert(split_at(0) && alternative_admits(accs[0], t, f, a, k));
        }
        assert(some_alternative(accs, t, f, a, k));
    }
    assert(accs.take(accs.len() as int) =~= accs);
    lemma_rows_joined(g1, accs, vs, p.pending, accs.len() as int, d, a, k, b);
    let infos = rows_joined(g1, accs, vs, p.pending, accs.len() as int).0;
    let next = variants_crossed(p, vs, g);
    assert(next.accs =~= Seq::new(infos.len(), |i: int| Some(infos[i])));
    assert forall|i: int| 0 <= i < next.accs.len() implies (#[trigger] next.accs[i] matches Some(
        x,
    ) ==> settled(x)) by {
        assert(settled(infos[i]));
    }
    if good {
        let q = choose|q: int| #[trigger]
            split_at(q) && 0 <= q < infos.len() && admits(infos[q], t, f, a, b);
        assert(split_at(q) && alternative_admits(next.accs[q], t, f, a, b));
    }
}

/// The trailing terminators admit the byte behind the match, where there are
/// any.
pub open spec fn trailing_admits(
    trailing: Option<Info>,
    t: WeightTable,
    f: Seq<u8>,
    k: int,
    b: int,
) -> bool {
    match trailing {
        Some(term) => admits(term, t, f, k, b),
        None => k == b,
    }
}

proof fn lemma_branches_finished(
    g: Stage,
    accs: Seq<Option<Info>>,
    trailing: Option<Info>,
    pending: Seq<Assertion>,
    n: int,
    d: Seq<u8>,
    a: int,
    k: int,
    b: int,
)
    requires
        alternatives_settled(accs),
        trailing matches Some(term) ==> settled(term),
        0 <= n <= accs.len(),
    ensures
        all_settled(branches_finished(g, accs, trailing, pending, n).0),
        ({
            let f = framed(g.ctx, d);
            some_alternative(accs.take(n), g.table, f, a, k) && looks_fit(
                g.ctx,
                pending,
                d,
                a,
                b,
                b,
            ) && trailing_admits(trailing, g.table, f, k, b) ==> some_admits(
                branches_finished(g, accs, trailing, pending, n).0,
                g.table,
                f,
                a,
                b,
            )
        }),
    decreases n,
{
    let f = framed(g.ctx, d);
    if n > 0 {
        lemma_branches_finished(g, accs, trailing, pending, n - 1, d, a, k, b);
        kept_branches_finished(g, accs, trailing, pending, n - 1);
        let (infos, g1) = branches_finished(g, accs, trailing, pending, n - 1);
        let acc = accs[n - 1];
        let x = trailing_joined(g1, acc, trailing).0;
        lemma_empty_string(g.table, f, 0);
        if acc is Some && trailing is Some {
            lemma_concatenated(g1, f, acc->0, trailing->0, a, k, b);
        }
        lemma_junctions_settled(pending, 0, Some(x), None);
        let next = branch_finished(g1, acc, trailing, pending).0;
        let all = branches_finished(g, accs, trailing, pending, n).0;
        if some_alternative(accs.take(n), g.table, f, a, k) && looks_fit(
            g.ctx,
            pending,
            d,
            a,
            b,
            b,
        ) && trailing_admits(trailing, g.table, f, k, b) {
            let i = choose|i: int| #[trigger]
                split_at(i) && 0 <= i < n && alternative_admits(
                    accs.take(n)[i],
                    g.table,
                    f,
                    a,
                    k,
                );
            if i == n - 1 {
                if acc is None && trailing is None {
                    lemma_empty_string(g.table, f, a);
                }
                assert(admits(x, g.table, f, a, b));
                lemma_junctions_fit(pending, 0, Some(x), None, g.table, g.ctx, d, a, b, b);
                crate::query::analyze::fold::lemma_junctions_right(pending, 0, Some(x), None);
                assert(next is Some);
                assert(split_at(infos.len() as int) && admits(
                    all[infos.len() as int],
                    g.table,
                    f,
                    a,
                    b,
                ));
            } else {
                assert(split_at(i) && alternative_admits(accs.take(n - 1)[i], g.table, f, a, k));
                let q = choose|q: int| #[trigger]
                    split_at(q) && 0 <= q < infos.len() && admits(infos[q], g.table, f, a, b);
                assert(split_at(q) && admits(all[q], g.table, f, a, b));
            }
        }
    }
}

/// At the end of a concatenation some alternative admits the span so far, and
/// with the trailing terminators behind it the pending assertions are let hold.
pub open spec fn comes_home(
    p: Progress,
    trailing: Option<Info>,
    d: Seq<u8>,
    a: int,
    k: int,
    b: int,
) -> bool {
    let g = p.stage;
    let f = framed(g.ctx, d);
    &&& !p.dead
    &&& some_alternative(p.accs, g.table, f, a, k)
    &&& looks_fit(g.ctx, p.pending, d, a, b, b)
    &&& trailing_admits(trailing, g.table, f, k, b)
}

proof fn lemma_concat_finished(
    p: Progress,
    trailing: Option<Info>,
    d: Seq<u8>,
    a: int,
    k: int,
    b: int,
)
    requires
        alternatives_settled(p.accs),
        trailing matches Some(term) ==> settled(term),
    ensures
        settled(concat_finished(p, trailing).0),
        comes_home(p, trailing, d, a, k, b) ==> admits(
            concat_finished(p, trailing).0,
            p.stage.table,
            framed(p.stage.ctx, d),
            a,
            b,
        ),
{
    let f = framed(p.stage.ctx, d);
    let n = p.accs.len() as int;
    lemma_branches_finished(p.stage, p.accs, trailing, p.pending, n, d, a, k, b);
    kept_branches_finished(p.stage, p.accs, trailing, p.pending, n);
    let (infos, g) = branches_finished(p.stage, p.accs, trailing, p.pending, n);
    assert(p.accs.take(n) =~= p.accs);
    lemma_merged_from(g, f, infos, 0, a, b);
    if comes_home(p, trailing, d, a, k, b) {
        let q = choose|q: int| #[trigger]
            split_at(q) && 0 <= q < infos.len() && admits(infos[q], p.stage.table, f, a, b);
        assert(split_at(q) && 0 <= q < infos.len() && admits(infos[q], g.table, f, a, b));
    }
}

proof fn lemma_literal(ctx: PlanContext, t: WeightTable, bytes: Seq<u8>, d: Seq<u8>, a: int, b: int)
    requires
        0 <= a <= b <= d.len(),
        d.subrange(a, b) == bytes,
    ensures
        admits(
            literal_folded(ctx, bytes),
            t,
            framed(ctx, d),
            a + offset(ctx),
            b + offset(ctx),
        ),
{
    let f = framed(ctx, d);
    let s = stream_of(ctx.fold, d).subrange(a, b);
    lemma_framed(ctx, d, a, b);
    if ctx.fold {
        assert(s =~= lowered(bytes));
    }
    if bytes.len() == 0 {
        lemma_empty_string(t, f, a + offset(ctx));
    } else {
        let e = literal_folded(ctx, bytes).exact->0;
        assert(e[0] == s);
    }
}

proof fn lemma_lists_admits(
    ctx: PlanContext,
    x: Info,
    t: WeightTable,
    d: Seq<u8>,
    a: int,
    b: int,
)
    requires
        0 <= a <= b <= d.len(),
        lists(x, d.subrange(a, b)),
    ensures
        admits(info_folded(ctx, x), t, framed(ctx, d), a + offset(ctx), b + offset(ctx)),
{
    let f = stream_of(ctx.fold, d);
    lemma_framed(ctx, d, a, b);
    lemma_info_folded(ctx, x, d.subrange(a, b));
    if ctx.fold {
        assert(f.subrange(a, b) =~= lowered(d.subrange(a, b)));
    }
    assert(tree_wf(x.query));
}

/// The terminators of an anchor that holds at `m` admit the byte of the stream
/// that it looks at.
proof fn lemma_terminators(ctx: PlanContext, t: WeightTable, look: Assertion, d: Seq<u8>, m: int)
    requires
        ctx.line_sentinels,
        0 <= m <= d.len(),
        look_holds(look, d, m),
    ensures
        start_terminator_strings(look) matches Some(strings) ==> settled(terminator(strings))
            && admits(terminator(strings), t, framed(ctx, d), m, m + 1) && is_break(
            look == Assertion::StartCRLF,
            framed(ctx, d)[m],
        ),
        end_terminator_strings(look) matches Some(strings) ==> settled(terminator(strings))
            && admits(terminator(strings), t, framed(ctx, d), m + 1, m + 2) && is_break(
            look == Assertion::EndCRLF,
            framed(ctx, d)[m + 1],
        ),
{
    let f = framed(ctx, d);
    assert(f.len() == d.len() + 2);
    if let Some(strings) = start_terminator_strings(look) {
        let s = f.subrange(m, m + 1);
        assert(s =~= seq![f[m]]);
        assert(f[m] == 10 || f[m] == 13);
        if f[m] == 10 {
            assert(s =~= strings[0]);
        } else {
            assert(look == Assertion::StartCRLF);
            assert(s =~= strings[1]);
        }
    }
    if let Some(strings) = end_terminator_strings(look) {
        let s = f.subrange(m + 1, m + 2);
        assert(s =~= seq![f[m + 1]]);
        assert(f[m + 1] == 10 || f[m + 1] == 13);
        if f[m + 1] == 10 {
            assert(s =~= strings[0]);
        } else {
            assert(look == Assertion::EndCRLF);
            assert(s =~= strings[1]);
        }
    }
}

/// The span of the stream that a summary speaks of: the match `a..b`, with the
/// line break before it or behind it where that is left to the expression. Where
/// nothing need stand before the expression, the span may start with any line
/// break, and so at its end.
pub open spec fn reaches(
    ctx: PlanContext,
    crlf: bool,
    e: Sides,
    d: Seq<u8>,
    a: int,
    b: int,
    span: (int, int),
) -> bool {
    let o = offset(ctx);
    let f = framed(ctx, d);
    &&& span.0 == a + o || (e.start && span.0 == a + o - 1 && is_break(crlf, f[span.0])) || (e.head
        && opens_with_break(crlf, f, span))
    &&& span.1 == b + o || (e.end && span.1 == b + o + 1 && is_break(crlf, f[b + o])) || (e.tail
        && closes_with_break(crlf, f, span))
}

/// The span starts with a line break.
pub open spec fn opens_with_break(crlf: bool, f: Seq<u8>, span: (int, int)) -> bool {
    0 <= span.0 < span.1 <= f.len() && is_break(crlf, f[span.0])
}

/// The span ends with a line break.
pub open spec fn closes_with_break(crlf: bool, f: Seq<u8>, span: (int, int)) -> bool {
    0 <= span.0 < span.1 <= f.len() && is_break(crlf, f[span.1 - 1])
}

/// Line breaks are left to expressions only where the index has sentinels.
pub open spec fn sides_fit(ctx: PlanContext, e: Sides) -> bool {
    e.start || e.end || e.head || e.tail ==> ctx.line_sentinels
}

/// The expression matches the span, which is away from the text's edges where
/// the sides say so.
pub open spec fn stands(ctx: PlanContext, h: Regex, e: Sides, d: Seq<u8>, a: int, b: int) -> bool {
    matched(h, d, a, b) && clear_of_edges(ctx, e, d, a, b)
}

/// The span is away from the text's edges where the sides say so.
pub open spec fn clear_of_edges(ctx: PlanContext, e: Sides, d: Seq<u8>, a: int, b: int) -> bool {
    ctx.line_sentinels ==> (e.first || a > 0) && (e.last || b < d.len())
}

/// The summary of an expression admits each of its matches, on the span it
/// reaches.
pub proof fn lemma_analyzed(g: Stage, h: Regex, e: Sides, d: Seq<u8>, a: int, b: int) -> (span: (
    int,
    int,
))
    requires
        h.wf(),
        sides_fit(g.ctx, e),
    ensures
        settled(analyzed_in(g, h, e).0),
        reaches(g.ctx, sees_crlf(h), e, d, a, b, span),
        stands(g.ctx, h, e, d, a, b) ==> admits(
            analyzed_in(g, h, e).0,
            g.table,
            framed(g.ctx, d),
            span.0,
            span.1,
        ),
        matched(h, d, a, b) && a == b && !claims(h, true) ==> span == (
            a + offset(g.ctx),
            b + offset(g.ctx),
        ),
    decreases h, 1int, 0int,
{
    let f = framed(g.ctx, d);
    let t = g.table;
    let o = offset(g.ctx);
    let plain = (a + o, b + o);
    lemma_framed(g.ctx, d, 0, 0);
    lemma_empty_string(t, f, 0);
    match h {
        Regex::Empty => {
            if matched(h, d, a, b) {
                lemma_empty_string(t, f, a + o);
            }
            plain
        },
        Regex::Look(_) => {
            if matched(h, d, a, b) {
                lemma_empty_string(t, f, a + o);
            }
            plain
        },
        Regex::Capture(sub) => lemma_analyzed(g, *sub, e, d, a, b),
        Regex::Concat(subs) => lemma_concat(g, h, e, d, a, b),
        Regex::Alternation(subs) => {
            if subs@.len() == 1 {
                let span = lemma_analyzed(g, subs@[0], e, d, a, b);
                if matched(h, d, a, b) {
                    let i = choose|i: int| #[trigger]
                        split_at(i) && 0 <= i < subs@.len() && matched(subs@[i], d, a, b);
                    assert(i == 0);
                }
                assert(sees_crlf(subs@[0]) ==> sees_crlf(h));
                assert(claims(subs@[0], true) ==> claims(h, true));
                span
            } else if subs@.len() > 1 {
                lemma_alternation_upto(g, h, e, subs@.len() as int, d, a, b)
            } else {
                plain
            }
        },
        Regex::Repetition(rep) => {
            let c = copy_sides(e, rep.max, *rep.sub);
            let (base, g1) = analyzed_in(g, *rep.sub, c);
            kept_analyzed(g, *rep.sub, c);
            let unused = lemma_analyzed(g, *rep.sub, c, d, a, b);
            let r = |i: int, j: int| admits(base, t, f, i, j);
            let k = if matched(h, d, a, b) {
                choose|k: int| #[trigger]
                    split_at(k) && rep.min <= k && (rep.max matches Some(max) ==> k <= max)
                        && repeats(*rep.sub, d, a, b, k)
            } else {
                0
            };
            let span = if matched(h, d, a, b) {
                lemma_copies(g, *rep.sub, c, d, a, b, k)
            } else {
                plain
            };
            lemma_repeated(
                g1,
                f,
                base,
                r,
                f.len() as int,
                rep.min as int,
                rep.max,
                k,
                span.0,
                span.1,
            );
            span
        },
        Regex::Literal(bytes) => {
            let x = literal_folded(g.ctx, bytes@);
            if matched(h, d, a, b) {
                lemma_literal(g.ctx, t, bytes@, d, a, b);
            }
            lemma_simplified(g, f, x, false, a + o, b + o);
            plain
        },
        Regex::Class(class) => {
            let x = class_info(class);
            lemma_class_settled(class);
            lemma_folded_settled(g.ctx, x);
            if matched(h, d, a, b) {
                lemma_class_info(class, d.subrange(a, b));
                lemma_lists_admits(g.ctx, x, t, d, a, b);
            }
            lemma_simplified(g, f, info_folded(g.ctx, x), false, a + o, b + o);
            plain
        },
    }
}

/// Empty spans one after the other stand anywhere.
proof fn lemma_chain_anywhere(
    x: Info,
    t: WeightTable,
    f: Seq<u8>,
    i: int,
    j: int,
    n: int,
)
    requires
        chained(|p: int, q: int| admits(x, t, f, p, q), f.len() as int, i, i, n),
        0 <= j <= f.len(),
    ensures
        chained(|p: int, q: int| admits(x, t, f, p, q), f.len() as int, j, j, n),
    decreases n,
{
    let r = |p: int, q: int| admits(x, t, f, p, q);
    let l = f.len() as int;
    if n > 0 {
        let m = choose|m: int| #[trigger]
            split_at(m) && chained(r, l, i, m, n - 1) && r(m, i) && m <= i <= l;
        crate::query::soundness::repeated::lemma_repeats_bounds(r, l, i, m, n - 1);
        lemma_chain_anywhere(x, t, f, i, j, n - 1);
        lemma_empty_anywhere(x, t, f, i, j);
        assert(split_at(j) && chained(r, l, j, j, n - 1) && r(j, j));
    }
}

/// Copies of an expression, one after the other, are admitted one after the
/// other: where an inner anchor would be given a break that a copy next to it
/// takes or stands for, it is not given it.
proof fn lemma_copies(g: Stage, sub: Regex, c: Sides, d: Seq<u8>, a: int, b: int, n: int) -> (span: (
    int,
    int,
))
    requires
        sub.wf(),
        sides_fit(g.ctx, c),
        repeats(sub, d, a, b, n),
        n <= 1 || !c.start || !meets_break(sub, Edge::End),
        n <= 1 || !c.end || !meets_break(sub, Edge::Start),
        n <= 1 || (!c.head && !c.tail),
    ensures
        reaches(g.ctx, sees_crlf(sub), c, d, a, b, span),
        clear_of_edges(g.ctx, c, d, a, b) ==> chained(
            |i: int, j: int| admits(analyzed_in(g, sub, c).0, g.table, framed(g.ctx, d), i, j),
            framed(g.ctx, d).len() as int,
            span.0,
            span.1,
            n,
        ),
        a == b && !claims(sub, true) ==> span == (a + offset(g.ctx), b + offset(g.ctx)),
    decreases sub, 2int, n,
{
    let f = framed(g.ctx, d);
    let l = f.len() as int;
    let o = offset(g.ctx);
    let base = analyzed_in(g, sub, c).0;
    let r = |i: int, j: int| admits(base, g.table, f, i, j);
    let good = clear_of_edges(g.ctx, c, d, a, b);
    lemma_framed(g.ctx, d, 0, 0);
    if n <= 0 {
        (a + o, b + o)
    } else {
        let m = lemma_last_copy(sub, d, a, b, n);
        let own = lemma_analyzed(g, sub, c, d, m, b);
        lemma_repeats_bounds(sub, d, a, m, n - 1);
        lemma_span(sub, d, m, b);
        if n == 1 {
            assert(a == m);
            if good {
                assert(chained(r, l, own.0, own.0, 0));
                assert(split_at(own.0) && r(own.0, own.1));
            }
            own
        } else {
            let before = lemma_copies(g, sub, c, d, a, m, n - 1);
            lemma_stream_byte(g.ctx, d, m - 1);
            lemma_stream_byte(g.ctx, d, m);
            if own.0 != m + o {
                lemma_copies_end(sub, d, a, m, n - 1, f[own.0]);
                if good {
                    lemma_chain_anywhere(base, g.table, f, m + o, own.0, n - 1);
                    assert(split_at(own.0) && r(own.0, own.1));
                }
                own
            } else if before.1 != m + o {
                lemma_shown(sub, d, m, b, Edge::Start);
                assert(m == b);
                if good {
                    lemma_empty_anywhere(base, g.table, f, b + o, before.1);
                    assert(split_at(before.1) && r(before.1, before.1));
                }
                before
            } else {
                if good {
                    assert(split_at(m + o) && r(m + o, own.1));
                }
                (before.0, own.1)
            }
        }
    }
}

proof fn lemma_variants_of(g: Stage, h: Regex, e: Sides, d: Seq<u8>, a: int, b: int) -> (span: (
    int,
    int,
))
    requires
        h.wf(),
        sides_fit(g.ctx, e),
    ensures
        all_settled(variants_of(g, h, e).0),
        reaches(g.ctx, sees_crlf(h), e, d, a, b, span),
        stands(g.ctx, h, e, d, a, b) ==> some_admits(
            variants_of(g, h, e).0,
            g.table,
            framed(g.ctx, d),
            span.0,
            span.1,
        ),
        matched(h, d, a, b) && a == b && !claims(h, true) ==> span == (
            a + offset(g.ctx),
            b + offset(g.ctx),
        ),
    decreases h, 2int, 0int,
{
    let f = framed(g.ctx, d);
    let o = offset(g.ctx);
    let vs = variants_of(g, h, e).0;
    let span = lemma_analyzed(g, h, e, d, a, b);
    let split = match h {
        Regex::Class(class) => mixed_split(class),
        _ => None,
    };
    if let Some((x, y)) = split {
        let class = h->Class_0;
        lemma_class_settled(class);
        lemma_folded_settled(g.ctx, x);
        lemma_folded_settled(g.ctx, y);
        if matched(h, d, a, b) {
            lemma_mixed_split(class, d.subrange(a, b));
            if lists(x, d.subrange(a, b)) {
                lemma_lists_admits(g.ctx, x, g.table, d, a, b);
                assert(split_at(0) && admits(vs[0], g.table, f, a + o, b + o));
            } else {
                lemma_lists_admits(g.ctx, y, g.table, d, a, b);
                assert(split_at(1) && admits(vs[1], g.table, f, a + o, b + o));
            }
        }
        (a + o, b + o)
    } else {
        if stands(g.ctx, h, e, d, a, b) {
            assert(split_at(0) && admits(vs[0], g.table, f, span.0, span.1));
        }
        span
    }
}

/// The span of the stream that the first `n` parts speak of, which matched
/// `a..b`. The part behind them may do without a break it starts with where no
/// assertion stands before it (`near`).
pub open spec fn progress_reaches(
    ctx: PlanContext,
    crlf: bool,
    subs: Seq<Regex>,
    e: Sides,
    n: int,
    near: bool,
    d: Seq<u8>,
    a: int,
    b: int,
    span: (int, int),
) -> bool {
    let o = offset(ctx);
    let f = framed(ctx, d);
    &&& span.0 == a + o || (e.start && span.0 == a + o - 1 && is_break(crlf, f[span.0])) || (e.head
        && opens_with_break(crlf, f, span))
    &&& {
        ||| span.1 == b + o
        ||| e.tail && near && claimed(subs, n) && dropped_after(subs, n) && closes_with_break(
            crlf,
            f,
            span,
        )
        ||| span.1 == b + o + 1 && claims_behind(ctx, crlf, subs, e, n, near, f[b + o])
    }
}

/// The first `n` parts may stand for the line break `byte` right behind them.
pub open spec fn claims_behind(
    ctx: PlanContext,
    crlf: bool,
    subs: Seq<Regex>,
    e: Sides,
    n: int,
    near: bool,
    byte: u8,
) -> bool {
    &&& ctx.line_sentinels
    &&& is_break(crlf, byte)
    &&& claimed(subs, n)
    &&& free_after(subs, e, byte, n) || (near && near_after(subs, e, byte, n))
    &&& byte == 13 ==> ends_over(ctx.line_sentinels, subs, e, n)
}

/// Some alternative of the progress admits the span, and the pending
/// assertions hold where the match has come to.
pub open spec fn keeps_up(
    p: Progress,
    t: WeightTable,
    ctx: PlanContext,
    d: Seq<u8>,
    b: int,
    span: (int, int),
) -> bool {
    &&& !p.dead
    &&& some_alternative(p.accs, t, framed(ctx, d), span.0, span.1)
    &&& looks_true(p.pending, d, b)
    &&& p.accs.len() == 1 && p.accs[0] is None ==> span == (b + offset(ctx), b + offset(ctx))
}

/// The first `n` parts matched `a..b` of a match that ends at `z`, away from the
/// text's edges where the sides say so.
pub open spec fn underway(
    ctx: PlanContext,
    h: Regex,
    e: Sides,
    n: int,
    d: Seq<u8>,
    a: int,
    b: int,
    z: int,
) -> bool {
    &&& concat_matches(h, n, d, a, b)
    &&& b <= z <= d.len()
    &&& b == z ==> bare_after(h->Concat_0@, n)
    &&& clear_of_edges(ctx, e, d, a, z)
}

proof fn lemma_concat(g: Stage, h: Regex, e: Sides, d: Seq<u8>, a: int, b: int) -> (span: (
    int,
    int,
))
    requires
        h.wf(),
        h is Concat,
        sides_fit(g.ctx, e),
    ensures
        settled(analyzed_in(g, h, e).0),
        reaches(g.ctx, sees_crlf(h), e, d, a, b, span),
        stands(g.ctx, h, e, d, a, b) ==> admits(
            analyzed_in(g, h, e).0,
            g.table,
            framed(g.ctx, d),
            span.0,
            span.1,
        ),
        matched(h, d, a, b) && a == b && !claims(h, true) ==> span == (
            a + offset(g.ctx),
            b + offset(g.ctx),
        ),
    decreases h, 0int, 2 * h->Concat_0@.len() + 2,
{
    let f = framed(g.ctx, d);
    let o = offset(g.ctx);
    let subs = h->Concat_0;
    let len = subs@.len() as int;
    let on = g.ctx.line_sentinels;
    let (n, trailing) = trailing_split(e.end, subs@);
    let good = stands(g.ctx, h, e, d, a, b);
    let hit = matched(h, d, a, b);
    if hit {
        assert(concat_matches(h, len, d, a, b));
        lemma_shortest(h, d, a, b);
        lemma_concat_order(h, len, d, a, b);
    }
    let m = if trailing is Some && hit {
        choose|m: int| #[trigger]
            split_at(m) && concat_matches(h, len - 1, d, a, m) && matched(subs@[len - 1], d, m, b)
    } else {
        b
    };
    if hit {
        assert(m == b);
        assert(concat_matches(h, n, d, a, b));
        lemma_bare_before(h, n, d, a, b);
        if trailing is Some {
            assert(bare_after(subs@, len));
            assert(bare_after(subs@, n));
        }
    }
    let span = lemma_concat_upto(g, h, e, n, d, a, b, b);
    kept_concat_upto(g, h, e, n);
    let p = concat_upto(g, h, e, n);
    let r = end_relief(on, subs@, e, n);
    let rp = relieved(p, r);
    assert(alternatives_settled(rp.accs));
    if trailing is Some {
        lemma_terminators_settled(subs@.last()->Look_0);
    }
    if !hit {
        lemma_concat_finished(rp, trailing, d, 0, 0, 0);
        (a + o, b + o)
    } else if trailing is Some {
        let look = subs@.last()->Look_0;
        lemma_terminators(g.ctx, g.table, look, d, b);
        assert(sees_crlf(subs@[len - 1]) == (look == Assertion::StartCRLF || look
            == Assertion::EndCRLF));
        assert(closes_line(subs@, len - 1));
        assert(span.1 == b + o);
        if good {
            lemma_relieved_behind(p.pending, d, b, f[b + 1], r);
            assert(fits_behind(rp.pending, f, span.0, b + 2, b + 2));
            assert(comes_home(rp, trailing, d, span.0, b + o, b + 2));
        }
        lemma_concat_finished(rp, trailing, d, span.0, b + o, b + 2);
        assert(!(a == b && !claims(h, true)));
        (span.0, b + 2)
    } else {
        assert(n == len);
        if good {
            if span.1 == b + o {
                lemma_relieved(g.ctx, p.pending, d, span.0, b, span.1, r);
            } else if p.pending.len() > 0 || !closes_with_break(sees_crlf(h), f, span) {
                lemma_relieved_behind(p.pending, d, b, f[b + o], r);
                assert(fits_behind(rp.pending, f, span.0, span.1, span.1));
            } else {
                assert(fits_behind(rp.pending, f, span.0, span.1, span.1));
            }
            assert(comes_home(rp, trailing, d, span.0, span.1, span.1));
        }
        lemma_concat_finished(rp, None, d, span.0, span.1, span.1);
        if a == b && !claims(h, true) {
            lemma_quiet(h, len);
        }
        span
    }
}

proof fn lemma_terminators_settled(look: Assertion)
    ensures
        start_terminator_strings(look) matches Some(strings) ==> settled(terminator(strings)),
        end_terminator_strings(look) matches Some(strings) ==> settled(terminator(strings)),
{
}

/// A concatenation in which nothing has begun has come past assertions alone.
proof fn lemma_only_looks(g: Stage, h: Regex, e: Sides, n: int)
    requires
        h matches Regex::Concat(subs) && 0 <= n <= subs@.len(),
        !concat_upto(g, h, e, n).dead,
    ensures
        concat_upto(g, h, e, n).accs.len() == 1 && concat_upto(g, h, e, n).accs[0] is None
            ==> only_looks(h->Concat_0@, n),
    decreases n,
{
    if n > 0 {
        let p = concat_upto(g, h, e, n - 1);
        if !p.dead {
            lemma_only_looks(g, h, e, n - 1);
        }
    }
}

/// One more assertion of a concatenation keeps the match on track.
proof fn lemma_look_noted(
    g: Stage,
    crlf: bool,
    subs: Seq<Regex>,
    e: Sides,
    n: int,
    p: Progress,
    look: Assertion,
    d: Seq<u8>,
    a: int,
    b: int,
    before: (int, int),
) -> (span: (int, int))
    requires
        sides_fit(g.ctx, e),
        p.stage.ctx == g.ctx,
        0 < n <= subs.len(),
        subs[n - 1] == Regex::Look(look),
        a <= b,
        look == Assertion::StartCRLF ==> crlf,
        progress_reaches(g.ctx, crlf, subs, e, n - 1, p.pending.len() == 0, d, a, b, before),
        look_holds(look, d, b),
        keeps_up(p, g.table, g.ctx, d, b, before),
    ensures
        ({
            let (pending, accs) = look_noted(e.start, p.pending, p.accs, look);
            keeps_up(Progress { pending, accs, ..p }, g.table, g.ctx, d, b, span)
        }),
        progress_reaches(g.ctx, crlf, subs, e, n, false, d, a, b, span),
        !(p.accs.len() == 1 && p.accs[0] is None && start_terminator_strings(look) is Some)
            ==> span == before,
{
    let f = framed(g.ctx, d);
    let o = offset(g.ctx);
    let (pending, accs) = look_noted(e.start, p.pending, p.accs, look);
    if e.start && p.accs.len() == 1 && p.accs[0] is None && start_terminator_strings(look) is Some {
        lemma_terminators(g.ctx, g.table, look, d, b);
        assert(before.0 == b + o);
        assert(accs[0] == Some(terminator(start_terminator_strings(look)->0)));
        assert(split_at(0) && alternative_admits(accs[0], g.table, f, b + o - 1, b + o));
        (b + o - 1, b + o)
    } else {
        assert(pending == p.pending.push(look));
        lemma_claimed_on(subs, n);
        lemma_look_sides(g.ctx.line_sentinels, subs, e, n - 1);
        before
    }
}

/// Alternatives that have matched nothing have done so anywhere.
proof fn lemma_alternatives_anywhere(
    accs: Seq<Option<Info>>,
    t: WeightTable,
    f: Seq<u8>,
    i: int,
    j: int,
)
    requires
        some_alternative(accs, t, f, i, i),
        0 <= j <= f.len(),
    ensures
        some_alternative(accs, t, f, j, j),
{
    let q = choose|q: int| #[trigger]
        split_at(q) && 0 <= q < accs.len() && alternative_admits(accs[q], t, f, i, i);
    if let Some(x) = accs[q] {
        lemma_empty_anywhere(x, t, f, i, j);
    }
    assert(split_at(q) && alternative_admits(accs[q], t, f, j, j));
}

/// One more part of a concatenation joins where the parts before it end, with no
/// assertion between them.
proof fn lemma_part_joined(
    g: Stage,
    p: Progress,
    vs: Seq<Info>,
    r: Relief,
    d: Seq<u8>,
    a: int,
    k: int,
    b: int,
)
    requires
        alternatives_settled(p.accs),
        all_settled(vs),
        !p.dead,
        p.pending.len() == 0,
        offset(g.ctx) <= k <= d.len() + offset(g.ctx),
        some_alternative(p.accs, g.table, framed(g.ctx, d), a, k),
        some_admits(vs, g.table, framed(g.ctx, d), k, b),
    ensures
        ({
            let next = variants_crossed(relieved(p, r), vs, g);
            !next.dead && next.pending.len() == 0 && some_alternative(
                next.accs,
                g.table,
                framed(g.ctx, d),
                a,
                b,
            ) && next.accs.len() > 0 && next.accs[0] is Some
        }),
{
    let rp = relieved(p, r);
    assert(looks_hold(g.ctx, rp.pending, d, a, k - offset(g.ctx), b));
    lemma_variants_crossed(rp, vs, g, d, a, k, b);
    assert(on_track(rp, g.table, g.ctx, d, a, k, b));
}

/// A part that is given a break starts the match where nothing need stand before
/// it.
proof fn lemma_nothing_before(
    g: Stage,
    h: Regex,
    e: Sides,
    n: int,
    p: Progress,
    vs: Seq<Info>,
    d: Seq<u8>,
    m: int,
    b: int,
    none: (int, int),
    own: (int, int),
) -> (span: (int, int))
    requires
        h.wf(),
        h matches Regex::Concat(subs) && 0 < n <= subs@.len(),
        sides_fit(g.ctx, e),
        alternatives_settled(p.accs),
        all_settled(vs),
        p.pending.len() == 0,
        0 <= m <= b <= d.len(),
        part_sides(g.ctx.line_sentinels, h->Concat_0@, e, n).head,
        none == (m + offset(g.ctx), m + offset(g.ctx)),
        keeps_up(p, g.table, g.ctx, d, m, none),
        own.0 != m + offset(g.ctx),
        reaches(
            g.ctx,
            sees_crlf(h->Concat_0@[n - 1]),
            part_sides(g.ctx.line_sentinels, h->Concat_0@, e, n),
            d,
            m,
            b,
            own,
        ),
        some_admits(vs, g.table, framed(g.ctx, d), own.0, own.1),
    ensures
        keeps_up(
            variants_crossed(
                relieved(p, part_relief(g.ctx.line_sentinels, h->Concat_0@, e, n)),
                vs,
                g,
            ),
            g.table,
            g.ctx,
            d,
            b,
            span,
        ),
        forall|a: int|
            progress_reaches(g.ctx, sees_crlf(h), h->Concat_0@, e, n, true, d, a, b, span),
        span.0 != m + offset(g.ctx),
{
    let f = framed(g.ctx, d);
    let o = offset(g.ctx);
    let r = part_relief(g.ctx.line_sentinels, h->Concat_0@, e, n);
    let rp = relieved(p, r);
    assert(sees_crlf(h->Concat_0@[n - 1]) ==> sees_crlf(h));
    lemma_framed(g.ctx, d, m, b);
    lemma_claimed_on(h->Concat_0@, n);
    lemma_alternatives_anywhere(p.accs, g.table, f, m + o, own.0);
    assert(own.0 < own.1);
    assert(fits_before(rp.pending, f, own.0, own.0, own.1));
    lemma_variants_crossed(rp, vs, g, d, own.0, own.0, own.1);
    assert(on_track(rp, g.table, g.ctx, d, own.0, own.0, own.1));
    own
}

/// The parts that were given a break end the match where nothing need stand
/// behind them.
proof fn lemma_nothing_after(
    g: Stage,
    h: Regex,
    e: Sides,
    n: int,
    p: Progress,
    vs: Seq<Info>,
    d: Seq<u8>,
    a: int,
    m: int,
    b: int,
    before: (int, int),
    none: (int, int),
) -> (span: (int, int))
    requires
        h.wf(),
        h matches Regex::Concat(subs) && 0 < n <= subs@.len(),
        sides_fit(g.ctx, e),
        e.tail,
        alternatives_settled(p.accs),
        all_settled(vs),
        0 <= a <= m <= b <= d.len(),
        dropped_after(h->Concat_0@, n - 1),
        none == (m + offset(g.ctx), m + offset(g.ctx)),
        before.1 != m + offset(g.ctx),
        progress_reaches(
            g.ctx,
            sees_crlf(h),
            h->Concat_0@,
            e,
            n - 1,
            p.pending.len() == 0,
            d,
            a,
            m,
            before,
        ),
        keeps_up(p, g.table, g.ctx, d, m, before),
        p.pending.len() == 0,
        some_admits(vs, g.table, framed(g.ctx, d), none.0, none.1),
    ensures
        keeps_up(
            variants_crossed(
                relieved(p, part_relief(g.ctx.line_sentinels, h->Concat_0@, e, n)),
                vs,
                g,
            ),
            g.table,
            g.ctx,
            d,
            b,
            span,
        ),
        progress_reaches(g.ctx, sees_crlf(h), h->Concat_0@, e, n, true, d, a, b, span),
        span.1 != m + offset(g.ctx),
{
    let f = framed(g.ctx, d);
    let r = part_relief(g.ctx.line_sentinels, h->Concat_0@, e, n);
    let rp = relieved(p, r);
    lemma_framed(g.ctx, d, m, b);
    let i = choose|i: int| #[trigger]
        split_at(i) && 0 <= i < p.accs.len() && alternative_admits(
            p.accs[i],
            g.table,
            f,
            before.0,
            before.1,
        );
    assert(closes_with_break(sees_crlf(h), f, before));
    let q = choose|q: int| #[trigger]
        split_at(q) && 0 <= q < vs.len() && admits(vs[q], g.table, f, none.0, none.1);
    lemma_empty_anywhere(vs[q], g.table, f, none.0, before.1);
    assert(split_at(q) && admits(vs[q], g.table, f, before.1, before.1));
    assert(fits_behind(rp.pending, f, before.0, before.1, before.1));
    lemma_variants_crossed(rp, vs, g, d, before.0, before.1, before.1);
    assert(on_track(rp, g.table, g.ctx, d, before.0, before.1, before.1));
    before
}

/// Where a part is given a break that the part before it ends with, that one
/// matches without it too.
proof fn lemma_shorter_before(
    g: Stage,
    h: Regex,
    e: Sides,
    n: int,
    d: Seq<u8>,
    a: int,
    m: int,
    b: int,
    z: int,
    own: (int, int),
)
    requires
        h.wf(),
        h matches Regex::Concat(subs) && 0 < n <= subs@.len(),
        underway(g.ctx, h, e, n - 1, d, a, m, z),
        m <= b <= d.len(),
        a < m,
        own.0 != m + offset(g.ctx),
        !part_sides(g.ctx.line_sentinels, h->Concat_0@, e, n).head,
        reaches(
            g.ctx,
            sees_crlf(h->Concat_0@[n - 1]),
            part_sides(g.ctx.line_sentinels, h->Concat_0@, e, n),
            d,
            m,
            b,
            own,
        ),
    ensures
        underway(g.ctx, h, e, n - 1, d, a, m - 1, z),
        own.0 == m - 1 + offset(g.ctx),
        n > 1,
        trims(h->Concat_0@[n - 2]),
        !claimed(h->Concat_0@, n - 1),
        1 <= m,
{
    lemma_concat_order(h, n - 1, d, a, m);
    lemma_stream_byte(g.ctx, d, m - 1);
    lemma_framed(g.ctx, d, m, b);
    let x = framed(g.ctx, d)[own.0];
    assert(d[m - 1] == x);
    lemma_near_before(h, e, x, n - 1, d, a, m);
}

/// One more part is joined to parts that do without the break it is given.
proof fn lemma_trimmed_before(
    g: Stage,
    h: Regex,
    e: Sides,
    n: int,
    p: Progress,
    vs: Seq<Info>,
    d: Seq<u8>,
    a: int,
    m: int,
    b: int,
    shorter: (int, int),
    own: (int, int),
) -> (span: (int, int))
    requires
        h.wf(),
        h matches Regex::Concat(subs) && 0 < n <= subs@.len(),
        alternatives_settled(p.accs),
        all_settled(vs),
        p.pending.len() == 0,
        0 <= a < m <= b <= d.len(),
        own.0 == m - 1 + offset(g.ctx),
        !claimed(h->Concat_0@, n - 1),
        progress_reaches(
            g.ctx,
            sees_crlf(h),
            h->Concat_0@,
            e,
            n - 1,
            true,
            d,
            a,
            m - 1,
            shorter,
        ),
        keeps_up(p, g.table, g.ctx, d, m - 1, shorter),
        reaches(
            g.ctx,
            sees_crlf(h->Concat_0@[n - 1]),
            part_sides(g.ctx.line_sentinels, h->Concat_0@, e, n),
            d,
            m,
            b,
            own,
        ),
        some_admits(vs, g.table, framed(g.ctx, d), own.0, own.1),
    ensures
        keeps_up(
            variants_crossed(
                relieved(p, part_relief(g.ctx.line_sentinels, h->Concat_0@, e, n)),
                vs,
                g,
            ),
            g.table,
            g.ctx,
            d,
            b,
            span,
        ),
        progress_reaches(g.ctx, sees_crlf(h), h->Concat_0@, e, n, true, d, a, b, span),
{
    let r = part_relief(g.ctx.line_sentinels, h->Concat_0@, e, n);
    assert(sees_crlf(h->Concat_0@[n - 1]) ==> sees_crlf(h));
    lemma_claimed_on(h->Concat_0@, n);
    lemma_part_joined(g, p, vs, r, d, shorter.0, own.0, own.1);
    (shorter.0, own.1)
}

/// A part that starts with a break which the parts before it were given matches
/// without it too.
proof fn lemma_shorter_after(
    g: Stage,
    h: Regex,
    e: Sides,
    n: int,
    p: Progress,
    d: Seq<u8>,
    a: int,
    m: int,
    b: int,
    z: int,
    before: (int, int),
)
    requires
        h.wf(),
        h matches Regex::Concat(subs) && 0 < n <= subs@.len() && matched(subs@[n - 1], d, m, b),
        underway(g.ctx, h, e, n, d, a, b, z),
        0 <= a <= m < b,
        before.1 != m + offset(g.ctx),
        !(p.pending.len() == 0 && e.tail && dropped_after(h->Concat_0@, n - 1)),
        progress_reaches(
            g.ctx,
            sees_crlf(h),
            h->Concat_0@,
            e,
            n - 1,
            p.pending.len() == 0,
            d,
            a,
            m,
            before,
        ),
    ensures
        p.pending.len() == 0,
        before.1 == m + 1 + offset(g.ctx),
        ({
            let sub = h->Concat_0@[n - 1];
            &&& trims(sub)
            &&& !claims(sub, false)
            &&& matched(sub, d, m + 1, b)
            &&& clear_of_edges(
                g.ctx,
                part_sides(g.ctx.line_sentinels, h->Concat_0@, e, n),
                d,
                m + 1,
                b,
            )
        }),
{
    let sub = h->Concat_0@[n - 1];
    lemma_stream_byte(g.ctx, d, m);
    lemma_framed(g.ctx, d, m, b);
    lemma_shown(sub, d, m, b, Edge::Start);
    assert(d[m] == framed(g.ctx, d)[m + offset(g.ctx)]);
    assert(trims(sub));
    lemma_trims(sub, d, m, b);
}

/// One more part that does without a break is joined to the parts that were
/// given it.
proof fn lemma_trimmed_after(
    g: Stage,
    h: Regex,
    e: Sides,
    n: int,
    p: Progress,
    vs: Seq<Info>,
    d: Seq<u8>,
    a: int,
    m: int,
    b: int,
    before: (int, int),
    shorter: (int, int),
) -> (span: (int, int))
    requires
        h.wf(),
        h matches Regex::Concat(subs) && 0 < n <= subs@.len(),
        alternatives_settled(p.accs),
        all_settled(vs),
        p.pending.len() == 0,
        0 <= a <= m < b <= d.len(),
        before.1 == m + 1 + offset(g.ctx),
        !claims(h->Concat_0@[n - 1], false),
        progress_reaches(
            g.ctx,
            sees_crlf(h),
            h->Concat_0@,
            e,
            n - 1,
            true,
            d,
            a,
            m,
            before,
        ),
        keeps_up(p, g.table, g.ctx, d, m, before),
        reaches(
            g.ctx,
            sees_crlf(h->Concat_0@[n - 1]),
            part_sides(g.ctx.line_sentinels, h->Concat_0@, e, n),
            d,
            m + 1,
            b,
            shorter,
        ),
        some_admits(vs, g.table, framed(g.ctx, d), shorter.0, shorter.1),
    ensures
        keeps_up(
            variants_crossed(
                relieved(p, part_relief(g.ctx.line_sentinels, h->Concat_0@, e, n)),
                vs,
                g,
            ),
            g.table,
            g.ctx,
            d,
            b,
            span,
        ),
        progress_reaches(g.ctx, sees_crlf(h), h->Concat_0@, e, n, true, d, a, b, span),
{
    let r = part_relief(g.ctx.line_sentinels, h->Concat_0@, e, n);
    assert(shorter == (m + 1 + offset(g.ctx), b + offset(g.ctx)));
    lemma_part_joined(g, p, vs, r, d, before.0, before.1, shorter.1);
    (before.0, shorter.1)
}

/// One more part of a concatenation keeps the match on track.
proof fn lemma_part_crossed(
    g: Stage,
    h: Regex,
    e: Sides,
    n: int,
    p: Progress,
    vs: Seq<Info>,
    d: Seq<u8>,
    a: int,
    m: int,
    b: int,
    z: int,
    before: (int, int),
    own: (int, int),
) -> (span: (int, int))
    requires
        h.wf(),
        h matches Regex::Concat(subs) && 0 < n <= subs@.len() && matched(subs@[n - 1], d, m, b)
            && !(subs@[n - 1] is Look),
        sides_fit(g.ctx, e),
        alternatives_settled(p.accs),
        all_settled(vs),
        underway(g.ctx, h, e, n - 1, d, a, m, z),
        underway(g.ctx, h, e, n, d, a, b, z),
        own.0 == m + offset(g.ctx) || (a == m && !part_sides(
            g.ctx.line_sentinels,
            h->Concat_0@,
            e,
            n,
        ).head),
        before.1 == m + offset(g.ctx) || (m == b && !(p.pending.len() == 0 && e.tail
            && dropped_after(h->Concat_0@, n - 1))),
        progress_reaches(
            g.ctx,
            sees_crlf(h),
            h->Concat_0@,
            e,
            n - 1,
            p.pending.len() == 0,
            d,
            a,
            m,
            before,
        ),
        quiet(h->Concat_0@, n - 1) && a == m ==> before == (
            a + offset(g.ctx),
            m + offset(g.ctx),
        ),
        reaches(
            g.ctx,
            sees_crlf(h->Concat_0@[n - 1]),
            part_sides(g.ctx.line_sentinels, h->Concat_0@, e, n),
            d,
            m,
            b,
            own,
        ),
        m == b && !claims(h->Concat_0@[n - 1], true) ==> own == (
            m + offset(g.ctx),
            b + offset(g.ctx),
        ),
        keeps_up(p, g.table, g.ctx, d, m, before),
        some_admits(vs, g.table, framed(g.ctx, d), own.0, own.1),
    ensures
        keeps_up(
            variants_crossed(
                relieved(p, part_relief(g.ctx.line_sentinels, h->Concat_0@, e, n)),
                vs,
                g,
            ),
            g.table,
            g.ctx,
            d,
            b,
            span,
        ),
        progress_reaches(g.ctx, sees_crlf(h), h->Concat_0@, e, n, true, d, a, b, span),
        quiet(h->Concat_0@, n) && a == b ==> span == (a + offset(g.ctx), b + offset(g.ctx)),
{
    let f = framed(g.ctx, d);
    let o = offset(g.ctx);
    let on = g.ctx.line_sentinels;
    let subs = h->Concat_0@;
    let sub = subs[n - 1];
    let part = part_sides(on, subs, e, n);
    let r = part_relief(on, subs, e, n);
    let rp = relieved(p, r);
    assert(sees_crlf(sub) ==> sees_crlf(h));
    lemma_bare_before(h, n - 1, d, a, m);
    lemma_bare_before(h, n, d, a, b);
    lemma_span(sub, d, m, b);
    lemma_shortest(sub, d, m, b);
    lemma_framed(g.ctx, d, m, b);
    lemma_stream_byte(g.ctx, d, m - 1);
    lemma_stream_byte(g.ctx, d, m);
    if on && m == d.len() {
        assert(part.last && shortest(sub) == 0);
    }
    if on && m == 0 {
        assert(part.first);
    }
    lemma_claimed_on(subs, n);
    if own.0 != m + o {
        let x = f[own.0];
        if m > 0 {
            assert(d[m - 1] == x);
        }
        lemma_near_before(h, e, x, n - 1, d, a, m);
        lemma_alternatives_anywhere(p.accs, g.table, f, m + o, own.0);
        lemma_relieved_before(p.pending, d, m, x, r);
        assert(fits_before(rp.pending, f, own.0, own.0, own.1));
        lemma_variants_crossed(rp, vs, g, d, own.0, own.0, own.1);
        assert(on_track(rp, g.table, g.ctx, d, own.0, own.0, own.1));
        own
    } else if before.1 != m + o {
        let x = f[m + o];
        lemma_after_claim(subs, e, x, n);
        let q = choose|q: int| #[trigger]
            split_at(q) && 0 <= q < vs.len() && admits(vs[q], g.table, f, own.0, own.1);
        lemma_empty_anywhere(vs[q], g.table, f, own.0, before.1);
        assert(split_at(q) && admits(vs[q], g.table, f, before.1, before.1));
        lemma_relieved_behind(p.pending, d, m, x, r);
        assert(fits_behind(rp.pending, f, before.0, before.1, before.1));
        lemma_variants_crossed(rp, vs, g, d, before.0, before.1, before.1);
        assert(on_track(rp, g.table, g.ctx, d, before.0, before.1, before.1));
        before
    } else {
        lemma_relieved(g.ctx, p.pending, d, before.0, m, own.1, r);
        lemma_variants_crossed(rp, vs, g, d, before.0, m + o, own.1);
        assert(on_track(rp, g.table, g.ctx, d, before.0, m + o, own.1));
        (before.0, own.1)
    }
}

proof fn lemma_concat_upto(
    g: Stage,
    h: Regex,
    e: Sides,
    n: int,
    d: Seq<u8>,
    a: int,
    b: int,
    z: int,
) -> (span: (int, int))
    requires
        h.wf(),
        h matches Regex::Concat(subs) && 0 <= n <= subs@.len(),
        sides_fit(g.ctx, e),
    ensures
        alternatives_settled(concat_upto(g, h, e, n).accs),
        concat_matches(h, n, d, a, b) ==> progress_reaches(
            g.ctx,
            sees_crlf(h),
            h->Concat_0@,
            e,
            n,
            concat_upto(g, h, e, n).pending.len() == 0,
            d,
            a,
            b,
            span,
        ),
        underway(g.ctx, h, e, n, d, a, b, z) ==> keeps_up(
            concat_upto(g, h, e, n),
            g.table,
            g.ctx,
            d,
            b,
            span,
        ),
        concat_matches(h, n, d, a, b) && a == b && quiet(h->Concat_0@, n) ==> span == (
            a + offset(g.ctx),
            b + offset(g.ctx),
        ),
    decreases h, 0int, 2 * n + 1,
{
    let o = offset(g.ctx);
    let subs = h->Concat_0;
    let p1 = concat_upto(g, h, e, n);
    let plain = (a + o, b + o);
    if n == 0 {
        if concat_matches(h, n, d, a, b) {
            lemma_framed(g.ctx, d, a, b);
            assert(split_at(0) && alternative_admits(
                p1.accs[0],
                g.table,
                framed(g.ctx, d),
                a + o,
                b + o,
            ));
        }
        plain
    } else {
        let sub = subs@[n - 1];
        let crlf = sees_crlf(h);
        assert(sees_crlf(sub) ==> crlf);
        let hit = concat_matches(h, n, d, a, b);
        let good = underway(g.ctx, h, e, n, d, a, b, z);
        let m = if hit {
            choose|m: int| #[trigger]
                split_at(m) && concat_matches(h, n - 1, d, a, m) && matched(sub, d, m, b)
        } else {
            b
        };
        let before = lemma_concat_upto(g, h, e, n - 1, d, a, m, z);
        kept_concat_upto(g, h, e, n - 1);
        let p = concat_upto(g, h, e, n - 1);
        if hit {
            lemma_concat_order(h, n - 1, d, a, m);
            lemma_span(sub, d, m, b);
            lemma_shortest(sub, d, m, b);
        }
        if good {
            assert(underway(g.ctx, h, e, n - 1, d, a, m, z));
        }
        if sub is Look {
            let look = sub->Look_0;
            lemma_look_settled(e, p, look);
            if !good || p.dead {
                plain
            } else {
                lemma_only_looks(g, h, e, n - 1);
                lemma_look_noted(p.stage, crlf, subs@, e, n, p, look, d, a, b, before)
            }
        } else {
            let span = lemma_part(g, h, e, n, d, a, m, b, z, before, good);
            if good {
                span
            } else {
                plain
            }
        }
    }
}

/// One more part that is no assertion keeps the match on track.
proof fn lemma_part(
    g: Stage,
    h: Regex,
    e: Sides,
    n: int,
    d: Seq<u8>,
    a: int,
    m: int,
    b: int,
    z: int,
    before: (int, int),
    good: bool,
) -> (span: (int, int))
    requires
        h.wf(),
        h matches Regex::Concat(subs) && 0 < n <= subs@.len() && !(subs@[n - 1] is Look) && (good
            ==> matched(subs@[n - 1], d, m, b)),
        sides_fit(g.ctx, e),
        alternatives_settled(concat_upto(g, h, e, n - 1).accs),
        good ==> {
            &&& underway(g.ctx, h, e, n - 1, d, a, m, z)
            &&& underway(g.ctx, h, e, n, d, a, b, z)
            &&& progress_reaches(
                g.ctx,
                sees_crlf(h),
                h->Concat_0@,
                e,
                n - 1,
                concat_upto(g, h, e, n - 1).pending.len() == 0,
                d,
                a,
                m,
                before,
            )
            &&& keeps_up(concat_upto(g, h, e, n - 1), g.table, g.ctx, d, m, before)
            &&& a == m && quiet(h->Concat_0@, n - 1) ==> before == (
                a + offset(g.ctx),
                m + offset(g.ctx),
            )
        },
    ensures
        alternatives_settled(concat_upto(g, h, e, n).accs),
        good ==> keeps_up(concat_upto(g, h, e, n), g.table, g.ctx, d, b, span),
        good ==> progress_reaches(g.ctx, sees_crlf(h), h->Concat_0@, e, n, true, d, a, b, span),
        good && a == b && quiet(h->Concat_0@, n) ==> span == (
            a + offset(g.ctx),
            b + offset(g.ctx),
        ),
    decreases h, 0int, 2 * n,
{
    let o = offset(g.ctx);
    let subs = h->Concat_0;
    let sub = subs@[n - 1];
    let on = g.ctx.line_sentinels;
    let part = part_sides(on, subs@, e, n);
    let p = concat_upto(g, h, e, n - 1);
    kept_concat_upto(g, h, e, n - 1);
    let own = lemma_variants_of(p.stage, sub, part, d, m, b);
    kept_variants_of(p.stage, sub, part);
    let (vs, g1) = variants_of(p.stage, sub, part);
    let rp = relieved(p, part_relief(on, subs@, e, n));
    lemma_variants_crossed(rp, vs, g1, d, 0, 0, 0);
    if !good {
        own
    } else {
        lemma_bare_before(h, n - 1, d, a, m);
        lemma_span(sub, d, m, b);
        lemma_shortest(sub, d, m, b);
        assert(clear_of_edges(g.ctx, part, d, m, b));
        if own.0 != m + o && part.head {
            lemma_dropped_before(h, n - 1, d, m);
            assert(underway(g.ctx, h, e, n - 1, d, m, m, z));
            let none = lemma_concat_upto(g, h, e, n - 1, d, m, m, z);
            if n > 1 {
                lemma_pending_gone(g, h, e, n - 1);
            }
            lemma_nothing_before(g1, h, e, n, p, vs, d, m, b, none, own)
        } else if own.0 != m + o && a < m {
            lemma_shorter_before(g1, h, e, n, d, a, m, b, z, own);
            let shorter = lemma_concat_upto(g, h, e, n - 1, d, a, m - 1, z);
            lemma_pending_gone(g, h, e, n - 1);
            lemma_trimmed_before(g1, h, e, n, p, vs, d, a, m, b, shorter, own)
        } else if before.1 != m + o && p.pending.len() == 0 && e.tail && dropped_after(
            subs@,
            n - 1,
        ) {
            lemma_drops(sub, d, m);
            assert(clear_of_edges(g.ctx, part, d, m, m));
            let none = lemma_variants_of(p.stage, sub, part, d, m, m);
            lemma_nothing_after(g1, h, e, n, p, vs, d, a, m, b, before, none)
        } else if before.1 != m + o && m < b {
            lemma_shorter_after(g1, h, e, n, p, d, a, m, b, z, before);
            let shorter = lemma_variants_of(p.stage, sub, part, d, m + 1, b);
            lemma_trimmed_after(g1, h, e, n, p, vs, d, a, m, b, before, shorter)
        } else {
            lemma_part_crossed(g1, h, e, n, p, vs, d, a, m, b, z, before, own)
        }
    }
}

/// No assertion is pending behind a part that is none.
proof fn lemma_pending_gone(g: Stage, h: Regex, e: Sides, n: int)
    requires
        h matches Regex::Concat(subs) && 0 < n <= subs@.len() && !(subs@[n - 1] is Look),
        !concat_upto(g, h, e, n).dead,
    ensures
        concat_upto(g, h, e, n).pending.len() == 0,
{
    assert(!concat_upto(g, h, e, n - 1).dead);
}

/// An assertion leaves settled alternatives settled.
proof fn lemma_look_settled(e: Sides, p: Progress, look: Assertion)
    requires
        alternatives_settled(p.accs),
    ensures
        alternatives_settled(look_noted(e.start, p.pending, p.accs, look).1),
{
    lemma_terminators_settled(look);
}

proof fn lemma_alternation_upto(
    g: Stage,
    h: Regex,
    e: Sides,
    n: int,
    d: Seq<u8>,
    a: int,
    b: int,
) -> (span: (int, int))
    requires
        h.wf(),
        h matches Regex::Alternation(subs) && 1 <= n <= subs@.len(),
        sides_fit(g.ctx, e),
    ensures
        settled(alternation_upto(g, h, e, n).0),
        reaches(g.ctx, sees_crlf(h), e, d, a, b, span),
        h matches Regex::Alternation(subs) && (clear_of_edges(g.ctx, e, d, a, b) && exists|i: int|
            #[trigger]
            split_at(i) && 0 <= i < n && matched(subs@[i], d, a, b)) ==> admits(
            alternation_upto(g, h, e, n).0,
            g.table,
            framed(g.ctx, d),
            span.0,
            span.1,
        ),
        h matches Regex::Alternation(subs) && (a == b && !claims(h, true) && exists|i: int|
            #[trigger]
            split_at(i) && 0 <= i < n && matched(subs@[i], d, a, b)) ==> span == (
            a + offset(g.ctx),
            b + offset(g.ctx),
        ),
    decreases h, 0int, n,
{
    let f = framed(g.ctx, d);
    let subs = h->Alternation_0;
    assert(claims(subs@[n - 1], true) ==> claims(h, true));
    if n == 1 {
        let span = lemma_analyzed(g, subs@[0], e, d, a, b);
        kept_analyzed(g, subs@[0], e);
        let (x, g1) = analyzed_in(g, subs@[0], e);
        lemma_sets_flushed(g1, f, x, span.0, span.1);
        if exists|i: int| #[trigger] split_at(i) && 0 <= i < n && matched(subs@[i], d, a, b) {
            let i = choose|i: int| #[trigger]
                split_at(i) && 0 <= i < n && matched(subs@[i], d, a, b);
            assert(i == 0);
        }
        span
    } else {
        let one = lemma_alternation_upto(g, h, e, n - 1, d, a, b);
        kept_alternation_upto(g, h, e, n - 1);
        let (acc, g1) = alternation_upto(g, h, e, n - 1);
        let two = lemma_analyzed(g1, subs@[n - 1], e, d, a, b);
        kept_analyzed(g1, subs@[n - 1], e);
        let (x, g2) = analyzed_in(g1, subs@[n - 1], e);
        let last = matched(subs@[n - 1], d, a, b);
        let span = if last {
            two
        } else {
            one
        };
        lemma_sets_flushed(g2, f, x, span.0, span.1);
        kept_sets_flushed(g2, x);
        let (y, g3) = sets_flushed(g2, x);
        lemma_alternated(g3, f, acc, y, span.0, span.1);
        if !last && exists|i: int| #[trigger]
            split_at(i) && 0 <= i < n && matched(subs@[i], d, a, b) {
            let i = choose|i: int| #[trigger]
                split_at(i) && 0 <= i < n && matched(subs@[i], d, a, b);
            assert(split_at(i) && 0 <= i < n - 1 && matched(subs@[i], d, a, b));
        }
        span
    }
}

/// A plan never misses a match: where the pattern matches some span of a
/// document, the grams of the stream that the index holds of the document
/// satisfy the planned query. That is so for the text and for the folded
/// text, with line sentinels around them and without.
pub proof fn law_plan_never_misses(
    table: WeightTable,
    ctx: PlanContext,
    h: Regex,
    d: Seq<u8>,
    a: int,
    b: int,
)
    requires
        h.wf(),
        matched(h, d, a, b),
    ensures
        tree_wf(planned(table, ctx, h)),
        holds(planned(table, ctx, h), present(table, framed(ctx, d))),
{
    let f = framed(ctx, d);
    let g0 = Stage { table, ctx, flushed: 0, finalizing: false };
    let span = lemma_analyzed(g0, h, whole(ctx), d, a, b);
    kept_analyzed(g0, h, whole(ctx));
    let (x, g) = analyzed(g0, h);
    let g1 = Stage { finalizing: true, ..g };
    lemma_simplified(g1, f, x, true, span.0, span.1);
    kept_simplified(g1, x, true);
    let (y, g2) = simplified(g1, x, true);
    lemma_exact_added(g2, f, y, span.0, span.1);
}

/// The stream of a document is what the scanner shows to a scan.
pub proof fn law_scanner_shows_the_stream(opts: ScanOptions, d: Seq<u8>)
    ensures
        document(opts, d) == framed(
            PlanContext { fold: opts.fold, line_sentinels: opts.line_sentinels },
            d,
        ),
{
    let f = stream_of(opts.fold, d);
    assert(Seq::<u8>::empty() + f + Seq::<u8>::empty() =~= f);
}

} // verus!
