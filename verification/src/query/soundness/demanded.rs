//! What a plan demands: folding a pattern never loses a demand that a part of it
//! has made, and a literal demands the grams that cover it.

use vstd::prelude::*;

use crate::extract::cover::{
    guaranteed_grams, law_cover_in_scan, law_cover_is_empty_for_short_literals, minimal_grams,
};
use crate::extract::tiling::{law_cover_has_no_surplus, law_guaranteed_are_the_grams, total_len};
use crate::extract::MIN_LEN;
use crate::query::algebra::{combined, gram_node, holds, law_and_or_exact, tree_wf, Op, Tree};
use crate::query::analyze::fold::{
    alternation_upto, analyzed, analyzed_in, finalized, literal_folded, planned,
};
use crate::query::analyze::stages::kept_with_set;
use crate::query::analyze::{
    can_flush, flush_limit, grams_left, spent, whole, PlanContext, Sides, Stage, MAX_EXACT,
    MAX_EXACT_BYTES, MAX_SET, PLAN_GRAM_BUDGET,
};
use crate::num::clamp;
use crate::query::analyze::repeat::{
    affordable, copies_upto, counts_upto, expanded, plus_of, powered, query_weight, repeated,
    sum_of, MAX_REPEAT_EXPAND,
};
use crate::query::combine::{
    alternated, concatenated, crosses_bounded, either_sets, joint_sets, seam_of, MAX_SEAM_CROSS,
};
use crate::query::covers::{
    all_covers, and_set, covers_upto, edge_of, lemma_cut_shrinks, ored, single_covers, singles_upto,
    string_cover, total_grams, with_covers, with_grams, with_set, with_truncated,
};
use crate::query::flush::{
    edge_set, exact_added, exact_cleaned, exact_flushed, exact_overflows, flush_spilled,
    large_flushed, set_simplified, sets_flushed, simplified,
};
use crate::query::hir::Regex;
use crate::query::info::Info;
use crate::query::order::{cleaned, lemma_cleaned, lemma_cleaned_is, same_members, Order};
use crate::query::soundness::combined::lemma_united_contains;
use crate::query::soundness::{lemma_cleaned_contains, settled};
use crate::query::strings::{
    byte_len, crossed, cut_all, lemma_pairs, lowered, max_len, min_len, pairs, united,
};
use crate::table::WeightTable;

verus! {

/// Every covering gram of the string is present.
pub open spec fn cover_present(t: WeightTable, s: Seq<u8>, present: spec_fn(Seq<u8>) -> bool) -> bool {
    forall|g: Seq<u8>| #[trigger] minimal_grams(t, s).contains(g) ==> present(g)
}

/// Every covering gram of one of the strings is present.
pub open spec fn some_cover_present(
    t: WeightTable,
    set: Seq<Seq<u8>>,
    present: spec_fn(Seq<u8>) -> bool,
) -> bool {
    exists|s: Seq<u8>| #[trigger] set.contains(s) && cover_present(t, s, present)
}

/// The query is well formed and holds only where the other does.
pub open spec fn narrows(r: Tree, q: Tree, present: spec_fn(Seq<u8>) -> bool) -> bool {
    tree_wf(r) && (holds(r, present) ==> holds(q, present))
}

pub proof fn lemma_node_wf(op: Op, grams: Seq<Seq<u8>>)
    requires
        op == Op::And || op == Op::Or,
    ensures
        tree_wf(gram_node(op, cleaned(Order::Prefix, grams))),
{
    lemma_cleaned(Order::Prefix, grams);
}

/// The cover of a string asks for its covering grams.
proof fn lemma_cover_asks(
    t: WeightTable,
    s: Seq<u8>,
    maximal: bool,
    present: spec_fn(Seq<u8>) -> bool,
)
    requires
        holds(gram_node(Op::And, string_cover(t, s, maximal)), present),
    ensures
        cover_present(t, s, present),
{
    let q = gram_node(Op::And, string_cover(t, s, maximal));
    let raw = if maximal {
        guaranteed_grams(t, s)
    } else {
        minimal_grams(t, s)
    };
    assert forall|g: Seq<u8>| #[trigger] minimal_grams(t, s).contains(g) implies present(g) by {
        if maximal {
            law_cover_in_scan(t, s, g);
            law_guaranteed_are_the_grams(t, s, g);
        }
        lemma_cleaned_contains(Order::Prefix, raw, g);
        assert(q.grams.contains(g));
    }
}

proof fn lemma_ored_asks(
    t: WeightTable,
    set: Seq<Seq<u8>>,
    n: int,
    cap: int,
    maximal: bool,
    present: spec_fn(Seq<u8>) -> bool,
)
    requires
        0 <= n <= set.len(),
        covers_upto(t, set, n, cap, maximal) is Some,
    ensures
        tree_wf(ored(covers_upto(t, set, n, cap, maximal)->0)),
        holds(ored(covers_upto(t, set, n, cap, maximal)->0), present) ==> some_cover_present(
            t,
            set,
            present,
        ),
    decreases n,
{
    if n > 0 {
        lemma_ored_asks(t, set, n - 1, cap, maximal, present);
        let head = covers_upto(t, set, n - 1, cap, maximal)->0;
        let grams = string_cover(t, set[n - 1], maximal);
        let covers = covers_upto(t, set, n, cap, maximal)->0;
        assert(covers == head.push(grams));
        assert(covers.drop_last() =~= head);
        let node = gram_node(Op::And, grams);
        lemma_node_wf(
            Op::And,
            if maximal {
                guaranteed_grams(t, set[n - 1])
            } else {
                minimal_grams(t, set[n - 1])
            },
        );
        law_and_or_exact(ored(head), node, Op::Or, present);
        if holds(node, present) {
            lemma_cover_asks(t, set[n - 1], maximal, present);
            assert(set.contains(set[n - 1]));
        }
    }
}

proof fn lemma_covers_ask(
    g: Stage,
    q: Tree,
    set: Seq<Seq<u8>>,
    cap: int,
    maximal: bool,
    present: spec_fn(Seq<u8>) -> bool,
)
    requires
        tree_wf(q),
        all_covers(g.table, set, cap, maximal) is Some,
    ensures
        ({
            let r = with_covers(g, q, all_covers(g.table, set, cap, maximal)->0).0;
            narrows(r, q, present) && (holds(r, present) ==> some_cover_present(
                g.table,
                set,
                present,
            ))
        }),
{
    let covers = all_covers(g.table, set, cap, maximal)->0;
    lemma_ored_asks(g.table, set, set.len() as int, cap, maximal, present);
    law_and_or_exact(q, ored(covers), Op::And, present);
}

proof fn lemma_grams_narrow(
    g: Stage,
    q: Tree,
    t: WeightTable,
    set: Seq<Seq<u8>>,
    cap: int,
    present: spec_fn(Seq<u8>) -> bool,
)
    requires
        tree_wf(q),
        single_covers(t, set, cap) is Some,
    ensures
        narrows(with_grams(g, q, single_covers(t, set, cap)->0).0, q, present),
{
    let raw = singles_upto(t, set, set.len() as int)->0;
    lemma_node_wf(Op::Or, raw);
    law_and_or_exact(q, gram_node(Op::Or, cleaned(Order::Prefix, raw)), Op::And, present);
}

proof fn lemma_truncated_narrows(
    g: Stage,
    q: Tree,
    set: Seq<Seq<u8>>,
    order: Order,
    cap: int,
    present: spec_fn(Seq<u8>) -> bool,
)
    requires
        tree_wf(q),
    ensures
        narrows(with_truncated(g, q, set, order, cap).0, q, present),
    decreases max_len(set),
{
    let m = max_len(set);
    if m > 3 {
        let next = cleaned(order, cut_all(order, set, m - 1));
        lemma_cut_shrinks(order, set, m - 1);
        if all_covers(g.table, next, cap, false) is Some {
            lemma_covers_ask(g, q, next, cap, false, present);
        }
        lemma_truncated_narrows(g, q, next, order, cap, present);
    }
}

pub proof fn lemma_set_narrows(
    g: Stage,
    q: Tree,
    set: Seq<Seq<u8>>,
    order: Order,
    windows: bool,
    present: spec_fn(Seq<u8>) -> bool,
)
    requires
        tree_wf(q),
    ensures
        narrows(with_set(g, q, set, order, windows).0, q, present),
    decreases (if windows { 1int } else { 0int }),
{
    let cap = flush_limit(g);
    let t = g.table;
    if all_covers(t, set, cap, true) is Some {
        lemma_covers_ask(g, q, set, cap, true, present);
    }
    if all_covers(t, set, cap, false) is Some {
        lemma_covers_ask(g, q, set, cap, false, present);
    } else if single_covers(t, set, grams_left(g)) is Some {
        if windows && set.len() > MAX_SET {
            if let Some(heads) = edge_of(set, Order::Prefix) {
                lemma_set_narrows(g, q, heads, Order::Prefix, false, present);
                kept_with_set(g, q, heads, Order::Prefix, false);
            }
            let (q0, g0) = match edge_of(set, Order::Prefix) {
                Some(heads) => with_set(g, q, heads, Order::Prefix, false),
                None => (q, g),
            };
            if let Some(tails) = edge_of(set, Order::Suffix) {
                lemma_set_narrows(g0, q0, tails, Order::Suffix, false, present);
            }
            let (q1, g1) = match edge_of(set, Order::Suffix) {
                Some(tails) => with_set(g0, q0, tails, Order::Suffix, false),
                None => (q0, g0),
            };
            lemma_grams_narrow(g1, q1, t, set, grams_left(g), present);
        } else {
            lemma_grams_narrow(g, q, t, set, grams_left(g), present);
        }
    } else {
        lemma_truncated_narrows(g, q, set, order, cap, present);
    }
}

/// Flushing a set of strings into a query never loses what the query asks for.
pub proof fn law_flush_only_narrows(
    g: Stage,
    q: Tree,
    set: Seq<Seq<u8>>,
    order: Order,
    present: spec_fn(Seq<u8>) -> bool,
)
    requires
        tree_wf(q),
    ensures
        tree_wf(and_set(g, q, set, order).0),
        holds(and_set(g, q, set, order).0, present) ==> holds(q, present),
{
    reveal(and_set);
    lemma_set_narrows(g, q, set, order, true, present);
}

/// Flushing a set of strings asks for one of them: for all the grams that cover
/// it. That is so where the budget has room for the covers of all of them.
pub proof fn law_flush_asks_for_a_string(
    g: Stage,
    q: Tree,
    set: Seq<Seq<u8>>,
    order: Order,
    present: spec_fn(Seq<u8>) -> bool,
)
    requires
        tree_wf(q),
        set.len() > 0,
        min_len(set) >= MIN_LEN,
        can_flush(g),
        all_covers(g.table, set, flush_limit(g), false) is Some,
    ensures
        holds(and_set(g, q, set, order).0, present) ==> some_cover_present(g.table, set, present),
{
    reveal(and_set);
    let cap = flush_limit(g);
    if all_covers(g.table, set, cap, true) is Some {
        lemma_covers_ask(g, q, set, cap, true, present);
    }
    lemma_covers_ask(g, q, set, cap, false, present);
}

pub proof fn lemma_exact_added_narrows(g: Stage, x: Info, present: spec_fn(Seq<u8>) -> bool)
    requires
        tree_wf(x.query),
    ensures
        narrows(exact_added(g, x).0.query, x.query, present),
        narrows(exact_flushed(g, x).0.query, x.query, present),
{
    if let Some(exact) = x.exact {
        law_flush_only_narrows(g, x.query, exact, Order::Prefix, present);
    }
}

pub proof fn lemma_set_simplified_narrows(
    g: Stage,
    x: Info,
    order: Order,
    force: bool,
    present: spec_fn(Seq<u8>) -> bool,
)
    requires
        tree_wf(x.query),
    ensures
        narrows(set_simplified(g, x, order, force).0.query, x.query, present),
{
    let t = cleaned(order, edge_set(x, order));
    let ((q1, g1), t1, flushed) = large_flushed(g, x.query, x.can_empty, t, order);
    if single_covers(g.table, t, grams_left(g)) is Some {
        lemma_grams_narrow(g, x.query, g.table, t, grams_left(g), present);
    }
    assert(narrows(q1, x.query, present));
    law_flush_only_narrows(g1, q1, t1, order, present);
}

/// Bounding the sets of a summary never loses what it asks for.
pub proof fn law_bounding_only_narrows(
    g: Stage,
    x: Info,
    force: bool,
    present: spec_fn(Seq<u8>) -> bool,
)
    requires
        tree_wf(x.query),
    ensures
        tree_wf(simplified(g, x, force).0.query),
        holds(simplified(g, x, force).0.query, present) ==> holds(x.query, present),
{
    reveal(simplified);
    let x1 = exact_cleaned(x);
    lemma_exact_added_narrows(g, x1, present);
    let (x2, g2) = if exact_overflows(x1, force) {
        exact_flushed(g, x1)
    } else {
        (x1, g)
    };
    if x2.exact is None {
        lemma_set_simplified_narrows(g2, x2, Order::Prefix, force, present);
        let (x3, g3) = set_simplified(g2, x2, Order::Prefix, force);
        lemma_set_simplified_narrows(g3, x3, Order::Suffix, force, present);
    }
}

/// Flushing the edges of a summary never loses what it asks for.
pub proof fn law_edges_only_narrow(g: Stage, x: Info, present: spec_fn(Seq<u8>) -> bool)
    requires
        tree_wf(x.query),
    ensures
        tree_wf(sets_flushed(g, x).0.query),
        holds(sets_flushed(g, x).0.query, present) ==> holds(x.query, present),
{
    reveal(sets_flushed);
    law_flush_only_narrows(g, x.query, x.prefix, Order::Prefix, present);
    let (q1, g1) = and_set(g, x.query, x.prefix, Order::Prefix);
    law_flush_only_narrows(g1, q1, x.suffix, Order::Suffix, present);
}

proof fn lemma_spilled_narrows(g: Stage, x: Info, present: spec_fn(Seq<u8>) -> bool)
    requires
        tree_wf(x.query),
    ensures
        narrows(flush_spilled(g, x).0.query, x.query, present),
{
    reveal(flush_spilled);
    lemma_exact_added_narrows(g, x, present);
    let (y, g1) = exact_flushed(g, x);
    law_bounding_only_narrows(g1, y, false, present);
}

/// One expression after another demands what both demand.
pub proof fn law_sequence_demands_both(
    g: Stage,
    x: Info,
    y: Info,
    present: spec_fn(Seq<u8>) -> bool,
)
    requires
        tree_wf(x.query),
        tree_wf(y.query),
    ensures
        tree_wf(concatenated(g, x, y).0.query),
        holds(concatenated(g, x, y).0.query, present) ==> holds(x.query, present) && holds(
            y.query,
            present,
        ),
{
    reveal(concatenated);
    lemma_spilled_narrows(g, x, present);
    lemma_spilled_narrows(g, y, present);
    let (x1, y1, g1) = crosses_bounded(g, x, y);
    law_and_or_exact(x1.query, y1.query, Op::And, present);
    let q = combined(x1.query, y1.query, Op::And);
    let (query, g2) = match seam_of(x1, y1) {
        Some(boundary) => and_set(g1, q, boundary, Order::Prefix),
        None => (q, g1),
    };
    if let Some(boundary) = seam_of(x1, y1) {
        law_flush_only_narrows(g1, q, boundary, Order::Prefix, present);
    }
    law_bounding_only_narrows(g2, Info { query, ..joint_sets(x1, y1) }, false, present);
}

/// One expression after another demands what bridges them: where neither side is
/// known exactly or can be empty, every covering gram of some end of the first
/// joined to some start of the second. The sides must be small enough to be
/// crossed, and the covers must fit the budget.
pub proof fn law_sequence_demands_the_seam(
    g: Stage,
    x: Info,
    y: Info,
    present: spec_fn(Seq<u8>) -> bool,
)
    requires
        tree_wf(x.query),
        tree_wf(y.query),
        x.exact is None && y.exact is None,
        !x.can_empty && !y.can_empty,
        0 < x.suffix.len() <= MAX_SET,
        0 < y.prefix.len() <= MAX_SET,
        x.suffix.len() * y.prefix.len() <= MAX_SEAM_CROSS,
        min_len(x.suffix) + min_len(y.prefix) >= MIN_LEN,
        min_len(crossed(x.suffix, y.prefix, Order::Prefix)) >= MIN_LEN,
        can_flush(g),
        all_covers(
            g.table,
            crossed(x.suffix, y.prefix, Order::Prefix),
            flush_limit(g),
            false,
        ) is Some,
        holds(concatenated(g, x, y).0.query, present),
    ensures
        exists|u: Seq<u8>, v: Seq<u8>| #[trigger]
            x.suffix.contains(u) && #[trigger] y.prefix.contains(v) && cover_present(
                g.table,
                u + v,
                present,
            ),
{
    reveal(concatenated);
    let boundary = crossed(x.suffix, y.prefix, Order::Prefix);
    let q = combined(x.query, y.query, Op::And);
    law_and_or_exact(x.query, y.query, Op::And, present);
    assert(crosses_bounded(g, x, y) == (x, y, g));
    assert(seam_of(x, y) == Some(boundary));
    let (query, g2) = and_set(g, q, boundary, Order::Prefix);
    law_flush_only_narrows(g, q, boundary, Order::Prefix, present);
    law_bounding_only_narrows(g2, Info { query, ..joint_sets(x, y) }, false, present);
    lemma_pairs(x.suffix, y.prefix);
    assert(x.suffix.contains(x.suffix[0]) && y.prefix.contains(y.prefix[0]));
    let first = x.suffix[0] + y.prefix[0];
    assert(pairs(x.suffix, y.prefix).contains(first));
    lemma_cleaned_contains(Order::Prefix, pairs(x.suffix, y.prefix), first);
    assert(boundary.len() > 0);
    law_flush_asks_for_a_string(g, q, boundary, Order::Prefix, present);
    let s = choose|s: Seq<u8>| #[trigger]
        boundary.contains(s) && cover_present(g.table, s, present);
    lemma_cleaned_contains(Order::Prefix, pairs(x.suffix, y.prefix), s);
    let (u, v) = choose|u: Seq<u8>, v: Seq<u8>|
        x.suffix.contains(u) && y.prefix.contains(v) && s == u + v;
    assert(x.suffix.contains(u) && y.prefix.contains(v) && cover_present(
        g.table,
        u + v,
        present,
    ));
}

/// An alternative demands what one of its branches demands.
pub proof fn law_alternative_demands_either(
    g: Stage,
    x: Info,
    y: Info,
    present: spec_fn(Seq<u8>) -> bool,
)
    requires
        tree_wf(x.query),
        tree_wf(y.query),
    ensures
        tree_wf(alternated(g, x, y).0.query),
        holds(alternated(g, x, y).0.query, present) ==> holds(x.query, present) || holds(
            y.query,
            present,
        ),
{
    reveal(alternated);
    lemma_exact_added_narrows(g, x, present);
    lemma_exact_added_narrows(g, y, present);
    let (qx, qy, g1) = if x.exact is Some && y.exact is None {
        let (x1, g1) = exact_added(g, x);
        (x1.query, y.query, g1)
    } else if y.exact is Some && x.exact is None {
        let (y1, g1) = exact_added(g, y);
        (x.query, y1.query, g1)
    } else {
        (x.query, y.query, g)
    };
    law_and_or_exact(qx, qy, Op::Or, present);
    law_bounding_only_narrows(
        g1,
        Info { query: combined(qx, qy, Op::Or), ..either_sets(x, y) },
        false,
        present,
    );
}

proof fn lemma_powered_demands(
    g: Stage,
    base: Info,
    k: int,
    present: spec_fn(Seq<u8>) -> bool,
)
    requires
        tree_wf(base.query),
    ensures
        tree_wf(powered(g, base, k).0.query),
        k >= 1 && holds(powered(g, base, k).0.query, present) ==> holds(base.query, present),
    decreases k,
{
    if k > 0 {
        lemma_powered_demands(g, base, k - 1, present);
        let (x, g1) = powered(g, base, k - 1);
        law_sequence_demands_both(g1, x, base, present);
    }
}

proof fn lemma_copies_demand(
    g: Stage,
    base: Info,
    copies: int,
    whole: bool,
    n: int,
    present: spec_fn(Seq<u8>) -> bool,
)
    requires
        tree_wf(base.query),
    ensures
        tree_wf(copies_upto(g, base, copies, whole, n).0.query),
        n >= 1 && holds(copies_upto(g, base, copies, whole, n).0.query, present) ==> holds(
            base.query,
            present,
        ),
    decreases n,
{
    if n > 1 {
        lemma_copies_demand(g, base, copies, whole, n - 1, present);
        let (x, g1) = copies_upto(g, base, copies, whole, n - 1);
        law_sequence_demands_both(g1, x, base, present);
        law_sequence_demands_both(g1, x, plus_of(base), present);
    }
}

proof fn lemma_affordable(g: Stage, x: Info, wanted: int)
    requires
        wanted >= 1,
    ensures
        affordable(g, x, wanted) >= 1,
{
}

proof fn lemma_expanded_demands(
    g: Stage,
    base: Info,
    min: int,
    exact_count: bool,
    present: spec_fn(Seq<u8>) -> bool,
)
    requires
        tree_wf(base.query),
        min >= 1,
    ensures
        tree_wf(expanded(g, base, min, exact_count).0.query),
        holds(expanded(g, base, min, exact_count).0.query, present) ==> holds(base.query, present),
    decreases (if min == 2 { 1int } else { 0int }),
{
    let wanted = if min < MAX_REPEAT_EXPAND {
        min
    } else {
        MAX_REPEAT_EXPAND as int
    };
    lemma_affordable(g, base, wanted);
    let copies = affordable(g, base, wanted);
    let whole = exact_count && copies == min;
    if min == 2 && !whole && copies == 2 {
        lemma_powered_demands(g, base, 2, present);
        let (two, g1) = powered(g, base, 2);
        lemma_expanded_demands(g1, base, 3, false, present);
        let (three, g2) = expanded(g1, base, 3, false);
        law_edges_only_narrow(g2, three, present);
        let (flushed, g3) = sets_flushed(g2, three);
        law_alternative_demands_either(g3, two, flushed, present);
    } else {
        let extra = if copies >= 1 {
            copies - 1
        } else {
            0
        };
        let g1 = spent(g, clamp(query_weight(base) * extra));
        lemma_copies_demand(g1, base, copies, whole, copies, present);
        let (x, g2) = copies_upto(g1, base, copies, whole, copies);
        law_bounding_only_narrows(g2, x, false, present);
    }
}

proof fn lemma_counts_demand(
    g: Stage,
    base: Info,
    min: int,
    n: int,
    present: spec_fn(Seq<u8>) -> bool,
)
    requires
        tree_wf(base.query),
        min >= 1,
    ensures
        tree_wf(counts_upto(g, base, min, n).0.query),
        holds(counts_upto(g, base, min, n).0.query, present) ==> holds(base.query, present),
    decreases n - min,
{
    if n == min {
        lemma_powered_demands(g, base, n, present);
        let (x, g1) = powered(g, base, n);
        law_edges_only_narrow(g1, x, present);
    } else if n > min {
        lemma_counts_demand(g, base, min, n - 1, present);
        let (acc, g1) = counts_upto(g, base, min, n - 1);
        lemma_powered_demands(g1, base, n, present);
        let (x, g2) = powered(g1, base, n);
        law_edges_only_narrow(g2, x, present);
        let (y, g3) = sets_flushed(g2, x);
        law_alternative_demands_either(g3, acc, y, present);
    }
}

/// A repetition of one copy or more demands what a copy demands.
pub proof fn law_repetition_demands_a_copy(
    g: Stage,
    base: Info,
    min: int,
    max: Option<u32>,
    present: spec_fn(Seq<u8>) -> bool,
)
    requires
        settled(base),
        min >= 1,
    ensures
        holds(repeated(g, base, min, max).0.query, present) ==> holds(base.query, present),
{
    lemma_expanded_demands(g, base, min, false, present);
    lemma_expanded_demands(g, base, min, true, present);
    if let Some(m) = max {
        let g1 = spent(g, clamp(query_weight(base) * sum_of(min, m as int)));
        lemma_counts_demand(g1, base, min, m as int, present);
    }
}

/// What the final flush of a summary demands: all that the summary does, and of
/// an exact set one of its strings.
pub proof fn law_final_flush_demands(g: Stage, x: Info, present: spec_fn(Seq<u8>) -> bool)
    requires
        tree_wf(x.query),
    ensures
        holds(finalized(g, x).0.query, present) ==> holds(x.query, present),
        ({
            let set = cleaned(Order::Prefix, x.exact->0);
            x.exact is Some && set.len() > 0 && min_len(set) >= MIN_LEN && all_covers(
                g.table,
                set,
                flush_limit(g),
                false,
            ) is Some ==> (holds(finalized(g, x).0.query, present) ==> some_cover_present(
                g.table,
                x.exact->0,
                present,
            ))
        }),
{
    let g1 = Stage { finalizing: true, ..g };
    law_bounding_only_narrows(g1, x, true, present);
    let (y, g2) = simplified(g1, x, true);
    lemma_exact_added_narrows(g2, y, present);
    if let Some(exact) = x.exact {
        let set = cleaned(Order::Prefix, exact);
        if set.len() > 0 && min_len(set) >= MIN_LEN && all_covers(
            g.table,
            set,
            flush_limit(g),
            false,
        ) is Some {
            lemma_forced(g1, x, present);
            if holds(finalized(g, x).0.query, present) {
                let s = choose|s: Seq<u8>| #[trigger]
                    set.contains(s) && cover_present(g.table, s, present);
                lemma_cleaned_contains(Order::Prefix, exact, s);
            }
        }
    }
}

/// A forced flush of an exact set asks for one of its strings.
proof fn lemma_forced(g: Stage, x: Info, present: spec_fn(Seq<u8>) -> bool)
    requires
        tree_wf(x.query),
        x.exact is Some,
        cleaned(Order::Prefix, x.exact->0).len() > 0,
        min_len(cleaned(Order::Prefix, x.exact->0)) >= MIN_LEN,
        g.finalizing,
        all_covers(g.table, cleaned(Order::Prefix, x.exact->0), flush_limit(g), false) is Some,
    ensures
        holds(simplified(g, x, true).0.query, present) ==> some_cover_present(
            g.table,
            cleaned(Order::Prefix, x.exact->0),
            present,
        ),
{
    reveal(simplified);
    let set = cleaned(Order::Prefix, x.exact->0);
    let x1 = exact_cleaned(x);
    assert(exact_overflows(x1, true));
    law_flush_asks_for_a_string(g, x.query, set, Order::Prefix, present);
    lemma_exact_added_narrows(g, x1, present);
    let (x2, g2) = exact_flushed(g, x1);
    assert(x2.query == and_set(g, x.query, set, Order::Prefix).0);
    lemma_set_simplified_narrows(g2, x2, Order::Prefix, true, present);
    let (x3, g3) = set_simplified(g2, x2, Order::Prefix, true);
    lemma_set_simplified_narrows(g3, x3, Order::Suffix, true, present);
}

/// A literal has no more covering grams than bytes.
proof fn lemma_cover_count(grams: Seq<Seq<u8>>)
    requires
        forall|j: int| 0 <= j < grams.len() ==> (#[trigger] grams[j]).len() >= MIN_LEN,
    ensures
        total_len(grams) >= 3 * grams.len(),
    decreases grams.len(),
{
    if grams.len() > 0 {
        let head = grams.drop_last();
        assert forall|j: int| 0 <= j < head.len() implies (#[trigger] head[j]).len()
            >= MIN_LEN by {
            assert(head[j] == grams[j]);
        }
        lemma_cover_count(head);
    }
}

/// The cover of a string has a gram, and no more of them than the string has
/// bytes.
pub proof fn lemma_cover_size(t: WeightTable, s: Seq<u8>)
    requires
        MIN_LEN <= s.len(),
    ensures
        0 < string_cover(t, s, false).len() <= s.len(),
{
    let grams = minimal_grams(t, s);
    let cover = string_cover(t, s, false);
    law_cover_is_empty_for_short_literals(t, s);
    law_cover_has_no_surplus(t, s);
    assert forall|j: int| 0 <= j < grams.len() implies (#[trigger] grams[j]).len() >= MIN_LEN by {
        assert(grams.contains(grams[j]));
        law_cover_in_scan(t, s, grams[j]);
    }
    lemma_cover_count(grams);
    lemma_cleaned(Order::Prefix, grams);
    assert(cover.contains(grams[0])) by {
        assert(grams.contains(grams[0]));
        assert(same_members(cover, grams));
    }
    lemma_set_size(cover, grams);
}

/// The cover of one string fits where the string is no longer than the cap.
pub proof fn lemma_cover_fits(t: WeightTable, s: Seq<u8>, cap: int)
    requires
        MIN_LEN <= s.len() <= cap,
    ensures
        all_covers(t, seq![s], cap, false) is Some,
{
    let set = seq![s];
    lemma_one(s);
    lemma_covers_fit(t, set, 1, cap);
}

/// A sequence without duplicates is no longer than one with the same members.
pub proof fn lemma_set_size(a: Seq<Seq<u8>>, b: Seq<Seq<u8>>)
    requires
        a.no_duplicates(),
        same_members(a, b),
    ensures
        a.len() <= b.len(),
{
    a.unique_seq_to_set();
    b.lemma_cardinality_of_set();
    assert(a.to_set() =~= b.to_set()) by {
        assert forall|x: Seq<u8>| a.to_set().contains(x) <==> b.to_set().contains(x) by {
            assert(a.contains(x) <==> b.contains(x));
        }
    }
}

/// A literal pattern demands the grams that cover it, all of them: a document
/// whose grams satisfy the plan holds each. The literal must fit the budget of one
/// flush.
pub proof fn law_literal_demands_its_cover(
    table: WeightTable,
    ctx: PlanContext,
    h: Regex,
    bytes: Seq<u8>,
    present: spec_fn(Seq<u8>) -> bool,
)
    requires
        h matches Regex::Literal(lit) && lit@ == bytes,
        !ctx.fold,
        MIN_LEN <= bytes.len() <= PLAN_GRAM_BUDGET / 2,
        holds(planned(table, ctx, h), present),
    ensures
        cover_present(table, bytes, present),
{
    reveal(simplified);
    let g = Stage { table, ctx, flushed: 0, finalizing: false };
    let set = seq![bytes];
    lemma_one(bytes);
    let (x, g1) = analyzed(g, h);
    assert(x.exact == Some(set));
    assert(g1 == g);
    lemma_cover_fits(table, bytes, flush_limit(g));
    law_final_flush_demands(g, x, present);
    let s = choose|s: Seq<u8>| #[trigger] set.contains(s) && cover_present(table, s, present);
    assert(s == bytes);
}

/// In the folded space a literal pattern demands the grams that cover its
/// lower-case form, all of them.
pub proof fn law_folded_literal_demands_its_cover(
    table: WeightTable,
    ctx: PlanContext,
    h: Regex,
    bytes: Seq<u8>,
    present: spec_fn(Seq<u8>) -> bool,
)
    requires
        h matches Regex::Literal(lit) && lit@ == bytes,
        ctx.fold,
        MIN_LEN <= bytes.len() <= PLAN_GRAM_BUDGET / 2,
        holds(planned(table, ctx, h), present),
    ensures
        cover_present(table, lowered(bytes), present),
{
    reveal(simplified);
    let g = Stage { table, ctx, flushed: 0, finalizing: false };
    let low = lowered(bytes);
    let set = seq![low];
    lemma_one(low);
    let (x, g1) = analyzed(g, h);
    assert(x.exact == Some(set));
    assert(g1 == g);
    lemma_cover_fits(table, low, flush_limit(g));
    law_final_flush_demands(g, x, present);
    let s = choose|s: Seq<u8>| #[trigger] set.contains(s) && cover_present(table, s, present);
    assert(s == low);
}

/// A set of one string is clean, and as long as that string.
pub proof fn lemma_one(s: Seq<u8>)
    ensures
        cleaned(Order::Prefix, seq![s]) == seq![s],
        min_len(seq![s]) == s.len(),
        byte_len(seq![s]) == s.len(),
{
    lemma_cleaned_is(Order::Prefix, seq![s], seq![s]);
    assert(seq![s].drop_last() =~= Seq::<Seq<u8>>::empty());
    assert(seq![s].drop_first() =~= Seq::<Seq<u8>>::empty());
    assert(byte_len(Seq::<Seq<u8>>::empty()) == 0);
}

/// Strings without duplicates are together no longer than those they are among.
pub proof fn lemma_fewer_bytes(a: Seq<Seq<u8>>, b: Seq<Seq<u8>>)
    requires
        a.no_duplicates(),
        forall|x: Seq<u8>| #[trigger] a.contains(x) ==> b.contains(x),
    ensures
        byte_len(a) <= byte_len(b),
        a.len() <= b.len(),
    decreases a.len(),
{
    if a.len() > 0 {
        let x = a.last();
        assert(a[a.len() - 1] == x);
        assert(a.contains(x));
        let i = choose|i: int| 0 <= i < b.len() && b[i] == x;
        let head = a.drop_last();
        let rest = b.remove(i);
        b.remove_ensures(i);
        lemma_bytes_without(b, i);
        assert forall|y: Seq<u8>| #[trigger] head.contains(y) implies rest.contains(y) by {
            let n = choose|n: int| 0 <= n < head.len() && head[n] == y;
            assert(a[n] == y);
            assert(a.contains(y));
            let m = choose|m: int| 0 <= m < b.len() && b[m] == y;
            if m < i {
                assert(rest[m] == y);
            } else if m > i {
                assert(rest[m - 1] == y);
            }
        }
        lemma_fewer_bytes(head, rest);
    }
}

proof fn lemma_bytes_without(b: Seq<Seq<u8>>, i: int)
    requires
        0 <= i < b.len(),
    ensures
        byte_len(b.remove(i)) == byte_len(b) - b[i].len(),
    decreases b.len(),
{
    let rest = b.remove(i);
    if i == b.len() - 1 {
        assert(rest =~= b.drop_last());
    } else {
        lemma_bytes_without(b.drop_last(), i);
        assert(rest.drop_last() =~= b.drop_last().remove(i));
        assert(rest.last() == b.last());
    }
}

/// The literals of the first `n` branches.
pub open spec fn branch_literals(h: Regex, n: int) -> Seq<Seq<u8>> {
    Seq::new(n as nat, |i: int| h->Alternation_0@[i]->Literal_0@)
}

/// Every branch is a literal of a gram's length.
pub open spec fn literal_branches(h: Regex) -> bool {
    h matches Regex::Alternation(subs) && subs@.len() > 1 && forall|i: int|
        0 <= i < subs@.len() ==> (#[trigger] subs@[i] matches Regex::Literal(lit) && lit@.len()
            >= MIN_LEN)
}

/// A summary that is the clean set of these strings and nothing else.
spec fn is_exactly(x: Info, set: Seq<Seq<u8>>) -> bool {
    &&& tree_wf(x.query)
    &&& x.exact matches Some(e) && same_members(e, set) && e.no_duplicates()
}

proof fn lemma_literal_summary(g: Stage, bytes: Seq<u8>)
    requires
        !g.ctx.fold,
        0 < bytes.len() <= MAX_EXACT_BYTES,
    ensures
        ({
            let (x, g1) = simplified(g, literal_folded(g.ctx, bytes), false);
            is_exactly(x, seq![bytes]) && x.exact == Some(seq![bytes]) && g1 == g
        }),
{
    reveal(simplified);
    lemma_one(bytes);
}

proof fn lemma_bytes_take(set: Seq<Seq<u8>>, n: int)
    requires
        0 <= n <= set.len(),
    ensures
        byte_len(set.take(n)) <= byte_len(set),
    decreases set.len() - n,
{
    if n < set.len() {
        lemma_bytes_take(set, n + 1);
        assert(set.take(n + 1).drop_last() =~= set.take(n));
    } else {
        assert(set.take(n) =~= set);
    }
}

proof fn lemma_alternatives_exact(g: Stage, h: Regex, e: Sides, n: int)
    requires
        literal_branches(h),
        !g.ctx.fold,
        1 <= n <= h->Alternation_0@.len(),
        byte_len(branch_literals(h, n)) <= PLAN_GRAM_BUDGET / 2,
    ensures
        is_exactly(alternation_upto(g, h, e, n).0, branch_literals(h, n)),
        alternation_upto(g, h, e, n).1 == g,
    decreases n,
{
    reveal(sets_flushed);
    let subs = h->Alternation_0@;
    let lits = branch_literals(h, n);
    let lit = subs[n - 1]->Literal_0@;
    assert(lits.drop_last() =~= branch_literals(h, n - 1));
    assert(lits.last() == lit);
    lemma_literal_summary(g, lit);
    let (y, g2) = analyzed_in(g, subs[n - 1], e);
    assert(sets_flushed(g, y) == (y, g));
    if n == 1 {
        assert(lits =~= seq![lit]);
    } else {
        lemma_alternatives_exact(g, h, e, n - 1);
        let (acc, g1) = alternation_upto(g, h, e, n - 1);
        reveal(alternated);
        reveal(simplified);
        let ae = acc.exact->0;
        let both = united(ae, seq![lit], Order::Prefix);
        lemma_cleaned(Order::Prefix, ae + seq![lit]);
        lemma_cleaned(Order::Prefix, both);
        assert forall|x: Seq<u8>| both.contains(x) <==> #[trigger] lits.contains(x) by {
            lemma_united_contains(ae, seq![lit], Order::Prefix, x);
            lemma_last_literal(lits, x);
            assert(seq![lit].contains(x) <==> x == lit) by {
                assert(seq![lit][0] == lit);
            }
        }
        let again = cleaned(Order::Prefix, both);
        assert(same_members(again, lits));
        lemma_fewer_bytes(again, lits);
        law_and_or_exact(acc.query, y.query, Op::Or, |s: Seq<u8>| true);
        assert(lits.len() <= MAX_EXACT) by {
            lemma_enough_bytes(lits);
        }
    }
}

proof fn lemma_last_literal(lits: Seq<Seq<u8>>, x: Seq<u8>)
    requires
        lits.len() > 0,
    ensures
        lits.contains(x) <==> lits.drop_last().contains(x) || x == lits.last(),
{
    let head = lits.drop_last();
    if lits.contains(x) {
        let n = choose|n: int| 0 <= n < lits.len() && lits[n] == x;
        if n < head.len() {
            assert(head[n] == x);
        }
    }
    if head.contains(x) {
        let n = choose|n: int| 0 <= n < head.len() && head[n] == x;
        assert(lits[n] == x);
    }
    if x == lits.last() {
        assert(lits[lits.len() - 1] == x);
    }
}

/// Strings of a gram's length are fewer than their bytes.
pub proof fn lemma_enough_bytes(set: Seq<Seq<u8>>)
    requires
        forall|i: int| 0 <= i < set.len() ==> (#[trigger] set[i]).len() >= MIN_LEN,
    ensures
        3 * set.len() <= byte_len(set),
        set.len() > 0 ==> min_len(set) >= MIN_LEN,
    decreases set.len(),
{
    if set.len() > 0 {
        let head = set.drop_last();
        assert forall|i: int| 0 <= i < head.len() implies (#[trigger] head[i]).len()
            >= MIN_LEN by {
            assert(head[i] == set[i]);
        }
        lemma_enough_bytes(head);
        assert(set[set.len() - 1] == set.last());
    }
}

/// The covers of strings fit where the strings together are no longer than the
/// cap.
pub proof fn lemma_covers_fit(t: WeightTable, set: Seq<Seq<u8>>, n: int, cap: int)
    requires
        forall|i: int| 0 <= i < set.len() ==> (#[trigger] set[i]).len() >= MIN_LEN,
        byte_len(set) <= cap,
        0 <= n <= set.len(),
    ensures
        covers_upto(t, set, n, cap, false) is Some,
        total_grams(covers_upto(t, set, n, cap, false)->0) <= byte_len(set.take(n)),
    decreases n,
{
    if n > 0 {
        lemma_covers_fit(t, set, n - 1, cap);
        let s = set[n - 1];
        lemma_cover_size(t, s);
        let head = covers_upto(t, set, n - 1, cap, false)->0;
        let cover = string_cover(t, s, false);
        assert(head.push(cover).drop_last() =~= head);
        assert(set.take(n).drop_last() =~= set.take(n - 1));
        lemma_bytes_take(set, n);
    }
}

/// Alternatives that are literals demand the cover of one of them: a document
/// whose grams satisfy the plan holds every gram that covers one of the literals.
/// The literals together must fit the budget of one flush.
pub proof fn law_literal_alternatives_demand_a_cover(
    table: WeightTable,
    ctx: PlanContext,
    h: Regex,
    present: spec_fn(Seq<u8>) -> bool,
)
    requires
        literal_branches(h),
        !ctx.fold,
        byte_len(branch_literals(h, h->Alternation_0@.len() as int)) <= PLAN_GRAM_BUDGET / 2,
        holds(planned(table, ctx, h), present),
    ensures
        some_cover_present(table, branch_literals(h, h->Alternation_0@.len() as int), present),
{
    let n = h->Alternation_0@.len() as int;
    let g = Stage { table, ctx, flushed: 0, finalizing: false };
    let lits = branch_literals(h, n);
    let e = whole(ctx);
    lemma_alternatives_exact(g, h, e, n);
    let (x, g1) = analyzed(g, h);
    let exact = x.exact->0;
    let set = cleaned(Order::Prefix, exact);
    lemma_cleaned(Order::Prefix, exact);
    assert forall|i: int| 0 <= i < set.len() implies (#[trigger] set[i]).len() >= MIN_LEN by {
        assert(set.contains(set[i]));
        assert(exact.contains(set[i]));
        assert(lits.contains(set[i]));
        let m = choose|m: int| 0 <= m < lits.len() && lits[m] == set[i];
        assert(h->Alternation_0@[m]->Literal_0@.len() >= MIN_LEN);
    }
    assert forall|y: Seq<u8>| #[trigger] set.contains(y) implies lits.contains(y) by {
        assert(exact.contains(y));
    }
    lemma_fewer_bytes(set, lits);
    lemma_enough_bytes(set);
    lemma_covers_fit(table, set, set.len() as int, flush_limit(g));
    assert(lits.contains(lits[0]));
    assert(exact.contains(lits[0]));
    assert(set.contains(lits[0]));
    law_final_flush_demands(g, x, present);
    let s = choose|s: Seq<u8>| #[trigger] exact.contains(s) && cover_present(table, s, present);
    assert(lits.contains(s));
}

} // verus!
