//! What a flush demands beyond covers: of few strings all the grams of one of
//! them, and of many at least one gram.

use vstd::prelude::*;

use crate::extract::cover::{guaranteed_grams, law_cover_in_scan, minimal_grams};
use crate::extract::tiling::law_guaranteed_are_the_grams;
use crate::extract::{has_gram, MIN_LEN};
use crate::query::algebra::{gram_node, holds, law_and_or_exact, tree_wf, Op, Tree};
use crate::query::analyze::fold::{analyzed, planned};
use crate::query::analyze::{
    can_flush, flush_limit, grams_left, PlanContext, Stage, PLAN_GRAM_BUDGET,
};
use crate::query::covers::{
    all_covers, and_set, covers_upto, edge_of, lemma_single, ored, outranks, single, single_covers,
    singles_upto, string_cover, total_grams, with_set, MAX_MAXIMAL_COVER_BRANCHES,
};
use crate::query::flush::{
    exact_cleaned, exact_flushed, exact_overflows, set_simplified, simplified,
};
use crate::query::hir::Regex;
use crate::query::order::{cleaned, lemma_cleaned, Order};
use crate::query::soundness::demanded::{
    lemma_cover_size, lemma_exact_added_narrows, lemma_node_wf, lemma_one, lemma_set_narrows,
    lemma_set_simplified_narrows, lemma_set_size,
};
use crate::query::soundness::lemma_cleaned_contains;
use crate::query::strings::min_len;
use crate::table::WeightTable;

verus! {

/// Every gram of the string is present.
pub open spec fn grams_present(
    t: WeightTable,
    s: Seq<u8>,
    present: spec_fn(Seq<u8>) -> bool,
) -> bool {
    forall|g: Seq<u8>| #[trigger] has_gram(t, s, g) ==> present(g)
}

/// Every gram of one of the strings is present.
pub open spec fn all_of_one_present(
    t: WeightTable,
    set: Seq<Seq<u8>>,
    present: spec_fn(Seq<u8>) -> bool,
) -> bool {
    exists|s: Seq<u8>| #[trigger] set.contains(s) && grams_present(t, s, present)
}

/// The alternatives ask for all the grams of one of the strings.
proof fn lemma_ored_asks_all(
    t: WeightTable,
    set: Seq<Seq<u8>>,
    n: int,
    cap: int,
    present: spec_fn(Seq<u8>) -> bool,
)
    requires
        0 <= n <= set.len(),
        covers_upto(t, set, n, cap, true) is Some,
    ensures
        tree_wf(ored(covers_upto(t, set, n, cap, true)->0)),
        holds(ored(covers_upto(t, set, n, cap, true)->0), present) ==> all_of_one_present(
            t,
            set,
            present,
        ),
    decreases n,
{
    if n > 0 {
        let s = set[n - 1];
        lemma_ored_asks_all(t, set, n - 1, cap, present);
        let head = covers_upto(t, set, n - 1, cap, true)->0;
        let grams = string_cover(t, s, true);
        let covers = covers_upto(t, set, n, cap, true)->0;
        assert(covers == head.push(grams));
        assert(covers.drop_last() =~= head);
        let node = gram_node(Op::And, grams);
        lemma_node_wf(Op::And, guaranteed_grams(t, s));
        law_and_or_exact(ored(head), node, Op::Or, present);
        if holds(node, present) {
            assert forall|g: Seq<u8>| #[trigger] has_gram(t, s, g) implies present(g) by {
                law_guaranteed_are_the_grams(t, s, g);
                lemma_cleaned_contains(Order::Prefix, guaranteed_grams(t, s), g);
                assert(node.grams.contains(g));
            }
            assert(set.contains(s));
        }
    }
}

/// Flushing a few strings asks for one of them, and for all of its grams, not only
/// for those that cover it. That is so where the budget has room for the grams of
/// all the strings.
pub proof fn law_few_strings_demand_all_their_grams(
    g: Stage,
    q: Tree,
    set: Seq<Seq<u8>>,
    order: Order,
    present: spec_fn(Seq<u8>) -> bool,
)
    requires
        tree_wf(q),
        0 < set.len() <= MAX_MAXIMAL_COVER_BRANCHES,
        min_len(set) >= MIN_LEN,
        can_flush(g),
        all_covers(g.table, set, flush_limit(g), true) is Some,
    ensures
        holds(and_set(g, q, set, order).0, present) ==> all_of_one_present(g.table, set, present),
{
    reveal(and_set);
    let covers = all_covers(g.table, set, flush_limit(g), true)->0;
    lemma_ored_asks_all(g.table, set, set.len() as int, flush_limit(g), present);
    law_and_or_exact(q, ored(covers), Op::And, present);
}

/// One of the grams of one of the strings is present, and none of the string's
/// grams is stronger.
pub open spec fn strong_gram_present(
    t: WeightTable,
    set: Seq<Seq<u8>>,
    present: spec_fn(Seq<u8>) -> bool,
) -> bool {
    exists|s: Seq<u8>, g: Seq<u8>|
        set.contains(s) && #[trigger] has_gram(t, s, g) && present(g) && forall|h: Seq<u8>|
            #[trigger] has_gram(t, s, h) ==> !outranks(s, h, g)
}

/// The strongest gram of each string is one of its grams.
proof fn lemma_singles_ask(
    t: WeightTable,
    set: Seq<Seq<u8>>,
    n: int,
    g: Seq<u8>,
    present: spec_fn(Seq<u8>) -> bool,
)
    requires
        0 <= n <= set.len(),
        singles_upto(t, set, n) is Some,
        singles_upto(t, set, n)->0.contains(g),
        present(g),
    ensures
        strong_gram_present(t, set, present),
    decreases n,
{
    if n > 0 {
        let s = set[n - 1];
        let head = singles_upto(t, set, n - 1)->0;
        let last = single(t, s)->0;
        let all = singles_upto(t, set, n)->0;
        assert(all == head.push(last));
        let k = choose|k: int| 0 <= k < all.len() && all[k] == g;
        if k < head.len() {
            assert(head[k] == g);
            assert(head.contains(g));
            lemma_singles_ask(t, set, n - 1, g, present);
        } else {
            lemma_single(t, s);
            law_guaranteed_are_the_grams(t, s, g);
            assert(set.contains(s));
            assert forall|h: Seq<u8>| #[trigger] has_gram(t, s, h) implies !outranks(s, h, g) by {
                law_guaranteed_are_the_grams(t, s, h);
            }
        }
    }
}

/// Flushing strings whose covers are over the budget still asks for one of them:
/// for the strongest of its grams.
pub proof fn law_many_strings_demand_a_gram(
    g: Stage,
    q: Tree,
    set: Seq<Seq<u8>>,
    order: Order,
    present: spec_fn(Seq<u8>) -> bool,
)
    requires
        tree_wf(q),
        set.len() > 0,
        min_len(set) >= MIN_LEN,
        can_flush(g),
        all_covers(g.table, set, flush_limit(g), true) is None,
        all_covers(g.table, set, flush_limit(g), false) is None,
        single_covers(g.table, set, grams_left(g)) is Some,
    ensures
        holds(and_set(g, q, set, order).0, present) ==> strong_gram_present(
            g.table,
            set,
            present,
        ),
{
    reveal(and_set);
    let (q0, g0) = match edge_of(set, Order::Prefix) {
        Some(heads) => with_set(g, q, heads, Order::Prefix, false),
        None => (q, g),
    };
    if let Some(heads) = edge_of(set, Order::Prefix) {
        lemma_set_narrows(g, q, heads, Order::Prefix, false, present);
    }
    let (q1, g1) = match edge_of(set, Order::Suffix) {
        Some(tails) => with_set(g0, q0, tails, Order::Suffix, false),
        None => (q0, g0),
    };
    if let Some(tails) = edge_of(set, Order::Suffix) {
        lemma_set_narrows(g0, q0, tails, Order::Suffix, false, present);
    }
    let raw = singles_upto(g.table, set, set.len() as int)->0;
    let grams = cleaned(Order::Prefix, raw);
    let node = gram_node(Op::Or, grams);
    lemma_node_wf(Op::Or, raw);
    law_and_or_exact(q, node, Op::And, present);
    law_and_or_exact(q1, node, Op::And, present);
    if holds(node, present) {
        let x = choose|x: Seq<u8>| #[trigger] node.grams.contains(x) && present(x);
        lemma_cleaned_contains(Order::Prefix, raw, x);
        lemma_singles_ask(g.table, set, set.len() as int, x, present);
    }
}

/// A literal pattern demands every gram of the literal. The literal and its grams
/// must fit the budget of one flush.
pub proof fn law_literal_demands_all_its_grams(
    table: WeightTable,
    ctx: PlanContext,
    h: Regex,
    bytes: Seq<u8>,
    present: spec_fn(Seq<u8>) -> bool,
)
    requires
        h matches Regex::Literal(lit) && lit@ == bytes,
        !ctx.fold,
        MIN_LEN <= bytes.len() <= PLAN_GRAM_BUDGET / 2,
        guaranteed_grams(table, bytes).len() <= PLAN_GRAM_BUDGET / 2,
        holds(planned(table, ctx, h), present),
    ensures
        grams_present(table, bytes, present),
{
    reveal(simplified);
    let g = Stage { table, ctx, flushed: 0, finalizing: false };
    let set = seq![bytes];
    lemma_one(bytes);
    let (x, g1) = analyzed(g, h);
    assert(x.exact == Some(set));
    assert(g1 == g);
    let f = Stage { finalizing: true, ..g };
    lemma_all_fit(table, bytes, flush_limit(f));
    let x1 = exact_cleaned(x);
    assert(exact_overflows(x1, true));
    law_few_strings_demand_all_their_grams(f, x.query, set, Order::Prefix, present);
    lemma_exact_added_narrows(f, x1, present);
    let (x2, g2) = exact_flushed(f, x1);
    assert(x2.query == and_set(f, x.query, set, Order::Prefix).0);
    lemma_set_simplified_narrows(g2, x2, Order::Prefix, true, present);
    let (x3, g3) = set_simplified(g2, x2, Order::Prefix, true);
    lemma_set_simplified_narrows(g3, x3, Order::Suffix, true, present);
    let (y, g4) = simplified(f, x, true);
    lemma_exact_added_narrows(g4, y, present);
    assert(holds(and_set(f, x.query, set, Order::Prefix).0, present));
    let s = choose|s: Seq<u8>| #[trigger] set.contains(s) && grams_present(table, s, present);
    assert(s == bytes);
}

/// The grams of one string fit where they are no more than the cap.
proof fn lemma_all_fit(t: WeightTable, s: Seq<u8>, cap: int)
    requires
        MIN_LEN <= s.len(),
        guaranteed_grams(t, s).len() <= cap,
        cap >= 1,
    ensures
        all_covers(t, seq![s], cap, true) is Some,
{
    let set = seq![s];
    let raw = guaranteed_grams(t, s);
    let grams = string_cover(t, s, true);
    lemma_cleaned(Order::Prefix, raw);
    lemma_set_size(grams, raw);
    lemma_cover_size(t, s);
    let g = string_cover(t, s, false)[0];
    assert(string_cover(t, s, false).contains(g));
    lemma_cleaned_contains(Order::Prefix, minimal_grams(t, s), g);
    law_cover_in_scan(t, s, g);
    law_guaranteed_are_the_grams(t, s, g);
    lemma_cleaned_contains(Order::Prefix, raw, g);
    let none = Seq::<Seq<Seq<u8>>>::empty();
    assert(covers_upto(t, set, 0, cap, true) == Some(none));
    assert(none.push(grams).drop_last() =~= none);
    assert(total_grams(none) == 0);
    assert(none.push(grams).last() == grams);
    assert(total_grams(none.push(grams)) == grams.len());
}

} // verus!
