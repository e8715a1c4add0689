//! Flushing the covers of a set keeps the query true where a string of the
//! set occurs.

use vstd::prelude::*;

use crate::extract::cover::{
    guaranteed_grams, law_cover_in_scan, lemma_guaranteed_in_scan, minimal_grams,
};
use crate::extract::{is_gram, law_grams_survive, occurs_at};
use crate::query::algebra::{
    gram_node, holds, law_and_or_exact, lemma_push_contains, tree_wf, Op, Tree,
};
use crate::query::analyze::{flush_limit, grams_left, Stage, MAX_SET};
use crate::query::covers::{
    all_covers, and_set, covers_upto, edge_of, fit, lemma_cut_shrinks, lemma_single, ored, single,
    single_covers, singles_upto, string_cover, with_covers, with_grams, with_set, with_truncated,
};
use crate::query::order::{cleaned, lemma_cleaned, Order};
use crate::query::soundness::{
    lemma_cleaned_contains, lemma_cut_contains, lemma_cut_extends, lemma_edge_occurs, occurs_in,
    present, some_occurs,
};
use crate::query::strings::{cut, cut_all, max_len};
use crate::table::WeightTable;

verus! {

/// A gram of an occurring string is a gram of the text.
proof fn lemma_gram_survives(t: WeightTable, f: Seq<u8>, s: Seq<u8>, g: Seq<u8>)
    requires
        occurs_in(s, f),
        exists|p: int, e: int| is_gram(t, s, p, e) && g == #[trigger] s.subrange(p, e),
    ensures
        present(t, f)(g),
{
    let at = choose|at: int| occurs_at(s, f, at);
    let (p, e) = choose|p: int, e: int| is_gram(t, s, p, e) && g == #[trigger] s.subrange(p, e);
    law_grams_survive(t, s, f, at, p, e);
}

/// The cover of an occurring string is present.
proof fn lemma_string_cover(t: WeightTable, f: Seq<u8>, s: Seq<u8>, maximal: bool)
    requires
        occurs_in(s, f),
    ensures
        holds(gram_node(Op::And, string_cover(t, s, maximal)), present(t, f)),
{
    let raw = if maximal {
        guaranteed_grams(t, s)
    } else {
        minimal_grams(t, s)
    };
    let q = gram_node(Op::And, string_cover(t, s, maximal));
    assert forall|g: Seq<u8>| #[trigger] q.grams.contains(g) implies present(t, f)(g) by {
        lemma_cleaned_contains(Order::Prefix, raw, g);
        if maximal {
            lemma_guaranteed_in_scan(t, s, g);
        } else {
            law_cover_in_scan(t, s, g);
        }
        lemma_gram_survives(t, f, s, g);
    }
}

proof fn lemma_gram_node_wf(op: Op, grams: Seq<Seq<u8>>)
    requires
        op == Op::And || op == Op::Or,
    ensures
        tree_wf(gram_node(op, cleaned(Order::Prefix, grams))),
{
    lemma_cleaned(Order::Prefix, grams);
}

/// The OR over covers is well formed, and true where a covered string occurs.
proof fn lemma_ored(
    t: WeightTable,
    f: Seq<u8>,
    set: Seq<Seq<u8>>,
    n: int,
    cap: int,
    maximal: bool,
)
    requires
        0 <= n <= set.len(),
        covers_upto(t, set, n, cap, maximal) is Some,
    ensures
        ({
            let covers = covers_upto(t, set, n, cap, maximal)->0;
            &&& tree_wf(ored(covers))
            &&& (exists|i: int| 0 <= i < n && occurs_in(#[trigger] set[i], f)) ==> holds(
                ored(covers),
                present(t, f),
            )
        }),
    decreases n,
{
    if n > 0 {
        lemma_ored(t, f, set, n - 1, cap, maximal);
        let head = covers_upto(t, set, n - 1, cap, maximal)->0;
        let grams = string_cover(t, set[n - 1], maximal);
        let covers = covers_upto(t, set, n, cap, maximal)->0;
        assert(covers == head.push(grams));
        assert(covers.drop_last() =~= head);
        let node = gram_node(Op::And, grams);
        lemma_gram_node_wf(
            Op::And,
            if maximal {
                guaranteed_grams(t, set[n - 1])
            } else {
                minimal_grams(t, set[n - 1])
            },
        );
        law_and_or_exact(ored(head), node, Op::Or, present(t, f));
        if exists|i: int| 0 <= i < n && occurs_in(#[trigger] set[i], f) {
            let i = choose|i: int| 0 <= i < n && occurs_in(#[trigger] set[i], f);
            if i == n - 1 {
                lemma_string_cover(t, f, set[n - 1], maximal);
            } else {
                assert(0 <= i < n - 1 && occurs_in(set[i], f));
            }
        }
    }
}

proof fn lemma_some_index(set: Seq<Seq<u8>>, f: Seq<u8>)
    requires
        some_occurs(set, f),
    ensures
        exists|i: int| 0 <= i < set.len() && occurs_in(#[trigger] set[i], f),
{
    let s = choose|s: Seq<u8>| #[trigger] set.contains(s) && occurs_in(s, f);
    let i = choose|i: int| 0 <= i < set.len() && set[i] == s;
    assert(occurs_in(set[i], f));
}

proof fn lemma_with_covers(
    g: Stage,
    f: Seq<u8>,
    q: Tree,
    set: Seq<Seq<u8>>,
    cap: int,
    maximal: bool,
)
    requires
        tree_wf(q),
        all_covers(g.table, set, cap, maximal) is Some,
    ensures
        ({
            let r = with_covers(g, q, all_covers(g.table, set, cap, maximal)->0).0;
            tree_wf(r) && (holds(q, present(g.table, f)) && some_occurs(set, f) ==> holds(
                r,
                present(g.table, f),
            ))
        }),
{
    let t = g.table;
    let covers = all_covers(t, set, cap, maximal)->0;
    lemma_ored(t, f, set, set.len() as int, cap, maximal);
    law_and_or_exact(q, ored(covers), Op::And, present(t, f));
    if some_occurs(set, f) {
        lemma_some_index(set, f);
    }
}

/// The strongest gram of an occurring string is present.
proof fn lemma_singles(t: WeightTable, f: Seq<u8>, set: Seq<Seq<u8>>, n: int)
    requires
        0 <= n <= set.len(),
        singles_upto(t, set, n) is Some,
    ensures
        (exists|i: int| 0 <= i < n && occurs_in(#[trigger] set[i], f)) ==> exists|g: Seq<u8>|
            #[trigger] singles_upto(t, set, n)->0.contains(g) && present(t, f)(g),
    decreases n,
{
    if n > 0 {
        lemma_singles(t, f, set, n - 1);
        let head = singles_upto(t, set, n - 1)->0;
        let g = single(t, set[n - 1])->0;
        let all = singles_upto(t, set, n)->0;
        assert(all == head.push(g));
        if exists|i: int| 0 <= i < n && occurs_in(#[trigger] set[i], f) {
            let i = choose|i: int| 0 <= i < n && occurs_in(#[trigger] set[i], f);
            if i == n - 1 {
                lemma_single(t, set[i]);
                lemma_guaranteed_in_scan(t, set[i], g);
                lemma_gram_survives(t, f, set[i], g);
                lemma_push_contains(head, g, g);
                assert(all.contains(g) && present(t, f)(g));
            } else {
                assert(0 <= i < n - 1 && occurs_in(set[i], f));
                let h = choose|h: Seq<u8>| #[trigger] head.contains(h) && present(t, f)(h);
                lemma_push_contains(head, g, h);
                assert(all.contains(h) && present(t, f)(h));
            }
        }
    }
}

/// One gram per string keeps the query true where a string occurs.
pub proof fn lemma_with_grams(g: Stage, f: Seq<u8>, q: Tree, set: Seq<Seq<u8>>, t: WeightTable, cap: int)
    requires
        tree_wf(q),
        single_covers(t, set, cap) is Some,
    ensures
        ({
            let r = with_grams(g, q, single_covers(t, set, cap)->0).0;
            tree_wf(r) && (holds(q, present(t, f)) && some_occurs(set, f) ==> holds(
                r,
                present(t, f),
            ))
        }),
{
    let raw = singles_upto(t, set, set.len() as int)->0;
    let grams = cleaned(Order::Prefix, raw);
    let node = gram_node(Op::Or, grams);
    lemma_gram_node_wf(Op::Or, raw);
    law_and_or_exact(q, node, Op::And, present(t, f));
    if some_occurs(set, f) {
        lemma_some_index(set, f);
        lemma_singles(t, f, set, set.len() as int);
        let h = choose|h: Seq<u8>| #[trigger] raw.contains(h) && present(t, f)(h);
        lemma_cleaned_contains(Order::Prefix, raw, h);
        assert(node.grams.contains(h) && present(t, f)(h));
    }
}

/// A shortened set still has an occurring string.
pub proof fn lemma_cut_occurs(order: Order, set: Seq<Seq<u8>>, keep: int, f: Seq<u8>)
    requires
        keep >= 0,
        some_occurs(set, f),
    ensures
        some_occurs(cleaned(order, cut_all(order, set, keep)), f),
{
    let s = choose|s: Seq<u8>| #[trigger] set.contains(s) && occurs_in(s, f);
    let c = cut(order, s, keep);
    lemma_cut_contains(order, set, keep, s);
    lemma_cleaned_contains(order, cut_all(order, set, keep), c);
    lemma_cut_extends(order, s, keep);
    lemma_edge_occurs(order, c, s, f);
    assert(cleaned(order, cut_all(order, set, keep)).contains(c) && occurs_in(c, f));
}

proof fn lemma_with_truncated(
    g: Stage,
    f: Seq<u8>,
    q: Tree,
    set: Seq<Seq<u8>>,
    order: Order,
    cap: int,
)
    requires
        tree_wf(q),
    ensures
        ({
            let r = with_truncated(g, q, set, order, cap).0;
            tree_wf(r) && (holds(q, present(g.table, f)) && some_occurs(set, f) ==> holds(
                r,
                present(g.table, f),
            ))
        }),
    decreases max_len(set),
{
    let m = max_len(set);
    if m > 3 {
        let next = cleaned(order, cut_all(order, set, m - 1));
        lemma_cut_shrinks(order, set, m - 1);
        if some_occurs(set, f) {
            lemma_cut_occurs(order, set, m - 1, f);
        }
        if all_covers(g.table, next, cap, false) is Some {
            lemma_with_covers(g, f, q, next, cap, false);
        }
        lemma_with_truncated(g, f, q, next, order, cap);
    }
}

proof fn lemma_edge_of_occurs(set: Seq<Seq<u8>>, order: Order, f: Seq<u8>)
    requires
        some_occurs(set, f),
        edge_of(set, order) is Some,
    ensures
        some_occurs(edge_of(set, order)->0, f),
{
    let edge = cleaned(order, set);
    let s = choose|s: Seq<u8>| #[trigger] set.contains(s) && occurs_in(s, f);
    lemma_cleaned_contains(order, set, s);
    assert(edge.contains(s) && occurs_in(s, f));
    let keep = fit(order, edge, max_len(edge) - 1, MAX_SET as int)->0;
    lemma_cut_occurs(order, edge, keep, f);
}

proof fn lemma_with_set(
    g: Stage,
    f: Seq<u8>,
    q: Tree,
    set: Seq<Seq<u8>>,
    order: Order,
    windows: bool,
)
    requires
        tree_wf(q),
    ensures
        ({
            let r = with_set(g, q, set, order, windows).0;
            tree_wf(r) && (holds(q, present(g.table, f)) && some_occurs(set, f) ==> holds(
                r,
                present(g.table, f),
            ))
        }),
    decreases (if windows { 1int } else { 0int }),
{
    let cap = flush_limit(g);
    let t = g.table;
    if all_covers(t, set, cap, true) is Some {
        lemma_with_covers(g, f, q, set, cap, true);
    }
    if all_covers(t, set, cap, false) is Some {
        lemma_with_covers(g, f, q, set, cap, false);
    } else if single_covers(t, set, grams_left(g)) is Some {
        if windows && set.len() > MAX_SET {
            if let Some(heads) = edge_of(set, Order::Prefix) {
                lemma_with_set(g, f, q, heads, Order::Prefix, false);
                crate::query::analyze::stages::kept_with_set(g, q, heads, Order::Prefix, false);
                if some_occurs(set, f) {
                    lemma_edge_of_occurs(set, Order::Prefix, f);
                }
            }
            let (q0, g0) = match edge_of(set, Order::Prefix) {
                Some(heads) => with_set(g, q, heads, Order::Prefix, false),
                None => (q, g),
            };
            if let Some(tails) = edge_of(set, Order::Suffix) {
                lemma_with_set(g0, f, q0, tails, Order::Suffix, false);
                crate::query::analyze::stages::kept_with_set(g0, q0, tails, Order::Suffix, false);
                if some_occurs(set, f) {
                    lemma_edge_of_occurs(set, Order::Suffix, f);
                }
            }
            let (q1, g1) = match edge_of(set, Order::Suffix) {
                Some(tails) => with_set(g0, q0, tails, Order::Suffix, false),
                None => (q0, g0),
            };
            lemma_with_grams(g1, f, q1, set, t, grams_left(g));
        } else {
            lemma_with_grams(g, f, q, set, t, grams_left(g));
        }
    } else {
        lemma_with_truncated(g, f, q, set, order, cap);
    }
}

/// Flushing a set keeps the query well formed, and true where it was and a
/// string of the set occurs.
pub proof fn lemma_and_set(g: Stage, f: Seq<u8>, q: Tree, set: Seq<Seq<u8>>, order: Order)
    requires
        tree_wf(q),
    ensures
        ({
            let r = and_set(g, q, set, order).0;
            tree_wf(r) && (holds(q, present(g.table, f)) && some_occurs(set, f) ==> holds(
                r,
                present(g.table, f),
            ))
        }),
{
    reveal(and_set);
    lemma_with_set(g, f, q, set, order, true);
}

} // verus!
