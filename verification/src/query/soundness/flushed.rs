//! Bounding and flushing the sets of a summary keeps what it admits.

use vstd::prelude::*;

use crate::query::algebra::{holds, tree_wf, Tree};
use crate::query::analyze::{can_flush, grams_left, Stage, BOUNDARY_KEEP, MAX_SET};
use crate::query::analyze::stages::{kept_and_set, kept_exact_added, kept_set_simplified};
use crate::query::covers::{and_set, single_covers};
use crate::query::flush::{
    edge_set, exact_added, exact_cleaned, exact_flushed, exact_overflows, extends, flush_spilled,
    large_flushed, pruned, reduced, set_simplified, sets_flushed, shrunk, simplified, skeletal,
};
use crate::query::info::Info;
use crate::query::order::{cleaned, Order};
use crate::query::soundness::gathered::{lemma_and_set, lemma_with_grams};
use crate::query::soundness::{
    admits, has_edge, lemma_cleaned_contains, lemma_cut_contains, lemma_cut_extends,
    lemma_edge_occurs, lemma_extends_trans, lemma_span_occurs, occurs_in, present, settled,
    some_occurs,
};
use crate::query::strings::{cut, cut_all, max_len};

verus! {

pub proof fn lemma_edge_cleaned(order: Order, by: Order, set: Seq<Seq<u8>>, s: Seq<u8>)
    requires
        has_edge(order, set, s),
    ensures
        has_edge(order, cleaned(by, set), s),
{
    let p = choose|p: Seq<u8>| #[trigger] set.contains(p) && extends(order, p, s);
    lemma_cleaned_contains(by, set, p);
    assert(cleaned(by, set).contains(p) && extends(order, p, s));
}

proof fn lemma_edge_cut(order: Order, set: Seq<Seq<u8>>, keep: int, s: Seq<u8>)
    requires
        keep >= 0,
        has_edge(order, set, s),
    ensures
        has_edge(order, cleaned(order, cut_all(order, set, keep)), s),
{
    let p = choose|p: Seq<u8>| #[trigger] set.contains(p) && extends(order, p, s);
    let c = cut(order, p, keep);
    lemma_cut_contains(order, set, keep, p);
    lemma_cut_extends(order, p, keep);
    lemma_extends_trans(order, c, p, s);
    assert(cut_all(order, set, keep).contains(c) && extends(order, c, s));
    lemma_edge_cleaned(order, order, cut_all(order, set, keep), s);
}

proof fn lemma_edge_shrunk(order: Order, set: Seq<Seq<u8>>, keep: int, target: int, s: Seq<u8>)
    requires
        keep >= 0,
        has_edge(order, set, s),
    ensures
        has_edge(order, shrunk(order, set, keep, target), s),
    decreases keep,
{
    lemma_edge_cut(order, set, keep, s);
    let c = cleaned(order, cut_all(order, set, keep));
    if !(c.len() <= target || keep <= 1) {
        lemma_edge_shrunk(order, c, keep - 1, target, s);
    }
}

proof fn lemma_edge_pruned(order: Order, t: Seq<Seq<u8>>, s: Seq<u8>)
    requires
        has_edge(order, t, s),
    ensures
        has_edge(order, pruned(order, t), s),
    decreases t.len(),
{
    let p = choose|p: Seq<u8>| #[trigger] t.contains(p) && extends(order, p, s);
    let n = choose|n: int| 0 <= n < t.len() && t[n] == p;
    let head = t.drop_last();
    let kept = pruned(order, head);
    let all = pruned(order, t);
    if n == t.len() - 1 {
        if kept.len() > 0 && extends(order, kept.last(), t.last()) {
            lemma_extends_trans(order, kept.last(), p, s);
            assert(all.contains(kept.last()));
        } else {
            assert(all[kept.len() as int] == p);
            assert(all.contains(p));
        }
    } else {
        assert(head[n] == p);
        assert(head.contains(p) && extends(order, p, s));
        lemma_edge_pruned(order, head, s);
        let q = choose|q: Seq<u8>| #[trigger] kept.contains(q) && extends(order, q, s);
        let m = choose|m: int| 0 <= m < kept.len() && kept[m] == q;
        assert(all[m] == q);
        assert(all.contains(q));
    }
}

proof fn lemma_edge_reduced(order: Order, t: Seq<Seq<u8>>, s: Seq<u8>)
    requires
        has_edge(order, t, s),
    ensures
        has_edge(order, pruned(order, reduced(order, t)), s),
        has_edge(order, skeletal(order, t), s),
{
    let small = crate::query::flush::least(BOUNDARY_KEEP as int, max_len(t) as int);
    let target = if t.len() > MAX_SET {
        crate::query::flush::REGROW_TARGET as int
    } else {
        MAX_SET as int
    };
    lemma_edge_shrunk(order, t, small, target, s);
    lemma_edge_pruned(order, reduced(order, t), s);
    lemma_edge_shrunk(
        order,
        t,
        crate::query::flush::least(crate::query::flush::SKELETAL_KEEP as int, max_len(t) as int),
        crate::query::flush::SKELETAL_COUNT as int,
        s,
    );
}

pub proof fn lemma_edge_some_occurs(order: Order, set: Seq<Seq<u8>>, s: Seq<u8>, f: Seq<u8>)
    requires
        has_edge(order, set, s),
        occurs_in(s, f),
    ensures
        some_occurs(set, f),
{
    let p = choose|p: Seq<u8>| #[trigger] set.contains(p) && extends(order, p, s);
    lemma_edge_occurs(order, p, s, f);
    assert(set.contains(p) && occurs_in(p, f));
}

/// Adding the exact set's covers keeps what the summary admits.
pub proof fn lemma_exact_added(g: Stage, f: Seq<u8>, x: Info, a: int, b: int)
    requires
        tree_wf(x.query),
    ensures
        tree_wf(exact_added(g, x).0.query),
        exact_added(g, x).0 == (Info { query: exact_added(g, x).0.query, ..x }),
        admits(x, g.table, f, a, b) ==> admits(exact_added(g, x).0, g.table, f, a, b),
{
    if let Some(exact) = x.exact {
        lemma_and_set(g, f, x.query, exact, Order::Prefix);
        if admits(x, g.table, f, a, b) {
            lemma_span_occurs(f, a, b);
            assert(exact.contains(f.subrange(a, b)) && occurs_in(f.subrange(a, b), f));
        }
    }
}

proof fn lemma_append_contains(a: Seq<Seq<u8>>, b: Seq<Seq<u8>>, x: Seq<u8>)
    ensures
        (a + b).contains(x) <==> a.contains(x) || b.contains(x),
{
    let c = a + b;
    if c.contains(x) {
        let n = choose|n: int| 0 <= n < c.len() && c[n] == x;
        if n < a.len() {
            assert(a[n] == x);
        } else {
            assert(b[n - a.len()] == x);
        }
    }
    if a.contains(x) {
        let n = choose|n: int| 0 <= n < a.len() && a[n] == x;
        assert(c[n] == x);
    }
    if b.contains(x) {
        let n = choose|n: int| 0 <= n < b.len() && b[n] == x;
        assert(c[a.len() + n] == x);
    }
}

/// Spilling an exact set into stubs keeps what the summary admits.
proof fn lemma_exact_flushed(g: Stage, f: Seq<u8>, x: Info, a: int, b: int)
    requires
        settled(x),
    ensures
        settled(exact_flushed(g, x).0),
        exact_flushed(g, x).0.exact is None,
        admits(x, g.table, f, a, b) ==> admits(exact_flushed(g, x).0, g.table, f, a, b),
{
    lemma_exact_added(g, f, x, a, b);
    let y = exact_added(g, x).0;
    if let Some(exact) = x.exact {
        if admits(x, g.table, f, a, b) && a < b {
            let s = f.subrange(a, b);
            let heads = cut_all(Order::Prefix, exact, BOUNDARY_KEEP as int);
            let tails = cut_all(Order::Suffix, exact, BOUNDARY_KEEP as int);
            lemma_cut_contains(Order::Prefix, exact, BOUNDARY_KEEP as int, s);
            lemma_cut_contains(Order::Suffix, exact, BOUNDARY_KEEP as int, s);
            let h = cut(Order::Prefix, s, BOUNDARY_KEEP as int);
            let l = cut(Order::Suffix, s, BOUNDARY_KEEP as int);
            lemma_cut_extends(Order::Prefix, s, BOUNDARY_KEEP as int);
            lemma_cut_extends(Order::Suffix, s, BOUNDARY_KEEP as int);
            lemma_append_contains(x.prefix, heads, h);
            lemma_append_contains(x.suffix, tails, l);
            assert((x.prefix + heads).contains(h) && extends(Order::Prefix, h, s));
            assert((x.suffix + tails).contains(l) && extends(Order::Suffix, l, s));
        }
    }
}

/// Flushing an oversized set keeps the query true.
proof fn lemma_large_flushed(
    g: Stage,
    f: Seq<u8>,
    q: Tree,
    can_empty: bool,
    t: Seq<Seq<u8>>,
    order: Order,
    s: Seq<u8>,
)
    requires
        tree_wf(q),
    ensures
        ({
            let ((q1, g1), t1, flushed) = large_flushed(g, q, can_empty, t, order);
            &&& tree_wf(q1)
            &&& g1.table == g.table
            &&& can_empty ==> q1 == q
            &&& has_edge(order, t, s) ==> has_edge(order, t1, s)
            &&& holds(q, present(g.table, f)) && (!can_empty ==> some_occurs(t, f)) ==> holds(
                q1,
                present(g.table, f),
            )
        }),
{
    if has_edge(order, t, s) {
        lemma_edge_reduced(order, t, s);
    }
    if single_covers(g.table, t, grams_left(g)) is Some {
        lemma_with_grams(g, f, q, t, g.table, grams_left(g));
    }
}

/// Bounding one edge set keeps what the summary admits.
proof fn lemma_set_simplified(
    g: Stage,
    f: Seq<u8>,
    x: Info,
    order: Order,
    force: bool,
    a: int,
    b: int,
)
    requires
        settled(x),
        x.exact is None,
    ensures
        settled(set_simplified(g, x, order, force).0),
        set_simplified(g, x, order, force).0.exact is None,
        admits(x, g.table, f, a, b) ==> admits(
            set_simplified(g, x, order, force).0,
            g.table,
            f,
            a,
            b,
        ),
{
    let s = f.subrange(a, b);
    let t = cleaned(order, edge_set(x, order));
    let good = admits(x, g.table, f, a, b);
    if good && a < b {
        lemma_span_occurs(f, a, b);
        lemma_edge_cleaned(order, order, edge_set(x, order), s);
        lemma_edge_some_occurs(order, t, s, f);
    }
    if !can_flush(g) {
        if good && a < b {
            lemma_edge_reduced(order, t, s);
        }
    } else {
        let ((q1, g1), t1, flushed) = large_flushed(g, x.query, x.can_empty, t, order);
        lemma_large_flushed(g, f, x.query, x.can_empty, t, order, s);
        lemma_and_set(g1, f, q1, t1, order);
        if good && a < b {
            lemma_edge_some_occurs(order, t1, s, f);
            lemma_edge_reduced(order, t1, s);
        }
    }
}

/// Bounding a summary keeps what it admits.
pub proof fn lemma_simplified(g: Stage, f: Seq<u8>, x: Info, force: bool, a: int, b: int)
    requires
        settled(x),
    ensures
        settled(simplified(g, x, force).0),
        admits(x, g.table, f, a, b) ==> admits(simplified(g, x, force).0, g.table, f, a, b),
{
    reveal(simplified);
    let x1 = exact_cleaned(x);
    if let Some(exact) = x.exact {
        lemma_cleaned_contains(Order::Prefix, exact, f.subrange(a, b));
    }
    assert(settled(x1));
    assert(admits(x, g.table, f, a, b) ==> admits(x1, g.table, f, a, b));
    lemma_exact_flushed(g, f, x1, a, b);
    kept_exact_added(g, x1);
    let (x2, g2) = if exact_overflows(x1, force) {
        exact_flushed(g, x1)
    } else {
        (x1, g)
    };
    if x2.exact is None {
        lemma_set_simplified(g2, f, x2, Order::Prefix, force, a, b);
        kept_set_simplified(g2, x2, Order::Prefix, force);
        let (x3, g3) = set_simplified(g2, x2, Order::Prefix, force);
        lemma_set_simplified(g3, f, x3, Order::Suffix, force, a, b);
    }
}

/// Flushing the edge sets keeps what the summary admits.
pub proof fn lemma_sets_flushed(g: Stage, f: Seq<u8>, x: Info, a: int, b: int)
    requires
        settled(x),
    ensures
        settled(sets_flushed(g, x).0),
        admits(x, g.table, f, a, b) ==> admits(sets_flushed(g, x).0, g.table, f, a, b),
{
    reveal(sets_flushed);
    let s = f.subrange(a, b);
    lemma_and_set(g, f, x.query, x.prefix, Order::Prefix);
    kept_and_set(g, x.query, x.prefix, Order::Prefix);
    let (q1, g1) = and_set(g, x.query, x.prefix, Order::Prefix);
    lemma_and_set(g1, f, q1, x.suffix, Order::Suffix);
    if admits(x, g.table, f, a, b) && a < b && x.exact is None {
        lemma_span_occurs(f, a, b);
        lemma_edge_some_occurs(Order::Prefix, x.prefix, s, f);
        lemma_edge_some_occurs(Order::Suffix, x.suffix, s, f);
    }
}

/// Covering and spilling an exact set keeps what the summary admits.
pub proof fn lemma_flush_spilled(g: Stage, f: Seq<u8>, x: Info, a: int, b: int)
    requires
        settled(x),
    ensures
        settled(flush_spilled(g, x).0),
        admits(x, g.table, f, a, b) ==> admits(flush_spilled(g, x).0, g.table, f, a, b),
{
    reveal(flush_spilled);
    lemma_exact_flushed(g, f, x, a, b);
    kept_exact_added(g, x);
    let (y, g1) = exact_flushed(g, x);
    lemma_simplified(g1, f, y, false, a, b);
}

} // verus!
