//! Concatenation and alternation keep what their operands admit.

use vstd::prelude::*;

use crate::extract::occurs_at;
use crate::query::algebra::{combined, law_and_or_exact, leaf, Op};
use crate::query::analyze::stages::{kept_and_set, kept_crosses_bounded, kept_exact_added};
use crate::query::analyze::Stage;
use crate::query::combine::{
    alternated, bounded_side, concatenated, crosses_bounded, either_sets, heads, hinted_prefix,
    hinted_suffix, joint_prefix, joint_sets, joint_suffix, run_prefix, run_suffix, seam_of,
    seam_shrunk, side_shrunk, tails,
};
use crate::query::covers::{and_set, lemma_cut_shrinks};
use crate::query::flush::{exact_added, extends};
use crate::query::info::Info;
use crate::query::order::{cleaned, Order};
use crate::query::soundness::flushed::{
    lemma_edge_cleaned, lemma_exact_added, lemma_flush_spilled, lemma_simplified,
};
use crate::query::soundness::gathered::lemma_and_set;
use crate::query::soundness::{
    admits, has_edge, lemma_cleaned_contains, lemma_cut_contains, lemma_cut_extends,
    lemma_extends_self, lemma_extends_trans, occurs_in, present, settled, some_occurs,
};
use crate::query::strings::{crossed, cut, cut_all, lemma_pairs, max_len, pairs, united};
use crate::table::WeightTable;

verus! {

pub proof fn lemma_crossed_contains(
    a: Seq<Seq<u8>>,
    b: Seq<Seq<u8>>,
    order: Order,
    u: Seq<u8>,
    v: Seq<u8>,
)
    requires
        a.contains(u),
        b.contains(v),
    ensures
        crossed(a, b, order).contains(u + v),
{
    lemma_pairs(a, b);
    assert(pairs(a, b).contains(u + v));
    lemma_cleaned_contains(order, pairs(a, b), u + v);
}

pub proof fn lemma_united_contains(a: Seq<Seq<u8>>, b: Seq<Seq<u8>>, order: Order, x: Seq<u8>)
    ensures
        united(a, b, order).contains(x) <==> a.contains(x) || b.contains(x),
{
    lemma_cleaned_contains(order, a + b, x);
    let c = a + b;
    if c.contains(x) {
        let n = choose|n: int| 0 <= n < c.len() && c[n] == x;
        if n < a.len() {
            assert(a[n] == x);
        } else {
            assert(b[n - a.len()] == x);
        }
    }
    if a.contains(x) {
        let n = choose|n: int| 0 <= n < a.len() && a[n] == x;
        assert(c[n] == x);
    }
    if b.contains(x) {
        let n = choose|n: int| 0 <= n < b.len() && b[n] == x;
        assert(c[a.len() + n] == x);
    }
}

proof fn lemma_edge_united(
    order: Order,
    by: Order,
    a: Seq<Seq<u8>>,
    b: Seq<Seq<u8>>,
    s: Seq<u8>,
)
    requires
        has_edge(order, a, s) || has_edge(order, b, s),
    ensures
        has_edge(order, united(a, b, by), s),
{
    let p = if has_edge(order, a, s) {
        choose|p: Seq<u8>| #[trigger] a.contains(p) && extends(order, p, s)
    } else {
        choose|p: Seq<u8>| #[trigger] b.contains(p) && extends(order, p, s)
    };
    lemma_united_contains(a, b, by, p);
    assert(united(a, b, by).contains(p) && extends(order, p, s));
}

/// Edges of a concatenation.
proof fn lemma_extends_concat(u: Seq<u8>, v: Seq<u8>, p: Seq<u8>)
    ensures
        extends(Order::Prefix, p, u) ==> extends(Order::Prefix, p, u + v),
        extends(Order::Prefix, p, v) ==> extends(Order::Prefix, u + p, u + v),
        extends(Order::Suffix, p, v) ==> extends(Order::Suffix, p, u + v),
        extends(Order::Suffix, p, u) ==> extends(Order::Suffix, p + v, u + v),
{
    let w = u + v;
    if extends(Order::Prefix, p, u) {
        assert(p =~= w.subrange(0, p.len() as int));
    }
    if extends(Order::Prefix, p, v) {
        assert(u + p =~= w.subrange(0, (u + p).len() as int));
    }
    if extends(Order::Suffix, p, v) {
        assert(p =~= w.subrange(w.len() - p.len(), w.len() as int));
    }
    if extends(Order::Suffix, p, u) {
        assert(p + v =~= w.subrange(w.len() - (p + v).len(), w.len() as int));
    }
}

/// A member of the left set before an edge of the right part.
proof fn lemma_edge_crossed_prefix(
    a: Seq<Seq<u8>>,
    b: Seq<Seq<u8>>,
    by: Order,
    u: Seq<u8>,
    v: Seq<u8>,
)
    requires
        a.contains(u),
        has_edge(Order::Prefix, b, v),
    ensures
        has_edge(Order::Prefix, crossed(a, b, by), u + v),
{
    let p = choose|p: Seq<u8>| #[trigger] b.contains(p) && extends(Order::Prefix, p, v);
    lemma_crossed_contains(a, b, by, u, p);
    lemma_extends_concat(u, v, p);
    assert(crossed(a, b, by).contains(u + p) && extends(Order::Prefix, u + p, u + v));
}

/// An edge of the left part before a member of the right set.
proof fn lemma_edge_crossed_suffix(
    a: Seq<Seq<u8>>,
    b: Seq<Seq<u8>>,
    by: Order,
    u: Seq<u8>,
    v: Seq<u8>,
)
    requires
        has_edge(Order::Suffix, a, u),
        b.contains(v),
    ensures
        has_edge(Order::Suffix, crossed(a, b, by), u + v),
{
    let p = choose|p: Seq<u8>| #[trigger] a.contains(p) && extends(Order::Suffix, p, u);
    lemma_crossed_contains(a, b, by, p, v);
    lemma_extends_concat(u, v, p);
    assert(crossed(a, b, by).contains(p + v) && extends(Order::Suffix, p + v, u + v));
}

proof fn lemma_edge_left(a: Seq<Seq<u8>>, u: Seq<u8>, v: Seq<u8>)
    requires
        has_edge(Order::Prefix, a, u),
    ensures
        has_edge(Order::Prefix, a, u + v),
{
    let p = choose|p: Seq<u8>| #[trigger] a.contains(p) && extends(Order::Prefix, p, u);
    lemma_extends_concat(u, v, p);
    assert(a.contains(p) && extends(Order::Prefix, p, u + v));
}

proof fn lemma_edge_right(b: Seq<Seq<u8>>, u: Seq<u8>, v: Seq<u8>)
    requires
        has_edge(Order::Suffix, b, v),
    ensures
        has_edge(Order::Suffix, b, u + v),
{
    let p = choose|p: Seq<u8>| #[trigger] b.contains(p) && extends(Order::Suffix, p, v);
    lemma_extends_concat(u, v, p);
    assert(b.contains(p) && extends(Order::Suffix, p, u + v));
}

proof fn lemma_member_edge(order: Order, set: Seq<Seq<u8>>, s: Seq<u8>)
    requires
        set.contains(s),
    ensures
        has_edge(order, set, s),
{
    lemma_extends_self(order, s);
    assert(set.contains(s) && extends(order, s, s));
}

/// The starts and ends of an admitted span are those the summary lists.
pub proof fn lemma_heads_tails(x: Info, t: WeightTable, f: Seq<u8>, a: int, b: int)
    requires
        admits(x, t, f, a, b),
        a < b || x.exact is Some,
    ensures
        has_edge(Order::Prefix, heads(x), f.subrange(a, b)),
        has_edge(Order::Suffix, tails(x), f.subrange(a, b)),
{
    if let Some(exact) = x.exact {
        lemma_member_edge(Order::Prefix, exact, f.subrange(a, b));
        lemma_member_edge(Order::Suffix, exact, f.subrange(a, b));
    }
}

proof fn lemma_side_shrunk(order: Order, edge: Seq<Seq<u8>>, keep: int, s: Seq<u8>)
    requires
        has_edge(order, edge, s),
        side_shrunk(order, edge, keep) is Some,
    ensures
        has_edge(order, side_shrunk(order, edge, keep)->0, s),
    decreases keep,
{
    if keep >= 1 {
        lemma_edge_cut(order, edge, keep, s);
        let c = cleaned(order, cut_all(order, edge, keep));
        if c.len() > crate::query::analyze::MAX_SET {
            lemma_side_shrunk(order, c, keep - 1, s);
        }
    }
}

proof fn lemma_edge_cut(order: Order, set: Seq<Seq<u8>>, keep: int, s: Seq<u8>)
    requires
        keep >= 0,
        has_edge(order, set, s),
    ensures
        has_edge(order, cleaned(order, cut_all(order, set, keep)), s),
{
    let p = choose|p: Seq<u8>| #[trigger] set.contains(p) && extends(order, p, s);
    let c = cut(order, p, keep);
    lemma_cut_contains(order, set, keep, p);
    lemma_cut_extends(order, p, keep);
    lemma_extends_trans(order, c, p, s);
    assert(cut_all(order, set, keep).contains(c) && extends(order, c, s));
    lemma_edge_cleaned(order, order, cut_all(order, set, keep), s);
}

proof fn lemma_seam_shrunk(l: Seq<Seq<u8>>, r: Seq<Seq<u8>>, u: Seq<u8>, v: Seq<u8>)
    requires
        has_edge(Order::Suffix, l, u),
        has_edge(Order::Prefix, r, v),
        seam_shrunk(l, r) is Some,
    ensures
        ({
            let (l1, r1) = seam_shrunk(l, r)->0;
            has_edge(Order::Suffix, l1, u) && has_edge(Order::Prefix, r1, v)
        }),
    decreases max_len(l) + max_len(r),
{
    if l.len() * r.len() > crate::query::combine::MAX_SEAM_CROSS {
        if l.len() >= r.len() {
            if max_len(l) > 1 {
                lemma_cut_shrinks(Order::Suffix, l, max_len(l) - 1);
                lemma_edge_cut(Order::Suffix, l, max_len(l) - 1, u);
                lemma_seam_shrunk(
                    cleaned(Order::Suffix, cut_all(Order::Suffix, l, max_len(l) - 1)),
                    r,
                    u,
                    v,
                );
            }
        } else {
            if max_len(r) > 1 {
                lemma_cut_shrinks(Order::Prefix, r, max_len(r) - 1);
                lemma_edge_cut(Order::Prefix, r, max_len(r) - 1, v);
                lemma_seam_shrunk(
                    l,
                    cleaned(Order::Prefix, cut_all(Order::Prefix, r, max_len(r) - 1)),
                    u,
                    v,
                );
            }
        }
    }
}

/// A string straddling the seam occurs in the text.
proof fn lemma_seam(x: Info, y: Info, t: WeightTable, f: Seq<u8>, a: int, m: int, b: int)
    requires
        admits(x, t, f, a, m),
        admits(y, t, f, m, b),
        seam_of(x, y) is Some,
    ensures
        some_occurs(seam_of(x, y)->0, f),
{
    let u = f.subrange(a, m);
    let v = f.subrange(m, b);
    let l0 = bounded_side(x.suffix, Order::Suffix)->0;
    let r0 = bounded_side(y.prefix, Order::Prefix)->0;
    if x.suffix.len() > crate::query::analyze::MAX_SET {
        lemma_side_shrunk(Order::Suffix, x.suffix, max_len(x.suffix) - 1, u);
    }
    if y.prefix.len() > crate::query::analyze::MAX_SET {
        lemma_side_shrunk(Order::Prefix, y.prefix, max_len(y.prefix) - 1, v);
    }
    lemma_seam_shrunk(l0, r0, u, v);
    let (l, r) = seam_shrunk(l0, r0)->0;
    let p = choose|p: Seq<u8>| #[trigger] l.contains(p) && extends(Order::Suffix, p, u);
    let q = choose|q: Seq<u8>| #[trigger] r.contains(q) && extends(Order::Prefix, q, v);
    lemma_crossed_contains(l, r, Order::Prefix, p, q);
    assert(p + q =~= f.subrange(m - p.len(), m + q.len())) by {
        assert(p =~= f.subrange(m - p.len(), m));
        assert(q =~= f.subrange(m, m + q.len()));
    }
    assert(occurs_at(p + q, f, m - p.len()));
    assert(crossed(l, r, Order::Prefix).contains(p + q) && occurs_in(p + q, f));
}

/// The prefixes of a concatenation without a run on its left.
proof fn lemma_joint_prefix(x: Info, y: Info, t: WeightTable, f: Seq<u8>, a: int, m: int, b: int)
    requires
        admits(x, t, f, a, m),
        admits(y, t, f, m, b),
        a < b,
    ensures
        has_edge(Order::Prefix, joint_prefix(x, y), f.subrange(a, m) + f.subrange(m, b)),
{
    let u = f.subrange(a, m);
    let v = f.subrange(m, b);
    match x.exact {
        Some(xe) => {
            let both = crossed(xe, heads(y), Order::Prefix);
            if m < b || y.exact is Some {
                lemma_heads_tails(y, t, f, m, b);
                lemma_edge_crossed_prefix(xe, heads(y), Order::Prefix, u, v);
                if y.can_empty {
                    lemma_edge_united(Order::Prefix, Order::Prefix, both, xe, u + v);
                }
            } else {
                lemma_member_edge(Order::Prefix, xe, u);
                lemma_edge_left(xe, u, v);
                lemma_edge_united(Order::Prefix, Order::Prefix, both, xe, u + v);
            }
        },
        None => {
            if a < m {
                lemma_edge_left(x.prefix, u, v);
                if x.can_empty {
                    lemma_edge_united(Order::Prefix, Order::Prefix, x.prefix, heads(y), u + v);
                }
            } else {
                lemma_heads_tails(y, t, f, m, b);
                assert(u + v =~= v);
                lemma_edge_united(Order::Prefix, Order::Prefix, x.prefix, heads(y), u + v);
            }
        },
    }
}

/// The suffixes of a concatenation without a run on its right.
proof fn lemma_joint_suffix(x: Info, y: Info, t: WeightTable, f: Seq<u8>, a: int, m: int, b: int)
    requires
        admits(x, t, f, a, m),
        admits(y, t, f, m, b),
        a < b,
    ensures
        has_edge(Order::Suffix, joint_suffix(x, y), f.subrange(a, m) + f.subrange(m, b)),
{
    let u = f.subrange(a, m);
    let v = f.subrange(m, b);
    match y.exact {
        Some(ye) => {
            let both = crossed(tails(x), ye, Order::Suffix);
            if a < m || x.exact is Some {
                lemma_heads_tails(x, t, f, a, m);
                lemma_edge_crossed_suffix(tails(x), ye, Order::Suffix, u, v);
                if x.can_empty {
                    lemma_edge_united(Order::Suffix, Order::Suffix, both, ye, u + v);
                }
            } else {
                lemma_member_edge(Order::Suffix, ye, v);
                lemma_edge_right(ye, u, v);
                lemma_edge_united(Order::Suffix, Order::Suffix, both, ye, u + v);
            }
        },
        None => {
            if m < b {
                lemma_edge_right(y.suffix, u, v);
                if y.can_empty {
                    lemma_edge_united(Order::Suffix, Order::Suffix, y.suffix, tails(x), u + v);
                }
            } else {
                lemma_heads_tails(x, t, f, a, m);
                assert(u + v =~= u);
                lemma_edge_united(Order::Suffix, Order::Suffix, y.suffix, tails(x), u + v);
            }
        },
    }
}

/// The prefixes of a run followed by something.
proof fn lemma_hinted_prefix(
    x: Info,
    y: Info,
    e: Seq<Seq<u8>>,
    t: WeightTable,
    f: Seq<u8>,
    a: int,
    m: int,
    b: int,
)
    requires
        admits(x, t, f, a, m),
        admits(y, t, f, m, b),
        x.plus_base == Some(e),
        a < b,
    ensures
        has_edge(Order::Prefix, hinted_prefix(x, y, e), f.subrange(a, m) + f.subrange(m, b)),
{
    let u = f.subrange(a, m);
    let v = f.subrange(m, b);
    let p = heads(y);
    let run = run_prefix(y, e);
    let more = united(e, p, Order::Prefix);
    let two = crossed(e, more, Order::Prefix);
    if a == m {
        assert(u + v =~= v);
        lemma_heads_tails(y, t, f, m, b);
        lemma_edge_united(Order::Prefix, Order::Prefix, run, p, u + v);
    } else {
        if e.contains(u) {
            if p.len() == 0 {
                lemma_member_edge(Order::Prefix, e, u);
                lemma_edge_left(e, u, v);
            } else if m < b || y.exact is Some {
                lemma_heads_tails(y, t, f, m, b);
                lemma_edge_united(Order::Prefix, Order::Prefix, e, p, v);
                lemma_edge_crossed_prefix(e, more, Order::Prefix, u, v);
                if y.exact is None && y.can_empty {
                    lemma_edge_united(Order::Prefix, Order::Prefix, two, e, u + v);
                }
            } else {
                lemma_member_edge(Order::Prefix, e, u);
                lemma_edge_left(e, u, v);
                lemma_edge_united(Order::Prefix, Order::Prefix, two, e, u + v);
            }
        } else {
            let (i, j) = choose|i: Seq<u8>, j: Seq<u8>| #[trigger]
                e.contains(i) && #[trigger] e.contains(j) && extends(Order::Prefix, i + j, u);
            lemma_extends_concat(u, v, i + j);
            if p.len() == 0 {
                lemma_extends_self(Order::Prefix, i);
                lemma_extends_concat(i, j, i);
                lemma_extends_trans(Order::Prefix, i, i + j, u + v);
                assert(e.contains(i) && extends(Order::Prefix, i, u + v));
            } else {
                lemma_united_contains(e, p, Order::Prefix, j);
                lemma_crossed_contains(e, more, Order::Prefix, i, j);
                assert(two.contains(i + j) && extends(Order::Prefix, i + j, u + v));
                if y.exact is None && y.can_empty {
                    lemma_edge_united(Order::Prefix, Order::Prefix, two, e, u + v);
                }
            }
        }
        if x.can_empty {
            lemma_edge_united(Order::Prefix, Order::Prefix, run, p, u + v);
        }
    }
}

/// The suffixes of something followed by a run.
proof fn lemma_hinted_suffix(
    x: Info,
    y: Info,
    e: Seq<Seq<u8>>,
    t: WeightTable,
    f: Seq<u8>,
    a: int,
    m: int,
    b: int,
)
    requires
        admits(x, t, f, a, m),
        admits(y, t, f, m, b),
        y.plus_base == Some(e),
        a < b,
    ensures
        has_edge(Order::Suffix, hinted_suffix(x, y, e), f.subrange(a, m) + f.subrange(m, b)),
{
    let u = f.subrange(a, m);
    let v = f.subrange(m, b);
    let s = tails(x);
    let run = run_suffix(x, e);
    let more = united(s, e, Order::Suffix);
    let two = crossed(more, e, Order::Suffix);
    if m == b {
        assert(u + v =~= u);
        lemma_heads_tails(x, t, f, a, m);
        lemma_edge_united(Order::Suffix, Order::Suffix, run, s, u + v);
    } else {
        if e.contains(v) {
            if s.len() == 0 {
                lemma_member_edge(Order::Suffix, e, v);
                lemma_edge_right(e, u, v);
            } else if a < m || x.exact is Some {
                lemma_heads_tails(x, t, f, a, m);
                lemma_edge_united(Order::Suffix, Order::Suffix, s, e, u);
                lemma_edge_crossed_suffix(more, e, Order::Suffix, u, v);
                if x.exact is None && x.can_empty {
                    lemma_edge_united(Order::Suffix, Order::Suffix, two, e, u + v);
                }
            } else {
                lemma_member_edge(Order::Suffix, e, v);
                lemma_edge_right(e, u, v);
                lemma_edge_united(Order::Suffix, Order::Suffix, two, e, u + v);
            }
        } else {
            let (i, j) = choose|i: Seq<u8>, j: Seq<u8>| #[trigger]
                e.contains(i) && #[trigger] e.contains(j) && extends(Order::Suffix, i + j, v);
            lemma_extends_concat(u, v, i + j);
            if s.len() == 0 {
                lemma_extends_self(Order::Suffix, j);
                lemma_extends_concat(i, j, j);
                lemma_extends_trans(Order::Suffix, j, i + j, u + v);
                assert(e.contains(j) && extends(Order::Suffix, j, u + v));
            } else {
                lemma_united_contains(s, e, Order::Suffix, i);
                lemma_crossed_contains(more, e, Order::Suffix, i, j);
                assert(two.contains(i + j) && extends(Order::Suffix, i + j, u + v));
                if x.exact is None && x.can_empty {
                    lemma_edge_united(Order::Suffix, Order::Suffix, two, e, u + v);
                }
            }
        }
        if y.can_empty {
            lemma_edge_united(Order::Suffix, Order::Suffix, run, s, u + v);
        }
    }
}

/// The sets of a concatenation list its starts and ends.
proof fn lemma_joint_sets(
    x: Info,
    y: Info,
    t: WeightTable,
    f: Seq<u8>,
    a: int,
    m: int,
    b: int,
)
    requires
        admits(x, t, f, a, m),
        admits(y, t, f, m, b),
    ensures
        ({
            let z = joint_sets(x, y);
            let s = f.subrange(a, b);
            &&& a == b ==> z.can_empty
            &&& z.exact matches Some(exact) ==> exact.contains(s)
            &&& z.exact is None && a < b ==> has_edge(Order::Prefix, z.prefix, s) && has_edge(
                Order::Suffix,
                z.suffix,
                s,
            )
            &&& z.plus_base is None
        }),
{
    let u = f.subrange(a, m);
    let v = f.subrange(m, b);
    assert(u + v =~= f.subrange(a, b));
    match (x.exact, y.exact) {
        (Some(xe), Some(ye)) => {
            lemma_crossed_contains(xe, ye, Order::Prefix, u, v);
        },
        _ => {
            if a < b {
                match x.plus_base {
                    Some(e) => lemma_hinted_prefix(x, y, e, t, f, a, m, b),
                    None => lemma_joint_prefix(x, y, t, f, a, m, b),
                }
                match y.plus_base {
                    Some(e) => lemma_hinted_suffix(x, y, e, t, f, a, m, b),
                    None => lemma_joint_suffix(x, y, t, f, a, m, b),
                }
            }
        },
    }
}

proof fn lemma_all_combined(op: Op)
    ensures
        combined(leaf(Op::All), leaf(Op::All), op) == leaf(Op::All),
{
    reveal_with_fuel(combined, 2);
}

/// Concatenation keeps what its operands admit.
pub proof fn lemma_concatenated(
    g: Stage,
    f: Seq<u8>,
    x0: Info,
    y0: Info,
    a: int,
    m: int,
    b: int,
)
    requires
        settled(x0),
        settled(y0),
    ensures
        settled(concatenated(g, x0, y0).0),
        admits(x0, g.table, f, a, m) && admits(y0, g.table, f, m, b) ==> admits(
            concatenated(g, x0, y0).0,
            g.table,
            f,
            a,
            b,
        ),
{
    reveal(concatenated);
    let t = g.table;
    lemma_flush_spilled(g, f, x0, a, m);
    lemma_flush_spilled(g, f, y0, m, b);
    kept_crosses_bounded(g, x0, y0);
    let (x, y, g1) = crosses_bounded(g, x0, y0);
    let q = combined(x.query, y.query, Op::And);
    law_and_or_exact(x.query, y.query, Op::And, present(t, f));
    let seam = seam_of(x, y);
    if let Some(boundary) = seam {
        lemma_and_set(g1, f, q, boundary, Order::Prefix);
        kept_and_set(g1, q, boundary, Order::Prefix);
    }
    let (query, g2) = match seam {
        Some(boundary) => and_set(g1, q, boundary, Order::Prefix),
        None => (q, g1),
    };
    let z = Info { query, ..joint_sets(x, y) };
    lemma_all_combined(Op::And);
    assert(settled(z));
    if admits(x0, t, f, a, m) && admits(y0, t, f, m, b) {
        assert(admits(x, t, f, a, m) && admits(y, t, f, m, b));
        lemma_joint_sets(x, y, t, f, a, m, b);
        if seam is Some {
            lemma_seam(x, y, t, f, a, m, b);
        }
        assert(admits(z, t, f, a, b));
    }
    lemma_simplified(g2, f, z, false, a, b);
}

/// Alternation keeps what either operand admits.
pub proof fn lemma_alternated(g: Stage, f: Seq<u8>, x: Info, y: Info, a: int, b: int)
    requires
        settled(x),
        settled(y),
    ensures
        settled(alternated(g, x, y).0),
        admits(x, g.table, f, a, b) || admits(y, g.table, f, a, b) ==> admits(
            alternated(g, x, y).0,
            g.table,
            f,
            a,
            b,
        ),
{
    reveal(alternated);
    let t = g.table;
    let s = f.subrange(a, b);
    lemma_exact_added(g, f, x, a, b);
    lemma_exact_added(g, f, y, a, b);
    kept_exact_added(g, x);
    kept_exact_added(g, y);
    let (qx, qy, g1) = if x.exact is Some && y.exact is None {
        let (x1, g1) = exact_added(g, x);
        (x1.query, y.query, g1)
    } else if y.exact is Some && x.exact is None {
        let (y1, g1) = exact_added(g, y);
        (x.query, y1.query, g1)
    } else {
        (x.query, y.query, g)
    };
    law_and_or_exact(qx, qy, Op::Or, present(t, f));
    let z = Info { query: combined(qx, qy, Op::Or), ..either_sets(x, y) };
    lemma_all_combined(Op::Or);
    assert(settled(z));
    if admits(x, t, f, a, b) || admits(y, t, f, a, b) {
        match (x.exact, y.exact) {
            (Some(xe), Some(ye)) => {
                lemma_united_contains(xe, ye, Order::Prefix, s);
            },
            _ => {
                if a < b {
                    if admits(x, t, f, a, b) {
                        lemma_heads_tails(x, t, f, a, b);
                    } else {
                        lemma_heads_tails(y, t, f, a, b);
                    }
                    lemma_edge_united(Order::Prefix, Order::Prefix, heads(x), heads(y), s);
                    lemma_edge_united(Order::Suffix, Order::Suffix, tails(x), tails(y), s);
                }
            },
        }
        assert(admits(z, t, f, a, b));
    }
    lemma_simplified(g1, f, z, false, a, b);
}

} // verus!
