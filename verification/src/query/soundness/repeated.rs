//! The summary of a repetition admits every number of copies it allows.

use vstd::prelude::*;

use crate::query::analyze::repeat::{
    affordable, copies_upto, counts_upto, exact_expanded, expanded, has_empty, nonempty, plus_of,
    power_union, powered, powers_from, repeated, star_of, MAX_REPEAT_EXPAND,
};
use crate::query::analyze::stages::{
    kept_copies_upto, kept_counts_upto, kept_expanded, kept_powered, kept_sets_flushed,
};
use crate::query::analyze::{spent, Stage};
use crate::query::flush::{extends, sets_flushed};
use crate::query::hir::split_at;
use crate::query::info::{any_match, blank, empty_string, Info};
use crate::query::order::Order;
use crate::query::soundness::combined::{
    lemma_alternated, lemma_concatenated, lemma_united_contains,
};
use crate::query::soundness::flushed::{lemma_sets_flushed, lemma_simplified};
use crate::query::soundness::{
    admits, has_edge, has_two, is_run, lemma_extends_self, lemma_extends_trans, settled,
};
use crate::query::strings::{crossed, lemma_pairs, lemma_selected, pairs, united};
use crate::table::WeightTable;

verus! {

/// `n` spans of the relation stand one after the other in `a..b`, all within
/// the first `l` positions.
pub open spec fn chained(r: spec_fn(int, int) -> bool, l: int, a: int, b: int, n: int) -> bool
    decreases n,
{
    if n <= 0 {
        n == 0 && a == b && 0 <= a <= l
    } else {
        exists|m: int| #[trigger]
            split_at(m) && chained(r, l, a, m, n - 1) && r(m, b) && m <= b <= l
    }
}

/// Every span of the relation is admitted.
pub open spec fn admits_all(
    x: Info,
    t: WeightTable,
    f: Seq<u8>,
    r: spec_fn(int, int) -> bool,
) -> bool {
    forall|i: int, j: int| #[trigger] r(i, j) ==> admits(x, t, f, i, j)
}

pub proof fn lemma_empty_string(t: WeightTable, f: Seq<u8>, a: int)
    requires
        0 <= a <= f.len(),
    ensures
        admits(empty_string(), t, f, a, a),
        settled(empty_string()),
{
    let x = empty_string();
    let e = x.exact->0;
    assert(f.subrange(a, a) =~= Seq::<u8>::empty());
    assert(e[0] == Seq::<u8>::empty());
}

pub proof fn lemma_any_match(t: WeightTable, f: Seq<u8>, a: int, b: int)
    requires
        0 <= a <= b <= f.len(),
    ensures
        admits(any_match(), t, f, a, b),
        settled(any_match()),
{
    let x = any_match();
    let s = f.subrange(a, b);
    assert(x.prefix[0] == Seq::<u8>::empty());
    assert(x.suffix[0] == Seq::<u8>::empty());
    lemma_extends_self(Order::Prefix, s);
    lemma_extends_self(Order::Suffix, s);
    assert(x.prefix.contains(Seq::<u8>::empty()) && extends(Order::Prefix, Seq::<u8>::empty(), s));
    assert(x.suffix.contains(Seq::<u8>::empty()) && extends(Order::Suffix, Seq::<u8>::empty(), s));
}

pub proof fn lemma_repeats_bounds(r: spec_fn(int, int) -> bool, l: int, a: int, b: int, n: int)
    requires
        chained(r, l, a, b, n),
    ensures
        0 <= a <= b <= l,
        n >= 0,
    decreases n,
{
    if n > 0 {
        let m = choose|m: int| #[trigger]
            split_at(m) && chained(r, l, a, m, n - 1) && r(m, b) && m <= b <= l;
        lemma_repeats_bounds(r, l, a, m, n - 1);
    }
}

/// The first copy can be taken apart from the rest.
proof fn lemma_first_copy(r: spec_fn(int, int) -> bool, l: int, a: int, b: int, n: int) -> (m: int)
    requires
        chained(r, l, a, b, n),
        n >= 1,
    ensures
        r(a, m),
        chained(r, l, m, b, n - 1),
    decreases n,
{
    let k = choose|k: int| #[trigger]
        split_at(k) && chained(r, l, a, k, n - 1) && r(k, b) && k <= b <= l;
    if n == 1 {
        assert(chained(r, l, b, b, 0));
        b
    } else {
        let m = lemma_first_copy(r, l, a, k, n - 1);
        assert(split_at(k) && chained(r, l, m, k, n - 2) && r(k, b));
        assert(chained(r, l, m, b, n - 1));
        m
    }
}

/// `k` copies one after the other.
pub proof fn lemma_powered(
    g: Stage,
    f: Seq<u8>,
    base: Info,
    r: spec_fn(int, int) -> bool,
    l: int,
    k: int,
    a: int,
    b: int,
)
    requires
        settled(base),
        l == f.len(),
        admits_all(base, g.table, f, r),
    ensures
        settled(powered(g, base, k).0),
        chained(r, l, a, b, k) ==> admits(powered(g, base, k).0, g.table, f, a, b),
    decreases k,
{
    if k <= 0 {
        lemma_empty_string(g.table, f, 0);
        if chained(r, l, a, b, k) {
            lemma_empty_string(g.table, f, a);
        }
    } else {
        let m = if chained(r, l, a, b, k) {
            choose|m: int| #[trigger]
                split_at(m) && chained(r, l, a, m, k - 1) && r(m, b) && m <= b <= l
        } else {
            a
        };
        lemma_powered(g, f, base, r, l, k - 1, a, m);
        kept_powered(g, base, k - 1);
        let (x, g1) = powered(g, base, k - 1);
        lemma_concatenated(g1, f, x, base, a, m, b);
    }
}

proof fn lemma_two_edges(e: Seq<Seq<u8>>, i: Seq<u8>, j: Seq<u8>, s: Seq<u8>, order: Order)
    requires
        e.contains(i),
        e.contains(j),
        extends(order, i + j, s),
    ensures
        has_two(order, e, s),
{
}

/// A run lists a block of its set at both edges.
proof fn lemma_run_edges(e: Seq<Seq<u8>>, s: Seq<u8>)
    requires
        is_run(e, s),
    ensures
        has_edge(Order::Prefix, e, s),
        has_edge(Order::Suffix, e, s),
{
    if e.contains(s) {
        lemma_extends_self(Order::Prefix, s);
        lemma_extends_self(Order::Suffix, s);
        assert(e.contains(s) && extends(Order::Prefix, s, s));
        assert(e.contains(s) && extends(Order::Suffix, s, s));
    } else {
        let (i, j) = choose|i: Seq<u8>, j: Seq<u8>| #[trigger]
            e.contains(i) && #[trigger] e.contains(j) && extends(Order::Prefix, i + j, s);
        assert(i =~= (i + j).subrange(0, i.len() as int));
        assert(extends(Order::Prefix, i, i + j));
        lemma_extends_trans(Order::Prefix, i, i + j, s);
        assert(e.contains(i) && extends(Order::Prefix, i, s));
        let (k, l) = choose|k: Seq<u8>, l: Seq<u8>| #[trigger]
            e.contains(k) && #[trigger] e.contains(l) && extends(Order::Suffix, k + l, s);
        let kl = k + l;
        assert(l =~= kl.subrange(kl.len() - l.len(), kl.len() as int));
        assert(extends(Order::Suffix, l, kl));
        lemma_extends_trans(Order::Suffix, l, kl, s);
        assert(e.contains(l) && extends(Order::Suffix, l, s));
    }
}

/// Two runs one after the other are a run.
proof fn lemma_run_concat(e: Seq<Seq<u8>>, u: Seq<u8>, v: Seq<u8>)
    requires
        is_run(e, u),
        is_run(e, v),
    ensures
        is_run(e, u + v),
{
    let w = u + v;
    if e.contains(u) {
        lemma_run_edges(e, v);
        let p = choose|p: Seq<u8>| #[trigger] e.contains(p) && extends(Order::Prefix, p, v);
        assert(u + p =~= w.subrange(0, (u + p).len() as int));
        lemma_two_edges(e, u, p, w, Order::Prefix);
    } else {
        let (i, j) = choose|i: Seq<u8>, j: Seq<u8>| #[trigger]
            e.contains(i) && #[trigger] e.contains(j) && extends(Order::Prefix, i + j, u);
        assert(i + j =~= w.subrange(0, (i + j).len() as int));
        lemma_two_edges(e, i, j, w, Order::Prefix);
    }
    if e.contains(v) {
        lemma_run_edges(e, u);
        let p = choose|p: Seq<u8>| #[trigger] e.contains(p) && extends(Order::Suffix, p, u);
        assert(p + v =~= w.subrange(w.len() - (p + v).len(), w.len() as int));
        lemma_two_edges(e, p, v, w, Order::Suffix);
    } else {
        let (i, j) = choose|i: Seq<u8>, j: Seq<u8>| #[trigger]
            e.contains(i) && #[trigger] e.contains(j) && extends(Order::Suffix, i + j, v);
        assert(i + j =~= w.subrange(w.len() - (i + j).len(), w.len() as int));
        lemma_two_edges(e, i, j, w, Order::Suffix);
    }
}

/// Copies that are each a run when not empty are a run together when not
/// empty.
proof fn lemma_run_copies(
    r: spec_fn(int, int) -> bool,
    l: int,
    f: Seq<u8>,
    e: Seq<Seq<u8>>,
    a: int,
    b: int,
    n: int,
)
    requires
        l == f.len(),
        chained(r, l, a, b, n),
        a < b,
        forall|i: int, j: int| #[trigger]
            r(i, j) && i < j ==> is_run(e, f.subrange(i, j)),
    ensures
        is_run(e, f.subrange(a, b)),
    decreases n,
{
    let m = choose|m: int| #[trigger]
        split_at(m) && chained(r, l, a, m, n - 1) && r(m, b) && m <= b <= l;
    lemma_repeats_bounds(r, l, a, m, n - 1);
    if m == b {
        lemma_run_copies(r, l, f, e, a, b, n - 1);
    } else if a < m {
        lemma_run_copies(r, l, f, e, a, m, n - 1);
        lemma_run_concat(e, f.subrange(a, m), f.subrange(m, b));
        assert(f.subrange(a, m) + f.subrange(m, b) =~= f.subrange(a, b));
    }
}

/// Copies that each are a block of the set are a run, empty blocks included.
proof fn lemma_run_blocks(
    r: spec_fn(int, int) -> bool,
    l: int,
    f: Seq<u8>,
    e: Seq<Seq<u8>>,
    a: int,
    b: int,
    n: int,
)
    requires
        l == f.len(),
        chained(r, l, a, b, n),
        n >= 1,
        forall|i: int, j: int| #[trigger] r(i, j) ==> e.contains(f.subrange(i, j)),
    ensures
        is_run(e, f.subrange(a, b)),
    decreases n,
{
    let m = choose|m: int| #[trigger]
        split_at(m) && chained(r, l, a, m, n - 1) && r(m, b) && m <= b <= l;
    lemma_repeats_bounds(r, l, a, m, n - 1);
    if n > 1 {
        lemma_run_blocks(r, l, f, e, a, m, n - 1);
        lemma_run_concat(e, f.subrange(a, m), f.subrange(m, b));
    }
    assert(f.subrange(a, m) + f.subrange(m, b) =~= f.subrange(a, b));
}

/// The edges of a non-empty row of copies are those of single copies.
proof fn lemma_copy_edges(
    r: spec_fn(int, int) -> bool,
    l: int,
    f: Seq<u8>,
    prefix: Seq<Seq<u8>>,
    suffix: Seq<Seq<u8>>,
    a: int,
    b: int,
    n: int,
)
    requires
        l == f.len(),
        chained(r, l, a, b, n),
        a < b,
        forall|i: int, j: int| #[trigger]
            r(i, j) && i < j ==> has_edge(Order::Prefix, prefix, f.subrange(i, j))
                && has_edge(Order::Suffix, suffix, f.subrange(i, j)),
    ensures
        has_edge(Order::Prefix, prefix, f.subrange(a, b)),
        has_edge(Order::Suffix, suffix, f.subrange(a, b)),
    decreases n,
{
    let m = choose|m: int| #[trigger]
        split_at(m) && chained(r, l, a, m, n - 1) && r(m, b) && m <= b <= l;
    lemma_repeats_bounds(r, l, a, m, n - 1);
    let s = f.subrange(a, b);
    if m == b {
        lemma_copy_edges(r, l, f, prefix, suffix, a, b, n - 1);
    } else if a < m {
        lemma_copy_edges(r, l, f, prefix, suffix, a, m, n - 1);
        let (u, v) = (f.subrange(a, m), f.subrange(m, b));
        let p = choose|p: Seq<u8>| #[trigger] prefix.contains(p) && extends(Order::Prefix, p, u);
        assert(p =~= s.subrange(0, p.len() as int));
        assert(prefix.contains(p) && extends(Order::Prefix, p, s));
        let q = choose|q: Seq<u8>| #[trigger] suffix.contains(q) && extends(Order::Suffix, q, v);
        assert(q =~= s.subrange(s.len() - q.len(), s.len() as int));
        assert(suffix.contains(q) && extends(Order::Suffix, q, s));
    }
}

/// Some copy matches, and an empty one where the row is empty.
proof fn lemma_some_copy(r: spec_fn(int, int) -> bool, l: int, a: int, b: int, n: int) -> (m: int)
    requires
        chained(r, l, a, b, n),
        n >= 1,
    ensures
        a <= m <= b,
        r(m, b),
{
    let m = choose|m: int| #[trigger]
        split_at(m) && chained(r, l, a, m, n - 1) && r(m, b) && m <= b <= l;
    lemma_repeats_bounds(r, l, a, m, n - 1);
    m
}

/// One or more copies.
proof fn lemma_plus_of(
    t: WeightTable,
    f: Seq<u8>,
    base: Info,
    r: spec_fn(int, int) -> bool,
    l: int,
    a: int,
    b: int,
    n: int,
)
    requires
        settled(base),
        l == f.len(),
        admits_all(base, t, f, r),
        n >= 1,
    ensures
        settled(plus_of(base)),
        chained(r, l, a, b, n) ==> admits(plus_of(base), t, f, a, b),
{
    if chained(r, l, a, b, n) {
        lemma_repeats_bounds(r, l, a, b, n);
        let m = lemma_some_copy(r, l, a, b, n);
        assert(admits(base, t, f, m, b));
        let s = f.subrange(a, b);
        match base.exact {
            Some(e) => {
                assert forall|i: int, j: int| #[trigger] r(i, j) implies e.contains(
                    f.subrange(i, j),
                ) by {
                    assert(admits(base, t, f, i, j));
                }
                lemma_run_blocks(r, l, f, e, a, b, n);
                lemma_run_edges(e, s);
            },
            None => {
                if a < b {
                    assert forall|i: int, j: int| #[trigger]
                        r(i, j) && i < j implies has_edge(
                        Order::Prefix,
                        base.prefix,
                        f.subrange(i, j),
                    ) && has_edge(Order::Suffix, base.suffix, f.subrange(i, j)) by {
                        assert(admits(base, t, f, i, j));
                    }
                    lemma_copy_edges(r, l, f, base.prefix, base.suffix, a, b, n);
                    if let Some(e) = base.plus_base {
                        assert forall|i: int, j: int| #[trigger]
                            r(i, j) && i < j implies is_run(
                            e,
                            f.subrange(i, j),
                        ) by {
                            assert(admits(base, t, f, i, j));
                        }
                        lemma_run_copies(r, l, f, e, a, b, n);
                    }
                }
            },
        }
    }
}

/// Any number of copies of a finite set.
proof fn lemma_star_of(
    t: WeightTable,
    f: Seq<u8>,
    base: Info,
    r: spec_fn(int, int) -> bool,
    l: int,
    a: int,
    b: int,
    n: int,
)
    requires
        settled(base),
        l == f.len(),
        admits_all(base, t, f, r),
        star_of(base) is Some,
    ensures
        settled(star_of(base)->0),
        chained(r, l, a, b, n) ==> admits(star_of(base)->0, t, f, a, b),
{
    let exact = base.exact->0;
    let e = nonempty(exact);
    if chained(r, l, a, b, n) {
        lemma_repeats_bounds(r, l, a, b, n);
        if a < b {
            let keep = Seq::new(exact.len(), |i: int| exact[i].len() > 0);
            lemma_selected(exact, keep);
            assert forall|i: int, j: int| #[trigger] r(i, j) && i < j implies is_run(
                e,
                f.subrange(i, j),
            ) by {
                assert(admits(base, t, f, i, j));
                let k = choose|k: int| 0 <= k < exact.len() && exact[k] == f.subrange(i, j);
                assert(keep[k]);
                assert(e.contains(exact[k]));
            }
            lemma_run_copies(r, l, f, e, a, b, n);
            lemma_run_edges(e, f.subrange(a, b));
        }
    }
}

/// `s` is `k` strings of the set, one after the other.
pub open spec fn in_power(e: Seq<Seq<u8>>, s: Seq<u8>, k: int) -> bool
    decreases k,
{
    if k <= 0 {
        k == 0 && s == Seq::<u8>::empty()
    } else {
        exists|u: Seq<u8>, v: Seq<u8>|
            in_power(e, u, k - 1) && e.contains(v) && s == #[trigger] (u + v)
    }
}

proof fn lemma_power_step(e: Seq<Seq<u8>>, power: Seq<Seq<u8>>, k: int)
    requires
        k >= 0,
        forall|s: Seq<u8>| #[trigger] power.contains(s) <==> in_power(e, s, k),
    ensures
        forall|s: Seq<u8>| #[trigger]
            crossed(power, e, Order::Prefix).contains(s) <==> in_power(e, s, k + 1),
{
    let next = crossed(power, e, Order::Prefix);
    lemma_pairs(power, e);
    assert forall|s: Seq<u8>| #[trigger] next.contains(s) <==> in_power(e, s, k + 1) by {
        crate::query::soundness::lemma_cleaned_contains(Order::Prefix, pairs(power, e), s);
        if next.contains(s) {
            let (u, v) = choose|u: Seq<u8>, v: Seq<u8>|
                power.contains(u) && e.contains(v) && s == u + v;
            assert(in_power(e, u, k) && e.contains(v) && s == u + v);
        }
        if in_power(e, s, k + 1) {
            let (u, v) = choose|u: Seq<u8>, v: Seq<u8>|
                in_power(e, u, k) && e.contains(v) && s == #[trigger] (u + v);
            assert(power.contains(u));
            assert(pairs(power, e).contains(u + v));
        }
    }
}

proof fn lemma_powers_from(
    e: Seq<Seq<u8>>,
    min: int,
    max: int,
    k: int,
    power: Seq<Seq<u8>>,
    union: Seq<Seq<u8>>,
)
    requires
        0 <= k,
        k <= max,
        powers_from(e, min, max, k, power, union) is Some,
        forall|s: Seq<u8>| #[trigger] power.contains(s) <==> in_power(e, s, k),
    ensures
        forall|s: Seq<u8>| #[trigger]
            (powers_from(e, min, max, k, power, union)->0).contains(s) <==> union.contains(s)
                || exists|n: int| k <= n <= max && min <= n && #[trigger] in_power(e, s, n),
    decreases max - k,
{
    let r = powers_from(e, min, max, k, power, union)->0;
    let union1 = if k >= min {
        united(union, power, Order::Prefix)
    } else {
        union
    };
    assert forall|s: Seq<u8>| #[trigger] union1.contains(s) <==> union.contains(s) || (min <= k
        && in_power(e, s, k)) by {
        lemma_united_contains(union, power, Order::Prefix, s);
        assert(power.contains(s) <==> in_power(e, s, k));
    }
    if k < max {
        lemma_power_step(e, power, k);
        let power1 = crossed(power, e, Order::Prefix);
        lemma_powers_from(e, min, max, k + 1, power1, union1);
    }
    assert forall|s: Seq<u8>| #[trigger] r.contains(s) <==> union.contains(s) || exists|n: int|
        k <= n <= max && min <= n && #[trigger] in_power(e, s, n) by {
        if k >= max {
            assert(r == union1);
            if exists|n: int| k <= n <= max && min <= n && #[trigger] in_power(e, s, n) {
                let n = choose|n: int| k <= n <= max && min <= n && #[trigger] in_power(e, s, n);
                assert(n == k);
            }
            if union1.contains(s) && !union.contains(s) {
                assert(k <= k <= max && min <= k && in_power(e, s, k));
            }
        } else {
            assert(r.contains(s) <==> union1.contains(s) || exists|n: int|
                k + 1 <= n <= max && min <= n && #[trigger] in_power(e, s, n));
            if exists|n: int| k <= n <= max && min <= n && #[trigger] in_power(e, s, n) {
                let n = choose|n: int| k <= n <= max && min <= n && #[trigger] in_power(e, s, n);
                if n == k {
                    assert(union1.contains(s));
                } else {
                    assert(k + 1 <= n <= max && min <= n && in_power(e, s, n));
                }
            }
            if exists|n: int| k + 1 <= n <= max && min <= n && #[trigger] in_power(e, s, n) {
                let n = choose|n: int|
                    k + 1 <= n <= max && min <= n && #[trigger] in_power(e, s, n);
                assert(k <= n <= max && min <= n && in_power(e, s, n));
            }
            if union1.contains(s) && !union.contains(s) {
                assert(k <= k <= max && min <= k && in_power(e, s, k));
            }
        }
    }
}

/// A closed repetition of an exact set expands to exactly its language: the
/// strings made of `min` to `max` members, one after the other.
pub proof fn law_power_union_exact(e: Seq<Seq<u8>>, min: int, max: int, s: Seq<u8>)
    requires
        0 <= max,
        power_union(e, min, max) is Some,
    ensures
        (power_union(e, min, max)->0).contains(s) <==> exists|n: int|
            0 <= n <= max && min <= n && #[trigger] in_power(e, s, n),
{
    let one = seq![Seq::<u8>::empty()];
    assert forall|s: Seq<u8>| #[trigger] one.contains(s) <==> in_power(e, s, 0) by {
        assert(one[0] == Seq::<u8>::empty());
        if s == Seq::<u8>::empty() {
            assert(one.contains(s));
        }
    }
    lemma_powers_from(e, min, max, 0, one, Seq::empty());
}

proof fn lemma_copies_in_power(
    r: spec_fn(int, int) -> bool,
    l: int,
    f: Seq<u8>,
    e: Seq<Seq<u8>>,
    a: int,
    b: int,
    n: int,
)
    requires
        l == f.len(),
        chained(r, l, a, b, n),
        forall|i: int, j: int| #[trigger] r(i, j) ==> e.contains(f.subrange(i, j)),
    ensures
        in_power(e, f.subrange(a, b), n),
    decreases n,
{
    lemma_repeats_bounds(r, l, a, b, n);
    if n > 0 {
        let m = choose|m: int| #[trigger]
            split_at(m) && chained(r, l, a, m, n - 1) && r(m, b) && m <= b <= l;
        lemma_repeats_bounds(r, l, a, m, n - 1);
        lemma_copies_in_power(r, l, f, e, a, m, n - 1);
        let (u, v) = (f.subrange(a, m), f.subrange(m, b));
        assert(u + v =~= f.subrange(a, b));
        assert(in_power(e, u, n - 1) && e.contains(v) && f.subrange(a, b) == u + v);
    } else {
        assert(f.subrange(a, b) =~= Seq::<u8>::empty());
    }
}

proof fn lemma_exact_expanded(
    g: Stage,
    f: Seq<u8>,
    base: Info,
    r: spec_fn(int, int) -> bool,
    l: int,
    min: int,
    max: int,
    a: int,
    b: int,
    n: int,
)
    requires
        settled(base),
        l == f.len(),
        admits_all(base, g.table, f, r),
        exact_expanded(g, base, min, max) is Some,
        0 <= max,
    ensures
        settled((exact_expanded(g, base, min, max)->0).0),
        chained(r, l, a, b, n) && min <= n <= max ==> admits(
            (exact_expanded(g, base, min, max)->0).0,
            g.table,
            f,
            a,
            b,
        ),
{
    let e = base.exact->0;
    let set = power_union(e, min, max)->0;
    let x = Info { can_empty: has_empty(set), exact: Some(set), ..blank() };
    if chained(r, l, a, b, n) && min <= n <= max {
        lemma_repeats_bounds(r, l, a, b, n);
        assert forall|i: int, j: int| #[trigger] r(i, j) implies e.contains(
            f.subrange(i, j),
        ) by {
            assert(admits(base, g.table, f, i, j));
        }
        lemma_copies_in_power(r, l, f, e, a, b, n);
        let s = f.subrange(a, b);
        law_power_union_exact(e, min, max, s);
        assert(0 <= n <= max && min <= n && in_power(e, s, n));
        let k = choose|k: int| 0 <= k < set.len() && set[k] == s;
        if a == b {
            assert(set[k].len() == 0);
        }
        assert(admits(x, g.table, f, a, b));
    }
    lemma_simplified(g, f, x, false, a, b);
}

/// The first `n` of several copies, the second open-ended unless the count is
/// whole.
proof fn lemma_copies_upto(
    g: Stage,
    f: Seq<u8>,
    base: Info,
    r: spec_fn(int, int) -> bool,
    l: int,
    copies: int,
    whole: bool,
    n: int,
    k: int,
    a: int,
    b: int,
)
    requires
        settled(base),
        l == f.len(),
        admits_all(base, g.table, f, r),
        1 <= n <= copies,
    ensures
        settled(copies_upto(g, base, copies, whole, n).0),
        chained(r, l, a, b, k) && (if whole || (n == 1 && copies > 1) {
            k == n
        } else {
            k >= n
        }) ==> admits(copies_upto(g, base, copies, whole, n).0, g.table, f, a, b),
    decreases n,
{
    let t = g.table;
    let good = chained(r, l, a, b, k) && (if whole || (n == 1 && copies > 1) {
        k == n
    } else {
        k >= n
    });
    let kk = if k >= 1 {
        k
    } else {
        1
    };
    lemma_plus_of(t, f, base, r, l, a, b, kk);
    if n == 1 {
        if good && (whole || copies > 1) {
            let m = lemma_some_copy(r, l, a, b, k);
            lemma_one_copy(r, l, a, b);
        }
    } else {
        let x = copies_upto(g, base, copies, whole, n - 1).0;
        let g1 = copies_upto(g, base, copies, whole, n - 1).1;
        kept_copies_upto(g, base, copies, whole, n - 1);
        if good && n == 2 && !whole {
            let m = lemma_first_copy(r, l, a, b, k);
            lemma_single_copy(r, l, a, m);
            lemma_copies_upto(g, f, base, r, l, copies, whole, n - 1, 1, a, m);
            lemma_plus_of(t, f, base, r, l, m, b, k - 1);
            lemma_concatenated(g1, f, x, plus_of(base), a, m, b);
        } else if good {
            let m = choose|m: int| #[trigger]
                split_at(m) && chained(r, l, a, m, k - 1) && r(m, b) && m <= b <= l;
            lemma_copies_upto(g, f, base, r, l, copies, whole, n - 1, k - 1, a, m);
            assert(admits(base, t, f, m, b));
            lemma_concatenated(g1, f, x, base, a, m, b);
        } else {
            lemma_copies_upto(g, f, base, r, l, copies, whole, n - 1, k, a, b);
            lemma_concatenated(g1, f, x, base, a, a, b);
            lemma_concatenated(g1, f, x, plus_of(base), a, a, b);
        }
    }
}

proof fn lemma_one_copy(r: spec_fn(int, int) -> bool, l: int, a: int, b: int)
    requires
        chained(r, l, a, b, 1),
    ensures
        r(a, b),
{
    let m = choose|m: int| #[trigger]
        split_at(m) && chained(r, l, a, m, 0) && r(m, b);
    assert(m == a);
}

proof fn lemma_single_copy(r: spec_fn(int, int) -> bool, l: int, a: int, b: int)
    requires
        0 <= a <= b <= l,
        r(a, b),
    ensures
        chained(r, l, a, b, 1),
{
    assert(split_at(a) && chained(r, l, a, a, 0) && r(a, b));
}

/// At least `min` copies, or exactly that many.
proof fn lemma_expanded(
    g: Stage,
    f: Seq<u8>,
    base: Info,
    r: spec_fn(int, int) -> bool,
    l: int,
    min: int,
    exact_count: bool,
    k: int,
    a: int,
    b: int,
)
    requires
        settled(base),
        l == f.len(),
        admits_all(base, g.table, f, r),
        min >= 1,
    ensures
        settled(expanded(g, base, min, exact_count).0),
        chained(r, l, a, b, k) && k >= min && (exact_count ==> k == min) ==> admits(
            expanded(g, base, min, exact_count).0,
            g.table,
            f,
            a,
            b,
        ),
    decreases (if min == 2 { 1int } else { 0int }),
{
    let t = g.table;
    let wanted = if min < MAX_REPEAT_EXPAND {
        min
    } else {
        MAX_REPEAT_EXPAND as int
    };
    let copies = affordable(g, base, wanted);
    assert(1 <= copies <= wanted);
    let whole = exact_count && copies == min;
    let good = chained(r, l, a, b, k) && k >= min && (exact_count ==> k == min);
    if min == 2 && !whole && copies == 2 {
        let (two, g1) = powered(g, base, 2);
        kept_powered(g, base, 2);
        lemma_powered(g, f, base, r, l, 2, a, b);
        lemma_expanded(g1, f, base, r, l, 3, false, k, a, b);
        kept_expanded(g1, base, 3, false);
        let (three, g2) = expanded(g1, base, 3, false);
        lemma_sets_flushed(g2, f, three, a, b);
        kept_sets_flushed(g2, three);
        let (flushed, g3) = sets_flushed(g2, three);
        lemma_alternated(g3, f, two, flushed, a, b);
    } else {
        let extra = if copies >= 1 {
            copies - 1
        } else {
            0
        };
        let g1 = spent(
            g,
            crate::num::clamp(crate::query::analyze::repeat::query_weight(base) * extra),
        );
        lemma_copies_upto(g1, f, base, r, l, copies, whole, copies, k, a, b);
        kept_copies_upto(g1, base, copies, whole, copies);
        let (x, g2) = copies_upto(g1, base, copies, whole, copies);
        lemma_simplified(g2, f, x, false, a, b);
    }
}

proof fn lemma_counts_upto(
    g: Stage,
    f: Seq<u8>,
    base: Info,
    r: spec_fn(int, int) -> bool,
    l: int,
    min: int,
    n: int,
    k: int,
    a: int,
    b: int,
)
    requires
        settled(base),
        l == f.len(),
        admits_all(base, g.table, f, r),
    ensures
        settled(counts_upto(g, base, min, n).0),
        chained(r, l, a, b, k) && min <= k <= n ==> admits(
            counts_upto(g, base, min, n).0,
            g.table,
            f,
            a,
            b,
        ),
    decreases n - min,
{
    if n >= min {
        if n == min {
            lemma_powered(g, f, base, r, l, n, a, b);
            kept_powered(g, base, n);
            let (x, g1) = powered(g, base, n);
            lemma_sets_flushed(g1, f, x, a, b);
        } else {
            lemma_counts_upto(g, f, base, r, l, min, n - 1, k, a, b);
            kept_counts_upto(g, base, min, n - 1);
            let (acc, g1) = counts_upto(g, base, min, n - 1);
            lemma_powered(g1, f, base, r, l, n, a, b);
            kept_powered(g1, base, n);
            let (x, g2) = powered(g1, base, n);
            lemma_sets_flushed(g2, f, x, a, b);
            kept_sets_flushed(g2, x);
            let (y, g3) = sets_flushed(g2, x);
            lemma_alternated(g3, f, acc, y, a, b);
        }
    }
}

/// A repetition admits every allowed number of copies.
pub proof fn lemma_repeated(
    g: Stage,
    f: Seq<u8>,
    base: Info,
    r: spec_fn(int, int) -> bool,
    l: int,
    min: int,
    max: Option<u32>,
    k: int,
    a: int,
    b: int,
)
    requires
        settled(base),
        l == f.len(),
        admits_all(base, g.table, f, r),
        min >= 0,
    ensures
        settled(repeated(g, base, min, max).0),
        chained(r, l, a, b, k) && min <= k && (max matches Some(m) ==> k <= m) ==> admits(
            repeated(g, base, min, max).0,
            g.table,
            f,
            a,
            b,
        ),
{
    let t = g.table;
    lemma_any_match(t, f, 0, 0);
    if chained(r, l, a, b, k) {
        lemma_repeats_bounds(r, l, a, b, k);
        lemma_any_match(t, f, a, b);
    }
    if min == 0 && max is None {
        if star_of(base) is Some {
            lemma_star_of(t, f, base, r, l, a, b, k);
        }
    } else if max is Some && exact_expanded(g, base, min, max->0 as int) is Some {
        lemma_exact_expanded(g, f, base, r, l, min, max->0 as int, a, b, k);
    } else if max is Some && max->0 <= MAX_REPEAT_EXPAND {
        let m = max->0 as int;
        let total = crate::query::analyze::repeat::sum_of(min, m);
        if affordable(g, base, total) < total {
            if min > 0 {
                lemma_expanded(g, f, base, r, l, min, false, k, a, b);
            }
        } else {
            let g1 = spent(
                g,
                crate::num::clamp(crate::query::analyze::repeat::query_weight(base) * total),
            );
            lemma_counts_upto(g1, f, base, r, l, min, m, k, a, b);
        }
    } else if min > 0 {
        lemma_expanded(
            g,
            f,
            base,
            r,
            l,
            min,
            max matches Some(m) && m == min,
            k,
            a,
            b,
        );
    }
}

} // verus!
