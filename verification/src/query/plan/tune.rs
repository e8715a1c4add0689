//! Df-driven query plan tuning.

use vstd::prelude::*;

use crate::num::{add_to_max_u64, clamp_u64};
use crate::query::plan::{
    all_needles_hold, all_needs_hold, expr_children, expr_holds, needle_holds, needle_keys, needles,
    some_key, some_line_edge, some_need_holds, some_needle_holds, some_word_edge, Expr, GramKey,
    GramNeedle, Index, Needle, PlanExpr, QueryPlan,
};

verus! {

/// Most grams a conjunction keeps.
pub const MAX_ALL_OF_GRAMS: usize = 32;

/// The document-frequency statistics an index feeds [`QueryPlan::tune`].
pub trait DfStats {
    /// Entries the index holds for one key.
    fn entry_count(&self, key: GramKey) -> u64;

    /// Entries the index holds in all.
    fn total_entries(&self) -> u64;
}

/// The document frequencies of the keys of a plan, read once.
#[derive(Debug, Clone, PartialEq, Eq)]
pub struct DfSnapshot {
    /// Entries for each key.
    pub counts: Vec<(GramKey, u64)>,
    /// Entries in all.
    pub total: u64,
}

/// Document frequencies by key.
pub ghost struct Df {
    pub count: spec_fn(GramKey) -> u64,
    pub total: u64,
}

/// The count recorded first for a key, or 0.
pub open spec fn recorded_count(counts: Seq<(GramKey, u64)>, key: GramKey) -> u64
    decreases counts.len(),
{
    if counts.len() == 0 {
        0
    } else if counts[0].0 == key {
        counts[0].1
    } else {
        recorded_count(counts.drop_first(), key)
    }
}

impl View for DfSnapshot {
    type V = Df;

    open spec fn view(&self) -> Df {
        let counts = self.counts@;
        Df { count: |key: GramKey| recorded_count(counts, key), total: self.total }
    }
}

impl DfSnapshot {
    /// Entries for one key.
    pub fn count(&self, key: GramKey) -> (n: u64)
        ensures
            n == (self@.count)(key),
    {
        let mut i: usize = 0;
        proof {
            assert(self.counts@.skip(0) =~= self.counts@);
        }
        while i < self.counts.len()
            invariant
                i <= self.counts@.len(),
                recorded_count(self.counts@, key) == recorded_count(
                    self.counts@.skip(i as int),
                    key,
                ),
            decreases self.counts@.len() - i,
        {
            proof {
                let rest = self.counts@.skip(i as int);
                assert(rest[0] == self.counts@[i as int]);
                assert(rest.drop_first() =~= self.counts@.skip(i + 1));
            }
            if self.counts[i].0 == key {
                return self.counts[i].1;
            }
            i = i + 1;
        }
        0
    }
}

/// Entries of all keys together.
pub open spec fn count_sum(keys: Seq<GramKey>, df: Df) -> int
    decreases keys.len(),
{
    if keys.len() == 0 {
        0
    } else {
        count_sum(keys.drop_last(), df) + (df.count)(keys.last())
    }
}

/// Most entries a needle can select.
pub open spec fn estimate(n: Needle, df: Df) -> int {
    let sum = count_sum(needle_keys(n), df);
    if sum < df.total {
        sum
    } else {
        df.total as int
    }
}

/// `x` put behind everything that ranks no higher.
pub open spec fn placed<A>(s: Seq<A>, x: A, rank: spec_fn(A) -> int) -> Seq<A>
    decreases s.len(),
{
    if s.len() == 0 || rank(s.last()) <= rank(x) {
        s.push(x)
    } else {
        placed(s.drop_last(), x, rank).push(s.last())
    }
}

/// The sequence by ascending rank, equal ranks in their old order.
pub open spec fn ranked<A>(s: Seq<A>, rank: spec_fn(A) -> int) -> Seq<A>
    decreases s.len(),
{
    if s.len() == 0 {
        s
    } else {
        placed(ranked(s.drop_last(), rank), s.last(), rank)
    }
}

/// The keys without those equal to their left neighbour.
pub open spec fn key_runs(s: Seq<GramKey>) -> Seq<GramKey>
    decreases s.len(),
{
    if s.len() <= 1 {
        s
    } else if s[s.len() - 1] == s[s.len() - 2] {
        key_runs(s.drop_last())
    } else {
        key_runs(s.drop_last()).push(s.last())
    }
}

/// Keys rank by frequency.
pub open spec fn key_rank(df: Df) -> spec_fn(GramKey) -> int {
    |k: GramKey| (df.count)(k) as int
}

/// Needles rank by estimate.
pub open spec fn needle_rank(df: Df) -> spec_fn(Needle) -> int {
    |n: Needle| estimate(n, df)
}

/// The keys by frequency, neighbours that are equal once.
pub open spec fn keys_tuned(keys: Seq<GramKey>, df: Df) -> Seq<GramKey> {
    key_runs(ranked(keys, key_rank(df)))
}

/// The needle with its keys by frequency.
pub open spec fn needle_tuned(n: Needle, df: Df) -> Needle {
    match n {
        Needle::Key(key) => Needle::Key(key),
        Needle::AnyKey(keys) => Needle::AnyKey(keys_tuned(keys, df)),
        Needle::AtWordEdge { keys, starts, ends, whole } => Needle::AtWordEdge {
            keys: keys_tuned(keys, df),
            starts,
            ends,
            whole,
        },
        Needle::AtLineEdge { keys, starts, ends } => Needle::AtLineEdge {
            keys: keys_tuned(keys, df),
            starts,
            ends,
        },
    }
}

/// Every needle with its keys by frequency.
pub open spec fn needles_tuned(grams: Seq<Needle>, df: Df) -> Seq<Needle> {
    Seq::new(grams.len(), |i: int| needle_tuned(grams[i], df))
}

/// The needles by estimate, each with its keys by frequency.
pub open spec fn grams_sorted(grams: Seq<Needle>, df: Df) -> Seq<Needle> {
    ranked(needles_tuned(grams, df), needle_rank(df))
}

/// The needle at `i` is selective, or the one to keep, and within the cap.
pub open spec fn is_retained(grams: Seq<Needle>, i: int, keep_first: bool, df: Df, stop: int) -> bool {
    ((keep_first && i == 0) || estimate(grams[i], df) < stop) && i < MAX_ALL_OF_GRAMS
}

/// The retained ones among the first `n` needles.
pub open spec fn retained_upto(
    grams: Seq<Needle>,
    n: int,
    keep_first: bool,
    df: Df,
    stop: int,
) -> Seq<Needle>
    decreases n,
{
    if n <= 0 {
        Seq::empty()
    } else if is_retained(grams, n - 1, keep_first, df, stop) {
        retained_upto(grams, n - 1, keep_first, df, stop).push(grams[n - 1])
    } else {
        retained_upto(grams, n - 1, keep_first, df, stop)
    }
}

/// The estimates of all needles together.
pub open spec fn estimate_sum(grams: Seq<Needle>, df: Df) -> int
    decreases grams.len(),
{
    if grams.len() == 0 {
        0
    } else {
        estimate_sum(grams.drop_last(), df) + estimate(grams.last(), df)
    }
}

/// A bag of grams that together are not selective.
pub open spec fn is_weak(e: Expr, df: Df, stop: int) -> bool {
    e matches Expr::AnyOf { grams, needs, children } && needs.len() == 0 && children.len() == 0
        && estimate_sum(grams, df) >= stop
}

/// The children that are no weak bags.
pub open spec fn strong(children: Seq<Expr>, df: Df, stop: int) -> Seq<Expr>
    decreases children.len(),
{
    if children.len() == 0 {
        children
    } else if is_weak(children.last(), df, stop) {
        strong(children.drop_last(), df, stop)
    } else {
        strong(children.drop_last(), df, stop).push(children.last())
    }
}

/// The children without weak bags, unless nothing else would remain.
pub open spec fn without_weak(grams: Seq<Needle>, children: Seq<Expr>, df: Df, stop: int) -> Seq<
    Expr,
> {
    if grams.len() + strong(children, df, stop).len() == 0 {
        children
    } else {
        strong(children, df, stop)
    }
}

/// The expression reordered and thinned by document frequency.
pub open spec fn tuned(e: Expr, df: Df, stop: int) -> Expr
    decreases e, expr_children(e).len() + 1,
{
    match e {
        Expr::AllOf { grams, needs, children } => {
            let kept = retained_upto(
                grams_sorted(grams, df),
                grams.len() as int,
                children.len() == 0,
                df,
                stop,
            );
            let below = children_tuned(e, df, stop, children.len() as int);
            Expr::AllOf { grams: kept, needs, children: without_weak(kept, below, df, stop) }
        },
        Expr::AnyOf { grams, needs, children } => Expr::AnyOf {
            grams: grams_sorted(grams, df),
            needs,
            children: children_tuned(e, df, stop, children.len() as int),
        },
        _ => e,
    }
}

/// The first `n` nested expressions, tuned.
pub open spec fn children_tuned(e: Expr, df: Df, stop: int, n: int) -> Seq<Expr>
    decreases e, n,
{
    match e {
        Expr::AllOf { grams, needs, children } => if n <= 0 || n > children.len() {
            Seq::empty()
        } else {
            children_tuned(e, df, stop, n - 1).push(tuned(children[n - 1], df, stop))
        },
        Expr::AnyOf { grams, needs, children } => if n <= 0 || n > children.len() {
            Seq::empty()
        } else {
            children_tuned(e, df, stop, n - 1).push(tuned(children[n - 1], df, stop))
        },
        _ => Seq::empty(),
    }
}

pub proof fn lemma_children_tuned(e: Expr, df: Df, stop: int, n: int)
    requires
        0 <= n <= expr_children(e).len(),
    ensures
        children_tuned(e, df, stop, n).len() == n,
        forall|i: int|
            0 <= i < n ==> #[trigger] children_tuned(e, df, stop, n)[i] == tuned(
                expr_children(e)[i],
                df,
                stop,
            ),
    decreases n,
{
    if n > 0 {
        lemma_children_tuned(e, df, stop, n - 1);
    }
}

proof fn lemma_placed_members<A>(s: Seq<A>, x: A, rank: spec_fn(A) -> int)
    ensures
        placed(s, x, rank).len() == s.len() + 1,
        forall|y: A| #[trigger] placed(s, x, rank).contains(y) <==> s.contains(y) || y == x,
    decreases s.len(),
{
    let p = placed(s, x, rank);
    if s.len() == 0 || rank(s.last()) <= rank(x) {
        assert forall|y: A| #[trigger] p.contains(y) <==> s.contains(y) || y == x by {
            lemma_push_member(s, x, y);
        }
    } else {
        let h = s.drop_last();
        lemma_placed_members(h, x, rank);
        assert(s =~= h.push(s.last()));
        assert forall|y: A| #[trigger] p.contains(y) <==> s.contains(y) || y == x by {
            lemma_push_member(placed(h, x, rank), s.last(), y);
            lemma_push_member(h, s.last(), y);
        }
    }
}

pub proof fn lemma_push_member<A>(s: Seq<A>, x: A, y: A)
    ensures
        s.push(x).contains(y) <==> s.contains(y) || y == x,
{
    let p = s.push(x);
    if p.contains(y) {
        let n = choose|n: int| 0 <= n < p.len() && p[n] == y;
        if n < s.len() {
            assert(s[n] == y);
        }
    }
    if s.contains(y) {
        let n = choose|n: int| 0 <= n < s.len() && s[n] == y;
        assert(p[n] == y);
    }
    if y == x {
        assert(p[s.len() as int] == y);
    }
}

pub proof fn lemma_ranked_members<A>(s: Seq<A>, rank: spec_fn(A) -> int)
    ensures
        ranked(s, rank).len() == s.len(),
        forall|y: A| #[trigger] ranked(s, rank).contains(y) <==> s.contains(y),
    decreases s.len(),
{
    if s.len() > 0 {
        let h = s.drop_last();
        lemma_ranked_members(h, rank);
        lemma_placed_members(ranked(h, rank), s.last(), rank);
        assert(s =~= h.push(s.last()));
        assert forall|y: A| #[trigger] ranked(s, rank).contains(y) <==> s.contains(y) by {
            lemma_push_member(h, s.last(), y);
        }
    }
}

proof fn lemma_placed_order<A>(s: Seq<A>, x: A, rank: spec_fn(A) -> int)
    requires
        forall|i: int, j: int| 0 <= i < j < s.len() ==> rank(#[trigger] s[i]) <= rank(#[trigger] s[j]),
    ensures
        forall|i: int, j: int|
            0 <= i < j < placed(s, x, rank).len() ==> rank(#[trigger] placed(s, x, rank)[i]) <= rank(
                #[trigger] placed(s, x, rank)[j],
            ),
    decreases s.len(),
{
    let p = placed(s, x, rank);
    if s.len() == 0 || rank(s.last()) <= rank(x) {
        assert forall|i: int, j: int| 0 <= i < j < p.len() implies rank(#[trigger] p[i]) <= rank(
            #[trigger] p[j],
        ) by {
            if j == s.len() {
                assert(rank(s[i]) <= rank(s[s.len() - 1]));
            }
        }
    } else {
        let h = s.drop_last();
        let q = placed(h, x, rank);
        lemma_placed_order(h, x, rank);
        lemma_placed_members(h, x, rank);
        assert forall|i: int, j: int| 0 <= i < j < p.len() implies rank(#[trigger] p[i]) <= rank(
            #[trigger] p[j],
        ) by {
            if j == q.len() {
                assert(q.contains(q[i]));
                if h.contains(q[i]) {
                    let n = choose|n: int| 0 <= n < h.len() && h[n] == q[i];
                    assert(rank(s[n]) <= rank(s[s.len() - 1]));
                }
            } else {
                assert(rank(q[i]) <= rank(q[j]));
            }
        }
    }
}

/// Ranking sorts.
pub proof fn lemma_ranked_order<A>(s: Seq<A>, rank: spec_fn(A) -> int)
    ensures
        forall|i: int, j: int|
            0 <= i < j < ranked(s, rank).len() ==> rank(#[trigger] ranked(s, rank)[i]) <= rank(
                #[trigger] ranked(s, rank)[j],
            ),
    decreases s.len(),
{
    if s.len() > 0 {
        lemma_ranked_order(s.drop_last(), rank);
        lemma_placed_order(ranked(s.drop_last(), rank), s.last(), rank);
    }
}

proof fn lemma_key_runs_members(s: Seq<GramKey>)
    ensures
        forall|y: GramKey| #[trigger] key_runs(s).contains(y) <==> s.contains(y),
    decreases s.len(),
{
    if s.len() > 1 {
        let h = s.drop_last();
        lemma_key_runs_members(h);
        assert(s =~= h.push(s.last()));
        assert forall|y: GramKey| #[trigger] key_runs(s).contains(y) <==> s.contains(y) by {
            lemma_push_member(h, s.last(), y);
            lemma_push_member(key_runs(h), s.last(), y);
            if s[s.len() - 1] == s[s.len() - 2] {
                assert(h[s.len() - 2] == s.last());
                assert(h.contains(s.last()));
            }
        }
    }
}

/// Reordering the keys of a needle changes nothing of what it asks.
proof fn lemma_needle_tuned(n: Needle, df: Df, ix: Index)
    ensures
        needle_holds(needle_tuned(n, df), ix) == needle_holds(n, ix),
{
    let keys = needle_keys(n);
    let rank = key_rank(df);
    lemma_ranked_members(keys, rank);
    lemma_key_runs_members(ranked(keys, rank));
    let sorted = keys_tuned(keys, df);
    assert forall|y: GramKey| #[trigger] sorted.contains(y) <==> keys.contains(y) by {
        assert(ranked(keys, rank).contains(y) <==> keys.contains(y));
    }
    lemma_same_keys(keys, sorted, ix);
    match n {
        Needle::Key(_) => {},
        Needle::AnyKey(_) => {},
        Needle::AtWordEdge { keys: _, starts, ends, whole } => {
            lemma_same_word_edges(keys, sorted, starts, ends, whole, ix);
        },
        Needle::AtLineEdge { keys: _, starts, ends } => {
            lemma_same_line_edges(keys, sorted, starts, ends, ix);
        },
    }
}

proof fn lemma_same_keys(a: Seq<GramKey>, b: Seq<GramKey>, ix: Index)
    requires
        forall|y: GramKey| #[trigger] b.contains(y) <==> a.contains(y),
    ensures
        some_key(a, ix) == some_key(b, ix),
{
    if some_key(a, ix) {
        let k = choose|k: GramKey| #[trigger] a.contains(k) && (ix.key)(k);
        assert(b.contains(k) && (ix.key)(k));
    }
    if some_key(b, ix) {
        let k = choose|k: GramKey| #[trigger] b.contains(k) && (ix.key)(k);
        assert(a.contains(k) && (ix.key)(k));
    }
}

proof fn lemma_same_word_edges(
    a: Seq<GramKey>,
    b: Seq<GramKey>,
    starts: bool,
    ends: bool,
    whole: bool,
    ix: Index,
)
    requires
        forall|y: GramKey| #[trigger] b.contains(y) <==> a.contains(y),
    ensures
        some_word_edge(a, starts, ends, whole, ix) == some_word_edge(b, starts, ends, whole, ix),
{
    if some_word_edge(a, starts, ends, whole, ix) {
        let k = choose|k: GramKey| #[trigger]
            a.contains(k) && (ix.word_edge)(k, starts, ends, whole);
        assert(b.contains(k) && (ix.word_edge)(k, starts, ends, whole));
    }
    if some_word_edge(b, starts, ends, whole, ix) {
        let k = choose|k: GramKey| #[trigger]
            b.contains(k) && (ix.word_edge)(k, starts, ends, whole);
        assert(a.contains(k) && (ix.word_edge)(k, starts, ends, whole));
    }
}

proof fn lemma_same_line_edges(
    a: Seq<GramKey>,
    b: Seq<GramKey>,
    starts: bool,
    ends: bool,
    ix: Index,
)
    requires
        forall|y: GramKey| #[trigger] b.contains(y) <==> a.contains(y),
    ensures
        some_line_edge(a, starts, ends, ix) == some_line_edge(b, starts, ends, ix),
{
    if some_line_edge(a, starts, ends, ix) {
        let k = choose|k: GramKey| #[trigger] a.contains(k) && (ix.line_edge)(k, starts, ends);
        assert(b.contains(k) && (ix.line_edge)(k, starts, ends));
    }
    if some_line_edge(b, starts, ends, ix) {
        let k = choose|k: GramKey| #[trigger] b.contains(k) && (ix.line_edge)(k, starts, ends);
        assert(a.contains(k) && (ix.line_edge)(k, starts, ends));
    }
}

pub proof fn lemma_retained_members(
    grams: Seq<Needle>,
    n: int,
    keep_first: bool,
    df: Df,
    stop: int,
    x: Needle,
)
    requires
        0 <= n <= grams.len(),
        retained_upto(grams, n, keep_first, df, stop).contains(x),
    ensures
        grams.contains(x),
    decreases n,
{
    if n > 0 {
        let h = retained_upto(grams, n - 1, keep_first, df, stop);
        lemma_push_member(h, grams[n - 1], x);
        if h.contains(x) {
            lemma_retained_members(grams, n - 1, keep_first, df, stop, x);
        } else {
            assert(grams[n - 1] == x);
        }
    }
}

pub proof fn lemma_strong_members(children: Seq<Expr>, df: Df, stop: int, x: Expr)
    requires
        strong(children, df, stop).contains(x),
    ensures
        children.contains(x),
    decreases children.len(),
{
    if children.len() > 0 {
        let h = children.drop_last();
        assert(children =~= h.push(children.last()));
        lemma_push_member(strong(h, df, stop), children.last(), x);
        lemma_push_member(h, children.last(), x);
        if strong(h, df, stop).contains(x) {
            lemma_strong_members(h, df, stop, x);
        }
    }
}

/// The sorted needles ask what the needles do.
proof fn lemma_sorted_needles(grams: Seq<Needle>, df: Df, ix: Index)
    ensures
        grams_sorted(grams, df).len() == grams.len(),
        all_needles_hold(grams, ix) ==> all_needles_hold(grams_sorted(grams, df), ix),
        some_needle_holds(grams, ix) ==> some_needle_holds(grams_sorted(grams, df), ix),
{
    let each = needles_tuned(grams, df);
    let sorted = grams_sorted(grams, df);
    lemma_ranked_members(each, needle_rank(df));
    if all_needles_hold(grams, ix) {
        assert forall|i: int| 0 <= i < sorted.len() implies needle_holds(
            #[trigger] sorted[i],
            ix,
        ) by {
            assert(sorted.contains(sorted[i]));
            assert(each.contains(sorted[i]));
            let j = choose|j: int| 0 <= j < each.len() && each[j] == sorted[i];
            lemma_needle_tuned(grams[j], df, ix);
            assert(needle_holds(grams[j], ix));
        }
    }
    if some_needle_holds(grams, ix) {
        let i = choose|i: int| 0 <= i < grams.len() && needle_holds(#[trigger] grams[i], ix);
        lemma_needle_tuned(grams[i], df, ix);
        assert(each[i] == needle_tuned(grams[i], df));
        assert(each.contains(each[i]));
        assert(sorted.contains(each[i]));
        let j = choose|j: int| 0 <= j < sorted.len() && sorted[j] == each[i];
        assert(needle_holds(sorted[j], ix));
    }
}

proof fn lemma_retained_hold(
    grams: Seq<Needle>,
    n: int,
    keep_first: bool,
    df: Df,
    stop: int,
    ix: Index,
)
    requires
        0 <= n <= grams.len(),
        all_needles_hold(grams, ix),
    ensures
        all_needles_hold(retained_upto(grams, n, keep_first, df, stop), ix),
{
    let kept = retained_upto(grams, n, keep_first, df, stop);
    assert forall|i: int| 0 <= i < kept.len() implies needle_holds(#[trigger] kept[i], ix) by {
        assert(kept.contains(kept[i]));
        lemma_retained_members(grams, n, keep_first, df, stop, kept[i]);
        let j = choose|j: int| 0 <= j < grams.len() && grams[j] == kept[i];
        assert(needle_holds(grams[j], ix));
    }
}

/// A conjunction holds where all its parts do.
proof fn lemma_all_of(e: Expr, ix: Index)
    requires
        e matches Expr::AllOf { grams, needs, children } && all_needles_hold(grams, ix)
            && all_needs_hold(needs, ix) && (forall|i: int|
            0 <= i < children.len() ==> expr_holds(#[trigger] children[i], ix)),
    ensures
        expr_holds(e, ix),
{
}

/// A disjunction holds where one of its parts does.
proof fn lemma_any_of(e: Expr, i: int, ix: Index)
    requires
        e matches Expr::AnyOf { grams, needs, children } && (some_needle_holds(grams, ix)
            || some_need_holds(needs, ix) || (0 <= i < children.len() && expr_holds(
            children[i],
            ix,
        ))),
    ensures
        expr_holds(e, ix),
{
}

/// Tuning never loses a document: whatever satisfies a plan satisfies the
/// tuned plan.
pub proof fn law_tuning_only_widens(e: Expr, df: Df, stop: int, ix: Index)
    requires
        expr_holds(e, ix),
    ensures
        expr_holds(tuned(e, df, stop), ix),
    decreases e,
{
    match e {
        Expr::AllOf { grams, needs, children } => {
            let n = grams.len() as int;
            lemma_sorted_needles(grams, df, ix);
            lemma_retained_hold(grams_sorted(grams, df), n, children.len() == 0, df, stop, ix);
            let kept = retained_upto(grams_sorted(grams, df), n, children.len() == 0, df, stop);
            let below = children_tuned(e, df, stop, children.len() as int);
            lemma_children_tuned(e, df, stop, children.len() as int);
            assert forall|i: int| 0 <= i < below.len() implies expr_holds(
                #[trigger] below[i],
                ix,
            ) by {
                assert(expr_holds(children[i], ix));
                law_tuning_only_widens(children[i], df, stop, ix);
            }
            let rest = without_weak(kept, below, df, stop);
            assert forall|i: int| 0 <= i < rest.len() implies expr_holds(#[trigger] rest[i], ix) by {
                if kept.len() + strong(below, df, stop).len() != 0 {
                    assert(strong(below, df, stop).contains(rest[i]));
                    lemma_strong_members(below, df, stop, rest[i]);
                    let j = choose|j: int| 0 <= j < below.len() && below[j] == rest[i];
                    assert(expr_holds(below[j], ix));
                }
            }
            let goal = Expr::AllOf { grams: kept, needs, children: rest };
            lemma_all_of(goal, ix);
            assert(tuned(e, df, stop) == goal);
        },
        Expr::AnyOf { grams, needs, children } => {
            lemma_sorted_needles(grams, df, ix);
            let below = children_tuned(e, df, stop, children.len() as int);
            lemma_children_tuned(e, df, stop, children.len() as int);
            let goal = Expr::AnyOf { grams: grams_sorted(grams, df), needs, children: below };
            assert(tuned(e, df, stop) == goal);
            if some_needle_holds(grams, ix) || some_need_holds(needs, ix) {
                lemma_any_of(goal, 0, ix);
            } else {
                let i = choose|i: int|
                    0 <= i < children.len() && expr_holds(#[trigger] children[i], ix);
                law_tuning_only_widens(children[i], df, stop, ix);
                assert(expr_holds(below[i], ix));
                lemma_any_of(goal, i, ix);
            }
        },
        _ => {},
    }
}

/// A position found from the back is where the item is placed.
pub proof fn lemma_placed_at<A>(s: Seq<A>, x: A, rank: spec_fn(A) -> int, pos: int)
    requires
        0 <= pos <= s.len(),
        forall|i: int| pos <= i < s.len() ==> rank(#[trigger] s[i]) > rank(x),
        pos > 0 ==> rank(s[pos - 1]) <= rank(x),
    ensures
        placed(s, x, rank) == s.insert(pos, x),
    decreases s.len(),
{
    if pos == s.len() {
        assert(s.insert(pos, x) =~= s.push(x));
    } else {
        let h = s.drop_last();
        assert(rank(s[s.len() - 1]) > rank(x));
        lemma_placed_at(h, x, rank, pos);
        assert(s.insert(pos, x) =~= h.insert(pos, x).push(s.last()));
    }
}

/// The items in the opposite order.
fn reversed<T>(items: Vec<T>) -> (out: Vec<T>)
    ensures
        out@ == items@.reverse(),
{
    let ghost all = items@;
    let mut items = items;
    let mut out: Vec<T> = Vec::new();
    while items.len() > 0
        invariant
            items@.len() + out@.len() == all.len(),
            forall|i: int| 0 <= i < items@.len() ==> items@[i] == all[i],
            forall|i: int| 0 <= i < out@.len() ==> #[trigger] out@[i] == all[all.len() - 1 - i],
        decreases items@.len(),
    {
        if let Some(x) = items.pop() {
            out.push(x);
        }
    }
    assert(out@ =~= all.reverse());
    out
}

/// The keys by frequency, neighbours that are equal once.
fn sort_keys(keys: &Vec<GramKey>, df: &DfSnapshot) -> (out: Vec<GramKey>)
    ensures
        out@ == keys_tuned(keys@, df@),
{
    let ghost rank = key_rank(df@);
    let mut sorted: Vec<GramKey> = Vec::new();
    let mut counts: Vec<u64> = Vec::new();
    let mut i: usize = 0;
    while i < keys.len()
        invariant
            i <= keys@.len(),
            rank == key_rank(df@),
            sorted@ == ranked(keys@.take(i as int), rank),
            counts@.len() == sorted@.len(),
            forall|k: int| 0 <= k < sorted@.len() ==> (#[trigger] counts@[k]) == (df@.count)(sorted@[k]),
        decreases keys@.len() - i,
    {
        let key = keys[i];
        let count: u64 = df.count(key);
        let mut pos: usize = sorted.len();
        while pos > 0 && counts[pos - 1] > count
            invariant
                pos <= sorted@.len() == counts@.len(),
                forall|k: int|
                    0 <= k < sorted@.len() ==> (#[trigger] counts@[k]) == (df@.count)(sorted@[k]),
                forall|k: int| pos <= k < sorted@.len() ==> (#[trigger] counts@[k]) > count,
            decreases pos,
        {
            pos = pos - 1;
        }
        proof {
            assert forall|k: int| pos <= k < sorted@.len() implies rank(#[trigger] sorted@[k])
                > rank(key) by {
                assert(counts@[k] > count);
            }
            lemma_placed_at(sorted@, key, rank, pos as int);
            assert(keys@.take(i + 1).drop_last() =~= keys@.take(i as int));
        }
        sorted.insert(pos, key);
        counts.insert(pos, count);
        i = i + 1;
    }
    assert(keys@.take(i as int) =~= keys@);
    dedup_keys(&sorted)
}

/// Drop each key equal to its left neighbour.
fn dedup_keys(keys: &Vec<GramKey>) -> (out: Vec<GramKey>)
    ensures
        out@ == key_runs(keys@),
{
    let mut out: Vec<GramKey> = Vec::new();
    let mut i: usize = 0;
    assert(out@ =~= key_runs(keys@.take(0)));
    while i < keys.len()
        invariant
            i <= keys@.len(),
            out@ == key_runs(keys@.take(i as int)),
        decreases keys@.len() - i,
    {
        let ghost seen = keys@.take(i + 1);
        assert(seen.drop_last() =~= keys@.take(i as int));
        if i == 0 {
            assert(out@ =~= Seq::<GramKey>::empty());
            out.push(keys[i]);
            assert(out@ =~= seen);
        } else {
            assert(seen[i as int] == keys@[i as int] && seen[i - 1] == keys@[i - 1]);
            if keys[i] != keys[i - 1] {
                out.push(keys[i]);
            }
        }
        i = i + 1;
    }
    assert(keys@.take(i as int) =~= keys@);
    out
}

impl GramNeedle {
    /// Most entries this needle can select.
    pub fn estimate_candidates(&self, df: &DfSnapshot) -> (n: u64)
        ensures
            n == estimate(self@, df@),
    {
        let keys = self.keys();
        let mut sum: u64 = 0;
        let mut i: usize = 0;
        while i < keys.len()
            invariant
                i <= keys@.len(),
                count_sum(keys@.take(i as int), df@) >= 0,
                sum == clamp_u64(count_sum(keys@.take(i as int), df@)),
            decreases keys@.len() - i,
        {
            assert(keys@.take(i + 1).drop_last() =~= keys@.take(i as int));
            sum = add_to_max_u64(sum, df.count(keys[i]));
            i = i + 1;
        }
        assert(keys@.take(i as int) =~= keys@);
        if sum < df.total {
            sum
        } else {
            df.total
        }
    }

    /// This needle with its keys by frequency.
    fn sort_keys_by_df(self, df: &DfSnapshot) -> (n: GramNeedle)
        ensures
            n@ == needle_tuned(self@, df@),
    {
        match self {
            GramNeedle::Key(key) => GramNeedle::Key(key),
            GramNeedle::AnyKey(keys) => GramNeedle::AnyKey(sort_keys(&keys, df)),
            GramNeedle::AtWordEdge { keys, starts, ends, whole } => GramNeedle::AtWordEdge {
                keys: sort_keys(&keys, df),
                starts,
                ends,
                whole,
            },
            GramNeedle::AtLineEdge { keys, starts, ends } => GramNeedle::AtLineEdge {
                keys: sort_keys(&keys, df),
                starts,
                ends,
            },
        }
    }
}

/// The trees of a list of expressions.
pub open spec fn exprs(children: Seq<PlanExpr>) -> Seq<Expr> {
    Seq::new(children.len(), |i: int| children[i].expr())
}

impl PlanExpr {
    /// Sort the needles by estimate, and their keys by frequency.
    fn sort_grams_by_df(grams: Vec<GramNeedle>, df: &DfSnapshot) -> (out: Vec<GramNeedle>)
        ensures
            needles(out@) == grams_sorted(needles(grams@), df@),
    {
        let ghost all = needles_tuned(needles(grams@), df@);
        let ghost rank = needle_rank(df@);
        let n: usize = grams.len();
        let mut rest = reversed(grams);
        let ghost turned = rest@;
        let mut out: Vec<GramNeedle> = Vec::new();
        let mut marks: Vec<u64> = Vec::new();
        let mut i: usize = 0;
        assert(needles(out@) =~= ranked(all.take(0), rank));
        while i < n
            invariant
                i <= n,
                n == grams@.len() == all.len() == turned.len(),
                all == needles_tuned(needles(grams@), df@),
                rank == needle_rank(df@),
                turned == grams@.reverse(),
                rest@.len() == n - i,
                forall|k: int| 0 <= k < rest@.len() ==> rest@[k] == turned[k],
                needles(out@) == ranked(all.take(i as int), rank),
                marks@.len() == out@.len(),
                forall|k: int|
                    0 <= k < out@.len() ==> (#[trigger] marks@[k]) == estimate(out@[k]@, df@),
            decreases n - i,
        {
            if let Some(raw) = rest.pop() {
                assert(turned[n - i - 1] == grams@[i as int]);
                assert(raw == grams@[i as int]);
                let needle = raw.sort_keys_by_df(df);
                assert(needle@ == all[i as int]);
                let mark: u64 = needle.estimate_candidates(df);
                let mut pos: usize = out.len();
                while pos > 0 && marks[pos - 1] > mark
                    invariant
                        pos <= out@.len() == marks@.len(),
                        forall|k: int| pos <= k < out@.len() ==> (#[trigger] marks@[k]) > mark,
                    decreases pos,
                {
                    pos = pos - 1;
                }
                let ghost prior = needles(out@);
                proof {
                    assert forall|k: int| pos <= k < prior.len() implies rank(#[trigger] prior[k])
                        > rank(needle@) by {
                        assert(marks@[k] > mark);
                    }
                    if pos > 0 {
                        assert(marks@[pos - 1] == estimate(out@[pos - 1]@, df@));
                        assert(prior[pos - 1] == out@[pos - 1]@);
                    }
                    lemma_placed_at(prior, needle@, rank, pos as int);
                    assert(all.take(i + 1).drop_last() =~= all.take(i as int));
                }
                let ghost before_insert = out@;
                let ghost before_marks = marks@;
                out.insert(pos, needle);
                marks.insert(pos, mark);
                assert(needles(out@) =~= prior.insert(pos as int, needle@));
                assert forall|k: int| 0 <= k < out@.len() implies (#[trigger] marks@[k])
                    == estimate(out@[k]@, df@) by {
                    if k < pos {
                        assert(before_marks[k] == estimate(before_insert[k]@, df@));
                    } else if k > pos {
                        assert(before_marks[k - 1] == estimate(before_insert[k - 1]@, df@));
                    }
                }
            }
            i = i + 1;
        }
        assert(all.take(i as int) =~= all);
        out
    }

    /// Keep the selective needles, up to the cap.
    fn retain_selective_grams(
        grams: Vec<GramNeedle>,
        keep_first: bool,
        df: &DfSnapshot,
        stop_df: u64,
    ) -> (out: Vec<GramNeedle>)
        ensures
            needles(out@) == retained_upto(
                needles(grams@),
                grams@.len() as int,
                keep_first,
                df@,
                stop_df as int,
            ),
    {
        let ghost all = needles(grams@);
        let n: usize = grams.len();
        let mut rest = reversed(grams);
        let ghost turned = rest@;
        let mut out: Vec<GramNeedle> = Vec::new();
        let mut i: usize = 0;
        assert(needles(out@) =~= Seq::<Needle>::empty());
        while i < n
            invariant
                i <= n,
                n == grams@.len() == all.len() == turned.len(),
                all == needles(grams@),
                turned == grams@.reverse(),
                rest@.len() == n - i,
                forall|k: int| 0 <= k < rest@.len() ==> rest@[k] == turned[k],
                needles(out@) == retained_upto(all, i as int, keep_first, df@, stop_df as int),
            decreases n - i,
        {
            if let Some(needle) = rest.pop() {
                assert(turned[n - i - 1] == grams@[i as int]);
                assert(needle == grams@[i as int]);
                assert(needle@ == all[i as int]);
                let ghost prior = needles(out@);
                let selective = needle.estimate_candidates(df) < stop_df;
                if ((keep_first && i == 0) || selective) && i < MAX_ALL_OF_GRAMS {
                    out.push(needle);
                    assert(needles(out@) =~= prior.push(all[i as int]));
                }
            }
            i = i + 1;
        }
        out
    }

    /// Whether a bag of grams is together not selective.
    fn is_weak_bag(expr: &PlanExpr, df: &DfSnapshot, stop_df: u64) -> (weak: bool)
        ensures
            weak == is_weak(expr.expr(), df@, stop_df as int),
    {
        match expr {
            PlanExpr::AnyOf { grams, needs, children } => {
                if needs.len() != 0 || children.len() != 0 {
                    return false;
                }
                let ghost all = needles(grams@);
                let mut sum: u64 = 0;
                let mut i: usize = 0;
                while i < grams.len()
                    invariant
                        i <= grams@.len(),
                        all == needles(grams@),
                        estimate_sum(all.take(i as int), df@) >= 0,
                        sum == clamp_u64(estimate_sum(all.take(i as int), df@)),
                    decreases grams@.len() - i,
                {
                    assert(all.take(i + 1).drop_last() =~= all.take(i as int));
                    sum = add_to_max_u64(sum, grams[i].estimate_candidates(df));
                    i = i + 1;
                }
                assert(all.take(i as int) =~= all);
                sum >= stop_df
            },
            _ => false,
        }
    }

    /// Drop weak gram bags when a stronger sibling remains.
    fn drop_weak_bags(
        grams: &Vec<GramNeedle>,
        children: Vec<PlanExpr>,
        df: &DfSnapshot,
        stop_df: u64,
    ) -> (out: Vec<PlanExpr>)
        ensures
            exprs(out@) == without_weak(
                needles(grams@),
                exprs(children@),
                df@,
                stop_df as int,
            ),
    {
        let ghost all = exprs(children@);
        let mut any_strong = false;
        let mut i: usize = 0;
        while i < children.len()
            invariant
                i <= children@.len(),
                all == exprs(children@),
                any_strong == (strong(all.take(i as int), df@, stop_df as int).len() > 0),
            decreases children@.len() - i,
        {
            assert(all.take(i + 1).drop_last() =~= all.take(i as int));
            if !PlanExpr::is_weak_bag(&children[i], df, stop_df) {
                any_strong = true;
            }
            i = i + 1;
        }
        assert(all.take(i as int) =~= all);
        if grams.len() == 0 && !any_strong {
            return children;
        }
        let n: usize = children.len();
        let mut rest = reversed(children);
        let ghost turned = rest@;
        let mut out: Vec<PlanExpr> = Vec::new();
        let mut j: usize = 0;
        assert(exprs(out@) =~= strong(all.take(0), df@, stop_df as int));
        while j < n
            invariant
                j <= n,
                n == children@.len() == all.len() == turned.len(),
                all == exprs(children@),
                turned == children@.reverse(),
                rest@.len() == n - j,
                forall|k: int| 0 <= k < rest@.len() ==> rest@[k] == turned[k],
                exprs(out@) == strong(all.take(j as int), df@, stop_df as int),
            decreases n - j,
        {
            assert(all.take(j + 1).drop_last() =~= all.take(j as int));
            if let Some(child) = rest.pop() {
                assert(turned[n - j - 1] == children@[j as int]);
                assert(child == children@[j as int]);
                let ghost prior = exprs(out@);
                if !PlanExpr::is_weak_bag(&child, df, stop_df) {
                    out.push(child);
                    assert(exprs(out@) =~= prior.push(child.expr()));
                }
            }
            j = j + 1;
        }
        assert(all.take(j as int) =~= all);
        out
    }

    /// Reorder and thin the expression by df.
    fn tune(self, df: &DfSnapshot, stop_df: u64) -> (e: PlanExpr)
        ensures
            e.expr() == tuned(self.expr(), df@, stop_df as int),
        decreases self,
    {
        let ghost whole = self;
        match self {
            PlanExpr::All => PlanExpr::All,
            PlanExpr::Nothing => PlanExpr::Nothing,
            PlanExpr::AllOf { grams, needs, children } => {
                let keep_first = children.len() == 0;
                proof {
                    lemma_ranked_members(
                        needles_tuned(needles(grams@), df@),
                        needle_rank(df@),
                    );
                }
                let grams = PlanExpr::sort_grams_by_df(grams, df);
                let grams = PlanExpr::retain_selective_grams(grams, keep_first, df, stop_df);
                let ghost inner = children@;
                let n: usize = children.len();
                let mut rest = reversed(children);
                let ghost turned = rest@;
                let mut out: Vec<PlanExpr> = Vec::new();
                let mut i: usize = 0;
                while i < n
                    invariant
                        i <= n,
                        n == inner.len() == turned.len(),
                        turned == inner.reverse(),
                        whole matches PlanExpr::AllOf { grams: _, needs: _, children: c } && c@ == inner,
                        whole == self,
                        rest@.len() == n - i,
                        forall|k: int| 0 <= k < rest@.len() ==> rest@[k] == turned[k],
                        out@.len() == i,
                        forall|k: int|
                            0 <= k < i ==> (#[trigger] out@[k]).expr() == tuned(
                                inner[k].expr(),
                                df@,
                                stop_df as int,
                            ),
                    decreases n - i,
                {
                    if let Some(child) = rest.pop() {
                        assert(turned[n - i - 1] == inner[i as int]);
                        assert(child == inner[i as int]);
                        out.push(child.tune(df, stop_df));
                    }
                    i = i + 1;
                }
                let ghost below = exprs(out@);
                let children = PlanExpr::drop_weak_bags(&grams, out, df, stop_df);
                let e = PlanExpr::AllOf { grams, needs, children };
                proof {
                    let model = whole.expr();
                    lemma_children_tuned(model, df@, stop_df as int, inner.len() as int);
                    assert(below =~= children_tuned(
                        model,
                        df@,
                        stop_df as int,
                        inner.len() as int,
                    ));
                    assert(expr_children(e.expr()) =~= exprs(children@));
                }
                e
            },
            PlanExpr::AnyOf { grams, needs, children } => {
                let grams = PlanExpr::sort_grams_by_df(grams, df);
                let ghost inner = children@;
                let n: usize = children.len();
                let mut rest = reversed(children);
                let ghost turned = rest@;
                let mut out: Vec<PlanExpr> = Vec::new();
                let mut i: usize = 0;
                while i < n
                    invariant
                        i <= n,
                        n == inner.len() == turned.len(),
                        turned == inner.reverse(),
                        whole matches PlanExpr::AnyOf { grams: _, needs: _, children: c } && c@ == inner,
                        whole == self,
                        rest@.len() == n - i,
                        forall|k: int| 0 <= k < rest@.len() ==> rest@[k] == turned[k],
                        out@.len() == i,
                        forall|k: int|
                            0 <= k < i ==> (#[trigger] out@[k]).expr() == tuned(
                                inner[k].expr(),
                                df@,
                                stop_df as int,
                            ),
                    decreases n - i,
                {
                    if let Some(child) = rest.pop() {
                        assert(turned[n - i - 1] == inner[i as int]);
                        assert(child == inner[i as int]);
                        out.push(child.tune(df, stop_df));
                    }
                    i = i + 1;
                }
                let e = PlanExpr::AnyOf { grams, needs, children: out };
                proof {
                    let model = whole.expr();
                    lemma_children_tuned(model, df@, stop_df as int, inner.len() as int);
                    assert(expr_children(e.expr()) =~= children_tuned(
                        model,
                        df@,
                        stop_df as int,
                        inner.len() as int,
                    ));
                }
                e
            },
        }
    }

    /// The keys of every needle in the tree, in order.
    fn collect_keys(&self, keys: &mut Vec<GramKey>)
        ensures
            final(keys)@ == old(keys)@ + expr_keys(self.expr()),
        decreases self,
    {
        let ghost e = self.expr();
        let ghost start = keys@;
        match self {
            PlanExpr::All => {
                assert(keys@ =~= start + expr_keys(e));
            },
            PlanExpr::Nothing => {
                assert(keys@ =~= start + expr_keys(e));
            },
            PlanExpr::AllOf { grams, needs: _, children } => {
                PlanExpr::collect_needle_keys(grams, keys);
                let ghost own = all_keys(needles(grams@), grams@.len() as int);
                let mut i: usize = 0;
                assert(keys@ =~= start + own + children_keys(e, 0));
                while i < children.len()
                    invariant
                        i <= children@.len(),
                        self matches PlanExpr::AllOf { grams: _, needs: _, children: c } && c == children,
                        e == self.expr(),
                        keys@ == start + own + children_keys(e, i as int),
                    decreases children@.len() - i,
                {
                    children[i].collect_keys(keys);
                    assert(expr_children(e)[i as int] == children@[i as int].expr());
                    i = i + 1;
                    assert(keys@ =~= start + own + children_keys(e, i as int));
                }
                assert(keys@ =~= start + expr_keys(e));
            },
            PlanExpr::AnyOf { grams, needs: _, children } => {
                PlanExpr::collect_needle_keys(grams, keys);
                let ghost own = all_keys(needles(grams@), grams@.len() as int);
                let mut i: usize = 0;
                assert(keys@ =~= start + own + children_keys(e, 0));
                while i < children.len()
                    invariant
                        i <= children@.len(),
                        self matches PlanExpr::AnyOf { grams: _, needs: _, children: c } && c == children,
                        e == self.expr(),
                        keys@ == start + own + children_keys(e, i as int),
                    decreases children@.len() - i,
                {
                    children[i].collect_keys(keys);
                    assert(expr_children(e)[i as int] == children@[i as int].expr());
                    i = i + 1;
                    assert(keys@ =~= start + own + children_keys(e, i as int));
                }
                assert(keys@ =~= start + expr_keys(e));
            },
        }
    }

    fn collect_needle_keys(grams: &Vec<GramNeedle>, keys: &mut Vec<GramKey>)
        ensures
            final(keys)@ == old(keys)@ + all_keys(needles(grams@), grams@.len() as int),
    {
        let ghost start = keys@;
        let ghost all = needles(grams@);
        let mut i: usize = 0;
        assert(keys@ =~= start + all_keys(all, 0));
        while i < grams.len()
            invariant
                i <= grams@.len(),
                all == needles(grams@),
                keys@ == start + all_keys(all, i as int),
            decreases grams@.len() - i,
        {
            let mut more = grams[i].keys();
            keys.append(&mut more);
            i = i + 1;
            assert(keys@ =~= start + all_keys(all, i as int));
        }
    }
}

/// The keys of the first `n` needles.
pub open spec fn all_keys(grams: Seq<Needle>, n: int) -> Seq<GramKey>
    decreases n,
{
    if n <= 0 || n > grams.len() {
        Seq::empty()
    } else {
        all_keys(grams, n - 1) + needle_keys(grams[n - 1])
    }
}

/// The keys of every needle in the tree, in order.
pub open spec fn expr_keys(e: Expr) -> Seq<GramKey>
    decreases e, expr_children(e).len() + 1,
{
    match e {
        Expr::AllOf { grams, needs, children } => all_keys(grams, grams.len() as int)
            + children_keys(e, children.len() as int),
        Expr::AnyOf { grams, needs, children } => all_keys(grams, grams.len() as int)
            + children_keys(e, children.len() as int),
        _ => Seq::empty(),
    }
}

/// The keys in the first `n` nested expressions.
pub open spec fn children_keys(e: Expr, n: int) -> Seq<GramKey>
    decreases e, n,
{
    match e {
        Expr::AllOf { grams, needs, children } => if n <= 0 || n > children.len() {
            Seq::empty()
        } else {
            children_keys(e, n - 1) + expr_keys(children[n - 1])
        },
        Expr::AnyOf { grams, needs, children } => if n <= 0 || n > children.len() {
            Seq::empty()
        } else {
            children_keys(e, n - 1) + expr_keys(children[n - 1])
        },
        _ => Seq::empty(),
    }
}

/// The snapshot holds a frequency for each of the keys, in their order.
pub open spec fn asks_for(snapshot: DfSnapshot, keys: Seq<GramKey>) -> bool {
    &&& snapshot.counts@.len() == keys.len()
    &&& forall|i: int| 0 <= i < keys.len() ==> (#[trigger] snapshot.counts@[i]).0 == keys[i]
}

/// Each frequency of the snapshot is an answer of `df` for its key, and the
/// total is its answer for all entries.
pub open spec fn answered<D: DfStats>(df: &D, snapshot: DfSnapshot) -> bool {
    &&& forall|i: int|
        0 <= i < snapshot.counts@.len() ==> call_ensures(
            D::entry_count,
            (df, (#[trigger] snapshot.counts@[i]).0),
            snapshot.counts@[i].1,
        )
    &&& call_ensures(D::total_entries, (df,), snapshot.total)
}

impl QueryPlan {
    /// Reorder and thin the plan by df: it is asked for the frequency of each
    /// key of the plan, and the plan is tuned by its answers.
    pub fn tune<D: DfStats>(&mut self, df: &D, stop_df: u64)
        ensures
            exists|answers: DfSnapshot| #[trigger]
                asks_for(answers, expr_keys(old(self)@)) && answered(df, answers) && final(self)@
                    == tuned(
                    old(self)@,
                    answers@,
                    stop_df as int,
                ),
    {
        let mut keys: Vec<GramKey> = Vec::new();
        self.root.collect_keys(&mut keys);
        assert(keys@ =~= expr_keys(self@));
        let mut counts: Vec<(GramKey, u64)> = Vec::new();
        let mut i: usize = 0;
        while i < keys.len()
            invariant
                i <= keys@.len(),
                counts@.len() == i,
                forall|k: int| 0 <= k < i ==> (#[trigger] counts@[k]).0 == keys@[k],
                forall|k: int|
                    0 <= k < i ==> call_ensures(
                        D::entry_count,
                        (df, (#[trigger] counts@[k]).0),
                        counts@[k].1,
                    ),
            decreases keys@.len() - i,
        {
            let key = keys[i];
            counts.push((key, df.entry_count(key)));
            i = i + 1;
        }
        let snapshot = DfSnapshot { counts, total: df.total_entries() };
        assert(asks_for(snapshot, expr_keys(self@)) && answered(df, snapshot));
        self.tune_with(&snapshot, stop_df);
    }

    /// Reorder and thin the plan by the given frequencies.
    pub fn tune_with(&mut self, df: &DfSnapshot, stop_df: u64)
        ensures
            final(self)@ == tuned(old(self)@, df@, stop_df as int),
    {
        let mut root = PlanExpr::All;
        core::mem::swap(&mut root, &mut self.root);
        self.root = root.tune(df, stop_df);
    }
}

} // verus!
