//! What tuning a plan leaves in it.

use vstd::prelude::*;

use crate::query::plan::tune::{
    all_keys, children_keys, children_tuned, count_sum, estimate, estimate_sum, expr_keys,
    grams_sorted, is_weak, lemma_children_tuned, lemma_ranked_members, lemma_ranked_order,
    lemma_retained_members, lemma_strong_members, needle_rank, needle_tuned, needles_tuned,
    recorded_count, retained_upto, strong, tuned, without_weak, Df, MAX_ALL_OF_GRAMS,
};
use crate::query::plan::{
    children_weight, expr_children, expr_weight, needle_keys, Expr, GramKey, Needle,
};

verus! {

/// No conjunction holds more grams than it may keep.
pub open spec fn capped(e: Expr) -> bool
    decreases e,
{
    match e {
        Expr::AllOf { grams, needs, children } => grams.len() <= MAX_ALL_OF_GRAMS && forall|i: int|
            0 <= i < children.len() ==> capped(#[trigger] children[i]),
        Expr::AnyOf { grams, needs, children } => forall|i: int|
            0 <= i < children.len() ==> capped(#[trigger] children[i]),
        _ => true,
    }
}

proof fn lemma_retained_cap(grams: Seq<Needle>, n: int, keep_first: bool, df: Df, stop: int)
    ensures
        retained_upto(grams, n, keep_first, df, stop).len() <= MAX_ALL_OF_GRAMS,
        n >= 0 ==> retained_upto(grams, n, keep_first, df, stop).len() <= n,
        keep_first && n > 0 ==> retained_upto(grams, n, keep_first, df, stop).len() > 0,
    decreases n,
{
    if n > 0 {
        lemma_retained_cap(grams, n - 1, keep_first, df, stop);
    }
}

/// Every child that stays is a tuned child.
proof fn lemma_without_weak(grams: Seq<Needle>, children: Seq<Expr>, df: Df, stop: int, x: Expr)
    requires
        without_weak(grams, children, df, stop).contains(x),
    ensures
        children.contains(x),
{
    if grams.len() + strong(children, df, stop).len() > 0 {
        lemma_strong_members(children, df, stop, x);
    }
}

/// A tuned conjunction keeps its needs, holds at most
/// [`MAX_ALL_OF_GRAMS`] grams, each one of its own, and keeps a gram or a part
/// where it had one. Its parts are its own, tuned.
pub proof fn law_tuned_conjunction(e: Expr, df: Df, stop: int)
    requires
        e is AllOf,
    ensures
        tuned(e, df, stop) is AllOf,
        tuned(e, df, stop)->AllOf_needs == e->AllOf_needs,
        tuned(e, df, stop)->AllOf_grams.len() <= MAX_ALL_OF_GRAMS,
        e->AllOf_grams.len() + e->AllOf_children.len() > 0 ==> tuned(
            e,
            df,
            stop,
        )->AllOf_grams.len() + tuned(e, df, stop)->AllOf_children.len() > 0,
        forall|n: Needle| #[trigger]
            tuned(e, df, stop)->AllOf_grams.contains(n) ==> needles_tuned(
                e->AllOf_grams,
                df,
            ).contains(n),
        forall|x: Expr| #[trigger]
            tuned(e, df, stop)->AllOf_children.contains(x) ==> exists|i: int|
                0 <= i < e->AllOf_children.len() && x == tuned(
                    #[trigger] e->AllOf_children[i],
                    df,
                    stop,
                ),
{
    let grams = e->AllOf_grams;
    let children = e->AllOf_children;
    let sorted = grams_sorted(grams, df);
    let n = grams.len() as int;
    let first = children.len() == 0;
    let kept = retained_upto(sorted, n, first, df, stop);
    let below = children_tuned(e, df, stop, children.len() as int);
    lemma_ranked_members(needles_tuned(grams, df), needle_rank(df));
    lemma_retained_cap(sorted, n, first, df, stop);
    lemma_children_tuned(e, df, stop, children.len() as int);
    assert forall|x: Needle| #[trigger] kept.contains(x) implies needles_tuned(
        grams,
        df,
    ).contains(x) by {
        lemma_retained_members(sorted, n, first, df, stop, x);
        assert(sorted.contains(x));
    }
    assert forall|x: Expr| #[trigger]
        without_weak(kept, below, df, stop).contains(x) implies exists|i: int|
        0 <= i < children.len() && x == tuned(#[trigger] children[i], df, stop) by {
        lemma_without_weak(kept, below, df, stop, x);
        let i = choose|i: int| 0 <= i < below.len() && below[i] == x;
        assert(x == tuned(children[i], df, stop));
    }
}

/// A tuned alternative keeps all it offers: its needs, every gram and every
/// part, each tuned.
pub proof fn law_tuned_alternative(e: Expr, df: Df, stop: int)
    requires
        e is AnyOf,
    ensures
        tuned(e, df, stop) is AnyOf,
        tuned(e, df, stop)->AnyOf_needs == e->AnyOf_needs,
        tuned(e, df, stop)->AnyOf_grams.len() == e->AnyOf_grams.len(),
        forall|i: int|
            0 <= i < e->AnyOf_grams.len() ==> tuned(e, df, stop)->AnyOf_grams.contains(
                needle_tuned(#[trigger] e->AnyOf_grams[i], df),
            ),
        tuned(e, df, stop)->AnyOf_children.len() == e->AnyOf_children.len(),
        forall|i: int|
            0 <= i < e->AnyOf_children.len() ==> #[trigger] tuned(e, df, stop)->AnyOf_children[i]
                == tuned(e->AnyOf_children[i], df, stop),
{
    let grams = e->AnyOf_grams;
    let all = needles_tuned(grams, df);
    lemma_ranked_members(all, needle_rank(df));
    lemma_children_tuned(e, df, stop, e->AnyOf_children.len() as int);
    assert forall|i: int| 0 <= i < grams.len() implies grams_sorted(grams, df).contains(
        needle_tuned(#[trigger] grams[i], df),
    ) by {
        assert(all[i] == needle_tuned(grams[i], df));
        assert(all.contains(all[i]));
    }
}

/// Wherever it stands in a tuned plan, a conjunction holds at most
/// [`MAX_ALL_OF_GRAMS`] grams.
pub proof fn law_tuned_plan_is_capped(e: Expr, df: Df, stop: int)
    ensures
        capped(tuned(e, df, stop)),
    decreases e,
{
    match e {
        Expr::AllOf { grams, needs, children } => {
            law_tuned_conjunction(e, df, stop);
            let out = tuned(e, df, stop)->AllOf_children;
            assert forall|j: int| 0 <= j < out.len() implies capped(#[trigger] out[j]) by {
                assert(tuned(e, df, stop)->AllOf_children.contains(out[j]));
                let i = choose|i: int|
                    0 <= i < children.len() && out[j] == tuned(#[trigger] children[i], df, stop);
                law_tuned_plan_is_capped(children[i], df, stop);
            }
        },
        Expr::AnyOf { grams, needs, children } => {
            law_tuned_alternative(e, df, stop);
            let out = tuned(e, df, stop)->AnyOf_children;
            assert forall|j: int| 0 <= j < out.len() implies capped(#[trigger] out[j]) by {
                law_tuned_plan_is_capped(children[j], df, stop);
            }
        },
        _ => {},
    }
}

/// The needles ascend by estimate.
pub open spec fn rarest_first(grams: Seq<Needle>, df: Df) -> bool {
    forall|i: int, j: int|
        0 <= i < j < grams.len() ==> estimate(#[trigger] grams[i], df) <= estimate(
            #[trigger] grams[j],
            df,
        )
}

proof fn lemma_sorted_order(grams: Seq<Needle>, df: Df)
    ensures
        rarest_first(grams_sorted(grams, df), df),
{
    let rank = needle_rank(df);
    let sorted = grams_sorted(grams, df);
    lemma_ranked_order(needles_tuned(grams, df), rank);
    assert forall|i: int, j: int| 0 <= i < j < sorted.len() implies estimate(
        #[trigger] sorted[i],
        df,
    ) <= estimate(#[trigger] sorted[j], df) by {
        assert(rank(sorted[i]) <= rank(sorted[j]));
    }
}

proof fn lemma_retained_order(grams: Seq<Needle>, n: int, keep_first: bool, df: Df, stop: int)
    requires
        rarest_first(grams, df),
        0 <= n <= grams.len(),
    ensures
        rarest_first(retained_upto(grams, n, keep_first, df, stop), df),
    decreases n,
{
    if n > 0 {
        lemma_retained_order(grams, n - 1, keep_first, df, stop);
        let head = retained_upto(grams, n - 1, keep_first, df, stop);
        let all = retained_upto(grams, n, keep_first, df, stop);
        assert forall|i: int, j: int| 0 <= i < j < all.len() implies estimate(
            #[trigger] all[i],
            df,
        ) <= estimate(#[trigger] all[j], df) by {
            if j == head.len() {
                assert(head.contains(head[i]));
                let m = lemma_retained_at(grams, n - 1, keep_first, df, stop, i);
                assert(estimate(grams[m], df) <= estimate(grams[n - 1], df));
            }
        }
    }
}

/// Where a retained needle stood.
proof fn lemma_retained_at(
    grams: Seq<Needle>,
    n: int,
    keep_first: bool,
    df: Df,
    stop: int,
    i: int,
) -> (m: int)
    requires
        0 <= n <= grams.len(),
        0 <= i < retained_upto(grams, n, keep_first, df, stop).len(),
    ensures
        0 <= m < n,
        grams[m] == retained_upto(grams, n, keep_first, df, stop)[i],
    decreases n,
{
    let head = retained_upto(grams, n - 1, keep_first, df, stop);
    if i < head.len() {
        lemma_retained_at(grams, n - 1, keep_first, df, stop, i)
    } else {
        n - 1
    }
}

/// A tuned expression asks for its rarest grams first.
pub proof fn law_tuned_grams_are_rarest_first(e: Expr, df: Df, stop: int)
    ensures
        tuned(e, df, stop) matches Expr::AllOf { grams, .. } ==> rarest_first(grams, df),
        tuned(e, df, stop) matches Expr::AnyOf { grams, .. } ==> rarest_first(grams, df),
{
    match e {
        Expr::AllOf { grams, needs, children } => {
            lemma_sorted_order(grams, df);
            lemma_ranked_members(needles_tuned(grams, df), needle_rank(df));
            lemma_retained_order(
                grams_sorted(grams, df),
                grams.len() as int,
                children.len() == 0,
                df,
                stop,
            );
        },
        Expr::AnyOf { grams, needs, children } => {
            lemma_sorted_order(grams, df);
        },
        _ => {},
    }
}

/// A selective needle among the first ones is retained.
proof fn lemma_selective_stays(
    grams: Seq<Needle>,
    n: int,
    keep_first: bool,
    df: Df,
    stop: int,
    i: int,
)
    requires
        0 <= i < n <= grams.len(),
        i < MAX_ALL_OF_GRAMS,
        estimate(grams[i], df) < stop,
    ensures
        retained_upto(grams, n, keep_first, df, stop).contains(grams[i]),
    decreases n,
{
    let head = retained_upto(grams, n - 1, keep_first, df, stop);
    let all = retained_upto(grams, n, keep_first, df, stop);
    if i == n - 1 {
        assert(all[head.len() as int] == grams[i]);
    } else {
        lemma_selective_stays(grams, n - 1, keep_first, df, stop, i);
        let k = choose|k: int| 0 <= k < head.len() && head[k] == grams[i];
        assert(all[k] == grams[i]);
    }
}

proof fn lemma_all_selective(grams: Seq<Needle>, n: int, keep_first: bool, df: Df, stop: int)
    requires
        0 <= n <= grams.len(),
        forall|i: int|
            0 <= i < n && i < MAX_ALL_OF_GRAMS ==> estimate(#[trigger] grams[i], df) < stop,
    ensures
        retained_upto(grams, n, keep_first, df, stop).len() == if n < MAX_ALL_OF_GRAMS {
            n
        } else {
            MAX_ALL_OF_GRAMS as int
        },
        retained_upto(grams, n, keep_first, df, stop) == grams.take(
            if n < MAX_ALL_OF_GRAMS {
                n
            } else {
                MAX_ALL_OF_GRAMS as int
            },
        ),
    decreases n,
{
    let all = retained_upto(grams, n, keep_first, df, stop);
    if n > 0 {
        lemma_all_selective(grams, n - 1, keep_first, df, stop);
        if n <= MAX_ALL_OF_GRAMS {
            assert(all =~= grams.take(n));
        }
    } else {
        assert(all =~= grams.take(0));
    }
}

/// A tuned conjunction drops a gram only for a reason: it is no more selective
/// than the stop frequency asks for, or as many grams as a conjunction keeps are
/// there that are no more frequent.
pub proof fn law_tuning_drops_the_common_grams(e: Expr, df: Df, stop: int, n: Needle)
    requires
        e is AllOf,
        needles_tuned(e->AllOf_grams, df).contains(n),
        !tuned(e, df, stop)->AllOf_grams.contains(n),
        estimate(n, df) < stop,
    ensures
        tuned(e, df, stop)->AllOf_grams.len() == MAX_ALL_OF_GRAMS,
        forall|i: int|
            0 <= i < MAX_ALL_OF_GRAMS ==> estimate(
                #[trigger] tuned(e, df, stop)->AllOf_grams[i],
                df,
            ) <= estimate(n, df),
{
    let grams = e->AllOf_grams;
    let first = e->AllOf_children.len() == 0;
    let sorted = grams_sorted(grams, df);
    let len = grams.len() as int;
    lemma_ranked_members(needles_tuned(grams, df), needle_rank(df));
    lemma_sorted_order(grams, df);
    assert(sorted.contains(n));
    let i = choose|i: int| 0 <= i < sorted.len() && sorted[i] == n;
    if i < MAX_ALL_OF_GRAMS {
        lemma_selective_stays(sorted, len, first, df, stop, i);
    }
    assert forall|k: int| 0 <= k < len && k < MAX_ALL_OF_GRAMS implies estimate(
        #[trigger] sorted[k],
        df,
    ) < stop by {
        assert(estimate(sorted[k], df) <= estimate(sorted[i], df));
    }
    lemma_all_selective(sorted, len, first, df, stop);
    let kept = tuned(e, df, stop)->AllOf_grams;
    assert forall|k: int| 0 <= k < MAX_ALL_OF_GRAMS implies estimate(#[trigger] kept[k], df)
        <= estimate(n, df) by {
        assert(kept[k] == sorted[k]);
        assert(estimate(sorted[k], df) <= estimate(sorted[i], df));
    }
}

/// A gram that stays for its selectivity is selective; only where nothing else
/// could stay may the first one be common.
pub proof fn law_tuning_keeps_the_selective_grams(e: Expr, df: Df, stop: int, i: int)
    requires
        e is AllOf,
        0 <= i < tuned(e, df, stop)->AllOf_grams.len(),
    ensures
        estimate(tuned(e, df, stop)->AllOf_grams[i], df) < stop || (i == 0
            && e->AllOf_children.len() == 0),
{
    let grams = e->AllOf_grams;
    lemma_ranked_members(needles_tuned(grams, df), needle_rank(df));
    lemma_kept_selective(
        grams_sorted(grams, df),
        grams.len() as int,
        e->AllOf_children.len() == 0,
        df,
        stop,
        i,
    );
}

proof fn lemma_kept_selective(
    grams: Seq<Needle>,
    n: int,
    keep_first: bool,
    df: Df,
    stop: int,
    i: int,
)
    requires
        0 <= n <= grams.len(),
        0 <= i < retained_upto(grams, n, keep_first, df, stop).len(),
    ensures
        estimate(retained_upto(grams, n, keep_first, df, stop)[i], df) < stop || (i == 0
            && keep_first),
    decreases n,
{
    let head = retained_upto(grams, n - 1, keep_first, df, stop);
    if i < head.len() {
        lemma_kept_selective(grams, n - 1, keep_first, df, stop, i);
    } else if keep_first && n > 1 {
        lemma_retained_cap(grams, n - 1, keep_first, df, stop);
    }
}

/// A part that a tuned conjunction drops is a bag of grams that together are no
/// more selective than the stop frequency asks for.
pub proof fn law_tuning_drops_the_common_bags(e: Expr, df: Df, stop: int, i: int)
    requires
        e is AllOf,
        0 <= i < e->AllOf_children.len(),
        !tuned(e, df, stop)->AllOf_children.contains(tuned(e->AllOf_children[i], df, stop)),
    ensures
        tuned(e->AllOf_children[i], df, stop) matches Expr::AnyOf { grams, needs, children }
            && needs.len() == 0 && children.len() == 0 && estimate_sum(grams, df) >= stop,
{
    let n = e->AllOf_children.len() as int;
    let below = children_tuned(e, df, stop, n);
    lemma_children_tuned(e, df, stop, n);
    assert(below[i] == tuned(e->AllOf_children[i], df, stop));
    let kept = tuned(e, df, stop)->AllOf_grams;
    if kept.len() + strong(below, df, stop).len() == 0 {
        assert(below.contains(below[i]));
    }
    if !is_weak(below[i], df, stop) {
        lemma_strong_kept(below, df, stop, i);
    }
}

proof fn lemma_strong_kept(children: Seq<Expr>, df: Df, stop: int, i: int)
    requires
        0 <= i < children.len(),
        !is_weak(children[i], df, stop),
    ensures
        strong(children, df, stop).contains(children[i]),
    decreases children.len(),
{
    let head = strong(children.drop_last(), df, stop);
    let all = strong(children, df, stop);
    if i == children.len() - 1 {
        assert(all[head.len() as int] == children[i]);
    } else {
        lemma_strong_kept(children.drop_last(), df, stop, i);
        let k = choose|k: int| 0 <= k < head.len() && head[k] == children[i];
        assert(all[k] == children[i]);
    }
}

/// The documents that a needle may find: for one key those that have it, for
/// several all of theirs together, and never more than there are.
pub proof fn law_estimate_counts_the_documents(keys: Seq<GramKey>, key: GramKey, df: Df)
    ensures
        estimate(Needle::Key(key), df) == if (df.count)(key) < df.total {
            (df.count)(key) as int
        } else {
            df.total as int
        },
        0 <= estimate(Needle::AnyKey(keys), df) <= df.total,
        estimate(Needle::AnyKey(keys), df) <= estimate(Needle::AnyKey(keys.push(key)), df)
            <= estimate(Needle::AnyKey(keys), df) + estimate(Needle::Key(key), df),
        estimate(Needle::AnyKey(Seq::empty()), df) == 0,
{
    assert(keys.push(key).drop_last() =~= keys);
    assert(seq![key].drop_last() =~= Seq::<GramKey>::empty());
    assert(count_sum(Seq::<GramKey>::empty(), df) == 0);
    assert(count_sum(seq![key], df) == (df.count)(key));
    lemma_count_sum(keys, df);
}

proof fn lemma_count_sum(keys: Seq<GramKey>, df: Df)
    ensures
        count_sum(keys, df) >= 0,
    decreases keys.len(),
{
    if keys.len() > 0 {
        lemma_count_sum(keys.drop_last(), df);
    }
}

/// The needle stands somewhere in the expression.
pub open spec fn stands_in(e: Expr, n: Needle) -> bool
    decreases e,
{
    match e {
        Expr::AllOf { grams, needs, children } => grams.contains(n) || exists|i: int|
            0 <= i < children.len() && stands_in(#[trigger] children[i], n),
        Expr::AnyOf { grams, needs, children } => grams.contains(n) || exists|i: int|
            0 <= i < children.len() && stands_in(#[trigger] children[i], n),
        _ => false,
    }
}

proof fn lemma_in_sum(a: Seq<GramKey>, b: Seq<GramKey>, k: GramKey)
    ensures
        (a + b).contains(k) <==> a.contains(k) || b.contains(k),
{
    let c = a + b;
    if c.contains(k) {
        let n = choose|n: int| 0 <= n < c.len() && c[n] == k;
        if n < a.len() {
            assert(a[n] == k);
        } else {
            assert(b[n - a.len()] == k);
        }
    }
    if a.contains(k) {
        let n = choose|n: int| 0 <= n < a.len() && a[n] == k;
        assert(c[n] == k);
    }
    if b.contains(k) {
        let n = choose|n: int| 0 <= n < b.len() && b[n] == k;
        assert(c[a.len() + n] == k);
    }
}

proof fn lemma_needle_key(grams: Seq<Needle>, m: int, i: int, k: GramKey)
    requires
        0 <= i < m <= grams.len(),
        needle_keys(grams[i]).contains(k),
    ensures
        all_keys(grams, m).contains(k),
    decreases m,
{
    if i < m - 1 {
        lemma_needle_key(grams, m - 1, i, k);
    }
    lemma_in_sum(all_keys(grams, m - 1), needle_keys(grams[m - 1]), k);
}

proof fn lemma_child_key(e: Expr, m: int, i: int, k: GramKey)
    requires
        0 <= i < m <= expr_children(e).len(),
        expr_keys(expr_children(e)[i]).contains(k),
    ensures
        children_keys(e, m).contains(k),
    decreases m,
{
    if i < m - 1 {
        lemma_child_key(e, m - 1, i, k);
    }
    lemma_in_sum(children_keys(e, m - 1), expr_keys(expr_children(e)[m - 1]), k);
}

/// Tuning asks for the frequency of every key in the plan, however deep the
/// needle stands that has it.
pub proof fn law_tuning_asks_for_every_key(e: Expr, n: Needle, k: GramKey)
    requires
        stands_in(e, n),
        needle_keys(n).contains(k),
    ensures
        expr_keys(e).contains(k),
    decreases e,
{
    let grams = match e {
        Expr::AllOf { grams, .. } => grams,
        Expr::AnyOf { grams, .. } => grams,
        _ => Seq::empty(),
    };
    let children = expr_children(e);
    let own = all_keys(grams, grams.len() as int);
    let below = children_keys(e, children.len() as int);
    lemma_in_sum(own, below, k);
    if grams.contains(n) {
        let i = choose|i: int| 0 <= i < grams.len() && grams[i] == n;
        lemma_needle_key(grams, grams.len() as int, i, k);
    } else {
        let i = choose|i: int| 0 <= i < children.len() && stands_in(#[trigger] children[i], n);
        law_tuning_asks_for_every_key(children[i], n, k);
        lemma_child_key(e, children.len() as int, i, k);
    }
}

/// A key that was asked for is counted as it was answered first.
pub proof fn law_recorded_answers_are_used(counts: Seq<(GramKey, u64)>, i: int)
    requires
        0 <= i < counts.len(),
        forall|j: int| 0 <= j < i ==> (#[trigger] counts[j]).0 != counts[i].0,
    ensures
        recorded_count(counts, counts[i].0) == counts[i].1,
    decreases i,
{
    if i > 0 {
        let rest = counts.drop_first();
        assert(counts[0].0 != counts[i].0);
        assert(rest[i - 1] == counts[i]);
        assert forall|j: int| 0 <= j < i - 1 implies (#[trigger] rest[j]).0 != rest[i - 1].0 by {
            assert(rest[j] == counts[j + 1]);
        }
        law_recorded_answers_are_used(rest, i - 1);
    }
}

/// The needles of an expression are its own and those of its parts.
pub proof fn law_gram_count_adds_up(e: Expr, f: Expr, x: Expr)
    requires
        e matches Expr::AllOf { grams, needs, children } && f == (Expr::AllOf {
            grams,
            needs,
            children: children.push(x),
        }) || (e matches Expr::AnyOf { grams, needs, children } && f == (Expr::AnyOf {
            grams,
            needs,
            children: children.push(x),
        })),
    ensures
        expr_weight(f) == expr_weight(e) + expr_weight(x),
        expr_children(e).len() == 0 ==> expr_weight(e) == (match e {
            Expr::AllOf { grams, .. } => grams.len(),
            Expr::AnyOf { grams, .. } => grams.len(),
            _ => 0,
        }),
{
    let n = expr_children(e).len() as int;
    lemma_same_weight(e, f, n);
    assert(expr_children(f)[n] == x);
    assert(children_weight(f, n + 1) == children_weight(f, n) + expr_weight(x));
}

proof fn lemma_same_weight(e: Expr, f: Expr, n: int)
    requires
        e is AllOf || e is AnyOf,
        f is AllOf || f is AnyOf,
        0 <= n <= expr_children(e).len() <= expr_children(f).len(),
        forall|i: int| 0 <= i < n ==> expr_children(e)[i] == expr_children(f)[i],
    ensures
        children_weight(e, n) == children_weight(f, n),
    decreases n,
{
    if n > 0 {
        lemma_same_weight(e, f, n - 1);
        assert(expr_children(e)[n - 1] == expr_children(f)[n - 1]);
    }
}

} // verus!
