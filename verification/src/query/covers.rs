//! Covering-gram lookup and OR-of-covers query building.

use vstd::prelude::*;

use crate::extract::cover::{cover_one, guaranteed, guaranteed_grams, minimal_grams};
use crate::extract::occurs_at;
use crate::num::{add_to_max, clamp};
use crate::query::algebra::{combined, gram_node, leaf, lemma_push_contains, Op, Query, Tree};
use crate::query::analyze::{can_flush, flush_limit, grams_left, spent, Analyzer, Stage, MAX_SET};
use crate::query::gram::{texts, Gram};
use crate::query::order::{
    before, cleaned, is_before, lemma_before_total, lemma_before_transitive, lemma_cleaned,
    strictly_ascending, Order,
};
use crate::query::settings::QuerySettings;
use crate::query::strings::{cut_all, fits, max_len, min_len, StringSet};
use crate::table::WeightTable;

verus! {

/// Branch count past which a flushed set covers each string minimally
/// instead of maximally.
pub const MAX_MAXIMAL_COVER_BRANCHES: usize = 8;

/// The grams one string covers to, cleaned: every gram a scan of it emits, or
/// the minimal chain of them.
pub open spec fn string_cover(t: WeightTable, s: Seq<u8>, maximal: bool) -> Seq<Seq<u8>> {
    cleaned(
        Order::Prefix,
        if maximal {
            guaranteed_grams(t, s)
        } else {
            minimal_grams(t, s)
        },
    )
}

/// The covers of the first `n` strings, or `None` when a string covers to
/// nothing or the total exceeds `cap`.
pub open spec fn covers_upto(
    t: WeightTable,
    set: Seq<Seq<u8>>,
    n: int,
    cap: int,
    maximal: bool,
) -> Option<Seq<Seq<Seq<u8>>>>
    decreases n,
{
    if n <= 0 {
        Some(Seq::empty())
    } else {
        match covers_upto(t, set, n - 1, cap, maximal) {
            None => None,
            Some(covers) => {
                let grams = string_cover(t, set[n - 1], maximal);
                if grams.len() == 0 || total_grams(covers.push(grams)) > cap {
                    None
                } else {
                    Some(covers.push(grams))
                }
            },
        }
    }
}

/// The grams of all covers together.
pub open spec fn total_grams(covers: Seq<Seq<Seq<u8>>>) -> int
    decreases covers.len(),
{
    if covers.len() == 0 {
        0
    } else {
        total_grams(covers.drop_last()) + covers.last().len()
    }
}

/// The cover of each string, unless a string covers to nothing or there are
/// more than `cap` grams.
pub open spec fn all_covers(t: WeightTable, set: Seq<Seq<u8>>, cap: int, maximal: bool) -> Option<
    Seq<Seq<Seq<u8>>>,
> {
    if set.len() > cap {
        None
    } else {
        covers_upto(t, set, set.len() as int, cap, maximal)
    }
}

/// The OR over covers, each an AND of its grams.
pub open spec fn ored(covers: Seq<Seq<Seq<u8>>>) -> Tree
    decreases covers.len(),
{
    if covers.len() == 0 {
        leaf(Op::Nothing)
    } else {
        combined(ored(covers.drop_last()), gram_node(Op::And, covers.last()), Op::Or)
    }
}

/// `q` AND the OR over covers, with their grams spent.
pub open spec fn with_covers(g: Stage, q: Tree, covers: Seq<Seq<Seq<u8>>>) -> (Tree, Stage) {
    (combined(q, ored(covers), Op::And), spent(g, clamp(total_grams(covers))))
}

/// `q` AND the OR over grams, with the grams spent.
pub open spec fn with_grams(g: Stage, q: Tree, grams: Seq<Seq<u8>>) -> (Tree, Stage) {
    (combined(q, gram_node(Op::Or, grams), Op::And), spent(g, grams.len() as int))
}

/// Some occurrence of `gram` in `s` covers the center byte.
pub open spec fn reaches_center(s: Seq<u8>, gram: Seq<u8>) -> bool {
    exists|at: int|
        #[trigger] occurs_at(gram, s, at) && at <= s.len() as int / 2 < at + gram.len()
}

/// `a` is the stronger single gram for `s`: it covers the center where `b`
/// does not, else it is longer, else it sorts after `b`.
pub open spec fn outranks(s: Seq<u8>, a: Seq<u8>, b: Seq<u8>) -> bool {
    if reaches_center(s, a) != reaches_center(s, b) {
        reaches_center(s, a)
    } else if a.len() != b.len() {
        a.len() > b.len()
    } else {
        before(Order::Prefix, b, a)
    }
}

/// `g` is the strongest of the grams.
pub open spec fn strongest(s: Seq<u8>, grams: Seq<Seq<u8>>, g: Seq<u8>) -> bool {
    grams.contains(g) && forall|h: Seq<u8>| #[trigger] grams.contains(h) ==> !outranks(s, h, g)
}

/// The strongest single guaranteed gram for a branch.
pub open spec fn single(t: WeightTable, s: Seq<u8>) -> Option<Seq<u8>> {
    if guaranteed_grams(t, s).len() == 0 {
        None
    } else {
        Some(choose|g: Seq<u8>| strongest(s, guaranteed_grams(t, s), g))
    }
}

/// The strongest gram of each of the first `n` strings.
pub open spec fn singles_upto(t: WeightTable, set: Seq<Seq<u8>>, n: int) -> Option<Seq<Seq<u8>>>
    decreases n,
{
    if n <= 0 {
        Some(Seq::empty())
    } else {
        match (singles_upto(t, set, n - 1), single(t, set[n - 1])) {
            (Some(grams), Some(g)) => Some(grams.push(g)),
            _ => None,
        }
    }
}

/// One selective gram per string, unless there are more than `cap` strings or
/// one has no gram.
pub open spec fn single_covers(t: WeightTable, set: Seq<Seq<u8>>, cap: int) -> Option<
    Seq<Seq<u8>>,
> {
    if set.len() > cap {
        None
    } else {
        match singles_upto(t, set, set.len() as int) {
            Some(grams) => Some(cleaned(Order::Prefix, grams)),
            None => None,
        }
    }
}

/// The longest cut of at most `hi` bytes that leaves at most `target` strings.
pub open spec fn fit(order: Order, s: Seq<Seq<u8>>, hi: int, target: int) -> Option<int>
    decreases hi,
{
    if hi <= 0 {
        None
    } else if fits(order, s, hi, target) {
        Some(hi)
    } else {
        fit(order, s, hi - 1, target)
    }
}

/// The longest edge truncation of `set` that collapses to at most
/// [`MAX_SET`] distinct strings of gram length.
pub open spec fn edge_of(set: Seq<Seq<u8>>, order: Order) -> Option<Seq<Seq<u8>>> {
    let edge = cleaned(order, set);
    if min_len(edge) < QuerySettings::MIN_GRAM_LEN {
        None
    } else {
        match fit(order, edge, max_len(edge) - 1, MAX_SET as int) {
            Some(keep) => if keep < QuerySettings::MIN_GRAM_LEN {
                None
            } else {
                Some(cleaned(order, cut_all(order, edge, keep)))
            },
            None => None,
        }
    }
}

/// `q` AND the covers of the longest common shortening of `set` that fits the
/// cap.
pub open spec fn with_truncated(
    g: Stage,
    q: Tree,
    fitted: Seq<Seq<u8>>,
    order: Order,
    cap: int,
) -> (Tree, Stage)
    decreases max_len(fitted),
    via with_truncated_shrinks
{
    if max_len(fitted) <= QuerySettings::MIN_GRAM_LEN {
        (q, g)
    } else {
        let next = cleaned(order, cut_all(order, fitted, max_len(fitted) - 1));
        if min_len(next) < QuerySettings::MIN_GRAM_LEN {
            (q, g)
        } else {
            match all_covers(g.table, next, cap, false) {
                Some(covers) => with_covers(g, q, covers),
                None => with_truncated(g, q, next, order, cap),
            }
        }
    }
}

/// `q` AND the OR over each string's covering grams, as far as the budget
/// goes; `windows` says whether an oversized set may also pin its two edges.
pub open spec fn with_set(
    g: Stage,
    q: Tree,
    set: Seq<Seq<u8>>,
    order: Order,
    windows: bool,
) -> (Tree, Stage)
    decreases (if windows { 1int } else { 0int }),
{
    let cap = flush_limit(g);
    if set.len() == 0 || min_len(set) < QuerySettings::MIN_GRAM_LEN || !can_flush(g) {
        (q, g)
    } else if set.len() <= MAX_MAXIMAL_COVER_BRANCHES && all_covers(g.table, set, cap, true)
        is Some {
        with_covers(g, q, all_covers(g.table, set, cap, true)->0)
    } else if all_covers(g.table, set, cap, false) is Some {
        with_covers(g, q, all_covers(g.table, set, cap, false)->0)
    } else if single_covers(g.table, set, grams_left(g)) is Some {
        let (q1, g1) = if windows && set.len() > MAX_SET {
            let (q0, g0) = match edge_of(set, Order::Prefix) {
                Some(heads) => with_set(g, q, heads, Order::Prefix, false),
                None => (q, g),
            };
            match edge_of(set, Order::Suffix) {
                Some(tails) => with_set(g0, q0, tails, Order::Suffix, false),
                None => (q0, g0),
            }
        } else {
            (q, g)
        };
        with_grams(g1, q1, single_covers(g.table, set, grams_left(g))->0)
    } else {
        with_truncated(g, q, set, order, cap)
    }
}

/// `q` AND the OR over each string's covering grams.
#[verifier::opaque]
pub open spec fn and_set(g: Stage, q: Tree, set: Seq<Seq<u8>>, order: Order) -> (Tree, Stage) {
    with_set(g, q, set, order, true)
}

#[via_fn]
proof fn with_truncated_shrinks(
    g: Stage,
    q: Tree,
    fitted: Seq<Seq<u8>>,
    order: Order,
    cap: int,
) {
    if max_len(fitted) > 0 {
        lemma_cut_shrinks(order, fitted, max_len(fitted) - 1);
    }
}

/// No string is longer than the longest, and one is as long.
pub proof fn lemma_max_len(s: Seq<Seq<u8>>)
    ensures
        forall|x: Seq<u8>| #[trigger] s.contains(x) ==> x.len() <= max_len(s),
        s.len() > 0 ==> exists|x: Seq<u8>| #[trigger] s.contains(x) && x.len() == max_len(s),
    decreases s.len(),
{
    if s.len() > 0 {
        let head = s.drop_last();
        lemma_max_len(head);
        assert(s =~= head.push(s.last()));
        assert forall|x: Seq<u8>| #[trigger] s.contains(x) implies x.len() <= max_len(s) by {
            lemma_push_contains(head, s.last(), x);
        }
        lemma_push_contains(head, s.last(), s.last());
        if s.last().len() <= max_len(head) {
            if head.len() > 0 {
                let x = choose|x: Seq<u8>| #[trigger] head.contains(x) && x.len() == max_len(head);
                lemma_push_contains(head, s.last(), x);
                assert(s.contains(x));
            } else {
                assert(s.contains(s.last()));
            }
        } else {
            assert(s.contains(s.last()));
        }
    }
}

/// No string is shorter than the shortest, and one is as short.
pub proof fn lemma_min_len(s: Seq<Seq<u8>>)
    ensures
        forall|x: Seq<u8>| #[trigger] s.contains(x) ==> x.len() >= min_len(s),
        s.len() > 0 ==> exists|x: Seq<u8>| #[trigger] s.contains(x) && x.len() == min_len(s),
    decreases s.len(),
{
    if s.len() > 0 {
        let head = s.drop_last();
        lemma_min_len(head);
        assert(s =~= head.push(s.last()));
        assert forall|x: Seq<u8>| #[trigger] s.contains(x) implies x.len() >= min_len(s) by {
            lemma_push_contains(head, s.last(), x);
            if s.len() == 1 {
                assert(!head.contains(x));
            }
        }
        lemma_push_contains(head, s.last(), s.last());
        if s.len() == 1 || s.last().len() < min_len(head) {
            assert(s.contains(s.last()));
        } else {
            let x = choose|x: Seq<u8>| #[trigger] head.contains(x) && x.len() == min_len(head);
            lemma_push_contains(head, s.last(), x);
            assert(s.contains(x));
        }
    }
}

/// A cut leaves no string longer than it keeps.
pub proof fn lemma_cut_shrinks(order: Order, s: Seq<Seq<u8>>, keep: int)
    requires
        keep >= 0,
    ensures
        max_len(cleaned(order, cut_all(order, s, keep))) <= keep,
{
    let c = cut_all(order, s, keep);
    let r = cleaned(order, c);
    lemma_cleaned(order, c);
    lemma_max_len(r);
    if r.len() > 0 {
        let x = choose|x: Seq<u8>| #[trigger] r.contains(x) && x.len() == max_len(r);
        assert(c.contains(x));
        let n = choose|n: int| 0 <= n < c.len() && c[n] == x;
        assert(c[n].len() <= keep);
    }
}

/// Ranking is a strict total order on distinct grams.
proof fn lemma_outranks(s: Seq<u8>, a: Seq<u8>, b: Seq<u8>, c: Seq<u8>)
    ensures
        !outranks(s, a, a),
        a == b || outranks(s, a, b) || outranks(s, b, a),
        outranks(s, a, b) ==> !outranks(s, b, a),
        outranks(s, a, b) && outranks(s, b, c) ==> outranks(s, a, c),
{
    lemma_before_total(Order::Prefix, a, a);
    lemma_before_total(Order::Prefix, a, b);
    lemma_before_total(Order::Prefix, b, a);
    if before(Order::Prefix, b, a) && before(Order::Prefix, c, b) {
        lemma_before_transitive(Order::Prefix, c, b, a);
    }
}

proof fn lemma_strongest_unique(s: Seq<u8>, grams: Seq<Seq<u8>>, a: Seq<u8>, b: Seq<u8>)
    requires
        strongest(s, grams, a),
        strongest(s, grams, b),
    ensures
        a == b,
{
    lemma_outranks(s, a, b, a);
}

proof fn lemma_strongest_exists(s: Seq<u8>, grams: Seq<Seq<u8>>) -> (g: Seq<u8>)
    requires
        grams.len() > 0,
    ensures
        strongest(s, grams, g),
    decreases grams.len(),
{
    let head = grams.drop_last();
    let last = grams.last();
    assert(grams =~= head.push(last));
    if head.len() == 0 {
        lemma_outranks(s, last, last, last);
        assert forall|h: Seq<u8>| #[trigger] grams.contains(h) implies !outranks(s, h, last) by {
            lemma_push_contains(head, last, h);
        }
        lemma_push_contains(head, last, last);
        last
    } else {
        let best = lemma_strongest_exists(s, head);
        let g = if outranks(s, last, best) {
            last
        } else {
            best
        };
        lemma_push_contains(head, last, g);
        assert forall|h: Seq<u8>| #[trigger] grams.contains(h) implies !outranks(s, h, g) by {
            lemma_push_contains(head, last, h);
            lemma_outranks(s, h, last, best);
            lemma_outranks(s, last, best, h);
            lemma_outranks(s, h, g, best);
        }
        g
    }
}

/// The strongest gram is one of the guaranteed grams.
pub proof fn lemma_single(t: WeightTable, s: Seq<u8>)
    ensures
        single(t, s) matches Some(g) ==> strongest(s, guaranteed_grams(t, s), g),
{
    if guaranteed_grams(t, s).len() > 0 {
        let g = lemma_strongest_exists(s, guaranteed_grams(t, s));
    }
}

/// The strings of each set.
pub open spec fn views(covers: Seq<StringSet>) -> Seq<Seq<Seq<u8>>> {
    Seq::new(covers.len(), |i: int| covers[i]@)
}

/// Every set is well formed and clean.
spec fn covers_wf(covers: Seq<StringSet>) -> bool {
    forall|i: int|
        0 <= i < covers.len() ==> (#[trigger] covers[i]).wf() && strictly_ascending(
            Order::Prefix,
            covers[i]@,
        )
}

/// The grams as a clean set.
fn clean_set(grams: Vec<Gram>) -> (set: StringSet)
    ensures
        set.wf(),
        set@ == cleaned(Order::Prefix, texts(grams@)),
        strictly_ascending(Order::Prefix, set@),
{
    let mut set = StringSet::new();
    let mut i: usize = 0;
    let grams = grams;
    while i < grams.len()
        invariant
            i <= grams@.len(),
            set.wf(),
            set@ == texts(grams@).take(i as int),
        decreases grams@.len() - i,
    {
        set.push(grams[i].duplicate());
        i = i + 1;
        assert(set@ =~= texts(grams@).take(i as int));
    }
    assert(texts(grams@).take(i as int) =~= texts(grams@));
    set.clean(Order::Prefix);
    proof {
        lemma_cleaned(Order::Prefix, texts(grams@));
    }
    set
}

/// Cover every string in `set`, stopping at the first branch that covers to
/// nothing or takes the total over `cap`.
///
/// A set holding more strings than `cap` is refused unwalked: every string
/// spends at least one gram, so such a walk always ends over the cap, and the
/// single-gram pass would then re-cover the same branches.
///
/// The minimal cover chains a string end to end. The maximal one adds every
/// gram a scan would emit for that string alone: a gram's emission depends
/// only on the bigram weights inside its span, so each of those is emitted
/// for any document containing the string too.
fn gather_covers(table: &WeightTable, set: &StringSet, cap: usize, maximal: bool) -> (covers: Option<
    Vec<StringSet>,
>)
    requires
        cap < usize::MAX,
    ensures
        match covers {
            Some(covers) => all_covers(*table, set@, cap as int, maximal) == Some(views(covers@))
                && covers_wf(covers@),
            None => all_covers(*table, set@, cap as int, maximal) is None,
        },
{
    if set.len() > cap {
        return None;
    }
    let mut covers: Vec<StringSet> = Vec::new();
    let mut total: usize = 0;
    let mut i: usize = 0;
    assert(views(covers@) =~= Seq::<Seq<Seq<u8>>>::empty());
    while i < set.len()
        invariant
            i <= set@.len() <= cap < usize::MAX,
            covers_wf(covers@),
            covers_upto(*table, set@, i as int, cap as int, maximal) == Some(views(covers@)),
            total == total_grams(views(covers@)),
            total <= cap,
        decreases set@.len() - i,
    {
        let s = set.at(i).as_bytes();
        let grams = clean_set(
            if maximal {
                guaranteed(table, s)
            } else {
                cover_one(table, s)
            },
        );
        let ghost prior = views(covers@);
        assert(prior.push(grams@).drop_last() =~= prior);
        total = add_to_max(total, grams.len());
        if grams.is_empty() || total > cap {
            proof {
                lemma_covers_stop(*table, set@, i + 1, cap as int, maximal);
            }
            return None;
        }
        covers.push(grams);
        assert(views(covers@) =~= prior.push(grams@));
        i = i + 1;
    }
    Some(covers)
}

/// Once a cover fails, so do all longer walks.
proof fn lemma_covers_stop(t: WeightTable, set: Seq<Seq<u8>>, n: int, cap: int, maximal: bool)
    requires
        0 <= n <= set.len(),
        covers_upto(t, set, n, cap, maximal) is None,
    ensures
        covers_upto(t, set, set.len() as int, cap, maximal) is None,
    decreases set.len() - n,
{
    if n < set.len() {
        lemma_covers_stop(t, set, n + 1, cap, maximal);
    }
}

/// Whether `gram` stands in `s` at `at`.
fn stands_at(s: &[u8], gram: &[u8], at: usize) -> (found: bool)
    requires
        at + gram@.len() <= s@.len(),
    ensures
        found == occurs_at(gram@, s@, at as int),
{
    let n: usize = s.len();
    let mut i: usize = 0;
    while i < gram.len()
        invariant
            i <= gram@.len(),
            at + gram@.len() <= s@.len() == n,
            forall|k: int| 0 <= k < i ==> s@[at + k] == gram@[k],
        decreases gram@.len() - i,
    {
        if s[at + i] != gram[i] {
            assert(s@.subrange(at as int, at + gram@.len())[i as int] != gram@[i as int]);
            return false;
        }
        i = i + 1;
    }
    assert(gram@ =~= s@.subrange(at as int, at + gram@.len()));
    true
}

/// True when some occurrence of `gram` in `s` covers the center byte, so a
/// branch's single gram keeps the middle its edge windows cannot pin.
fn spans_center(s: &[u8], gram: &[u8]) -> (spans: bool)
    ensures
        spans == reaches_center(s@, gram@),
{
    let center: usize = s.len() / 2;
    if gram.len() == 0 || gram.len() > s.len() {
        return false;
    }
    let first: usize = if center >= gram.len() - 1 {
        center - (gram.len() - 1)
    } else {
        0
    };
    let last: usize = if center < s.len() - gram.len() {
        center
    } else {
        s.len() - gram.len()
    };
    let n: usize = s.len();
    let mut start: usize = first;
    while start <= last
        invariant
            n == s@.len(),
            first <= start,
            start <= last + 1,
            0 < gram@.len() <= s@.len(),
            last <= s@.len() - gram@.len(),
            center == s@.len() as int / 2,
            last <= center,
            first + gram@.len() > center,
            forall|at: int| first <= at < start ==> !(#[trigger] occurs_at(gram@, s@, at)),
        decreases last + 1 - start,
    {
        if stands_at(s, gram, start) {
            return true;
        }
        start = start + 1;
    }
    assert forall|at: int| #[trigger] occurs_at(gram@, s@, at) implies !(at <= s@.len() as int / 2
        < at + gram@.len()) by {}
    false
}

/// Whether `gram` outranks the one kept so far, and the center flag to store
/// with it. Ranking is by center span, then length, then bytes; the center
/// test runs only where it can change the answer.
fn ranks_above(s: &[u8], best: &Option<(bool, Gram)>, gram: &Gram) -> (rank: Option<bool>)
    requires
        best matches Some((top, kept)) ==> top == reaches_center(s@, kept@),
    ensures
        rank is Some <==> (best matches Some((top, kept)) ==> outranks(s@, gram@, kept@)),
        rank matches Some(spans) ==> spans == reaches_center(s@, gram@),
{
    match best {
        None => Some(spans_center(s, gram.as_bytes())),
        Some((top, kept)) => {
            let longer = gram.len() > kept.len() || (gram.len() == kept.len() && is_before(
                Order::Prefix,
                kept,
                gram,
            ));
            if *top && !longer {
                return None;
            }
            let spans = spans_center(s, gram.as_bytes());
            let above = if spans == *top {
                longer
            } else {
                spans
            };
            if above {
                Some(spans)
            } else {
                None
            }
        },
    }
}

/// The strongest single guaranteed gram for a branch: one that covers the
/// center first, then the longest, then lexicographic for stable plans.
fn single_cover(table: &WeightTable, s: &[u8]) -> (best: Option<Gram>)
    ensures
        match best {
            Some(g) => single(*table, s@) == Some(g@),
            None => single(*table, s@) is None,
        },
{
    let grams = guaranteed(table, s);
    let ghost all = texts(grams@);
    let mut best: Option<(bool, Gram)> = None;
    let mut i: usize = 0;
    while i < grams.len()
        invariant
            i <= grams@.len(),
            all == texts(grams@),
            match best {
                Some((top, kept)) => top == reaches_center(s@, kept@) && strongest(
                    s@,
                    all.take(i as int),
                    kept@,
                ),
                None => i == 0,
            },
        decreases grams@.len() - i,
    {
        let ghost seen = all.take(i as int);
        let ghost last = all[i as int];
        assert(all.take(i + 1) =~= seen.push(last));
        let ghost prior = best;
        if let Some(spans) = ranks_above(s, &best, &grams[i]) {
            best = Some((spans, grams[i].duplicate()));
        }
        proof {
            let g = (best->0).1@;
            lemma_push_contains(seen, last, g);
            assert forall|h: Seq<u8>| #[trigger] seen.push(last).contains(h) implies !outranks(
                s@,
                h,
                g,
            ) by {
                lemma_push_contains(seen, last, h);
                lemma_outranks(s@, h, last, h);
                lemma_outranks(s@, h, g, h);
                if prior is Some {
                    let p = (prior->0).1@;
                    lemma_outranks(s@, h, p, h);
                    lemma_outranks(s@, last, p, h);
                    lemma_outranks(s@, p, h, last);
                    lemma_outranks(s@, h, last, p);
                }
            }
        }
        i = i + 1;
    }
    assert(all.take(i as int) =~= all);
    match best {
        Some((_, g)) => {
            proof {
                lemma_single(*table, s@);
                lemma_strongest_unique(s@, all, g@, single(*table, s@)->0);
            }
            Some(g)
        },
        None => None,
    }
}

/// The longest edge truncation of `set` that collapses to at most
/// [`MAX_SET`] distinct strings of gram length.
fn distinct_edge(set: &StringSet, order: Order) -> (edge: Option<StringSet>)
    requires
        set.wf(),
    ensures
        match edge {
            Some(edge) => edge.wf() && edge_of(set@, order) == Some(edge@) && edge@.len()
                <= MAX_SET,
            None => edge_of(set@, order) is None,
        },
{
    let mut edge = set.duplicate();
    edge.clean(order);
    proof {
        lemma_cleaned(order, set@);
    }
    if edge.min_len() < QuerySettings::MIN_GRAM_LEN {
        return None;
    }
    let longest: usize = edge.max_len();
    let hi: usize = if longest > 0 {
        longest - 1
    } else {
        0
    };
    let keep = edge.longest_fit(order, hi, MAX_SET);
    proof {
        lemma_fit(order, edge@, hi as int, MAX_SET as int, keep);
        if longest == 0 {
            assert(fit(order, edge@, -1, MAX_SET as int) is None);
        }
    }
    match keep {
        None => None,
        Some(keep) => {
            if keep < QuerySettings::MIN_GRAM_LEN {
                return None;
            }
            edge.truncate(order, keep);
            edge.clean(order);
            Some(edge)
        },
    }
}

/// The longest fitting cut is what a downward search finds.
proof fn lemma_fit(order: Order, s: Seq<Seq<u8>>, hi: int, target: int, keep: Option<usize>)
    requires
        match keep {
            Some(keep) => 1 <= keep <= hi && fits(order, s, keep as int, target) && (forall|k: int|
                keep < k <= hi ==> !fits(order, s, k, target)),
            None => forall|k: int| 1 <= k <= hi ==> !fits(order, s, k, target),
        },
    ensures
        match keep {
            Some(keep) => fit(order, s, hi, target) == Some(keep as int),
            None => fit(order, s, hi, target) is None,
        },
    decreases hi,
{
    if hi > 0 && !fits(order, s, hi, target) {
        lemma_fit(order, s, hi - 1, target, keep);
    }
}

impl<'a> Analyzer<'a> {
    /// `q` AND the OR over each string's covering grams. A string shorter
    /// than a gram, or one that covers to nothing, leaves `q` unconstrained,
    /// as does an exhausted budget outside the final flush.
    ///
    /// A flush may spend at most half the remaining budget (floored, see
    /// [`Analyzer::flush_cap`]), measured on the real covers: a few-branch
    /// set tries maximal covers first, falls back to each string's minimal
    /// cover, then to one gram per string, and only then shortens the windows
    /// to fit. `order` says which end to drop, and must match the set's kind
    /// so shortening preserves guaranteed containment (prefix-like sets,
    /// including exact sets, shorten from the tail; suffix sets from the
    /// head).
    pub fn and_grams(&mut self, q: Query, set: &StringSet, order: Order) -> (r: Query)
        requires
            q.wf(),
            set.wf(),
        ensures
            r.wf(),
            (r.tree(), final(self).stage()) == and_set(old(self).stage(), q.tree(), set@, order),
        decreases (if set@.len() > MAX_SET { 1int } else { 0int }), 1int,
    {
        proof {
            reveal(and_set);
        }
        if set.is_empty() || set.min_len() < QuerySettings::MIN_GRAM_LEN || !self.may_flush() {
            return q;
        }
        let cap: usize = self.flush_cap();
        if set.len() <= MAX_MAXIMAL_COVER_BRANCHES {
            if let Some(covers) = self.maximal_covers(set, cap) {
                return self.or_covers(q, covers);
            }
        }
        if let Some(covers) = self.minimal_covers(set, cap) {
            return self.or_covers(q, covers);
        }
        let left: usize = self.budget_left();
        if let Some(grams) = self.branch_single_covers(set, left) {
            let q = self.and_edge_windows(q, set);
            return self.and_or_grams(q, grams);
        }
        self.truncated_cover(q, set, order, cap)
    }

    /// AND in the distinct head and tail windows of an oversized set. The
    /// per-branch single-gram OR is as weak as its most shared member (a
    /// gram missing one class byte admits scattered occurrences), while the
    /// edge windows pin a real seam on each side.
    fn and_edge_windows(&mut self, q: Query, set: &StringSet) -> (r: Query)
        requires
            q.wf(),
            set.wf(),
        ensures
            r.wf(),
            (r.tree(), final(self).stage()) == if set@.len() > MAX_SET {
                let (q0, g0) = match edge_of(set@, Order::Prefix) {
                    Some(heads) => with_set(
                        old(self).stage(),
                        q.tree(),
                        heads,
                        Order::Prefix,
                        false,
                    ),
                    None => (q.tree(), old(self).stage()),
                };
                match edge_of(set@, Order::Suffix) {
                    Some(tails) => with_set(g0, q0, tails, Order::Suffix, false),
                    None => (q0, g0),
                }
            } else {
                (q.tree(), old(self).stage())
            },
        decreases (if set@.len() > MAX_SET { 1int } else { 0int }), 0int,
    {
        proof {
            reveal(and_set);
        }
        if set.len() <= MAX_SET {
            return q;
        }
        let q = match distinct_edge(set, Order::Prefix) {
            Some(heads) => {
                proof {
                    lemma_small_set(self.stage(), q.tree(), heads@, Order::Prefix);
                }
                self.and_grams(q, &heads, Order::Prefix)
            },
            None => q,
        };
        match distinct_edge(set, Order::Suffix) {
            Some(tails) => {
                proof {
                    lemma_small_set(self.stage(), q.tree(), tails@, Order::Suffix);
                }
                self.and_grams(q, &tails, Order::Suffix)
            },
            None => q,
        }
    }

    fn truncated_cover(&mut self, q: Query, set: &StringSet, order: Order, cap: usize) -> (r: Query)
        requires
            q.wf(),
            set.wf(),
            cap < usize::MAX,
        ensures
            r.wf(),
            (r.tree(), final(self).stage()) == with_truncated(
                old(self).stage(),
                q.tree(),
                set@,
                order,
                cap as int,
            ),
    {
        let mut fitted = set.duplicate();
        let ghost goal = with_truncated(self.stage(), q.tree(), set@, order, cap as int);
        while fitted.max_len() > QuerySettings::MIN_GRAM_LEN
            invariant
                fitted.wf(),
                q.wf(),
                cap < usize::MAX,
                self.stage() == old(self).stage(),
                goal == with_truncated(old(self).stage(), q.tree(), set@, order, cap as int),
                goal == with_truncated(self.stage(), q.tree(), fitted@, order, cap as int),
            decreases max_len(fitted@),
        {
            let keep: usize = fitted.max_len() - 1;
            proof {
                lemma_cut_shrinks(order, fitted@, keep as int);
            }
            fitted.truncate(order, keep);
            fitted.clean(order);
            if fitted.min_len() < QuerySettings::MIN_GRAM_LEN {
                return q;
            }
            if let Some(covers) = self.minimal_covers(&fitted, cap) {
                return self.or_covers(q, covers);
            }
        }
        q
    }

    /// The maximal covers of each string in `set`, or `None` when a string
    /// covers to nothing or the total exceeds `cap`.
    fn maximal_covers(&self, set: &StringSet, cap: usize) -> (covers: Option<Vec<StringSet>>)
        requires
            cap < usize::MAX,
        ensures
            match covers {
                Some(covers) => all_covers(self.stage().table, set@, cap as int, true) == Some(
                    views(covers@),
                ) && covers_wf(covers@),
                None => all_covers(self.stage().table, set@, cap as int, true) is None,
            },
    {
        gather_covers(self.table(), set, cap, true)
    }

    /// The minimal covers of each string in `set`, or `None` when a string
    /// covers to nothing or the total exceeds `cap`.
    fn minimal_covers(&self, set: &StringSet, cap: usize) -> (covers: Option<Vec<StringSet>>)
        requires
            cap < usize::MAX,
        ensures
            match covers {
                Some(covers) => all_covers(self.stage().table, set@, cap as int, false) == Some(
                    views(covers@),
                ) && covers_wf(covers@),
                None => all_covers(self.stage().table, set@, cap as int, false) is None,
            },
    {
        gather_covers(self.table(), set, cap, false)
    }

    /// One selective gram per string in a large exact/prefix/suffix set.
    ///
    /// Full covers are strongest, but class products such as
    /// `[A-Za-z][A-Za-z]` can have thousands of branches. Truncating those
    /// branches before recording any gram loses the variable-slot
    /// correlation. Keeping the strongest guaranteed gram from each branch is
    /// still sound, fits the remaining global budget, and preserves a
    /// correlated middle window for broad finite classes and numeric runs.
    pub fn branch_single_covers(&self, set: &StringSet, cap: usize) -> (grams: Option<StringSet>)
        ensures
            match grams {
                Some(grams) => grams.wf() && strictly_ascending(Order::Prefix, grams@)
                    && single_covers(self.stage().table, set@, cap as int) == Some(grams@),
                None => single_covers(self.stage().table, set@, cap as int) is None,
            },
    {
        if set.len() > cap {
            return None;
        }
        let ghost t = self.stage().table;
        let mut grams: Vec<Gram> = Vec::new();
        let mut i: usize = 0;
        assert(texts(grams@) =~= Seq::<Seq<u8>>::empty());
        while i < set.len()
            invariant
                i <= set@.len(),
                t == self.stage().table,
                singles_upto(t, set@, i as int) == Some(texts(grams@)),
            decreases set@.len() - i,
        {
            match single_cover(self.table(), set.at(i).as_bytes()) {
                Some(g) => {
                    let ghost prior = texts(grams@);
                    grams.push(g);
                    assert(texts(grams@) =~= prior.push(g@));
                },
                None => {
                    proof {
                        lemma_singles_stop(t, set@, i + 1);
                    }
                    return None;
                },
            }
            i = i + 1;
        }
        Some(clean_set(grams))
    }

    /// AND into `q` the OR over `grams`, spending the budget by their number.
    pub fn and_or_grams(&mut self, q: Query, grams: StringSet) -> (r: Query)
        requires
            q.wf(),
            grams.wf(),
            strictly_ascending(Order::Prefix, grams@),
        ensures
            r.wf(),
            (r.tree(), final(self).stage()) == with_grams(old(self).stage(), q.tree(), grams@),
    {
        let n: usize = grams.len();
        self.spend(n);
        q.and(Query::grams(Op::Or, grams))
    }

    /// AND into `q` the OR over already-built branch covers, spending the
    /// budget by their exact size.
    fn or_covers(&mut self, q: Query, covers: Vec<StringSet>) -> (r: Query)
        requires
            q.wf(),
            covers_wf(covers@),
        ensures
            r.wf(),
            (r.tree(), final(self).stage()) == with_covers(
                old(self).stage(),
                q.tree(),
                views(covers@),
            ),
    {
        let mut or = Query::none();
        let mut total: usize = 0;
        let mut i: usize = 0;
        let ghost all = views(covers@);
        while i < covers.len()
            invariant
                i <= covers@.len(),
                all == views(covers@),
                covers_wf(covers@),
                or.wf(),
                or.tree() == ored(all.take(i as int)),
                total == clamp(total_grams(all.take(i as int))),
                total_grams(all.take(i as int)) >= 0,
                self.stage() == old(self).stage(),
            decreases covers@.len() - i,
        {
            assert(all.take(i + 1).drop_last() =~= all.take(i as int));
            total = add_to_max(total, covers[i].len());
            or = or.or(Query::grams(Op::And, covers[i].duplicate()));
            i = i + 1;
        }
        assert(all.take(i as int) =~= all);
        self.spend(total);
        q.and(or)
    }
}

proof fn lemma_singles_stop(t: WeightTable, set: Seq<Seq<u8>>, n: int)
    requires
        0 <= n <= set.len(),
        singles_upto(t, set, n) is None,
    ensures
        singles_upto(t, set, set.len() as int) is None,
    decreases set.len() - n,
{
    if n < set.len() {
        lemma_singles_stop(t, set, n + 1);
    }
}

/// A set within bounds has no edge windows.
proof fn lemma_small_set(g: Stage, q: Tree, set: Seq<Seq<u8>>, order: Order)
    requires
        set.len() <= MAX_SET,
    ensures
        with_set(g, q, set, order, true) == with_set(g, q, set, order, false),
{
}

} // verus!
