//! Covering grams: the grams a text containing a literal is sure to hold.

use vstd::prelude::*;

use crate::extract::{
    all_spans, emissions, is_gram, is_hull, law_grams_survive, law_scan_emits_the_grams,
    law_scan_is_complete, occurs_at, pair_weight, scan_slice, MAX_LEN, MIN_LEN,
};
use crate::hashing::{gram_hash, HashKey};
use crate::query::gram::{copy_range, texts, Gram};
use crate::table::WeightTable;

verus! {

/// A covering pass: the open pairs, heaviest first, and the spans so far.
pub ghost struct CoverState {
    /// Weight and position of each open pair.
    pub stack: Seq<(u32, int)>,
    /// The spans emitted so far.
    pub spans: Seq<(int, int)>,
}

/// Pop the stack down to one entry, emitting the span of each popped pair.
pub open spec fn drained(c: CoverState) -> CoverState
    decreases c.stack.len(),
{
    if c.stack.len() <= 1 {
        c
    } else {
        let top = c.stack.last().1;
        let below = c.stack[c.stack.len() - 2].1;
        drained(CoverState { stack: c.stack.drop_last(), spans: c.spans.push((below, top + 2)) })
    }
}

/// Pop the entries lighter than `w`. Where the popped entry weighs as much as
/// the first, the whole stack is one plateau, and its spans come out left to
/// right.
pub open spec fn popped(c: CoverState, w: u32, end: int) -> CoverState
    decreases c.stack.len(),
    via popped_shrinks
{
    if c.stack.len() == 0 || w <= c.stack.last().0 {
        c
    } else {
        let (top, pos) = c.stack.last();
        let glued = if c.stack[0].0 == top {
            drained(CoverState { stack: c.stack, spans: c.spans.push((pos, end)) })
        } else {
            c
        };
        popped(CoverState { stack: glued.stack.drop_last(), spans: glued.spans }, w, end)
    }
}

pub proof fn lemma_drained_len(c: CoverState)
    ensures
        drained(c).stack.len() == if c.stack.len() <= 1 {
            c.stack.len()
        } else {
            1
        },
    decreases c.stack.len(),
{
    if c.stack.len() > 1 {
        let top = c.stack.last().1;
        let below = c.stack[c.stack.len() - 2].1;
        lemma_drained_len(
            CoverState { stack: c.stack.drop_last(), spans: c.spans.push((below, top + 2)) },
        );
    }
}

#[via_fn]
proof fn popped_shrinks(c: CoverState, w: u32, end: int) {
    let (top, pos) = c.stack.last();
    lemma_drained_len(CoverState { stack: c.stack, spans: c.spans.push((pos, end)) });
}

/// The pass over the pair at `i`: a first entry about to fall out of a gram's
/// reach is emitted and dropped, lighter entries pop, and the pair is pushed.
pub open spec fn cover_step(t: WeightTable, s: Seq<u8>, c: CoverState, i: int) -> CoverState {
    let w = pair_weight(t, s, i);
    let c1 = if c.stack.len() > 1 && i + 3 - c.stack[0].1 >= MAX_LEN {
        CoverState {
            stack: c.stack.drop_first(),
            spans: c.spans.push((c.stack[0].1, c.stack[1].1 + 2)),
        }
    } else {
        c
    };
    let c2 = popped(c1, w, i + 2);
    CoverState { stack: c2.stack.push((w, i)), spans: c2.spans }
}

/// The pass over the first `n` pairs.
pub open spec fn covered(t: WeightTable, s: Seq<u8>, n: int) -> CoverState
    decreases n,
{
    if n <= 0 {
        CoverState { stack: Seq::empty(), spans: Seq::empty() }
    } else {
        cover_step(t, s, covered(t, s, n - 1), n - 1)
    }
}

/// The spans of the minimal covering of `s`, of any length.
pub open spec fn cover_spans(t: WeightTable, s: Seq<u8>) -> Seq<(int, int)> {
    drained(covered(t, s, s.len() - 1)).spans
}

/// The texts of the spans of a gram's length.
pub open spec fn sized_texts(spans: Seq<(int, int)>, s: Seq<u8>) -> Seq<Seq<u8>>
    decreases spans.len(),
{
    if spans.len() == 0 {
        Seq::empty()
    } else {
        let (p, e) = spans.last();
        let head = sized_texts(spans.drop_last(), s);
        if MIN_LEN <= e - p <= MAX_LEN {
            head.push(s.subrange(p, e))
        } else {
            head
        }
    }
}

/// The covering grams of a literal, in the order the pass closes them.
pub open spec fn minimal_grams(t: WeightTable, s: Seq<u8>) -> Seq<Seq<u8>> {
    sized_texts(cover_spans(t, s), s)
}

/// Every gram of a literal, in scan order.
pub open spec fn guaranteed_grams(t: WeightTable, s: Seq<u8>) -> Seq<Seq<u8>> {
    sized_texts(all_spans(t, s), s)
}

/// The open pairs before the pair at `i`: positions rise up to the previous
/// pair, weights never rise, and every pair between two entries weighs less
/// than the later one.
pub open spec fn cover_inv(t: WeightTable, s: Seq<u8>, st: Seq<(u32, int)>, i: int) -> bool {
    &&& i <= 0 ==> st.len() == 0
    &&& i > 0 ==> st.len() > 0 && st.last().1 == i - 1
    &&& entries_inv(t, s, st, i)
}

pub open spec fn entries_inv(t: WeightTable, s: Seq<u8>, st: Seq<(u32, int)>, i: int) -> bool {
    &&& forall|j: int|
        0 <= j < st.len() ==> 0 <= (#[trigger] st[j]).1 < i && st[j].0 == pair_weight(
            t,
            s,
            st[j].1,
        )
    &&& forall|j: int, k: int|
        0 <= j < k < st.len() ==> (#[trigger] st[j]).1 < (#[trigger] st[k]).1 && st[j].0 >= st[k].0
    &&& forall|j: int| 1 <= j < st.len() ==> #[trigger] lighter_between(t, s, st[j - 1].1, st[j].1)
}

pub open spec fn lighter_between(t: WeightTable, s: Seq<u8>, p: int, q: int) -> bool {
    forall|k: int| p < k < q ==> #[trigger] pair_weight(t, s, k) < pair_weight(t, s, q)
}

/// Every span is a hull.
pub open spec fn all_hulls(t: WeightTable, s: Seq<u8>, spans: Seq<(int, int)>) -> bool {
    forall|j: int| 0 <= j < spans.len() ==> is_hull(t, s, (#[trigger] spans[j]).0, spans[j].1)
}

proof fn lemma_entry_span(t: WeightTable, s: Seq<u8>, st: Seq<(u32, int)>, i: int, j: int)
    requires
        entries_inv(t, s, st, i),
        1 <= j < st.len(),
        i < s.len(),
    ensures
        is_hull(t, s, st[j - 1].1, st[j].1 + 2),
{
    let (p, q) = (st[j - 1].1, st[j].1);
    assert(lighter_between(t, s, p, q));
    assert(st[j - 1].1 < st[j].1 && st[j - 1].0 >= st[j].0);
}

pub proof fn lemma_entries_prefix(t: WeightTable, s: Seq<u8>, st: Seq<(u32, int)>, i: int)
    requires
        entries_inv(t, s, st, i),
        st.len() > 0,
    ensures
        entries_inv(t, s, st.drop_last(), i),
        entries_inv(t, s, st.drop_first(), i),
{
    let a = st.drop_last();
    let b = st.drop_first();
    assert forall|j: int| 1 <= j < a.len() implies #[trigger] lighter_between(
        t,
        s,
        a[j - 1].1,
        a[j].1,
    ) by {
        assert(lighter_between(t, s, st[j - 1].1, st[j].1));
    }
    assert forall|j: int| 1 <= j < b.len() implies #[trigger] lighter_between(
        t,
        s,
        b[j - 1].1,
        b[j].1,
    ) by {
        assert(lighter_between(t, s, st[j + 1 - 1].1, st[j + 1].1));
    }
}

pub proof fn lemma_drained_hulls(t: WeightTable, s: Seq<u8>, c: CoverState, i: int)
    requires
        entries_inv(t, s, c.stack, i),
        all_hulls(t, s, c.spans),
        i < s.len(),
    ensures
        all_hulls(t, s, drained(c).spans),
        entries_inv(t, s, drained(c).stack, i),
    decreases c.stack.len(),
{
    if c.stack.len() > 1 {
        let n = c.stack.len();
        lemma_entry_span(t, s, c.stack, i, n - 1);
        lemma_entries_prefix(t, s, c.stack, i);
        let next = CoverState {
            stack: c.stack.drop_last(),
            spans: c.spans.push((c.stack[n - 2].1, c.stack.last().1 + 2)),
        };
        lemma_drained_hulls(t, s, next, i);
    }
}

/// Every pair from the last open one up to `i` weighs less than `w` and less
/// than the first open one.
spec fn tail_light(t: WeightTable, s: Seq<u8>, st: Seq<(u32, int)>, w: u32, i: int) -> bool {
    st.len() > 0 ==> forall|k: int|
        st.last().1 < k < i ==> #[trigger] pair_weight(t, s, k) < w && pair_weight(t, s, k)
            < st[0].0
}

proof fn lemma_popped_hulls(t: WeightTable, s: Seq<u8>, c: CoverState, i: int)
    requires
        entries_inv(t, s, c.stack, i),
        all_hulls(t, s, c.spans),
        tail_light(t, s, c.stack, pair_weight(t, s, i), i),
        0 <= i < s.len() - 1,
    ensures
        ({
            let r = popped(c, pair_weight(t, s, i), i + 2);
            &&& all_hulls(t, s, r.spans)
            &&& entries_inv(t, s, r.stack, i)
            &&& tail_light(t, s, r.stack, pair_weight(t, s, i), i)
            &&& r.stack.len() > 0 ==> r.stack.last().0 >= pair_weight(t, s, i)
        }),
    decreases c.stack.len(),
{
    let w = pair_weight(t, s, i);
    if c.stack.len() > 0 && w > c.stack.last().0 {
        let n = c.stack.len();
        let (top, pos) = c.stack.last();
        assert(c.stack[n - 1] == (top, pos));
        if c.stack[0].0 == top {
            let g = CoverState { stack: c.stack, spans: c.spans.push((pos, i + 2)) };
            assert(is_hull(t, s, pos, i + 2));
            lemma_drained_hulls(t, s, g, i);
            lemma_drained_len(g);
            let d = drained(g);
            let next = CoverState { stack: d.stack.drop_last(), spans: d.spans };
            assert(next.stack.len() == 0);
            lemma_popped_hulls(t, s, next, i);
        } else {
            lemma_entries_prefix(t, s, c.stack, i);
            let next = CoverState { stack: c.stack.drop_last(), spans: c.spans };
            if n > 1 {
                let q = pos;
                let j = n - 1;
                assert(lighter_between(t, s, c.stack[j - 1].1, c.stack[j].1));
                assert(c.stack[0].0 >= c.stack[n - 1].0);
                assert forall|k: int| next.stack.last().1 < k < i implies #[trigger] pair_weight(
                    t,
                    s,
                    k,
                ) < w && pair_weight(t, s, k) < next.stack[0].0 by {
                    if k > q {
                    } else if k == q {
                    } else {
                        assert(pair_weight(t, s, k) < pair_weight(t, s, q));
                    }
                }
            }
            lemma_popped_hulls(t, s, next, i);
        }
    }
}

pub proof fn lemma_covered_hulls(t: WeightTable, s: Seq<u8>, n: int)
    requires
        n < s.len() || n <= 0,
    ensures
        all_hulls(t, s, covered(t, s, n).spans),
        cover_inv(t, s, covered(t, s, n).stack, n),
    decreases n,
{
    if n > 0 {
        let i = n - 1;
        lemma_covered_hulls(t, s, i);
        let c = covered(t, s, i);
        let w = pair_weight(t, s, i);
        let drops = c.stack.len() > 1 && i + 3 - c.stack[0].1 >= MAX_LEN;
        let c1 = if drops {
            CoverState {
                stack: c.stack.drop_first(),
                spans: c.spans.push((c.stack[0].1, c.stack[1].1 + 2)),
            }
        } else {
            c
        };
        if drops {
            lemma_entry_span(t, s, c.stack, i, 1);
            lemma_entries_prefix(t, s, c.stack, i);
            assert(c1.stack.last() == c.stack.last());
        }
        assert(c1.stack.len() > 0 ==> c1.stack.last().1 == i - 1);
        lemma_popped_hulls(t, s, c1, i);
        let c2 = popped(c1, w, i + 2);
        let st = c2.stack.push((w, i));
        assert forall|j: int| 1 <= j < st.len() implies #[trigger] lighter_between(
            t,
            s,
            st[j - 1].1,
            st[j].1,
        ) by {
            if j < c2.stack.len() {
                assert(lighter_between(t, s, c2.stack[j - 1].1, c2.stack[j].1));
            }
        }
        assert forall|j: int, k: int| 0 <= j < k < st.len() implies (#[trigger] st[j]).1 < (
        #[trigger] st[k]).1 && st[j].0 >= st[k].0 by {
            if k == c2.stack.len() {
                if j < c2.stack.len() - 1 {
                    assert(c2.stack[j].0 >= c2.stack[c2.stack.len() - 1].0);
                }
            }
        }
    }
}

/// Every text of a sized span list comes from one of the spans.
proof fn lemma_sized_texts(spans: Seq<(int, int)>, s: Seq<u8>, g: Seq<u8>)
    requires
        sized_texts(spans, s).contains(g),
    ensures
        exists|j: int|
            0 <= j < spans.len() && MIN_LEN <= spans[j].1 - spans[j].0 <= MAX_LEN && g
                == #[trigger] s.subrange(spans[j].0, spans[j].1),
    decreases spans.len(),
{
    if spans.len() > 0 {
        let (p, e) = spans.last();
        let head = sized_texts(spans.drop_last(), s);
        let all = sized_texts(spans, s);
        let n = choose|n: int| 0 <= n < all.len() && all[n] == g;
        if n < head.len() {
            assert(head[n] == g);
            lemma_sized_texts(spans.drop_last(), s, g);
            let j = choose|j: int|
                0 <= j < spans.len() - 1 && MIN_LEN <= spans.drop_last()[j].1
                    - spans.drop_last()[j].0 <= MAX_LEN && g == #[trigger] s.subrange(
                    spans.drop_last()[j].0,
                    spans.drop_last()[j].1,
                );
            assert(g == s.subrange(spans[j].0, spans[j].1));
        } else {
            assert(spans[spans.len() - 1] == (p, e));
            assert(g == s.subrange(spans[spans.len() - 1].0, spans[spans.len() - 1].1));
        }
    }
}

/// One of the spans has a gram's length.
pub open spec fn some_sized(spans: Seq<(int, int)>) -> bool {
    exists|j: int|
        0 <= j < spans.len() && MIN_LEN <= (#[trigger] spans[j]).1 - spans[j].0 <= MAX_LEN
}

/// The spans of `a` stand at the start of `b`.
pub open spec fn grown(a: Seq<(int, int)>, b: Seq<(int, int)>) -> bool {
    a.len() <= b.len() && forall|j: int| 0 <= j < a.len() ==> #[trigger] a[j] == b[j]
}

proof fn lemma_grown(a: Seq<(int, int)>, b: Seq<(int, int)>)
    requires
        grown(a, b),
        some_sized(a),
    ensures
        some_sized(b),
{
    let j = choose|j: int|
        0 <= j < a.len() && MIN_LEN <= (#[trigger] a[j]).1 - a[j].0 <= MAX_LEN;
    assert(a[j] == b[j]);
}

/// Draining adds spans and leaves the first entry.
pub proof fn lemma_drained_grows(c: CoverState)
    ensures
        grown(c.spans, drained(c).spans),
        c.stack.len() > 0 ==> drained(c).stack == c.stack.take(1),
        c.stack.len() > 1 ==> drained(c).spans.contains(
            (c.stack[c.stack.len() - 2].1, c.stack.last().1 + 2),
        ),
    decreases c.stack.len(),
{
    if c.stack.len() > 1 {
        let top = c.stack.last().1;
        let below = c.stack[c.stack.len() - 2].1;
        let next = CoverState { stack: c.stack.drop_last(), spans: c.spans.push((below, top + 2)) };
        lemma_drained_grows(next);
        assert(next.stack.take(1) =~= c.stack.take(1));
        assert forall|j: int| 0 <= j < c.spans.len() implies #[trigger] c.spans[j] == drained(
            c,
        ).spans[j] by {
            assert(next.spans[j] == c.spans[j]);
        }
        assert(next.spans[c.spans.len() as int] == (below, top + 2));
        assert(drained(c).spans[c.spans.len() as int] == (below, top + 2));
    } else if c.stack.len() == 1 {
        assert(c.stack.take(1) =~= c.stack);
    }
}

/// The entries lie between `lo` and the pair that ends at `end`, in order.
pub open spec fn entries_within(st: Seq<(u32, int)>, lo: int, end: int) -> bool {
    &&& forall|j: int| 0 <= j < st.len() ==> lo <= (#[trigger] st[j]).1 <= end - 3
    &&& end - lo <= MAX_LEN
}

/// Popping adds spans, leaves the first entries, and closes a gram where it
/// leaves none.
proof fn lemma_popped_grows(c: CoverState, w: u32, lo: int, end: int)
    requires
        entries_within(c.stack, lo, end),
    ensures
        grown(c.spans, popped(c, w, end).spans),
        popped(c, w, end).stack.len() <= c.stack.len(),
        popped(c, w, end).stack == c.stack.take(popped(c, w, end).stack.len() as int),
        c.stack.len() > 0 && popped(c, w, end).stack.len() == 0 ==> some_sized(
            popped(c, w, end).spans,
        ),
    decreases c.stack.len(),
{
    if c.stack.len() == 0 || w <= c.stack.last().0 {
        assert(c.stack.take(c.stack.len() as int) =~= c.stack);
    } else {
        let (top, pos) = c.stack.last();
        let more = CoverState { stack: c.stack, spans: c.spans.push((pos, end)) };
        let glues = c.stack[0].0 == top;
        let glued = if glues {
            drained(more)
        } else {
            c
        };
        lemma_drained_grows(more);
        let next = CoverState { stack: glued.stack.drop_last(), spans: glued.spans };
        if glues {
            assert(next.stack =~= c.stack.take(0));
        } else {
            assert(next.stack =~= c.stack.take(c.stack.len() - 1));
        }
        lemma_popped_grows(next, w, lo, end);
        let r = popped(c, w, end);
        assert(r == popped(next, w, end));
        assert(r.stack =~= c.stack.take(r.stack.len() as int));
        if glues {
            assert(more.spans[c.spans.len() as int] == (pos, end));
            assert(some_sized(more.spans));
            lemma_grown(more.spans, glued.spans);
            lemma_grown(glued.spans, r.spans);
            assert forall|j: int| 0 <= j < c.spans.len() implies #[trigger] c.spans[j]
                == r.spans[j] by {
                assert(more.spans[j] == c.spans[j]);
                assert(glued.spans[j] == more.spans[j]);
            }
        } else {
            assert(c.stack.len() > 1);
        }
    }
}

/// A pass over two pairs or more has closed a gram, or keeps two entries
/// within a gram's reach of each other.
pub proof fn lemma_covered_reach(t: WeightTable, s: Seq<u8>, n: int)
    requires
        n < s.len(),
    ensures
        ({
            let c = covered(t, s, n);
            &&& c.stack.len() > 1 ==> n + 2 - c.stack[0].1 < MAX_LEN
            &&& n >= 2 ==> some_sized(c.spans) || c.stack.len() > 1
        }),
    decreases n,
{
    if n > 0 {
        let i = n - 1;
        lemma_covered_reach(t, s, i);
        lemma_covered_hulls(t, s, i);
        let c = covered(t, s, i);
        let w = pair_weight(t, s, i);
        let drops = c.stack.len() > 1 && i + 3 - c.stack[0].1 >= MAX_LEN;
        let c1 = if drops {
            CoverState {
                stack: c.stack.drop_first(),
                spans: c.spans.push((c.stack[0].1, c.stack[1].1 + 2)),
            }
        } else {
            c
        };
        if drops {
            assert(c.stack[0].1 < c.stack[1].1);
            assert(c1.spans[c.spans.len() as int] == (c.stack[0].1, c.stack[1].1 + 2));
            assert(some_sized(c1.spans));
        }
        let lo = if c1.stack.len() == 0 {
            i
        } else {
            c1.stack[0].1
        };
        assert forall|j: int| 0 <= j < c1.stack.len() implies lo <= (#[trigger] c1.stack[j]).1 <= i
            - 1 by {
            if drops {
                assert(c1.stack[j] == c.stack[j + 1]);
                assert(c.stack[j + 1].1 < i);
                if j > 0 {
                    assert(c.stack[1].1 < c.stack[j + 1].1);
                }
            } else {
                assert(c.stack[j].1 < i);
                if j > 0 {
                    assert(c.stack[0].1 < c.stack[j].1);
                }
            }
        }
        if c1.stack.len() > 0 {
            assert(c1.stack.last().1 == i - 1);
            if c1.stack.len() == 1 {
                assert(lo == i - 1);
            }
        }
        lemma_popped_grows(c1, w, lo, i + 2);
        let c2 = popped(c1, w, i + 2);
        let r = covered(t, s, n);
        assert(r.stack == c2.stack.push((w, i)));
        if drops {
            lemma_grown(c1.spans, c2.spans);
        }
        if r.stack.len() > 1 {
            assert(r.stack[0] == c1.stack[0]);
        }
    }
}

proof fn lemma_sized_text_exists(spans: Seq<(int, int)>, s: Seq<u8>, j: int)
    requires
        0 <= j < spans.len(),
        MIN_LEN <= spans[j].1 - spans[j].0 <= MAX_LEN,
    ensures
        sized_texts(spans, s).len() > 0,
    decreases spans.len(),
{
    if j < spans.len() - 1 {
        lemma_sized_text_exists(spans.drop_last(), s, j);
    }
}

/// A literal has covering grams exactly where it is as long as a gram.
pub proof fn law_cover_is_empty_for_short_literals(t: WeightTable, s: Seq<u8>)
    ensures
        minimal_grams(t, s).len() == 0 <==> s.len() < MIN_LEN,
{
    let n = s.len() - 1;
    if s.len() < MIN_LEN {
        if minimal_grams(t, s).len() > 0 {
            let g = minimal_grams(t, s)[0];
            assert(minimal_grams(t, s).contains(g));
            law_cover_in_scan(t, s, g);
        }
    } else {
        lemma_covered_reach(t, s, n);
        lemma_covered_hulls(t, s, n);
        let c = covered(t, s, n);
        let spans = cover_spans(t, s);
        lemma_drained_grows(c);
        if some_sized(c.spans) {
            lemma_grown(c.spans, spans);
        } else {
            let k = c.stack.len() - 1;
            let span = (c.stack[k - 1].1, c.stack[k].1 + 2);
            assert(c.stack[k - 1].1 < c.stack[k].1);
            if k > 1 {
                assert(c.stack[0].1 < c.stack[k - 1].1);
            }
            let j = choose|j: int| 0 <= j < spans.len() && spans[j] == span;
            assert(spans[j].1 - spans[j].0 >= MIN_LEN);
        }
        let j = choose|j: int|
            0 <= j < spans.len() && MIN_LEN <= (#[trigger] spans[j]).1 - spans[j].0 <= MAX_LEN;
        lemma_sized_text_exists(spans, s, j);
    }
}

/// The covering grams of a literal are grams of it, so a text containing the
/// literal contains all of them.
pub proof fn law_cover_in_scan(t: WeightTable, s: Seq<u8>, g: Seq<u8>)
    requires
        minimal_grams(t, s).contains(g),
    ensures
        exists|p: int, e: int| is_gram(t, s, p, e) && g == #[trigger] s.subrange(p, e),
{
    lemma_covered_hulls(t, s, s.len() - 1);
    lemma_drained_hulls(t, s, covered(t, s, s.len() - 1), s.len() - 1);
    let spans = cover_spans(t, s);
    lemma_sized_texts(spans, s, g);
    let j = choose|j: int|
        0 <= j < spans.len() && MIN_LEN <= spans[j].1 - spans[j].0 <= MAX_LEN && g
            == #[trigger] s.subrange(spans[j].0, spans[j].1);
    assert(is_hull(t, s, spans[j].0, spans[j].1));
    assert(is_gram(t, s, spans[j].0, spans[j].1));
}

/// Every covering gram has a gram's length, stands in the literal, and comes
/// out of a scan of every text that holds the literal, under every key.
pub proof fn law_cover_is_scanned(
    t: WeightTable,
    literal: Seq<u8>,
    g: Seq<u8>,
    text: Seq<u8>,
    at: int,
    key: HashKey,
)
    requires
        minimal_grams(t, literal).contains(g),
        occurs_at(literal, text, at),
    ensures
        MIN_LEN <= g.len() <= MAX_LEN,
        exists|p: int| occurs_at(g, literal, p),
        emissions(t, text, key).contains((g, gram_hash(g, key))),
{
    law_cover_in_scan(t, literal, g);
    let (p, e) = choose|p: int, e: int|
        is_gram(t, literal, p, e) && g == #[trigger] literal.subrange(p, e);
    assert(occurs_at(g, literal, p));
    law_grams_survive(t, literal, text, at, p, e);
    law_scan_emits_the_grams(t, text, key, g);
}

/// The guaranteed grams of a literal are its grams.
pub proof fn lemma_guaranteed_in_scan(t: WeightTable, s: Seq<u8>, g: Seq<u8>)
    requires
        guaranteed_grams(t, s).contains(g),
    ensures
        exists|p: int, e: int| is_gram(t, s, p, e) && g == #[trigger] s.subrange(p, e),
{
    let spans = all_spans(t, s);
    lemma_sized_texts(spans, s, g);
    let j = choose|j: int|
        0 <= j < spans.len() && MIN_LEN <= spans[j].1 - spans[j].0 <= MAX_LEN && g
            == #[trigger] s.subrange(spans[j].0, spans[j].1);
    assert(spans.contains((spans[j].0, spans[j].1)));
    law_scan_is_complete(t, s, spans[j].0, spans[j].1);
}

/// The model entries behind the executable stack.
spec fn modeled(stack: Seq<(u32, usize)>) -> Seq<(u32, int)> {
    Seq::new(stack.len(), |i: int| (stack[i].0, stack[i].1 as int))
}

/// The model spans behind the executable ones.
spec fn modeled_spans(spans: Seq<(usize, usize)>) -> Seq<(int, int)> {
    Seq::new(spans.len(), |i: int| (spans[i].0 as int, spans[i].1 as int))
}

spec fn state(stack: Seq<(u32, usize)>, spans: Seq<(usize, usize)>) -> CoverState {
    CoverState { stack: modeled(stack), spans: modeled_spans(spans) }
}

/// Pop the stack down to one entry, emitting the gram spanning each popped
/// pair.
fn drain(stack: &mut Vec<(u32, usize)>, spans: &mut Vec<(usize, usize)>)
    requires
        forall|j: int| 0 <= j < old(stack)@.len() ==> (#[trigger] old(stack)@[j]).1 <= usize::MAX - 2,
    ensures
        state(final(stack)@, final(spans)@) == drained(state(old(stack)@, old(spans)@)),
        final(stack)@.len() <= old(stack)@.len(),
        forall|j: int| 0 <= j < final(stack)@.len() ==> final(stack)@[j] == old(stack)@[j],
{
    let ghost goal = drained(state(stack@, spans@));
    while stack.len() > 1
        invariant
            drained(state(stack@, spans@)) == goal,
            stack@.len() <= old(stack)@.len(),
            forall|j: int| 0 <= j < stack@.len() ==> stack@[j] == old(stack)@[j],
            forall|j: int|
                0 <= j < old(stack)@.len() ==> (#[trigger] old(stack)@[j]).1 <= usize::MAX - 2,
        decreases stack@.len(),
    {
        let n: usize = stack.len();
        let top: usize = stack[n - 1].1;
        let below: usize = stack[n - 2].1;
        let ghost (st, sp) = (stack@, spans@);
        stack.truncate(n - 1);
        spans.push((below, top + 2));
        assert(modeled(stack@) =~= modeled(st).drop_last());
        assert(modeled_spans(spans@) =~= modeled_spans(sp).push((below as int, top + 2)));
    }
}

/// Emit the consecutive grams of an equal-weight plateau.
fn glue_plateau(
    stack: &mut Vec<(u32, usize)>,
    back_pos: usize,
    end: usize,
    spans: &mut Vec<(usize, usize)>,
)
    requires
        forall|j: int| 0 <= j < old(stack)@.len() ==> (#[trigger] old(stack)@[j]).1 <= usize::MAX - 2,
    ensures
        state(final(stack)@, final(spans)@) == drained(
            CoverState {
                stack: modeled(old(stack)@),
                spans: modeled_spans(old(spans)@).push((back_pos as int, end as int)),
            },
        ),
        final(stack)@.len() <= old(stack)@.len(),
        forall|j: int| 0 <= j < final(stack)@.len() ==> final(stack)@[j] == old(stack)@[j],
{
    let ghost sp = spans@;
    spans.push((back_pos, end));
    assert(modeled_spans(spans@) =~= modeled_spans(sp).push((back_pos as int, end as int)));
    drain(stack, spans);
}

/// Minimal covering spans: the same hull as a scan restricted to the minimal
/// set, so the cover of a string is always a subset of the scan of any text
/// containing it, the guarantee against missed matches.
fn cover(table: &WeightTable, s: &[u8]) -> (spans: Vec<(usize, usize)>)
    ensures
        modeled_spans(spans@) == cover_spans(*table, s@),
{
    let mut stack: Vec<(u32, usize)> = Vec::new();
    let mut spans: Vec<(usize, usize)> = Vec::new();
    let n: usize = if s.len() == 0 {
        0
    } else {
        s.len() - 1
    };
    let mut i: usize = 0;
    assert(modeled(stack@) =~= Seq::<(u32, int)>::empty());
    assert(modeled_spans(spans@) =~= Seq::<(int, int)>::empty());
    while i < n
        invariant
            i <= n,
            n == if s@.len() == 0 {
                0
            } else {
                s@.len() - 1
            },
            state(stack@, spans@) == covered(*table, s@, i as int),
            forall|j: int| 0 <= j < stack@.len() ==> (#[trigger] stack@[j]).1 < i,
            s@.len() <= usize::MAX,
        decreases n - i,
    {
        let ghost c = state(stack@, spans@);
        let w: u32 = table.weight(s[i], s[i + 1]);
        if stack.len() > 1 && i - stack[0].1 >= MAX_LEN - 3 {
            let ghost (st, sp) = (stack@, spans@);
            spans.push((stack[0].1, stack[1].1 + 2));
            stack.remove(0);
            assert(modeled(stack@) =~= modeled(st).drop_first());
            assert(modeled_spans(spans@) =~= modeled_spans(sp).push(
                (st[0].1 as int, st[1].1 + 2),
            ));
        }
        let ghost goal = popped(state(stack@, spans@), w, i + 2);
        while stack.len() > 0 && w > stack[stack.len() - 1].0
            invariant
                i + 2 <= s@.len() <= usize::MAX,
                popped(state(stack@, spans@), w, i + 2) == goal,
                forall|j: int| 0 <= j < stack@.len() ==> (#[trigger] stack@[j]).1 < i,
            decreases stack@.len(),
        {
            let m: usize = stack.len();
            let (top, pos) = stack[m - 1];
            let ghost before_glue = state(stack@, spans@);
            proof {
                assert(before_glue.stack.last() == (top, pos as int));
                lemma_drained_len(
                    CoverState {
                        stack: before_glue.stack,
                        spans: before_glue.spans.push((pos as int, i + 2)),
                    },
                );
            }
            if stack[0].0 == top {
                glue_plateau(&mut stack, pos, i + 2, &mut spans);
                assert(modeled(stack@).len() == 1);
            }
            let ghost st = stack@;
            let keep: usize = stack.len() - 1;
            stack.truncate(keep);
            assert(modeled(stack@) =~= modeled(st).drop_last());
        }
        let ghost st = stack@;
        proof {
            assert(state(stack@, spans@) == goal);
        }
        stack.push((w, i));
        assert(modeled(stack@) =~= modeled(st).push((w, i as int)));
        i = i + 1;
    }
    proof {
        if s@.len() == 0 {
            assert(covered(*table, s@, -1) == covered(*table, s@, 0));
        }
    }
    drain(&mut stack, &mut spans);
    spans
}

/// Collect the texts of the spans of a gram's length.
fn span_texts(s: &[u8], spans: &Vec<(usize, usize)>) -> (grams: Vec<Gram>)
    requires
        forall|j: int|
            0 <= j < spans@.len() && MIN_LEN <= (#[trigger] spans@[j]).1 - spans@[j].0
                ==> spans@[j].1 <= s@.len(),
    ensures
        texts(grams@) == sized_texts(modeled_spans(spans@), s@),
{
    let mut grams: Vec<Gram> = Vec::new();
    let mut j: usize = 0;
    assert(texts(grams@) =~= sized_texts(modeled_spans(spans@).take(0), s@));
    while j < spans.len()
        invariant
            j <= spans@.len(),
            forall|j: int|
                0 <= j < spans@.len() && MIN_LEN <= (#[trigger] spans@[j]).1 - spans@[j].0
                    ==> spans@[j].1 <= s@.len(),
            texts(grams@) == sized_texts(modeled_spans(spans@).take(j as int), s@),
        decreases spans@.len() - j,
    {
        let (p, e) = spans[j];
        let ghost prior = grams@;
        assert(modeled_spans(spans@).take(j + 1).drop_last() =~= modeled_spans(spans@).take(
            j as int,
        ));
        if p <= e && MIN_LEN <= e - p && e - p <= MAX_LEN {
            grams.push(Gram::from_vec(copy_range(s, p, e)));
            assert(texts(grams@) =~= texts(prior).push(s@.subrange(p as int, e as int)));
        }
        j = j + 1;
    }
    assert(modeled_spans(spans@).take(j as int) =~= modeled_spans(spans@));
    grams
}

/// Covering grams of a single literal. The query analysis ANDs these per
/// literal: a document containing `literal` contains all of them, so none is
/// a false negative.
pub fn cover_one(table: &WeightTable, literal: &[u8]) -> (grams: Vec<Gram>)
    ensures
        texts(grams@) == minimal_grams(*table, literal@),
{
    let spans = cover(table, literal);
    proof {
        let (t, s) = (*table, literal@);
        lemma_covered_hulls(t, s, s.len() - 1);
        lemma_drained_hulls(t, s, covered(t, s, s.len() - 1), s.len() - 1);
        assert forall|j: int|
            0 <= j < spans@.len() && MIN_LEN <= (#[trigger] spans@[j]).1
                - spans@[j].0 implies spans@[j].1 <= s.len() by {
            let m = modeled_spans(spans@);
            assert(is_hull(t, s, m[j].0, m[j].1));
        }
    }
    span_texts(literal, &spans)
}

/// Every gram a scan of `literal` alone emits, in scan order.
pub fn guaranteed(table: &WeightTable, literal: &[u8]) -> (grams: Vec<Gram>)
    ensures
        texts(grams@) == guaranteed_grams(*table, literal@),
{
    let found = scan_slice(table, literal);
    let ghost all = all_spans(*table, literal@);
    let mut spans: Vec<(usize, usize)> = Vec::new();
    let mut j: usize = 0;
    while j < found.len()
        invariant
            j <= found@.len(),
            found@.len() == all.len(),
            spans@.len() == j,
            all == all_spans(*table, literal@),
            forall|k: int|
                0 <= k < found@.len() ==> (#[trigger] found@[k]).start == all[k].0 && found@[k].end
                    == all[k].1,
            forall|k: int|
                0 <= k < j ==> (#[trigger] spans@[k]).0 == all[k].0 && spans@[k].1 == all[k].1,
        decreases found@.len() - j,
    {
        spans.push((found[j].start, found[j].end));
        j = j + 1;
    }
    proof {
        assert(modeled_spans(spans@) =~= all);
        assert forall|j: int|
            0 <= j < spans@.len() && MIN_LEN <= (#[trigger] spans@[j]).1
                - spans@[j].0 implies spans@[j].1 <= literal@.len() by {
            assert(all.contains((all[j].0, all[j].1)));
            law_scan_is_complete(*table, literal@, all[j].0, all[j].1);
        }
    }
    span_texts(literal, &spans)
}

} // verus!
