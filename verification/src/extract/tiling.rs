//! How the covering grams of a literal lie in it.
//!
//! They lie side by side, each meeting the next in one byte pair, and reach from
//! one end of the literal to the other.

use vstd::prelude::*;

use crate::extract::cover::{
    cover_inv, cover_spans, covered, drained, entries_inv, grown, guaranteed_grams,
    lemma_covered_hulls, lemma_covered_reach, lemma_drained_grows, lemma_drained_hulls,
    lemma_drained_len, lemma_entries_prefix, lighter_between, minimal_grams, popped, sized_texts,
    CoverState,
};
use crate::extract::{
    all_spans, has_gram, is_gram, is_hull, law_scan_is_complete, occurs_at, pair_weight, MAX_LEN,
    MIN_LEN,
};
use crate::table::WeightTable;

verus! {

/// The lengths of the grams, together.
pub open spec fn total_len(grams: Seq<Seq<u8>>) -> nat
    decreases grams.len(),
{
    if grams.len() == 0 {
        0
    } else {
        total_len(grams.drop_last()) + grams.last().len()
    }
}

/// One of the grams stands in the text over all of `p..e`.
pub open spec fn some_gram_over(grams: Seq<Seq<u8>>, s: Seq<u8>, p: int, e: int) -> bool {
    exists|j: int, at: int|
        0 <= j < grams.len() && #[trigger] occurs_at(grams[j], s, at) && at <= p && e <= at
            + grams[j].len()
}

/// How far the spans go, together, where each meets the next in one pair.
spec fn width(spans: Seq<(int, int)>) -> int
    decreases spans.len(),
{
    if spans.len() == 0 {
        0
    } else {
        width(spans.drop_last()) + spans.last().1 - 2 - spans.last().0
    }
}

/// Every span has a gram's length.
spec fn all_sized(spans: Seq<(int, int)>) -> bool {
    forall|j: int|
        0 <= j < spans.len() ==> MIN_LEN <= (#[trigger] spans[j]).1 - spans[j].0 <= MAX_LEN
}

/// One of the spans holds the pair at `q` and the pair behind it.
spec fn held(spans: Seq<(int, int)>, q: int) -> bool {
    exists|j: int| 0 <= j < spans.len() && (#[trigger] spans[j]).0 <= q < spans[j].1 - 2
}

/// Every pair from `a` on and before `b` is held.
spec fn held_all(spans: Seq<(int, int)>, a: int, b: int) -> bool {
    forall|q: int| a <= q < b ==> #[trigger] held(spans, q)
}

proof fn lemma_held_grown(x: Seq<(int, int)>, y: Seq<(int, int)>, a: int, b: int)
    requires
        grown(x, y),
        held_all(x, a, b),
    ensures
        held_all(y, a, b),
{
    assert forall|q: int| a <= q < b implies #[trigger] held(y, q) by {
        assert(held(x, q));
        let j = choose|j: int| 0 <= j < x.len() && (#[trigger] x[j]).0 <= q < x[j].1 - 2;
        assert(x[j] == y[j]);
    }
}

/// The positions of the entries rise.
spec fn rising(st: Seq<(u32, int)>) -> bool {
    forall|j: int, k: int| 0 <= j < k < st.len() ==> (#[trigger] st[j]).1 < (#[trigger] st[k]).1
}

/// Draining closes the way from the first entry to the last.
proof fn lemma_drained_tiles(c: CoverState)
    requires
        rising(c.stack),
        all_sized(c.spans),
        c.stack.len() > 0,
        c.stack.last().1 + 2 - c.stack[0].1 <= MAX_LEN,
    ensures
        all_sized(drained(c).spans),
        width(drained(c).spans) == width(c.spans) + c.stack.last().1 - c.stack[0].1,
        held_all(drained(c).spans, c.stack[0].1, c.stack.last().1),
        grown(c.spans, drained(c).spans),
    decreases c.stack.len(),
{
    lemma_drained_grows(c);
    if c.stack.len() > 1 {
        let n = c.stack.len() as int;
        let top = c.stack.last().1;
        let below = c.stack[n - 2].1;
        let next = CoverState { stack: c.stack.drop_last(), spans: c.spans.push((below, top + 2)) };
        assert(c.stack[n - 2].1 < c.stack[n - 1].1);
        if n > 2 {
            assert(c.stack[0].1 < c.stack[n - 2].1);
        }
        assert(next.spans.drop_last() =~= c.spans);
        lemma_drained_tiles(next);
        let out = drained(c).spans;
        assert(out == drained(next).spans);
        assert forall|q: int| c.stack[0].1 <= q < top implies #[trigger] held(out, q) by {
            if q >= below {
                let j = c.spans.len() as int;
                assert(next.spans[j] == (below, top + 2));
                assert(out[j] == next.spans[j]);
            }
        }
    }
}

/// Popping leaves the first entry and adds nothing, or closes the way from it
/// to the pair that ends at `end`.
proof fn lemma_popped_tiles(c: CoverState, w: u32, end: int)
    requires
        rising(c.stack),
        all_sized(c.spans),
        c.stack.len() > 0 ==> c.stack.last().1 <= end - 3 && end - c.stack[0].1 <= MAX_LEN,
    ensures
        ({
            let r = popped(c, w, end);
            &&& all_sized(r.spans)
            &&& grown(c.spans, r.spans)
            &&& c.stack.len() == 0 ==> r == c
            &&& r.stack.len() > 0 ==> r.spans == c.spans && r.stack[0] == c.stack[0]
            &&& r.stack.len() == 0 && c.stack.len() > 0 ==> width(r.spans) == width(c.spans) + end
                - 2 - c.stack[0].1 && held_all(r.spans, c.stack[0].1, end - 2)
        }),
    decreases c.stack.len(),
{
    if c.stack.len() > 0 && w > c.stack.last().0 {
        let n = c.stack.len() as int;
        let (top, pos) = c.stack.last();
        assert(c.stack[n - 1].1 == pos);
        if n > 1 {
            assert(c.stack[0].1 < c.stack[n - 1].1);
        }
        if c.stack[0].0 == top {
            let more = CoverState { stack: c.stack, spans: c.spans.push((pos, end)) };
            assert(more.spans.drop_last() =~= c.spans);
            lemma_drained_tiles(more);
            lemma_drained_len(more);
            let d = drained(more);
            let next = CoverState { stack: d.stack.drop_last(), spans: d.spans };
            assert(popped(c, w, end) == popped(next, w, end));
            assert(popped(next, w, end) == next);
            assert forall|j: int| 0 <= j < c.spans.len() implies #[trigger] c.spans[j]
                == d.spans[j] by {
                assert(more.spans[j] == c.spans[j]);
            }
            assert forall|q: int| c.stack[0].1 <= q < end - 2 implies #[trigger] held(
                d.spans,
                q,
            ) by {
                if q >= pos {
                    let j = c.spans.len() as int;
                    assert(more.spans[j] == (pos, end));
                    assert(d.spans[j] == more.spans[j]);
                }
            }
        } else {
            let next = CoverState { stack: c.stack.drop_last(), spans: c.spans };
            assert(n > 1);
            lemma_popped_tiles(next, w, end);
            assert(popped(c, w, end) == popped(next, w, end));
        }
    }
}

/// The spans so far reach from the first pair to the first open one.
spec fn tiled(c: CoverState) -> bool {
    &&& all_sized(c.spans)
    &&& c.stack.len() == 0 ==> c.spans.len() == 0
    &&& c.stack.len() > 0 ==> width(c.spans) == c.stack[0].1 && held_all(
        c.spans,
        0,
        c.stack[0].1,
    )
}

proof fn lemma_covered_tiles(t: WeightTable, s: Seq<u8>, n: int)
    requires
        n < s.len(),
    ensures
        tiled(covered(t, s, n)),
    decreases n,
{
    if n > 0 {
        let i = n - 1;
        lemma_covered_tiles(t, s, i);
        lemma_covered_hulls(t, s, i);
        lemma_covered_reach(t, s, i);
        let c = covered(t, s, i);
        let w = pair_weight(t, s, i);
        let drops = c.stack.len() > 1 && i + 3 - c.stack[0].1 >= MAX_LEN;
        let c1 = if drops {
            CoverState {
                stack: c.stack.drop_first(),
                spans: c.spans.push((c.stack[0].1, c.stack[1].1 + 2)),
            }
        } else {
            c
        };
        if drops {
            assert(c.stack[0].1 < c.stack[1].1);
            assert(c.stack[1].1 < i);
            assert(c1.spans.drop_last() =~= c.spans);
            assert(grown(c.spans, c1.spans));
            lemma_held_grown(c.spans, c1.spans, 0, c.stack[0].1);
            assert forall|q: int| 0 <= q < c.stack[1].1 implies #[trigger] held(c1.spans, q) by {
                if q >= c.stack[0].1 {
                    assert(c1.spans[c.spans.len() as int] == (c.stack[0].1, c.stack[1].1 + 2));
                }
            }
            assert(c1.stack.last() == c.stack.last());
        }
        assert(tiled(c1));
        assert(rising(c1.stack)) by {
            assert forall|j: int, k: int| 0 <= j < k < c1.stack.len() implies (
            #[trigger] c1.stack[j]).1 < (#[trigger] c1.stack[k]).1 by {
                if drops {
                    assert(c.stack[j + 1].1 < c.stack[k + 1].1);
                } else {
                    assert(c.stack[j].1 < c.stack[k].1);
                }
            }
        }
        if c1.stack.len() > 0 {
            assert(c1.stack.last().1 == i - 1);
        }
        lemma_popped_tiles(c1, w, i + 2);
        let c2 = popped(c1, w, i + 2);
        let r = covered(t, s, n);
        assert(r.stack == c2.stack.push((w, i)));
        assert(r.spans == c2.spans);
        if c2.stack.len() == 0 {
            assert(r.stack[0] == (w, i));
            if c1.stack.len() > 0 {
                lemma_held_grown(c1.spans, c2.spans, 0, c1.stack[0].1);
                assert forall|q: int| 0 <= q < i implies #[trigger] held(r.spans, q) by {
                    if q < c1.stack[0].1 {
                        assert(held(c2.spans, q));
                    }
                }
            }
        } else {
            assert(r.stack[0] == c2.stack[0]);
        }
    }
}

/// The spans of a cover lie side by side over the whole literal.
proof fn lemma_cover_tiles(t: WeightTable, s: Seq<u8>)
    requires
        s.len() >= MIN_LEN,
    ensures
        all_sized(cover_spans(t, s)),
        width(cover_spans(t, s)) == s.len() - 2,
        held_all(cover_spans(t, s), 0, s.len() - 2),
{
    let n = s.len() - 1;
    let c = covered(t, s, n);
    lemma_covered_tiles(t, s, n);
    lemma_covered_hulls(t, s, n);
    lemma_covered_reach(t, s, n);
    assert(rising(c.stack));
    lemma_drained_tiles(c);
    lemma_held_grown(c.spans, drained(c).spans, 0, c.stack[0].1);
    assert forall|q: int| 0 <= q < s.len() - 2 implies #[trigger] held(cover_spans(t, s), q) by {
        if q < c.stack[0].1 {
            assert(held(drained(c).spans, q));
        }
    }
}

/// Where every span has a gram's length, the texts are those of all of them.
proof fn lemma_texts(spans: Seq<(int, int)>, s: Seq<u8>)
    requires
        all_sized(spans),
        forall|j: int|
            0 <= j < spans.len() ==> 0 <= (#[trigger] spans[j]).0 && spans[j].1 <= s.len(),
    ensures
        sized_texts(spans, s).len() == spans.len(),
        forall|j: int|
            0 <= j < spans.len() ==> #[trigger] sized_texts(spans, s)[j] == s.subrange(
                spans[j].0,
                spans[j].1,
            ),
        total_len(sized_texts(spans, s)) == width(spans) + 2 * spans.len(),
    decreases spans.len(),
{
    if spans.len() > 0 {
        let head = spans.drop_last();
        let last = spans.last();
        assert(spans[spans.len() - 1] == last);
        assert forall|j: int| 0 <= j < head.len() implies 0 <= (#[trigger] head[j]).0 && head[j].1
            <= s.len() && MIN_LEN <= head[j].1 - head[j].0 <= MAX_LEN by {
            assert(head[j] == spans[j]);
        }
        lemma_texts(head, s);
        let texts = sized_texts(spans, s);
        assert(texts == sized_texts(head, s).push(s.subrange(last.0, last.1)));
        assert(texts.drop_last() =~= sized_texts(head, s));
        assert forall|j: int| 0 <= j < spans.len() implies #[trigger] texts[j] == s.subrange(
            spans[j].0,
            spans[j].1,
        ) by {
            if j < head.len() {
                assert(texts[j] == sized_texts(head, s)[j]);
            }
        }
    }
}

/// The spans of a cover, as texts.
proof fn lemma_cover_texts(t: WeightTable, s: Seq<u8>)
    requires
        s.len() >= MIN_LEN,
    ensures
        minimal_grams(t, s).len() == cover_spans(t, s).len(),
        forall|j: int|
            0 <= j < cover_spans(t, s).len() ==> #[trigger] occurs_at(
                minimal_grams(t, s)[j],
                s,
                cover_spans(t, s)[j].0,
            ) && minimal_grams(t, s)[j].len() == cover_spans(t, s)[j].1 - cover_spans(t, s)[j].0,
        total_len(minimal_grams(t, s)) == width(cover_spans(t, s)) + 2 * cover_spans(t, s).len(),
{
    let spans = cover_spans(t, s);
    lemma_cover_tiles(t, s);
    lemma_covered_hulls(t, s, s.len() - 1);
    lemma_drained_hulls(t, s, covered(t, s, s.len() - 1), s.len() - 1);
    assert forall|j: int| 0 <= j < spans.len() implies 0 <= (#[trigger] spans[j]).0 && spans[j].1
        <= s.len() by {
        assert(is_hull(t, s, spans[j].0, spans[j].1));
    }
    lemma_texts(spans, s);
    let texts = minimal_grams(t, s);
    assert forall|j: int| 0 <= j < spans.len() implies #[trigger] occurs_at(
        texts[j],
        s,
        spans[j].0,
    ) && texts[j].len() == spans[j].1 - spans[j].0 by {
        assert(texts[j] == s.subrange(spans[j].0, spans[j].1));
        assert(0 <= spans[j].0 && spans[j].1 <= s.len());
    }
}

/// The covering grams leave nothing of the literal out: any three bytes in a row
/// lie in one of them, and so does every byte.
pub proof fn law_cover_leaves_nothing_out(t: WeightTable, s: Seq<u8>, i: int)
    requires
        s.len() >= MIN_LEN,
        0 <= i < s.len(),
    ensures
        i + MIN_LEN <= s.len() ==> some_gram_over(minimal_grams(t, s), s, i, i + MIN_LEN),
        some_gram_over(minimal_grams(t, s), s, i, i + 1),
{
    let spans = cover_spans(t, s);
    let texts = minimal_grams(t, s);
    lemma_cover_tiles(t, s);
    lemma_cover_texts(t, s);
    let q = if i + MIN_LEN <= s.len() {
        i
    } else {
        s.len() - 3
    };
    assert(held(spans, q));
    let j = choose|j: int| 0 <= j < spans.len() && (#[trigger] spans[j]).0 <= q < spans[j].1 - 2;
    assert(occurs_at(texts[j], s, spans[j].0));
}

/// The covering grams overlap no more than they must: each meets the next in one
/// byte pair, so that all of them together are as long as the literal and two
/// bytes for every gram but the first.
pub proof fn law_cover_has_no_surplus(t: WeightTable, s: Seq<u8>)
    requires
        s.len() >= MIN_LEN,
    ensures
        total_len(minimal_grams(t, s)) == s.len() + 2 * (minimal_grams(t, s).len() - 1),
{
    lemma_cover_tiles(t, s);
    lemma_cover_texts(t, s);
}

/// A literal guarantees every gram of it, and nothing else.
pub proof fn law_guaranteed_are_the_grams(t: WeightTable, s: Seq<u8>, g: Seq<u8>)
    ensures
        guaranteed_grams(t, s).contains(g) <==> has_gram(t, s, g),
{
    let spans = all_spans(t, s);
    let texts = guaranteed_grams(t, s);
    assert forall|j: int| 0 <= j < spans.len() implies is_gram(
        t,
        s,
        (#[trigger] spans[j]).0,
        spans[j].1,
    ) by {
        law_scan_is_complete(t, s, spans[j].0, spans[j].1);
        assert(spans.contains((spans[j].0, spans[j].1)));
    }
    lemma_texts(spans, s);
    if texts.contains(g) {
        let j = choose|j: int| 0 <= j < texts.len() && texts[j] == g;
        assert(texts[j] == s.subrange(spans[j].0, spans[j].1));
        assert(is_gram(t, s, spans[j].0, spans[j].1));
    }
    if has_gram(t, s, g) {
        let (p, e) = choose|p: int, e: int| is_gram(t, s, p, e) && g == #[trigger] s.subrange(p, e);
        law_scan_is_complete(t, s, p, e);
        let j = choose|j: int| 0 <= j < spans.len() && spans[j] == (p, e);
        assert(texts[j] == s.subrange(spans[j].0, spans[j].1));
    }
}

/// No pair before the one at `x` is heavier.
spec fn tops_before(t: WeightTable, s: Seq<u8>, x: int) -> bool {
    forall|k: int| 0 <= k < x ==> #[trigger] pair_weight(t, s, k) <= pair_weight(t, s, x)
}

/// No pair behind the one at `x` is heavier.
spec fn tops_after(t: WeightTable, s: Seq<u8>, x: int) -> bool {
    forall|k: int| x < k < s.len() - 1 ==> #[trigger] pair_weight(t, s, k) <= pair_weight(t, s, x)
}

/// Every span ends with a pair that tops all before it or all behind it.
spec fn ends_topped(t: WeightTable, s: Seq<u8>, spans: Seq<(int, int)>) -> bool {
    forall|j: int|
        0 <= j < spans.len() ==> tops_before(t, s, (#[trigger] spans[j]).1 - 2) || tops_after(
            t,
            s,
            spans[j].1 - 2,
        )
}

proof fn lemma_drained_topped(t: WeightTable, s: Seq<u8>, c: CoverState)
    requires
        ends_topped(t, s, c.spans),
        forall|j: int|
            1 <= j < c.stack.len() ==> tops_before(t, s, (#[trigger] c.stack[j]).1) || tops_after(
                t,
                s,
                c.stack[j].1,
            ),
    ensures
        ends_topped(t, s, drained(c).spans),
    decreases c.stack.len(),
{
    if c.stack.len() > 1 {
        let n = c.stack.len() as int;
        let top = c.stack.last().1;
        let below = c.stack[n - 2].1;
        let next = CoverState { stack: c.stack.drop_last(), spans: c.spans.push((below, top + 2)) };
        assert(c.stack[n - 1].1 == top);
        assert forall|j: int| 0 <= j < next.spans.len() implies tops_before(
            t,
            s,
            (#[trigger] next.spans[j]).1 - 2,
        ) || tops_after(t, s, next.spans[j].1 - 2) by {
            if j < c.spans.len() {
                assert(next.spans[j] == c.spans[j]);
            }
        }
        assert forall|j: int| 1 <= j < next.stack.len() implies tops_before(
            t,
            s,
            (#[trigger] next.stack[j]).1,
        ) || tops_after(t, s, next.stack[j].1) by {
            assert(next.stack[j] == c.stack[j]);
        }
        lemma_drained_topped(t, s, next);
    }
}

/// The first entry is as heavy as every pair before `i`.
spec fn first_tops(t: WeightTable, s: Seq<u8>, st: Seq<(u32, int)>, i: int) -> bool {
    st.len() > 0 ==> forall|k: int| 0 <= k < i ==> #[trigger] pair_weight(t, s, k) <= st[0].0
}

proof fn lemma_popped_topped(t: WeightTable, s: Seq<u8>, c: CoverState, i: int)
    requires
        entries_inv(t, s, c.stack, i),
        ends_topped(t, s, c.spans),
        first_tops(t, s, c.stack, i),
        0 <= i,
    ensures
        ({
            let r = popped(c, pair_weight(t, s, i), i + 2);
            &&& ends_topped(t, s, r.spans)
            &&& r.stack.len() > 0 ==> r.stack[0] == c.stack[0] && r.stack.last().0 >= pair_weight(
                t,
                s,
                i,
            )
            &&& r.stack.len() == 0 && c.stack.len() > 0 ==> pair_weight(t, s, i) > c.stack[0].0
        }),
    decreases c.stack.len(),
{
    let w = pair_weight(t, s, i);
    if c.stack.len() > 0 && w > c.stack.last().0 {
        let n = c.stack.len() as int;
        let (top, pos) = c.stack.last();
        if c.stack[0].0 == top {
            let more = CoverState { stack: c.stack, spans: c.spans.push((pos, i + 2)) };
            assert(tops_before(t, s, i));
            assert forall|j: int| 0 <= j < more.spans.len() implies tops_before(
                t,
                s,
                (#[trigger] more.spans[j]).1 - 2,
            ) || tops_after(t, s, more.spans[j].1 - 2) by {
                if j < c.spans.len() {
                    assert(more.spans[j] == c.spans[j]);
                }
            }
            assert forall|j: int| 1 <= j < more.stack.len() implies tops_before(
                t,
                s,
                (#[trigger] more.stack[j]).1,
            ) || tops_after(t, s, more.stack[j].1) by {
                assert(c.stack[0].0 >= c.stack[j].0);
                if j < n - 1 {
                    assert(c.stack[j].0 >= c.stack[n - 1].0);
                }
                assert(c.stack[j].0 == pair_weight(t, s, c.stack[j].1));
                assert(tops_before(t, s, more.stack[j].1));
            }
            lemma_drained_topped(t, s, more);
            lemma_drained_len(more);
            let d = drained(more);
            let next = CoverState { stack: d.stack.drop_last(), spans: d.spans };
            assert(popped(c, w, i + 2) == popped(next, w, i + 2));
            assert(popped(next, w, i + 2) == next);
        } else {
            lemma_entries_prefix(t, s, c.stack, i);
            let next = CoverState { stack: c.stack.drop_last(), spans: c.spans };
            assert(n > 1);
            lemma_popped_topped(t, s, next, i);
            assert(popped(c, w, i + 2) == popped(next, w, i + 2));
        }
    }
}

proof fn lemma_covered_topped(t: WeightTable, s: Seq<u8>, n: int)
    requires
        n < s.len(),
        s.len() + 1 < MAX_LEN,
    ensures
        ends_topped(t, s, covered(t, s, n).spans),
        first_tops(t, s, covered(t, s, n).stack, n),
    decreases n,
{
    if n > 0 {
        let i = n - 1;
        lemma_covered_topped(t, s, i);
        lemma_covered_hulls(t, s, i);
        let c = covered(t, s, i);
        let w = pair_weight(t, s, i);
        if c.stack.len() > 0 {
            assert(c.stack[0].1 >= 0);
        }
        lemma_popped_topped(t, s, c, i);
        let c2 = popped(c, w, i + 2);
        let r = covered(t, s, n);
        assert(r.stack == c2.stack.push((w, i)));
        if c2.stack.len() > 0 {
            lemma_popped_first(c, w, i + 2);
            assert(r.stack[0] == c.stack[0]);
            assert(w <= c2.stack.last().0);
            assert(c2.stack.last().0 <= c2.stack[0].0);
        }
    }
}

/// What popping leaves is the start of the stack.
proof fn lemma_popped_first(c: CoverState, w: u32, end: int)
    requires
        forall|j: int, k: int|
            0 <= j < k < c.stack.len() ==> (#[trigger] c.stack[j]).0 >= (#[trigger] c.stack[k]).0,
    ensures
        ({
            let r = popped(c, w, end);
            r.stack.len() > 0 ==> r.stack.last().0 <= r.stack[0].0
        }),
    decreases c.stack.len(),
{
    if c.stack.len() > 0 && w > c.stack.last().0 {
        let (top, pos) = c.stack.last();
        if c.stack[0].0 == top {
            let more = CoverState { stack: c.stack, spans: c.spans.push((pos, end)) };
            lemma_drained_len(more);
            let d = drained(more);
            let next = CoverState { stack: d.stack.drop_last(), spans: d.spans };
            assert(popped(c, w, end) == popped(next, w, end));
        } else {
            let next = CoverState { stack: c.stack.drop_last(), spans: c.spans };
            lemma_popped_first(next, w, end);
            assert(popped(c, w, end) == popped(next, w, end));
        }
    } else if c.stack.len() > 1 {
        assert(c.stack[0].0 >= c.stack[c.stack.len() - 1].0);
    }
}

/// Every open pair but the first is as heavy as all that come behind it.
proof fn lemma_open_tops(t: WeightTable, s: Seq<u8>, st: Seq<(u32, int)>, j: int)
    requires
        cover_inv(t, s, st, s.len() - 1),
        0 <= j < st.len(),
    ensures
        tops_after(t, s, st[j].1),
{
    assert forall|k: int| st[j].1 < k < s.len() - 1 implies #[trigger] pair_weight(t, s, k)
        <= pair_weight(t, s, st[j].1) by {
        let m = lemma_next_open(st, j, k);
        assert(lighter_between(t, s, st[m - 1].1, st[m].1));
        assert(st[j].0 >= st[m].0);
        assert(st[m].0 == pair_weight(t, s, st[m].1));
        assert(st[j].0 == pair_weight(t, s, st[j].1));
    }
}

/// The first open pair at `k` or behind it.
proof fn lemma_next_open(st: Seq<(u32, int)>, j: int, k: int) -> (m: int)
    requires
        0 <= j < st.len(),
        st[j].1 < k <= st.last().1,
    ensures
        j < m < st.len(),
        st[m - 1].1 < k <= st[m].1,
    decreases st.len() - j,
{
    assert(st[st.len() - 1] == st.last());
    if st[j + 1].1 >= k {
        j + 1
    } else {
        lemma_next_open(st, j + 1, k)
    }
}

/// The covering grams are the coarsest: every gram of the literal lies within
/// one of them. A literal must be short enough that no pair falls out of a
/// gram's reach before the literal ends.
pub proof fn law_cover_is_coarsest(t: WeightTable, s: Seq<u8>, p: int, e: int)
    requires
        s.len() + 1 < MAX_LEN,
        is_gram(t, s, p, e),
    ensures
        some_gram_over(minimal_grams(t, s), s, p, e),
{
    let n = s.len() - 1;
    let c = covered(t, s, n);
    let spans = cover_spans(t, s);
    let texts = minimal_grams(t, s);
    lemma_covered_topped(t, s, n);
    lemma_covered_hulls(t, s, n);
    assert forall|j: int| 1 <= j < c.stack.len() implies tops_before(
        t,
        s,
        (#[trigger] c.stack[j]).1,
    ) || tops_after(t, s, c.stack[j].1) by {
        lemma_open_tops(t, s, c.stack, j);
    }
    lemma_drained_topped(t, s, c);
    lemma_cover_tiles(t, s);
    lemma_cover_texts(t, s);
    assert(held(spans, p));
    let j = choose|j: int| 0 <= j < spans.len() && (#[trigger] spans[j]).0 <= p < spans[j].1 - 2;
    let x = spans[j].1 - 2;
    if x < e - 2 {
        assert(p < x < e - 2);
        assert(pair_weight(t, s, x) < pair_weight(t, s, p));
        assert(pair_weight(t, s, x) < pair_weight(t, s, e - 2));
        assert(false);
    }
    assert(occurs_at(texts[j], s, spans[j].0));
}

} // verus!
