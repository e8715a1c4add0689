//! Sparse n-gram extraction via a monotonic stack.
//!
//! A substring is a gram when its two border pairs weigh strictly more than
//! every pair between them. The scan keeps the pairs that can still start a
//! gram on a stack of strictly falling weights, so each pair closes its grams
//! without looking back over the text.

pub mod cover;
pub mod replay;
pub mod stream;
pub mod tiling;

use vstd::prelude::*;

use crate::error::ScanError;
use crate::hashing::{
    from_prefixes_keyed, gram_hash, law_rolling_hash, lemma_step, prefix_hash, step, unkeyed,
    HashKey,
};
use crate::query::gram::Gram;
use crate::table::WeightTable;

pub use self::cover::cover_one;
pub use self::stream::{scan_with, StreamScanner};

verus! {

/// Shortest gram emitted or matched; a sparse gram spans at least one bigram.
///
/// Frozen format vocabulary: changing it rekeys every index. The primary gram
/// space is never normalized; folding lives in the twin space, not here.
pub const MIN_LEN: usize = 3;

/// Longest gram emitted; bounds index entries and covering-set members.
///
/// Frozen format vocabulary: changing it rekeys every index.
pub const MAX_LEN: usize = 100;

/// Most stack entries held: an older entry is too far back to start a gram
/// within [`MAX_LEN`].
const STACK_CAP: usize = 128;

/// Prefix hashes held, one for each of the last positions; an emittable gram
/// start is at most [`MAX_LEN`] behind the current position, well inside.
const RING: usize = 128;

/// Scan-time format options; index build and query plan must agree on them.
///
/// `key` selects the hash space (see [`HashKey`]); `fold` scans the
/// ASCII-case-folded stream into the folded twin space (the emitted hashes are
/// automatically tagged with [`HashKey::folded`]); `line_sentinels` brackets
/// every document with a virtual `\n` so anchored line-boundary grams exist at
/// the document's first and last line.
#[derive(Debug, Clone, Copy, PartialEq, Eq, Structural)]
pub struct ScanOptions {
    /// Deployment hash key for the emitted gram hashes.
    pub key: HashKey,
    /// Bracket the document with virtual line terminators.
    pub line_sentinels: bool,
    /// Scan the ASCII-folded stream, emitting into the folded twin space.
    pub fold: bool,
}

impl Default for ScanOptions {
    fn default() -> (opts: ScanOptions)
        ensures
            opts == (ScanOptions { key: unkeyed(), line_sentinels: false, fold: false }),
    {
        ScanOptions { key: HashKey::unkeyed(), line_sentinels: false, fold: false }
    }
}

/// The weight of the pair at `i`.
pub open spec fn pair_weight(t: WeightTable, s: Seq<u8>, i: int) -> u32 {
    t.weight_of(s[i], s[i + 1])
}

/// Both border pairs of `p..e` weigh strictly more than every pair between.
pub open spec fn is_hull(t: WeightTable, s: Seq<u8>, p: int, e: int) -> bool {
    &&& 0 <= p
    &&& e <= s.len()
    &&& MIN_LEN <= e - p
    &&& forall|k: int|
        p < k < e - 2 ==> #[trigger] pair_weight(t, s, k) < pair_weight(t, s, p) && pair_weight(
            t,
            s,
            k,
        ) < pair_weight(t, s, e - 2)
}

/// `p..e` is a sparse gram of `s`.
pub open spec fn is_gram(t: WeightTable, s: Seq<u8>, p: int, e: int) -> bool {
    is_hull(t, s, p, e) && e - p <= MAX_LEN
}

/// The grams that the pair at `i` closes and that start at `p` or before,
/// nearest first.
pub open spec fn spans_at(t: WeightTable, s: Seq<u8>, i: int, p: int) -> Seq<(int, int)>
    decreases p + 1,
{
    if p < 0 {
        Seq::empty()
    } else if is_gram(t, s, p, i + 2) {
        seq![(p, i + 2)] + spans_at(t, s, i, p - 1)
    } else {
        spans_at(t, s, i, p - 1)
    }
}

/// The grams that the first `n` pairs close: by end, then nearest start first.
pub open spec fn spans(t: WeightTable, s: Seq<u8>, n: int) -> Seq<(int, int)>
    decreases n,
{
    if n <= 0 {
        Seq::empty()
    } else {
        spans(t, s, n - 1) + spans_at(t, s, n - 1, n - 2)
    }
}

/// Every gram of `s` in the order a scan emits them.
pub open spec fn all_spans(t: WeightTable, s: Seq<u8>) -> Seq<(int, int)> {
    spans(t, s, s.len() - 1)
}

/// The bytes and the hash of every gram of `s`, in scan order.
pub open spec fn emissions(t: WeightTable, s: Seq<u8>, key: HashKey) -> Seq<(Seq<u8>, u64)> {
    span_emissions(all_spans(t, s), s, key)
}

/// The bytes and the hash of each span.
pub open spec fn span_emissions(spans: Seq<(int, int)>, s: Seq<u8>, key: HashKey) -> Seq<
    (Seq<u8>, u64),
> {
    Seq::new(
        spans.len(),
        |j: int|
            (
                s.subrange(spans[j].0, spans[j].1),
                gram_hash(s.subrange(spans[j].0, spans[j].1), key),
            ),
    )
}

/// `g` is the text of a gram of `s`.
pub open spec fn has_gram(t: WeightTable, s: Seq<u8>, g: Seq<u8>) -> bool {
    exists|p: int, e: int| is_gram(t, s, p, e) && g == #[trigger] s.subrange(p, e)
}

/// `sub` occurs in `s` from `at` on.
pub open spec fn occurs_at(sub: Seq<u8>, s: Seq<u8>, at: int) -> bool {
    &&& 0 <= at
    &&& at + sub.len() <= s.len()
    &&& sub == s.subrange(at, at + sub.len())
}

/// A gram's emission depends only on the pairs inside its span, so every gram
/// of a string is a gram of every text that contains the string.
pub proof fn law_grams_survive(t: WeightTable, sub: Seq<u8>, s: Seq<u8>, at: int, p: int, e: int)
    requires
        occurs_at(sub, s, at),
        is_gram(t, sub, p, e),
    ensures
        is_gram(t, s, at + p, at + e),
        sub.subrange(p, e) == s.subrange(at + p, at + e),
        has_gram(t, s, sub.subrange(p, e)),
{
    assert forall|k: int| 0 <= k < sub.len() - 1 implies #[trigger] pair_weight(t, sub, k)
        == pair_weight(t, s, at + k) by {
        assert(sub[k] == s[at + k]);
        assert(sub[k + 1] == s[at + k + 1]);
    }
    assert forall|k: int| at + p < k < at + e - 2 implies #[trigger] pair_weight(t, s, k)
        < pair_weight(t, s, at + p) && pair_weight(t, s, k) < pair_weight(t, s, at + e - 2) by {
        assert(pair_weight(t, sub, k - at) == pair_weight(t, s, k));
        assert(pair_weight(t, sub, p) == pair_weight(t, s, at + p));
        assert(pair_weight(t, sub, e - 2) == pair_weight(t, s, at + e - 2));
    }
    assert(sub.subrange(p, e) =~= s.subrange(at + p, at + e));
}

/// A gram of a text that lies within an occurrence of a string is a gram of that
/// string: what stands around it plays no part.
pub proof fn law_grams_are_local(t: WeightTable, sub: Seq<u8>, s: Seq<u8>, at: int, p: int, e: int)
    requires
        occurs_at(sub, s, at),
        0 <= p,
        e <= sub.len(),
        is_gram(t, s, at + p, at + e),
    ensures
        is_gram(t, sub, p, e),
        sub.subrange(p, e) == s.subrange(at + p, at + e),
        has_gram(t, sub, s.subrange(at + p, at + e)),
{
    assert forall|k: int| 0 <= k < sub.len() - 1 implies #[trigger] pair_weight(t, sub, k)
        == pair_weight(t, s, at + k) by {
        assert(sub[k] == s[at + k]);
        assert(sub[k + 1] == s[at + k + 1]);
    }
    assert forall|k: int| p < k < e - 2 implies #[trigger] pair_weight(t, sub, k) < pair_weight(
        t,
        sub,
        p,
    ) && pair_weight(t, sub, k) < pair_weight(t, sub, e - 2) by {
        assert(pair_weight(t, s, at + k) < pair_weight(t, s, at + p));
        assert(pair_weight(t, s, at + k) < pair_weight(t, s, at + e - 2));
    }
    assert(sub.subrange(p, e) =~= s.subrange(at + p, at + e));
}

/// The spans listed at a pair are exactly the grams it closes.
pub proof fn lemma_spans_at(t: WeightTable, s: Seq<u8>, i: int, p: int)
    ensures
        forall|q: int, e: int| #[trigger]
            spans_at(t, s, i, p).contains((q, e)) <==> e == i + 2 && 0 <= q <= p && is_gram(
                t,
                s,
                q,
                e,
            ),
    decreases p + 1,
{
    if p >= 0 {
        lemma_spans_at(t, s, i, p - 1);
        let rest = spans_at(t, s, i, p - 1);
        let all = spans_at(t, s, i, p);
        assert forall|q: int, e: int| #[trigger] all.contains((q, e)) <==> e == i + 2 && 0 <= q <= p
            && is_gram(t, s, q, e) by {
            assert(rest.contains((q, e)) <==> e == i + 2 && 0 <= q <= p - 1 && is_gram(t, s, q, e));
            if is_gram(t, s, p, i + 2) {
                assert(all == seq![(p, i + 2)] + rest);
                if all.contains((q, e)) {
                    let n = choose|n: int| 0 <= n < all.len() && all[n] == (q, e);
                    if n > 0 {
                        assert(rest[n - 1] == (q, e));
                    }
                }
                if rest.contains((q, e)) {
                    let n = choose|n: int| 0 <= n < rest.len() && rest[n] == (q, e);
                    assert(all[n + 1] == (q, e));
                }
                if q == p && e == i + 2 {
                    assert(all[0] == (q, e));
                }
            }
        }
    }
}

proof fn lemma_spans(t: WeightTable, s: Seq<u8>, n: int)
    ensures
        forall|q: int, e: int| #[trigger]
            spans(t, s, n).contains((q, e)) <==> 0 <= e - 2 < n && is_gram(t, s, q, e),
    decreases n,
{
    if n > 0 {
        lemma_spans(t, s, n - 1);
        lemma_spans_at(t, s, n - 1, n - 2);
        let a = spans(t, s, n - 1);
        let b = spans_at(t, s, n - 1, n - 2);
        assert forall|q: int, e: int| #[trigger] spans(t, s, n).contains((q, e)) <==> 0 <= e - 2 < n
            && is_gram(t, s, q, e) by {
            let all = a + b;
            assert(a.contains((q, e)) <==> 0 <= e - 2 < n - 1 && is_gram(t, s, q, e));
            assert(b.contains((q, e)) <==> e == n + 1 && 0 <= q <= n - 2 && is_gram(t, s, q, e));
            if all.contains((q, e)) {
                let m = choose|m: int| 0 <= m < all.len() && all[m] == (q, e);
                if m < a.len() {
                    assert(a[m] == (q, e));
                } else {
                    assert(b[m - a.len()] == (q, e));
                }
            }
            if a.contains((q, e)) {
                let m = choose|m: int| 0 <= m < a.len() && a[m] == (q, e);
                assert(all[m] == (q, e));
            }
            if b.contains((q, e)) {
                let m = choose|m: int| 0 <= m < b.len() && b[m] == (q, e);
                assert(all[a.len() + m] == (q, e));
            }
        }
    } else {
        assert forall|q: int, e: int| #[trigger] spans(t, s, n).contains((q, e)) <==> 0 <= e - 2 < n
            && is_gram(t, s, q, e) by {}
    }
}

/// A scan lists exactly the grams: every span whose two border pairs weigh
/// strictly more than all pairs between them, of a length within bounds.
pub proof fn law_scan_is_complete(t: WeightTable, s: Seq<u8>, p: int, e: int)
    ensures
        all_spans(t, s).contains((p, e)) <==> is_gram(t, s, p, e),
{
    lemma_spans(t, s, s.len() - 1);
    assert(spans(t, s, s.len() - 1).contains((p, e)) <==> 0 <= e - 2 < s.len() - 1 && is_gram(
        t,
        s,
        p,
        e,
    ));
}

/// One span comes before another in a scan: it ends earlier, or at the same
/// place and is shorter.
pub open spec fn comes_before(x: (int, int), y: (int, int)) -> bool {
    x.1 < y.1 || (x.1 == y.1 && x.0 > y.0)
}

proof fn lemma_spans_at_in_order(t: WeightTable, s: Seq<u8>, i: int, p: int)
    ensures
        forall|j: int|
            0 <= j < spans_at(t, s, i, p).len() ==> (#[trigger] spans_at(t, s, i, p)[j]).1 == i + 2
                && spans_at(t, s, i, p)[j].0 <= p,
        forall|j: int, k: int|
            0 <= j < k < spans_at(t, s, i, p).len() ==> comes_before(
                #[trigger] spans_at(t, s, i, p)[j],
                #[trigger] spans_at(t, s, i, p)[k],
            ),
    decreases p + 1,
{
    if p >= 0 {
        lemma_spans_at_in_order(t, s, i, p - 1);
        let all = spans_at(t, s, i, p);
        let rest = spans_at(t, s, i, p - 1);
        if is_gram(t, s, p, i + 2) {
            assert forall|j: int| 0 <= j < all.len() implies (#[trigger] all[j]).1 == i + 2
                && all[j].0 <= p by {
                if j > 0 {
                    assert(all[j] == rest[j - 1]);
                }
            }
            assert forall|j: int, k: int| 0 <= j < k < all.len() implies comes_before(
                #[trigger] all[j],
                #[trigger] all[k],
            ) by {
                assert(all[k] == rest[k - 1]);
                if j > 0 {
                    assert(all[j] == rest[j - 1]);
                }
            }
        } else {
            assert(all == rest);
        }
    }
}

proof fn lemma_spans_in_order(t: WeightTable, s: Seq<u8>, n: int)
    ensures
        forall|j: int| 0 <= j < spans(t, s, n).len() ==> (#[trigger] spans(t, s, n)[j]).1 <= n + 1,
        forall|j: int, k: int|
            0 <= j < k < spans(t, s, n).len() ==> comes_before(
                #[trigger] spans(t, s, n)[j],
                #[trigger] spans(t, s, n)[k],
            ),
    decreases n,
{
    if n > 0 {
        lemma_spans_in_order(t, s, n - 1);
        lemma_spans_at_in_order(t, s, n - 1, n - 2);
        let a = spans(t, s, n - 1);
        let b = spans_at(t, s, n - 1, n - 2);
        assert forall|j: int, k: int| 0 <= j < k < spans(t, s, n).len() implies comes_before(
            #[trigger] spans(t, s, n)[j],
            #[trigger] spans(t, s, n)[k],
        ) by {
            if j < a.len() && k >= a.len() {
                assert(a[j].1 <= n);
                assert(b[k - a.len()].1 == n + 1);
            } else if k < a.len() {
                assert(comes_before(a[j], a[k]));
            } else {
                assert(comes_before(b[j - a.len()], b[k - a.len()]));
            }
        }
    }
}

/// A scan lists its spans in order, by their end and the shorter first, and
/// none of them twice.
pub proof fn law_scan_is_in_order(t: WeightTable, s: Seq<u8>, j: int, k: int)
    requires
        0 <= j < all_spans(t, s).len(),
        0 <= k < all_spans(t, s).len(),
    ensures
        j < k <==> comes_before(all_spans(t, s)[j], all_spans(t, s)[k]),
        j == k <==> all_spans(t, s)[j] == all_spans(t, s)[k],
{
    lemma_spans_in_order(t, s, s.len() - 1);
}

/// Spans of an earlier part of a text do not depend on what follows.
proof fn lemma_spans_extend(t: WeightTable, s: Seq<u8>, full: Seq<u8>, n: int)
    requires
        s.len() <= full.len(),
        s == full.take(s.len() as int),
        n < s.len() || n <= 0,
    ensures
        spans(t, s, n) == spans(t, full, n),
    decreases n,
{
    if n > 0 {
        lemma_spans_extend(t, s, full, n - 1);
        lemma_spans_at_extend(t, s, full, n - 1, n - 2);
    }
}

proof fn lemma_spans_at_extend(t: WeightTable, s: Seq<u8>, full: Seq<u8>, i: int, p: int)
    requires
        s.len() <= full.len(),
        s == full.take(s.len() as int),
        p < i,
        i + 1 < s.len(),
    ensures
        spans_at(t, s, i, p) == spans_at(t, full, i, p),
    decreases p + 1,
{
    if p >= 0 {
        lemma_spans_at_extend(t, s, full, i, p - 1);
        assert forall|k: int| 0 <= k < s.len() - 1 implies #[trigger] pair_weight(t, s, k)
            == pair_weight(t, full, k) by {
            assert(s[k] == full[k]);
            assert(s[k + 1] == full[k + 1]);
        }
        assert(is_gram(t, s, p, i + 2) == is_gram(t, full, p, i + 2)) by {
            assert(pair_weight(t, s, p) == pair_weight(t, full, p));
            assert(pair_weight(t, s, i) == pair_weight(t, full, i));
            if is_gram(t, full, p, i + 2) {
                assert forall|k: int| p < k < i implies #[trigger] pair_weight(t, s, k)
                    < pair_weight(t, s, p) && pair_weight(t, s, k) < pair_weight(t, s, i) by {
                    assert(pair_weight(t, full, k) < pair_weight(t, full, p));
                }
            }
            if is_gram(t, s, p, i + 2) {
                assert forall|k: int| p < k < i implies #[trigger] pair_weight(t, full, k)
                    < pair_weight(t, full, p) && pair_weight(t, full, k) < pair_weight(
                    t,
                    full,
                    i,
                ) by {
                    assert(pair_weight(t, s, k) < pair_weight(t, s, p));
                }
            }
        }
    }
}

proof fn lemma_no_spans(t: WeightTable, s: Seq<u8>, i: int, e: int, hi: int, lo: int)
    requires
        -1 <= lo <= hi,
        e == i + 2,
        forall|p: int| lo < p <= hi ==> !(#[trigger] is_gram(t, s, p, e)),
    ensures
        spans_at(t, s, i, hi) == spans_at(t, s, i, lo),
    decreases hi - lo,
{
    if lo < hi {
        lemma_no_spans(t, s, i, e, hi - 1, lo);
    }
}

/// A scan emits every gram of a text with its hash, and nothing else.
pub proof fn law_scan_emits_the_grams(t: WeightTable, s: Seq<u8>, key: HashKey, g: Seq<u8>)
    ensures
        has_gram(t, s, g) <==> emissions(t, s, key).contains((g, gram_hash(g, key))),
{
    let all = all_spans(t, s);
    let out = emissions(t, s, key);
    if has_gram(t, s, g) {
        let (p, e) = choose|p: int, e: int| is_gram(t, s, p, e) && g == #[trigger] s.subrange(p, e);
        law_scan_is_complete(t, s, p, e);
        let j = choose|j: int| 0 <= j < all.len() && all[j] == (p, e);
        assert(out[j] == (g, gram_hash(g, key)));
    }
    if out.contains((g, gram_hash(g, key))) {
        let j = choose|j: int| 0 <= j < out.len() && out[j] == (g, gram_hash(g, key));
        let (p, e) = all[j];
        assert(all.contains((p, e)));
        law_scan_is_complete(t, s, p, e);
        assert(is_gram(t, s, p, e) && g == s.subrange(p, e));
    }
}

/// No pair between the entry `j` and the one below it weighs more than it.
spec fn gap_below(t: WeightTable, s: Seq<u8>, st: Seq<(usize, u32)>, j: int) -> bool {
    forall|k: int| st[j - 1].0 < k < st[j].0 ==> #[trigger] pair_weight(t, s, k) <= st[j].1
}

/// The stack before the pair at `i`: positions rise up to the previous pair,
/// weights fall strictly, no pair between two entries weighs more than the
/// later one, and none within a gram's reach below the first weighs more than
/// it.
spec fn stack_inv(t: WeightTable, s: Seq<u8>, st: Seq<(usize, u32)>, i: int) -> bool {
    &&& st.len() <= STACK_CAP
    &&& i == 0 ==> st.len() == 0
    &&& i > 0 ==> st.len() > 0 && st.last().0 == i - 1
    &&& forall|j: int|
        0 <= j < st.len() ==> (#[trigger] st[j]).0 < i && st[j].1 == pair_weight(
            t,
            s,
            st[j].0 as int,
        )
    &&& forall|j: int, k: int|
        0 <= j < k < st.len() ==> (#[trigger] st[j]).0 < (#[trigger] st[k]).0 && st[j].1 > st[k].1
    &&& forall|j: int| 1 <= j < st.len() ==> #[trigger] gap_below(t, s, st, j)
    &&& st.len() > 0 ==> forall|k: int|
        0 <= k < st[0].0 && i - k <= MAX_LEN ==> #[trigger] pair_weight(t, s, k) <= st[0].1
}

proof fn lemma_stack_inv_extend(
    t: WeightTable,
    s: Seq<u8>,
    full: Seq<u8>,
    st: Seq<(usize, u32)>,
    i: int,
)
    requires
        s.len() <= full.len(),
        s == full.take(s.len() as int),
        stack_inv(t, s, st, i),
        i < s.len() || i == 0,
    ensures
        stack_inv(t, full, st, i),
{
    assert forall|k: int| 0 <= k < s.len() - 1 implies #[trigger] pair_weight(t, full, k)
        == pair_weight(t, s, k) by {
        assert(s[k] == full[k]);
        assert(s[k + 1] == full[k + 1]);
    }
    assert forall|j: int| 1 <= j < st.len() implies #[trigger] gap_below(t, full, st, j) by {
        assert(gap_below(t, s, st, j));
        assert(st[j].0 < i && st[j - 1].0 < i);
    }
}

/// A position above an entry lies in the reach of some later entry.
proof fn lemma_gap(st: Seq<(usize, u32)>, j: int, k: int) -> (m: int)
    requires
        0 <= j < st.len(),
        st[j].0 < k <= st.last().0,
        forall|a: int, b: int| 0 <= a < b < st.len() ==> (#[trigger] st[a]).0 < (#[trigger] st[b]).0,
    ensures
        j < m < st.len(),
        st[m - 1].0 < k <= st[m].0,
    decreases st.len() - j,
{
    if j + 1 < st.len() && k <= st[j + 1].0 {
        j + 1
    } else {
        if j + 1 == st.len() {
            assert(st[j] == st.last());
        }
        lemma_gap(st, j + 1, k)
    }
}

/// Positions rise by at least one per entry.
proof fn lemma_positions_spread(st: Seq<(usize, u32)>, j: int)
    requires
        0 <= j < st.len(),
        forall|a: int, b: int| 0 <= a < b < st.len() ==> (#[trigger] st[a]).0 < (#[trigger] st[b]).0,
    ensures
        st[0].0 + j <= st[j].0,
    decreases j,
{
    if j > 0 {
        lemma_positions_spread(st, j - 1);
        assert(st[j - 1].0 < st[j].0);
    }
}

/// The starts whose span up to `end` has a gram's length.
spec fn sized(starts: Seq<usize>, end: int) -> Seq<(int, int)>
    decreases starts.len(),
{
    if starts.len() == 0 {
        Seq::empty()
    } else if MIN_LEN <= end - starts.last() <= MAX_LEN {
        sized(starts.drop_last(), end).push((starts.last() as int, end))
    } else {
        sized(starts.drop_last(), end)
    }
}

/// Every pair above the entry `j` weighs less than it and, where all entries
/// above it weigh less than `w`, less than `w`.
proof fn lemma_above(
    t: WeightTable,
    s: Seq<u8>,
    st: Seq<(usize, u32)>,
    i: int,
    j: int,
    w: u32,
    k: int,
)
    requires
        stack_inv(t, s, st, i),
        0 <= j < st.len(),
        forall|m: int| j < m < st.len() ==> (#[trigger] st[m]).1 <= w,
        st[j].0 < k < i,
    ensures
        pair_weight(t, s, k) < st[j].1,
        pair_weight(t, s, k) <= w,
        (forall|m: int| j < m < st.len() ==> (#[trigger] st[m]).1 < w) ==> pair_weight(t, s, k) < w,
{
    let m = lemma_gap(st, j, k);
    assert(st[m].1 <= w);
    assert(st[j].1 > st[m].1);
    if k < st[m].0 {
        assert(gap_below(t, s, st, m));
    }
}

/// Run the pair at `i`, of weight `w`, through the stack: `starts` receives
/// the start of every span the pair closes, nearest first, and the stack
/// moves on to the next pair.
fn advance(
    stack: &mut Vec<(usize, u32)>,
    i: usize,
    w: u32,
    starts: &mut Vec<usize>,
    Ghost(t): Ghost<WeightTable>,
    Ghost(s): Ghost<Seq<u8>>,
)
    requires
        stack_inv(t, s, old(stack)@, i as int),
        i + 1 < s.len(),
        w == pair_weight(t, s, i as int),
        s.len() <= usize::MAX,
    ensures
        stack_inv(t, s, final(stack)@, i + 1),
        sized(final(starts)@, i + 2) == spans_at(t, s, i as int, i - 1),
        forall|j: int| 0 <= j < final(starts)@.len() ==> final(starts)@[j] < i,
{
    let ghost st = stack@;
    starts.clear();
    let mut len: usize = stack.len();
    let mut open = true;
    proof {
        if i > 0 {
            assert(st[st.len() - 1].0 == i - 1);
        }
        assert(sized(starts@, i + 2) =~= Seq::<(int, int)>::empty());
        assert(sized(starts@, i + 2) + spans_at(t, s, i as int, i - 1) =~= spans_at(
            t,
            s,
            i as int,
            i - 1,
        ));
    }
    while len > 0 && open
        invariant
            stack@ == st,
            len <= st.len(),
            stack_inv(t, s, st, i as int),
            i + 1 < s.len(),
            s.len() <= usize::MAX,
            w == pair_weight(t, s, i as int),
            forall|j: int| 0 <= j < starts@.len() ==> starts@[j] < i,
            forall|m: int| len <= m < st.len() ==> (#[trigger] st[m]).1 <= w,
            open ==> (forall|m: int| len <= m < st.len() ==> (#[trigger] st[m]).1 < w),
            open && len > 0 ==> sized(starts@, i + 2) + spans_at(t, s, i as int, st[len - 1].0 as int)
                == spans_at(t, s, i as int, i - 1),
            !(open && len > 0) ==> sized(starts@, i + 2) == spans_at(t, s, i as int, i - 1),
            !open && len > 0 ==> st[len - 1].1 > w,
        decreases len, (if open { 1int } else { 0int }),
    {
        let (tpos, tw) = stack[len - 1];
        let ghost j = len - 1;
        let ghost prior = starts@;
        let ghost e = i + 2;
        starts.push(tpos);
        proof {
            assert(starts@.drop_last() =~= prior);
            assert(tpos < i);
            assert forall|k: int| tpos < k < i implies #[trigger] pair_weight(t, s, k)
                < pair_weight(t, s, tpos as int) && pair_weight(t, s, k) < pair_weight(
                t,
                s,
                i as int,
            ) by {
                lemma_above(t, s, st, i as int, j, w, k);
            }
            assert(is_hull(t, s, tpos as int, e));
            let rest = spans_at(t, s, i as int, tpos - 1);
            assert(sized(starts@, e) + rest =~= sized(prior, e) + spans_at(
                t,
                s,
                i as int,
                tpos as int,
            ));
        }
        if tw >= w {
            // the surviving top spans a gram ending here; an equal-weight top
            // collapses into the new entry
            proof {
                assert forall|p: int| -1 < p <= tpos - 1 implies !(#[trigger] is_gram(t, s, p, e)) by {
                    assert(pair_weight(t, s, tpos as int) >= pair_weight(t, s, i as int));
                }
                lemma_no_spans(t, s, i as int, e, tpos - 1, -1);
                assert(sized(starts@, i + 2) + Seq::<(int, int)>::empty() =~= sized(
                    starts@,
                    i + 2,
                ));
                if tw == w && j > 0 {
                    assert(st[j - 1].1 > st[j].1);
                }
            }
            open = false;
            if tw == w {
                len = len - 1;
            }
        } else {
            // a strictly lighter top closes its gram and pops
            len = len - 1;
            proof {
                if len > 0 {
                    let below = st[len - 1].0;
                    assert forall|p: int| below < p <= tpos - 1 implies !(#[trigger] is_gram(t, s, p, e)) by {
                        assert(gap_below(t, s, st, j));
                        assert(pair_weight(t, s, p) <= st[j].1);
                        assert(pair_weight(t, s, tpos as int) >= pair_weight(t, s, p));
                    }
                    assert(st[len - 1].0 < st[j].0);
                    lemma_no_spans(t, s, i as int, e, tpos - 1, below as int);
                } else {
                    assert forall|p: int| -1 < p <= tpos - 1 implies !(#[trigger] is_gram(t, s, p, e)) by {
                        if i - p <= MAX_LEN {
                            assert(pair_weight(t, s, p) <= st[0].1);
                            assert(pair_weight(t, s, tpos as int) >= pair_weight(t, s, p));
                        }
                    }
                    lemma_no_spans(t, s, i as int, e, tpos - 1, -1);
                    assert(sized(starts@, i + 2) + Seq::<(int, int)>::empty() =~= sized(
                        starts@,
                        i + 2,
                    ));
                }
            }
        }
    }
    proof {
        lemma_stack_next(t, s, st, i as int, w, len as int);
    }
    stack.truncate(len);
    assert(stack@ =~= st.take(len as int));
    if len >= STACK_CAP {
        // evict the oldest: too far back to start a gram within MAX_LEN
        stack.remove(0);
        assert(stack@ =~= st.subrange(1, len as int));
    }
    stack.push((i, w));
}

/// The stack after a pair: the oldest entry of a full stack makes room.
spec fn next_stack(st: Seq<(usize, u32)>, i: int, w: u32, len: int) -> Seq<(usize, u32)> {
    if len >= STACK_CAP {
        st.subrange(1, len).push((i as usize, w))
    } else {
        st.take(len).push((i as usize, w))
    }
}

proof fn lemma_stack_next(
    t: WeightTable,
    s: Seq<u8>,
    st: Seq<(usize, u32)>,
    i: int,
    w: u32,
    len: int,
)
    requires
        stack_inv(t, s, st, i),
        0 <= len <= st.len(),
        0 <= i <= usize::MAX,
        w == pair_weight(t, s, i),
        forall|m: int| len <= m < st.len() ==> (#[trigger] st[m]).1 <= w,
        len > 0 ==> st[len - 1].1 > w,
    ensures
        stack_inv(t, s, next_stack(st, i, w, len), i + 1),
{
    let new = next_stack(st, i, w, len);
    let shift: int = if len >= STACK_CAP {
        1
    } else {
        0
    };
    assert(new.len() == len - shift + 1);
    assert forall|j: int| 0 <= j < new.len() - 1 implies #[trigger] new[j] == st[j + shift] by {}
    assert(new[new.len() - 1] == (i as usize, w));
    assert forall|j: int| 0 <= j < new.len() implies (#[trigger] new[j]).0 < i + 1 && new[j].1
        == pair_weight(t, s, new[j].0 as int) by {
        if j < new.len() - 1 {
            assert(st[j + shift].0 < i);
        }
    }
    assert forall|j: int, k: int| 0 <= j < k < new.len() implies (#[trigger] new[j]).0 < (
    #[trigger] new[k]).0 && new[j].1 > new[k].1 by {
        assert(new[j] == st[j + shift]);
        if k < new.len() - 1 {
            assert(new[k] == st[k + shift]);
        } else {
            assert(st[j + shift].0 < i);
            if j + shift < len - 1 {
                assert(st[j + shift].1 > st[len - 1].1);
            }
        }
    }
    assert forall|j: int| 1 <= j < new.len() implies #[trigger] gap_below(t, s, new, j) by {
        assert(new[j - 1] == st[j - 1 + shift]);
        assert forall|k: int| new[j - 1].0 < k < new[j].0 implies #[trigger] pair_weight(t, s, k)
            <= new[j].1 by {
            if j < new.len() - 1 {
                assert(new[j] == st[j + shift]);
                assert(gap_below(t, s, st, j + shift));
            } else {
                lemma_above(t, s, st, i, len - 1, w, k);
            }
        }
    }
    assert forall|k: int| 0 <= k < new[0].0 && i + 1 - k <= MAX_LEN implies #[trigger] pair_weight(
        t,
        s,
        k,
    ) <= new[0].1 by {
        if len == 0 {
            if k <= st[0].0 {
                assert(st[0].1 <= w);
                if k < st[0].0 {
                    assert(pair_weight(t, s, k) <= st[0].1);
                } else {
                    assert(st[0].1 == pair_weight(t, s, k));
                }
            } else {
                lemma_above(t, s, st, i, 0, w, k);
            }
        } else if shift == 1 {
            lemma_positions_spread(st, st.len() - 1);
            assert(new[0] == st[1]);
            assert(st[0].0 < k);
            assert(gap_below(t, s, st, 1));
        } else {
            assert(new[0] == st[0]);
        }
    }
}

/// One emitted gram: its span and the rolling hash of its bytes.
#[derive(Debug, Clone, Copy, PartialEq, Eq, Structural)]
pub struct Emission {
    /// First byte of the gram.
    pub start: usize,
    /// One past the last byte of the gram.
    pub end: usize,
    /// The gram's hash.
    pub hash: u64,
}

/// The emissions list the spans, each with the hash of its bytes.
pub open spec fn emits(out: Seq<Emission>, spans: Seq<(int, int)>, s: Seq<u8>, key: HashKey) -> bool {
    &&& out.len() == spans.len()
    &&& forall|j: int|
        0 <= j < out.len() ==> (#[trigger] out[j]).start == spans[j].0 && out[j].end == spans[j].1
            && out[j].hash == gram_hash(s.subrange(spans[j].0, spans[j].1), key)
}

/// The ring holds the prefix hash of each of the last positions before `n`.
spec fn ring_inv(ring: Seq<u64>, s: Seq<u8>, n: int) -> bool {
    &&& ring.len() == RING
    &&& n <= s.len()
    &&& forall|p: int|
        #![trigger s.take(p + 1)]
        0 <= p < n && n - p <= RING ==> ring[p % RING as int] == prefix_hash(s.take(p + 1))
}

proof fn lemma_ring_write(ring: Seq<u64>, s: Seq<u8>, n: int, h: u64)
    requires
        ring_inv(ring, s, n),
        0 <= n < s.len(),
        h == prefix_hash(s.take(n + 1)),
    ensures
        ring_inv(ring.update(n % RING as int, h), s, n + 1),
{
    let new = ring.update(n % RING as int, h);
    assert forall|p: int|
        #![trigger s.take(p + 1)]
        0 <= p < n + 1 && n + 1 - p <= RING implies new[p % RING as int] == prefix_hash(
        s.take(p + 1),
    ) by {
        if p < n {
            assert(p % 128 != n % 128) by (nonlinear_arith)
                requires
                    0 <= p < n,
                    n - p < 128,
            ;
        }
    }
}

/// A ring of zeros.
fn empty_ring() -> (ring: Vec<u64>)
    ensures
        ring@.len() == RING,
{
    let mut ring: Vec<u64> = Vec::new();
    let mut k: usize = 0;
    while k < RING
        invariant
            k <= RING,
            ring@.len() == k,
        decreases RING - k,
    {
        ring.push(0);
        k = k + 1;
    }
    ring
}

/// The rolling hash of the span `start..end`; `h_end` is the prefix hash at
/// its last byte.
fn span_hash(
    ring: &Vec<u64>,
    h_end: u64,
    start: usize,
    end: usize,
    key: HashKey,
    Ghost(s): Ghost<Seq<u8>>,
) -> (hash: u64)
    requires
        start + MIN_LEN <= end <= start + MAX_LEN,
        end <= s.len(),
        ring_inv(ring@, s, end as int),
        h_end == prefix_hash(s.take(end as int)),
    ensures
        hash == gram_hash(s.subrange(start as int, end as int), key),
{
    let h_before: u64 = if start == 0 {
        proof {
            lemma_step(s.take(0), 0);
            assert(s.take(0) =~= Seq::<u8>::empty());
        }
        0
    } else {
        assert(s.take(start - 1 + 1) =~= s.take(start as int));
        ring[(start - 1) % RING]
    };
    proof {
        law_rolling_hash(s, start as int, end as int, key);
    }
    from_prefixes_keyed(h_end, h_before, end - start, key)
}

/// Extract every gram of `content`, in scan order.
///
/// The hash is a 64-bit rolling polynomial over the gram's bytes, computed
/// from prefix hashes and identical to [`Gram::hash`] of the same bytes, so
/// index keys and query keys agree.
///
/// Content of 4 GiB or more goes through [`StreamScanner`] instead.
pub fn scan(table: &WeightTable, content: &[u8]) -> (out: Vec<Emission>)
    requires
        content@.len() <= u32::MAX,
    ensures
        emits(out@, all_spans(*table, content@), content@, unkeyed()),
{
    scan_slice(table, content)
}

/// Refuse the length of a slice that is too large for a whole scan.
pub fn check_scan_len(len: usize) -> (out: Result<(), ScanError>)
    ensures
        match out {
            Ok(()) => len <= u32::MAX,
            Err(ScanError::TooLarge { len: told }) => len > u32::MAX && told == len,
        },
{
    if len > 0xFFFF_FFFF {
        return Err(ScanError::TooLarge { len });
    }
    Ok(())
}

/// Extract every gram of a slice, or refuse one that is too large for a whole
/// scan.
pub fn try_scan(table: &WeightTable, content: &[u8]) -> (out: Result<Vec<Emission>, ScanError>)
    ensures
        match out {
            Ok(out) => content@.len() <= u32::MAX && emits(
                out@,
                all_spans(*table, content@),
                content@,
                unkeyed(),
            ),
            Err(ScanError::TooLarge { len }) => content@.len() > u32::MAX && len == content@.len(),
        },
{
    match check_scan_len(content.len()) {
        Ok(()) => Ok(scan(table, content)),
        Err(e) => Err(e),
    }
}

/// Extract every gram of a slice, whatever its length.
pub fn scan_slice(table: &WeightTable, content: &[u8]) -> (out: Vec<Emission>)
    ensures
        emits(out@, all_spans(*table, content@), content@, unkeyed()),
{
    let mut out: Vec<Emission> = Vec::new();
    let ghost s = content@;
    let ghost t = *table;
    if content.len() < MIN_LEN {
        proof {
            lemma_short_has_none(t, s, s.len() - 1);
        }
        return out;
    }
    let key = HashKey::unkeyed();
    let mut stack: Vec<(usize, u32)> = Vec::new();
    let mut starts: Vec<usize> = Vec::new();
    let mut ring = empty_ring();
    let mut h: u64 = step(0, content[0]);
    proof {
        lemma_step(Seq::<u8>::empty(), s[0]);
        assert(Seq::<u8>::empty().push(s[0]) =~= s.take(1));
        assert(ring_inv(ring@, s, 0));
        lemma_ring_write(ring@, s, 0, h);
    }
    ring.set(0, h);
    let mut i: usize = 0;
    while i + 1 < content.len()
        invariant
            i < content@.len() <= usize::MAX,
            s == content@,
            t == *table,
            key == unkeyed(),
            stack_inv(t, s, stack@, i as int),
            ring_inv(ring@, s, i + 1),
            h == prefix_hash(s.take(i + 1)),
            emits(out@, spans(t, s, i as int), s, key),
        decreases content@.len() - i,
    {
        h = step(h, content[i + 1]);
        proof {
            lemma_step(s.take(i + 1), s[i + 1]);
            assert(s.take(i + 1).push(s[i + 1]) =~= s.take(i + 2));
            lemma_ring_write(ring@, s, i + 1, h);
        }
        ring.set((i + 1) % RING, h);
        let w: u32 = table.weight(content[i], content[i + 1]);
        advance(&mut stack, i, w, &mut starts, Ghost(t), Ghost(s));
        let ghost before_pair = spans(t, s, i as int);
        let mut j: usize = 0;
        assert(before_pair + sized(starts@.take(0), i + 2) =~= before_pair);
        while j < starts.len()
            invariant
                j <= starts@.len(),
                i + 1 < content@.len() <= usize::MAX,
                s == content@,
                ring_inv(ring@, s, i + 2),
                h == prefix_hash(s.take(i + 2)),
                forall|m: int| 0 <= m < starts@.len() ==> starts@[m] < i,
                emits(out@, before_pair + sized(starts@.take(j as int), i + 2), s, key),
            decreases starts@.len() - j,
        {
            let start: usize = starts[j];
            let len: usize = i + 2 - start;
            let ghost listed = before_pair + sized(starts@.take(j as int), i + 2);
            assert(starts@.take(j + 1).drop_last() =~= starts@.take(j as int));
            if MIN_LEN <= len && len <= MAX_LEN {
                let hash: u64 = span_hash(&ring, h, start, i + 2, key, Ghost(s));
                out.push(Emission { start, end: i + 2, hash });
                assert(before_pair + sized(starts@.take(j + 1), i + 2) =~= listed.push(
                    (start as int, i + 2),
                ));
            }
            j = j + 1;
        }
        assert(starts@.take(j as int) =~= starts@);
        i = i + 1;
    }
    out
}

proof fn lemma_short_has_none(t: WeightTable, s: Seq<u8>, n: int)
    requires
        s.len() < MIN_LEN,
    ensures
        spans(t, s, n).len() == 0,
    decreases n,
{
    lemma_spans(t, s, n);
    if spans(t, s, n).len() > 0 {
        let (q, e) = spans(t, s, n)[0];
        assert(spans(t, s, n).contains((q, e)));
    }
}

impl Gram {
    /// The gram's key in the unkeyed index.
    pub fn hash(&self) -> (hash: u64)
        ensures
            hash == gram_hash(self@, unkeyed()),
    {
        crate::hashing::hash_bytes(self.as_bytes())
    }
}

} // verus!
