//! Filtering a junction by an assertion that holds there keeps what both sides
//! admit, and never calls it impossible.

use vstd::prelude::*;

use crate::query::analyze::looks::{
    ending_boundaries, head_boundary, head_survives, heads_after, junction, junctions, possible,
    possible_across, possible_after, possible_before, possible_between, starting_boundaries,
    tail_boundary, tail_survives, tails_before, with_heads, with_tails, Boundary,
};
use crate::query::analyze::reach::is_break;
use crate::query::analyze::PlanContext;
use crate::query::combine::{heads, tails};
use crate::query::flush::extends;
use crate::query::hir::{
    ascii_word_after, ascii_word_before, look_holds, unicode_word_after, unicode_word_before,
    word_of, Assertion,
};
use crate::query::info::Info;
use crate::query::order::Order;
use crate::query::soundness::{admits, lemma_extends_self, settled};
use crate::query::strings::{lemma_selected, lower_byte, lowered};
use crate::query::utf8::{
    ends_with_scalar, first_scalar, is_continuation, last_scalar, lemma_first_scalar,
    lemma_last_scalar, lemma_utf8_bytes, starts_with_scalar, utf8,
};
use crate::table::WeightTable;

verus! {

/// The stream the plan is made for: the text, folded or as it is.
pub open spec fn stream_of(fold: bool, d: Seq<u8>) -> Seq<u8> {
    if fold {
        lowered(d)
    } else {
        d
    }
}

/// The stream an index holds of a document: the text, folded or as it is, and
/// between line sentinels where the index has them.
pub open spec fn framed(ctx: PlanContext, d: Seq<u8>) -> Seq<u8> {
    if ctx.line_sentinels {
        seq![10u8] + stream_of(ctx.fold, d) + seq![10u8]
    } else {
        stream_of(ctx.fold, d)
    }
}

/// Where the text starts in the stream.
pub open spec fn offset(ctx: PlanContext) -> int {
    if ctx.line_sentinels {
        1
    } else {
        0
    }
}

/// A span of the text stands in the stream.
pub proof fn lemma_framed(ctx: PlanContext, d: Seq<u8>, a: int, b: int)
    requires
        0 <= a <= b <= d.len(),
    ensures
        framed(ctx, d).len() == d.len() + 2 * offset(ctx),
        framed(ctx, d).subrange(a + offset(ctx), b + offset(ctx)) == stream_of(
            ctx.fold,
            d,
        ).subrange(a, b),
{
    let o = offset(ctx);
    assert(framed(ctx, d).subrange(a + o, b + o) =~= stream_of(ctx.fold, d).subrange(a, b));
}

/// What a boundary says of its left neighbour is true before `m`, in a stream
/// that a match has come along from `a` on.
pub open spec fn left_true(
    ctx: PlanContext,
    d: Seq<u8>,
    a: int,
    m: int,
    l: Option<Boundary>,
) -> bool {
    l matches Some(b) ==> 0 <= a < m + offset(ctx) && 0 <= m <= d.len() && b.byte == framed(
        ctx,
        d,
    )[m + offset(ctx) - 1] && b.ascii_word == ascii_word_before(d, m) && (
    b.unicode_word matches Some(w) ==> w == unicode_word_before(d, m))
}

/// What a boundary says of its right neighbour is true at `m`, in a stream
/// that a match goes along up to `b`.
pub open spec fn right_true(
    ctx: PlanContext,
    d: Seq<u8>,
    m: int,
    b: int,
    r: Option<Boundary>,
) -> bool {
    r matches Some(c) ==> m + offset(ctx) < b <= d.len() + 2 * offset(ctx) && 0 <= m <= d.len()
        && c.byte == framed(ctx, d)[m + offset(ctx)] && c.ascii_word == ascii_word_after(d, m) && (
    c.unicode_word matches Some(w) ==> w == unicode_word_after(d, m))
}

/// A text anchor is asked only where the spans `a..` and `..b` of the stream
/// do not reach a sentinel.
pub open spec fn seen(ctx: PlanContext, d: Seq<u8>, look: Assertion, a: int, b: int) -> bool {
    &&& look == Assertion::Start ==> a >= offset(ctx)
    &&& look == Assertion::End ==> b <= d.len() + offset(ctx)
}

/// The bytes around `m` let the assertion hold, each on its own.
pub open spec fn look_shows(look: Assertion, d: Seq<u8>, m: int) -> bool {
    match look {
        Assertion::StartCRLF => m == 0 || is_break(true, d[m - 1]),
        Assertion::EndCRLF => m == d.len() || is_break(true, d[m]),
        _ => look_holds(look, d, m),
    }
}

/// An assertion that holds is seen to be possible.
proof fn lemma_possible(
    look: Assertion,
    ctx: PlanContext,
    d: Seq<u8>,
    a: int,
    m: int,
    b: int,
    l: Option<Boundary>,
    r: Option<Boundary>,
)
    requires
        0 <= m <= d.len(),
        seen(ctx, d, look, a, b),
        look_shows(look, d, m),
        left_true(ctx, d, a, m, l),
        right_true(ctx, d, m, b, r),
    ensures
        possible(look, l, r),
{
}

/// Folding changes neither which scalar beyond ASCII ends a text nor the
/// wordness of one in ASCII.
proof fn lemma_last_folded(fold: bool, d: Seq<u8>, m: int)
    requires
        0 <= m <= d.len(),
        last_scalar(stream_of(fold, d).subrange(0, m)) is Some,
    ensures
        last_scalar(d.subrange(0, m)) is Some,
        word_of(last_scalar(d.subrange(0, m))->0 as u32) == word_of(
            last_scalar(stream_of(fold, d).subrange(0, m))->0 as u32,
        ),
{
    let f = stream_of(fold, d).subrange(0, m);
    let e = d.subrange(0, m);
    let cp = last_scalar(f)->0;
    assert(ends_with_scalar(f, cp));
    lemma_utf8_bytes(cp);
    let u = utf8(cp);
    let n = u.len() as int;
    assert(u =~= f.subrange(m - n, m));
    if fold {
        if cp < 0x80 {
            assert(u[0] == f[m - 1]);
            let c = e[m - 1] as int;
            assert(f[m - 1] == lower_byte(e[m - 1]));
            assert(utf8(c) =~= e.subrange(m - 1, m));
            assert(ends_with_scalar(e, c));
            lemma_last_scalar(e, c);
        } else {
            assert forall|i: int| 0 <= i < n implies #[trigger] u[i] == e[m - n + i] by {
                assert(u[i] == f[m - n + i]);
                assert(f[m - n + i] == lower_byte(e[m - n + i]));
                if i > 0 {
                    assert(is_continuation(u[i]));
                }
                assert(u[i] >= 0x80);
            }
            assert(u =~= e.subrange(m - n, m));
            assert(ends_with_scalar(e, cp));
            lemma_last_scalar(e, cp);
        }
    }
}

proof fn lemma_first_folded(fold: bool, d: Seq<u8>, m: int)
    requires
        0 <= m <= d.len(),
        first_scalar(stream_of(fold, d).subrange(m, d.len() as int)) is Some,
    ensures
        first_scalar(d.subrange(m, d.len() as int)) is Some,
        word_of(first_scalar(d.subrange(m, d.len() as int))->0 as u32) == word_of(
            first_scalar(stream_of(fold, d).subrange(m, d.len() as int))->0 as u32,
        ),
{
    let f = stream_of(fold, d).subrange(m, d.len() as int);
    let e = d.subrange(m, d.len() as int);
    let cp = first_scalar(f)->0;
    assert(starts_with_scalar(f, cp));
    lemma_utf8_bytes(cp);
    let u = utf8(cp);
    let n = u.len() as int;
    assert(u =~= f.subrange(0, n));
    if fold {
        if cp < 0x80 {
            assert(u[0] == f[0]);
            let c = e[0] as int;
            assert(f[0] == lower_byte(e[0]));
            assert(utf8(c) =~= e.subrange(0, 1));
            assert(starts_with_scalar(e, c));
            lemma_first_scalar(e, c);
        } else {
            assert forall|i: int| 0 <= i < n implies #[trigger] u[i] == e[i] by {
                assert(u[i] == f[i]);
                assert(f[i] == lower_byte(e[i]));
                if i > 0 {
                    assert(is_continuation(u[i]));
                }
                assert(u[i] >= 0x80);
            }
            assert(u =~= e.subrange(0, n));
            assert(starts_with_scalar(e, cp));
            lemma_first_scalar(e, cp);
        }
    }
}

/// The boundary of a string that ends at `m` tells the truth.
proof fn lemma_left_true(ctx: PlanContext, d: Seq<u8>, a: int, m: int, s: Seq<u8>)
    requires
        0 <= m <= d.len(),
        0 <= a <= m + offset(ctx),
        extends(Order::Suffix, s, framed(ctx, d).subrange(a, m + offset(ctx))),
    ensures
        left_true(ctx, d, a, m, tail_boundary(s)),
{
    let o = offset(ctx);
    let k = m + o;
    let whole = framed(ctx, d);
    let f = stream_of(ctx.fold, d);
    if s.len() > 0 {
        assert(s.last() == whole.subrange(a, k)[k - a - 1]);
        assert(s.last() == whole[k - 1]);
        if m == 0 {
            assert(s.last() == 10);
            assert(utf8(10) =~= seq![10u8]);
            assert(s.subrange(s.len() - 1, s.len() as int) =~= seq![10u8]);
            assert(ends_with_scalar(s, 10));
            lemma_last_scalar(s, 10);
            lemma_no_scalar_before(d);
        } else {
            assert(whole[k - 1] == f[m - 1]);
            if last_scalar(s) is Some {
                let cp = last_scalar(s)->0;
                assert(ends_with_scalar(s, cp));
                let u = utf8(cp);
                let n = u.len() as int;
                lemma_utf8_bytes(cp);
                assert(u =~= s.subrange(s.len() - n, s.len() as int));
                assert forall|i: int| 0 <= i < n implies #[trigger] u[i] == whole[k - n + i] by {
                    assert(u[i] == s[s.len() - n + i]);
                    assert(s[s.len() - n + i] == whole.subrange(a, k)[k - a - n + i]);
                }
                if n > m {
                    assert(u[0] == whole[k - n]);
                    assert(n == m + 1 && o == 1);
                    assert(u[0] == 10);
                    assert(u[n - 1] == whole[k - 1]);
                }
                assert(f.subrange(0, m).subrange(m - n, m) =~= u) by {
                    assert forall|i: int| 0 <= i < n implies #[trigger] u[i] == f[m - n + i] by {
                        assert(u[i] == whole[k - n + i]);
                    }
                }
                assert(ends_with_scalar(f.subrange(0, m), cp));
                lemma_last_scalar(f.subrange(0, m), cp);
                lemma_last_folded(ctx.fold, d, m);
            }
        }
    }
}

/// No scalar ends before the start of a text.
proof fn lemma_no_scalar_before(d: Seq<u8>)
    ensures
        !unicode_word_before(d, 0),
{
    let none = d.subrange(0, 0);
    if last_scalar(none) is Some {
        let cp = last_scalar(none)->0;
        assert(ends_with_scalar(none, cp));
        lemma_utf8_bytes(cp);
    }
}

/// No scalar starts at the end of a text.
proof fn lemma_no_scalar_after(d: Seq<u8>)
    ensures
        !unicode_word_after(d, d.len() as int),
{
    let none = d.subrange(d.len() as int, d.len() as int);
    if first_scalar(none) is Some {
        let cp = first_scalar(none)->0;
        assert(starts_with_scalar(none, cp));
        lemma_utf8_bytes(cp);
    }
}

/// The boundary of a string that starts at `m` tells the truth.
proof fn lemma_right_true(ctx: PlanContext, d: Seq<u8>, m: int, b: int, s: Seq<u8>)
    requires
        0 <= m <= d.len(),
        m + offset(ctx) <= b <= framed(ctx, d).len(),
        extends(Order::Prefix, s, framed(ctx, d).subrange(m + offset(ctx), b)),
    ensures
        right_true(ctx, d, m, b, head_boundary(s)),
{
    let o = offset(ctx);
    let k = m + o;
    let whole = framed(ctx, d);
    let f = stream_of(ctx.fold, d);
    if s.len() > 0 {
        assert(s[0] == whole.subrange(k, b)[0]);
        if m == d.len() {
            assert(s[0] == 10);
            assert(utf8(10) =~= seq![10u8]);
            assert(s.subrange(0, 1) =~= seq![10u8]);
            assert(starts_with_scalar(s, 10));
            lemma_first_scalar(s, 10);
            lemma_no_scalar_after(d);
        } else {
            assert(whole[k] == f[m]);
            if first_scalar(s) is Some {
                let cp = first_scalar(s)->0;
                assert(starts_with_scalar(s, cp));
                let u = utf8(cp);
                let n = u.len() as int;
                lemma_utf8_bytes(cp);
                assert(u =~= s.subrange(0, n));
                assert forall|i: int| 0 <= i < n implies #[trigger] u[i] == whole[k + i] by {
                    assert(u[i] == s[i]);
                    assert(s[i] == whole.subrange(k, b)[i]);
                }
                let tail = f.subrange(m, d.len() as int);
                if n > tail.len() {
                    assert(u[tail.len() as int] == whole[k + tail.len()]);
                    assert(u[tail.len() as int] == 10);
                }
                assert(tail.subrange(0, n) =~= u) by {
                    assert forall|i: int| 0 <= i < n implies #[trigger] u[i] == f[m + i] by {
                        assert(u[i] == whole[k + i]);
                    }
                }
                assert(starts_with_scalar(tail, cp));
                lemma_first_scalar(tail, cp);
                lemma_first_folded(ctx.fold, d, m);
            }
        }
    }
}

/// The listed string that stands at the end of an admitted span.
proof fn lemma_tail_member(x: Info, t: WeightTable, f: Seq<u8>, a: int, m: int) -> (s: Seq<u8>)
    requires
        admits(x, t, f, a, m),
        x.exact is Some || a < m,
    ensures
        tails(x).contains(s),
        extends(Order::Suffix, s, f.subrange(a, m)),
        x.exact is Some ==> s == f.subrange(a, m),
{
    match x.exact {
        Some(exact) => {
            lemma_extends_self(Order::Suffix, f.subrange(a, m));
            f.subrange(a, m)
        },
        None => {
            let s = choose|s: Seq<u8>| #[trigger]
                x.suffix.contains(s) && extends(Order::Suffix, s, f.subrange(a, m));
            s
        },
    }
}

/// The listed string that stands at the start of an admitted span.
proof fn lemma_head_member(x: Info, t: WeightTable, f: Seq<u8>, m: int, b: int) -> (s: Seq<u8>)
    requires
        admits(x, t, f, m, b),
        x.exact is Some || m < b,
    ensures
        heads(x).contains(s),
        extends(Order::Prefix, s, f.subrange(m, b)),
        x.exact is Some ==> s == f.subrange(m, b),
{
    match x.exact {
        Some(exact) => {
            lemma_extends_self(Order::Prefix, f.subrange(m, b));
            f.subrange(m, b)
        },
        None => {
            let s = choose|s: Seq<u8>| #[trigger]
                x.prefix.contains(s) && extends(Order::Prefix, s, f.subrange(m, b));
            s
        },
    }
}

/// A known set of left boundaries holds a true one.
proof fn lemma_true_left(left: Option<Info>, t: WeightTable, ctx: PlanContext, d: Seq<u8>, a: int, m: int) -> (i:
    int)
    requires
        ending_boundaries(left) is Some,
        0 <= m <= d.len(),
        admits(left->0, t, framed(ctx, d), a, m + offset(ctx)),
    ensures
        0 <= i < ending_boundaries(left)->0.len(),
        left_true(ctx, d, a, m, Some((ending_boundaries(left)->0)[i])),
{
    let f = framed(ctx, d);
    let k = m + offset(ctx);
    let x = left->0;
    let s = lemma_tail_member(x, t, f, a, k);
    let set = tails(x);
    let i = choose|i: int| 0 <= i < set.len() && set[i] == s;
    lemma_left_true(ctx, d, a, m, s);
    assert(set[i].len() > 0);
    i
}

/// A known set of right boundaries holds a true one.
proof fn lemma_true_right(
    right: Option<Info>,
    t: WeightTable,
    ctx: PlanContext,
    d: Seq<u8>,
    m: int,
    b: int,
) -> (i: int)
    requires
        starting_boundaries(right) is Some,
        0 <= m <= d.len(),
        admits(right->0, t, framed(ctx, d), m + offset(ctx), b),
    ensures
        0 <= i < starting_boundaries(right)->0.len(),
        right_true(ctx, d, m, b, Some((starting_boundaries(right)->0)[i])),
{
    let f = framed(ctx, d);
    let k = m + offset(ctx);
    let x = right->0;
    let s = lemma_head_member(x, t, f, k, b);
    let set = heads(x);
    let i = choose|i: int| 0 <= i < set.len() && set[i] == s;
    lemma_right_true(ctx, d, m, b, s);
    assert(set[i].len() > 0);
    i
}

/// Filtering the right side keeps the string that stands there.
proof fn lemma_heads_kept(
    look: Assertion,
    ls: Seq<Boundary>,
    i: int,
    x: Info,
    t: WeightTable,
    ctx: PlanContext,
    d: Seq<u8>,
    a: int,
    m: int,
    b: int,
)
    requires
        0 <= m <= d.len(),
        seen(ctx, d, look, a, b),
        admits(x, t, framed(ctx, d), m + offset(ctx), b),
        look_shows(look, d, m),
        0 <= i < ls.len(),
        left_true(ctx, d, a, m, Some(ls[i])),
    ensures
        admits(
            with_heads(x, heads_after(look, ls, heads(x))),
            t,
            framed(ctx, d),
            m + offset(ctx),
            b,
        ),
        x.exact is Some || !x.can_empty ==> heads_after(look, ls, heads(x)).len() > 0,
{
    let f = framed(ctx, d);
    let k = m + offset(ctx);
    let set = heads(x);
    let keep = Seq::new(set.len(), |i: int| head_survives(look, ls, set[i]));
    let kept = heads_after(look, ls, set);
    if x.exact is Some || k < b {
        let s = lemma_head_member(x, t, f, k, b);
        let n = choose|n: int| 0 <= n < set.len() && set[n] == s;
        lemma_right_true(ctx, d, m, b, s);
        lemma_possible(look, ctx, d, a, m, b, Some(ls[i]), head_boundary(s));
        assert(possible(look, Some(ls[i]), head_boundary(s)));
        assert(keep[n]);
        lemma_selected(set, keep);
        assert(kept.contains(set[n]));
        assert(kept.contains(s) && extends(Order::Prefix, s, f.subrange(k, b)));
    }
}

/// Filtering the left side keeps the string that stands there.
proof fn lemma_tails_kept(
    look: Assertion,
    rs: Seq<Boundary>,
    i: int,
    x: Info,
    t: WeightTable,
    ctx: PlanContext,
    d: Seq<u8>,
    a: int,
    m: int,
    b: int,
)
    requires
        0 <= m <= d.len(),
        seen(ctx, d, look, a, b),
        admits(x, t, framed(ctx, d), a, m + offset(ctx)),
        look_shows(look, d, m),
        0 <= i < rs.len(),
        right_true(ctx, d, m, b, Some(rs[i])),
    ensures
        admits(
            with_tails(x, tails_before(look, rs, tails(x))),
            t,
            framed(ctx, d),
            a,
            m + offset(ctx),
        ),
        x.exact is Some || !x.can_empty ==> tails_before(look, rs, tails(x)).len() > 0,
{
    let f = framed(ctx, d);
    let k = m + offset(ctx);
    let set = tails(x);
    let keep = Seq::new(set.len(), |i: int| tail_survives(look, rs, set[i]));
    let kept = tails_before(look, rs, set);
    if x.exact is Some || a < k {
        let s = lemma_tail_member(x, t, f, a, k);
        let n = choose|n: int| 0 <= n < set.len() && set[n] == s;
        lemma_left_true(ctx, d, a, m, s);
        lemma_possible(look, ctx, d, a, m, b, tail_boundary(s), Some(rs[i]));
        assert(possible(look, tail_boundary(s), Some(rs[i])));
        assert(keep[n]);
        lemma_selected(set, keep);
        assert(kept.contains(set[n]));
        assert(kept.contains(s) && extends(Order::Suffix, s, f.subrange(a, k)));
    }
}

/// The two sides of a junction admit their spans.
pub open spec fn sides_admit(
    left: Option<Info>,
    right: Option<Info>,
    t: WeightTable,
    f: Seq<u8>,
    a: int,
    m: int,
    b: int,
) -> bool {
    &&& left matches Some(x) ==> admits(x, t, f, a, m)
    &&& right matches Some(y) ==> admits(y, t, f, m, b)
}

/// The sides of a junction are settled.
pub open spec fn sides_settled(left: Option<Info>, right: Option<Info>) -> bool {
    &&& left matches Some(x) ==> settled(x)
    &&& right matches Some(y) ==> settled(y)
}

proof fn lemma_junction_settled(look: Assertion, left: Option<Info>, right: Option<Info>)
    requires
        sides_settled(left, right),
    ensures
        sides_settled(junction(look, left, right).1, junction(look, left, right).2),
{
}

/// An assertion that holds leaves the junction possible and keeps what both
/// sides admit.
proof fn lemma_junction(
    look: Assertion,
    left: Option<Info>,
    right: Option<Info>,
    t: WeightTable,
    ctx: PlanContext,
    d: Seq<u8>,
    a: int,
    m: int,
    b: int,
)
    requires
        0 <= m <= d.len(),
        seen(ctx, d, look, a, b),
        look_shows(look, d, m),
        sides_admit(left, right, t, framed(ctx, d), a, m + offset(ctx), b),
    ensures
        ({
            let (blocked, left1, right1) = junction(look, left, right);
            !blocked && sides_admit(left1, right1, t, framed(ctx, d), a, m + offset(ctx), b)
        }),
{
    let ls = ending_boundaries(left);
    let rs = starting_boundaries(right);
    let f = framed(ctx, d);
    let k = m + offset(ctx);
    if ls is Some {
        let i = lemma_true_left(left, t, ctx, d, a, m);
        if right is Some {
            lemma_heads_kept(look, ls->0, i, right->0, t, ctx, d, a, m, b);
        }
        if rs is Some {
            let j = lemma_true_right(right, t, ctx, d, m, b);
            lemma_possible(look, ctx, d, a, m, b, Some((ls->0)[i]), Some((rs->0)[j]));
            assert(possible_after(look, ls->0, Some((rs->0)[j])));
            assert(possible_between(look, ls->0, rs->0));
        } else {
            lemma_possible(look, ctx, d, a, m, b, Some((ls->0)[i]), None);
            assert(possible_after(look, ls->0, None));
        }
    }
    if rs is Some {
        let j = lemma_true_right(right, t, ctx, d, m, b);
        if left is Some {
            lemma_tails_kept(look, rs->0, j, left->0, t, ctx, d, a, m, b);
        }
        if ls is None {
            lemma_possible(look, ctx, d, a, m, b, None, Some((rs->0)[j]));
            assert(possible_before(look, None, rs->0));
        }
    }
    assert(possible_across(look, ls, rs));
}

/// Assertions that all hold leave the junction possible and keep what both
/// sides admit.
pub proof fn lemma_junctions(
    looks: Seq<Assertion>,
    i: int,
    left: Option<Info>,
    right: Option<Info>,
    t: WeightTable,
    ctx: PlanContext,
    d: Seq<u8>,
    a: int,
    m: int,
    b: int,
)
    requires
        0 <= i <= looks.len(),
        0 <= m <= d.len(),
        forall|k: int|
            0 <= k < looks.len() ==> look_shows(#[trigger] looks[k], d, m) && seen(
                ctx,
                d,
                looks[k],
                a,
                b,
            ),
        sides_admit(left, right, t, framed(ctx, d), a, m + offset(ctx), b),
    ensures
        ({
            let (blocked, left1, right1) = junctions(looks, i, left, right);
            !blocked && sides_admit(left1, right1, t, framed(ctx, d), a, m + offset(ctx), b)
        }),
    decreases looks.len() - i,
{
    if i < looks.len() {
        lemma_junction(looks[i], left, right, t, ctx, d, a, m, b);
        let (blocked, left1, right1) = junction(looks[i], left, right);
        lemma_junctions(looks, i + 1, left1, right1, t, ctx, d, a, m, b);
    }
}

/// All assertions are let hold at `m`, and none is hidden by a sentinel in the
/// spans on its two sides.
pub open spec fn looks_hold(
    ctx: PlanContext,
    looks: Seq<Assertion>,
    d: Seq<u8>,
    a: int,
    m: int,
    b: int,
) -> bool {
    0 <= m <= d.len() && forall|k: int|
        0 <= k < looks.len() ==> look_shows(#[trigger] looks[k], d, m) && seen(
            ctx,
            d,
            looks[k],
            a,
            b,
        )
}

/// The line break `x` behind the assertion does not rule it out.
pub open spec fn goes_before(look: Assertion, x: u8) -> bool {
    look != Assertion::End && (look == Assertion::EndLF ==> x == 10)
}

/// The line break `x` before the assertion does not rule it out.
pub open spec fn goes_behind(look: Assertion, x: u8) -> bool {
    look != Assertion::Start && (look == Assertion::StartLF ==> x == 10)
}

/// Nothing stands on the left, and on the right a span of the stream that
/// starts with a line break, which no assertion minds.
pub open spec fn fits_before(looks: Seq<Assertion>, f: Seq<u8>, a: int, k: int, b: int) -> bool {
    &&& 0 <= a == k < b <= f.len()
    &&& is_break(true, f[k])
    &&& forall|i: int| 0 <= i < looks.len() ==> goes_before(#[trigger] looks[i], f[k])
}

/// Nothing stands on the right, and on the left a span of the stream that ends
/// with a line break, which no assertion minds.
pub open spec fn fits_behind(looks: Seq<Assertion>, f: Seq<u8>, a: int, k: int, b: int) -> bool {
    &&& 0 <= a < k == b <= f.len()
    &&& is_break(true, f[k - 1])
    &&& forall|i: int| 0 <= i < looks.len() ==> goes_behind(#[trigger] looks[i], f[k - 1])
}

/// The assertions between the spans `a..k` and `k..b` of the stream are let
/// hold.
pub open spec fn looks_fit(
    ctx: PlanContext,
    looks: Seq<Assertion>,
    d: Seq<u8>,
    a: int,
    k: int,
    b: int,
) -> bool {
    ||| looks_hold(ctx, looks, d, a, k - offset(ctx), b)
    ||| fits_before(looks, framed(ctx, d), a, k, b)
    ||| fits_behind(looks, framed(ctx, d), a, k, b)
}

/// What is admitted of nothing is admitted of nothing anywhere.
pub proof fn lemma_empty_anywhere(x: Info, t: WeightTable, f: Seq<u8>, i: int, j: int)
    requires
        admits(x, t, f, i, i),
        0 <= j <= f.len(),
    ensures
        admits(x, t, f, j, j),
{
    assert(f.subrange(i, i) =~= f.subrange(j, j));
}

proof fn lemma_before(
    look: Assertion,
    left: Option<Info>,
    right: Option<Info>,
    t: WeightTable,
    f: Seq<u8>,
    k: int,
    b: int,
)
    requires
        0 <= k < b <= f.len(),
        is_break(true, f[k]),
        goes_before(look, f[k]),
        sides_admit(left, right, t, f, k, k, b),
    ensures
        ({
            let (blocked, left1, right1) = junction(look, left, right);
            !blocked && right1 == right && sides_admit(left1, right1, t, f, k, k, b)
        }),
{
    let rs = starting_boundaries(right);
    assert(ending_boundaries(left) is None);
    if rs is Some {
        let y = right->0;
        let set = heads(y);
        let s = lemma_head_member(y, t, f, k, b);
        let j = choose|j: int| 0 <= j < set.len() && set[j] == s;
        assert(set[j].len() > 0);
        assert(s[0] == f.subrange(k, b)[0]);
        assert((rs->0)[j].byte == f[k]);
        assert(possible(look, None, Some((rs->0)[j])));
        assert(possible_before(look, None, rs->0));
        if left is Some {
            let x = left->0;
            let tails = tails(x);
            let keep = Seq::new(tails.len(), |i: int| tail_survives(look, rs->0, tails[i]));
            lemma_selected(tails, keep);
            if x.exact is Some {
                let e = f.subrange(k, k);
                let n = choose|n: int| 0 <= n < tails.len() && tails[n] == e;
                assert(keep[n]);
                assert(tails_before(look, rs->0, tails).contains(tails[n]));
            }
        }
    }
}

proof fn lemma_behind(
    look: Assertion,
    left: Option<Info>,
    right: Option<Info>,
    t: WeightTable,
    f: Seq<u8>,
    a: int,
    k: int,
)
    requires
        0 <= a < k <= f.len(),
        is_break(true, f[k - 1]),
        goes_behind(look, f[k - 1]),
        sides_admit(left, right, t, f, a, k, k),
    ensures
        ({
            let (blocked, left1, right1) = junction(look, left, right);
            !blocked && left1 == left && sides_admit(left1, right1, t, f, a, k, k)
        }),
{
    let ls = ending_boundaries(left);
    assert(starting_boundaries(right) is None);
    if ls is Some {
        let x = left->0;
        let set = tails(x);
        let s = lemma_tail_member(x, t, f, a, k);
        let j = choose|j: int| 0 <= j < set.len() && set[j] == s;
        assert(set[j].len() > 0);
        assert(s.last() == f.subrange(a, k).last());
        assert((ls->0)[j].byte == f[k - 1]);
        assert(possible(look, Some((ls->0)[j]), None));
        assert(possible_after(look, ls->0, None));
        if right is Some {
            let y = right->0;
            let heads = heads(y);
            let keep = Seq::new(heads.len(), |i: int| head_survives(look, ls->0, heads[i]));
            lemma_selected(heads, keep);
            if y.exact is Some {
                let e = f.subrange(k, k);
                let n = choose|n: int| 0 <= n < heads.len() && heads[n] == e;
                assert(keep[n]);
                assert(heads_after(look, ls->0, heads).contains(heads[n]));
            }
        }
    }
}

/// Assertions that are let hold leave the junction possible and keep what both
/// sides admit.
pub proof fn lemma_junctions_fit(
    looks: Seq<Assertion>,
    i: int,
    left: Option<Info>,
    right: Option<Info>,
    t: WeightTable,
    ctx: PlanContext,
    d: Seq<u8>,
    a: int,
    k: int,
    b: int,
)
    requires
        0 <= i <= looks.len(),
        looks_fit(ctx, looks, d, a, k, b),
        sides_admit(left, right, t, framed(ctx, d), a, k, b),
    ensures
        ({
            let (blocked, left1, right1) = junctions(looks, i, left, right);
            !blocked && sides_admit(left1, right1, t, framed(ctx, d), a, k, b)
        }),
    decreases looks.len() - i,
{
    let f = framed(ctx, d);
    if looks_hold(ctx, looks, d, a, k - offset(ctx), b) {
        lemma_junctions(looks, i, left, right, t, ctx, d, a, k - offset(ctx), b);
    } else if i < looks.len() {
        if fits_before(looks, f, a, k, b) {
            lemma_before(looks[i], left, right, t, f, k, b);
        } else {
            lemma_behind(looks[i], left, right, t, f, a, k);
        }
        let (blocked, left1, right1) = junction(looks[i], left, right);
        lemma_junctions_fit(looks, i + 1, left1, right1, t, ctx, d, a, k, b);
    }
}

pub proof fn lemma_junctions_settled(
    looks: Seq<Assertion>,
    i: int,
    left: Option<Info>,
    right: Option<Info>,
)
    requires
        sides_settled(left, right),
    ensures
        sides_settled(junctions(looks, i, left, right).1, junctions(looks, i, left, right).2),
    decreases looks.len() - i,
{
    if 0 <= i < looks.len() {
        lemma_junction_settled(looks[i], left, right);
        let (blocked, left1, right1) = junction(looks[i], left, right);
        lemma_junctions_settled(looks, i + 1, left1, right1);
    }
}

} // verus!
