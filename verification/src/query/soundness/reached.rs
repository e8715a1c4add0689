//! What a part of a pattern and the parts around it have to do with a line
//! break between them.

use vstd::prelude::*;

use crate::query::analyze::reach::{
    bare_before, claimed, claims, dropped_before, drops, free_after, free_before, is_single,
    near_after, near_before, opens_line, relaxed, relaxed_looks, trims, Relief,
};
use crate::query::analyze::{PlanContext, Sides};
use crate::query::edges::{shown_bytes, Edge};
use crate::query::hir::{
    concat_matches, in_ranges, look_holds, matched, repeats, split_at, Assertion, CharClass, Regex,
};
use crate::query::needs::facts::shortest;
use crate::query::soundness::junctions::{
    framed, goes_before, goes_behind, look_shows, looks_hold, offset, seen, stream_of,
};
use crate::query::soundness::needed::{lemma_last_copy, lemma_repeats_bounds, lemma_shortest};
use crate::query::soundness::shown::lemma_shown;
use crate::query::utf8::{is_continuation, is_scalar, lemma_utf8_bytes, utf8};

verus! {

/// All assertions hold at `m`.
pub open spec fn looks_true(looks: Seq<Assertion>, d: Seq<u8>, m: int) -> bool {
    0 <= m <= d.len() && forall|k: int|
        0 <= k < looks.len() ==> look_holds(#[trigger] looks[k], d, m)
}

/// A match is a span of the text.
pub proof fn lemma_span(h: Regex, d: Seq<u8>, a: int, b: int)
    requires
        matched(h, d, a, b),
    ensures
        0 <= a <= b <= d.len(),
{
    lemma_shortest(h, d, a, b);
}

/// The parts of a match come in order.
pub proof fn lemma_concat_order(h: Regex, n: int, d: Seq<u8>, a: int, b: int)
    requires
        h is Concat,
        concat_matches(h, n, d, a, b),
    ensures
        0 <= a <= b <= d.len(),
    decreases n,
{
    if n > 0 {
        let subs = h->Concat_0;
        let m = choose|m: int| #[trigger]
            split_at(m) && concat_matches(h, n - 1, d, a, m) && matched(subs@[n - 1], d, m, b);
        lemma_concat_order(h, n - 1, d, a, m);
    }
}

/// A line break in the stream is one in the text.
pub proof fn lemma_stream_byte(ctx: PlanContext, d: Seq<u8>, i: int)
    ensures
        0 <= i < d.len() ==> (framed(ctx, d)[i + offset(ctx)] == 10 <==> d[i] == 10),
        0 <= i < d.len() ==> (framed(ctx, d)[i + offset(ctx)] == 13 <==> d[i] == 13),
{
    if 0 <= i < d.len() {
        assert(framed(ctx, d)[i + offset(ctx)] == stream_of(ctx.fold, d)[i]);
    }
}

/// Copies that cannot end with the byte are all empty where it stands right
/// before their end.
pub proof fn lemma_copies_end(sub: Regex, d: Seq<u8>, a: int, b: int, n: int, byte: u8)
    requires
        sub.wf(),
        repeats(sub, d, a, b, n),
        !shown_bytes(sub, Edge::End).0.contains(byte),
        a < b ==> d[b - 1] == byte,
    ensures
        a == b,
    decreases n,
{
    if n > 0 {
        let m = lemma_last_copy(sub, d, a, b, n);
        lemma_repeats_bounds(sub, d, a, m, n - 1);
        lemma_shown(sub, d, m, b, Edge::End);
        lemma_span(sub, d, m, b);
        lemma_copies_end(sub, d, a, m, n - 1, byte);
    }
}

/// None of the first `n` parts stands for a line break while it is empty.
pub open spec fn quiet(subs: Seq<Regex>, n: int) -> bool
    decreases n,
{
    n <= 0 || (quiet(subs, n - 1) && !opens_line(subs, n - 1) && !claims(subs[n - 1], true))
}

/// Where an empty match stands for no break, none of its parts does.
pub proof fn lemma_quiet(h: Regex, n: int)
    requires
        h matches Regex::Concat(subs) && 0 <= n <= subs@.len(),
        shortest(h) == 0,
        !claims(h, true),
    ensures
        quiet(h->Concat_0@, n),
    decreases n,
{
    if n > 0 {
        lemma_quiet(h, n - 1);
        assert(!claims(h->Concat_0@[n - 1], true));
    }
}

/// Where a line break right behind the first parts is left to what comes next,
/// they are empty and stand for no break.
proof fn lemma_free_before(h: Regex, e: Sides, byte: u8, n: int, d: Seq<u8>, a: int, m: int)
    requires
        h.wf(),
        h matches Regex::Concat(subs) && n <= subs@.len(),
        concat_matches(h, n, d, a, m),
        free_before(h->Concat_0@, e, byte, n),
        a < m ==> d[m - 1] == byte,
    ensures
        a == m,
        quiet(h->Concat_0@, n),
        e.start,
    decreases n,
{
    if n > 0 {
        let sub = h->Concat_0@[n - 1];
        let k = choose|k: int| #[trigger]
            split_at(k) && concat_matches(h, n - 1, d, a, k) && matched(sub, d, k, m);
        lemma_concat_order(h, n - 1, d, a, k);
        lemma_shown(sub, d, k, m, Edge::End);
        lemma_shortest(sub, d, k, m);
        lemma_span(sub, d, k, m);
        lemma_free_before(h, e, byte, n - 1, d, a, k);
    }
}

/// A single character that starts or ends with a line break is that break.
proof fn lemma_single(h: Regex, d: Seq<u8>, a: int, b: int)
    requires
        matched(h, d, a, b),
        is_single(h),
        a < b,
    ensures
        d[a] < 0x80 || d[b - 1] < 0x80 ==> b == a + 1,
    decreases h,
{
    let s = d.subrange(a, b);
    match h {
        Regex::Capture(sub) => lemma_single(*sub, d, a, b),
        Regex::Class(CharClass::Unicode(ranges)) => {
            let cp = choose|cp: int|
                is_scalar(cp) && #[trigger] in_ranges(ranges@, cp) && s == utf8(cp);
            lemma_utf8_bytes(cp);
            assert(s[0] == d[a] && s.last() == d[b - 1]);
            if s.len() > 1 {
                assert(is_continuation(utf8(cp)[s.len() - 1]));
            }
        },
        _ => {
            assert(s.len() == b - a);
        },
    }
}

/// A single character is never empty.
proof fn lemma_single_len(h: Regex, d: Seq<u8>, a: int, b: int)
    requires
        matched(h, d, a, b),
        is_single(h),
    ensures
        a < b,
    decreases h,
{
    lemma_shortest(h, d, a, b);
    if let Regex::Capture(sub) = h {
        lemma_single_len(*sub, d, a, b);
    }
}

/// Copies without the first one.
proof fn lemma_first_apart(sub: Regex, d: Seq<u8>, a: int, b: int, n: int) -> (m: int)
    requires
        repeats(sub, d, a, b, n),
        n > 0,
    ensures
        matched(sub, d, a, m),
        repeats(sub, d, m, b, n - 1),
    decreases n,
{
    let k = lemma_last_copy(sub, d, a, b, n);
    if n == 1 {
        assert(a == k);
        assert(repeats(sub, d, b, b, 0));
        b
    } else {
        let m = lemma_first_apart(sub, d, a, k, n - 1);
        assert(split_at(k) && repeats(sub, d, m, k, n - 2) && matched(sub, d, k, b));
        m
    }
}

/// A run without the line break at its end, or at its start, is a run.
pub proof fn lemma_trims(h: Regex, d: Seq<u8>, a: int, b: int)
    requires
        matched(h, d, a, b),
        trims(h),
        a < b,
    ensures
        d[b - 1] < 0x80 ==> matched(h, d, a, b - 1),
        d[a] < 0x80 ==> matched(h, d, a + 1, b),
        shortest(h) == 0,
        !claims(h, false),
        !claims(h, true),
    decreases h,
{
    match h {
        Regex::Capture(sub) => lemma_trims(*sub, d, a, b),
        Regex::Repetition(rep) => {
            let n = choose|n: int| #[trigger]
                split_at(n) && rep.min <= n && (rep.max matches Some(max) ==> n <= max) && repeats(
                    *rep.sub,
                    d,
                    a,
                    b,
                    n,
                );
            let k = lemma_last_copy(*rep.sub, d, a, b, n);
            lemma_single_len(*rep.sub, d, k, b);
            lemma_single(*rep.sub, d, k, b);
            lemma_repeats_bounds(*rep.sub, d, a, k, n - 1);
            let m = lemma_first_apart(*rep.sub, d, a, b, n);
            lemma_single_len(*rep.sub, d, a, m);
            lemma_single(*rep.sub, d, a, m);
            lemma_repeats_bounds(*rep.sub, d, m, b, n - 1);
            assert(split_at(n - 1));
            lemma_trims_quiet(h);
        },
        _ => {},
    }
}

/// A run of single characters can be empty and stands for no break.
pub proof fn lemma_trims_quiet(h: Regex)
    requires
        trims(h),
    ensures
        shortest(h) == 0,
        !claims(h, false),
        !claims(h, true),
    decreases h,
{
    match h {
        Regex::Capture(sub) => lemma_trims_quiet(*sub),
        Regex::Repetition(rep) => lemma_single_quiet(*rep.sub),
        _ => {},
    }
}

proof fn lemma_single_quiet(h: Regex)
    requires
        is_single(h),
    ensures
        !claims(h, false),
        !claims(h, true),
    decreases h,
{
    if let Regex::Capture(sub) = h {
        lemma_single_quiet(*sub);
    }
}

/// Where a line break right behind the first parts is left to what comes next
/// or can be done without, they are empty and stand for no break, or match
/// without it too.
pub proof fn lemma_near_before(h: Regex, e: Sides, byte: u8, n: int, d: Seq<u8>, a: int, m: int)
    requires
        h.wf(),
        h matches Regex::Concat(subs) && n <= subs@.len(),
        concat_matches(h, n, d, a, m),
        near_before(h->Concat_0@, e, byte, n),
        a < m ==> d[m - 1] == byte,
        byte < 0x80,
    ensures
        a == m ==> quiet(h->Concat_0@, n) && e.start,
        a < m ==> n > 0 && concat_matches(h, n, d, a, m - 1) && trims(h->Concat_0@[n - 1])
            && !claimed(h->Concat_0@, n),
{
    if free_before(h->Concat_0@, e, byte, n) {
        lemma_free_before(h, e, byte, n, d, a, m);
        lemma_concat_order(h, n, d, a, m);
    } else {
        let sub = h->Concat_0@[n - 1];
        let k = choose|k: int| #[trigger]
            split_at(k) && concat_matches(h, n - 1, d, a, k) && matched(sub, d, k, m);
        lemma_concat_order(h, n - 1, d, a, k);
        lemma_trims_quiet(sub);
        if k == m {
            lemma_free_before(h, e, byte, n - 1, d, a, k);
        } else {
            lemma_trims(sub, d, k, m);
            assert(split_at(k) && concat_matches(h, n - 1, d, a, k) && matched(sub, d, k, m - 1));
            if claimed(h->Concat_0@, n) {
                let j = choose|j: int|
                    0 <= j < n && claims(#[trigger] h->Concat_0@[j], false);
                assert(claimed(h->Concat_0@, n - 1));
            }
        }
    }
}

/// Where the first parts are empty they can be.
pub proof fn lemma_bare_before(h: Regex, n: int, d: Seq<u8>, a: int, m: int)
    requires
        h matches Regex::Concat(subs) && n <= subs@.len(),
        concat_matches(h, n, d, a, m),
    ensures
        0 <= a <= m <= d.len(),
        a == m ==> bare_before(h->Concat_0@, n),
    decreases n,
{
    lemma_concat_order(h, n, d, a, m);
    if n > 0 {
        let sub = h->Concat_0@[n - 1];
        let k = choose|k: int| #[trigger]
            split_at(k) && concat_matches(h, n - 1, d, a, k) && matched(sub, d, k, m);
        lemma_bare_before(h, n - 1, d, a, k);
        lemma_shortest(sub, d, k, m);
    }
}

/// What matches the empty string wherever it stands does so at `m`.
pub proof fn lemma_drops(h: Regex, d: Seq<u8>, m: int)
    requires
        drops(h),
        0 <= m <= d.len(),
    ensures
        matched(h, d, m, m),
    decreases h, 1int, 0int,
{
    match h {
        Regex::Literal(bytes) => {
            assert(d.subrange(m, m) =~= bytes@);
        },
        Regex::Capture(sub) => lemma_drops(*sub, d, m),
        Regex::Repetition(rep) => {
            if rep.min == 0 {
                assert(split_at(0) && repeats(*rep.sub, d, m, m, 0));
            } else {
                lemma_drops_copies(*rep.sub, d, m, rep.min as int);
                assert(split_at(rep.min as int));
            }
        },
        Regex::Concat(subs) => lemma_drops_parts(h, subs@.len() as int, d, m),
        Regex::Alternation(subs) => {
            let i = choose|i: int| 0 <= i < subs@.len() && drops(#[trigger] subs@[i]);
            lemma_drops(subs@[i], d, m);
            assert(split_at(i) && matched(subs@[i], d, m, m));
        },
        _ => {},
    }
}

proof fn lemma_drops_copies(sub: Regex, d: Seq<u8>, m: int, n: int)
    requires
        drops(sub),
        0 <= m <= d.len(),
        0 <= n,
    ensures
        repeats(sub, d, m, m, n),
    decreases sub, 2int, n,
{
    if n > 0 {
        lemma_drops_copies(sub, d, m, n - 1);
        lemma_drops(sub, d, m);
        assert(split_at(m) && repeats(sub, d, m, m, n - 1) && matched(sub, d, m, m));
    }
}

proof fn lemma_drops_parts(h: Regex, n: int, d: Seq<u8>, m: int)
    requires
        h is Concat,
        0 <= n <= h->Concat_0@.len(),
        drops(h),
        0 <= m <= d.len(),
    ensures
        concat_matches(h, n, d, m, m),
    decreases h, 0int, n,
{
    if n > 0 {
        let sub = h->Concat_0@[n - 1];
        lemma_drops_parts(h, n - 1, d, m);
        lemma_drops(sub, d, m);
        assert(split_at(m) && concat_matches(h, n - 1, d, m, m) && matched(sub, d, m, m));
    }
}

/// Parts that step aside match nothing at `m`, and stand for no break.
pub proof fn lemma_dropped_before(h: Regex, n: int, d: Seq<u8>, m: int)
    requires
        h is Concat,
        0 <= n <= h->Concat_0@.len(),
        dropped_before(h->Concat_0@, n),
        0 <= m <= d.len(),
    ensures
        concat_matches(h, n, d, m, m),
        quiet(h->Concat_0@, n),
        n > 0 ==> !(h->Concat_0@[n - 1] is Look),
    decreases n,
{
    if n > 0 {
        let sub = h->Concat_0@[n - 1];
        lemma_dropped_before(h, n - 1, d, m);
        lemma_drops(sub, d, m);
        assert(split_at(m) && concat_matches(h, n - 1, d, m, m) && matched(sub, d, m, m));
    }
}

/// What has been claimed stays claimed.
pub proof fn lemma_claimed_on(subs: Seq<Regex>, n: int)
    requires
        0 < n <= subs.len(),
    ensures
        claimed(subs, n - 1) || claims(subs[n - 1], false) ==> claimed(subs, n),
{
    if claimed(subs, n - 1) {
        let j = choose|j: int| 0 <= j < n - 1 && claims(#[trigger] subs[j], false);
        assert(claimed(subs, n));
    }
}

/// A break behind the parts so far is left to them behind an empty part too.
pub proof fn lemma_after_claim(subs: Seq<Regex>, e: Sides, byte: u8, n: int)
    requires
        0 < n <= subs.len(),
        shortest(subs[n - 1]) == 0,
        near_after(subs, e, byte, n - 1),
    ensures
        !claims(subs[n - 1], true),
        free_after(subs, e, byte, n),
{
    if !free_after(subs, e, byte, n - 1) {
        lemma_trims_quiet(subs[n - 1]);
    }
}

/// Assertions that hold are let hold with the relief, and none of them is asked
/// of a sentinel.
pub proof fn lemma_relieved(
    ctx: PlanContext,
    looks: Seq<Assertion>,
    d: Seq<u8>,
    a: int,
    m: int,
    b: int,
    r: Relief,
)
    requires
        looks_true(looks, d, m),
        r.start || m > 0 || a >= offset(ctx),
        r.end || m < d.len() || b <= d.len() + offset(ctx),
    ensures
        looks_hold(ctx, relaxed_looks(r, looks), d, a, m, b),
{
    let all = relaxed_looks(r, looks);
    assert forall|k: int| 0 <= k < all.len() implies look_shows(#[trigger] all[k], d, m) && seen(
        ctx,
        d,
        all[k],
        a,
        b,
    ) by {
        assert(look_holds(looks[k], d, m));
        assert(all[k] == relaxed(r, looks[k]));
    }
}

/// Assertions that hold do not mind a line break that stands in for the bytes
/// behind them.
pub proof fn lemma_relieved_before(looks: Seq<Assertion>, d: Seq<u8>, m: int, x: u8, r: Relief)
    requires
        looks_true(looks, d, m),
        r.end || m < d.len(),
        x == 10 || r.under,
    ensures
        forall|i: int|
            0 <= i < looks.len() ==> goes_before(#[trigger] relaxed_looks(r, looks)[i], x),
{
    let all = relaxed_looks(r, looks);
    assert forall|i: int| 0 <= i < looks.len() implies goes_before(#[trigger] all[i], x) by {
        assert(look_holds(looks[i], d, m));
        assert(all[i] == relaxed(r, looks[i]));
    }
}

/// Assertions that hold do not mind a line break that stands in for the bytes
/// before them.
pub proof fn lemma_relieved_behind(looks: Seq<Assertion>, d: Seq<u8>, m: int, x: u8, r: Relief)
    requires
        looks_true(looks, d, m),
        r.start || m > 0,
        x == 10 || r.over,
    ensures
        forall|i: int|
            0 <= i < looks.len() ==> goes_behind(#[trigger] relaxed_looks(r, looks)[i], x),
{
    let all = relaxed_looks(r, looks);
    assert forall|i: int| 0 <= i < looks.len() implies goes_behind(#[trigger] all[i], x) by {
        assert(look_holds(looks[i], d, m));
        assert(all[i] == relaxed(r, looks[i]));
    }
}

} // verus!
