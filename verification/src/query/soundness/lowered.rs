//! A lowered plan asks nothing of an index that a matching document does not
//! give.

use vstd::prelude::*;

use crate::extract::{has_gram, is_gram, law_grams_survive, occurs_at, pair_weight};
use crate::query::algebra::{holds, Op, Tree};
use crate::query::analyze::fold::planned;
use crate::query::analyze::PlanContext;
use crate::query::flush::extends;
use crate::query::hir::{
    concat_matches, is_word, is_word_scalar, matched, split_at, unicode_word_after,
    unicode_word_before, Regex,
};
use crate::query::order::Order;
use crate::query::plan::{
    all_needles_hold, expr_holds, need_met, needle_holds, some_key, some_needle_holds, GramKey,
    Index, ScanSummary,
};
use crate::query::planner::lower::{
    expr_of, folded_key, has_letter, is_letter, keys_of, line_literal, needle_of, needles_of,
    raw_key, shapes_of, unwrapped, word_literal, word_look, Anchored, Shapes,
};
use crate::query::soundness::analyzed::law_plan_never_misses;
use crate::query::soundness::junctions::stream_of;
use crate::query::soundness::present;
use crate::query::strings::{lower_byte, lowered};
use crate::query::utf8::{
    ends_with_scalar, first_scalar, last_scalar, lemma_first_scalar, lemma_last_scalar,
    starts_with_scalar, utf8,
};
use crate::table::WeightTable;

verus! {

/// A gram with this key stands at `p..e` of the document.
pub open spec fn key_at(t: WeightTable, d: Seq<u8>, k: GramKey, p: int, e: int) -> bool {
    is_gram(t, d, p, e) && raw_key(d.subrange(p, e)) == k
}

/// A gram of the folded stream has this key in the folded space, and the
/// document spells it otherwise.
pub open spec fn folded_at(t: WeightTable, d: Seq<u8>, k: GramKey, p: int, e: int) -> bool {
    &&& is_gram(t, lowered(d), p, e)
    &&& lowered(d).subrange(p, e) != d.subrange(p, e)
    &&& folded_key(lowered(d).subrange(p, e)) == k
}

/// The text start or a non-word byte stands before `p`.
pub open spec fn word_opens(d: Seq<u8>, p: int) -> bool {
    p == 0 || !is_word(d[p - 1])
}

/// The text end or a non-word byte stands at `e`.
pub open spec fn word_closes(d: Seq<u8>, e: int) -> bool {
    e == d.len() || !is_word(d[e])
}

/// The text start or a line break stands before `p`.
pub open spec fn line_opens(d: Seq<u8>, p: int) -> bool {
    p == 0 || d[p - 1] == 10
}

/// The text end or a line break stands at `e`.
pub open spec fn line_closes(d: Seq<u8>, e: int) -> bool {
    e == d.len() || d[e] == 10
}

/// The key is indexed for the document: a gram of the text has it, or a
/// folded gram whose text is spelled with upper-case letters.
pub open spec fn indexed(t: WeightTable, d: Seq<u8>, k: GramKey) -> bool {
    ||| exists|p: int, e: int| key_at(t, d, k, p, e)
    ||| exists|p: int, e: int| folded_at(t, d, k, p, e)
}

/// The key occurs at the word edges asked for.
pub open spec fn at_word_edges(
    t: WeightTable,
    d: Seq<u8>,
    k: GramKey,
    starts: bool,
    ends: bool,
    whole: bool,
) -> bool {
    &&& starts ==> exists|p: int, e: int| key_at(t, d, k, p, e) && word_opens(d, p)
    &&& ends ==> exists|p: int, e: int| key_at(t, d, k, p, e) && word_closes(d, e)
    &&& whole ==> exists|p: int, e: int|
        key_at(t, d, k, p, e) && word_opens(d, p) && word_closes(d, e)
}

/// The key occurs at the line edges asked for.
pub open spec fn at_line_edges(
    t: WeightTable,
    d: Seq<u8>,
    k: GramKey,
    starts: bool,
    ends: bool,
) -> bool {
    &&& starts ==> exists|p: int, e: int| key_at(t, d, k, p, e) && line_opens(d, p)
    &&& ends ==> exists|p: int, e: int| key_at(t, d, k, p, e) && line_closes(d, e)
}

/// What an index holds of a document with this summary.
pub open spec fn index_of(t: WeightTable, d: Seq<u8>, summary: ScanSummary) -> Index {
    Index {
        key: |k: GramKey| indexed(t, d, k),
        word_edge: |k: GramKey, starts: bool, ends: bool, whole: bool|
            at_word_edges(t, d, k, starts, ends, whole),
        line_edge: |k: GramKey, starts: bool, ends: bool| at_line_edges(t, d, k, starts, ends),
        need: |n: crate::query::plan::ScanNeed| need_met(n, summary),
    }
}

/// Where a gram's text occurs, the gram occurs.
proof fn lemma_gram_moves(t: WeightTable, d: Seq<u8>, g: Seq<u8>, p: int)
    requires
        has_gram(t, d, g),
        0 <= p,
        p + g.len() <= d.len(),
        d.subrange(p, p + g.len()) == g,
    ensures
        is_gram(t, d, p, p + g.len()),
        key_at(t, d, raw_key(g), p, p + g.len()),
{
    let (q, e) = choose|q: int, e: int| is_gram(t, d, q, e) && g == #[trigger] d.subrange(q, e);
    assert(g.len() == e - q);
    lemma_gram_alone(t, d, q, e);
    assert(occurs_at(g, d, p));
    law_grams_survive(t, g, d, p, 0, g.len() as int);
}

/// A gram's text is a gram of itself.
proof fn lemma_gram_alone(t: WeightTable, d: Seq<u8>, q: int, e: int)
    requires
        is_gram(t, d, q, e),
    ensures
        is_gram(t, d.subrange(q, e), 0, e - q),
{
    let g = d.subrange(q, e);
    assert forall|k: int| 0 <= k < e - q - 1 implies #[trigger] pair_weight(t, g, k)
        == pair_weight(t, d, q + k) by {
        assert(g[k] == d[q + k]);
        assert(g[k + 1] == d[q + k + 1]);
    }
    assert forall|k: int| 0 < k < e - q - 2 implies #[trigger] pair_weight(t, g, k) < pair_weight(
        t,
        g,
        0,
    ) && pair_weight(t, g, k) < pair_weight(t, g, e - q - 2) by {
        assert(pair_weight(t, g, k) == pair_weight(t, d, q + k));
        assert(pair_weight(t, g, 0) == pair_weight(t, d, q + 0));
        assert(pair_weight(t, g, e - q - 2) == pair_weight(t, d, q + (e - q - 2)));
    }
}

/// A group matches what the expression in it matches.
proof fn lemma_unwrapped(h: Regex, d: Seq<u8>, a: int, b: int)
    requires
        matched(h, d, a, b),
    ensures
        matched(unwrapped(h), d, a, b),
    decreases h,
{
    match h {
        Regex::Capture(sub) => {
            lemma_unwrapped(*sub, d, a, b);
        },
        _ => {},
    }
}

/// The last of the first `n` parts ends a match of them.
proof fn lemma_last_part(h: Regex, n: int, d: Seq<u8>, a: int, b: int) -> (m: int)
    requires
        h is Concat,
        0 < n <= h->Concat_0@.len(),
        concat_matches(h, n, d, a, b),
    ensures
        concat_matches(h, n - 1, d, a, m),
        matched(h->Concat_0@[n - 1], d, m, b),
        0 <= m <= b <= d.len(),
{
    let subs = h->Concat_0;
    let m = choose|m: int| #[trigger]
        split_at(m) && concat_matches(h, n - 1, d, a, m) && matched(subs@[n - 1], d, m, b);
    m
}

pub proof fn lemma_ascii_last(s: Seq<u8>)
    requires
        s.len() > 0,
        is_word(s.last()),
    ensures
        is_word_scalar(last_scalar(s)),
{
    let cp = s.last() as int;
    assert(utf8(cp) =~= seq![s.last()]);
    assert(s.subrange(s.len() - 1, s.len() as int) =~= seq![s.last()]);
    assert(ends_with_scalar(s, cp));
    lemma_last_scalar(s, cp);
}

pub proof fn lemma_ascii_first(s: Seq<u8>)
    requires
        s.len() > 0,
        is_word(s[0]),
    ensures
        is_word_scalar(first_scalar(s)),
{
    let cp = s[0] as int;
    assert(utf8(cp) =~= seq![s[0]]);
    assert(s.subrange(0, 1) =~= seq![s[0]]);
    assert(starts_with_scalar(s, cp));
    lemma_first_scalar(s, cp);
}

/// A word boundary beside a word byte has no word byte on the other side.
proof fn lemma_word_edges(h: Regex, d: Seq<u8>, at: int)
    requires
        word_look(h),
        matched(h, d, at, at),
    ensures
        at < d.len() && is_word(d[at]) ==> word_opens(d, at),
        at > 0 && is_word(d[at - 1]) ==> word_closes(d, at),
{
    let before = d.subrange(0, at);
    let after = d.subrange(at, d.len() as int);
    if at > 0 && is_word(d[at - 1]) {
        assert(before.last() == d[at - 1]);
        lemma_ascii_last(before);
        assert(unicode_word_before(d, at));
    }
    if at < d.len() && is_word(d[at]) {
        assert(after[0] == d[at]);
        lemma_ascii_first(after);
        assert(unicode_word_after(d, at));
    }
}

/// A match of a word-bounded literal is the literal between word edges.
proof fn lemma_word_shape(h: Regex, d: Seq<u8>, a: int, b: int)
    requires
        word_literal(h) is Some,
        matched(h, d, a, b),
    ensures
        0 <= a <= b <= d.len(),
        d.subrange(a, b) == word_literal(h)->0,
        word_opens(d, a),
        word_closes(d, b),
{
    let subs = h->Concat_0;
    let lit = word_literal(h)->0;
    assert(concat_matches(h, 3, d, a, b));
    let m2 = lemma_last_part(h, 3, d, a, b);
    let m1 = lemma_last_part(h, 2, d, a, m2);
    let m0 = lemma_last_part(h, 1, d, a, m1);
    assert(concat_matches(h, 0, d, a, m0));
    lemma_unwrapped(subs@[1], d, m1, m2);
    assert(matched(unwrapped(subs@[1]), d, a, b));
    assert(d.subrange(a, b) == lit);
    assert(lit[0] == d[a]);
    assert(lit.last() == d[b - 1]);
    lemma_word_edges(subs@[0], d, a);
    lemma_word_edges(subs@[2], d, b);
}

/// A match of a line-anchored literal is the literal between line edges.
proof fn lemma_line_shape(h: Regex, d: Seq<u8>, a: int, b: int)
    requires
        line_literal(h) is Some,
        matched(h, d, a, b),
    ensures
        0 <= a <= b <= d.len(),
        d.subrange(a, b) == (line_literal(h)->0).literal,
        (line_literal(h)->0).starts ==> line_opens(d, a),
        (line_literal(h)->0).ends ==> line_closes(d, b),
{
    let subs = h->Concat_0;
    let line = line_literal(h)->0;
    let n = subs@.len() as int;
    assert(concat_matches(h, n, d, a, b));
    let m1 = lemma_last_part(h, n, d, a, b);
    let m0 = lemma_last_part(h, n - 1, d, a, m1);
    if n == 3 {
        let m = lemma_last_part(h, 1, d, a, m0);
        assert(concat_matches(h, 0, d, a, m));
        lemma_unwrapped(subs@[1], d, m0, m1);
    } else {
        assert(concat_matches(h, 0, d, a, m0));
        if line.starts {
            lemma_unwrapped(subs@[1], d, m1, b);
        } else {
            lemma_unwrapped(subs@[0], d, m0, m1);
        }
    }
}

/// The needle of a gram of a matching document finds it in the index.
proof fn lemma_needle(
    t: WeightTable,
    fold: bool,
    h: Regex,
    d: Seq<u8>,
    a: int,
    b: int,
    g: Seq<u8>,
    summary: ScanSummary,
)
    requires
        matched(h, d, a, b),
        has_gram(t, stream_of(fold, d), g),
    ensures
        needle_holds(needle_of(g, fold, shapes_of(h, fold)), index_of(t, d, summary)),
{
    let ix = index_of(t, d, summary);
    let keys = keys_of(g, fold);
    if fold {
        lemma_folded_needle(t, d, g);
        if has_letter(g) {
            assert(keys[0] == raw_key(g) && keys[1] == folded_key(g));
            assert(keys.contains(raw_key(g)) && keys.contains(folded_key(g)));
            assert(some_key(keys, ix));
        } else {
            assert((ix.key)(raw_key(g)));
        }
    } else {
        assert(keys[0] == raw_key(g));
        assert(keys.contains(raw_key(g)));
        let (p, e) = choose|p: int, e: int|
            is_gram(t, d, p, e) && g == #[trigger] d.subrange(p, e);
        assert(key_at(t, d, raw_key(g), p, e));
        assert((ix.key)(raw_key(g)));
        if word_literal(h) is Some {
            lemma_word_shape(h, d, a, b);
            lemma_word_needle(t, d, a, b, g, word_literal(h)->0);
        }
        if line_literal(h) is Some {
            lemma_line_shape(h, d, a, b);
            lemma_line_needle(t, d, a, b, g, line_literal(h)->0);
        }
    }
}

/// A gram of the folded stream is indexed under one of its keys.
proof fn lemma_folded_needle(t: WeightTable, d: Seq<u8>, g: Seq<u8>)
    requires
        has_gram(t, lowered(d), g),
    ensures
        indexed(t, d, raw_key(g)) || (has_letter(g) && indexed(t, d, folded_key(g))),
{
    let f = lowered(d);
    let (p, e) = choose|p: int, e: int| is_gram(t, f, p, e) && g == #[trigger] f.subrange(p, e);
    if d.subrange(p, e) == g {
        lemma_gram_alone(t, f, p, e);
        assert(occurs_at(g, d, p));
        law_grams_survive(t, g, d, p, 0, g.len() as int);
        assert(key_at(t, d, raw_key(g), p, e));
    } else {
        if !has_letter(g) {
            assert forall|i: int| 0 <= i < g.len() implies d.subrange(p, e)[i] == g[i] by {
                assert(g[i] == lower_byte(d[p + i]));
                assert(!is_letter(g[i]));
            }
            assert(d.subrange(p, e) =~= g);
        }
        assert(folded_at(t, d, folded_key(g), p, e));
    }
}

proof fn lemma_word_needle(
    t: WeightTable,
    d: Seq<u8>,
    a: int,
    b: int,
    g: Seq<u8>,
    lit: Seq<u8>,
)
    requires
        has_gram(t, d, g),
        0 <= a <= b <= d.len(),
        d.subrange(a, b) == lit,
        word_opens(d, a),
        word_closes(d, b),
    ensures
        at_word_edges(
            t,
            d,
            raw_key(g),
            extends(Order::Prefix, g, lit),
            extends(Order::Suffix, g, lit),
            g == lit,
        ),
{
    if extends(Order::Prefix, g, lit) {
        assert(d.subrange(a, a + g.len()) =~= g);
        lemma_gram_moves(t, d, g, a);
    }
    if extends(Order::Suffix, g, lit) {
        assert(d.subrange(b - g.len(), b - g.len() + g.len()) =~= g);
        lemma_gram_moves(t, d, g, b - g.len());
    }
    if g == lit {
        assert(extends(Order::Prefix, g, lit)) by {
            assert(lit.subrange(0, lit.len() as int) =~= lit);
        }
        assert(key_at(t, d, raw_key(g), a, b));
    }
}

proof fn lemma_line_needle(
    t: WeightTable,
    d: Seq<u8>,
    a: int,
    b: int,
    g: Seq<u8>,
    line: Anchored,
)
    requires
        has_gram(t, d, g),
        0 <= a <= b <= d.len(),
        d.subrange(a, b) == line.literal,
        line.starts ==> line_opens(d, a),
        line.ends ==> line_closes(d, b),
    ensures
        at_line_edges(
            t,
            d,
            raw_key(g),
            line.starts && extends(Order::Prefix, g, line.literal),
            line.ends && extends(Order::Suffix, g, line.literal),
        ),
{
    let lit = line.literal;
    if extends(Order::Prefix, g, lit) {
        assert(d.subrange(a, a + g.len()) =~= g);
        lemma_gram_moves(t, d, g, a);
    }
    if extends(Order::Suffix, g, lit) {
        assert(d.subrange(b - g.len(), b - g.len() + g.len()) =~= g);
        lemma_gram_moves(t, d, g, b - g.len());
    }
}

/// Where every present gram's needle holds, a query that holds lowers to an
/// expression that holds.
proof fn lemma_expr(
    q: Tree,
    fold: bool,
    shapes: Shapes,
    present: spec_fn(Seq<u8>) -> bool,
    ix: Index,
)
    requires
        holds(q, present),
        forall|g: Seq<u8>| #[trigger] present(g) ==> needle_holds(needle_of(g, fold, shapes), ix),
    ensures
        expr_holds(expr_of(q, fold, shapes), ix),
    decreases q,
{
    let grams = needles_of(q.grams, fold, shapes);
    let e = expr_of(q, fold, shapes);
    match q.op {
        Op::And => {
            assert forall|i: int| 0 <= i < grams.len() implies needle_holds(
                #[trigger] grams[i],
                ix,
            ) by {
                assert(q.grams.contains(q.grams[i]));
                assert(present(q.grams[i]));
            }
            assert(all_needles_hold(grams, ix));
            assert forall|i: int| 0 <= i < q.sub.len() implies expr_holds(
                #[trigger] e->AllOf_children[i],
                ix,
            ) by {
                lemma_expr(q.sub[i], fold, shapes, present, ix);
            }
        },
        Op::Or => {
            if exists|g: Seq<u8>| #[trigger] q.grams.contains(g) && present(g) {
                let g = choose|g: Seq<u8>| #[trigger] q.grams.contains(g) && present(g);
                let i = choose|i: int| 0 <= i < q.grams.len() && q.grams[i] == g;
                assert(needle_holds(grams[i], ix));
                assert(some_needle_holds(grams, ix));
            } else {
                let i = choose|i: int| 0 <= i < q.sub.len() && holds(#[trigger] q.sub[i], present);
                lemma_expr(q.sub[i], fold, shapes, present, ix);
                assert(expr_holds(e->AnyOf_children[i], ix));
            }
        },
        _ => {},
    }
}

/// The grams and edges that a plan asks for are in the index of every matching
/// document.
pub proof fn lemma_lowered(
    t: WeightTable,
    ctx: PlanContext,
    h: Regex,
    d: Seq<u8>,
    a: int,
    b: int,
    summary: ScanSummary,
)
    requires
        h.wf(),
        !ctx.line_sentinels,
        matched(h, d, a, b),
    ensures
        expr_holds(
            expr_of(planned(t, ctx, h), ctx.fold, shapes_of(h, ctx.fold)),
            index_of(t, d, summary),
        ),
{
    law_plan_never_misses(t, ctx, h, d, a, b);
    let p = present(t, stream_of(ctx.fold, d));
    assert forall|g: Seq<u8>| #[trigger] p(g) implies needle_holds(
        needle_of(g, ctx.fold, shapes_of(h, ctx.fold)),
        index_of(t, d, summary),
    ) by {
        lemma_needle(t, ctx.fold, h, d, a, b, g, summary);
    }
    lemma_expr(planned(t, ctx, h), ctx.fold, shapes_of(h, ctx.fold), p, index_of(t, d, summary));
}

} // verus!
